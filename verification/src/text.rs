//! Text helpers: comparing, cutting, searching and building strings by
//! character, each stated over the sequence of characters that a string holds.
use vstd::prelude::*;
use vstd::string::*;
use vstd::utf8::encode_utf8;

verus! {

// ── comparing ───────────────────────────────────────────────────────

/// Whether two strings hold the same characters.
pub fn same(a: &str, b: &str) -> (equal: bool)
    ensures
        equal == (a@ == b@),
{
    a.to_owned() == b.to_owned()
}

/// Whether an optional string is present and holds the characters of `b`.
pub open spec fn is_some_text(a: Option<String>, b: Seq<char>) -> bool {
    a matches Some(text) && text@ == b
}

/// Whether an optional string is present and holds the characters of `b`.
pub fn is_text(a: &Option<String>, b: &str) -> (equal: bool)
    ensures
        equal == is_some_text(*a, b@),
{
    match a {
        Some(text) => same(text.as_str(), b),
        None => false,
    }
}

/// The characters of an optional string.
pub open spec fn view_opt(a: Option<String>) -> Option<Seq<char>> {
    match a {
        Some(text) => Some(text@),
        None => None,
    }
}

/// The characters of an optional string slice.
pub open spec fn view_opt_str(a: Option<&str>) -> Option<Seq<char>> {
    match a {
        Some(text) => Some(text@),
        None => None,
    }
}

/// Whether two optional strings hold the same characters, or are both absent.
pub fn same_opt(a: &Option<String>, b: &Option<String>) -> (equal: bool)
    ensures
        equal == (view_opt(*a) == view_opt(*b)),
{
    match (a, b) {
        (Some(x), Some(y)) => same(x.as_str(), y.as_str()),
        (None, None) => true,
        _ => false,
    }
}

/// A copy of an optional string.
pub fn clone_opt(a: &Option<String>) -> (copy: Option<String>)
    ensures
        copy == *a,
{
    match a {
        Some(text) => Some(text.clone()),
        None => None,
    }
}

/// An owned copy of an optional string slice.
pub fn own_opt(a: Option<&str>) -> (copy: Option<String>)
    ensures
        view_opt(copy) == view_opt_str(a),
{
    match a {
        Some(text) => Some(text.to_owned()),
        None => None,
    }
}

/// The characters of each string of a list.
pub open spec fn views(list: Seq<String>) -> Seq<Seq<char>> {
    list.map_values(|s: String| s@)
}

/// A copy of a list of strings.
pub fn clone_all(list: &Vec<String>) -> (copy: Vec<String>)
    ensures
        copy@ == list@,
{
    let mut copy: Vec<String> = Vec::new();
    let mut i: usize = 0;
    while i < list.len()
        invariant
            i <= list.len(),
            copy@ == list@.take(i as int),
        decreases list.len() - i,
    {
        copy.push(list[i].clone());
        proof {
            assert(list@.take(i + 1) =~= list@.take(i as int).push(list@[i as int]));
        }
        i += 1;
    }
    proof {
        assert(list@.take(i as int) =~= list@);
    }
    copy
}

/// Whether `s` is one of the strings of `list`.
pub fn contains(list: &Vec<String>, s: &str) -> (found: bool)
    ensures
        found == views(list@).contains(s@),
{
    let mut i: usize = 0;
    while i < list.len()
        invariant
            i <= list.len(),
            forall|k: int| 0 <= k < i ==> list@[k]@ != s@,
        decreases list.len() - i,
    {
        if same(list[i].as_str(), s) {
            proof {
                assert(views(list@)[i as int] == s@);
            }
            return true;
        }
        i += 1;
    }
    false
}

// ── characters in and out ───────────────────────────────────────────

/// Appends one character to a string, as `String::push` of std does.
#[verifier::external_body]
fn push_char(text: &mut String, c: char)
    ensures
        final(text)@ == old(text)@.push(c),
{
    text.push(c)
}

/// The characters of a string.
pub fn chars_of(s: &str) -> (chars: Vec<char>)
    ensures
        chars@ == s@,
{
    let mut chars: Vec<char> = Vec::new();
    for c in it: s.chars()
        invariant
            it.seq() == s@,
            chars@ == s@.take(it.index()),
    {
        chars.push(c);
        proof {
            assert(s@.take(it.index() + 1) =~= s@.take(it.index()).push(s@[it.index()]));
        }
    }
    proof {
        assert(s@.take(s@.len() as int) =~= s@);
    }
    chars
}

/// The string that holds the characters `chars[from..to]`.
pub fn text_of(chars: &Vec<char>, from: usize, to: usize) -> (text: String)
    requires
        from <= to <= chars.len(),
    ensures
        text@ == chars@.subrange(from as int, to as int),
{
    let mut text = String::new();
    let mut i: usize = from;
    while i < to
        invariant
            from <= i <= to <= chars.len(),
            text@ == chars@.subrange(from as int, i as int),
        decreases to - i,
    {
        push_char(&mut text, chars[i]);
        proof {
            assert(chars@.subrange(from as int, i + 1) =~= chars@.subrange(
                from as int,
                i as int,
            ).push(chars@[i as int]));
        }
        i += 1;
    }
    text
}

/// The string that holds `chars`.
pub fn text_from(chars: &Vec<char>) -> (text: String)
    ensures
        text@ == chars@,
{
    proof {
        assert(chars@.subrange(0, chars@.len() as int) =~= chars@);
    }
    text_of(chars, 0, chars.len())
}

/// How many bytes a string takes.
pub fn byte_len(s: &str) -> (n: usize)
    ensures
        n == encode_utf8(s@).len(),
{
    s.as_bytes().len()
}

// ── joining ─────────────────────────────────────────────────────────

/// Two strings, one after the other.
pub fn cat(a: &str, b: &str) -> (text: String)
    ensures
        text@ == a@ + b@,
{
    let mut text = a.to_owned();
    text.append(b);
    text
}

/// Three strings, one after the other.
pub fn cat3(a: &str, b: &str, c: &str) -> (text: String)
    ensures
        text@ == a@ + b@ + c@,
{
    let mut text = cat(a, b);
    text.append(c);
    text
}

/// Five strings, one after the other.
pub fn cat5(a: &str, b: &str, c: &str, d: &str, e: &str) -> (text: String)
    ensures
        text@ == a@ + b@ + c@ + d@ + e@,
{
    let mut text = cat3(a, b, c);
    text.append(d);
    text.append(e);
    text
}

/// Strings with a separator between each two.
pub open spec fn joined(parts: Seq<Seq<char>>, separator: Seq<char>) -> Seq<char>
    decreases parts.len(),
{
    if parts.len() == 0 {
        Seq::empty()
    } else if parts.len() == 1 {
        parts[0]
    } else {
        joined(parts.drop_last(), separator) + separator + parts.last()
    }
}

/// Strings with a separator between each two.
pub fn join(parts: &Vec<String>, separator: &str) -> (text: String)
    ensures
        text@ == joined(views(parts@), separator@),
{
    let mut text = String::new();
    let mut i: usize = 0;
    while i < parts.len()
        invariant
            i <= parts.len(),
            text@ == joined(views(parts@.take(i as int)), separator@),
        decreases parts.len() - i,
    {
        proof {
            let next = views(parts@.take(i + 1));
            assert(next.drop_last() =~= views(parts@.take(i as int)));
            assert(next.last() == parts@[i as int]@);
            assert(i == 0 ==> Seq::<char>::empty() + parts@[i as int]@ =~= parts@[i as int]@);
        }
        if i > 0 {
            text.append(separator);
        }
        text.append(parts[i].as_str());
        i += 1;
    }
    proof {
        assert(parts@.take(i as int) =~= parts@);
    }
    text
}

/// Adds a line to a list.
pub fn add_line(lines: &mut Vec<String>, line: String)
    ensures
        views(final(lines)@) == views(old(lines)@).push(line@),
{
    let ghost before = lines@;
    let ghost added = line@;
    lines.push(line);
    proof {
        assert(views(lines@) =~= views(before).push(added));
    }
}

/// Adds lines to a list.
pub fn add_lines(lines: &mut Vec<String>, more: Vec<String>)
    ensures
        views(final(lines)@) == views(old(lines)@) + views(more@),
{
    let ghost before = lines@;
    let mut more = more;
    let ghost added = more@;
    lines.append(&mut more);
    proof {
        assert(views(lines@) =~= views(before) + views(added));
    }
}

/// One line of text for each item of a list.
pub fn lines_for<T, F: Fn(&T) -> String>(
    items: &Vec<T>,
    line: F,
    Ghost(said): Ghost<spec_fn(T) -> Seq<char>>,
) -> (lines: Vec<String>)
    requires
        forall|item: T| #[trigger] line.requires((&item,)),
        forall|item: T, out: String| #[trigger] line.ensures((&item,), out) ==> out@ == said(item),
    ensures
        views(lines@) == items@.map_values(said),
{
    let mut lines: Vec<String> = Vec::new();
    let mut i: usize = 0;
    while i < items.len()
        invariant
            i <= items.len(),
            forall|item: T| #[trigger] line.requires((&item,)),
            forall|item: T, out: String| #[trigger]
                line.ensures((&item,), out) ==> out@ == said(item),
            lines.len() == i,
            forall|k: int| 0 <= k < i ==> (#[trigger] lines@[k])@ == said(items@[k]),
        decreases items.len() - i,
    {
        let next = line(&items[i]);
        lines.push(next);
        i += 1;
    }
    proof {
        assert(views(lines@) =~= items@.map_values(said));
    }
    lines
}

/// A string with spaces after it, up to a number of characters.
pub open spec fn padded(s: Seq<char>, width: nat) -> Seq<char> {
    if s.len() < width {
        s + Seq::new((width - s.len()) as nat, |i: int| ' ')
    } else {
        s
    }
}

/// A string with spaces after it, up to a number of characters.
pub fn pad(s: &str, width: usize) -> (text: String)
    ensures
        text@ == padded(s@, width as nat),
{
    let mut text = s.to_owned();
    let mut n: usize = s.unicode_len();
    let ghost start = n as nat;
    while n < width
        invariant
            start == s@.len(),
            start <= n,
            n <= width || n == start,
            text@ == s@ + Seq::new((n - start) as nat, |i: int| ' '),
        decreases width - n,
    {
        push_char(&mut text, ' ');
        n += 1;
        proof {
            assert(text@ =~= s@ + Seq::new((n - start) as nat, |i: int| ' '));
        }
    }
    proof {
        assert(s@ + Seq::new(0, |i: int| ' ') =~= s@);
    }
    text
}

// ── character classes ───────────────────────────────────────────────

/// The characters with Unicode's `White_Space` property.
pub open spec fn is_white(c: char) -> bool {
    ||| '\u{9}' <= c <= '\u{d}'
    ||| c == ' '
    ||| c == '\u{85}'
    ||| c == '\u{a0}'
    ||| c == '\u{1680}'
    ||| '\u{2000}' <= c <= '\u{200a}'
    ||| c == '\u{2028}'
    ||| c == '\u{2029}'
    ||| c == '\u{202f}'
    ||| c == '\u{205f}'
    ||| c == '\u{3000}'
}

/// Whether `c` is white space.
pub fn white(c: char) -> (yes: bool)
    ensures
        yes == is_white(c),
{
    ('\u{9}' <= c && c <= '\u{d}') || c == ' ' || c == '\u{85}' || c == '\u{a0}' || c
        == '\u{1680}' || ('\u{2000}' <= c && c <= '\u{200a}') || c == '\u{2028}' || c
        == '\u{2029}' || c == '\u{202f}' || c == '\u{205f}' || c == '\u{3000}'
}

/// The ASCII digits.
pub open spec fn is_digit(c: char) -> bool {
    '0' <= c <= '9'
}

/// The ASCII letters and digits.
pub open spec fn is_alnum(c: char) -> bool {
    is_digit(c) || 'a' <= c <= 'z' || 'A' <= c <= 'Z'
}

/// Whether `c` is an ASCII letter or digit.
pub fn alnum(c: char) -> (yes: bool)
    ensures
        yes == is_alnum(c),
{
    ('0' <= c && c <= '9') || ('a' <= c && c <= 'z') || ('A' <= c && c <= 'Z')
}

/// `c` with an ASCII capital replaced by its small letter.
pub open spec fn lower_char(c: char) -> char {
    if 'A' <= c <= 'Z' {
        (c as u32 + 32) as char
    } else {
        c
    }
}

/// `c` with an ASCII capital replaced by its small letter.
pub fn lowered_char(c: char) -> (low: char)
    ensures
        low == lower_char(c),
{
    if 'A' <= c && c <= 'Z' {
        let code: u8 = c as u8;
        (code + 32) as char
    } else {
        c
    }
}

/// Each character with ASCII capitals replaced by small letters.
pub open spec fn lower(s: Seq<char>) -> Seq<char> {
    s.map_values(|c: char| lower_char(c))
}

/// A copy with ASCII capitals replaced by small letters.
pub fn lowercase(s: &str) -> (text: String)
    ensures
        text@ == lower(s@),
{
    let chars = chars_of(s);
    let mut out: Vec<char> = Vec::new();
    let mut i: usize = 0;
    while i < chars.len()
        invariant
            i <= chars.len(),
            out@.len() == i,
            forall|k: int| 0 <= k < i ==> out@[k] == lower_char(chars@[k]),
        decreases chars.len() - i,
    {
        out.push(lowered_char(chars[i]));
        i += 1;
    }
    proof {
        assert(out@ =~= lower(chars@));
    }
    text_from(&out)
}

/// Lowering a lowered text changes nothing.
pub proof fn lemma_lower_idempotent(s: Seq<char>)
    ensures
        lower(lower(s)) == lower(s),
{
    assert(lower(lower(s)) =~= lower(s));
}

// ── trimming ────────────────────────────────────────────────────────

/// `s` without its leading white space.
pub open spec fn trim_left(s: Seq<char>) -> Seq<char>
    decreases s.len(),
{
    if s.len() > 0 && is_white(s[0]) {
        trim_left(s.skip(1))
    } else {
        s
    }
}

/// `s` without its trailing white space.
pub open spec fn trim_right(s: Seq<char>) -> Seq<char>
    decreases s.len(),
{
    if s.len() > 0 && is_white(s.last()) {
        trim_right(s.drop_last())
    } else {
        s
    }
}

/// `s` without the white space at its two ends.
pub open spec fn trimmed(s: Seq<char>) -> Seq<char> {
    trim_right(trim_left(s))
}

/// The part of `s` between the white space at its two ends.
pub fn trim<'a>(s: &'a str) -> (part: &'a str)
    ensures
        part@ == trimmed(s@),
{
    let chars = chars_of(s);
    let mut from: usize = 0;
    proof {
        assert(s@.skip(0) =~= s@);
    }
    while from < chars.len() && white(chars[from])
        invariant
            chars@ == s@,
            from <= chars.len(),
            trim_left(s@) == trim_left(s@.skip(from as int)),
        decreases chars.len() - from,
    {
        proof {
            assert(s@.skip(from as int).skip(1) =~= s@.skip(from + 1));
        }
        from += 1;
    }
    let ghost rest = s@.skip(from as int);
    assert(trim_left(s@) == rest);
    let mut to: usize = chars.len();
    proof {
        assert(s@.subrange(from as int, to as int) =~= rest);
    }
    while from < to && white(chars[to - 1])
        invariant
            chars@ == s@,
            from <= to <= chars.len(),
            trim_right(rest) == trim_right(s@.subrange(from as int, to as int)),
        decreases to - from,
    {
        proof {
            assert(s@.subrange(from as int, to as int).drop_last() =~= s@.subrange(
                from as int,
                to - 1,
            ));
        }
        to -= 1;
    }
    s.substring_char(from, to)
}

/// Whether nothing but white space is in `s`.
pub fn blank(s: &str) -> (yes: bool)
    ensures
        yes == (trimmed(s@).len() == 0),
{
    let part = trim(s);
    part.is_empty()
}

// ── searching ───────────────────────────────────────────────────────

/// Whether `p` stands in `s` from position `i` on.
pub open spec fn occurs_at(s: Seq<char>, p: Seq<char>, i: int) -> bool {
    0 <= i && i + p.len() <= s.len() && s.subrange(i, i + p.len()) == p
}

/// Whether `p` stands somewhere in `s`.
pub open spec fn occurs(s: Seq<char>, p: Seq<char>) -> bool {
    exists|i: int| occurs_at(s, p, i)
}

/// Whether `p` stands in `chars` from position `i` on.
pub fn stands_at(chars: &Vec<char>, p: &Vec<char>, i: usize) -> (yes: bool)
    requires
        i <= chars.len(),
    ensures
        yes == occurs_at(chars@, p@, i as int),
{
    if chars.len() - i < p.len() {
        return false;
    }
    let mut k: usize = 0;
    while k < p.len()
        invariant
            k <= p.len(),
            i + p.len() <= chars.len(),
            forall|m: int| 0 <= m < k ==> chars@[i + m] == p@[m],
        decreases p.len() - k,
    {
        if chars[i + k] != p[k] {
            proof {
                assert(chars@.subrange(i as int, i + p@.len())[k as int] != p@[k as int]);
            }
            return false;
        }
        k += 1;
    }
    proof {
        assert(chars@.subrange(i as int, i + p@.len()) =~= p@);
    }
    true
}

/// The first position at which `p` stands in `s`.
pub open spec fn is_first_at(s: Seq<char>, p: Seq<char>, found: Option<int>) -> bool {
    match found {
        Some(i) => occurs_at(s, p, i) && forall|j: int| #[trigger] occurs_at(s, p, j) ==> i <= j,
        None => !occurs(s, p),
    }
}

/// The first position at which `p` stands in `s`, counted in characters.
pub fn find(s: &str, p: &str) -> (found: Option<usize>)
    ensures
        match found {
            Some(i) => is_first_at(s@, p@, Some(i as int)),
            None => !occurs(s@, p@),
        },
{
    let chars = chars_of(s);
    let wanted = chars_of(p);
    let mut i: usize = 0;
    loop
        invariant
            chars@ == s@,
            wanted@ == p@,
            i <= chars.len(),
            forall|j: int| 0 <= j < i ==> !#[trigger] occurs_at(s@, p@, j),
        decreases chars.len() - i,
    {
        if stands_at(&chars, &wanted, i) {
            return Some(i);
        }
        if i == chars.len() {
            return None;
        }
        i += 1;
    }
}

/// Whether `p` stands somewhere in `s`.
pub fn has(s: &str, p: &str) -> (yes: bool)
    ensures
        yes == occurs(s@, p@),
{
    find(s, p).is_some()
}

/// Whether `s` begins with `p`.
pub fn begins(s: &str, p: &str) -> (yes: bool)
    ensures
        yes == p@.is_prefix_of(s@),
{
    let chars = chars_of(s);
    let wanted = chars_of(p);
    stands_at(&chars, &wanted, 0)
}

/// Whether `s` ends with `p`.
pub fn ends(s: &str, p: &str) -> (yes: bool)
    ensures
        yes == p@.is_suffix_of(s@),
{
    let chars = chars_of(s);
    let wanted = chars_of(p);
    if wanted.len() > chars.len() {
        return false;
    }
    stands_at(&chars, &wanted, chars.len() - wanted.len())
}

/// What follows `p` in `s`, where `s` begins with `p`.
pub open spec fn stripped(s: Seq<char>, p: Seq<char>) -> Option<Seq<char>> {
    if p.is_prefix_of(s) {
        Some(s.skip(p.len() as int))
    } else {
        None
    }
}

/// What follows `p` in `s`, where `s` begins with `p`.
pub fn strip<'a>(s: &'a str, p: &str) -> (rest: Option<&'a str>)
    ensures
        view_opt_str(rest) == stripped(s@, p@),
{
    if begins(s, p) {
        let from: usize = p.unicode_len();
        let to: usize = s.unicode_len();
        proof {
            assert(s@.subrange(from as int, to as int) =~= s@.skip(from as int));
        }
        Some(s.substring_char(from, to))
    } else {
        None
    }
}

/// The parts of `s` before and after the first `mark` in it.
pub open spec fn is_cut_at(
    s: Seq<char>,
    mark: Seq<char>,
    cut: Option<(Seq<char>, Seq<char>)>,
) -> bool {
    match cut {
        Some(parts) => {
            &&& is_first_at(s, mark, Some(parts.0.len() as int))
            &&& s == parts.0 + mark + parts.1
        },
        None => !occurs(s, mark),
    }
}

/// The parts of `s` before and after the first `mark` in it.
pub fn cut_at<'a>(s: &'a str, mark: &str) -> (cut: Option<(&'a str, &'a str)>)
    ensures
        match cut {
            Some(parts) => is_cut_at(s@, mark@, Some((parts.0@, parts.1@))),
            None => !occurs(s@, mark@),
        },
{
    match find(s, mark) {
        Some(i) => {
            let n: usize = mark.unicode_len();
            let len: usize = s.unicode_len();
            proof {
                assert(s@ =~= s@.subrange(0, i as int) + mark@ + s@.subrange(
                    i + n,
                    len as int,
                )) by {
                    assert(s@.subrange(i as int, i + n) == mark@);
                }
            }
            Some((s.substring_char(0, i), s.substring_char(i + n, len)))
        },
        None => None,
    }
}

/// The two sides of the first place where a mark stands in a text.
pub open spec fn sides(s: Seq<char>, mark: Seq<char>) -> Option<(Seq<char>, Seq<char>)>
    decreases s.len(),
{
    if mark.is_prefix_of(s) {
        Some((Seq::empty(), s.skip(mark.len() as int)))
    } else if s.len() == 0 {
        None
    } else {
        match sides(s.skip(1), mark) {
            Some(parts) => Some((seq![s[0]] + parts.0, parts.1)),
            None => None,
        }
    }
}

/// A text is cut at a mark in one way.
#[verifier::spinoff_prover]
#[verifier::rlimit(80)]
pub proof fn lemma_sides(
    s: Seq<char>,
    mark: Seq<char>,
    cut: Option<(Seq<char>, Seq<char>)>,
)
    requires
        is_cut_at(s, mark, cut),
    ensures
        cut == sides(s, mark),
    decreases s.len(),
{
    match cut {
        Some(parts) => {
            let a = parts.0;
            let b = parts.1;
            let k = a.len() as int;
            assert(occurs_at(s, mark, k));
            if mark.is_prefix_of(s) {
                assert(s.subrange(0, mark.len() as int) =~= mark);
                assert(occurs_at(s, mark, 0));
                assert(k == 0);
                assert(a =~= Seq::empty());
                assert(s.skip(mark.len() as int) =~= b);
            } else {
                if k == 0 {
                    assert(s.subrange(0, mark.len() as int) =~= mark);
                    assert(mark.is_prefix_of(s));
                }
                let t = s.skip(1);
                let rest = a.skip(1);
                assert(t =~= rest + mark + b);
                assert(t.subrange(k - 1, k - 1 + mark.len()) =~= s.subrange(k, k + mark.len()));
                assert(occurs_at(t, mark, k - 1));
                assert forall|j: int| #[trigger] occurs_at(t, mark, j) implies k - 1 <= j by {
                    assert(t.subrange(j, j + mark.len()) =~= s.subrange(
                        j + 1,
                        j + 1 + mark.len(),
                    ));
                    assert(occurs_at(s, mark, j + 1));
                }
                lemma_sides(t, mark, Some((rest, b)));
                assert(seq![s[0]] + rest =~= a);
            }
        },
        None => {
            if mark.is_prefix_of(s) {
                assert(s.subrange(0, mark.len() as int) =~= mark);
                assert(occurs_at(s, mark, 0));
            }
            if s.len() > 0 {
                let t = s.skip(1);
                if occurs(t, mark) {
                    let j = choose|j: int| occurs_at(t, mark, j);
                    assert(t.subrange(j, j + mark.len()) =~= s.subrange(
                        j + 1,
                        j + 1 + mark.len(),
                    ));
                    assert(occurs_at(s, mark, j + 1));
                }
                lemma_sides(t, mark, None);
            }
        },
    }
}

/// The two sides of the first place where a mark stands in a text.
pub fn split_once<'a>(s: &'a str, mark: &str) -> (cut: Option<(&'a str, &'a str)>)
    ensures
        match cut {
            Some(parts) => sides(s@, mark@) == Some((parts.0@, parts.1@)),
            None => sides(s@, mark@) is None,
        },
{
    let cut = cut_at(s, mark);
    proof {
        lemma_sides(
            s@,
            mark@,
            match cut {
                Some(parts) => Some((parts.0@, parts.1@)),
                None => None,
            },
        );
    }
    cut
}

} // verus!
