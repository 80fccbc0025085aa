//! Comparing two versions of a file, as text.
use vstd::prelude::*;
use vstd::string::*;
use vstd::utf8::{decode_utf8, decode_utf8_encode_utf8, valid_utf8};

use crate::hex::hex_digit;
use crate::number;
use crate::style::{DIM, GREEN, RED, RESET};
use crate::text;

verus! {

/// How many bytes are looked at to tell a binary file from text.
pub const BINARY_WINDOW: usize = 8192;

/// Whether content counts as binary: it has a zero byte near its start.
pub open spec fn binary(data: Seq<u8>) -> bool {
    exists|i: int| 0 <= i < data.len() && i < BINARY_WINDOW && data[i] == 0
}

/// Whether content counts as binary.
pub fn is_binary(data: &[u8]) -> (yes: bool)
    ensures
        yes == binary(data@),
{
    let mut i: usize = 0;
    while i < data.len() && i < BINARY_WINDOW
        invariant
            i <= data.len(),
            i <= BINARY_WINDOW,
            forall|k: int| 0 <= k < i ==> data@[k] != 0,
        decreases data.len() - i,
    {
        if data[i] == 0 {
            return true;
        }
        i += 1;
    }
    false
}

// ── bytes as text ───────────────────────────────────────────────────

/// How one byte is written where content is not UTF-8.
pub open spec fn code(byte: u8) -> Seq<char> {
    if byte == 10 {
        seq!['\n']
    } else if byte == 92 {
        seq!['\\', '\\']
    } else if 32 <= byte <= 126 {
        seq![byte as char]
    } else if byte == 9 {
        seq!['\\', 't']
    } else if byte == 13 {
        seq!['\\', 'r']
    } else {
        seq!['\\', 'x', hex_digit(byte as int / 16), hex_digit(byte as int % 16)]
    }
}

/// How content that is not UTF-8 is written.
pub open spec fn escaped(data: Seq<u8>) -> Seq<char>
    decreases data.len(),
{
    if data.len() == 0 {
        Seq::empty()
    } else {
        code(data[0]) + escaped(data.skip(1))
    }
}

/// How content is written: as the text that it is, or escaped.
pub open spec fn rendered(data: Seq<u8>) -> Seq<char> {
    if valid_utf8(data) {
        decode_utf8(data)
    } else {
        escaped(data)
    }
}

/// How two versions are written: as text where both are, else both escaped.
pub open spec fn rendered_pair(a: Seq<u8>, b: Seq<u8>) -> (Seq<char>, Seq<char>) {
    if valid_utf8(a) && valid_utf8(b) {
        (decode_utf8(a), decode_utf8(b))
    } else {
        (escaped(a), escaped(b))
    }
}

/// Different bytes are escaped differently.
pub proof fn lemma_escaped_injective(a: Seq<u8>, b: Seq<u8>)
    requires
        escaped(a) == escaped(b),
    ensures
        a == b,
    decreases a.len(),
{
    if a.len() == 0 {
        if b.len() > 0 {
            assert(escaped(b).len() >= code(b[0]).len());
        }
        assert(a =~= b);
    } else if b.len() == 0 {
        assert(escaped(a).len() >= code(a[0]).len());
    } else {
        let x = escaped(a);
        let y = escaped(b);
        let c = code(a[0]);
        let d = code(b[0]);
        assert(x[0] == c[0] && y[0] == d[0]);
        if c.len() > 1 {
            assert(x[1] == c[1]);
        }
        if d.len() > 1 {
            assert(y[1] == d[1]);
        }
        if c.len() > 2 {
            assert(x[2] == c[2] && x[3] == c[3]);
        }
        if d.len() > 2 {
            assert(y[2] == d[2] && y[3] == d[3]);
        }
        assert(c.len() == d.len());
        if c.len() == 4 {
            assert(a[0] as int / 16 == b[0] as int / 16);
            assert(a[0] as int % 16 == b[0] as int % 16);
        }
        assert(a[0] == b[0]);
        assert(x.skip(c.len() as int) =~= escaped(a.skip(1)));
        assert(y.skip(c.len() as int) =~= escaped(b.skip(1)));
        lemma_escaped_injective(a.skip(1), b.skip(1));
        assert(a =~= seq![a[0]] + a.skip(1));
        assert(b =~= seq![b[0]] + b.skip(1));
    }
}

/// Two versions are written alike only where they are the same bytes.
pub proof fn lemma_rendered_pair_distinct(a: Seq<u8>, b: Seq<u8>)
    requires
        rendered_pair(a, b).0 == rendered_pair(a, b).1,
    ensures
        a == b,
{
    if valid_utf8(a) && valid_utf8(b) {
        decode_utf8_encode_utf8(a);
        decode_utf8_encode_utf8(b);
    } else {
        lemma_escaped_injective(a, b);
    }
}

/// Bytes as text where they are valid UTF-8, from `std::str::from_utf8`.
#[verifier::external_body]
pub(crate) fn utf8_text(data: &[u8]) -> (text: Option<String>)
    ensures
        text is Some <==> valid_utf8(data@),
        text matches Some(s) ==> s@ == decode_utf8(data@),
{
    std::str::from_utf8(data).ok().map(|text| text.to_string())
}

/// The text that bytes hold, with a replacement character for each part that
/// is not UTF-8.
pub uninterp spec fn lossy(data: Seq<u8>) -> Seq<char>;

/// Bytes as text, from `String::from_utf8_lossy` of std: the text itself where
/// they are valid UTF-8. How many replacement characters stand for a part that
/// is not is left unsaid.
#[verifier::external_body]
pub(crate) fn lossy_text(data: &[u8]) -> (text: String)
    ensures
        text@ == lossy(data@),
        valid_utf8(data@) ==> text@ == decode_utf8(data@),
{
    String::from_utf8_lossy(data).into_owned()
}

/// How content that is not UTF-8 is written.
pub fn escape_bytes(data: &[u8]) -> (text: String)
    ensures
        text@ == escaped(data@),
{
    let mut chars: Vec<char> = Vec::new();
    let mut i: usize = 0;
    proof {
        assert(data@.skip(0) =~= data@);
        assert(Seq::<char>::empty() + escaped(data@) =~= escaped(data@));
    }
    while i < data.len()
        invariant
            i <= data.len(),
            chars@ + escaped(data@.skip(i as int)) == escaped(data@),
        decreases data.len() - i,
    {
        let byte: u8 = data[i];
        let ghost earlier = chars@;
        if byte == 10 {
            chars.push('\n');
        } else if byte == 92 {
            chars.push('\\');
            chars.push('\\');
        } else if 32 <= byte && byte <= 126 {
            chars.push(byte as char);
        } else if byte == 9 {
            chars.push('\\');
            chars.push('t');
        } else if byte == 13 {
            chars.push('\\');
            chars.push('r');
        } else {
            chars.push('\\');
            chars.push('x');
            chars.push(crate::hex::digit_of(byte / 16));
            chars.push(crate::hex::digit_of(byte % 16));
        }
        proof {
            let rest = data@.skip(i as int);
            assert(rest.skip(1) =~= data@.skip(i + 1));
            assert(rest[0] == byte);
            assert(chars@ =~= earlier + code(byte));
            assert(earlier + (code(byte) + escaped(rest.skip(1))) =~= chars@ + escaped(
                rest.skip(1),
            ));
        }
        i += 1;
    }
    proof {
        assert(data@.skip(i as int).len() == 0);
        assert(chars@ + Seq::<char>::empty() =~= chars@);
    }
    text::text_from(&chars)
}

/// How content is written.
pub fn render_bytes(data: &[u8]) -> (text: String)
    ensures
        text@ == rendered(data@),
{
    match utf8_text(data) {
        Some(text) => text,
        None => escape_bytes(data),
    }
}

/// How two versions are written for an exact comparison.
pub fn render_bytes_for_diff(old_data: &[u8], new_data: &[u8]) -> (pair: (String, String))
    ensures
        (pair.0@, pair.1@) == rendered_pair(old_data@, new_data@),
{
    match (utf8_text(old_data), utf8_text(new_data)) {
        (Some(a), Some(b)) => (a, b),
        _ => (escape_bytes(old_data), escape_bytes(new_data)),
    }
}

// ── line differences ────────────────────────────────────────────────

/// The lines of two texts with their signs: `-` for a line of the first text
/// alone, `+` for one of the second alone, a space for one of both.
pub uninterp spec fn line_diff(a: Seq<char>, b: Seq<char>) -> Seq<char>;

/// How many unchanged lines are shown on either side of a change.
pub const CONTEXT_LINES: usize = 3;

/// The same lines with the text of each and whether it lacks a line end, in
/// groups round the changes with some lines of context.
pub uninterp spec fn line_groups(a: Seq<char>, b: Seq<char>, context: usize) -> Seq<
    Seq<(char, Seq<char>, bool)>,
>;

/// The sign of each line that `similar::TextDiff::from_lines` and
/// `iter_all_changes` give for two texts. The result depends on the texts
/// alone; which of the shortest differences is chosen is left unsaid.
#[verifier::external_body]
fn signs_of(a: &str, b: &str) -> (signs: Vec<char>)
    ensures
        signs@ == line_diff(a@, b@),
{
    similar::TextDiff::from_lines(a, b).iter_all_changes().map(
        |change| match change.tag() {
            similar::ChangeTag::Delete => '-',
            similar::ChangeTag::Insert => '+',
            similar::ChangeTag::Equal => ' ',
        },
    ).collect()
}

/// One line of a difference.
pub struct Line {
    pub sign: char,
    pub text: String,
    pub unended: bool,
}

/// What a line of a difference is.
pub open spec fn line_view(line: Line) -> (char, Seq<char>, bool) {
    (line.sign, line.text@, line.unended)
}

/// What the lines of a group are.
pub open spec fn group_view(group: Vec<Line>) -> Seq<(char, Seq<char>, bool)> {
    group@.map_values(|line: Line| line_view(line))
}

/// The groups of lines that `similar::TextDiff::from_lines`, `grouped_ops` with
/// so many lines of context and `iter_changes` give for two texts. The result
/// depends on the texts and that number alone; which of the shortest differences
/// is chosen is left unsaid. Twice the number has to be one that can be counted
/// to.
#[verifier::external_body]
fn groups_of(a: &str, b: &str, context: usize) -> (groups: Vec<Vec<Line>>)
    requires
        2 * context <= usize::MAX,
    ensures
        groups@.map_values(|group: Vec<Line>| group_view(group)) == line_groups(
            a@,
            b@,
            context,
        ),
{
    let diff = similar::TextDiff::from_lines(a, b);
    diff.grouped_ops(context).iter().map(
        |ops| ops.iter().flat_map(|op| diff.iter_changes(op)).map(
            |change| Line {
                sign: match change.tag() {
                    similar::ChangeTag::Delete => '-',
                    similar::ChangeTag::Insert => '+',
                    similar::ChangeTag::Equal => ' ',
                },
                text: change.value().to_string(),
                unended: change.missing_newline(),
            },
        ).collect(),
    ).collect()
}

/// How often a sign stands in a list.
pub open spec fn sign_count(signs: Seq<char>, sign: char) -> nat
    decreases signs.len(),
{
    if signs.len() == 0 {
        0
    } else {
        sign_count(signs.drop_last(), sign) + if signs.last() == sign {
            1nat
        } else {
            0nat
        }
    }
}

/// How often a sign stands in a list.
pub fn count_sign(signs: &Vec<char>, sign: char) -> (count: usize)
    ensures
        count == sign_count(signs@, sign),
{
    let mut count: usize = 0;
    let mut i: usize = 0;
    while i < signs.len()
        invariant
            i <= signs.len(),
            count <= i,
            count == sign_count(signs@.take(i as int), sign),
        decreases signs.len() - i,
    {
        proof {
            assert(signs@.take(i + 1).drop_last() =~= signs@.take(i as int));
        }
        if signs[i] == sign {
            count += 1;
        }
        i += 1;
    }
    proof {
        assert(signs@.take(i as int) =~= signs@);
    }
    count
}

/// How many lines one text has that another lacks, and the other way round.
pub fn diff_stats(old_text: &str, new_text: &str) -> (counts: (usize, usize))
    ensures
        counts.0 == sign_count(line_diff(old_text@, new_text@), '+'),
        counts.1 == sign_count(line_diff(old_text@, new_text@), '-'),
{
    let signs = signs_of(old_text, new_text);
    (count_sign(&signs, '+'), count_sign(&signs, '-'))
}

/// A line on what changed in a file.
pub open spec fn stats_line(path: Seq<char>, inserted: int, deleted: int) -> Seq<char> {
    path + " | +"@ + number::decimal(inserted) + " -"@ + number::decimal(deleted)
}

/// A line on what changed in a file.
pub fn print_diff_stats(old_text: &str, new_text: &str, path: &str) -> (line: String)
    ensures
        line@ == stats_line(
            path@,
            sign_count(line_diff(old_text@, new_text@), '+') as int,
            sign_count(line_diff(old_text@, new_text@), '-') as int,
        ),
{
    let (inserted, deleted) = diff_stats(old_text, new_text);
    text::cat5(
        path,
        " | +",
        number::count_text(inserted).as_str(),
        " -",
        number::count_text(deleted).as_str(),
    )
}

/// How one line of a difference is shown.
pub open spec fn shown_line(line: (char, Seq<char>, bool)) -> Seq<char> {
    let whole = if line.2 {
        line.1 + "\n"@
    } else {
        line.1
    };
    let styled = if line.0 == '-' {
        RED@ + "-"@ + whole + RESET@
    } else if line.0 == '+' {
        GREEN@ + "+"@ + whole + RESET@
    } else {
        " "@ + whole
    };
    if line.2 {
        styled + "\n"@
    } else {
        styled
    }
}

/// How the lines of a group are shown.
pub open spec fn shown_group(lines: Seq<(char, Seq<char>, bool)>) -> Seq<char>
    decreases lines.len(),
{
    if lines.len() == 0 {
        Seq::empty()
    } else {
        shown_group(lines.drop_last()) + shown_line(lines.last())
    }
}

/// How groups of lines are shown, with a mark between each two.
pub open spec fn shown_groups(groups: Seq<Seq<(char, Seq<char>, bool)>>) -> Seq<char>
    decreases groups.len(),
{
    if groups.len() == 0 {
        Seq::empty()
    } else {
        let before = shown_groups(groups.drop_last());
        let parted = if groups.len() > 1 {
            before + DIM@ + "…"@ + RESET@ + "\n"@
        } else {
            before
        };
        parted + shown_group(groups.last())
    }
}

/// A difference in full, under the names of the two versions.
pub open spec fn shown_diff(
    groups: Seq<Seq<(char, Seq<char>, bool)>>,
    path: Seq<char>,
    old_label: Seq<char>,
    new_label: Seq<char>,
) -> Seq<char> {
    DIM@ + "--- "@ + text::padded(old_label, 9) + path + RESET@ + "\n"@ + DIM@ + "+++ "@
        + text::padded(new_label, 9) + path + RESET@ + "\n\n"@ + shown_groups(groups)
}

/// Shows one line of a difference.
fn show_line(line: &Line) -> (out: String)
    ensures
        out@ == shown_line(line_view(*line)),
{
    let mut whole = line.text.clone();
    if line.unended {
        whole.append("\n");
    }
    let mut out = if line.sign == '-' {
        let mut out = text::cat3(RED, "-", whole.as_str());
        out.append(RESET);
        out
    } else if line.sign == '+' {
        let mut out = text::cat3(GREEN, "+", whole.as_str());
        out.append(RESET);
        out
    } else {
        text::cat(" ", whole.as_str())
    };
    if line.unended {
        out.append("\n");
    }
    out
}

/// Shows the lines of a group.
fn show_group(group: &Vec<Line>) -> (out: String)
    ensures
        out@ == shown_group(group_view(*group)),
{
    let mut out = String::new();
    let mut i: usize = 0;
    let ghost all = group_view(*group);
    proof {
        assert(all.take(0) =~= Seq::empty());
    }
    while i < group.len()
        invariant
            i <= group.len(),
            all == group_view(*group),
            out@ == shown_group(all.take(i as int)),
        decreases group.len() - i,
    {
        let line = show_line(&group[i]);
        out.append(line.as_str());
        proof {
            assert(all.take(i + 1).drop_last() =~= all.take(i as int));
            assert(all.take(i + 1).last() == line_view(group@[i as int]));
        }
        i += 1;
    }
    proof {
        assert(all.take(i as int) =~= all);
    }
    out
}

/// A difference in full, from its groups of lines.
pub fn show_diff(groups: &Vec<Vec<Line>>, path: &str, old_label: &str, new_label: &str) -> (out:
    String)
    ensures
        out@ == shown_diff(
            groups@.map_values(|group: Vec<Line>| group_view(group)),
            path@,
            old_label@,
            new_label@,
        ),
{
    let mut body = String::new();
    let mut i: usize = 0;
    let ghost all = groups@.map_values(|group: Vec<Line>| group_view(group));
    proof {
        assert(all.take(0) =~= Seq::empty());
    }
    while i < groups.len()
        invariant
            i <= groups.len(),
            all == groups@.map_values(|group: Vec<Line>| group_view(group)),
            body@ == shown_groups(all.take(i as int)),
        decreases groups.len() - i,
    {
        if i > 0 {
            body.append(DIM);
            body.append("…");
            body.append(RESET);
            body.append("\n");
        }
        let group = show_group(&groups[i]);
        body.append(group.as_str());
        proof {
            assert(all.take(i + 1).drop_last() =~= all.take(i as int));
            assert(all.take(i + 1).last() == group_view(groups@[i as int]));
        }
        i += 1;
    }
    proof {
        assert(all.take(i as int) =~= all);
    }
    let mut out = text::cat(DIM, "--- ");
    out.append(text::pad(old_label, 9).as_str());
    out.append(path);
    out.append(RESET);
    out.append("\n");
    out.append(DIM);
    out.append("+++ ");
    out.append(text::pad(new_label, 9).as_str());
    out.append(path);
    out.append(RESET);
    out.append("\n\n");
    out.append(body.as_str());
    out
}

/// The difference of two texts in full, under the names of the two versions.
pub fn print_unified_diff_with_labels(
    old_text: &str,
    new_text: &str,
    path: &str,
    old_label: &str,
    new_label: &str,
) -> (out: String)
    ensures
        out@ == shown_diff(
            line_groups(old_text@, new_text@, CONTEXT_LINES),
            path@,
            old_label@,
            new_label@,
        ),
{
    show_diff(&groups_of(old_text, new_text, CONTEXT_LINES), path, old_label, new_label)
}

/// What is shown on two versions of a file.
pub open spec fn bytes_diff(
    old_data: Seq<u8>,
    new_data: Seq<u8>,
    path: Seq<char>,
    old_label: Seq<char>,
    new_label: Seq<char>,
) -> Seq<char> {
    if binary(old_data) || binary(new_data) {
        path + ": binary file — text comparison not available.\n"@
    } else if old_data == new_data {
        path + ": no content changes.\n"@
    } else {
        let pair = rendered_pair(old_data, new_data);
        shown_diff(line_groups(pair.0, pair.1, CONTEXT_LINES), path, old_label, new_label)
    }
}

/// Whether two byte strings are the same.
pub fn same_bytes(a: &[u8], b: &[u8]) -> (equal: bool)
    ensures
        equal == (a@ == b@),
{
    if a.len() != b.len() {
        return false;
    }
    let mut i: usize = 0;
    while i < a.len()
        invariant
            i <= a.len() == b.len(),
            forall|k: int| 0 <= k < i ==> a@[k] == b@[k],
        decreases a.len() - i,
    {
        if a[i] != b[i] {
            return false;
        }
        i += 1;
    }
    proof {
        assert(a@ =~= b@);
    }
    true
}

/// What is shown on two versions of a file.
pub fn print_bytes_diff(
    old_data: &[u8],
    new_data: &[u8],
    path: &str,
    old_label: &str,
    new_label: &str,
) -> (out: String)
    ensures
        out@ == bytes_diff(old_data@, new_data@, path@, old_label@, new_label@),
{
    if is_binary(old_data) || is_binary(new_data) {
        return text::cat(path, ": binary file — text comparison not available.\n");
    }
    if same_bytes(old_data, new_data) {
        return text::cat(path, ": no content changes.\n");
    }
    let (old_text, new_text) = render_bytes_for_diff(old_data, new_data);
    print_unified_diff_with_labels(
        old_text.as_str(),
        new_text.as_str(),
        path,
        old_label,
        new_label,
    )
}

} // verus!
