//! Unix paths as text: their components, joining, stripping a base, and
//! resolving `.` and `..` without looking at the disk.
use vstd::prelude::*;
use vstd::string::*;

use crate::split;
use crate::split::Break;
use crate::text;

verus! {

/// Whether a path starts at the root.
pub open spec fn is_absolute(path: Seq<char>) -> bool {
    path.len() > 0 && path[0] == '/'
}

/// Whether a path starts at the root.
pub fn absolute(path: &str) -> (yes: bool)
    ensures
        yes == is_absolute(path@),
{
    let chars = text::chars_of(path);
    chars.len() > 0 && chars[0] == '/'
}

/// The texts of a list other than `.`.
pub open spec fn without_dots(list: Seq<Seq<char>>) -> Seq<Seq<char>>
    decreases list.len(),
{
    if list.len() == 0 {
        Seq::empty()
    } else if list.last() != "."@ {
        without_dots(list.drop_last()).push(list.last())
    } else {
        without_dots(list.drop_last())
    }
}

/// The names of a path from its start to its end: what stands between the
/// separators, without `.`; a `..` is kept.
pub open spec fn names(path: Seq<char>) -> Seq<Seq<char>> {
    without_dots(split::words(path, Break::Slash))
}

/// The names of a path from its start to its end.
pub fn path_names(path: &str) -> (list: Vec<String>)
    ensures
        text::views(list@) == names(path@),
{
    let all = split::split_words(path, Break::Slash);
    let mut list: Vec<String> = Vec::new();
    let mut i: usize = 0;
    proof {
        assert(text::views(list@) =~= without_dots(text::views(all@.take(0))));
    }
    while i < all.len()
        invariant
            i <= all.len(),
            text::views(list@) == without_dots(text::views(all@.take(i as int))),
        decreases all.len() - i,
    {
        proof {
            let next = text::views(all@.take(i + 1));
            assert(next.drop_last() =~= text::views(all@.take(i as int)));
            assert(next.last() == all@[i as int]@);
        }
        if !text::same(all[i].as_str(), ".") {
            let ghost earlier = list@;
            list.push(all[i].clone());
            proof {
                assert(text::views(list@) =~= text::views(earlier).push(all@[i as int]@));
            }
        }
        i += 1;
    }
    proof {
        assert(all@.take(i as int) =~= all@);
    }
    list
}

/// Whether a relative path starts with `.`, which its components then show.
pub open spec fn starts_here(path: Seq<char>) -> bool {
    split::pieces(path, Break::Slash)[0] == "."@
}

/// Whether a relative path starts with `.`.
pub fn starts_at_dot(path: &str) -> (yes: bool)
    ensures
        yes == starts_here(path@),
{
    let all = split::split(path, Break::Slash);
    proof {
        split::lemma_pieces_nonempty(path@, Break::Slash);
        assert(text::views(all@)[0] == all@[0]@);
    }
    text::same(all[0].as_str(), ".")
}

/// Whether a path has a `..` among its components.
pub open spec fn has_parent(path: Seq<char>) -> bool {
    names(path).contains(".."@)
}

/// The names of `path` below `base`, where `base` is `path` or above it.
pub open spec fn names_below(path: Seq<char>, base: Seq<char>) -> Option<Seq<Seq<char>>> {
    let p = names(path);
    let b = names(base);
    if is_absolute(path) == is_absolute(base) && starts_here(path) == starts_here(base)
        && b.is_prefix_of(p) {
        Some(p.skip(b.len() as int))
    } else if base.len() == 0 {
        Some(p)
    } else {
        None
    }
}

/// Whether the names of `b` are the first names of `p`.
fn leads(p: &Vec<String>, b: &Vec<String>) -> (yes: bool)
    ensures
        yes == text::views(b@).is_prefix_of(text::views(p@)),
{
    if b.len() > p.len() {
        return false;
    }
    let mut i: usize = 0;
    while i < b.len()
        invariant
            i <= b.len() <= p.len(),
            forall|k: int| 0 <= k < i ==> (#[trigger] b@[k])@ == p@[k]@,
        decreases b.len() - i,
    {
        if !text::same(b[i].as_str(), p[i].as_str()) {
            proof {
                assert(text::views(b@)[i as int] != text::views(p@).subrange(
                    0,
                    b@.len() as int,
                )[i as int]);
            }
            return false;
        }
        i += 1;
    }
    proof {
        assert(text::views(b@) =~= text::views(p@).subrange(0, b@.len() as int));
    }
    true
}

/// The strings of a list from position `from` on.
pub fn tail(list: &Vec<String>, from: usize) -> (rest: Vec<String>)
    requires
        from <= list.len(),
    ensures
        rest@ == list@.skip(from as int),
{
    let mut rest: Vec<String> = Vec::new();
    let mut i: usize = from;
    while i < list.len()
        invariant
            from <= i <= list.len(),
            rest@ == list@.subrange(from as int, i as int),
        decreases list.len() - i,
    {
        rest.push(list[i].clone());
        proof {
            assert(list@.subrange(from as int, i + 1) =~= list@.subrange(
                from as int,
                i as int,
            ).push(list@[i as int]));
        }
        i += 1;
    }
    proof {
        assert(list@.subrange(from as int, i as int) =~= list@.skip(from as int));
    }
    rest
}

/// The names of `path` below `base`, where `base` is `path` or above it.
pub fn below(path: &str, base: &str) -> (rest: Option<Vec<String>>)
    ensures
        match rest {
            Some(list) => names_below(path@, base@) == Some(text::views(list@)),
            None => names_below(path@, base@) is None,
        },
{
    let p = path_names(path);
    let b = path_names(base);
    if absolute(path) == absolute(base) && starts_at_dot(path) == starts_at_dot(base) && leads(
        &p,
        &b,
    ) {
        let rest = tail(&p, b.len());
        proof {
            assert(text::views(rest@) =~= text::views(p@).skip(b@.len() as int));
        }
        Some(rest)
    } else if base.is_empty() {
        Some(p)
    } else {
        None
    }
}

/// `path` taken from `base`: `path` itself where it is absolute, else `path`
/// behind `base` and a separator.
pub open spec fn join_spec(base: Seq<char>, path: Seq<char>) -> Seq<char> {
    if is_absolute(path) {
        path
    } else if base.len() > 0 && base.last() != '/' {
        base + "/"@ + path
    } else {
        base + path
    }
}

/// `path` taken from `base`.
pub fn join(base: &str, path: &str) -> (joined: String)
    ensures
        joined@ == join_spec(base@, path@),
{
    if absolute(path) {
        return path.to_owned();
    }
    let chars = text::chars_of(base);
    let n: usize = chars.len();
    if n > 0 && chars[n - 1] != '/' {
        text::cat3(base, "/", path)
    } else {
        text::cat(base, path)
    }
}

/// The names with each `..` taking away the name before it.
pub open spec fn resolved(list: Seq<Seq<char>>) -> Seq<Seq<char>>
    decreases list.len(),
{
    if list.len() == 0 {
        Seq::empty()
    } else {
        let before = resolved(list.drop_last());
        if list.last() != ".."@ {
            before.push(list.last())
        } else if before.len() > 0 {
            before.drop_last()
        } else {
            before
        }
    }
}

/// A resolved list of names holds no `..`.
pub proof fn lemma_resolved_no_parent(list: Seq<Seq<char>>)
    ensures
        !resolved(list).contains(".."@),
        forall|i: int| 0 <= i < resolved(list).len() ==> list.contains(#[trigger] resolved(list)[i]),
    decreases list.len(),
{
    if list.len() > 0 {
        let front = list.drop_last();
        lemma_resolved_no_parent(front);
        let before = resolved(front);
        assert forall|i: int| 0 <= i < resolved(list).len() implies list.contains(
            #[trigger] resolved(list)[i],
        ) && resolved(list)[i] != ".."@ by {
            if i < before.len() {
                assert(front.contains(before[i]));
                let k = choose|k: int| 0 <= k < front.len() && front[k] == before[i];
                assert(list[k] == before[i]);
                assert(before.contains(before[i]));
            } else {
                assert(list[list.len() - 1] == list.last());
            }
        }
    }
}

/// A path of the given names, from the root where `absolute` holds.
pub open spec fn path_of(absolute: bool, list: Seq<Seq<char>>) -> Seq<char> {
    if absolute {
        "/"@ + text::joined(list, "/"@)
    } else {
        text::joined(list, "/"@)
    }
}

/// `path` taken from `base`, with `.` and `..` resolved by name alone.
pub open spec fn normalized(base: Seq<char>, path: Seq<char>) -> Seq<char> {
    let whole = join_spec(base, path);
    path_of(is_absolute(whole), resolved(names(whole)))
}

/// The names with each `..` taking away the name before it.
pub fn resolve(list: &Vec<String>) -> (kept: Vec<String>)
    ensures
        text::views(kept@) == resolved(text::views(list@)),
{
    let mut kept: Vec<String> = Vec::new();
    let mut i: usize = 0;
    proof {
        assert(text::views(kept@) =~= resolved(text::views(list@.take(0))));
    }
    while i < list.len()
        invariant
            i <= list.len(),
            text::views(kept@) == resolved(text::views(list@.take(i as int))),
        decreases list.len() - i,
    {
        let ghost earlier = kept@;
        proof {
            let next = text::views(list@.take(i + 1));
            assert(next.drop_last() =~= text::views(list@.take(i as int)));
            assert(next.last() == list@[i as int]@);
            assert(text::views(earlier).len() == earlier.len());
        }
        if text::same(list[i].as_str(), "..") {
            if kept.len() > 0 {
                let _ = kept.pop();
                proof {
                    assert(text::views(kept@) =~= text::views(earlier).drop_last());
                }
            }
        } else {
            kept.push(list[i].clone());
            proof {
                assert(text::views(kept@) =~= text::views(earlier).push(list@[i as int]@));
            }
        }
        i += 1;
    }
    proof {
        assert(list@.take(i as int) =~= list@);
    }
    kept
}

/// A path of the given names, from the root where `rooted` holds.
pub fn build(rooted: bool, list: &Vec<String>) -> (path: String)
    ensures
        path@ == path_of(rooted, text::views(list@)),
{
    let inner = text::join(list, "/");
    if rooted {
        text::cat("/", inner.as_str())
    } else {
        inner
    }
}

/// `path` taken from `base`, with `.` and `..` resolved by name alone.
pub fn normalize(base: &str, path: &str) -> (result: String)
    ensures
        result@ == normalized(base@, path@),
{
    let whole = join(base, path);
    let list = path_names(whole.as_str());
    let kept = resolve(&list);
    build(absolute(whole.as_str()), &kept)
}

/// The name at the end of a path, where it ends with one.
pub open spec fn file_name(path: Seq<char>) -> Option<Seq<char>> {
    let list = names(path);
    if list.len() > 0 && list.last() != ".."@ {
        Some(list.last())
    } else {
        None
    }
}

/// The name at the end of a path, where it ends with one.
pub fn last_name(path: &str) -> (name: Option<String>)
    ensures
        text::view_opt(name) == file_name(path@),
{
    let list = path_names(path);
    proof {
        assert(text::views(list@).len() == list@.len());
    }
    let n: usize = list.len();
    if n > 0 && !text::same(list[n - 1].as_str(), "..") {
        Some(list[n - 1].clone())
    } else {
        None
    }
}

/// The position of the last `c` in `s`, or -1.
pub open spec fn last_at(s: Seq<char>, c: char) -> int
    decreases s.len(),
{
    if s.len() == 0 {
        -1
    } else if s.last() == c {
        s.len() - 1
    } else {
        last_at(s.drop_last(), c)
    }
}

/// The last position of a character lies within the text.
pub proof fn lemma_last_at(s: Seq<char>, c: char)
    ensures
        -1 <= last_at(s, c) < s.len(),
        last_at(s, c) >= 0 ==> s[last_at(s, c)] == c,
        forall|i: int| last_at(s, c) < i < s.len() ==> s[i] != c,
    decreases s.len(),
{
    if s.len() > 0 && s.last() != c {
        lemma_last_at(s.drop_last(), c);
        assert forall|i: int| last_at(s, c) < i < s.len() implies s[i] != c by {
            if i < s.len() - 1 {
                assert(s.drop_last()[i] == s[i]);
            }
        }
        if last_at(s, c) >= 0 {
            assert(s.drop_last()[last_at(s, c)] == s[last_at(s, c)]);
        }
    }
}

/// The position of the last `c` in `chars`.
pub fn rfind(chars: &Vec<char>, c: char) -> (at: Option<usize>)
    ensures
        match at {
            Some(i) => last_at(chars@, c) == i,
            None => last_at(chars@, c) == -1,
        },
{
    let mut i: usize = chars.len();
    proof {
        assert(chars@.take(i as int) =~= chars@);
    }
    while i > 0
        invariant
            i <= chars.len(),
            last_at(chars@, c) == last_at(chars@.take(i as int), c),
        decreases i,
    {
        proof {
            assert(chars@.take(i as int).drop_last() =~= chars@.take(i - 1));
        }
        if chars[i - 1] == c {
            return Some(i - 1);
        }
        i -= 1;
    }
    None
}

/// What follows the last dot of a path's file name, unless the name has no dot
/// but one at its start.
pub open spec fn extension(path: Seq<char>) -> Option<Seq<char>> {
    match file_name(path) {
        Some(name) => if last_at(name, '.') > 0 {
            Some(name.skip(last_at(name, '.') + 1))
        } else {
            None
        },
        None => None,
    }
}

/// What follows the last dot of a path's file name.
pub fn extension_of(path: &str) -> (ext: Option<String>)
    ensures
        text::view_opt(ext) == extension(path@),
{
    match last_name(path) {
        Some(name) => {
            let chars = text::chars_of(name.as_str());
            match rfind(&chars, '.') {
                Some(i) => {
                    proof {
                        lemma_last_at(chars@, '.');
                    }
                    if i > 0 {
                        proof {
                            assert(chars@.subrange(i + 1, chars@.len() as int) =~= chars@.skip(
                                i + 1,
                            ));
                        }
                        Some(text::text_of(&chars, i + 1, chars.len()))
                    } else {
                        None
                    }
                },
                None => None,
            }
        },
        None => None,
    }
}

/// Whether `path` is `scope` or lies below it.
pub open spec fn in_scope(path: Seq<char>, scope: Seq<char>) -> bool {
    path == scope || (scope + "/"@).is_prefix_of(path)
}

/// Whether `path` is `scope` or lies below it.
pub fn within(path: &str, scope: &str) -> (yes: bool)
    ensures
        yes == in_scope(path@, scope@),
{
    if text::same(path, scope) {
        return true;
    }
    let below = text::cat(scope, "/");
    text::begins(path, below.as_str())
}

/// Whether `path` is `folder` or lies below it: by their names, where both start at
/// the root.
pub open spec fn is_at_or_below(path: Seq<char>, folder: Seq<char>) -> bool {
    if is_absolute(path) && is_absolute(folder) {
        names(folder).is_prefix_of(names(path))
    } else {
        in_scope(path, folder)
    }
}

/// Whether `path` is `folder` or lies below it.
pub fn at_or_below(path: &str, folder: &str) -> (yes: bool)
    ensures
        yes == is_at_or_below(path@, folder@),
{
    if absolute(path) && absolute(folder) {
        leads(&path_names(path), &path_names(folder))
    } else {
        within(path, folder)
    }
}

/// `path` without `root` and the separator behind it; `path` itself where it
/// does not lie below `root`.
pub open spec fn relative(path: Seq<char>, root: Seq<char>) -> Seq<char> {
    match text::stripped(path, root + "/"@) {
        Some(rest) => rest,
        None => path,
    }
}

/// `abs_path` without `project_root` and the separator behind it.
pub fn relative_path<'a>(abs_path: &'a str, project_root: &str) -> (rest: &'a str)
    ensures
        rest@ == relative(abs_path@, project_root@),
{
    let lead = text::cat(project_root, "/");
    match text::strip(abs_path, lead.as_str()) {
        Some(rest) => rest,
        None => abs_path,
    }
}

// ── plain paths ─────────────────────────────────────────────────────

/// Whether a name is that of one file or folder.
pub open spec fn is_plain(name: Seq<char>) -> bool {
    &&& name.len() > 0
    &&& forall|i: int| 0 <= i < name.len() ==> (#[trigger] name[i]) != '/'
    &&& name != "."@
    &&& name != ".."@
}

/// Whether all names are plain.
pub open spec fn all_plain(list: Seq<Seq<char>>) -> bool {
    forall|i: int| 0 <= i < list.len() ==> is_plain(#[trigger] list[i])
}

/// A list without dots stays as it is.
proof fn lemma_without_dots(list: Seq<Seq<char>>)
    requires
        forall|i: int| 0 <= i < list.len() ==> (#[trigger] list[i]) != "."@,
    ensures
        without_dots(list) == list,
    decreases list.len(),
{
    if list.len() > 0 {
        assert(list[list.len() - 1] != "."@);
        lemma_without_dots(list.drop_last());
        assert(list.drop_last().push(list.last()) =~= list);
    } else {
        assert(list =~= Seq::empty());
    }
}

/// The pieces of plain names with a slash between each two.
proof fn lemma_joined_pieces(list: Seq<Seq<char>>)
    requires
        list.len() > 0,
        all_plain(list),
    ensures
        split::pieces(text::joined(list, "/"@), Break::Slash) == list,
    decreases list.len(),
{
    reveal_strlit("/");
    assert("/"@ =~= seq!['/']);
    if list.len() == 1 {
        assert(is_plain(list[0]));
        split::lemma_pieces_single(list[0], Break::Slash);
        assert(seq![list[0]] =~= list);
    } else {
        let before = list.drop_last();
        assert forall|i: int| 0 <= i < before.len() implies is_plain(#[trigger] before[i]) by {
            assert(before[i] == list[i]);
        }
        lemma_joined_pieces(before);
        assert(is_plain(list[list.len() - 1]));
        split::lemma_pieces_behind(
            text::joined(before, "/"@),
            '/',
            list.last(),
            Break::Slash,
        );
        assert(before.push(list.last()) =~= list);
    }
}

/// The pieces of a rooted path of plain names.
proof fn lemma_rooted_pieces(list: Seq<Seq<char>>)
    requires
        list.len() > 0,
        all_plain(list),
    ensures
        split::pieces("/"@ + text::joined(list, "/"@), Break::Slash) == seq![
            Seq::<char>::empty(),
        ] + list,
    decreases list.len(),
{
    reveal_strlit("/");
    assert("/"@ =~= seq!['/']);
    if list.len() == 1 {
        assert(is_plain(list[0]));
        split::lemma_pieces_behind(Seq::empty(), '/', list[0], Break::Slash);
        assert(Seq::<char>::empty() + seq!['/'] + list[0] =~= "/"@ + list[0]);
        assert(seq![Seq::<char>::empty()].push(list[0]) =~= seq![Seq::<char>::empty()] + list);
    } else {
        let before = list.drop_last();
        assert forall|i: int| 0 <= i < before.len() implies is_plain(#[trigger] before[i]) by {
            assert(before[i] == list[i]);
        }
        lemma_rooted_pieces(before);
        assert(is_plain(list[list.len() - 1]));
        split::lemma_pieces_behind(
            "/"@ + text::joined(before, "/"@),
            '/',
            list.last(),
            Break::Slash,
        );
        assert("/"@ + text::joined(before, "/"@) + seq!['/'] + list.last() =~= "/"@ + (
        text::joined(before, "/"@) + "/"@ + list.last()));
        assert((seq![Seq::<char>::empty()] + before).push(list.last()) =~= seq![
            Seq::<char>::empty(),
        ] + list);
    }
}

/// A path that was put together from plain names has just these names.
pub proof fn lemma_path_keeps_names(absolute: bool, list: Seq<Seq<char>>)
    requires
        all_plain(list),
    ensures
        names(path_of(absolute, list)) == list,
        is_absolute(path_of(absolute, list)) == absolute,
        has_parent(path_of(absolute, list)) == false,
{
    reveal_strlit("/");
    let path = path_of(absolute, list);
    if absolute {
        assert(path[0] == '/');
    }
    assert forall|i: int| 0 <= i < list.len() implies (#[trigger] list[i]) != "."@ by {
        assert(is_plain(list[i]));
    }
    lemma_without_dots(list);
    if list.len() == 0 {
        assert(list =~= Seq::empty());
        if absolute {
            assert(path =~= seq!['/']);
            assert(path.drop_last() =~= Seq::empty());
            let none = Seq::<char>::empty();
            assert(split::pieces(path.drop_last(), Break::Slash) =~= seq![none]);
            assert(split::breaks(Break::Slash, path.last()));
            assert(split::pieces(path, Break::Slash) == seq![none].push(none));
            assert(split::pieces(path, Break::Slash) =~= seq![none, none]);
            assert(seq![none, none].drop_last() =~= seq![none]);
            assert(seq![none].drop_last() =~= Seq::empty());
            reveal_with_fuel(split::filled, 3);
            assert(split::filled(seq![none, none]) =~= Seq::empty());
        } else {
            assert(path =~= Seq::empty());
            let none = Seq::<char>::empty();
            assert(split::pieces(path, Break::Slash) =~= seq![none]);
            assert(seq![none].drop_last() =~= Seq::empty());
            reveal_with_fuel(split::filled, 2);
            assert(split::filled(seq![none]) =~= Seq::empty());
        }
    } else {
        assert forall|i: int| 0 <= i < list.len() implies (#[trigger] list[i]).len() > 0 by {
            assert(is_plain(list[i]));
        }
        split::lemma_filled_all(list);
        assert(is_plain(list[0]));
        lemma_joined_start(list);
        if absolute {
            lemma_rooted_pieces(list);
            lemma_filled_behind_empty(list);
        } else {
            lemma_joined_pieces(list);
        }
    }
    if list.contains(".."@) {
        let i = choose|i: int| 0 <= i < list.len() && list[i] == ".."@;
        assert(is_plain(list[i]));
    }
}

/// Names put together start with the first of them.
proof fn lemma_joined_start(list: Seq<Seq<char>>)
    requires
        list.len() > 0,
        list[0].len() > 0,
    ensures
        text::joined(list, "/"@).len() > 0,
        text::joined(list, "/"@)[0] == list[0][0],
    decreases list.len(),
{
    if list.len() > 1 {
        assert(list.drop_last()[0] == list[0]);
        lemma_joined_start(list.drop_last());
    }
}

/// An empty piece at the front counts for nothing.
proof fn lemma_filled_behind_empty(list: Seq<Seq<char>>)
    ensures
        split::filled(seq![Seq::<char>::empty()] + list) == split::filled(list),
    decreases list.len(),
{
    let whole = seq![Seq::<char>::empty()] + list;
    if list.len() == 0 {
        assert(whole.drop_last() =~= Seq::empty());
        assert(list =~= Seq::empty());
    } else {
        lemma_filled_behind_empty(list.drop_last());
        assert(whole.drop_last() =~= seq![Seq::<char>::empty()] + list.drop_last());
    }
}

/// The names of a path are plain, but for the parent folder.
pub proof fn lemma_names_plain(path: Seq<char>)
    ensures
        forall|i: int|
            0 <= i < names(path).len() ==> (#[trigger] names(path)[i]) == ".."@ || is_plain(
                names(path)[i],
            ),
{
    let parts = split::pieces(path, Break::Slash);
    assert forall|i: int| 0 <= i < names(path).len() implies (#[trigger] names(path)[i]) == ".."@
        || is_plain(names(path)[i]) by {
        lemma_dotless_member(split::filled(parts), i);
        let name = names(path)[i];
        let k = choose|k: int|
            0 <= k < split::filled(parts).len() && split::filled(parts)[k] == name;
        lemma_filled_member(parts, k);
        let m = choose|m: int| 0 <= m < parts.len() && parts[m] == name;
        assert forall|j: int| 0 <= j < name.len() implies (#[trigger] name[j]) != '/' by {
            split::lemma_pieces_unbroken(path, Break::Slash, m, j);
        }
    }
}

/// What is kept of a list is in it, and is no dot.
proof fn lemma_dotless_member(list: Seq<Seq<char>>, i: int)
    requires
        0 <= i < without_dots(list).len(),
    ensures
        list.contains(without_dots(list)[i]),
        without_dots(list)[i] != "."@,
    decreases list.len(),
{
    let before = without_dots(list.drop_last());
    if list.last() != "."@ && i == before.len() {
        assert(list[list.len() - 1] == list.last());
    } else {
        lemma_dotless_member(list.drop_last(), i);
        let k = choose|k: int|
            0 <= k < list.drop_last().len() && list.drop_last()[k] == before[i];
        assert(list[k] == before[i]);
    }
}

/// What is filled of a list is in it, and is not empty.
proof fn lemma_filled_member(list: Seq<Seq<char>>, i: int)
    requires
        0 <= i < split::filled(list).len(),
    ensures
        list.contains(split::filled(list)[i]),
        split::filled(list)[i].len() > 0,
    decreases list.len(),
{
    let before = split::filled(list.drop_last());
    if list.last().len() > 0 && i == before.len() {
        assert(list[list.len() - 1] == list.last());
    } else {
        lemma_filled_member(list.drop_last(), i);
        let k = choose|k: int|
            0 <= k < list.drop_last().len() && list.drop_last()[k] == before[i];
        assert(list[k] == before[i]);
    }
}

/// A path with every `..` followed is the same once more: nothing is left to
/// follow.
pub proof fn lemma_normalized_idempotent(base: Seq<char>, path: Seq<char>)
    requires
        is_absolute(join_spec(base, path)),
    ensures
        normalized(base, normalized(base, path)) == normalized(base, path),
{
    let whole = join_spec(base, path);
    let list = resolved(names(whole));
    lemma_names_plain(whole);
    lemma_resolved_no_parent(names(whole));
    assert forall|i: int| 0 <= i < list.len() implies is_plain(#[trigger] list[i]) by {
        assert(names(whole).contains(list[i]));
        let k = choose|k: int| 0 <= k < names(whole).len() && names(whole)[k] == list[i];
        assert(list.contains(list[i]));
        assert(names(whole)[k] == ".."@ || is_plain(names(whole)[k]));
    }
    lemma_path_keeps_names(true, list);
    lemma_resolved_plain(list);
}

/// Plain names have no parent to follow.
proof fn lemma_resolved_plain(list: Seq<Seq<char>>)
    requires
        all_plain(list),
    ensures
        resolved(list) == list,
    decreases list.len(),
{
    if list.len() > 0 {
        let before = list.drop_last();
        assert forall|i: int| 0 <= i < before.len() implies is_plain(#[trigger] before[i]) by {
            assert(before[i] == list[i]);
        }
        lemma_resolved_plain(before);
        assert(is_plain(list[list.len() - 1]));
        assert(before.push(list.last()) =~= list);
    } else {
        assert(list =~= Seq::empty());
    }
}

/// The names of two lists without dots are those of both.
proof fn lemma_dotless_join(a: Seq<Seq<char>>, b: Seq<Seq<char>>)
    ensures
        without_dots(a + b) == without_dots(a) + without_dots(b),
    decreases b.len(),
{
    if b.len() == 0 {
        assert(a + b =~= a);
        assert(without_dots(a) + without_dots(b) =~= without_dots(a));
    } else {
        lemma_dotless_join(a, b.drop_last());
        assert((a + b).drop_last() =~= a + b.drop_last());
        assert(without_dots(a + b) =~= without_dots(a) + without_dots(b));
    }
}

/// A path below a folder has the names of the folder and then its own, and is
/// found below it again.
pub proof fn lemma_join_names(base: Seq<char>, path: Seq<char>)
    requires
        base.len() > 0,
        !is_absolute(path),
    ensures
        names(join_spec(base, path)) == names(base) + names(path),
        names_below(join_spec(base, path), base) == Some(names(path)),
{
    reveal_strlit("/");
    let whole = join_spec(base, path);
    let front = if base.last() == '/' {
        base.drop_last()
    } else {
        base
    };
    assert("/"@ =~= seq!['/']);
    assert(whole =~= front + seq!['/'] + path);
    split::lemma_pieces_join(front, '/', path, Break::Slash);
    split::lemma_pieces_nonempty(front, Break::Slash);
    let f = split::pieces(front, Break::Slash);
    let p = split::pieces(path, Break::Slash);
    split::lemma_filled_join(f, p);
    lemma_dotless_join(split::filled(f), split::filled(p));
    if base.last() == '/' {
        assert(base =~= front.push('/'));
        assert(base.drop_last() =~= front);
        assert(split::pieces(base, Break::Slash) == f.push(Seq::empty()));
        assert(f.push(Seq::<char>::empty()).drop_last() =~= f);
        assert(split::filled(f.push(Seq::empty())) == split::filled(f));
        assert(split::pieces(base, Break::Slash)[0] == f[0]);
    }
    assert(split::pieces(whole, Break::Slash)[0] == f[0]);
    assert(starts_here(whole) == starts_here(base));
    assert(whole[0] == base[0]);
    assert(names(base).is_prefix_of(names(whole)));
    assert(names(whole).skip(names(base).len() as int) =~= names(path));
}

} // verus!
