//! Where a path that somebody typed really leads, by what the disk says.
use vstd::prelude::*;
use vstd::string::*;

use crate::db::projects::is_closest;
use crate::db::Database;
use crate::error::Error;
use crate::models::WatchedProject;
use crate::path;
use crate::path::{is_absolute, join_spec, names, path_of, resolved};
use crate::text;

verus! {

/// A path that exists on the disk: where it leads once every link in it is
/// followed, and whether a directory is there.
#[derive(Debug)]
pub struct Place {
    pub path: String,
    pub canonical: String,
    pub directory: bool,
}

/// What the disk has at a path, where it has something.
pub open spec fn known(disk: Seq<Place>, path: Seq<char>) -> Option<Place>
    decreases disk.len(),
{
    if disk.len() == 0 {
        None
    } else if disk[0].path@ == path {
        Some(disk[0])
    } else {
        known(disk.skip(1), path)
    }
}

/// How many of the names of a path lead to the deepest place that exists.
pub open spec fn deepest(disk: Seq<Place>, absolute: bool, list: Seq<Seq<char>>) -> Option<int>
    decreases list.len(),
{
    if path_of(absolute, list).len() > 0 && known(disk, path_of(absolute, list)) is Some {
        Some(list.len() as int)
    } else if list.len() == 0 {
        None
    } else {
        deepest(disk, absolute, list.drop_last())
    }
}

/// A path with names below it.
pub open spec fn path_with(base: Seq<char>, list: Seq<Seq<char>>) -> Seq<char>
    decreases list.len(),
{
    if list.len() == 0 {
        base
    } else {
        join_spec(path_with(base, list.drop_last()), list.last())
    }
}

/// Where a path leads from a directory, and whether a directory is there. What
/// does not exist is below the deepest place on its way that does.
pub open spec fn leads_to(disk: Seq<Place>, cwd: Seq<char>, path: Seq<char>) -> (Seq<char>, bool) {
    let whole = join_spec(cwd, path);
    let list = resolved(names(whole));
    match known(disk, whole) {
        Some(place) => (place.canonical@, place.directory),
        None => match deepest(disk, is_absolute(whole), list) {
            None => (path_of(is_absolute(whole), list), false),
            Some(k) => {
                let place = known(disk, path_of(is_absolute(whole), list.take(k)))->0;
                (
                    path_with(place.canonical@, list.skip(k)),
                    k == list.len() && place.directory,
                )
            },
        },
    }
}

/// Whether there is something where a path leads.
pub open spec fn is_there(disk: Seq<Place>, cwd: Seq<char>, path: Seq<char>) -> bool {
    let whole = join_spec(cwd, path);
    let list = resolved(names(whole));
    known(disk, whole) is Some || deepest(disk, is_absolute(whole), list) == Some(
        list.len() as int,
    )
}

/// Where the root of a project leads.
pub open spec fn real_root(disk: Seq<Place>, root: Seq<char>) -> Seq<char> {
    match known(disk, root) {
        Some(place) => place.canonical@,
        None => root,
    }
}

/// What is said of a path that leads out of a project.
pub open spec fn outside_text(path: Seq<char>, root: Seq<char>) -> Seq<char> {
    "path '"@ + path + "' resolves outside the project root ("@ + root + ")"@
}

/// Where a path leads.
#[derive(Debug)]
pub struct Resolved {
    pub path: String,
    pub directory: bool,
    pub there: bool,
}

/// What the disk has at a path.
pub fn find_place(disk: &Vec<Place>, path: &str) -> (at: Option<usize>)
    ensures
        match at {
            Some(i) => i < disk@.len() && known(disk@, path@) == Some(disk@[i as int]),
            None => known(disk@, path@) is None,
        },
{
    let mut i: usize = 0;
    proof {
        assert(disk@.skip(0) =~= disk@);
    }
    while i < disk.len()
        invariant
            i <= disk.len(),
            known(disk@.skip(i as int), path@) == known(disk@, path@),
        decreases disk.len() - i,
    {
        proof {
            assert(disk@.skip(i as int)[0] == disk@[i as int]);
            assert(disk@.skip(i as int).skip(1) =~= disk@.skip(i + 1));
        }
        if text::same(disk[i].path.as_str(), path) {
            return Some(i);
        }
        i += 1;
    }
    proof {
        assert(disk@.skip(i as int).len() == 0);
    }
    None
}

/// The names of a whole path with every `..` followed.
fn plain_names(whole: &str) -> (list: Vec<String>)
    ensures
        text::views(list@) == resolved(names(whole@)),
{
    let given = path::path_names(whole);
    path::resolve(&given)
}

/// The first names of a list.
fn first_names(list: &Vec<String>, n: usize) -> (part: Vec<String>)
    requires
        n <= list.len(),
    ensures
        text::views(part@) == text::views(list@).take(n as int),
{
    let mut part: Vec<String> = Vec::new();
    let mut i: usize = 0;
    while i < n
        invariant
            i <= n <= list.len(),
            part@ == list@.take(i as int),
        decreases n - i,
    {
        part.push(list[i].clone());
        proof {
            assert(list@.take(i + 1) =~= list@.take(i as int).push(list@[i as int]));
        }
        i += 1;
    }
    proof {
        assert(text::views(part@) =~= text::views(list@).take(n as int));
    }
    part
}

/// The paths on which the disk must be asked to resolve a path: the path
/// itself, the root, and every place on the way to where it leads.
pub open spec fn questions(cwd: Seq<char>, path: Seq<char>, root: Seq<char>) -> Seq<Seq<char>> {
    let whole = join_spec(cwd, path);
    let list = resolved(names(whole));
    seq![whole, root] + Seq::new(
        (list.len() + 1) as nat,
        |k: int| path_of(is_absolute(whole), list.take(k)),
    )
}

/// The paths on which the disk must be asked to resolve a path.
pub fn places_to_check(cwd: &str, path_str: &str, project_root: &str) -> (paths: Vec<String>)
    ensures
        text::views(paths@) == questions(cwd@, path_str@, project_root@),
{
    let whole = path::join(cwd, path_str);
    let rooted = path::absolute(whole.as_str());
    let list = plain_names(whole.as_str());
    let ghost all = text::views(list@);
    let mut paths: Vec<String> = Vec::new();
    text::add_line(&mut paths, whole.clone());
    text::add_line(&mut paths, project_root.to_owned());
    let ghost on = Seq::new(
        (all.len() + 1) as nat,
        |k: int| path_of(is_absolute(whole@), all.take(k)),
    );
    proof {
        assert(text::views(paths@) =~= seq![whole@, project_root@] + on.take(0));
    }
    let mut k: usize = 0;
    let n: usize = list.len();
    while k < n
        invariant
            k <= n == list.len(),
            all == text::views(list@),
            rooted == is_absolute(whole@),
            on == Seq::new(
                (all.len() + 1) as nat,
                |k: int| path_of(is_absolute(whole@), all.take(k)),
            ),
            text::views(paths@) == seq![whole@, project_root@] + on.take(k as int),
        decreases n - k,
    {
        let part = first_names(&list, k);
        text::add_line(&mut paths, path::build(rooted, &part));
        proof {
            assert(text::views(paths@) =~= seq![whole@, project_root@] + on.take(k + 1));
        }
        k += 1;
    }
    text::add_line(&mut paths, path::build(rooted, &list));
    proof {
        assert(all.take(n as int) =~= all);
        assert(text::views(paths@) =~= seq![whole@, project_root@] + on);
    }
    paths
}

/// Where a path leads from a directory, where that is in the project.
pub fn safe_resolve_path(cwd: &str, path_str: &str, project_root: &str, disk: &Vec<Place>) -> (result:
    Result<Resolved, Error>)
    ensures
        match result {
            Ok(r) => {
                &&& (r.path@, r.directory) == leads_to(disk@, cwd@, path_str@)
                &&& r.there == is_there(disk@, cwd@, path_str@)
                &&& path::is_at_or_below(r.path@, real_root(disk@, project_root@))
            },
            Err(e) => {
                &&& !path::is_at_or_below(
                    leads_to(disk@, cwd@, path_str@).0,
                    real_root(disk@, project_root@),
                )
                &&& e@ == outside_text(path_str@, project_root@)
            },
        },
{
    let whole = path::join(cwd, path_str);
    let place = match find_place(disk, whole.as_str()) {
        Some(at) => Resolved {
            path: disk[at].canonical.clone(),
            directory: disk[at].directory,
            there: true,
        },
        None => {
            let rooted = path::absolute(whole.as_str());
            let list = plain_names(whole.as_str());
            let ghost all = text::views(list@);
            let mut k: usize = list.len();
            let mut part = path::build(rooted, &list);
            let mut at = if part.as_str().unicode_len() > 0 {
                find_place(disk, part.as_str())
            } else {
                None
            };
            proof {
                assert(all.take(k as int) =~= all);
            }
            while at.is_none() && k > 0
                invariant
                    k <= list.len(),
                    all == text::views(list@),
                    rooted == is_absolute(whole@),
                    part@ == path_of(rooted, all.take(k as int)),
                    deepest(disk@, rooted, all.take(k as int)) == deepest(disk@, rooted, all),
                    match at {
                        Some(i) => i < disk@.len() && part@.len() > 0 && known(disk@, part@)
                            == Some(disk@[i as int]),
                        None => part@.len() == 0 || known(disk@, part@) is None,
                    },
                decreases k,
            {
                proof {
                    assert(all.take(k as int).drop_last() =~= all.take(k - 1));
                }
                k -= 1;
                let names = first_names(&list, k);
                part = path::build(rooted, &names);
                at = if part.as_str().unicode_len() > 0 {
                    find_place(disk, part.as_str())
                } else {
                    None
                };
            }
            match at {
                None => Resolved {
                    path: path::build(rooted, &list),
                    directory: false,
                    there: false,
                },
                Some(i) => {
                    let mut path = disk[i].canonical.clone();
                    let ghost base = path@;
                    let ghost rest = all.skip(k as int);
                    let mut j: usize = k;
                    proof {
                        assert(rest.take(0) =~= Seq::empty());
                    }
                    while j < list.len()
                        invariant
                            k <= j <= list.len(),
                            all == text::views(list@),
                            rest == all.skip(k as int),
                            path@ == path_with(base, rest.take(j - k)),
                        decreases list.len() - j,
                    {
                        path = path::join(path.as_str(), list[j].as_str());
                        proof {
                            assert(rest.take(j + 1 - k).drop_last() =~= rest.take(j - k));
                            assert(rest.take(j + 1 - k).last() == all[j as int]);
                        }
                        j += 1;
                    }
                    proof {
                        assert(rest.take(j - k) =~= rest);
                    }
                    Resolved {
                        path,
                        directory: k == list.len() && disk[i].directory,
                        there: k == list.len(),
                    }
                },
            }
        },
    };
    let root = match find_place(disk, project_root) {
        Some(at) => disk[at].canonical.clone(),
        None => project_root.to_owned(),
    };
    if path::at_or_below(place.path.as_str(), root.as_str()) {
        Ok(place)
    } else {
        let mut said = text::cat5(
            "path '",
            path_str,
            "' resolves outside the project root (",
            project_root,
            ")",
        );
        Err(Error::new(said))
    }
}

/// Only what the disk has at the paths to check decides where a path leads.
pub proof fn lemma_resolution_asks_only(
    a: Seq<Place>,
    b: Seq<Place>,
    cwd: Seq<char>,
    path: Seq<char>,
    root: Seq<char>,
)
    requires
        forall|p: Seq<char>| #[trigger]
            questions(cwd, path, root).contains(p) ==> known(a, p) == known(b, p),
    ensures
        leads_to(a, cwd, path) == leads_to(b, cwd, path),
        is_there(a, cwd, path) == is_there(b, cwd, path),
        real_root(a, root) == real_root(b, root),
{
    let whole = join_spec(cwd, path);
    let list = resolved(names(whole));
    let asked = questions(cwd, path, root);
    assert(asked[0] == whole);
    assert(asked[1] == root);
    assert forall|k: int| 0 <= k <= list.len() implies known(
        a,
        #[trigger] path_of(is_absolute(whole), list.take(k)),
    ) == known(b, path_of(is_absolute(whole), list.take(k))) by {
        assert(asked[k + 2] == path_of(is_absolute(whole), list.take(k)));
        assert(asked.contains(path_of(is_absolute(whole), list.take(k))));
    }
    assert(asked.contains(whole));
    assert(asked.contains(root));
    assert(list.take(list.len() as int) =~= list);
    lemma_deepest_agrees(a, b, is_absolute(whole), list, list.len() as int);
}

/// What the disk has at a path is one of its places.
proof fn lemma_known_listed(disk: Seq<Place>, path: Seq<char>)
    requires
        known(disk, path) is Some,
    ensures
        disk.contains(known(disk, path)->0),
    decreases disk.len(),
{
    if disk[0].path@ == path {
        assert(disk.contains(disk[0]));
    } else {
        let rest = disk.skip(1);
        lemma_known_listed(rest, path);
        let k = choose|k: int| 0 <= k < rest.len() && rest[k] == known(rest, path)->0;
        assert(disk[k + 1] == rest[k]);
    }
}

/// A path without a parent folder in it has none with plain names below it.
proof fn lemma_path_with_plain(base: Seq<char>, list: Seq<Seq<char>>)
    requires
        !path::has_parent(base),
        path::all_plain(list),
    ensures
        !path::has_parent(path_with(base, list)),
    decreases list.len(),
{
    if list.len() > 0 {
        let front = list.drop_last();
        assert forall|i: int| 0 <= i < front.len() implies path::is_plain(#[trigger] front[i]) by {
            assert(front[i] == list[i]);
        }
        lemma_path_with_plain(base, front);
        assert(path::is_plain(list[list.len() - 1]));
        let above = path_with(base, front);
        let name = list.last();
        let one = seq![name];
        assert(path::all_plain(one));
        path::lemma_path_keeps_names(false, one);
        assert(one.drop_last() =~= Seq::empty());
        reveal_with_fuel(text::joined, 2);
        assert(path::path_of(false, one) =~= name);
        if above.len() == 0 {
            assert(above + name =~= name);
            assert(path::names(name) == one);
        } else {
            path::lemma_join_names(above, name);
        }
        let all = path::names(path_with(base, list));
        if all.contains(".."@) {
            let k = choose|k: int| 0 <= k < all.len() && all[k] == ".."@;
            if above.len() == 0 {
                assert(one[k] == ".."@);
            } else if k < names(above).len() {
                assert(names(above)[k] == ".."@);
            } else {
                assert(one[k - names(above).len()] == ".."@);
            }
        }
    }
}

/// Where a path leads has no way back to a parent folder in it, so that to lie
/// below a folder by name is to lie in it: the names by which the disk knows its
/// places have none.
pub proof fn lemma_resolution_has_no_parent(disk: Seq<Place>, cwd: Seq<char>, path: Seq<char>)
    requires
        forall|i: int|
            0 <= i < disk.len() ==> !path::has_parent((#[trigger] disk[i]).canonical@),
    ensures
        !path::has_parent(leads_to(disk, cwd, path).0),
{
    let whole = join_spec(cwd, path);
    let list = resolved(names(whole));
    path::lemma_names_plain(whole);
    path::lemma_resolved_no_parent(names(whole));
    assert forall|i: int| 0 <= i < list.len() implies path::is_plain(#[trigger] list[i]) by {
        assert(names(whole).contains(list[i]));
        assert(list.contains(list[i]));
        let k = choose|k: int| 0 <= k < names(whole).len() && names(whole)[k] == list[i];
        assert(names(whole)[k] == ".."@ || path::is_plain(names(whole)[k]));
    }
    match known(disk, whole) {
        Some(place) => lemma_known_listed(disk, whole),
        None => match deepest(disk, is_absolute(whole), list) {
            None => path::lemma_path_keeps_names(is_absolute(whole), list),
            Some(k) => {
                lemma_deepest_known(disk, is_absolute(whole), list);
                lemma_known_listed(disk, path_of(is_absolute(whole), list.take(k)));
                let rest = list.skip(k);
                assert forall|i: int| 0 <= i < rest.len() implies path::is_plain(
                    #[trigger] rest[i],
                ) by {
                    assert(rest[i] == list[k + i]);
                }
                let place = known(disk, path_of(is_absolute(whole), list.take(k)))->0;
                lemma_path_with_plain(place.canonical@, rest);
            },
        },
    }
}

/// There is something at the deepest place.
proof fn lemma_deepest_known(disk: Seq<Place>, absolute: bool, list: Seq<Seq<char>>)
    ensures
        deepest(disk, absolute, list) matches Some(k) ==> 0 <= k <= list.len() && known(
            disk,
            path_of(absolute, list.take(k)),
        ) is Some,
    decreases list.len(),
{
    assert(list.take(list.len() as int) =~= list);
    if path_of(absolute, list).len() > 0 && known(disk, path_of(absolute, list)) is Some {
    } else if list.len() > 0 {
        lemma_deepest_known(disk, absolute, list.drop_last());
        match deepest(disk, absolute, list) {
            Some(k) => {
                assert(list.drop_last().take(k) =~= list.take(k));
            },
            None => {},
        }
    }
}

/// Two disks with the same places on a way have the same deepest place on it.
proof fn lemma_deepest_agrees(
    a: Seq<Place>,
    b: Seq<Place>,
    absolute: bool,
    list: Seq<Seq<char>>,
    n: int,
)
    requires
        0 <= n <= list.len(),
        forall|k: int|
            0 <= k <= list.len() ==> known(a, #[trigger] path_of(absolute, list.take(k))) == known(
                b,
                path_of(absolute, list.take(k)),
            ),
    ensures
        deepest(a, absolute, list.take(n)) == deepest(b, absolute, list.take(n)),
        deepest(a, absolute, list.take(n)) matches Some(k) ==> 0 <= k <= n,
    decreases n,
{
    assert(known(a, path_of(absolute, list.take(n))) == known(b, path_of(absolute, list.take(n))));
    if n > 0 {
        lemma_deepest_agrees(a, b, absolute, list, n - 1);
        assert(list.take(n).drop_last() =~= list.take(n - 1));
    }
}

/// The project that watches a directory, the closest where there are several.
pub fn find_project(db: &Database, cwd: &str) -> (result: Result<WatchedProject, Error>)
    ensures
        match result {
            Ok(project) => is_closest(db@.projects, cwd@, Some(project)),
            Err(e) => is_closest(db@.projects, cwd@, None) && e@
                == "no project is being watched for this directory.\nRun `undo start` first."@,
        },
{
    match db.find_project_for_path(cwd)? {
        Some(project) => Ok(project),
        None => Err(
            Error::new(
                "no project is being watched for this directory.\nRun `undo start` first.".to_owned(),
            ),
        ),
    }
}

} // verus!
