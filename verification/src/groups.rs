//! Changes put together by the part of the project that they are in.
use vstd::prelude::*;
use vstd::string::*;

use crate::diff;
use crate::models::FileEvent;
use crate::path;
use crate::rows;
use crate::sorted;
use crate::split;
use crate::split::Break;
use crate::text;

verus! {

/// Changes to one part of a project.
#[derive(Debug)]
pub struct ChangeGroup {
    pub id: String,
    pub label: String,
    pub paths: Vec<String>,
    pub event_count: usize,
    pub inserted: usize,
    pub deleted: usize,
}

/// What a group is.
pub ghost struct GroupView {
    pub id: Seq<char>,
    pub label: Seq<char>,
    pub paths: Seq<Seq<char>>,
    pub event_count: usize,
    pub inserted: usize,
    pub deleted: usize,
}

impl View for ChangeGroup {
    type V = GroupView;

    open spec fn view(&self) -> GroupView {
        GroupView {
            id: self.id@,
            label: self.label@,
            paths: text::views(self.paths@),
            event_count: self.event_count,
            inserted: self.inserted,
            deleted: self.deleted,
        }
    }
}

/// What groups are.
pub open spec fn groups_view(groups: Seq<ChangeGroup>) -> Seq<GroupView> {
    groups.map_values(|g: ChangeGroup| g@)
}

impl Clone for ChangeGroup {
    fn clone(&self) -> (copy: Self)
        ensures
            copy@ == self@,
    {
        ChangeGroup {
            id: self.id.clone(),
            label: self.label.clone(),
            paths: text::clone_all(&self.paths),
            event_count: self.event_count,
            inserted: self.inserted,
            deleted: self.deleted,
        }
    }
}

// ── names ───────────────────────────────────────────────────────────

/// The folders that hold the parts of a project, and are no part themselves.
pub open spec fn is_container(name: Seq<char>) -> bool {
    ||| name == "src"@
    ||| name == "app"@
    ||| name == "lib"@
    ||| name == "crates"@
    ||| name == "packages"@
    ||| name == "components"@
}

/// Whether a folder holds the parts of a project.
fn container(name: &str) -> (yes: bool)
    ensures
        yes == is_container(name@),
{
    text::same(name, "src") || text::same(name, "app") || text::same(name, "lib") || text::same(
        name,
        "crates",
    ) || text::same(name, "packages") || text::same(name, "components")
}

/// A name without what follows its last dot.
pub open spec fn stem(name: Seq<char>) -> Seq<char> {
    if path::last_at(name, '.') >= 0 {
        name.take(path::last_at(name, '.'))
    } else {
        name
    }
}

/// A name without what follows its last dot.
pub fn path_stem(name: &str) -> (out: String)
    ensures
        out@ == stem(name@),
{
    let chars = text::chars_of(name);
    match path::rfind(&chars, '.') {
        Some(at) => {
            proof {
                path::lemma_last_at(name@, '.');
            }
            let out = text::text_of(&chars, 0, at);
            proof {
                assert(out@ =~= name@.take(at as int));
            }
            out
        },
        None => name.to_owned(),
    }
}

/// Small letters and digits, with one dash for each other stretch inside.
pub open spec fn dashed(s: Seq<char>) -> Seq<char>
    decreases s.len(),
{
    if s.len() == 0 {
        Seq::empty()
    } else {
        let before = dashed(s.drop_last());
        if text::is_alnum(s.last()) {
            before.push(text::lower_char(s.last()))
        } else if before.len() > 0 && before.last() != '-' {
            before.push('-')
        } else {
            before
        }
    }
}

/// A name in small letters, digits and dashes.
pub open spec fn slug(s: Seq<char>) -> Seq<char> {
    let body = dashed(s);
    let trimmed = if body.len() > 0 && body.last() == '-' {
        body.drop_last()
    } else {
        body
    };
    if trimmed.len() == 0 {
        "root"@
    } else {
        trimmed
    }
}

/// Whether a character may stand in a slug.
pub open spec fn is_slug_char(c: char) -> bool {
    text::is_digit(c) || 'a' <= c <= 'z' || c == '-'
}

/// What the characters of a slug are.
proof fn lemma_dashed(s: Seq<char>)
    ensures
        dashed(s).len() > 0 ==> dashed(s)[0] != '-',
        forall|i: int| 0 <= i < dashed(s).len() ==> is_slug_char(#[trigger] dashed(s)[i]),
        forall|i: int|
            0 <= i < dashed(s).len() - 1 ==> !((#[trigger] dashed(s)[i]) == '-' && dashed(s)[i + 1]
                == '-'),
    decreases s.len(),
{
    if s.len() > 0 {
        lemma_dashed(s.drop_last());
        let before = dashed(s.drop_last());
        let c = s.last();
        if 'A' <= c <= 'Z' {
            assert('a' <= text::lower_char(c) <= 'z');
        }
    }
}

/// A slug is not empty, holds small letters, digits and dashes alone, and
/// neither begins nor ends with a dash.
pub proof fn lemma_slug_shape(s: Seq<char>)
    ensures
        slug(s).len() > 0,
        slug(s)[0] != '-',
        slug(s).last() != '-',
        forall|i: int| 0 <= i < slug(s).len() ==> is_slug_char(#[trigger] slug(s)[i]),
{
    lemma_dashed(s);
    reveal_strlit("root");
    let body = dashed(s);
    if body.len() > 1 && body.last() == '-' {
        assert(body[body.len() - 2] != '-');
        assert(body.drop_last().last() == body[body.len() - 2]);
    }
}

/// A name in small letters, digits and dashes.
pub fn slugify(input: &str) -> (out: String)
    ensures
        out@ == slug(input@),
{
    let chars = text::chars_of(input);
    let mut body: Vec<char> = Vec::new();
    let mut i: usize = 0;
    while i < chars.len()
        invariant
            i <= chars.len(),
            chars@ == input@,
            body@ == dashed(input@.take(i as int)),
        decreases chars.len() - i,
    {
        let c = chars[i];
        proof {
            assert(input@.take(i + 1).drop_last() =~= input@.take(i as int));
            assert(input@.take(i + 1).last() == c);
        }
        if text::alnum(c) {
            body.push(text::lowered_char(c));
        } else if body.len() > 0 && body[body.len() - 1] != '-' {
            body.push('-');
        }
        i += 1;
    }
    proof {
        assert(input@.take(i as int) =~= input@);
    }
    if body.len() > 0 && body[body.len() - 1] == '-' {
        let last = body.pop();
    }
    if body.len() == 0 {
        "root".to_owned()
    } else {
        text::text_from(&body)
    }
}

/// The folder or file that a path belongs to.
pub open spec fn part_of(rel: Seq<char>) -> Seq<char> {
    let parts = split::words(rel, Break::Slash);
    if parts.len() == 0 {
        "root"@
    } else if is_container(parts[0]) && parts.len() > 1 {
        parts[1]
    } else {
        parts[0]
    }
}

/// The group that a path belongs to.
pub open spec fn group_of(rel: Seq<char>) -> Seq<char> {
    slug(stem(part_of(rel)))
}

/// How the group of a path is called.
pub open spec fn label_of(rel: Seq<char>) -> Seq<char> {
    let parts = split::words(rel, Break::Slash);
    if parts.len() == 0 {
        "root"@
    } else if is_container(parts[0]) && parts.len() > 1 {
        parts[0] + "/"@ + parts[1]
    } else {
        parts[0]
    }
}

/// The group that a path belongs to.
pub fn group_id_for_path(rel_path: &str) -> (id: String)
    ensures
        id@ == group_of(rel_path@),
{
    let parts = split::split_words(rel_path, Break::Slash);
    let ghost all = split::words(rel_path@, Break::Slash);
    proof {
        assert(text::views(parts@) == all);
        if parts@.len() > 0 {
            assert(all[0] == parts@[0]@);
        }
        if parts@.len() > 1 {
            assert(all[1] == parts@[1]@);
        }
    }
    let part = if parts.len() == 0 {
        "root".to_owned()
    } else if container(parts[0].as_str()) && parts.len() > 1 {
        parts[1].clone()
    } else {
        parts[0].clone()
    };
    slugify(path_stem(part.as_str()).as_str())
}

/// How the group of a path is called.
pub fn label_for_path(rel_path: &str) -> (label: String)
    ensures
        label@ == label_of(rel_path@),
{
    let parts = split::split_words(rel_path, Break::Slash);
    let ghost all = split::words(rel_path@, Break::Slash);
    proof {
        assert(text::views(parts@) == all);
        if parts@.len() > 0 {
            assert(all[0] == parts@[0]@);
        }
        if parts@.len() > 1 {
            assert(all[1] == parts@[1]@);
        }
    }
    if parts.len() == 0 {
        "root".to_owned()
    } else if container(parts[0].as_str()) && parts.len() > 1 {
        text::cat3(parts[0].as_str(), "/", parts[1].as_str())
    } else {
        parts[0].clone()
    }
}

// ── line counts ─────────────────────────────────────────────────────

/// The version before a change, from the one that was kept.
pub open spec fn content_before(event_type: Seq<char>, previous: Option<Seq<u8>>) -> Seq<u8> {
    if event_type == "CREATED"@ || previous is None {
        Seq::empty()
    } else {
        previous->0
    }
}

/// The version after a change, from the one that was kept.
pub open spec fn content_after(event_type: Seq<char>, current: Option<Seq<u8>>) -> Seq<u8> {
    if event_type == "DELETED"@ || current is None {
        Seq::empty()
    } else {
        current->0
    }
}

/// The bytes of a version, where it was kept.
pub open spec fn bytes_opt(content: Option<Vec<u8>>) -> Option<Seq<u8>> {
    match content {
        Some(bytes) => Some(bytes@),
        None => None,
    }
}

/// How many lines a change has added and removed, from the versions before and
/// after it that were kept. A binary file has no lines.
pub fn diff_stats_for_event(
    event_type: &str,
    previous: &Option<Vec<u8>>,
    current: &Option<Vec<u8>>,
) -> (counts: (usize, usize))
    ensures
        ({
            let a = content_before(event_type@, bytes_opt(*previous));
            let b = content_after(event_type@, bytes_opt(*current));
            if diff::binary(a) || diff::binary(b) {
                counts == (0usize, 0usize)
            } else {
                &&& counts.0 == diff::sign_count(diff::line_diff(diff::lossy(a), diff::lossy(b)), '+')
                &&& counts.1 == diff::sign_count(diff::line_diff(diff::lossy(a), diff::lossy(b)), '-')
            }
        }),
{
    let empty: Vec<u8> = Vec::new();
    let before = match previous {
        Some(bytes) => if text::same(event_type, "CREATED") {
            &empty
        } else {
            bytes
        },
        None => &empty,
    };
    let after = match current {
        Some(bytes) => if text::same(event_type, "DELETED") {
            &empty
        } else {
            bytes
        },
        None => &empty,
    };
    proof {
        assert(before@ =~= content_before(event_type@, bytes_opt(*previous)));
        assert(after@ =~= content_after(event_type@, bytes_opt(*current)));
    }
    if diff::is_binary(before.as_slice()) || diff::is_binary(after.as_slice()) {
        return (0, 0);
    }
    let a = diff::lossy_text(before.as_slice());
    let b = diff::lossy_text(after.as_slice());
    diff::diff_stats(a.as_str(), b.as_str())
}

// ── groups ──────────────────────────────────────────────────────────

/// The changes that belong to a group.
pub open spec fn in_group(root: Seq<char>, id: Seq<char>) -> spec_fn(FileEvent) -> bool {
    |e: FileEvent| group_of(path::relative(e.path@, root)) == id
}

/// The group of each change.
pub open spec fn group_ids(root: Seq<char>, events: Seq<FileEvent>) -> Seq<Seq<char>> {
    events.map_values(|e: FileEvent| group_of(path::relative(e.path@, root)))
}

/// How the group of each change is called.
pub open spec fn group_labels(root: Seq<char>, events: Seq<FileEvent>) -> Seq<Seq<char>> {
    events.map_values(|e: FileEvent| label_of(path::relative(e.path@, root)))
}

/// The paths that changes name.
pub open spec fn named_paths(events: Seq<FileEvent>) -> Seq<Seq<char>>
    decreases events.len(),
{
    if events.len() == 0 {
        Seq::empty()
    } else {
        let before = named_paths(events.drop_last()).push(events.last().path@);
        match events.last().old_path {
            Some(path) => before.push(path@),
            None => before,
        }
    }
}

/// The sum of the added or removed lines of the changes that pass a test.
pub open spec fn line_total(
    events: Seq<FileEvent>,
    stats: Seq<(usize, usize)>,
    keep: spec_fn(FileEvent) -> bool,
    added: bool,
) -> int
    decreases events.len(),
{
    if events.len() == 0 || stats.len() != events.len() {
        0
    } else {
        let last = if added {
            stats.last().0 as int
        } else {
            stats.last().1 as int
        };
        line_total(events.drop_last(), stats.drop_last(), keep, added) + if keep(events.last()) {
            last
        } else {
            0
        }
    }
}

/// Whether a text is the first, in their order, of some.
pub open spec fn is_least(list: Seq<Seq<char>>, least: Seq<char>) -> bool {
    list.contains(least) && forall|i: int| 0 <= i < list.len() ==> !sorted::less(#[trigger] list[i], least)
}

/// Whether a group holds exactly the changes with its id.
pub open spec fn is_group(
    root: Seq<char>,
    events: Seq<FileEvent>,
    stats: Seq<(usize, usize)>,
    id: Seq<char>,
    group: ChangeGroup,
) -> bool {
    let own = rows::retained(events, in_group(root, id));
    &&& group.id@ == id
    &&& group.event_count == own.len()
    &&& is_least(group_labels(root, own), group.label@)
    &&& sorted::is_sorted_set(named_paths(own), text::views(group.paths@))
    &&& group.inserted == line_total(events, stats, in_group(root, id), true)
    &&& group.deleted == line_total(events, stats, in_group(root, id), false)
}

/// Whether groups are those of some changes, by their ids.
pub open spec fn are_groups(
    root: Seq<char>,
    events: Seq<FileEvent>,
    stats: Seq<(usize, usize)>,
    groups: Seq<ChangeGroup>,
) -> bool {
    exists|ids: Seq<Seq<char>>|
        {
            &&& #[trigger] sorted::is_sorted_set(group_ids(root, events), ids)
            &&& ids.len() == groups.len()
            &&& forall|i: int|
                0 <= i < groups.len() ==> is_group(root, events, stats, ids[i], #[trigger] groups[i])
        }
}

/// All changes.
pub open spec fn every() -> spec_fn(FileEvent) -> bool {
    |e: FileEvent| true
}

/// A part of the lines is no more than all.
proof fn lemma_line_total_bound(
    events: Seq<FileEvent>,
    stats: Seq<(usize, usize)>,
    keep: spec_fn(FileEvent) -> bool,
    added: bool,
)
    ensures
        0 <= line_total(events, stats, keep, added) <= line_total(events, stats, every(), added),
    decreases events.len(),
{
    if events.len() > 0 && stats.len() == events.len() {
        lemma_line_total_bound(events.drop_last(), stats.drop_last(), keep, added);
    }
}

/// The lines of the first changes are no more than those of all.
proof fn lemma_line_total_take(
    events: Seq<FileEvent>,
    stats: Seq<(usize, usize)>,
    keep: spec_fn(FileEvent) -> bool,
    added: bool,
    n: int,
)
    requires
        0 <= n <= events.len(),
        stats.len() == events.len(),
    ensures
        line_total(events.take(n), stats.take(n), keep, added) <= line_total(
            events,
            stats,
            keep,
            added,
        ),
    decreases events.len() - n,
{
    if n < events.len() {
        lemma_line_total_take(events, stats, keep, added, n + 1);
        assert(events.take(n + 1).drop_last() =~= events.take(n));
        assert(stats.take(n + 1).drop_last() =~= stats.take(n));
    } else {
        assert(events.take(n) =~= events);
        assert(stats.take(n) =~= stats);
    }
}

/// The group with an id.
fn group_from_events(root: &str, events: &Vec<FileEvent>, stats: &Vec<(usize, usize)>, id: &String) -> (group:
    ChangeGroup)
    requires
        stats@.len() == events@.len(),
        line_total(events@, stats@, every(), true) <= usize::MAX,
        line_total(events@, stats@, every(), false) <= usize::MAX,
        group_ids(root@, events@).contains(id@),
    ensures
        is_group(root@, events@, stats@, id@, group),
{
    let ghost keep = in_group(root@, id@);
    let ghost all = events@;
    let mut label: Option<String> = None;
    let mut paths: Vec<String> = Vec::new();
    let mut event_count: usize = 0;
    let mut inserted: usize = 0;
    let mut deleted: usize = 0;
    let mut i: usize = 0;
    proof {
        assert(text::views(paths@) =~= Seq::empty());
        assert(named_paths(rows::retained(all.take(0), keep)) =~= Seq::empty());
    }
    while i < events.len()
        invariant
            i <= events.len(),
            all == events@,
            keep == in_group(root@, id@),
            stats@.len() == events@.len(),
            line_total(events@, stats@, every(), true) <= usize::MAX,
            line_total(events@, stats@, every(), false) <= usize::MAX,
            event_count <= i,
            event_count == rows::retained(all.take(i as int), keep).len(),
            inserted == line_total(all.take(i as int), stats@.take(i as int), keep, true),
            deleted == line_total(all.take(i as int), stats@.take(i as int), keep, false),
            sorted::in_order(paths@),
            sorted::is_sorted_set(
                named_paths(rows::retained(all.take(i as int), keep)),
                text::views(paths@),
            ),
            match label {
                Some(l) => is_least(group_labels(root@, rows::retained(all.take(i as int), keep)), l@),
                None => rows::retained(all.take(i as int), keep).len() == 0,
            },
        decreases events.len() - i,
    {
        let event = &events[i];
        let rel = path::relative_path(event.path.as_str(), root);
        let ghost t0 = all.take(i as int);
        let ghost t1 = all.take(i + 1);
        let ghost own0 = rows::retained(t0, keep);
        let ghost own1 = rows::retained(t1, keep);
        let ghost named0 = named_paths(own0);
        proof {
            assert(t1.drop_last() =~= t0);
            assert(t1.last() == all[i as int]);
            assert(stats@.take(i + 1).drop_last() =~= stats@.take(i as int));
        }
        if text::same(group_id_for_path(rel).as_str(), id.as_str()) {
            proof {
                assert(own1 == own0.push(all[i as int]));
                assert(own1.drop_last() =~= own0);
                lemma_line_total_take(all, stats@, keep, true, i + 1);
                lemma_line_total_bound(all, stats@, keep, true);
                lemma_line_total_take(all, stats@, keep, false, i + 1);
                lemma_line_total_bound(all, stats@, keep, false);
            }
            event_count += 1;
            inserted = inserted + stats[i].0;
            deleted = deleted + stats[i].1;
            let new_path = sorted::insert(&mut paths, event.path.clone());
            let ghost half = text::views(paths@);
            if let Some(old_path) = &event.old_path {
                let new_old = sorted::insert(&mut paths, old_path.clone());
            }
            proof {
                let named1 = named_paths(own1);
                let mid = named0.push(all[i as int].path@);
                assert forall|t: Seq<char>| text::views(paths@).contains(t)
                    <==> named1.contains(t) by {
                    assert(mid.contains(t) <==> named0.contains(t) || t == all[i as int].path@) by {
                        lemma_push_contains(named0, all[i as int].path@, t);
                    }
                    if all[i as int].old_path is Some {
                        lemma_push_contains(mid, all[i as int].old_path->0@, t);
                    }
                }
            }
            let next = label_for_path(rel);
            let ghost labels0 = group_labels(root@, own0);
            let ghost labels1 = group_labels(root@, own1);
            proof {
                assert(labels1 =~= labels0.push(next@));
                assert(labels1[labels0.len() as int] == next@);
            }
            label = match label {
                Some(l) => {
                    proof {
                        assert(labels0.contains(l@));
                        let k = choose|k: int| 0 <= k < labels0.len() && labels0[k] == l@;
                        assert(labels1[k] == l@);
                        sorted::lemma_less_irreflexive(next@);
                        assert forall|k: int| 0 <= k < labels1.len() && sorted::less(
                            next@,
                            l@,
                        ) implies !sorted::less(#[trigger] labels1[k], next@) by {
                            if k < labels0.len() && sorted::less(labels1[k], next@) {
                                sorted::lemma_less_transitive(labels0[k], next@, l@);
                            }
                        }
                        assert forall|k: int| 0 <= k < labels1.len() && !sorted::less(
                            next@,
                            l@,
                        ) implies !sorted::less(#[trigger] labels1[k], l@) by {
                            if k < labels0.len() {
                                assert(labels1[k] == labels0[k]);
                            }
                        }
                    }
                    if sorted::before(next.as_str(), l.as_str()) {
                        Some(next)
                    } else {
                        Some(l)
                    }
                },
                None => {
                    proof {
                        sorted::lemma_less_irreflexive(next@);
                    }
                    Some(next)
                },
            };
        } else {
            proof {
                assert(own1 == own0);
            }
        }
        i += 1;
    }
    proof {
        assert(all.take(i as int) =~= all);
        assert(stats@.take(i as int) =~= stats@);
        let ids = group_ids(root@, events@);
        let k = choose|k: int| 0 <= k < ids.len() && ids[k] == id@;
        rows::lemma_retained_contains(all, keep);
        assert(all.contains(all[k]));
        assert(rows::retained(all, keep).contains(all[k]));
    }
    ChangeGroup {
        id: id.clone(),
        label: match label {
            Some(l) => l,
            None => id.clone(),
        },
        paths,
        event_count,
        inserted,
        deleted,
    }
}

/// What a list with one more item contains.
proof fn lemma_push_contains(list: Seq<Seq<char>>, item: Seq<char>, t: Seq<char>)
    ensures
        list.push(item).contains(t) <==> list.contains(t) || t == item,
{
    let more = list.push(item);
    if list.contains(t) {
        let k = choose|k: int| 0 <= k < list.len() && list[k] == t;
        assert(more[k] == t);
    }
    assert(more[list.len() as int] == item);
    if more.contains(t) {
        let k = choose|k: int| 0 <= k < more.len() && more[k] == t;
        if k < list.len() {
            assert(list[k] == t);
        }
    }
}

/// The groups of some changes to the files below a root, with the added and
/// removed lines of each change, by their ids.
pub fn build_groups(root: &str, events: &Vec<FileEvent>, stats: &Vec<(usize, usize)>) -> (groups:
    Vec<ChangeGroup>)
    requires
        stats@.len() == events@.len(),
        line_total(events@, stats@, every(), true) <= usize::MAX,
        line_total(events@, stats@, every(), false) <= usize::MAX,
    ensures
        are_groups(root@, events@, stats@, groups@),
{
    let id_of = |e: &FileEvent| -> (out: String)
        ensures out@ == group_of(path::relative(e.path@, root@))
    { group_id_for_path(path::relative_path(e.path.as_str(), root)) };
    let ids = text::lines_for(
        events,
        id_of,
        Ghost(|e: FileEvent| group_of(path::relative(e.path@, root@))),
    );
    let sorted_ids = sorted::sorted_set(&ids);
    let ghost names = text::views(sorted_ids@);
    proof {
        assert(text::views(ids@) =~= group_ids(root@, events@));
    }
    let mut groups: Vec<ChangeGroup> = Vec::new();
    let mut i: usize = 0;
    while i < sorted_ids.len()
        invariant
            i <= sorted_ids.len(),
            groups@.len() == i,
            names == text::views(sorted_ids@),
            sorted::is_sorted_set(group_ids(root@, events@), names),
            stats@.len() == events@.len(),
            line_total(events@, stats@, every(), true) <= usize::MAX,
            line_total(events@, stats@, every(), false) <= usize::MAX,
            forall|k: int|
                0 <= k < i ==> is_group(root@, events@, stats@, names[k], #[trigger] groups@[k]),
        decreases sorted_ids.len() - i,
    {
        proof {
            assert(names[i as int] == sorted_ids@[i as int]@);
            assert(names.contains(sorted_ids@[i as int]@));
        }
        groups.push(group_from_events(root, events, stats, &sorted_ids[i]));
        i += 1;
    }
    proof {
        assert(names.len() == groups@.len());
    }
    groups
}

/// The paths of some groups, one after the other.
pub open spec fn group_paths(groups: Seq<ChangeGroup>) -> Seq<Seq<char>>
    decreases groups.len(),
{
    if groups.len() == 0 {
        Seq::empty()
    } else {
        group_paths(groups.drop_last()) + text::views(groups.last().paths@)
    }
}

/// The paths of all groups, each once and in their order.
pub fn all_group_paths(groups: &Vec<ChangeGroup>) -> (paths: Vec<String>)
    ensures
        sorted::is_sorted_set(group_paths(groups@), text::views(paths@)),
{
    let mut list: Vec<String> = Vec::new();
    let mut i: usize = 0;
    proof {
        assert(text::views(list@) =~= group_paths(groups@.take(0)));
    }
    while i < groups.len()
        invariant
            i <= groups.len(),
            text::views(list@) == group_paths(groups@.take(i as int)),
        decreases groups.len() - i,
    {
        let ghost earlier = text::views(list@);
        let mut j: usize = 0;
        proof {
            assert(text::views(groups@[i as int].paths@.take(0)) =~= Seq::empty());
            assert(earlier + Seq::<Seq<char>>::empty() =~= earlier);
        }
        while j < groups[i].paths.len()
            invariant
                i < groups.len(),
                j <= groups@[i as int].paths.len(),
                text::views(list@) == earlier + text::views(
                    groups@[i as int].paths@.take(j as int),
                ),
            decreases groups@[i as int].paths.len() - j,
        {
            let ghost own = groups@[i as int].paths@;
            let ghost half = list@;
            list.push(groups[i].paths[j].clone());
            proof {
                assert(text::views(list@) =~= text::views(half).push(own[j as int]@));
                assert(text::views(own.take(j + 1)) =~= text::views(own.take(j as int)).push(
                    own[j as int]@,
                ));
                assert(text::views(list@) =~= earlier + text::views(own.take(j + 1)));
            }
            j += 1;
        }
        proof {
            assert(groups@[i as int].paths@.take(j as int) =~= groups@[i as int].paths@);
            assert(groups@.take(i + 1).drop_last() =~= groups@.take(i as int));
        }
        i += 1;
    }
    proof {
        assert(groups@.take(i as int) =~= groups@);
    }
    sorted::sorted_set(&list)
}

} // verus!
