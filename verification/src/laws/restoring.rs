//! What the plans that bring files back do, in terms of the changes that were
//! recorded and of what is found on the disk.
use vstd::prelude::*;

use crate::db::events::{deletions_at, since, touching_after};
use crate::error::Error;
use crate::laws::moments::{
    comes_later, finds_file, held, held_nothing, is_next, lemma_state_at_time, moved_from,
    names_file, was_removed, Moment,
};
use crate::models::{FileEvent, WatchedProject};
use crate::order;
use crate::path;
use crate::places;
use crate::places::Place;
use crate::restore::{
    best_source, entries_at_time, entries_view, entry_for, is_arranged, is_deleted_plan,
    is_directory_plan, is_planned, is_restore_plan, scoped_paths, state_at_time, target_at,
    versions_at, versions_until, ActionView, EntryView, RestoreKind, RestorePlan, SourceView,
    StateView,
};
use crate::restore_fs::{confined_below, leaf_at, spot_at, Leaf, Spot};
use crate::rows;
use crate::rows::Order;
use crate::sorted;

verus! {

// ── what is found on the disk ───────────────────────────────────────

/// Whether the last thing that was found at a path is of a kind.
pub open spec fn is_found(spots: Seq<Spot>, target: Seq<char>, leaf: Leaf) -> bool {
    exists|i: int| #[trigger] is_spot(spots, target, i) && spots[i].leaf == leaf
}

/// Whether nothing was looked for at a path.
pub open spec fn is_unlisted(spots: Seq<Spot>, target: Seq<char>) -> bool {
    forall|i: int| 0 <= i < spots.len() ==> (#[trigger] spots[i]).relative@ != target
}

/// Whether a file can be put at a path: a file is there, or nothing.
pub open spec fn is_free(spots: Seq<Spot>, target: Seq<char>) -> bool {
    is_unlisted(spots, target) || is_found(spots, target, Leaf::File) || is_found(
        spots,
        target,
        Leaf::Missing,
    ) || is_found(spots, target, Leaf::NoParent)
}

/// Whether a place in a list is the last one for a path.
pub open spec fn is_spot(spots: Seq<Spot>, target: Seq<char>, i: int) -> bool {
    &&& 0 <= i < spots.len()
    &&& spots[i].relative@ == target
    &&& forall|j: int| i < j < spots.len() ==> (#[trigger] spots[j]).relative@ != target
}

/// What is looked up for a path is the last thing listed for it.
pub proof fn lemma_spot(spots: Seq<Spot>, target: Seq<char>)
    ensures
        match spot_at(spots, target) {
            Some(i) => is_spot(spots, target, i),
            None => is_unlisted(spots, target),
        },
    decreases spots.len(),
{
    if spots.len() > 0 {
        let front = spots.drop_last();
        let n = spots.len() - 1;
        lemma_spot(front, target);
        if spots.last().relative@ != target {
            match spot_at(front, target) {
                Some(i) => {
                    assert(front[i] == spots[i]);
                    assert forall|j: int| i < j < spots.len() implies (
                    #[trigger] spots[j]).relative@ != target by {
                        if j < n {
                            assert(front[j] == spots[j]);
                        }
                    }
                },
                None => {
                    assert forall|j: int| 0 <= j < spots.len() implies (
                    #[trigger] spots[j]).relative@ != target by {
                        if j < n {
                            assert(front[j] == spots[j]);
                        }
                    }
                },
            }
        }
    }
}

/// What is found at a path is the last thing listed for it.
pub proof fn lemma_found(spots: Seq<Spot>, target: Seq<char>)
    ensures
        forall|leaf: Leaf| #[trigger]
            is_found(spots, target, leaf) ==> leaf_at(spots, target) == leaf,
        is_unlisted(spots, target) ==> leaf_at(spots, target) == Leaf::Missing,
        is_unlisted(spots, target) || is_found(spots, target, leaf_at(spots, target)),
{
    lemma_spot(spots, target);
    if let Some(i) = spot_at(spots, target) {
        assert(is_found(spots, target, spots[i].leaf));
        assert forall|leaf: Leaf| #[trigger] is_found(spots, target, leaf) implies spots[i].leaf
            == leaf by {
            let k = choose|k: int| #[trigger] is_spot(spots, target, k) && spots[k].leaf == leaf;
            assert(k == i);
        }
    }
}

// ── which files are meant ───────────────────────────────────────────

/// Whether a path is a folder or lies in it.
pub open spec fn lies_in(path: Seq<char>, folder: Seq<char>) -> bool {
    path == folder || (folder.len() < path.len() && path.take(folder.len() as int) == folder
        && path[folder.len() as int] == '/')
}

/// The words for it agree.
pub proof fn lemma_lies_in(path: Seq<char>, folder: Seq<char>)
    ensures
        lies_in(path, folder) <==> path::in_scope(path, folder),
{
    reveal_strlit("/");
    let lead = folder + "/"@;
    assert("/"@ =~= seq!['/']);
    if lead.is_prefix_of(path) {
        assert(path.take(folder.len() as int) =~= folder) by {
            assert forall|i: int| 0 <= i < folder.len() implies path[i] == folder[i] by {
                assert(lead[i] == folder[i]);
            }
        }
        assert(lead[folder.len() as int] == '/');
    }
    if folder.len() < path.len() && path.take(folder.len() as int) == folder && path[folder.len() as int]
        == '/' {
        assert(path.take(lead.len() as int) =~= lead) by {
            assert forall|i: int| 0 <= i < folder.len() implies path[i] == folder[i] by {
                assert(path.take(folder.len() as int)[i] == path[i]);
            }
        }
        assert(path.subrange(0, lead.len() as int) =~= lead);
    }
}

/// Whether a path in a folder is named by a change from a time on.
pub open spec fn changed_since(
    events: Seq<FileEvent>,
    project_id: i64,
    folder: Seq<char>,
    time: i64,
    path: Seq<char>,
) -> bool {
    lies_in(path, folder) && exists|i: int|
        0 <= i < events.len() && names_file(#[trigger] events[i], project_id, path)
            && events[i].timestamp >= time
}

/// Whether one of some changes names a path.
pub open spec fn is_named(list: Seq<FileEvent>, project_id: i64, path: Seq<char>) -> bool {
    exists|i: int| 0 <= i < list.len() && names_file(#[trigger] list[i], project_id, path)
}

/// One more change names one more path, or two.
pub proof fn lemma_is_named(list: Seq<FileEvent>, project_id: i64, path: Seq<char>)
    requires
        list.len() > 0,
    ensures
        is_named(list, project_id, path) <==> is_named(list.drop_last(), project_id, path)
            || names_file(list.last(), project_id, path),
{
    let front = list.drop_last();
    if is_named(list, project_id, path) && !names_file(list.last(), project_id, path) {
        let i = choose|i: int|
            0 <= i < list.len() && names_file(#[trigger] list[i], project_id, path);
        assert(front[i] == list[i]);
    }
    if is_named(front, project_id, path) {
        let i = choose|i: int|
            0 <= i < front.len() && names_file(#[trigger] front[i], project_id, path);
        assert(names_file(list[i], project_id, path));
    }
    if names_file(list.last(), project_id, path) {
        assert(names_file(list[list.len() - 1], project_id, path));
    }
}

/// The paths that changes name in a folder.
proof fn lemma_scoped(
    list: Seq<FileEvent>,
    project_id: i64,
    scope: Seq<char>,
    root: Seq<char>,
    spots: Seq<Spot>,
    path: Seq<char>,
)
    requires
        forall|i: int| 0 <= i < list.len() ==> (#[trigger] list[i]).project_id == project_id,
        scoped_paths(list, scope, root, spots) is Ok,
    ensures
        scoped_paths(list, scope, root, spots)->Ok_0.contains(path) <==> lies_in(path, scope)
            && is_named(list, project_id, path),
        scoped_paths(list, scope, root, spots)->Ok_0.contains(path) ==> target_at(root, spots, path)
            is Ok,
    decreases list.len(),
{
    let paths = scoped_paths(list, scope, root, spots)->Ok_0;
    if list.len() > 0 {
        let front = list.drop_last();
        let e = list.last();
        assert forall|i: int| 0 <= i < front.len() implies (#[trigger] front[i]).project_id
            == project_id by {
            assert(front[i] == list[i]);
        }
        assert(list[list.len() - 1].project_id == project_id);
        lemma_scoped(front, project_id, scope, root, spots, path);
        lemma_is_named(list, project_id, path);
        lemma_lies_in(path, scope);
        let before = scoped_paths(front, scope, root, spots)->Ok_0;
        let half = if path::in_scope(e.path@, scope) {
            before.push(e.path@)
        } else {
            before
        };
        lemma_pushed(before, e.path@, path);
        if let Some(old) = e.old_path {
            lemma_pushed(half, old@, path);
        }
    } else {
        assert(!is_named(list, project_id, path));
    }
}

/// A longer list holds what the shorter one does, and the new one.
pub proof fn lemma_pushed<T>(list: Seq<T>, new: T, item: T)
    ensures
        list.push(new).contains(item) <==> list.contains(item) || new == item,
{
    let more = list.push(new);
    if list.contains(item) {
        let k = choose|k: int| 0 <= k < list.len() && list[k] == item;
        assert(more[k] == item);
    }
    assert(more[list.len() as int] == new);
    if more.contains(item) && new != item {
        let k = choose|k: int| 0 <= k < more.len() && more[k] == item;
        assert(list[k] == item);
    }
}

/// Where the paths cannot all be put back, one of them cannot.
proof fn lemma_scoped_wrong(
    list: Seq<FileEvent>,
    project_id: i64,
    scope: Seq<char>,
    root: Seq<char>,
    spots: Seq<Spot>,
) -> (path: Seq<char>)
    requires
        forall|i: int| 0 <= i < list.len() ==> (#[trigger] list[i]).project_id == project_id,
        scoped_paths(list, scope, root, spots) is Err,
    ensures
        lies_in(path, scope),
        is_named(list, project_id, path),
        target_at(root, spots, path) is Err,
    decreases list.len(),
{
    let front = list.drop_last();
    let e = list.last();
    assert(list[list.len() - 1].project_id == project_id);
    lemma_lies_in(e.path@, scope);
    if scoped_paths(front, scope, root, spots) is Err {
        assert forall|i: int| 0 <= i < front.len() implies (#[trigger] front[i]).project_id
            == project_id by {
            assert(front[i] == list[i]);
        }
        let path = lemma_scoped_wrong(front, project_id, scope, root, spots);
        lemma_is_named(list, project_id, path);
        path
    } else if lies_in(e.path@, scope) && target_at(root, spots, e.path@) is Err {
        lemma_is_named(list, project_id, e.path@);
        e.path@
    } else {
        let path = e.old_path->0@;
        lemma_lies_in(path, scope);
        lemma_is_named(list, project_id, path);
        path
    }
}

// ── a folder at a time ──────────────────────────────────────────────

/// Whether an entry brings back a version, as it was told by a change at a time.
pub open spec fn brings_back(e: EntryView, target: Seq<char>, hash: Seq<char>, at: i64) -> bool {
    &&& e.path == target
    &&& e.rel_path == target
    &&& e.action == ActionView::Write(
        SourceView { hash, timestamp: at, kind: RestoreKind::Exact },
    )
    &&& e.expected is None
}

/// Whether an entry takes a file away.
pub open spec fn takes_away(e: EntryView, target: Seq<char>) -> bool {
    &&& e.path == target
    &&& e.rel_path == target
    &&& e.action is Delete
    &&& e.expected is None
}

/// Whether a file counts as not there at a moment. Where the history is silent on it,
/// that is a guess.
pub open spec fn was_absent(
    events: Seq<FileEvent>,
    project_id: i64,
    path: Seq<char>,
    moment: Moment,
    guess: bool,
) -> bool {
    &&& held_nothing(events, project_id, path, moment)
    &&& guess || was_removed(events, project_id, path, moment) || comes_later(
        events,
        project_id,
        path,
        moment,
    )
}

/// What becomes of the file at a path that is to be as it was at a moment: what it
/// held then is brought back, and where it was not there a file that is there goes.
pub open spec fn is_brought(
    events: Seq<FileEvent>,
    project_id: i64,
    spots: Seq<Spot>,
    path: Seq<char>,
    target: Seq<char>,
    moment: Moment,
    guess: bool,
    entry: EntryView,
) -> bool {
    ||| exists|hash: Seq<char>, at: i64| #[trigger]
        held(events, project_id, path, moment, hash, at) && brings_back(entry, target, hash, at)
    ||| was_absent(events, project_id, path, moment, guess) && is_found(spots, target, Leaf::File)
        && takes_away(entry, target)
}

/// Whether a plan deals with the file at a path as it must.
pub open spec fn is_dealt_with(
    events: Seq<FileEvent>,
    project_id: i64,
    spots: Seq<Spot>,
    path: Seq<char>,
    target: Seq<char>,
    moment: Moment,
    guess: bool,
    entries: Seq<EntryView>,
) -> bool {
    &&& forall|hash: Seq<char>, at: i64| #[trigger]
        held(events, project_id, path, moment, hash, at) ==> exists|k: int|
            0 <= k < entries.len() && brings_back(#[trigger] entries[k], target, hash, at)
    &&& was_absent(events, project_id, path, moment, guess) && is_found(spots, target, Leaf::File)
        ==> exists|k: int| 0 <= k < entries.len() && takes_away(#[trigger] entries[k], target)
}

/// Entries for more paths deal with a path as those for fewer do.
pub proof fn lemma_still_dealt_with(
    events: Seq<FileEvent>,
    project_id: i64,
    spots: Seq<Spot>,
    path: Seq<char>,
    target: Seq<char>,
    moment: Moment,
    guess: bool,
    fewer: Seq<EntryView>,
    more: Seq<EntryView>,
)
    requires
        is_dealt_with(events, project_id, spots, path, target, moment, guess, fewer),
        forall|k: int| 0 <= k < fewer.len() ==> more.contains(#[trigger] fewer[k]),
    ensures
        is_dealt_with(events, project_id, spots, path, target, moment, guess, more),
{
    assert forall|hash: Seq<char>, at: i64| #[trigger]
        held(events, project_id, path, moment, hash, at) implies exists|k: int|
        0 <= k < more.len() && brings_back(#[trigger] more[k], target, hash, at) by {
        let k = choose|k: int|
            0 <= k < fewer.len() && brings_back(#[trigger] fewer[k], target, hash, at);
        let m = choose|m: int| 0 <= m < more.len() && more[m] == fewer[k];
        assert(brings_back(more[m], target, hash, at));
    }
    if was_absent(events, project_id, path, moment, guess) && is_found(spots, target, Leaf::File) {
        let k = choose|k: int| 0 <= k < fewer.len() && takes_away(#[trigger] fewer[k], target);
        let m = choose|m: int| 0 <= m < more.len() && more[m] == fewer[k];
        assert(takes_away(more[m], target));
    }
}

/// What is done to one file is what the history says of it.
pub proof fn lemma_entry(
    events: Seq<FileEvent>,
    project_id: i64,
    spots: Seq<Spot>,
    path: Seq<char>,
    target: Seq<char>,
    moment: Moment,
    state: StateView,
    guess: bool,
)
    requires
        crate::laws::moments::is_told(events, project_id, path, moment, state),
    ensures
        match entry_for(spots, target, state, guess) {
            Err(_) => !is_free(spots, target),
            Ok(None) => is_dealt_with(
                events,
                project_id,
                spots,
                path,
                target,
                moment,
                guess,
                Seq::empty(),
            ),
            Ok(Some(entry)) => is_brought(
                events,
                project_id,
                spots,
                path,
                target,
                moment,
                guess,
                entry,
            ) && is_dealt_with(events, project_id, spots, path, target, moment, guess, seq![entry]),
        },
{
    lemma_found(spots, target);
    match entry_for(spots, target, state, guess) {
        Err(_) => {},
        Ok(None) => {},
        Ok(Some(entry)) => {
            assert(seq![entry][0] == entry);
            if let StateView::Present(s) = state {
                assert(held(events, project_id, path, moment, s.hash, s.timestamp)) by {
                    let (h, a) = choose|h: Seq<char>, a: i64| #[trigger]
                        held(events, project_id, path, moment, h, a);
                    assert(held(events, project_id, path, moment, h, a));
                }
                assert(brings_back(entry, target, s.hash, s.timestamp));
            }
        },
    }
}

/// What is done to some files for a time deals with each of them as it must.
proof fn lemma_dealt_at_time(
    events: Seq<FileEvent>,
    project_id: i64,
    root: Seq<char>,
    spots: Seq<Spot>,
    paths: Seq<Seq<char>>,
    time: i64,
    j: int,
)
    requires
        rows::ids_grow(events),
        entries_at_time(events, project_id, root, spots, paths, time) is Ok,
        0 <= j < paths.len(),
    ensures
        target_at(root, spots, paths[j]) is Ok,
        is_dealt_with(
            events,
            project_id,
            spots,
            paths[j],
            target_at(root, spots, paths[j])->Ok_0,
            Moment::Time(time),
            true,
            entries_at_time(events, project_id, root, spots, paths, time)->Ok_0,
        ),
    decreases paths.len(),
{
    let front = paths.drop_last();
    let n = paths.len() - 1;
    let moment = Moment::Time(time);
    let before = entries_at_time(events, project_id, root, spots, front, time)->Ok_0;
    let entries = entries_at_time(events, project_id, root, spots, paths, time)->Ok_0;
    let path = paths[n];
    let target = target_at(root, spots, path)->Ok_0;
    let state = state_at_time(events, project_id, path, time);
    let own = match entry_for(spots, target, state, true) {
        Ok(Some(entry)) => seq![entry],
        _ => Seq::empty(),
    };
    assert(entries =~= before + own);
    if j < n {
        assert(front[j] == paths[j]);
        lemma_dealt_at_time(events, project_id, root, spots, front, time, j);
        assert forall|k: int| 0 <= k < before.len() implies entries.contains(#[trigger] before[k]) by {
            assert(entries[k] == before[k]);
        }
        lemma_still_dealt_with(
            events,
            project_id,
            spots,
            paths[j],
            target_at(root, spots, paths[j])->Ok_0,
            moment,
            true,
            before,
            entries,
        );
    } else {
        lemma_state_at_time(events, project_id, path, time);
        lemma_entry(events, project_id, spots, path, target, moment, state, true);
        assert forall|k: int| 0 <= k < own.len() implies entries.contains(#[trigger] own[k]) by {
            assert(entries[before.len() + k] == own[k]);
        }
        lemma_still_dealt_with(events, project_id, spots, path, target, moment, true, own, entries);
    }
}

/// What is done for a time is done to one of the files, and as it must be.
proof fn lemma_brought_at_time(
    events: Seq<FileEvent>,
    project_id: i64,
    root: Seq<char>,
    spots: Seq<Spot>,
    paths: Seq<Seq<char>>,
    time: i64,
    k: int,
) -> (j: int)
    requires
        rows::ids_grow(events),
        entries_at_time(events, project_id, root, spots, paths, time) is Ok,
        0 <= k < entries_at_time(events, project_id, root, spots, paths, time)->Ok_0.len(),
    ensures
        0 <= j < paths.len(),
        target_at(root, spots, paths[j]) is Ok,
        is_brought(
            events,
            project_id,
            spots,
            paths[j],
            target_at(root, spots, paths[j])->Ok_0,
            Moment::Time(time),
            true,
            entries_at_time(events, project_id, root, spots, paths, time)->Ok_0[k],
        ),
    decreases paths.len(),
{
    let front = paths.drop_last();
    let n = paths.len() - 1;
    let before = entries_at_time(events, project_id, root, spots, front, time)->Ok_0;
    let entries = entries_at_time(events, project_id, root, spots, paths, time)->Ok_0;
    if k < before.len() {
        assert(before[k] == entries[k]);
        let j = lemma_brought_at_time(events, project_id, root, spots, front, time, k);
        assert(front[j] == paths[j]);
        j
    } else {
        let path = paths[n];
        let target = target_at(root, spots, path)->Ok_0;
        lemma_state_at_time(events, project_id, path, time);
        lemma_entry(
            events,
            project_id,
            spots,
            path,
            target,
            Moment::Time(time),
            state_at_time(events, project_id, path, time),
            true,
        );
        n
    }
}

/// Where a plan for a time fails, something is in the way of one of the files.
proof fn lemma_wrong_at_time(
    events: Seq<FileEvent>,
    project_id: i64,
    root: Seq<char>,
    spots: Seq<Spot>,
    paths: Seq<Seq<char>>,
    time: i64,
) -> (j: int)
    requires
        rows::ids_grow(events),
        entries_at_time(events, project_id, root, spots, paths, time) is Err,
    ensures
        0 <= j < paths.len(),
        match target_at(root, spots, paths[j]) {
            Err(_) => true,
            Ok(target) => !is_free(spots, target),
        },
    decreases paths.len(),
{
    let front = paths.drop_last();
    let n = paths.len() - 1;
    if entries_at_time(events, project_id, root, spots, front, time) is Err {
        let j = lemma_wrong_at_time(events, project_id, root, spots, front, time);
        assert(front[j] == paths[j]);
        j
    } else {
        let path = paths[n];
        if let Ok(target) = target_at(root, spots, path) {
            lemma_state_at_time(events, project_id, path, time);
            lemma_entry(
                events,
                project_id,
                spots,
                path,
                target,
                Moment::Time(time),
                state_at_time(events, project_id, path, time),
                true,
            );
        }
        n
    }
}

/// Whether entries bring the files of a folder back to how they were at a time.
/// Every file that a change from then on names is dealt with: what it held then is
/// written, and it goes where it held nothing and is there. Nothing else is touched.
pub open spec fn is_folder_brought_back(
    events: Seq<FileEvent>,
    project_id: i64,
    root: Seq<char>,
    spots: Seq<Spot>,
    folder: Seq<char>,
    time: i64,
    entries: Seq<EntryView>,
) -> bool {
    &&& forall|path: Seq<char>| #[trigger]
        changed_since(events, project_id, folder, time, path) ==> (confined_below(root, path)
            matches Ok(target) && is_dealt_with(
            events,
            project_id,
            spots,
            path,
            target,
            Moment::Time(time),
            true,
            entries,
        ))
    &&& forall|k: int|
        0 <= k < entries.len() ==> is_for_changed(
            events,
            project_id,
            root,
            spots,
            folder,
            time,
            #[trigger] entries[k],
        )
}

/// Whether an entry is for a file of a folder that has changed since a time, and
/// does with it what it must.
pub open spec fn is_for_changed(
    events: Seq<FileEvent>,
    project_id: i64,
    root: Seq<char>,
    spots: Seq<Spot>,
    folder: Seq<char>,
    time: i64,
    entry: EntryView,
) -> bool {
    exists|path: Seq<char>, target: Seq<char>|
        {
            &&& changed_since(events, project_id, folder, time, path)
            &&& confined_below(root, path) == Ok::<Seq<char>, Seq<char>>(target)
            &&& #[trigger] is_brought(
                events,
                project_id,
                spots,
                path,
                target,
                Moment::Time(time),
                true,
                entry,
            )
        }
}

/// Restoring a folder to a time brings every file in it that has changed since back
/// to what it held at that time, takes those away that were not there, and touches
/// no other; and it is planned wherever nothing but files is in the way.
pub proof fn lemma_folder_is_brought_back(
    events: Seq<FileEvent>,
    project_id: i64,
    root: Seq<char>,
    spots: Seq<Spot>,
    folder: Seq<char>,
    time: i64,
    result: Result<Seq<EntryView>, Seq<char>>,
)
    requires
        rows::ids_grow(events),
        is_directory_plan(events, project_id, root, spots, folder, time, result),
    ensures
        match result {
            Ok(entries) => is_folder_brought_back(
                events,
                project_id,
                root,
                spots,
                folder,
                time,
                entries,
            ),
            Err(_) => exists|path: Seq<char>| #[trigger]
                changed_since(events, project_id, folder, time, path) && !(confined_below(root, path)
                    matches Ok(target) && is_free(spots, target)),
        },
{
    let seen = rows::listed(events, Order::Newest, since(project_id, time));
    rows::lemma_listing(events, Order::Newest, since(project_id, time));
    assert forall|i: int| 0 <= i < seen.len() implies (#[trigger] seen[i]).project_id
        == project_id by {
        assert(since(project_id, time)(seen[i]));
    }
    if scoped_paths(seen, folder, root, spots) is Err {
        let path = lemma_scoped_wrong(seen, project_id, folder, root, spots);
        lemma_changed_since(events, project_id, folder, time, path);
        lemma_target(root, spots, path);
        assert(changed_since(events, project_id, folder, time, path));
    } else {
        let list = scoped_paths(seen, folder, root, spots)->Ok_0;
        let paths = choose|paths: Seq<Seq<char>>|
            #[trigger] sorted::is_sorted_set(list, paths) && result == entries_at_time(
                events,
                project_id,
                root,
                spots,
                paths,
                time,
            );
        assert forall|path: Seq<char>| #[trigger] paths.contains(path) <==> changed_since(
            events,
            project_id,
            folder,
            time,
            path,
        ) by {
            lemma_scoped(seen, project_id, folder, root, spots, path);
            lemma_changed_since(events, project_id, folder, time, path);
        }
        match result {
            Err(_) => {
                let j = lemma_wrong_at_time(events, project_id, root, spots, paths, time);
                lemma_target(root, spots, paths[j]);
                assert(paths.contains(paths[j]));
                assert(changed_since(events, project_id, folder, time, paths[j]));
            },
            Ok(entries) => {
                assert forall|path: Seq<char>| #[trigger]
                    changed_since(events, project_id, folder, time, path) implies (confined_below(
                    root,
                    path,
                ) matches Ok(target) && is_dealt_with(
                    events,
                    project_id,
                    spots,
                    path,
                    target,
                    Moment::Time(time),
                    true,
                    entries,
                )) by {
                    assert(paths.contains(path));
                    let j = choose|j: int| 0 <= j < paths.len() && paths[j] == path;
                    lemma_dealt_at_time(events, project_id, root, spots, paths, time, j);
                }
                assert forall|k: int| 0 <= k < entries.len() implies #[trigger] is_for_changed(
                    events,
                    project_id,
                    root,
                    spots,
                    folder,
                    time,
                    entries[k],
                ) by {
                    let j = lemma_brought_at_time(
                        events,
                        project_id,
                        root,
                        spots,
                        paths,
                        time,
                        k,
                    );
                    assert(paths.contains(paths[j]));
                    assert(is_brought(
                        events,
                        project_id,
                        spots,
                        paths[j],
                        target_at(root, spots, paths[j])->Ok_0,
                        Moment::Time(time),
                        true,
                        entries[k],
                    ));
                }
            },
        }
    }
}

/// A file that has changed since a time is one that the changes from then on name.
proof fn lemma_changed_since(
    events: Seq<FileEvent>,
    project_id: i64,
    folder: Seq<char>,
    time: i64,
    path: Seq<char>,
)
    requires
        rows::ids_grow(events),
    ensures
        changed_since(events, project_id, folder, time, path) <==> lies_in(path, folder)
            && is_named(
            rows::listed(events, Order::Newest, since(project_id, time)),
            project_id,
            path,
        ),
{
    let seen = rows::listed(events, Order::Newest, since(project_id, time));
    rows::lemma_listing(events, Order::Newest, since(project_id, time));
    if changed_since(events, project_id, folder, time, path) {
        let i = choose|i: int|
            0 <= i < events.len() && names_file(#[trigger] events[i], project_id, path)
                && events[i].timestamp >= time;
        assert(since(project_id, time)(events[i]));
        let k = choose|k: int| 0 <= k < seen.len() && seen[k] == events[i];
        assert(names_file(seen[k], project_id, path));
    }
    if is_named(seen, project_id, path) {
        let i = choose|i: int|
            0 <= i < seen.len() && names_file(#[trigger] seen[i], project_id, path);
        assert(since(project_id, time)(seen[i]));
        let k = choose|k: int| 0 <= k < events.len() && events[k] == seen[i];
        assert(names_file(events[k], project_id, path));
    }
}

/// A file cannot be put back only where it is not in the project, or something else
/// is in its place.
pub proof fn lemma_target(root: Seq<char>, spots: Seq<Spot>, path: Seq<char>)
    ensures
        target_at(root, spots, path) is Err ==> !(confined_below(root, path) matches Ok(target)
            && is_free(spots, target)),
        target_at(root, spots, path) matches Ok(target) ==> confined_below(root, path) == Ok::<
            Seq<char>,
            Seq<char>,
        >(target),
{
    if let Ok(target) = confined_below(root, path) {
        lemma_found(spots, target);
    }
}

/// Arranging entries by their paths loses none and adds none.
pub proof fn lemma_arranged(all: Seq<EntryView>, entries: Seq<EntryView>)
    requires
        is_arranged(all, entries),
    ensures
        forall|e: EntryView| #[trigger] entries.contains(e) <==> all.contains(e),
        forall|k: int| 0 <= k < all.len() ==> entries.contains(#[trigger] all[k]),
        forall|k: int| 0 <= k < entries.len() ==> all.contains(#[trigger] entries[k]),
        forall|i: int, j: int|
            0 <= i < j < entries.len() ==> !sorted::less(
                (#[trigger] entries[j]).rel_path,
                (#[trigger] entries[i]).rel_path,
            ),
{
    let keys = crate::restore::entry_paths(all);
    let order = choose|order: Seq<usize>|
        #[trigger] order::is_text_order(keys, order) && entries == order::arranged(all, order);
    assert forall|k: int| 0 <= k < entries.len() implies all.contains(#[trigger] entries[k]) by {
        assert(order[k] < keys.len());
        assert(entries[k] == all[order[k] as int]);
    }
    assert forall|k: int| 0 <= k < all.len() implies entries.contains(#[trigger] all[k]) by {
        assert(order.contains(k as usize));
        let i = choose|i: int| 0 <= i < order.len() && order[i] == k as usize;
        assert(entries[i] == all[k]);
    }
    assert forall|e: EntryView| #[trigger] entries.contains(e) <==> all.contains(e) by {
        if entries.contains(e) {
            let k = choose|k: int| 0 <= k < entries.len() && entries[k] == e;
            assert(all.contains(entries[k]));
        }
        if all.contains(e) {
            let k = choose|k: int| 0 <= k < all.len() && all[k] == e;
            assert(entries.contains(all[k]));
        }
    }
    assert forall|i: int, j: int| 0 <= i < j < entries.len() implies !sorted::less(
        (#[trigger] entries[j]).rel_path,
        (#[trigger] entries[i]).rel_path,
    ) by {
        assert(order::reads_before(keys, order[i] as int, order[j] as int));
        assert(keys[order[i] as int] == entries[i].rel_path);
        assert(keys[order[j] as int] == entries[j].rel_path);
        sorted::lemma_less_irreflexive(entries[i].rel_path);
        if sorted::less(entries[i].rel_path, entries[j].rel_path) {
            sorted::lemma_less_asymmetric(entries[i].rel_path, entries[j].rel_path);
        }
    }
}

/// Entries in another order bring a folder back as well.
proof fn lemma_folder_in_any_order(
    events: Seq<FileEvent>,
    project_id: i64,
    root: Seq<char>,
    spots: Seq<Spot>,
    folder: Seq<char>,
    time: i64,
    all: Seq<EntryView>,
    entries: Seq<EntryView>,
)
    requires
        is_arranged(all, entries),
        is_folder_brought_back(events, project_id, root, spots, folder, time, all),
    ensures
        is_folder_brought_back(events, project_id, root, spots, folder, time, entries),
{
    lemma_arranged(all, entries);
    assert forall|path: Seq<char>| #[trigger]
        changed_since(events, project_id, folder, time, path) implies (confined_below(root, path)
        matches Ok(target) && is_dealt_with(
        events,
        project_id,
        spots,
        path,
        target,
        Moment::Time(time),
        true,
        entries,
    )) by {
        lemma_still_dealt_with(
            events,
            project_id,
            spots,
            path,
            confined_below(root, path)->Ok_0,
            Moment::Time(time),
            true,
            all,
            entries,
        );
    }
    assert forall|k: int| 0 <= k < entries.len() implies is_for_changed(
        events,
        project_id,
        root,
        spots,
        folder,
        time,
        #[trigger] entries[k],
    ) by {
        assert(all.contains(entries[k]));
        let i = choose|i: int| 0 <= i < all.len() && all[i] == entries[k];
        assert(is_for_changed(events, project_id, root, spots, folder, time, all[i]));
    }
}

/// Restoring a folder, or all of a project, to a time plans just what brings its files
/// back to that time; and it is planned wherever the folder is in the project and
/// nothing but files is in the way.
pub proof fn lemma_restore_of_a_folder(
    events: Seq<FileEvent>,
    project: WatchedProject,
    cwd: Seq<char>,
    path: Seq<char>,
    time: i64,
    fallbacks: bool,
    disk: Seq<Place>,
    spots: Seq<Spot>,
    result: Result<RestorePlan, Error>,
)
    requires
        rows::ids_grow(events),
        places::leads_to(disk, cwd, path).1 || path == "."@,
        is_restore_plan(
            events,
            project,
            cwd,
            path,
            time,
            fallbacks,
            false,
            disk,
            spots,
            result,
        ),
    ensures
        match result {
            Ok(plan) => is_folder_brought_back(
                events,
                project.id,
                project.root_path@,
                spots,
                places::leads_to(disk, cwd, path).0,
                time,
                entries_view(plan.entries@),
            ),
            Err(_) => !path::is_at_or_below(
                places::leads_to(disk, cwd, path).0,
                places::real_root(disk, project.root_path@),
            ) || exists|p: Seq<char>| #[trigger]
                changed_since(
                    events,
                    project.id,
                    places::leads_to(disk, cwd, path).0,
                    time,
                    p,
                ) && !(confined_below(project.root_path@, p) matches Ok(target) && is_free(
                    spots,
                    target,
                )),
        },
{
    let root = project.root_path@;
    let folder = places::leads_to(disk, cwd, path).0;
    if path::is_at_or_below(folder, places::real_root(disk, root)) {
        let whole = choose|whole: Result<Seq<EntryView>, Seq<char>>|
            {
                &&& #[trigger] is_directory_plan(
                    events,
                    project.id,
                    root,
                    spots,
                    folder,
                    time,
                    whole,
                )
                &&& is_planned(whole, result)
            };
        lemma_folder_is_brought_back(events, project.id, root, spots, folder, time, whole);
        if let Ok(plan) = result {
            lemma_folder_in_any_order(
                events,
                project.id,
                root,
                spots,
                folder,
                time,
                whole->Ok_0,
                entries_view(plan.entries@),
            );
        }
    }
}

// ── one file at a time ──────────────────────────────────────────────

/// Whether a change left a file at a path with contents that are known.
pub open spec fn is_version(e: FileEvent, project_id: i64, path: Seq<char>) -> bool {
    e.project_id == project_id && e.path@ == path && e.event_type@ != "DELETED"@ && e.current_hash
        is Some
}

/// Whether one change came after another, by their times and then by their ids.
pub open spec fn came_after(a: FileEvent, b: FileEvent) -> bool {
    a.timestamp > b.timestamp || (a.timestamp == b.timestamp && a.id > b.id)
}

/// Whether a change left the newest version of a file up to a time.
pub open spec fn is_newest_version(
    events: Seq<FileEvent>,
    project_id: i64,
    path: Seq<char>,
    time: i64,
    e: FileEvent,
) -> bool {
    &&& events.contains(e)
    &&& is_version(e, project_id, path)
    &&& e.timestamp <= time
    &&& forall|i: int|
        0 <= i < events.len() && is_version(#[trigger] events[i], project_id, path)
            && events[i].timestamp <= time ==> events[i] == e || came_after(e, events[i])
}

/// Whether a change left the oldest version of a file.
pub open spec fn is_oldest_version(
    events: Seq<FileEvent>,
    project_id: i64,
    path: Seq<char>,
    e: FileEvent,
) -> bool {
    &&& events.contains(e)
    &&& is_version(e, project_id, path)
    &&& forall|i: int|
        0 <= i < events.len() && is_version(#[trigger] events[i], project_id, path) ==> events[i]
            == e || came_after(events[i], e)
}

/// Whether no change left a version of a file up to a time.
pub open spec fn has_no_version(
    events: Seq<FileEvent>,
    project_id: i64,
    path: Seq<char>,
    time: i64,
) -> bool {
    forall|i: int|
        0 <= i < events.len() && is_version(#[trigger] events[i], project_id, path)
            ==> events[i].timestamp > time
}

/// Whether the first change to a file after a time tells what was there before.
pub open spec fn is_told_by_next(
    events: Seq<FileEvent>,
    project_id: i64,
    path: Seq<char>,
    time: i64,
    e: FileEvent,
) -> bool {
    is_next(events, project_id, path, Moment::Time(time), e) && finds_file(e, path)
        && e.previous_hash is Some
}

/// Whether a change is the latest deletion of a file.
pub open spec fn is_latest_deletion(
    events: Seq<FileEvent>,
    project_id: i64,
    path: Seq<char>,
    e: FileEvent,
) -> bool {
    &&& events.contains(e)
    &&& e.project_id == project_id && e.path@ == path && e.event_type@ == "DELETED"@
    &&& forall|i: int|
        0 <= i < events.len() && (#[trigger] events[i]).project_id == project_id
            && events[i].path@ == path && events[i].event_type@ == "DELETED"@ ==> events[i] == e
            || came_after(e, events[i])
}

/// The version of a file that is brought back for a time is the newest one up to then;
/// else the one that the first change after it replaced; else the oldest one; else the
/// last contents of a file that was deleted. There is none only where no change tells
/// of one.
pub proof fn lemma_which_version(events: Seq<FileEvent>, project_id: i64, path: Seq<char>, time: i64)
    requires
        rows::ids_grow(events),
    ensures
        forall|e: FileEvent| #[trigger]
            is_newest_version(events, project_id, path, time, e) ==> best_source(
                events,
                project_id,
                path,
                time,
            ) == Some(
                SourceView {
                    hash: e.current_hash->0@,
                    timestamp: e.timestamp,
                    kind: RestoreKind::Exact,
                },
            ),
        forall|e: FileEvent|
            has_no_version(events, project_id, path, time) && #[trigger] is_told_by_next(
                events,
                project_id,
                path,
                time,
                e,
            ) ==> best_source(events, project_id, path, time) == Some(
                SourceView {
                    hash: e.previous_hash->0@,
                    timestamp: e.timestamp,
                    kind: RestoreKind::Exact,
                },
            ),
        forall|e: FileEvent|
            has_no_version(events, project_id, path, time) && (forall|n: FileEvent|
                !#[trigger] is_told_by_next(events, project_id, path, time, n))
                && #[trigger] is_oldest_version(events, project_id, path, e) ==> best_source(
                events,
                project_id,
                path,
                time,
            ) == Some(
                SourceView {
                    hash: e.current_hash->0@,
                    timestamp: e.timestamp,
                    kind: RestoreKind::OldestFallback,
                },
            ),
        forall|e: FileEvent|
            has_no_version(events, project_id, path, i64::MAX) && (forall|n: FileEvent|
                !#[trigger] is_told_by_next(events, project_id, path, time, n))
                && #[trigger] is_latest_deletion(events, project_id, path, e) ==> best_source(
                events,
                project_id,
                path,
                time,
            ) == match e.previous_hash {
                Some(hash) => Some(
                    SourceView {
                        hash: hash@,
                        timestamp: e.timestamp,
                        kind: RestoreKind::DeletedFallback,
                    },
                ),
                None => None,
            },
        best_source(events, project_id, path, time) is None ==> has_no_version(
            events,
            project_id,
            path,
            i64::MAX,
        ),
{
    let newest = versions_until(project_id, path, time);
    let all = versions_at(project_id, path);
    let gone = deletions_at(project_id, path);
    let next = touching_after(project_id, path, time);
    assert forall|e: FileEvent| #[trigger] all(e) <==> is_version(e, project_id, path) by {}
    assert forall|e: FileEvent| #[trigger] newest(e) <==> is_version(e, project_id, path)
        && e.timestamp <= time by {
        assert(all(e) <==> is_version(e, project_id, path));
    }
    rows::lemma_picked(events, Order::Newest, newest);
    rows::lemma_picked(events, Order::Oldest, all);
    rows::lemma_picked(events, Order::Newest, gone);
    rows::lemma_picked(events, Order::Oldest, next);
    let found = rows::pick(events, Order::Newest, newest);
    let first = rows::pick(events, Order::Oldest, all);
    let last = rows::pick(events, Order::Newest, gone);
    let after = rows::pick(events, Order::Oldest, next);
    assert forall|e: FileEvent| #[trigger] next(e) <==> names_file(e, project_id, path)
        && e.timestamp > time by {
        assert(crate::db::events::touches(e, path) <==> e.path@ == path || moved_from(e, path));
    }
    assert forall|e: FileEvent| #[trigger]
        is_newest_version(events, project_id, path, time, e) implies found == Some(e) by {
        assert(rows::is_first(events, Order::Newest, newest, Some(e)));
        rows::lemma_pick(events, Order::Newest, newest, Some(e));
    }
    assert forall|e: FileEvent| #[trigger]
        is_oldest_version(events, project_id, path, e) implies first == Some(e) by {
        assert(rows::is_first(events, Order::Oldest, all, Some(e)));
        rows::lemma_pick(events, Order::Oldest, all, Some(e));
    }
    assert forall|e: FileEvent| #[trigger]
        is_latest_deletion(events, project_id, path, e) implies last == Some(e) by {
        assert(rows::is_first(events, Order::Newest, gone, Some(e)));
        rows::lemma_pick(events, Order::Newest, gone, Some(e));
    }
    assert forall|e: FileEvent| #[trigger]
        is_told_by_next(events, project_id, path, time, e) implies after == Some(e) by {
        assert(rows::is_first(events, Order::Oldest, next, Some(e)));
        rows::lemma_pick(events, Order::Oldest, next, Some(e));
    }
    if has_no_version(events, project_id, path, time) {
        if let Some(e) = found {
            let k = choose|k: int| 0 <= k < events.len() && events[k] == e;
            assert(is_version(events[k], project_id, path));
        }
    }
    if has_no_version(events, project_id, path, i64::MAX) {
        if let Some(e) = first {
            let k = choose|k: int| 0 <= k < events.len() && events[k] == e;
            assert(is_version(events[k], project_id, path));
        }
        assert forall|i: int|
            0 <= i < events.len() && is_version(#[trigger] events[i], project_id, path) implies
            events[i].timestamp > time by {
            assert(events[i].timestamp > i64::MAX);
        }
    }
    if let Some(e) = after {
        if finds_file(e, path) && e.previous_hash is Some {
            assert(is_told_by_next(events, project_id, path, time, e));
        }
    }
    if best_source(events, project_id, path, time) is None {
        assert(first is None);
        assert forall|i: int|
            0 <= i < events.len() && is_version(#[trigger] events[i], project_id, path) implies
            events[i].timestamp > i64::MAX by {
            assert(all(events[i]));
        }
    }
}

/// Restoring one file to a time writes the version of it that is meant, and does
/// nothing else. Without guessing that is what the file held at that time.
pub proof fn lemma_restore_of_a_file(
    events: Seq<FileEvent>,
    project: WatchedProject,
    cwd: Seq<char>,
    path: Seq<char>,
    time: i64,
    fallbacks: bool,
    disk: Seq<Place>,
    spots: Seq<Spot>,
    result: Result<RestorePlan, Error>,
    target: Seq<char>,
)
    requires
        rows::ids_grow(events),
        !places::leads_to(disk, cwd, path).1,
        places::is_there(disk, cwd, path),
        path != "."@,
        path::is_at_or_below(
            places::leads_to(disk, cwd, path).0,
            places::real_root(disk, project.root_path@),
        ),
        confined_below(project.root_path@, places::leads_to(disk, cwd, path).0) == Ok::<
            Seq<char>,
            Seq<char>,
        >(target),
        is_restore_plan(
            events,
            project,
            cwd,
            path,
            time,
            fallbacks,
            false,
            disk,
            spots,
            result,
        ),
    ensures
        result is Ok,
        fallbacks ==> match best_source(
            events,
            project.id,
            places::leads_to(disk, cwd, path).0,
            time,
        ) {
            Some(source) => entries_view(result->Ok_0.entries@) == seq![
                EntryView {
                    path: target,
                    rel_path: target,
                    action: ActionView::Write(source),
                    expected: None,
                },
            ],
            None => entries_view(result->Ok_0.entries@).len() == 0,
        },
        !fallbacks ==> forall|hash: Seq<char>, at: i64| #[trigger]
            held(
                events,
                project.id,
                places::leads_to(disk, cwd, path).0,
                Moment::Time(time),
                hash,
                at,
            ) ==> entries_view(result->Ok_0.entries@).len() == 1 && brings_back(
                entries_view(result->Ok_0.entries@)[0],
                target,
                hash,
                at,
            ),
        !fallbacks && held_nothing(
            events,
            project.id,
            places::leads_to(disk, cwd, path).0,
            Moment::Time(time),
        ) ==> entries_view(result->Ok_0.entries@).len() == 0,
{
    let root = project.root_path@;
    let place = places::leads_to(disk, cwd, path).0;
    lemma_state_at_time(events, project.id, place, time);
    let single = crate::restore::single_plan(events, project.id, root, place, time, fallbacks);
    lemma_few_arranged(single->Ok_0, entries_view(result->Ok_0.entries@));
}

/// Arranging no entry, or one, changes nothing.
proof fn lemma_few_arranged(all: Seq<EntryView>, entries: Seq<EntryView>)
    requires
        is_arranged(all, entries),
        all.len() <= 1,
    ensures
        entries == all,
{
    let keys = crate::restore::entry_paths(all);
    let order = choose|order: Seq<usize>|
        #[trigger] order::is_text_order(keys, order) && entries == order::arranged(all, order);
    if all.len() == 0 {
        if order.len() > 0 {
            assert(order[0] < keys.len());
        }
        assert(entries =~= all);
    } else {
        assert(order.contains(0usize));
        if order.len() > 1 {
            assert(order::reads_before(keys, order[0] as int, order[1] as int));
            assert(order[0] < keys.len() && order[1] < keys.len());
            sorted::lemma_less_irreflexive(keys[0]);
        }
        assert(order[0] == 0usize);
        assert(entries =~= all);
    }
}

/// Bringing a deleted file back writes what its latest deletion removed.
pub proof fn lemma_deleted_file_comes_back(
    events: Seq<FileEvent>,
    project: WatchedProject,
    cwd: Seq<char>,
    path: Seq<char>,
    disk: Seq<Place>,
    result: Result<Option<RestorePlan>, Error>,
    target: Seq<char>,
)
    requires
        rows::ids_grow(events),
        path::is_at_or_below(
            places::leads_to(disk, cwd, path).0,
            places::real_root(disk, project.root_path@),
        ),
        confined_below(project.root_path@, places::leads_to(disk, cwd, path).0) == Ok::<
            Seq<char>,
            Seq<char>,
        >(target),
        is_deleted_plan(events, project, cwd, path, false, disk, result),
    ensures
        forall|e: FileEvent| #[trigger]
            is_latest_deletion(events, project.id, places::leads_to(disk, cwd, path).0, e)
                && e.previous_hash is Some ==> (result matches Ok(Some(plan)) && entries_view(
                plan.entries@,
            ).len() == 1 && entries_view(plan.entries@)[0].path == target && (entries_view(
                plan.entries@,
            )[0].action matches ActionView::Write(source) && source.hash == e.previous_hash->0@
                && source.timestamp == e.timestamp)),
        (forall|e: FileEvent| #[trigger]
            is_latest_deletion(events, project.id, places::leads_to(disk, cwd, path).0, e)
                ==> e.previous_hash is None) ==> (result matches Ok(plan) && plan is None),
{
    let place = places::leads_to(disk, cwd, path).0;
    let gone = deletions_at(project.id, place);
    rows::lemma_picked(events, Order::Newest, gone);
    let last = rows::pick(events, Order::Newest, gone);
    assert forall|e: FileEvent| #[trigger]
        is_latest_deletion(events, project.id, place, e) implies last == Some(e) by {
        assert(rows::is_first(events, Order::Newest, gone, Some(e)));
        rows::lemma_pick(events, Order::Newest, gone, Some(e));
    }
    if let Some(e) = last {
        assert(is_latest_deletion(events, project.id, place, e)) by {
            assert forall|i: int|
                0 <= i < events.len() && (#[trigger] events[i]).project_id == project.id
                    && events[i].path@ == place && events[i].event_type@ == "DELETED"@ implies
                events[i] == e || came_after(e, events[i]) by {
                assert(gone(events[i]));
            }
        }
    }
}

} // verus!
