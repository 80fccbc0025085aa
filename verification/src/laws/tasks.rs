//! What taking back a finished task of a Run does to its files.
use vstd::prelude::*;

use crate::db::events::between;
use crate::db::Tables;
use crate::error::Error;
use crate::groups::named_paths;
use crate::hex;
use crate::intent_recovery::{
    intent_recovery_created, inverse_of, inverse_step, keep_view, reverted, saved_at, stored_at,
    IntentRecovery, SavedCopy, StepView, StoredView,
};
use crate::laws::moments::{
    held, held_nothing, lemma_stored_state, names_file, was_not_made, was_removed, Moment,
};
use crate::laws::restoring::{is_named, is_spot, lemma_arranged, lemma_is_named, lemma_pushed};
use crate::laws::saving::{
    has_its_row, is_file_of, is_row_for, lemma_preview_is_saved, lemma_stands_as, says, stands_as,
    would_change,
};
use crate::models::{FileEvent, RecoveryEntry, Run, RunIntent, WatchedProject};
use crate::recoveries::{plan_persisted, row_view};
use crate::restore::{is_arranged, target_at, ActionView, EntryView, RestoreKind, SourceView};
use crate::restore_fs::{
    confined_below, is_confined, lemma_confined_below, read_at, CappedRead, Spot,
};
use crate::rows;
use crate::rows::Order;
use crate::sorted;
use crate::text;

verus! {

/// Whether a file was not there at a moment, as the history says.
pub open spec fn was_away(
    events: Seq<FileEvent>,
    project_id: i64,
    path: Seq<char>,
    moment: Moment,
) -> bool {
    was_removed(events, project_id, path, moment) || was_not_made(events, project_id, path, moment)
}

/// Whether a file is in the state in which it was at a moment.
pub open spec fn is_as_at(
    events: Seq<FileEvent>,
    project_id: i64,
    path: Seq<char>,
    moment: Moment,
    state: (bool, Option<Seq<char>>),
) -> bool {
    if state.0 {
        state.1 is Some && exists|at: i64| #[trigger]
            held(events, project_id, path, moment, state.1->0, at)
    } else {
        was_away(events, project_id, path, moment)
    }
}

/// What a file would be once an entry is carried out on it.
pub open spec fn left_by(action: ActionView) -> (bool, Option<Seq<char>>) {
    match action {
        ActionView::Write(source) => (true, Some(source.hash)),
        ActionView::Delete => (false, None),
    }
}

/// Whether the history says the same of a file at two moments: that it held the same,
/// or was not there.
pub open spec fn is_unchanged(
    events: Seq<FileEvent>,
    project_id: i64,
    path: Seq<char>,
    first: Moment,
    last: Moment,
) -> bool {
    ||| was_away(events, project_id, path, first) && was_away(events, project_id, path, last)
    ||| exists|hash: Seq<char>, a: i64, b: i64| #[trigger]
        held(events, project_id, path, first, hash, a) && #[trigger] held(
            events,
            project_id,
            path,
            last,
            hash,
            b,
        )
}

/// Taking a task back in a file that is as the task left it brings the file to what it
/// was before the task: what it held is written again, and it is taken away where it
/// was not there. What is done is done only to the file as it was found.
pub proof fn lemma_task_is_taken_back(
    events: Seq<FileEvent>,
    project_id: i64,
    path: Seq<char>,
    target: Seq<char>,
    first: i64,
    last: i64,
    spots: Seq<Spot>,
    copies: Seq<SavedCopy>,
    state: (bool, Option<Seq<char>>),
)
    requires
        rows::ids_grow(events),
        stands_as(spots, target, state),
        is_as_at(events, project_id, path, Moment::Event(last), state),
        !is_unchanged(events, project_id, path, Moment::Event(first), Moment::Event(last)),
        !held_nothing(events, project_id, path, Moment::Event(first)) || was_away(
            events,
            project_id,
            path,
            Moment::Event(first),
        ),
    ensures
        inverse_step(
            target,
            stored_at(events, project_id, path, first),
            stored_at(events, project_id, path, last),
            read_at(spots, target),
            copies,
        ) matches Ok(Some(step)) && step.keep is None && step.entry.path == target
            && step.entry.expected == Some(state) && is_as_at(
            events,
            project_id,
            path,
            Moment::Event(first),
            left_by(step.entry.action),
        ),
{
    lemma_stands_as(spots, target);
    lemma_stored_state(events, project_id, path, first);
    lemma_stored_state(events, project_id, path, last);
    let was = stored_at(events, project_id, path, first);
    let is = stored_at(events, project_id, path, last);
    if state.0 {
        let at = choose|at: i64| #[trigger]
            held(events, project_id, path, Moment::Event(last), state.1->0, at);
        assert(is == StoredView::Present(state.1->0, at));
    }
    if !held_nothing(events, project_id, path, Moment::Event(first)) {
        let (h, a) = choose|h: Seq<char>, a: i64| #[trigger]
            held(events, project_id, path, Moment::Event(first), h, a);
        assert(was == StoredView::Present(h, a));
    }
    if let StoredView::Present(hash, at) = was {
        assert(held(events, project_id, path, Moment::Event(first), hash, at));
        if let StoredView::Present(h, a) = is {
            assert(held(events, project_id, path, Moment::Event(last), h, a));
        }
    }
    assert(!crate::intent_recovery::is_same(was, is));
    assert(crate::intent_recovery::fits(state, is));
    assert(was !is Unknown);
    let step = inverse_step(target, was, is, read_at(spots, target), copies);
    assert(step is Ok && step->Ok_0 is Some);
    match was {
        StoredView::Present(hash, at) => {
            assert(held(events, project_id, path, Moment::Event(first), hash, at));
            let left = left_by(step->Ok_0->0.entry.action);
            assert(left == (true, Some(hash)));
            assert(left.1->0 == hash);
        },
        _ => {},
    }
}

/// A file that a task made and that is still as the task left it goes when the task is
/// taken back; one that it deleted, and that is still gone, comes back as it was.
pub proof fn lemma_made_files_go_and_deleted_ones_return(
    events: Seq<FileEvent>,
    project_id: i64,
    path: Seq<char>,
    target: Seq<char>,
    first: i64,
    last: i64,
    spots: Seq<Spot>,
    copies: Seq<SavedCopy>,
    hash: Seq<char>,
    at: i64,
)
    requires
        rows::ids_grow(events),
    ensures
        was_away(events, project_id, path, Moment::Event(first)) && held(
            events,
            project_id,
            path,
            Moment::Event(last),
            hash,
            at,
        ) && stands_as(spots, target, (true, Some(hash))) ==> (inverse_step(
            target,
            stored_at(events, project_id, path, first),
            stored_at(events, project_id, path, last),
            read_at(spots, target),
            copies,
        ) matches Ok(Some(step)) && step.entry.path == target && step.entry.action is Delete
            && step.entry.expected == Some((true, Some(hash)))),
        was_away(events, project_id, path, Moment::Event(last)) && held(
            events,
            project_id,
            path,
            Moment::Event(first),
            hash,
            at,
        ) && stands_as(spots, target, (false, None)) ==> (inverse_step(
            target,
            stored_at(events, project_id, path, first),
            stored_at(events, project_id, path, last),
            read_at(spots, target),
            copies,
        ) matches Ok(Some(step)) && step.entry.path == target && step.entry.action
            == ActionView::Write(SourceView { hash, timestamp: at, kind: RestoreKind::Exact })
            && step.entry.expected == Some((false, None::<Seq<char>>))),
{
    lemma_stands_as(spots, target);
    lemma_stored_state(events, project_id, path, first);
    lemma_stored_state(events, project_id, path, last);
}

/// Nothing is done to a file that a task did not change, nor to one that is already as
/// it was before the task.
pub proof fn lemma_nothing_to_take_back(
    events: Seq<FileEvent>,
    project_id: i64,
    path: Seq<char>,
    target: Seq<char>,
    first: i64,
    last: i64,
    spots: Seq<Spot>,
    copies: Seq<SavedCopy>,
    state: (bool, Option<Seq<char>>),
)
    requires
        rows::ids_grow(events),
        stands_as(spots, target, state),
        is_unchanged(events, project_id, path, Moment::Event(first), Moment::Event(last)) || (
        is_as_at(events, project_id, path, Moment::Event(first), state) && !is_as_at(
            events,
            project_id,
            path,
            Moment::Event(last),
            state,
        )),
    ensures
        inverse_step(
            target,
            stored_at(events, project_id, path, first),
            stored_at(events, project_id, path, last),
            read_at(spots, target),
            copies,
        ) == Ok::<Option<StepView>, Seq<char>>(None),
{
    lemma_stands_as(spots, target);
    lemma_stored_state(events, project_id, path, first);
    lemma_stored_state(events, project_id, path, last);
    if is_unchanged(events, project_id, path, Moment::Event(first), Moment::Event(last)) {
        if !(was_away(events, project_id, path, Moment::Event(first)) && was_away(
            events,
            project_id,
            path,
            Moment::Event(last),
        )) {
            let (hash, a, b) = choose|hash: Seq<char>, a: i64, b: i64| #[trigger]
                held(events, project_id, path, Moment::Event(first), hash, a) && #[trigger] held(
                    events,
                    project_id,
                    path,
                    Moment::Event(last),
                    hash,
                    b,
                );
            assert(stored_at(events, project_id, path, first) == StoredView::Present(hash, a));
            assert(stored_at(events, project_id, path, last) == StoredView::Present(hash, b));
        }
    } else {
        let was = stored_at(events, project_id, path, first);
        let is = stored_at(events, project_id, path, last);
        if state.0 {
            let at = choose|at: i64| #[trigger]
                held(events, project_id, path, Moment::Event(first), state.1->0, at);
            assert(was == StoredView::Present(state.1->0, at));
            if let StoredView::Present(h, b) = is {
                assert(held(events, project_id, path, Moment::Event(last), h, b));
            }
        }
    }
}

/// In a file that was changed again since the task, only the task is taken back: what
/// is written is what the later contents become without the change that the task made,
/// and it is kept to be written. Where that cannot be told, the file is left alone and
/// the recovery is unclear about it.
pub proof fn lemma_later_edits_are_kept(
    events: Seq<FileEvent>,
    project_id: i64,
    path: Seq<char>,
    target: Seq<char>,
    first: i64,
    last: i64,
    spots: Seq<Spot>,
    copies: Seq<SavedCopy>,
    i: int,
    current: Vec<u8>,
    was: (Seq<char>, i64),
    became: (Seq<char>, i64),
    original: Seq<u8>,
    changed: Seq<u8>,
)
    requires
        rows::ids_grow(events),
        is_spot(spots, target, i),
        spots[i].read == CappedRead::Content(current),
        held(events, project_id, path, Moment::Event(first), was.0, was.1),
        held(events, project_id, path, Moment::Event(last), became.0, became.1),
        was.0 != became.0,
        hex::content_hash(current@) != was.0,
        hex::content_hash(current@) != became.0,
        saved_at(copies, was.0) == Ok::<Seq<u8>, Seq<char>>(original),
        saved_at(copies, became.0) == Ok::<Seq<u8>, Seq<char>>(changed),
    ensures
        match (
            reverted(changed, original, current@),
            inverse_step(
                target,
                stored_at(events, project_id, path, first),
                stored_at(events, project_id, path, last),
                read_at(spots, target),
                copies,
            ),
        ) {
            (None, step) => step is Err,
            (Some(content), step) => if hex::content_hash(content) == hex::content_hash(current@) {
                step == Ok::<Option<StepView>, Seq<char>>(None)
            } else {
                step matches Ok(Some(step)) && step.entry.path == target && left_by(
                    step.entry.action,
                ) == (true, Some(hex::content_hash(content))) && step.entry.expected == Some(
                    (true, Some(hex::content_hash(current@))),
                ) && step.keep == Some((hex::content_hash(content), content))
            },
        },
{
    crate::laws::restoring::lemma_spot(spots, target);
    assert(spots[i].relative@ == target);
    lemma_stored_state(events, project_id, path, first);
    lemma_stored_state(events, project_id, path, last);
    assert(crate::restore_fs::spot_at(spots, target) == Some(i));
}

// ── a whole task ────────────────────────────────────────────────────

/// The paths that changes name.
proof fn lemma_named_paths(list: Seq<FileEvent>, project_id: i64, path: Seq<char>)
    requires
        forall|i: int| 0 <= i < list.len() ==> (#[trigger] list[i]).project_id == project_id,
    ensures
        named_paths(list).contains(path) <==> is_named(list, project_id, path),
    decreases list.len(),
{
    if list.len() > 0 {
        let front = list.drop_last();
        let e = list.last();
        assert forall|i: int| 0 <= i < front.len() implies (#[trigger] front[i]).project_id
            == project_id by {
            assert(front[i] == list[i]);
        }
        assert(list[list.len() - 1].project_id == project_id);
        lemma_named_paths(front, project_id, path);
        lemma_is_named(list, project_id, path);
        let before = named_paths(front);
        lemma_pushed(before, e.path@, path);
        if let Some(old) = e.old_path {
            lemma_pushed(before.push(e.path@), old@, path);
        }
    } else {
        assert(!is_named(list, project_id, path));
    }
}

/// What is done to a file is part of what is done to all.
proof fn lemma_inverse_has(
    events: Seq<FileEvent>,
    project: WatchedProject,
    first: i64,
    last: i64,
    spots: Seq<Spot>,
    copies: Seq<SavedCopy>,
    paths: Seq<Seq<char>>,
    j: int,
)
    requires
        inverse_of(events, project, first, last, spots, copies, paths) is Ok,
        0 <= j < paths.len(),
    ensures
        target_at(project.root_path@, spots, paths[j]) is Ok,
        inverse_step(
            target_at(project.root_path@, spots, paths[j])->Ok_0,
            stored_at(events, project.id, paths[j], first),
            stored_at(events, project.id, paths[j], last),
            read_at(spots, target_at(project.root_path@, spots, paths[j])->Ok_0),
            copies,
        ) matches Ok(Some(step)) ==> inverse_of(
            events,
            project,
            first,
            last,
            spots,
            copies,
            paths,
        )->Ok_0.entries.contains(step.entry) && (step.keep is Some ==> inverse_of(
            events,
            project,
            first,
            last,
            spots,
            copies,
            paths,
        )->Ok_0.keep.contains(step.keep->0)),
        inverse_step(
            target_at(project.root_path@, spots, paths[j])->Ok_0,
            stored_at(events, project.id, paths[j], first),
            stored_at(events, project.id, paths[j], last),
            read_at(spots, target_at(project.root_path@, spots, paths[j])->Ok_0),
            copies,
        ) is Err ==> inverse_of(
            events,
            project,
            first,
            last,
            spots,
            copies,
            paths,
        )->Ok_0.conflicts.len() > 0,
    decreases paths.len(),
{
    let front = paths.drop_last();
    let n = paths.len() - 1;
    let before = inverse_of(events, project, first, last, spots, copies, front)->Ok_0;
    let after = inverse_of(events, project, first, last, spots, copies, paths)->Ok_0;
    let target = target_at(project.root_path@, spots, paths[j])->Ok_0;
    let step = inverse_step(
        target,
        stored_at(events, project.id, paths[j], first),
        stored_at(events, project.id, paths[j], last),
        read_at(spots, target),
        copies,
    );
    if j < n {
        assert(front[j] == paths[j]);
        lemma_inverse_has(events, project, first, last, spots, copies, front, j);
        if let Ok(Some(step)) = step {
            let k = choose|k: int| 0 <= k < before.entries.len() && before.entries[k] == step.entry;
            assert(after.entries[k] == step.entry);
            if let Some(kept) = step.keep {
                let k = choose|k: int| 0 <= k < before.keep.len() && before.keep[k] == kept;
                assert(after.keep[k] == kept);
            }
        }
    } else if let Ok(Some(step)) = step {
        assert(after.entries[before.entries.len() as int] == step.entry);
        if let Some(kept) = step.keep {
            assert(after.keep[before.keep.len() as int] == kept);
        }
    }
}

/// What is done is done to one of the files.
proof fn lemma_inverse_only(
    events: Seq<FileEvent>,
    project: WatchedProject,
    first: i64,
    last: i64,
    spots: Seq<Spot>,
    copies: Seq<SavedCopy>,
    paths: Seq<Seq<char>>,
    k: int,
) -> (j: int)
    requires
        inverse_of(events, project, first, last, spots, copies, paths) is Ok,
        0 <= k < inverse_of(
            events,
            project,
            first,
            last,
            spots,
            copies,
            paths,
        )->Ok_0.entries.len(),
    ensures
        0 <= j < paths.len(),
        confined_below(project.root_path@, paths[j]) == Ok::<Seq<char>, Seq<char>>(
            inverse_of(events, project, first, last, spots, copies, paths)->Ok_0.entries[k].path,
        ),
    decreases paths.len(),
{
    let front = paths.drop_last();
    let n = paths.len() - 1;
    let before = inverse_of(events, project, first, last, spots, copies, front)->Ok_0;
    let after = inverse_of(events, project, first, last, spots, copies, paths)->Ok_0;
    if k < before.entries.len() {
        assert(after.entries[k] == before.entries[k]);
        let j = lemma_inverse_only(events, project, first, last, spots, copies, front, k);
        assert(front[j] == paths[j]);
        j
    } else {
        n
    }
}

/// Whether a change of a task names a path.
pub open spec fn is_of_task(
    events: Seq<FileEvent>,
    project_id: i64,
    first: i64,
    last: i64,
    path: Seq<char>,
) -> bool {
    exists|i: int|
        0 <= i < events.len() && names_file(#[trigger] events[i], project_id, path) && first
            < events[i].id <= last
}

/// A file of a task is one that the changes of the task name.
proof fn lemma_of_task(
    events: Seq<FileEvent>,
    project_id: i64,
    first: i64,
    last: i64,
    path: Seq<char>,
)
    requires
        rows::ids_grow(events),
    ensures
        is_of_task(events, project_id, first, last, path) <==> named_paths(
            rows::listed(events, Order::LowestId, between(project_id, first, last)),
        ).contains(path),
{
    let keep = between(project_id, first, last);
    let list = rows::listed(events, Order::LowestId, keep);
    rows::lemma_listing(events, Order::LowestId, keep);
    assert forall|i: int| 0 <= i < list.len() implies (#[trigger] list[i]).project_id
        == project_id by {
        assert(keep(list[i]));
    }
    lemma_named_paths(list, project_id, path);
    if is_of_task(events, project_id, first, last, path) {
        let i = choose|i: int|
            0 <= i < events.len() && names_file(#[trigger] events[i], project_id, path) && first
                < events[i].id <= last;
        assert(keep(events[i]));
        let k = choose|k: int| 0 <= k < list.len() && list[k] == events[i];
        assert(names_file(list[k], project_id, path));
    }
    if is_named(list, project_id, path) {
        let i = choose|i: int| 0 <= i < list.len() && names_file(#[trigger] list[i], project_id, path);
        assert(keep(list[i]));
        let k = choose|k: int| 0 <= k < events.len() && events[k] == list[i];
        assert(names_file(events[k], project_id, path));
    }
}

/// Whether a file is still as a task left it, and was otherwise before, as the history
/// says.
pub open spec fn is_to_take_back(
    events: Seq<FileEvent>,
    project_id: i64,
    first: i64,
    last: i64,
    path: Seq<char>,
    state: (bool, Option<Seq<char>>),
) -> bool {
    &&& is_as_at(events, project_id, path, Moment::Event(last), state)
    &&& !is_unchanged(events, project_id, path, Moment::Event(first), Moment::Event(last))
    &&& !held_nothing(events, project_id, path, Moment::Event(first)) || was_away(
        events,
        project_id,
        path,
        Moment::Event(first),
    )
}

/// What a row would leave at its file.
pub open spec fn left_by_row(row: RecoveryEntry) -> (bool, Option<Seq<char>>) {
    if row.action@ == "WRITE"@ {
        (true, text::view_opt(row.target_hash))
    } else {
        (false, None)
    }
}

/// Whether some row of a plan brings a file to how it was before a task, from how it
/// is.
pub open spec fn has_row_back(
    stored: Seq<RecoveryEntry>,
    recovery_id: i64,
    events: Seq<FileEvent>,
    project: WatchedProject,
    first: i64,
    path: Seq<char>,
    target: Seq<char>,
    state: (bool, Option<Seq<char>>),
) -> bool {
    exists|m: int|
        {
            &&& 0 <= m < stored.len()
            &&& (#[trigger] stored[m]).recovery_id == recovery_id
            &&& is_file_of(stored[m].path@, project.root_path@, target)
            &&& stored[m].expected_exists == state.0
            &&& text::view_opt(stored[m].expected_hash) == state.1
            &&& stored[m].action@ == "WRITE"@ || stored[m].action@ == "DELETE"@
            &&& is_as_at(events, project.id, path, Moment::Event(first), left_by_row(stored[m]))
        }
}

/// Taking back a finished task of a Run saves a plan in which every file that the task
/// changed, and that is still as the task left it, goes back to how it was before the
/// task. The plan touches no file that the task did not.
pub proof fn lemma_recovery_takes_the_task_back(
    before: Tables,
    after: Tables,
    project: WatchedProject,
    run: Run,
    intent: RunIntent,
    request: Seq<char>,
    spots: Seq<Spot>,
    copies: Seq<SavedCopy>,
    now: i64,
    made: IntentRecovery,
)
    requires
        before.wf(),
        project.root_path@.len() > 0,
        intent_recovery_created(
            before,
            after,
            project,
            run,
            intent,
            request,
            spots,
            copies,
            now,
            Ok(made),
        ),
    ensures
        run.ended_at is Some,
        intent.end_event_id is Some,
        run.project_id == project.id,
        forall|path: Seq<char>, state: (bool, Option<Seq<char>>)|
            is_of_task(
                before.events,
                project.id,
                intent.start_event_id,
                intent.end_event_id->0,
                path,
            ) && #[trigger] is_to_take_back(
                before.events,
                project.id,
                intent.start_event_id,
                intent.end_event_id->0,
                path,
                state,
            ) && stands_as(spots, confined_below(project.root_path@, path)->Ok_0, state)
                ==> confined_below(project.root_path@, path) is Ok && has_row_back(
                after.entries,
                made.recovery.id,
                before.events,
                project,
                intent.start_event_id,
                path,
                confined_below(project.root_path@, path)->Ok_0,
                state,
            ),
        forall|m: int|
            0 <= m < after.entries.len() && (#[trigger] after.entries[m]).recovery_id
                == made.recovery.id ==> exists|path: Seq<char>| #[trigger]
                is_of_task(
                    before.events,
                    project.id,
                    intent.start_event_id,
                    intent.end_event_id->0,
                    path,
                ) && confined_below(project.root_path@, path) is Ok && is_file_of(
                    after.entries[m].path@,
                    project.root_path@,
                    confined_below(project.root_path@, path)->Ok_0,
                ),
        made.recovery.run_id == Some(run.id),
        made.recovery.kind@ == "intent"@,
        made.recovery.status@ == "planned"@,
        after.events == before.events,
{
    let first = intent.start_event_id;
    let last = intent.end_event_id->0;
    let root = project.root_path@;
    let events = before.events;
    let changes = rows::listed(events, Order::LowestId, between(project.id, first, last));
    let paths = choose|paths: Seq<Seq<char>>|
        {
            &&& #[trigger] sorted::is_sorted_set(named_paths(changes), paths)
            &&& match inverse_of(events, project, first, last, spots, copies, paths) {
                Err(said) => false,
                Ok(inverse) => crate::intent_recovery::inverse_persisted(
                    before,
                    after,
                    project,
                    run,
                    request,
                    inverse,
                    spots,
                    now,
                    Ok(made),
                ),
            }
        };
    let inverse = inverse_of(events, project, first, last, spots, copies, paths)->Ok_0;
    let (entries, saved) = choose|
        entries: Seq<EntryView>,
        saved: Result<crate::models::Recovery, Error>,
    |
        {
            &&& is_arranged(inverse.entries, entries)
            &&& #[trigger] plan_persisted(
                before,
                after,
                project,
                Some(run.id),
                request,
                "intent"@,
                crate::intent_recovery::task_confidence(inverse.conflicts),
                crate::intent_recovery::task_ambiguity(inverse.conflicts),
                entries,
                spots,
                now,
                saved,
            )
            &&& match saved {
                Err(e) => false,
                Ok(r) => made.recovery == r && keep_view(made.keep@) == inverse.keep,
            }
        };
    lemma_arranged(inverse.entries, entries);
    assert forall|k: int| 0 <= k < entries.len() implies is_confined(
        (#[trigger] entries[k]).path,
    ) && exists|path: Seq<char>| #[trigger]
        is_of_task(events, project.id, first, last, path) && confined_below(root, path) == Ok::<
            Seq<char>,
            Seq<char>,
        >(entries[k].path) by {
        assert(inverse.entries.contains(entries[k]));
        let i = choose|i: int| 0 <= i < inverse.entries.len() && inverse.entries[i] == entries[k];
        let j = lemma_inverse_only(events, project, first, last, spots, copies, paths, i);
        lemma_confined_below(root, paths[j]);
        assert(paths.contains(paths[j]));
        lemma_of_task(events, project.id, first, last, paths[j]);
        assert(is_of_task(events, project.id, first, last, paths[j]));
    }
    lemma_preview_is_saved(
        before,
        after,
        project,
        Some(run.id),
        request,
        "intent"@,
        crate::intent_recovery::task_confidence(inverse.conflicts),
        crate::intent_recovery::task_ambiguity(inverse.conflicts),
        entries,
        spots,
        now,
        made.recovery,
    );
    assert forall|path: Seq<char>, state: (bool, Option<Seq<char>>)|
        is_of_task(events, project.id, first, last, path) && #[trigger] is_to_take_back(
            events,
            project.id,
            first,
            last,
            path,
            state,
        ) && stands_as(spots, confined_below(root, path)->Ok_0, state) implies confined_below(
        root,
        path,
    ) is Ok && has_row_back(
        after.entries,
        made.recovery.id,
        events,
        project,
        first,
        path,
        confined_below(root, path)->Ok_0,
        state,
    ) by {
        lemma_of_task(events, project.id, first, last, path);
        assert(paths.contains(path));
        let j = choose|j: int| 0 <= j < paths.len() && paths[j] == path;
        lemma_inverse_has(events, project, first, last, spots, copies, paths, j);
        let target = confined_below(root, path)->Ok_0;
        lemma_task_is_taken_back(
            events,
            project.id,
            path,
            target,
            first,
            last,
            spots,
            copies,
            state,
        );
        let step = inverse_step(
            target,
            stored_at(events, project.id, path, first),
            stored_at(events, project.id, path, last),
            read_at(spots, target),
            copies,
        )->Ok_0->0;
        assert(entries.contains(step.entry));
        let k = choose|k: int| 0 <= k < entries.len() && entries[k] == step.entry;
        assert(has_its_row(after.entries, made.recovery.id, root, entries[k], spots));
        lemma_row_back(
            after.entries,
            made.recovery.id,
            events,
            project,
            first,
            last,
            path,
            target,
            spots,
            state,
            entries[k],
        );
    }
    assert forall|m: int|
        0 <= m < after.entries.len() && (#[trigger] after.entries[m]).recovery_id
            == made.recovery.id implies exists|path: Seq<char>| #[trigger]
        is_of_task(events, project.id, first, last, path) && confined_below(root, path) is Ok
            && is_file_of(after.entries[m].path@, root, confined_below(root, path)->Ok_0) by {
        let i = choose|i: int|
            0 <= i < entries.len() && is_row_for(
                row_view(after.entries[m]),
                root,
                #[trigger] entries[i],
                spots,
            );
        assert(is_confined(entries[i].path));
    }
}

/// An entry that brings a file back to how it was before a task has a row that says
/// so.
proof fn lemma_row_back(
    stored: Seq<RecoveryEntry>,
    recovery_id: i64,
    events: Seq<FileEvent>,
    project: WatchedProject,
    first: i64,
    last: i64,
    path: Seq<char>,
    target: Seq<char>,
    spots: Seq<Spot>,
    state: (bool, Option<Seq<char>>),
    e: EntryView,
)
    requires
        rows::ids_grow(events),
        has_its_row(stored, recovery_id, project.root_path@, e, spots),
        is_to_take_back(events, project.id, first, last, path, state),
        stands_as(spots, target, state),
        e.path == target,
        e.expected == Some(state),
        is_as_at(events, project.id, path, Moment::Event(first), left_by(e.action)),
    ensures
        has_row_back(stored, recovery_id, events, project, first, path, target, state),
{
    reveal_strlit("WRITE");
    reveal_strlit("DELETE");
    assert("WRITE"@[0] != "DELETE"@[0]);
    let root = project.root_path@;
    if !would_change(e.action, state) {
        let left = left_by(e.action);
        if left.0 {
            let a = choose|a: i64| #[trigger]
                held(events, project.id, path, Moment::Event(first), left.1->0, a);
            let b = choose|b: i64| #[trigger]
                held(events, project.id, path, Moment::Event(last), state.1->0, b);
            assert(held(events, project.id, path, Moment::Event(first), left.1->0, a));
            assert(held(events, project.id, path, Moment::Event(last), left.1->0, b));
        }
        assert(false);
    }
    let found = choose|found: (bool, Option<Seq<char>>)|
        {
            &&& #[trigger] stands_as(spots, e.path, found)
            &&& e.expected is Some ==> e.expected->0 == found
            &&& would_change(e.action, found) ==> exists|m: int|
                0 <= m < stored.len() && (#[trigger] stored[m]).recovery_id == recovery_id && says(
                    row_view(stored[m]),
                    root,
                    e,
                    found,
                )
        };
    assert(found == state);
    let m = choose|m: int|
        0 <= m < stored.len() && (#[trigger] stored[m]).recovery_id == recovery_id && says(
            row_view(stored[m]),
            root,
            e,
            state,
        );
    assert(left_by_row(stored[m]) == left_by(e.action));
}


/// A file that a task made, and that holds something else by now, cannot simply be taken
/// back; neither can one that the task deleted, where there is a file again that is not
/// as it was before.
pub proof fn lemma_edited_files_are_conflicts(
    events: Seq<FileEvent>,
    project_id: i64,
    path: Seq<char>,
    target: Seq<char>,
    first: i64,
    last: i64,
    spots: Seq<Spot>,
    copies: Seq<SavedCopy>,
    i: int,
    current: Vec<u8>,
    known: (Seq<char>, i64),
)
    requires
        rows::ids_grow(events),
        is_spot(spots, target, i),
        spots[i].read == CappedRead::Content(current),
        hex::content_hash(current@) != known.0,
    ensures
        was_away(events, project_id, path, Moment::Event(first)) && held(
            events,
            project_id,
            path,
            Moment::Event(last),
            known.0,
            known.1,
        ) ==> inverse_step(
            target,
            stored_at(events, project_id, path, first),
            stored_at(events, project_id, path, last),
            read_at(spots, target),
            copies,
        ) is Err,
        held(events, project_id, path, Moment::Event(first), known.0, known.1) && was_away(
            events,
            project_id,
            path,
            Moment::Event(last),
        ) ==> inverse_step(
            target,
            stored_at(events, project_id, path, first),
            stored_at(events, project_id, path, last),
            read_at(spots, target),
            copies,
        ) is Err,
{
    crate::laws::restoring::lemma_spot(spots, target);
    lemma_stored_state(events, project_id, path, first);
    lemma_stored_state(events, project_id, path, last);
}

/// Whether taking a task back in a file is in conflict with what was done to it later.
pub open spec fn is_conflict(
    events: Seq<FileEvent>,
    project: WatchedProject,
    first: i64,
    last: i64,
    spots: Seq<Spot>,
    copies: Seq<SavedCopy>,
    path: Seq<char>,
) -> bool {
    target_at(project.root_path@, spots, path) matches Ok(target) && inverse_step(
        target,
        stored_at(events, project.id, path, first),
        stored_at(events, project.id, path, last),
        read_at(spots, target),
        copies,
    ) is Err
}

/// There is a conflict where one of the files is in conflict.
proof fn lemma_conflicts(
    events: Seq<FileEvent>,
    project: WatchedProject,
    first: i64,
    last: i64,
    spots: Seq<Spot>,
    copies: Seq<SavedCopy>,
    paths: Seq<Seq<char>>,
)
    requires
        inverse_of(events, project, first, last, spots, copies, paths) is Ok,
    ensures
        inverse_of(events, project, first, last, spots, copies, paths)->Ok_0.conflicts.len() > 0
            <==> exists|j: int|
            0 <= j < paths.len() && is_conflict(
                events,
                project,
                first,
                last,
                spots,
                copies,
                #[trigger] paths[j],
            ),
    decreases paths.len(),
{
    if paths.len() > 0 {
        let front = paths.drop_last();
        let n = front.len() as int;
        lemma_conflicts(events, project, first, last, spots, copies, front);
        assert(paths[n] == paths.last());
        if exists|j: int|
            0 <= j < front.len() && is_conflict(
                events,
                project,
                first,
                last,
                spots,
                copies,
                #[trigger] front[j],
            ) {
            let j = choose|j: int|
                0 <= j < front.len() && is_conflict(
                    events,
                    project,
                    first,
                    last,
                    spots,
                    copies,
                    #[trigger] front[j],
                );
            assert(is_conflict(events, project, first, last, spots, copies, paths[j]));
        }
        if exists|j: int|
            0 <= j < paths.len() && is_conflict(
                events,
                project,
                first,
                last,
                spots,
                copies,
                #[trigger] paths[j],
            ) {
            let j = choose|j: int|
                0 <= j < paths.len() && is_conflict(
                    events,
                    project,
                    first,
                    last,
                    spots,
                    copies,
                    #[trigger] paths[j],
                );
            if j < n {
                assert(is_conflict(events, project, first, last, spots, copies, front[j]));
            }
        }
    }
}

/// A plan that takes a task back says that something is unclear exactly where a file of
/// the task is in conflict with what was done to it later; then it is never carried out.
pub proof fn lemma_conflicts_are_told(
    before: Tables,
    after: Tables,
    project: WatchedProject,
    run: Run,
    intent: RunIntent,
    request: Seq<char>,
    spots: Seq<Spot>,
    copies: Seq<SavedCopy>,
    now: i64,
    made: IntentRecovery,
)
    requires
        before.wf(),
        intent_recovery_created(
            before,
            after,
            project,
            run,
            intent,
            request,
            spots,
            copies,
            now,
            Ok(made),
        ),
    ensures
        made.recovery.ambiguity is Some <==> exists|path: Seq<char>| #[trigger]
            is_of_task(
                before.events,
                project.id,
                intent.start_event_id,
                intent.end_event_id->0,
                path,
            ) && is_conflict(
                before.events,
                project,
                intent.start_event_id,
                intent.end_event_id->0,
                spots,
                copies,
                path,
            ),
        made.recovery.ambiguity is Some ==> made.recovery.confidence@ == "ambiguous"@,
        made.recovery.ambiguity is None ==> made.recovery.confidence@ == "explicit-intent"@,
        made.recovery.ambiguity is Some ==> crate::recovery_apply::inapplicable(
            made.recovery,
            now,
        ) is Some,
{
    let first = intent.start_event_id;
    let last = intent.end_event_id->0;
    let events = before.events;
    let changes = rows::listed(events, Order::LowestId, between(project.id, first, last));
    let paths = choose|paths: Seq<Seq<char>>|
        {
            &&& #[trigger] sorted::is_sorted_set(named_paths(changes), paths)
            &&& match inverse_of(events, project, first, last, spots, copies, paths) {
                Err(said) => false,
                Ok(inverse) => crate::intent_recovery::inverse_persisted(
                    before,
                    after,
                    project,
                    run,
                    request,
                    inverse,
                    spots,
                    now,
                    Ok(made),
                ),
            }
        };
    let inverse = inverse_of(events, project, first, last, spots, copies, paths)->Ok_0;
    lemma_conflicts(events, project, first, last, spots, copies, paths);
    let (entries, saved) = choose|
        entries: Seq<EntryView>,
        saved: Result<crate::models::Recovery, Error>,
    |
        {
            &&& is_arranged(inverse.entries, entries)
            &&& #[trigger] plan_persisted(
                before,
                after,
                project,
                Some(run.id),
                request,
                "intent"@,
                crate::intent_recovery::task_confidence(inverse.conflicts),
                crate::intent_recovery::task_ambiguity(inverse.conflicts),
                entries,
                spots,
                now,
                saved,
            )
            &&& saved == Ok::<crate::models::Recovery, Error>(made.recovery)
        };
    assert(made.recovery.ambiguity is Some <==> inverse.conflicts.len() > 0);
    if inverse.conflicts.len() > 0 {
        let j = choose|j: int|
            0 <= j < paths.len() && is_conflict(
                events,
                project,
                first,
                last,
                spots,
                copies,
                #[trigger] paths[j],
            );
        assert(paths.contains(paths[j]));
        lemma_of_task(events, project.id, first, last, paths[j]);
        assert(is_of_task(events, project.id, first, last, paths[j]));
    }
    if exists|path: Seq<char>| #[trigger]
        is_of_task(events, project.id, first, last, path) && is_conflict(
            events,
            project,
            first,
            last,
            spots,
            copies,
            path,
        ) {
        let path = choose|path: Seq<char>| #[trigger]
            is_of_task(events, project.id, first, last, path) && is_conflict(
                events,
                project,
                first,
                last,
                spots,
                copies,
                path,
            );
        lemma_of_task(events, project.id, first, last, path);
        assert(paths.contains(path));
        let j = choose|j: int| 0 <= j < paths.len() && paths[j] == path;
        assert(is_conflict(events, project, first, last, spots, copies, paths[j]));
    }
}

} // verus!
