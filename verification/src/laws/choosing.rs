//! What plans for chosen files do, and what is saved of them.
use vstd::prelude::*;

use crate::db::events::{between, lemma_max_id, max_id};
use crate::db::Tables;
use crate::error::Error;
use crate::laws::moments::{held, lemma_state_at_event, names_file, Moment};
use crate::laws::restoring::{
    brings_back, changed_since, is_brought, is_dealt_with, is_for_changed, is_found, is_free,
    is_named, lemma_arranged, lemma_entry, lemma_is_named, lemma_lies_in, lemma_pushed,
    lemma_restore_of_a_folder, lemma_still_dealt_with, lemma_target, lies_in, takes_away,
    was_absent,
};
use crate::laws::saving::{
    has_its_row, is_file_of, lemma_preview_is_saved, lemma_stands_as, says, stands_as, would_change,
};
use crate::laws::tasks::{left_by, left_by_row};
use crate::models::{FileEvent, Recovery, RecoveryEntry, Run, WatchedProject};
use crate::path::join_spec;
use crate::places;
use crate::places::Place;
use crate::recoveries::{
    boundary_recovery_created, outcome_persisted, row_view, run_recovery_created,
    timestamp_recovery_created,
};
use crate::restore::{
    are_scope_files, entries_at_id, entries_of, entries_view, entry_for, is_plan_at_event,
    is_planned, is_restore_plan, scope_members, state_at_id, target_at, EntryView, RestorePlan,
};
use crate::restore_fs::{confined_below, is_confined, lemma_confined_below, Leaf, Spot};
use crate::rows;
use crate::rows::Order;
use crate::sorted;
use crate::text;

verus! {

// ── chosen files ────────────────────────────────────────────────────

/// The file that an input means from a folder.
pub open spec fn chosen_path(cwd: Seq<char>, inputs: Seq<Seq<char>>, j: int) -> Seq<char> {
    join_spec(cwd, inputs[j])
}

/// Whether an input means a file that no earlier one does.
pub open spec fn is_first_for(
    root: Seq<char>,
    cwd: Seq<char>,
    inputs: Seq<Seq<char>>,
    j: int,
) -> bool {
    forall|i: int|
        0 <= i < j ==> confined_below(root, #[trigger] chosen_path(cwd, inputs, i))
            != confined_below(root, chosen_path(cwd, inputs, j))
}

/// Which files have been seen.
proof fn lemma_seen(
    events: Seq<FileEvent>,
    project_id: i64,
    root: Seq<char>,
    cwd: Seq<char>,
    spots: Seq<Spot>,
    inputs: Seq<Seq<char>>,
    event_id: i64,
    guess: bool,
    target: Seq<char>,
)
    requires
        entries_at_id(events, project_id, root, cwd, spots, inputs, event_id, guess) is Ok,
    ensures
        entries_at_id(
            events,
            project_id,
            root,
            cwd,
            spots,
            inputs,
            event_id,
            guess,
        )->Ok_0.seen.contains(target) <==> exists|i: int|
            0 <= i < inputs.len() && confined_below(root, #[trigger] chosen_path(cwd, inputs, i))
                == Ok::<Seq<char>, Seq<char>>(target),
        forall|i: int|
            0 <= i < inputs.len() ==> target_at(root, spots, #[trigger] chosen_path(cwd, inputs, i))
                is Ok,
    decreases inputs.len(),
{
    if inputs.len() > 0 {
        let front = inputs.drop_last();
        let n = inputs.len() - 1;
        lemma_seen(events, project_id, root, cwd, spots, front, event_id, guess, target);
        let before = entries_at_id(
            events,
            project_id,
            root,
            cwd,
            spots,
            front,
            event_id,
            guess,
        )->Ok_0.seen;
        let path = chosen_path(cwd, inputs, n);
        let own = target_at(root, spots, path)->Ok_0;
        lemma_target(root, spots, path);
        lemma_pushed(before, own, target);
        assert forall|i: int| 0 <= i < inputs.len() implies target_at(
            root,
            spots,
            #[trigger] chosen_path(cwd, inputs, i),
        ) is Ok by {
            if i < n {
                assert(chosen_path(cwd, front, i) == chosen_path(cwd, inputs, i));
            }
        }
        if exists|i: int|
            0 <= i < front.len() && confined_below(root, #[trigger] chosen_path(cwd, front, i))
                == Ok::<Seq<char>, Seq<char>>(target) {
            let i = choose|i: int|
                0 <= i < front.len() && confined_below(root, #[trigger] chosen_path(cwd, front, i))
                    == Ok::<Seq<char>, Seq<char>>(target);
            assert(chosen_path(cwd, front, i) == chosen_path(cwd, inputs, i));
        }
        if exists|i: int|
            0 <= i < inputs.len() && confined_below(root, #[trigger] chosen_path(cwd, inputs, i))
                == Ok::<Seq<char>, Seq<char>>(target) {
            let i = choose|i: int|
                0 <= i < inputs.len() && confined_below(
                    root,
                    #[trigger] chosen_path(cwd, inputs, i),
                ) == Ok::<Seq<char>, Seq<char>>(target);
            if i < n {
                assert(chosen_path(cwd, front, i) == chosen_path(cwd, inputs, i));
            }
        }
    }
}

/// What is done to chosen files deals with each of them as it must.
proof fn lemma_dealt_at_event(
    events: Seq<FileEvent>,
    project_id: i64,
    root: Seq<char>,
    cwd: Seq<char>,
    spots: Seq<Spot>,
    inputs: Seq<Seq<char>>,
    event_id: i64,
    guess: bool,
    j: int,
)
    requires
        rows::ids_grow(events),
        entries_at_id(events, project_id, root, cwd, spots, inputs, event_id, guess) is Ok,
        0 <= j < inputs.len(),
        is_first_for(root, cwd, inputs, j),
    ensures
        confined_below(root, chosen_path(cwd, inputs, j)) matches Ok(target) && is_dealt_with(
            events,
            project_id,
            spots,
            chosen_path(cwd, inputs, j),
            target,
            Moment::Event(event_id),
            guess,
            entries_at_id(
                events,
                project_id,
                root,
                cwd,
                spots,
                inputs,
                event_id,
                guess,
            )->Ok_0.entries,
        ),
    decreases inputs.len(),
{
    let front = inputs.drop_last();
    let n = inputs.len() - 1;
    let moment = Moment::Event(event_id);
    let sofar = entries_at_id(events, project_id, root, cwd, spots, front, event_id, guess)->Ok_0;
    let before = sofar.entries;
    let after = entries_at_id(
        events,
        project_id,
        root,
        cwd,
        spots,
        inputs,
        event_id,
        guess,
    )->Ok_0.entries;
    let path = chosen_path(cwd, inputs, j);
    lemma_seen(events, project_id, root, cwd, spots, inputs, event_id, guess, Seq::empty());
    assert(target_at(root, spots, path) is Ok);
    lemma_target(root, spots, path);
    let target = confined_below(root, path)->Ok_0;
    assert forall|k: int| 0 <= k < before.len() implies after.contains(#[trigger] before[k]) by {
        assert(after[k] == before[k]);
    }
    if j < n {
        assert(chosen_path(cwd, front, j) == path);
        assert forall|i: int| 0 <= i < j implies confined_below(
            root,
            #[trigger] chosen_path(cwd, front, i),
        ) != confined_below(root, chosen_path(cwd, front, j)) by {
            assert(chosen_path(cwd, front, i) == chosen_path(cwd, inputs, i));
        }
        lemma_dealt_at_event(
            events,
            project_id,
            root,
            cwd,
            spots,
            front,
            event_id,
            guess,
            j,
        );
        lemma_still_dealt_with(
            events,
            project_id,
            spots,
            path,
            target,
            moment,
            guess,
            before,
            after,
        );
    } else {
        lemma_seen(events, project_id, root, cwd, spots, front, event_id, guess, target);
        if sofar.seen.contains(target) {
            let i = choose|i: int|
                0 <= i < front.len() && confined_below(root, #[trigger] chosen_path(cwd, front, i))
                    == Ok::<Seq<char>, Seq<char>>(target);
            assert(chosen_path(cwd, front, i) == chosen_path(cwd, inputs, i));
            assert(false);
        }
        let state = state_at_id(events, project_id, path, event_id);
        lemma_state_at_event(events, project_id, path, event_id);
        lemma_entry(events, project_id, spots, path, target, moment, state, guess);
        let own = match entry_for(spots, target, state, guess) {
            Ok(Some(entry)) => seq![entry],
            _ => Seq::empty(),
        };
        assert forall|k: int| 0 <= k < own.len() implies after.contains(#[trigger] own[k]) by {
            assert(after[before.len() + k] == own[k]);
        }
        lemma_still_dealt_with(
            events,
            project_id,
            spots,
            path,
            target,
            moment,
            guess,
            own,
            after,
        );
    }
}

/// What is done to chosen files is done to one of them, and as it must be.
proof fn lemma_brought_at_event(
    events: Seq<FileEvent>,
    project_id: i64,
    root: Seq<char>,
    cwd: Seq<char>,
    spots: Seq<Spot>,
    inputs: Seq<Seq<char>>,
    event_id: i64,
    guess: bool,
    k: int,
) -> (j: int)
    requires
        rows::ids_grow(events),
        entries_at_id(events, project_id, root, cwd, spots, inputs, event_id, guess) is Ok,
        0 <= k < entries_at_id(
            events,
            project_id,
            root,
            cwd,
            spots,
            inputs,
            event_id,
            guess,
        )->Ok_0.entries.len(),
    ensures
        0 <= j < inputs.len(),
        confined_below(root, chosen_path(cwd, inputs, j)) matches Ok(target) && is_brought(
            events,
            project_id,
            spots,
            chosen_path(cwd, inputs, j),
            target,
            Moment::Event(event_id),
            guess,
            entries_at_id(
                events,
                project_id,
                root,
                cwd,
                spots,
                inputs,
                event_id,
                guess,
            )->Ok_0.entries[k],
        ),
    decreases inputs.len(),
{
    let front = inputs.drop_last();
    let n = inputs.len() - 1;
    let before = entries_at_id(
        events,
        project_id,
        root,
        cwd,
        spots,
        front,
        event_id,
        guess,
    )->Ok_0.entries;
    let after = entries_at_id(
        events,
        project_id,
        root,
        cwd,
        spots,
        inputs,
        event_id,
        guess,
    )->Ok_0.entries;
    if k < before.len() {
        let j = lemma_brought_at_event(
            events,
            project_id,
            root,
            cwd,
            spots,
            front,
            event_id,
            guess,
            k,
        );
        assert(chosen_path(cwd, front, j) == chosen_path(cwd, inputs, j));
        assert(after[k] == before[k]);
        j
    } else {
        let path = chosen_path(cwd, inputs, n);
        lemma_target(root, spots, path);
        let target = confined_below(root, path)->Ok_0;
        lemma_state_at_event(events, project_id, path, event_id);
        lemma_entry(
            events,
            project_id,
            spots,
            path,
            target,
            Moment::Event(event_id),
            state_at_id(events, project_id, path, event_id),
            guess,
        );
        n
    }
}

/// Where a plan for chosen files fails, one of them cannot be put back.
proof fn lemma_wrong_at_event(
    events: Seq<FileEvent>,
    project_id: i64,
    root: Seq<char>,
    cwd: Seq<char>,
    spots: Seq<Spot>,
    inputs: Seq<Seq<char>>,
    event_id: i64,
    guess: bool,
) -> (j: int)
    requires
        rows::ids_grow(events),
        entries_at_id(events, project_id, root, cwd, spots, inputs, event_id, guess) is Err,
    ensures
        0 <= j < inputs.len(),
        !(confined_below(root, chosen_path(cwd, inputs, j)) matches Ok(target) && is_free(
            spots,
            target,
        )),
    decreases inputs.len(),
{
    let front = inputs.drop_last();
    let n = inputs.len() - 1;
    if entries_at_id(events, project_id, root, cwd, spots, front, event_id, guess) is Err {
        let j = lemma_wrong_at_event(
            events,
            project_id,
            root,
            cwd,
            spots,
            front,
            event_id,
            guess,
        );
        assert(chosen_path(cwd, front, j) == chosen_path(cwd, inputs, j));
        j
    } else {
        let path = chosen_path(cwd, inputs, n);
        lemma_target(root, spots, path);
        if let Ok(target) = target_at(root, spots, path) {
            lemma_state_at_event(events, project_id, path, event_id);
            lemma_entry(
                events,
                project_id,
                spots,
                path,
                target,
                Moment::Event(event_id),
                state_at_id(events, project_id, path, event_id),
                guess,
            );
        }
        n
    }
}

/// Whether entries bring chosen files back to how they were right after a change: what
/// each held then is written, and it goes where it was not there and is now. Nothing
/// else is touched.
pub open spec fn are_chosen_brought_back(
    events: Seq<FileEvent>,
    project_id: i64,
    root: Seq<char>,
    cwd: Seq<char>,
    spots: Seq<Spot>,
    inputs: Seq<Seq<char>>,
    event_id: i64,
    guess: bool,
    entries: Seq<EntryView>,
) -> bool {
    &&& forall|j: int|
        0 <= j < inputs.len() && #[trigger] is_first_for(root, cwd, inputs, j) ==> (confined_below(
            root,
            chosen_path(cwd, inputs, j),
        ) matches Ok(target) && is_dealt_with(
            events,
            project_id,
            spots,
            chosen_path(cwd, inputs, j),
            target,
            Moment::Event(event_id),
            guess,
            entries,
        ))
    &&& forall|k: int|
        0 <= k < entries.len() ==> is_for_chosen(
            events,
            project_id,
            root,
            cwd,
            spots,
            inputs,
            event_id,
            guess,
            #[trigger] entries[k],
        )
}

/// Whether an entry is for one of some chosen files, and does with it what it must.
pub open spec fn is_for_chosen(
    events: Seq<FileEvent>,
    project_id: i64,
    root: Seq<char>,
    cwd: Seq<char>,
    spots: Seq<Spot>,
    inputs: Seq<Seq<char>>,
    event_id: i64,
    guess: bool,
    entry: EntryView,
) -> bool {
    exists|j: int|
        0 <= j < inputs.len() && (confined_below(root, #[trigger] chosen_path(cwd, inputs, j))
            matches Ok(target) && is_brought(
            events,
            project_id,
            spots,
            chosen_path(cwd, inputs, j),
            target,
            Moment::Event(event_id),
            guess,
            entry,
        ))
}

/// A plan for chosen files brings each of them back to how it was right after a
/// change, once, and touches no other file; and there is a plan wherever nothing but
/// files is in the way.
pub proof fn lemma_chosen_files_are_brought_back(
    events: Seq<FileEvent>,
    project_id: i64,
    root: Seq<char>,
    cwd: Seq<char>,
    spots: Seq<Spot>,
    inputs: Seq<Seq<char>>,
    event_id: i64,
    guess: bool,
    result: Result<RestorePlan, Error>,
)
    requires
        rows::ids_grow(events),
        is_planned(
            entries_of(
                entries_at_id(events, project_id, root, cwd, spots, inputs, event_id, guess),
            ),
            result,
        ),
    ensures
        match result {
            Ok(plan) => are_chosen_brought_back(
                events,
                project_id,
                root,
                cwd,
                spots,
                inputs,
                event_id,
                guess,
                entries_view(plan.entries@),
            ),
            Err(_) => exists|j: int|
                0 <= j < inputs.len() && !(confined_below(
                    root,
                    #[trigger] chosen_path(cwd, inputs, j),
                ) matches Ok(target) && is_free(spots, target)),
        },
{
    if let Ok(sofar) = entries_at_id(
        events,
        project_id,
        root,
        cwd,
        spots,
        inputs,
        event_id,
        guess,
    ) {
        let all = sofar.entries;
        let entries = entries_view(result->Ok_0.entries@);
        lemma_arranged(all, entries);
        assert forall|j: int|
            0 <= j < inputs.len() && #[trigger] is_first_for(root, cwd, inputs, j) implies (
        confined_below(root, chosen_path(cwd, inputs, j)) matches Ok(target) && is_dealt_with(
            events,
            project_id,
            spots,
            chosen_path(cwd, inputs, j),
            target,
            Moment::Event(event_id),
            guess,
            entries,
        )) by {
            lemma_dealt_at_event(
                events,
                project_id,
                root,
                cwd,
                spots,
                inputs,
                event_id,
                guess,
                j,
            );
            lemma_still_dealt_with(
                events,
                project_id,
                spots,
                chosen_path(cwd, inputs, j),
                confined_below(root, chosen_path(cwd, inputs, j))->Ok_0,
                Moment::Event(event_id),
                guess,
                all,
                entries,
            );
        }
        assert forall|k: int| 0 <= k < entries.len() implies is_for_chosen(
            events,
            project_id,
            root,
            cwd,
            spots,
            inputs,
            event_id,
            guess,
            #[trigger] entries[k],
        ) by {
            assert(all.contains(entries[k]));
            let i = choose|i: int| 0 <= i < all.len() && all[i] == entries[k];
            let j = lemma_brought_at_event(
                events,
                project_id,
                root,
                cwd,
                spots,
                inputs,
                event_id,
                guess,
                i,
            );
            assert(chosen_path(cwd, inputs, j) == join_spec(cwd, inputs[j]));
        }
    } else {
        let j = lemma_wrong_at_event(
            events,
            project_id,
            root,
            cwd,
            spots,
            inputs,
            event_id,
            guess,
        );
        assert(chosen_path(cwd, inputs, j) == join_spec(cwd, inputs[j]));
    }
}

// ── what is saved ───────────────────────────────────────────────────

/// Whether some row of a plan takes a file from the state in which it is found to
/// another.
pub open spec fn has_row_to(
    stored: Seq<RecoveryEntry>,
    recovery_id: i64,
    root: Seq<char>,
    target: Seq<char>,
    state: (bool, Option<Seq<char>>),
    left: (bool, Option<Seq<char>>),
) -> bool {
    exists|m: int|
        {
            &&& 0 <= m < stored.len()
            &&& (#[trigger] stored[m]).recovery_id == recovery_id
            &&& is_file_of(stored[m].path@, root, target)
            &&& stored[m].expected_exists == state.0
            &&& text::view_opt(stored[m].expected_hash) == state.1
            &&& stored[m].action@ == "WRITE"@ || stored[m].action@ == "DELETE"@
            &&& left_by_row(stored[m]) == left
        }
}

/// An entry that would change its file has a row that says so.
proof fn lemma_entry_has_row(
    stored: Seq<RecoveryEntry>,
    recovery_id: i64,
    root: Seq<char>,
    e: EntryView,
    spots: Seq<Spot>,
    state: (bool, Option<Seq<char>>),
)
    requires
        has_its_row(stored, recovery_id, root, e, spots),
        stands_as(spots, e.path, state),
        would_change(e.action, state),
    ensures
        has_row_to(stored, recovery_id, root, e.path, state, left_by(e.action)),
{
    reveal_strlit("WRITE");
    reveal_strlit("DELETE");
    assert("WRITE"@[0] != "DELETE"@[0]);
    lemma_stands_as(spots, e.path);
    let found = choose|found: (bool, Option<Seq<char>>)|
        {
            &&& #[trigger] stands_as(spots, e.path, found)
            &&& e.expected is Some ==> e.expected->0 == found
            &&& would_change(e.action, found) ==> exists|m: int|
                0 <= m < stored.len() && (#[trigger] stored[m]).recovery_id == recovery_id && says(
                    row_view(stored[m]),
                    root,
                    e,
                    found,
                )
        };
    assert(found == state);
    let m = choose|m: int|
        0 <= m < stored.len() && (#[trigger] stored[m]).recovery_id == recovery_id && says(
            row_view(stored[m]),
            root,
            e,
            state,
        );
    assert(left_by_row(stored[m]) == left_by(e.action));
}

/// Whether a saved plan brings a file back to how it was at a moment, from the state
/// in which it is found.
pub open spec fn is_saved_back(
    stored: Seq<RecoveryEntry>,
    recovery_id: i64,
    events: Seq<FileEvent>,
    project_id: i64,
    root: Seq<char>,
    spots: Seq<Spot>,
    path: Seq<char>,
    target: Seq<char>,
    moment: Moment,
    guess: bool,
) -> bool {
    forall|state: (bool, Option<Seq<char>>)| #[trigger]
        stands_as(spots, target, state) ==> {
            &&& forall|hash: Seq<char>, at: i64| #[trigger]
                held(events, project_id, path, moment, hash, at) && state != (true, Some(hash))
                    ==> has_row_to(stored, recovery_id, root, target, state, (true, Some(hash)))
            &&& was_absent(events, project_id, path, moment, guess) && is_found(
                spots,
                target,
                Leaf::File,
            ) && state.0 ==> has_row_to(stored, recovery_id, root, target, state, (false, None))
        }
}

/// What deals with a file in a preview brings it back in the saved plan.
proof fn lemma_dealt_is_saved(
    stored: Seq<RecoveryEntry>,
    recovery_id: i64,
    events: Seq<FileEvent>,
    project_id: i64,
    root: Seq<char>,
    spots: Seq<Spot>,
    path: Seq<char>,
    target: Seq<char>,
    moment: Moment,
    guess: bool,
    entries: Seq<EntryView>,
)
    requires
        is_dealt_with(events, project_id, spots, path, target, moment, guess, entries),
        forall|i: int|
            0 <= i < entries.len() ==> has_its_row(
                stored,
                recovery_id,
                root,
                #[trigger] entries[i],
                spots,
            ),
    ensures
        is_saved_back(
            stored,
            recovery_id,
            events,
            project_id,
            root,
            spots,
            path,
            target,
            moment,
            guess,
        ),
{
    assert forall|state: (bool, Option<Seq<char>>)| #[trigger]
        stands_as(spots, target, state) implies {
        &&& forall|hash: Seq<char>, at: i64| #[trigger]
            held(events, project_id, path, moment, hash, at) && state != (true, Some(hash))
                ==> has_row_to(stored, recovery_id, root, target, state, (true, Some(hash)))
        &&& was_absent(events, project_id, path, moment, guess) && is_found(
            spots,
            target,
            Leaf::File,
        ) && state.0 ==> has_row_to(stored, recovery_id, root, target, state, (false, None))
    } by {
        assert forall|hash: Seq<char>, at: i64| #[trigger]
            held(events, project_id, path, moment, hash, at) && state != (
            true,
            Some(hash),
        ) implies has_row_to(stored, recovery_id, root, target, state, (true, Some(hash))) by {
            let k = choose|k: int|
                0 <= k < entries.len() && brings_back(#[trigger] entries[k], target, hash, at);
            assert(has_its_row(stored, recovery_id, root, entries[k], spots));
            lemma_entry_has_row(stored, recovery_id, root, entries[k], spots, state);
        }
        if was_absent(events, project_id, path, moment, guess) && is_found(
            spots,
            target,
            Leaf::File,
        ) && state.0 {
            let k = choose|k: int|
                0 <= k < entries.len() && takes_away(#[trigger] entries[k], target);
            assert(has_its_row(stored, recovery_id, root, entries[k], spots));
            lemma_entry_has_row(stored, recovery_id, root, entries[k], spots, state);
        }
    }
}

/// Whether a saved plan brings chosen files back to how they were right after a
/// change.
pub open spec fn are_chosen_saved_back(
    stored: Seq<RecoveryEntry>,
    recovery_id: i64,
    events: Seq<FileEvent>,
    project_id: i64,
    root: Seq<char>,
    cwd: Seq<char>,
    spots: Seq<Spot>,
    inputs: Seq<Seq<char>>,
    event_id: i64,
    guess: bool,
) -> bool {
    forall|j: int|
        0 <= j < inputs.len() && #[trigger] is_first_for(root, cwd, inputs, j) ==> (confined_below(
            root,
            chosen_path(cwd, inputs, j),
        ) matches Ok(target) && is_saved_back(
            stored,
            recovery_id,
            events,
            project_id,
            root,
            spots,
            chosen_path(cwd, inputs, j),
            target,
            Moment::Event(event_id),
            guess,
        ))
}

/// Whether every row of a plan is for one of some chosen files.
pub open spec fn are_rows_for_chosen(
    stored: Seq<RecoveryEntry>,
    recovery_id: i64,
    root: Seq<char>,
    cwd: Seq<char>,
    inputs: Seq<Seq<char>>,
) -> bool {
    forall|m: int|
        0 <= m < stored.len() && (#[trigger] stored[m]).recovery_id == recovery_id ==> exists|j: int|
            0 <= j < inputs.len() && (confined_below(root, #[trigger] chosen_path(cwd, inputs, j))
                matches Ok(target) && is_file_of(stored[m].path@, root, target))
}

/// What is saved of a plan for chosen files brings them back.
proof fn lemma_chosen_saved(
    before: Tables,
    after: Tables,
    project: WatchedProject,
    project_id: i64,
    cwd: Seq<char>,
    inputs: Seq<Seq<char>>,
    event_id: i64,
    guess: bool,
    run_id: Option<i64>,
    request: Seq<char>,
    kind: Seq<char>,
    confidence: Seq<char>,
    ambiguity: Option<Seq<char>>,
    spots: Seq<Spot>,
    now: i64,
    plan: Result<RestorePlan, Error>,
    recovery: Recovery,
)
    requires
        before.wf(),
        project.root_path@.len() > 0,
        is_planned(
            entries_of(
                entries_at_id(
                    before.events,
                    project_id,
                    project.root_path@,
                    cwd,
                    spots,
                    inputs,
                    event_id,
                    guess,
                ),
            ),
            plan,
        ),
        outcome_persisted(
            before,
            after,
            project,
            run_id,
            request,
            kind,
            confidence,
            ambiguity,
            plan,
            spots,
            now,
            Ok(recovery),
        ),
    ensures
        are_chosen_saved_back(
            after.entries,
            recovery.id,
            before.events,
            project_id,
            project.root_path@,
            cwd,
            spots,
            inputs,
            event_id,
            guess,
        ),
        are_rows_for_chosen(after.entries, recovery.id, project.root_path@, cwd, inputs),
        recovery.status@ == "planned"@,
        recovery.run_id == run_id,
        recovery.project_id == project.id,
        after.recoveries == before.recoveries.push(recovery),
{
    let root = project.root_path@;
    let entries = entries_view(plan->Ok_0.entries@);
    lemma_chosen_files_are_brought_back(
        before.events,
        project_id,
        root,
        cwd,
        spots,
        inputs,
        event_id,
        guess,
        plan,
    );
    assert forall|k: int| 0 <= k < entries.len() implies is_confined((#[trigger] entries[k]).path)
        && exists|j: int|
        0 <= j < inputs.len() && confined_below(root, #[trigger] chosen_path(cwd, inputs, j))
            == Ok::<Seq<char>, Seq<char>>(entries[k].path) by {
        let j = choose|j: int|
            0 <= j < inputs.len() && (confined_below(root, #[trigger] chosen_path(cwd, inputs, j))
                matches Ok(target) && is_brought(
                before.events,
                project_id,
                spots,
                chosen_path(cwd, inputs, j),
                target,
                Moment::Event(event_id),
                guess,
                entries[k],
            ));
        lemma_confined_below(root, chosen_path(cwd, inputs, j));
    }
    lemma_preview_is_saved(
        before,
        after,
        project,
        run_id,
        request,
        kind,
        confidence,
        ambiguity,
        entries,
        spots,
        now,
        recovery,
    );
    assert forall|j: int|
        0 <= j < inputs.len() && #[trigger] is_first_for(root, cwd, inputs, j) implies (
    confined_below(root, chosen_path(cwd, inputs, j)) matches Ok(target) && is_saved_back(
        after.entries,
        recovery.id,
        before.events,
        project_id,
        root,
        spots,
        chosen_path(cwd, inputs, j),
        target,
        Moment::Event(event_id),
        guess,
    )) by {
        lemma_dealt_is_saved(
            after.entries,
            recovery.id,
            before.events,
            project_id,
            root,
            spots,
            chosen_path(cwd, inputs, j),
            confined_below(root, chosen_path(cwd, inputs, j))->Ok_0,
            Moment::Event(event_id),
            guess,
            entries,
        );
    }
    assert forall|m: int|
        0 <= m < after.entries.len() && (#[trigger] after.entries[m]).recovery_id
            == recovery.id implies exists|j: int|
        0 <= j < inputs.len() && (confined_below(root, #[trigger] chosen_path(cwd, inputs, j))
            matches Ok(target) && is_file_of(after.entries[m].path@, root, target)) by {
        let i = choose|i: int|
            0 <= i < entries.len() && crate::laws::saving::is_row_for(
                row_view(after.entries[m]),
                root,
                #[trigger] entries[i],
                spots,
            );
        assert(is_confined(entries[i].path));
    }
}

/// Recovering chosen files of a Run saves a plan that brings each of them back to how
/// it was when the Run began, and touches no other file. A file of which nothing was
/// recorded counts as not there.
pub proof fn lemma_run_files_are_recovered(
    before: Tables,
    after: Tables,
    project: WatchedProject,
    base: Seq<char>,
    run: Run,
    paths: Seq<Seq<char>>,
    request: Seq<char>,
    kind: Seq<char>,
    confidence: Seq<char>,
    ambiguity: Option<Seq<char>>,
    disk: Seq<Place>,
    spots: Seq<Spot>,
    now: i64,
    recovery: Recovery,
)
    requires
        before.wf(),
        project.root_path@.len() > 0,
        run_recovery_created(
            before,
            after,
            project,
            base,
            run,
            paths,
            request,
            kind,
            confidence,
            ambiguity,
            disk,
            spots,
            now,
            Ok(recovery),
        ),
    ensures
        run.ended_at is Some,
        are_chosen_saved_back(
            after.entries,
            recovery.id,
            before.events,
            project.id,
            project.root_path@,
            base,
            spots,
            paths,
            run.start_event_id,
            true,
        ),
        are_rows_for_chosen(after.entries, recovery.id, project.root_path@, base, paths),
        recovery.status@ == "planned"@,
        recovery.run_id == Some(run.id),
        after.recoveries == before.recoveries.push(recovery),
{
    let plan = choose|plan: Result<RestorePlan, Error>|
        {
            &&& is_planned(
                entries_of(
                    entries_at_id(
                        before.events,
                        run.project_id,
                        project.root_path@,
                        base,
                        spots,
                        paths,
                        run.start_event_id,
                        true,
                    ),
                ),
                plan,
            )
            &&& #[trigger] outcome_persisted(
                before,
                after,
                project,
                Some(run.id),
                request,
                kind,
                confidence,
                ambiguity,
                plan,
                spots,
                now,
                Ok(recovery),
            )
        };
    lemma_chosen_saved(
        before,
        after,
        project,
        run.project_id,
        base,
        paths,
        run.start_event_id,
        true,
        Some(run.id),
        request,
        kind,
        confidence,
        ambiguity,
        spots,
        now,
        plan,
        recovery,
    );
}

/// Recovering chosen files to a change saves a plan that brings each of them back to
/// how it was right after that change, and touches no other file. A file of which
/// nothing was recorded is left alone.
pub proof fn lemma_files_are_recovered_to_a_change(
    before: Tables,
    after: Tables,
    project: WatchedProject,
    base: Seq<char>,
    paths: Seq<Seq<char>>,
    event_id: i64,
    request: Seq<char>,
    kind: Seq<char>,
    spots: Seq<Spot>,
    now: i64,
    recovery: Recovery,
)
    requires
        before.wf(),
        project.root_path@.len() > 0,
        boundary_recovery_created(
            before,
            after,
            project,
            base,
            paths,
            event_id,
            request,
            kind,
            spots,
            now,
            Ok(recovery),
        ),
    ensures
        are_chosen_saved_back(
            after.entries,
            recovery.id,
            before.events,
            project.id,
            project.root_path@,
            base,
            spots,
            paths,
            event_id,
            false,
        ),
        are_rows_for_chosen(after.entries, recovery.id, project.root_path@, base, paths),
        recovery.status@ == "planned"@,
        after.recoveries == before.recoveries.push(recovery),
{
    let plan = choose|plan: Result<RestorePlan, Error>|
        {
            &&& is_planned(
                entries_of(
                    entries_at_id(
                        before.events,
                        project.id,
                        project.root_path@,
                        base,
                        spots,
                        paths,
                        event_id,
                        false,
                    ),
                ),
                plan,
            )
            &&& #[trigger] outcome_persisted(
                before,
                after,
                project,
                None,
                request,
                kind,
                "exact-paths"@,
                None,
                plan,
                spots,
                now,
                Ok(recovery),
            )
        };
    lemma_chosen_saved(
        before,
        after,
        project,
        project.id,
        base,
        paths,
        event_id,
        false,
        None,
        request,
        kind,
        "exact-paths"@,
        None,
        spots,
        now,
        plan,
        recovery,
    );
}

/// Recovering a folder to a time saves a plan that brings every file in it that has
/// changed since back to what it held then.
pub proof fn lemma_folder_is_recovered_to_a_time(
    before: Tables,
    after: Tables,
    project: WatchedProject,
    base: Seq<char>,
    path: Seq<char>,
    time: i64,
    request: Seq<char>,
    kind: Seq<char>,
    disk: Seq<Place>,
    spots: Seq<Spot>,
    now: i64,
    recovery: Recovery,
)
    requires
        before.wf(),
        project.root_path@.len() > 0,
        places::leads_to(disk, base, path).1 || path == "."@,
        timestamp_recovery_created(
            before,
            after,
            project,
            base,
            path,
            time,
            request,
            kind,
            false,
            disk,
            spots,
            now,
            Ok(recovery),
        ),
    ensures
        forall|p: Seq<char>| #[trigger]
            changed_since(
                before.events,
                project.id,
                places::leads_to(disk, base, path).0,
                time,
                p,
            ) ==> (confined_below(project.root_path@, p) matches Ok(target) && is_saved_back(
                after.entries,
                recovery.id,
                before.events,
                project.id,
                project.root_path@,
                spots,
                p,
                target,
                Moment::Time(time),
                true,
            )),
        recovery.status@ == "planned"@,
        after.recoveries == before.recoveries.push(recovery),
{
    let root = project.root_path@;
    let folder = places::leads_to(disk, base, path).0;
    let plan = choose|plan: Result<RestorePlan, Error>|
        {
            &&& is_restore_plan(
                before.events,
                project,
                base,
                path,
                time,
                false,
                false,
                disk,
                spots,
                plan,
            )
            &&& #[trigger] outcome_persisted(
                before,
                after,
                project,
                None,
                request,
                kind,
                "exact-timestamp"@,
                None,
                plan,
                spots,
                now,
                Ok(recovery),
            )
        };
    let entries = entries_view(plan->Ok_0.entries@);
    lemma_restore_of_a_folder(
        before.events,
        project,
        base,
        path,
        time,
        false,
        disk,
        spots,
        plan,
    );
    assert forall|k: int| 0 <= k < entries.len() implies is_confined(
        (#[trigger] entries[k]).path,
    ) by {
        assert(is_for_changed(before.events, project.id, root, spots, folder, time, entries[k]));
        let (p, target) = choose|p: Seq<char>, target: Seq<char>|
            {
                &&& changed_since(before.events, project.id, folder, time, p)
                &&& confined_below(root, p) == Ok::<Seq<char>, Seq<char>>(target)
                &&& #[trigger] is_brought(
                    before.events,
                    project.id,
                    spots,
                    p,
                    target,
                    Moment::Time(time),
                    true,
                    entries[k],
                )
            };
        lemma_confined_below(root, p);
    }
    lemma_preview_is_saved(
        before,
        after,
        project,
        None,
        request,
        kind,
        "exact-timestamp"@,
        None,
        entries,
        spots,
        now,
        recovery,
    );
    assert forall|p: Seq<char>| #[trigger]
        changed_since(before.events, project.id, folder, time, p) implies (confined_below(root, p)
        matches Ok(target) && is_saved_back(
        after.entries,
        recovery.id,
        before.events,
        project.id,
        root,
        spots,
        p,
        target,
        Moment::Time(time),
        true,
    )) by {
        lemma_dealt_is_saved(
            after.entries,
            recovery.id,
            before.events,
            project.id,
            root,
            spots,
            p,
            confined_below(root, p)->Ok_0,
            Moment::Time(time),
            true,
            entries,
        );
    }
}

// ── a folder after a change ─────────────────────────────────────────

/// Whether a path in a folder is named by a change after another one.
pub open spec fn changed_after(
    events: Seq<FileEvent>,
    project_id: i64,
    folder: Seq<char>,
    event_id: i64,
    path: Seq<char>,
) -> bool {
    lies_in(path, folder) && exists|i: int|
        0 <= i < events.len() && names_file(#[trigger] events[i], project_id, path) && events[i].id
            > event_id
}

/// The paths in a folder that changes name.
proof fn lemma_members(list: Seq<FileEvent>, project_id: i64, folder: Seq<char>, path: Seq<char>)
    requires
        forall|i: int| 0 <= i < list.len() ==> (#[trigger] list[i]).project_id == project_id,
    ensures
        scope_members(list, folder).contains(path) <==> lies_in(path, folder) && is_named(
            list,
            project_id,
            path,
        ),
    decreases list.len(),
{
    if list.len() > 0 {
        let front = list.drop_last();
        let e = list.last();
        assert forall|i: int| 0 <= i < front.len() implies (#[trigger] front[i]).project_id
            == project_id by {
            assert(front[i] == list[i]);
        }
        assert(list[list.len() - 1].project_id == project_id);
        lemma_members(front, project_id, folder, path);
        lemma_is_named(list, project_id, path);
        lemma_lies_in(path, folder);
        let before = scope_members(front, folder);
        let half = if crate::path::in_scope(e.path@, folder) {
            before.push(e.path@)
        } else {
            before
        };
        lemma_pushed(before, e.path@, path);
        if let Some(old) = e.old_path {
            lemma_pushed(half, old@, path);
        }
    } else {
        assert(!is_named(list, project_id, path));
    }
}

/// A file that has changed after a change is one that the later changes name.
proof fn lemma_changed_after(
    events: Seq<FileEvent>,
    project_id: i64,
    folder: Seq<char>,
    event_id: i64,
    path: Seq<char>,
)
    requires
        rows::ids_grow(events),
    ensures
        changed_after(events, project_id, folder, event_id, path) <==> scope_members(
            rows::listed(
                events,
                Order::LowestId,
                between(project_id, event_id, max_id(events, project_id) as i64),
            ),
            folder,
        ).contains(path),
{
    let keep = between(project_id, event_id, max_id(events, project_id) as i64);
    let list = rows::listed(events, Order::LowestId, keep);
    lemma_max_id(events, project_id);
    rows::lemma_listing(events, Order::LowestId, keep);
    assert forall|i: int| 0 <= i < list.len() implies (#[trigger] list[i]).project_id
        == project_id by {
        assert(keep(list[i]));
    }
    lemma_members(list, project_id, folder, path);
    if changed_after(events, project_id, folder, event_id, path) {
        let i = choose|i: int|
            0 <= i < events.len() && names_file(#[trigger] events[i], project_id, path)
                && events[i].id > event_id;
        assert(keep(events[i]));
        let k = choose|k: int| 0 <= k < list.len() && list[k] == events[i];
        assert(names_file(list[k], project_id, path));
    }
    if is_named(list, project_id, path) {
        let i = choose|i: int| 0 <= i < list.len() && names_file(#[trigger] list[i], project_id, path);
        assert(keep(list[i]));
        let k = choose|k: int| 0 <= k < events.len() && events[k] == list[i];
        assert(names_file(events[k], project_id, path));
    }
}

/// Restoring a folder to a change brings every file in it that has changed after that
/// one back to how it was right after it. The paths are whole ones, and no two of them
/// mean one file. Nothing else is touched.
pub proof fn lemma_restore_of_a_folder_to_a_change(
    events: Seq<FileEvent>,
    project: WatchedProject,
    cwd: Seq<char>,
    path: Seq<char>,
    event_id: i64,
    disk: Seq<Place>,
    spots: Seq<Spot>,
    plan: RestorePlan,
)
    requires
        rows::ids_grow(events),
        places::leads_to(disk, cwd, path).1 || path == "."@ || !places::is_there(disk, cwd, path),
        exists|p: Seq<char>| #[trigger]
            changed_after(events, project.id, places::leads_to(disk, cwd, path).0, event_id, p),
        forall|p: Seq<char>| #[trigger]
            changed_after(events, project.id, places::leads_to(disk, cwd, path).0, event_id, p)
                ==> p.len() > 0 && p[0] == '/',
        forall|p: Seq<char>, q: Seq<char>| #[trigger]
            changed_after(events, project.id, places::leads_to(disk, cwd, path).0, event_id, p)
                && #[trigger] changed_after(
                events,
                project.id,
                places::leads_to(disk, cwd, path).0,
                event_id,
                q,
            ) && p != q ==> confined_below(project.root_path@, p) != confined_below(
                project.root_path@,
                q,
            ),
        is_plan_at_event(events, project, cwd, path, event_id, false, disk, spots, Ok(plan)),
    ensures
        forall|p: Seq<char>| #[trigger]
            changed_after(events, project.id, places::leads_to(disk, cwd, path).0, event_id, p)
                ==> (confined_below(project.root_path@, p) matches Ok(target) && is_dealt_with(
                events,
                project.id,
                spots,
                p,
                target,
                Moment::Event(event_id),
                false,
                entries_view(plan.entries@),
            )),
        forall|k: int|
            0 <= k < entries_view(plan.entries@).len() ==> exists|p: Seq<char>| #[trigger]
                changed_after(
                    events,
                    project.id,
                    places::leads_to(disk, cwd, path).0,
                    event_id,
                    p,
                ) && (confined_below(project.root_path@, p) matches Ok(target) && is_brought(
                    events,
                    project.id,
                    spots,
                    p,
                    target,
                    Moment::Event(event_id),
                    false,
                    #[trigger] entries_view(plan.entries@)[k],
                )),
{
    let root = project.root_path@;
    let folder = places::leads_to(disk, cwd, path).0;
    let entries = entries_view(plan.entries@);
    let files = choose|files: Seq<Seq<char>>|
        {
            &&& #[trigger] are_scope_files(
                events,
                project.id,
                folder,
                true,
                event_id,
                files,
            )
            &&& is_planned(
                entries_of(
                    entries_at_id(
                        events,
                        project.id,
                        root,
                        cwd,
                        spots,
                        files,
                        event_id,
                        false,
                    ),
                ),
                Ok(plan),
            )
        };
    let members = scope_members(
        rows::listed(
            events,
            Order::LowestId,
            between(project.id, event_id, max_id(events, project.id) as i64),
        ),
        folder,
    );
    let some = choose|p: Seq<char>| #[trigger]
        changed_after(events, project.id, folder, event_id, p);
    lemma_changed_after(events, project.id, folder, event_id, some);
    assert(members.contains(some));
    assert(members.len() > 0);
    assert forall|p: Seq<char>| #[trigger] files.contains(p) <==> changed_after(
        events,
        project.id,
        folder,
        event_id,
        p,
    ) by {
        lemma_changed_after(events, project.id, folder, event_id, p);
    }
    assert forall|j: int| 0 <= j < files.len() implies #[trigger] chosen_path(cwd, files, j)
        == files[j] && changed_after(events, project.id, folder, event_id, files[j]) by {
        assert(files.contains(files[j]));
    }
    lemma_chosen_files_are_brought_back(
        events,
        project.id,
        root,
        cwd,
        spots,
        files,
        event_id,
        false,
        Ok(plan),
    );
    assert forall|p: Seq<char>| #[trigger]
        changed_after(events, project.id, folder, event_id, p) implies (confined_below(root, p)
        matches Ok(target) && is_dealt_with(
        events,
        project.id,
        spots,
        p,
        target,
        Moment::Event(event_id),
        false,
        entries,
    )) by {
        assert(files.contains(p));
        let j = choose|j: int| 0 <= j < files.len() && files[j] == p;
        assert(chosen_path(cwd, files, j) == p);
        assert forall|i: int| 0 <= i < j implies confined_below(
            root,
            #[trigger] chosen_path(cwd, files, i),
        ) != confined_below(root, chosen_path(cwd, files, j)) by {
            assert(sorted::less(files[i], files[j]));
            sorted::lemma_less_irreflexive(files[j]);
            assert(chosen_path(cwd, files, i) == files[i]);
        }
        assert(is_first_for(root, cwd, files, j));
    }
    assert forall|k: int| 0 <= k < entries.len() implies exists|p: Seq<char>| #[trigger]
        changed_after(events, project.id, folder, event_id, p) && (confined_below(root, p)
            matches Ok(target) && is_brought(
            events,
            project.id,
            spots,
            p,
            target,
            Moment::Event(event_id),
            false,
            #[trigger] entries[k],
        )) by {
        assert(is_for_chosen(
            events,
            project.id,
            root,
            cwd,
            spots,
            files,
            event_id,
            false,
            entries[k],
        ));
        let j = choose|j: int|
            0 <= j < files.len() && (confined_below(root, #[trigger] chosen_path(cwd, files, j))
                matches Ok(target) && is_brought(
                events,
                project.id,
                spots,
                chosen_path(cwd, files, j),
                target,
                Moment::Event(event_id),
                false,
                entries[k],
            ));
        assert(changed_after(events, project.id, folder, event_id, files[j]));
    }
}

} // verus!
