//! What holds of the record as a whole, over several operations.
use vstd::prelude::*;

use crate::agent_events::{
    canonical_json, event_received, event_settled, problem, request_digest, AgentEvent, EventStep,
};
use crate::db::checkpoints::checkpoint_saved;
use crate::db::claims::{
    boundary_opened, claim_count, claims_event, contested, on_event, owned, ownership,
    paths_checked,
};
use crate::db::events::{
    event_added, events_pruned, is_deletion, surviving, touches, touching_upto, NewEvent,
};
use crate::db::integration::{answer_recorded, is_answer, is_replay, reused_key_text};
use crate::db::projects::project_gotten;
use crate::db::recoveries::{
    are_entries, is_recovery, owned_entries, recovery_by_ref, recovery_created,
};
use crate::db::runs::{
    active_of, active_windows_of, is_external, is_run, run_completed, run_started, NewRun,
};
use crate::db::states::{are_live, is_live};
use crate::db::{Claim, Tables};
use crate::error::Error;
use crate::hex;
use crate::models::{
    Checkpoint, FileEvent, Recovery, RecoveryEntry, Run, RunBoundary, WatchedProject,
};
use crate::path;
use crate::places::Place;
use crate::recoveries::{
    blocked_paths, ownership_problem, row_for, row_view, rows_for, rows_view, run_recovery_created,
    RowView,
};
use crate::recovery_apply::{apply_begun, apply_ended, plan_of, recovery_name, ApplyStart,
    AppliedRecovery};
use crate::restore::{state_at_id, ActionView, EntryView, RestoreKind, SourceView, StateView};
use crate::restore_fs::{confined_below, is_confined, read_at, Spot};
use crate::restore_report::current_state;
use crate::retention::{
    cutoff_at, held_hash, is_orphan, is_pruned, paths_of, PrunePlan, RetentionConfig, StoredFile,
};
use crate::rows;
use crate::rows::{Order, Row};
use crate::sorted;
use crate::text;

pub mod asking;
pub mod choosing;
pub mod claiming;
pub mod finding;
pub mod grouping;
pub mod hooking;
pub mod keeping;
pub mod leading;
pub mod looking;
pub mod moments;
pub mod recording;
pub mod reporting;
pub mod requesting;
pub mod restoring;
pub mod saving;
pub mod settling;
pub mod tasks;
pub mod telling;
pub mod writing;

verus! {

// ── what was recorded can be brought back ───────────────────────────

/// A version that was recorded is what a restore to that change gives back, and
/// to any later one as long as nothing touches the file again.
pub proof fn lemma_recorded_version_is_restored(
    events: Seq<FileEvent>,
    project_id: i64,
    event: FileEvent,
    upto: i64,
)
    requires
        rows::ids_grow(events),
        events.contains(event),
        event.project_id == project_id,
        !is_deletion(event),
        event.current_hash is Some,
        event.id <= upto,
        forall|i: int|
            0 <= i < events.len() && (#[trigger] events[i]).project_id == project_id && touches(
                events[i],
                event.path@,
            ) && events[i].id <= upto ==> events[i].id <= event.id,
    ensures
        state_at_id(events, project_id, event.path@, upto) == StateView::Present(
            SourceView {
                hash: event.current_hash->0@,
                timestamp: event.timestamp,
                kind: RestoreKind::Exact,
            },
        ),
{
    let keep = touching_upto(project_id, event.path@, upto);
    assert(keep(event));
    assert forall|i: int| 0 <= i < events.len() && keep(#[trigger] events[i]) implies events[i]
        == event || rows::row_before(Order::HighestId, event, events[i]) by {
        if events[i].id == event.id {
            let k = choose|k: int| 0 <= k < events.len() && events[k] == event;
            if i < k {
                assert(events[i].row_id() < events[k].row_id());
            } else if k < i {
                assert(events[k].row_id() < events[i].row_id());
            }
        }
    }
    assert(rows::is_first(events, Order::HighestId, keep, Some(event)));
    rows::lemma_pick(events, Order::HighestId, keep, Some(event));
}

/// What comes later does not change what a restore to an earlier change gives
/// back, where that change or one before it touched the file.
pub proof fn lemma_later_changes_do_not_matter(
    before: Tables,
    after: Tables,
    project_id: i64,
    at: i64,
    new: NewEvent,
    result: Result<(), Error>,
    of_project: i64,
    path: Seq<char>,
    upto: i64,
)
    requires
        before.wf(),
        event_added(before, after, project_id, at, new, result),
        upto <= before.last.events,
        exists|i: int|
            0 <= i < before.events.len() && (#[trigger] before.events[i]).project_id == of_project
                && touches(before.events[i], path) && before.events[i].id <= upto,
    ensures
        state_at_id(after.events, of_project, path, upto) == state_at_id(
            before.events,
            of_project,
            path,
            upto,
        ),
{
    if result is Ok {
        let keep = touching_upto(of_project, path, upto);
        let first = rows::pick(before.events, Order::HighestId, keep);
        rows::lemma_picked(before.events, Order::HighestId, keep);
        let i = choose|i: int|
            0 <= i < before.events.len() && (#[trigger] before.events[i]).project_id == of_project
                && touches(before.events[i], path) && before.events[i].id <= upto;
        assert(keep(before.events[i]));
        assert(first is Some);
        let row = first->0;
        let k = choose|k: int| 0 <= k < before.events.len() && before.events[k] == row;
        assert(after.events[k] == row);
        assert forall|j: int| 0 <= j < after.events.len() && keep(
            #[trigger] after.events[j],
        ) implies after.events[j] == row || rows::row_before(
            Order::HighestId,
            row,
            after.events[j],
        ) by {
            if j < before.events.len() {
                assert(after.events[j] == before.events[j]);
            }
        }
        assert(rows::is_first(after.events, Order::HighestId, keep, first));
        rows::lemma_pick(after.events, Order::HighestId, keep, first);
    }
}

/// A file that was deleted last is absent for a restore to that change.
pub proof fn lemma_deleted_file_is_absent(
    events: Seq<FileEvent>,
    project_id: i64,
    event: FileEvent,
    upto: i64,
)
    requires
        rows::ids_grow(events),
        events.contains(event),
        event.project_id == project_id,
        is_deletion(event),
        event.id <= upto,
        forall|i: int|
            0 <= i < events.len() && (#[trigger] events[i]).project_id == project_id && touches(
                events[i],
                event.path@,
            ) && events[i].id <= upto ==> events[i].id <= event.id,
    ensures
        state_at_id(events, project_id, event.path@, upto) == StateView::Absent,
{
    let keep = touching_upto(project_id, event.path@, upto);
    assert(keep(event));
    assert forall|i: int| 0 <= i < events.len() && keep(#[trigger] events[i]) implies events[i]
        == event || rows::row_before(Order::HighestId, event, events[i]) by {
        if events[i].id == event.id {
            let k = choose|k: int| 0 <= k < events.len() && events[k] == event;
            if i < k {
                assert(events[i].row_id() < events[k].row_id());
            } else if k < i {
                assert(events[k].row_id() < events[i].row_id());
            }
        }
    }
    assert(rows::is_first(events, Order::HighestId, keep, Some(event)));
    rows::lemma_pick(events, Order::HighestId, keep, Some(event));
}

// ── saying a thing twice ────────────────────────────────────────────

/// A Run that is started again under its external id is the same Run, and nothing
/// changes.
pub proof fn lemma_run_start_replay(
    before: Tables,
    after: Tables,
    later: Tables,
    project_id: i64,
    new: NewRun,
    again: NewRun,
    now: i64,
    then_at: i64,
    run: Run,
    result: Result<Run, Error>,
)
    requires
        new.external_id is Some,
        again.external_id == new.external_id,
        again.attribution_mode == new.attribution_mode,
        run_started(before, after, project_id, new, now, Ok(run)),
        run_started(after, later, project_id, again, then_at, result),
    ensures
        later == after,
        result == Ok::<Run, Error>(run),
{
    let keep = is_external(project_id, new.external_id->0);
    rows::lemma_lookup_pushed(before.sessions, keep, run);
}

/// A folder that is asked for again is the same project, and nothing changes.
pub proof fn lemma_project_replay(
    before: Tables,
    after: Tables,
    later: Tables,
    root: Seq<char>,
    now: i64,
    then_at: i64,
    project: WatchedProject,
    result: Result<WatchedProject, Error>,
)
    requires
        before.wf(),
        after.wf(),
        project_gotten(before, after, root, now, Ok(project)),
        project_gotten(after, later, root, then_at, result),
    ensures
        later == after,
        result == Ok::<WatchedProject, Error>(project),
{
    assert(after.projects.contains(project)) by {
        if !(exists|i: int|
            0 <= i < before.projects.len() && crate::db::projects::is_root(root)(
                #[trigger] before.projects[i],
            )) {
            assert(after.projects[after.projects.len() - 1] == project);
        }
    }
    let k = choose|k: int| 0 <= k < after.projects.len() && after.projects[k] == project;
    assert(crate::db::projects::is_root(root)(after.projects[k]));
    let other = result->Ok_0;
    let m = choose|m: int| 0 <= m < after.projects.len() && after.projects[m] == other;
    if k < m {
        assert(!crate::db::same_root(after.projects[k], after.projects[m]));
    } else if m < k {
        assert(!crate::db::same_root(after.projects[m], after.projects[k]));
    }
}

/// A checkpoint that is saved again under its name is the same checkpoint, and
/// nothing changes.
pub proof fn lemma_checkpoint_replay(
    before: Tables,
    after: Tables,
    later: Tables,
    project_id: i64,
    run_id: Option<i64>,
    name: Seq<char>,
    at: i64,
    intent: Option<Seq<char>>,
    now: i64,
    then_at: i64,
    saved: (Checkpoint, bool),
    result: Result<(Checkpoint, bool), Error>,
)
    requires
        checkpoint_saved(before, after, project_id, run_id, name, at, intent, now, Ok(saved)),
        checkpoint_saved(
            after,
            later,
            project_id,
            run_id,
            name,
            then_at,
            intent,
            then_at,
            result,
        ),
    ensures
        later == after,
        result == Ok::<(Checkpoint, bool), Error>((saved.0, false)),
{
    let keep = crate::db::checkpoints::takes_name(project_id, run_id, name);
    rows::lemma_lookup_pushed(before.checkpoints, keep, saved.0);
}

/// A change that is announced again with its paths is the same change, and
/// nothing changes.
pub proof fn lemma_change_replay(
    before: Tables,
    after: Tables,
    later: Tables,
    run_id: i64,
    change: Seq<char>,
    paths: Seq<Seq<char>>,
    now: i64,
    then_at: i64,
    boundary: RunBoundary,
    result: Result<RunBoundary, Error>,
)
    requires
        before.wf(),
        boundary_opened(before, after, run_id, change, paths, now, Ok(boundary)),
        boundary_opened(after, later, run_id, change, paths, then_at, result),
    ensures
        later == after,
        result == Ok::<RunBoundary, Error>(boundary),
{
    let keep = crate::db::claims::is_change(run_id, change);
    let run = rows::lookup(before.sessions, is_run(run_id))->0;
    assert(after.sessions == before.sessions);
    assert(after.projects == before.projects);
    assert forall|e: Seq<char>| paths_checked(after, run, paths, Err(e)) implies paths_checked(
        before,
        run,
        paths,
        Err(e),
    ) by {}
    match rows::lookup(before.boundaries, keep) {
        Some(existing) => {},
        None => {
            rows::lemma_lookup_pushed(before.boundaries, keep, boundary);
            let list = choose|list: Seq<Seq<char>>|
                crate::sorted::is_sorted_set(paths, list)
                    && #[trigger] crate::db::claims::paths_announced(
                    before.boundary_paths,
                    after.boundary_paths,
                    boundary.id,
                    list,
                );
            assert forall|p: Seq<char>|
                crate::db::claims::announced(after.boundary_paths, boundary.id, p)
                    <==> #[trigger] paths.contains(p) by {
                let n = before.boundary_paths.len() as int;
                if paths.contains(p) {
                    assert(list.contains(p));
                    let k = choose|k: int| 0 <= k < list.len() && list[k] == p;
                    assert(after.boundary_paths[n + k].path@ == p);
                }
                if crate::db::claims::announced(after.boundary_paths, boundary.id, p) {
                    let k = choose|k: int|
                        0 <= k < after.boundary_paths.len() && (
                        #[trigger] after.boundary_paths[k]).boundary_id == boundary.id
                            && after.boundary_paths[k].path@ == p;
                    if k < n {
                        assert(after.boundary_paths[k] == before.boundary_paths[k]);
                        assert(before.boundary_paths[k].boundary_id <= before.last.boundaries);
                    }
                    assert(list[k - n] == p);
                    assert(list.contains(p));
                }
            }
        },
    }
}

/// An answer that was recorded is given again for its request, and another
/// request under its key is refused.
pub proof fn lemma_answer_replay(
    before: Tables,
    after: Tables,
    key: Seq<char>,
    request_hash: Seq<char>,
    run_id: Option<i64>,
    event_type: Seq<char>,
    response: Seq<char>,
    now: i64,
    other_hash: Seq<char>,
    result: Result<Option<String>, Error>,
)
    requires
        answer_recorded(
            before,
            after,
            key,
            request_hash,
            run_id,
            event_type,
            response,
            now,
            Ok(()),
        ),
        is_replay(after, key, other_hash, result),
    ensures
        other_hash == request_hash ==> (result matches Ok(answer) && text::is_some_text(
            answer,
            response,
        )),
        other_hash != request_hash && request_hash.len() > 0 ==> (result matches Err(e) && e@
            == reused_key_text(key)),
{
    rows::lemma_lookup_pushed(before.integration, is_answer(key), after.integration.last());
}

/// An event that is settled again gets the answer that it got, and nothing
/// changes.
pub proof fn lemma_event_replay(
    before: Tables,
    after: Tables,
    later: Tables,
    event: AgentEvent,
    request_hash: Seq<char>,
    run_id: Option<i64>,
    response: Seq<char>,
    other_run: Option<i64>,
    other_response: Seq<char>,
    now: i64,
    then_at: i64,
    answer: String,
    result: Result<String, Error>,
)
    requires
        event_settled(before, after, event, request_hash, run_id, response, now, Ok(answer)),
        event_settled(
            after,
            later,
            event,
            request_hash,
            other_run,
            other_response,
            then_at,
            result,
        ),
    ensures
        later == after,
        result matches Ok(out) && out@ == answer@,
{
    let key = event.idempotency_key@;
    let known = choose|known: Result<Option<String>, Error>|
        {
            &&& #[trigger] is_replay(before, key, request_hash, known)
            &&& match known {
                Err(e) => false,
                Ok(Some(a)) => after == before && answer@ == a@,
                Ok(None) => exists|done: Result<(), Error>|
                    {
                        &&& #[trigger] answer_recorded(
                            before,
                            after,
                            key,
                            request_hash,
                            run_id,
                            event.event@,
                            response,
                            now,
                            done,
                        )
                        &&& match done {
                            Ok(_) => answer@ == response,
                            Err(e) => false,
                        }
                    },
            }
        };
    match rows::lookup(before.integration, is_answer(key)) {
        Some(a) => {},
        None => {
            rows::lemma_lookup_pushed(
                before.integration,
                is_answer(key),
                after.integration.last(),
            );
        },
    }
}

/// The answer that settling an event gives is on record under its key afterwards,
/// with the digest of the request or, where it was there before, with its own.
proof fn lemma_settled_row(
    before: Tables,
    after: Tables,
    event: AgentEvent,
    request_hash: Seq<char>,
    run_id: Option<i64>,
    response: Seq<char>,
    now: i64,
    answer: String,
)
    requires
        event_settled(before, after, event, request_hash, run_id, response, now, Ok(answer)),
    ensures
        rows::lookup(after.integration, is_answer(event.idempotency_key@)) matches Some(a)
            && a.response_json@ == answer@ && (a.request_hash@ == request_hash || (
        a.request_hash@.len() == 0 && rows::lookup(
            before.integration,
            is_answer(event.idempotency_key@),
        ) == Some(a))),
{
    let key = event.idempotency_key@;
    match rows::lookup(before.integration, is_answer(key)) {
        Some(a) => {},
        None => {
            rows::lemma_lookup_pushed(
                before.integration,
                is_answer(key),
                after.integration.last(),
            );
        },
    }
}

/// Whether no answer from before requests were recorded stands under a key. Such
/// an answer fits all requests.
pub open spec fn is_dated_key(t: Tables, key: Seq<char>) -> bool {
    rows::lookup(t.integration, is_answer(key)) matches Some(a) ==> a.request_hash@.len() > 0
}

/// An event that is settled under the key of another request is refused, and
/// nothing changes.
pub proof fn lemma_other_request_is_refused(
    before: Tables,
    after: Tables,
    later: Tables,
    event: AgentEvent,
    request_hash: Seq<char>,
    run_id: Option<i64>,
    response: Seq<char>,
    now: i64,
    answer: String,
    other: AgentEvent,
    other_hash: Seq<char>,
    other_run: Option<i64>,
    other_response: Seq<char>,
    then_at: i64,
    result: Result<String, Error>,
)
    requires
        event_settled(before, after, event, request_hash, run_id, response, now, Ok(answer)),
        request_hash.len() > 0,
        is_dated_key(before, event.idempotency_key@),
        event_settled(
            after,
            later,
            other,
            other_hash,
            other_run,
            other_response,
            then_at,
            result,
        ),
        other.idempotency_key@ == event.idempotency_key@,
        other_hash != request_hash,
    ensures
        later == after,
        result matches Err(e) && e@ == reused_key_text(event.idempotency_key@),
{
    lemma_settled_row(before, after, event, request_hash, run_id, response, now, answer);
}

/// Once a request was answered, a request under its key that is the same JSON gets
/// the same answer again, and one that is not is refused; neither changes anything,
/// for the history is only read. Two requests that are not the same JSON are taken
/// to have digests that differ.
pub proof fn lemma_request_is_answered_once(
    before: Tables,
    after: Tables,
    payload: Seq<char>,
    event: AgentEvent,
    run_id: Option<i64>,
    response: Seq<char>,
    now: i64,
    answer: String,
    other_payload: Seq<char>,
    other: AgentEvent,
    result: Result<EventStep, Error>,
)
    requires
        canonical_json(payload) is Ok,
        request_digest(payload)->Ok_0.len() > 0,
        event_settled(
            before,
            after,
            event,
            request_digest(payload)->Ok_0,
            run_id,
            response,
            now,
            Ok(answer),
        ),
        other.idempotency_key@ == event.idempotency_key@,
        problem(other) is None,
        event_received(after, other_payload, other, result),
    ensures
        canonical_json(other_payload) == canonical_json(payload) ==> (result matches Ok(
            EventStep::Answered(out),
        ) && out@ == answer@),
        (canonical_json(other_payload) matches Ok(bytes) && hex::sha256(bytes) != hex::sha256(
            canonical_json(payload)->Ok_0,
        ) && is_dated_key(before, event.idempotency_key@)) ==> (result matches Err(e) && e@
            == reused_key_text(event.idempotency_key@)),
{
    let digest = request_digest(payload)->Ok_0;
    lemma_settled_row(before, after, event, digest, run_id, response, now, answer);
    match canonical_json(other_payload) {
        Ok(bytes) => {
            if request_digest(other_payload)->Ok_0 == digest {
                hex::lemma_hex_injective(
                    hex::sha256(bytes),
                    hex::sha256(canonical_json(payload)->Ok_0),
                );
            }
        },
        Err(_) => {},
    }
}

// ── Runs ────────────────────────────────────────────────────────────

/// Whether no active Run of a project goes by time while another is active.
pub open spec fn modes_apart(sessions: Seq<Run>) -> bool {
    forall|i: int, j: int|
        0 <= i < j < sessions.len() && (#[trigger] sessions[i]).ended_at is None && (
        #[trigger] sessions[j]).ended_at is None && sessions[i].project_id == sessions[j].project_id
            ==> sessions[i].attribution_mode@ != "window"@ && sessions[j].attribution_mode@
            != "window"@
}

/// A new Run keeps the Runs that go by time alone.
pub proof fn lemma_start_keeps_modes_apart(
    before: Tables,
    after: Tables,
    project_id: i64,
    new: NewRun,
    now: i64,
    result: Result<Run, Error>,
)
    requires
        before.wf(),
        modes_apart(before.sessions),
        run_started(before, after, project_id, new, now, result),
    ensures
        modes_apart(after.sessions),
{
    rows::lemma_picked(before.sessions, Order::Newest, active_of(project_id));
    rows::lemma_picked(before.sessions, Order::Newest, active_windows_of(project_id));
    if after.sessions != before.sessions {
        let n = before.sessions.len() as int;
        let run = after.sessions[n];
        assert forall|i: int, j: int|
            0 <= i < j < after.sessions.len() && (#[trigger] after.sessions[i]).ended_at is None && (
            #[trigger] after.sessions[j]).ended_at is None && after.sessions[i].project_id
                == after.sessions[j].project_id implies after.sessions[i].attribution_mode@
            != "window"@ && after.sessions[j].attribution_mode@ != "window"@ by {
            assert(after.sessions[i] == before.sessions[i]);
            if j < n {
                assert(after.sessions[j] == before.sessions[j]);
            } else if new.attribution_mode == "window"@ {
                assert(!active_of(project_id)(before.sessions[i]));
            } else {
                assert(!active_windows_of(project_id)(before.sessions[i]));
            }
        }
    }
}

/// A Run that ends keeps the Runs that go by time alone.
pub proof fn lemma_end_keeps_modes_apart(
    before: Tables,
    after: Tables,
    run_id: i64,
    status: Seq<char>,
    now: i64,
    result: Result<Run, Error>,
)
    requires
        modes_apart(before.sessions),
        run_completed(before, after, run_id, status, now, result),
    ensures
        modes_apart(after.sessions),
{
    if after.sessions != before.sessions {
        let run = rows::lookup(before.sessions, is_run(run_id))->0;
        let to = result->Ok_0;
        let at = choose|at: int|
            0 <= at < before.sessions.len() && before.sessions[at] == run && after.sessions
                == #[trigger] before.sessions.update(at, to);
        assert forall|i: int, j: int|
            0 <= i < j < after.sessions.len() && (#[trigger] after.sessions[i]).ended_at is None && (
            #[trigger] after.sessions[j]).ended_at is None && after.sessions[i].project_id
                == after.sessions[j].project_id implies after.sessions[i].attribution_mode@
            != "window"@ && after.sessions[j].attribution_mode@ != "window"@ by {
            assert(i != at && j != at);
            assert(after.sessions[i] == before.sessions[i]);
            assert(after.sessions[j] == before.sessions[j]);
        }
    }
}

/// The row with an id is looked up where ids grow.
proof fn lemma_lookup_run(sessions: Seq<Run>, id: i64, at: int)
    requires
        rows::ids_grow(sessions),
        0 <= at < sessions.len(),
        sessions[at].id == id,
    ensures
        rows::lookup(sessions, is_run(id)) == Some(sessions[at]),
{
    assert forall|k: int| 0 <= k < at implies !is_run(id)(#[trigger] sessions[k]) by {
        assert(sessions[k].row_id() < sessions[at].row_id());
    }
    rows::lemma_lookup(sessions, is_run(id), Some(at));
}

/// A Run that was ended stays as it ended.
pub proof fn lemma_run_ends_once(
    before: Tables,
    after: Tables,
    later: Tables,
    run_id: i64,
    status: Seq<char>,
    other_status: Seq<char>,
    now: i64,
    then_at: i64,
    run: Run,
    result: Result<Run, Error>,
)
    requires
        after.wf(),
        run_completed(before, after, run_id, status, now, Ok(run)),
        run_completed(after, later, run_id, other_status, then_at, result),
    ensures
        run.ended_at is Some,
        later == after,
        result == Ok::<Run, Error>(run),
{
    let from = rows::lookup(before.sessions, is_run(run_id))->0;
    rows::lemma_lookup_kept(before.sessions, is_run(run_id));
    if from.ended_at is None {
        let at = choose|at: int|
            0 <= at < before.sessions.len() && before.sessions[at] == from && after.sessions
                == #[trigger] before.sessions.update(at, run);
        assert(after.sessions[at] == run);
        lemma_lookup_run(after.sessions, run_id, at);
    }
}

// ── who changed what ────────────────────────────────────────────────

/// Two different claims on an event are counted.
proof fn lemma_two_claims(claims: Seq<Claim>, a: int, b: int, event_id: i64)
    requires
        0 <= a < b < claims.len(),
        claims[a].event_id == event_id,
        claims[b].event_id == event_id,
    ensures
        claim_count(claims, event_id) > 1,
    decreases claims.len(),
{
    let front = claims.drop_last();
    if b == claims.len() - 1 {
        rows::lemma_kept_some(front, on_event(event_id));
        assert(front[a] == claims[a]);
        assert(on_event(event_id)(front[a]));
    } else {
        assert(front[a] == claims[a]);
        assert(front[b] == claims[b]);
        lemma_two_claims(front, a, b, event_id);
    }
}

/// A change that two Runs claim is a collision for each.
pub proof fn lemma_two_claims_collide(
    t: Tables,
    run: Run,
    other: i64,
    event: FileEvent,
    path: Seq<char>,
)
    requires
        other != run.id,
        t.events.contains(event),
        event.project_id == run.project_id,
        touches(event, path),
        claims_event(t.claims, run.id, event.id),
        claims_event(t.claims, other, event.id),
    ensures
        ownership(t, run, path) == "collision"@,
{
    let x = Claim { session_id: run.id, event_id: event.id };
    let y = Claim { session_id: other, event_id: event.id };
    let a = choose|a: int| 0 <= a < t.claims.len() && t.claims[a] == x;
    let b = choose|b: int| 0 <= b < t.claims.len() && t.claims[b] == y;
    if a < b {
        lemma_two_claims(t.claims, a, b, event.id);
    } else {
        lemma_two_claims(t.claims, b, a, event.id);
    }
    let k = choose|k: int| 0 <= k < t.events.len() && t.events[k] == event;
    assert(owned(t, run, path)(t.events[k]));
    assert(contested(t, run, path)(t.events[k]));
}

/// Where a Run has a file to itself, every change to it since the Run began is
/// claimed by that Run and no other.
pub proof fn lemma_exclusive_is_alone(t: Tables, run: Run, path: Seq<char>, event: FileEvent)
    requires
        ownership(t, run, path) == "exclusive"@,
        t.events.contains(event),
        event.project_id == run.project_id,
        event.id > run.start_event_id,
        touches(event, path),
    ensures
        claims_event(t.claims, run.id, event.id),
        claim_count(t.claims, event.id) == 1,
{
    reveal_strlit("exclusive");
    reveal_strlit("collision");
    reveal_strlit("interleaved");
    reveal_strlit("unattributed");
    assert("exclusive"@[0] == 'e' && "collision"@[0] == 'c' && "interleaved"@[0] == 'i'
        && "unattributed"@[0] == 'u');
    let k = choose|k: int| 0 <= k < t.events.len() && t.events[k] == event;
    assert(!crate::db::claims::foreign(t, run, path)(t.events[k]));
}

/// A path that a reported Run does not have to itself blocks.
proof fn lemma_blocked(
    t: Tables,
    project: WatchedProject,
    base: Seq<char>,
    run: Run,
    disk: Seq<Place>,
    paths: Seq<Seq<char>>,
    i: int,
)
    requires
        0 <= i < paths.len(),
        rows::lookup(t.sessions, is_run(run.id)) matches Some(known) && ownership(
            t,
            known,
            crate::places::leads_to(disk, base, paths[i]).0,
        ) != "exclusive"@,
    ensures
        match blocked_paths(t, project, base, run, disk, paths) {
            Err(_) => true,
            Ok(list) => list.len() > 0,
        },
    decreases paths.len(),
{
    if i < paths.len() - 1 {
        assert(paths.drop_last()[i] == paths[i]);
        lemma_blocked(t, project, base, run, disk, paths.drop_last(), i);
    }
}

/// A file that a reported Run does not have to itself cannot be recovered for
/// that Run, and nothing changes.
pub proof fn lemma_shared_file_is_not_recovered(
    before: Tables,
    after: Tables,
    project: WatchedProject,
    base: Seq<char>,
    run: Run,
    paths: Seq<Seq<char>>,
    request: Seq<char>,
    kind: Seq<char>,
    confidence: Seq<char>,
    ambiguity: Option<Seq<char>>,
    disk: Seq<Place>,
    spots: Seq<Spot>,
    now: i64,
    result: Result<Recovery, Error>,
    i: int,
)
    requires
        run.attribution_mode@ == "reported"@,
        0 <= i < paths.len(),
        rows::lookup(before.sessions, is_run(run.id)) == Some(run),
        ownership(before, run, crate::places::leads_to(disk, base, paths[i]).0) != "exclusive"@,
        run_recovery_created(
            before,
            after,
            project,
            base,
            run,
            paths,
            request,
            kind,
            confidence,
            ambiguity,
            disk,
            spots,
            now,
            result,
        ),
    ensures
        after == before,
        result is Err,
{
    lemma_blocked(before, project, base, run, disk, paths, i);
}

/// Nothing stands in the way of recovering files that a reported Run has to
/// itself.
pub proof fn lemma_own_files_are_not_blocked(
    t: Tables,
    project: WatchedProject,
    base: Seq<char>,
    run: Run,
    disk: Seq<Place>,
    paths: Seq<Seq<char>>,
)
    requires
        rows::lookup(t.sessions, is_run(run.id)) == Some(run),
        forall|i: int|
            0 <= i < paths.len() ==> path::is_at_or_below(
                crate::places::leads_to(disk, base, #[trigger] paths[i]).0,
                crate::places::real_root(disk, project.root_path@),
            ) && ownership(t, run, crate::places::leads_to(disk, base, paths[i]).0)
                == "exclusive"@,
    ensures
        ownership_problem(t, project, base, run, disk, paths) is None,
{
    lemma_none_blocked(t, project, base, run, disk, paths);
}

/// No path blocks.
proof fn lemma_none_blocked(
    t: Tables,
    project: WatchedProject,
    base: Seq<char>,
    run: Run,
    disk: Seq<Place>,
    paths: Seq<Seq<char>>,
)
    requires
        rows::lookup(t.sessions, is_run(run.id)) == Some(run),
        forall|i: int|
            0 <= i < paths.len() ==> path::is_at_or_below(
                crate::places::leads_to(disk, base, #[trigger] paths[i]).0,
                crate::places::real_root(disk, project.root_path@),
            ) && ownership(t, run, crate::places::leads_to(disk, base, paths[i]).0)
                == "exclusive"@,
    ensures
        blocked_paths(t, project, base, run, disk, paths) == Ok::<Seq<Seq<char>>, Seq<char>>(
            Seq::empty(),
        ),
    decreases paths.len(),
{
    if paths.len() > 0 {
        let front = paths.drop_last();
        assert forall|i: int| 0 <= i < front.len() implies path::is_at_or_below(
            crate::places::leads_to(disk, base, #[trigger] front[i]).0,
            crate::places::real_root(disk, project.root_path@),
        ) && ownership(t, run, crate::places::leads_to(disk, base, front[i]).0) == "exclusive"@ by {
            assert(front[i] == paths[i]);
        }
        lemma_none_blocked(t, project, base, run, disk, front);
        assert(paths[paths.len() - 1] == paths.last());
    }
}

// ── what was previewed is what is applied ───────────────────────────

/// What a plan does to a file, whatever kind of version it is.
pub open spec fn as_saved(action: ActionView) -> ActionView {
    match action {
        ActionView::Write(source) => ActionView::Write(
            SourceView { kind: RestoreKind::Exact, ..source },
        ),
        ActionView::Delete => ActionView::Delete,
    }
}

/// What is done to a file when a plan is applied: what the preview said, and only
/// where the file is as the preview found it.
pub open spec fn as_applied(e: EntryView, state: (bool, Option<Seq<char>>)) -> EntryView {
    EntryView {
        path: e.path,
        rel_path: e.path,
        action: as_saved(e.action),
        expected: Some(state),
    }
}

/// The state in which a preview found the file of an entry.
pub open spec fn found_in(spots: Seq<Spot>, e: EntryView) -> (bool, Option<Seq<char>>) {
    match current_state(read_at(spots, e.path), e.path) {
        Ok(state) => state,
        Err(_) => (false, None),
    }
}

/// Whether an entry of a preview would change its file: it writes contents that were
/// not found there, or takes away a file that was.
pub open spec fn is_change(spots: Seq<Spot>, e: EntryView) -> bool {
    saving::would_change(e.action, found_in(spots, e))
}

/// Whether a row was saved for an entry of a preview.
spec fn is_saved_for(
    root: Seq<char>,
    entries: Seq<EntryView>,
    spots: Seq<Spot>,
    i: int,
    row: RowView,
) -> bool {
    0 <= i < entries.len() && row_for(root, entries[i], found_in(spots, entries[i])) == Some(row)
}

/// Whether a row was saved for some entry of a preview.
spec fn is_saved(
    root: Seq<char>,
    entries: Seq<EntryView>,
    spots: Seq<Spot>,
    row: RowView,
) -> bool {
    exists|i: int| is_saved_for(root, entries, spots, i, row)
}

/// Every row is saved for an entry, and every entry that changes something has a
/// row.
proof fn lemma_rows_for(root: Seq<char>, entries: Seq<EntryView>, spots: Seq<Spot>)
    requires
        rows_for(root, entries, spots) is Ok,
    ensures
        forall|k: int|
            0 <= k < rows_for(root, entries, spots)->Ok_0.len() ==> is_saved(
                root,
                entries,
                spots,
                #[trigger] rows_for(root, entries, spots)->Ok_0[k],
            ),
        forall|i: int|
            0 <= i < entries.len() && is_change(spots, #[trigger] entries[i]) ==> rows_for(
                root,
                entries,
                spots,
            )->Ok_0.contains(row_for(root, entries[i], found_in(spots, entries[i]))->0),
    decreases entries.len(),
{
    if entries.len() > 0 {
        let front = entries.drop_last();
        lemma_rows_for(root, front, spots);
        let before = rows_for(root, front, spots)->Ok_0;
        let after = rows_for(root, entries, spots)->Ok_0;
        let n = entries.len() - 1;
        let e = entries.last();
        assert(found_in(spots, e) == current_state(read_at(spots, e.path), e.path)->Ok_0);
        assert forall|k: int| 0 <= k < after.len() implies is_saved(
            root,
            entries,
            spots,
            #[trigger] after[k],
        ) by {
            if k < before.len() {
                assert(after[k] == before[k]);
                let i = choose|i: int| is_saved_for(root, front, spots, i, before[k]);
                assert(front[i] == entries[i]);
                assert(is_saved_for(root, entries, spots, i, after[k]));
            } else {
                assert(is_saved_for(root, entries, spots, n, after[k]));
            }
        }
        assert forall|i: int| 0 <= i < entries.len() && is_change(
            spots,
            #[trigger] entries[i],
        ) implies after.contains(row_for(root, entries[i], found_in(spots, entries[i]))->0) by {
            let row = row_for(root, entries[i], found_in(spots, entries[i]))->0;
            if i < n {
                assert(front[i] == entries[i]);
                assert(before.contains(row));
                let k = choose|k: int| 0 <= k < before.len() && before[k] == row;
                assert(after[k] == row);
            } else {
                assert(after.last() == row);
            }
        }
    }
}

/// A file of a project is found again under its whole path.
proof fn lemma_confined_again(root: Seq<char>, p: Seq<char>)
    requires
        root.len() > 0,
        is_confined(p),
    ensures
        confined_below(root, path::join_spec(root, p)) == Ok::<Seq<char>, Seq<char>>(p),
{
    let list = path::names(p);
    path::lemma_path_keeps_names(false, list);
    path::lemma_join_names(root, p);
    assert(!list.contains(".."@)) by {
        if list.contains(".."@) {
            let k = choose|k: int| 0 <= k < list.len() && list[k] == ".."@;
            assert(path::is_plain(list[k]));
        }
    }
}

/// Saved rows are read back as the entries that they were saved for.
proof fn lemma_plan_of(
    root: Seq<char>,
    entries: Seq<EntryView>,
    spots: Seq<Spot>,
    rows: Seq<RecoveryEntry>,
    now: i64,
)
    requires
        root.len() > 0,
        forall|i: int| 0 <= i < entries.len() ==> is_confined((#[trigger] entries[i]).path),
        forall|k: int|
            0 <= k < rows.len() ==> is_saved(root, entries, spots, row_view(#[trigger] rows[k])),
    ensures
        plan_of(root, rows, now) is Ok,
        plan_of(root, rows, now)->Ok_0.len() == rows.len(),
        forall|k: int, i: int|
            #![trigger rows[k], entries[i]]
            0 <= k < rows.len() && is_saved_for(root, entries, spots, i, row_view(rows[k]))
                ==> plan_of(root, rows, now)->Ok_0[k] == as_applied(
                entries[i],
                found_in(spots, entries[i]),
            ),
    decreases rows.len(),
{
    reveal_strlit("WRITE");
    reveal_strlit("DELETE");
    assert("WRITE"@[0] != "DELETE"@[0]);
    if rows.len() > 0 {
        let front = rows.drop_last();
        assert forall|k: int| 0 <= k < front.len() implies is_saved(
            root,
            entries,
            spots,
            row_view(#[trigger] front[k]),
        ) by {
            assert(front[k] == rows[k]);
        }
        lemma_plan_of(root, entries, spots, front, now);
        let n = rows.len() - 1;
        let row = rows[n];
        let j = choose|j: int| is_saved_for(root, entries, spots, j, row_view(row));
        let e = entries[j];
        assert(is_confined(e.path));
        lemma_confined_again(root, e.path);
        assert(row_view(row).path == path::join_spec(root, e.path));
        let before = plan_of(root, front, now)->Ok_0;
        let after = plan_of(root, rows, now)->Ok_0;
        assert(after == before.push(as_applied(e, found_in(spots, e))));
        assert forall|k: int, i: int|
            #![trigger rows[k], entries[i]]
            0 <= k < rows.len() && is_saved_for(
                root,
                entries,
                spots,
                i,
                row_view(rows[k]),
            ) implies after[k] == as_applied(entries[i], found_in(spots, entries[i])) by {
            if k < n {
                assert(front[k] == rows[k]);
                assert(is_saved_for(root, entries, spots, i, row_view(front[k])));
                assert(after[k] == before[k]);
            } else {
                let f = entries[i];
                assert(is_confined(f.path));
                lemma_confined_again(root, f.path);
                assert(f.path == e.path);
            }
        }
    }
}

/// The rows of a new plan are those that were given.
proof fn lemma_new_rows(
    before: Tables,
    after: Tables,
    project_id: i64,
    run_id: Option<i64>,
    request: Seq<char>,
    kind: Seq<char>,
    confidence: Seq<char>,
    ambiguity: Option<Seq<char>>,
    list: Seq<RecoveryEntry>,
    now: i64,
    recovery: Recovery,
    rows: Seq<RecoveryEntry>,
)
    requires
        before.wf(),
        recovery_created(
            before,
            after,
            project_id,
            run_id,
            request,
            kind,
            confidence,
            ambiguity,
            list,
            now,
            Ok(recovery),
        ),
        are_entries(after.entries, recovery.id, rows),
    ensures
        forall|k: int| 0 <= k < rows.len() ==> rows_view(list).contains(row_view(#[trigger] rows[k])),
        forall|k: int| 0 <= k < list.len() ==> rows_view(rows).contains(row_view(#[trigger] list[k])),
{
    let own = owned_entries(list, recovery.id);
    let n = before.entries.len() as int;
    assert forall|k: int| 0 <= k < rows.len() implies rows_view(list).contains(
        row_view(#[trigger] rows[k]),
    ) by {
        assert(after.entries.contains(rows[k]));
        let m = choose|m: int| 0 <= m < after.entries.len() && after.entries[m] == rows[k];
        if m < n {
            assert(before.entries[m].recovery_id <= before.last.recoveries);
        }
        assert(own[m - n] == rows[k]);
        assert(rows_view(list)[m - n] == row_view(rows[k]));
    }
    assert forall|k: int| 0 <= k < list.len() implies rows_view(rows).contains(
        row_view(#[trigger] list[k]),
    ) by {
        assert(after.entries[n + k] == own[k]);
        assert(rows.contains(own[k]));
        let m = choose|m: int| 0 <= m < rows.len() && rows[m] == own[k];
        assert(rows_view(rows)[m] == row_view(list[k]));
    }
}

/// Applying a saved plan does what its preview said. Every file that the preview
/// would change is in the plan that is applied, with the same version or deletion
/// and with the state in which the preview found it; and nothing else is.
pub proof fn lemma_apply_does_what_was_previewed(
    before: Tables,
    after: Tables,
    project: WatchedProject,
    run_id: Option<i64>,
    request: Seq<char>,
    kind: Seq<char>,
    confidence: Seq<char>,
    ambiguity: Option<Seq<char>>,
    entries: Seq<EntryView>,
    spots: Seq<Spot>,
    list: Seq<RecoveryEntry>,
    now: i64,
    recovery: Recovery,
    rows: Seq<RecoveryEntry>,
    then_at: i64,
)
    requires
        before.wf(),
        project.root_path@.len() > 0,
        forall|i: int| 0 <= i < entries.len() ==> is_confined((#[trigger] entries[i]).path),
        rows_for(project.root_path@, entries, spots) == Ok::<Seq<RowView>, Seq<char>>(
            rows_view(list),
        ),
        recovery_created(
            before,
            after,
            project.id,
            run_id,
            request,
            kind,
            confidence,
            ambiguity,
            list,
            now,
            Ok(recovery),
        ),
        are_entries(after.entries, recovery.id, rows),
    ensures
        plan_of(project.root_path@, rows, then_at) is Ok,
        forall|k: int|
            0 <= k < plan_of(project.root_path@, rows, then_at)->Ok_0.len() ==> exists|i: int|
                0 <= i < entries.len() && is_change(spots, #[trigger] entries[i])
                    && (#[trigger] plan_of(project.root_path@, rows, then_at)->Ok_0[k])
                    == as_applied(entries[i], found_in(spots, entries[i])),
        forall|i: int|
            0 <= i < entries.len() && is_change(spots, #[trigger] entries[i])
                ==> plan_of(project.root_path@, rows, then_at)->Ok_0.contains(
                as_applied(entries[i], found_in(spots, entries[i])),
            ),
{
    let root = project.root_path@;
    lemma_new_rows(
        before,
        after,
        project.id,
        run_id,
        request,
        kind,
        confidence,
        ambiguity,
        list,
        now,
        recovery,
        rows,
    );
    lemma_rows_for(root, entries, spots);
    let views = rows_view(list);
    assert forall|k: int| 0 <= k < rows.len() implies is_saved(
        root,
        entries,
        spots,
        row_view(#[trigger] rows[k]),
    ) by {
        assert(views.contains(row_view(rows[k])));
        let m = choose|m: int| 0 <= m < views.len() && views[m] == row_view(rows[k]);
        assert(is_saved(root, entries, spots, views[m]));
    }
    lemma_plan_of(root, entries, spots, rows, then_at);
    let plan = plan_of(root, rows, then_at)->Ok_0;
    assert forall|k: int| 0 <= k < plan.len() implies exists|i: int|
        0 <= i < entries.len() && is_change(spots, #[trigger] entries[i]) && (
        #[trigger] plan[k]) == as_applied(entries[i], found_in(spots, entries[i])) by {
        let i = choose|i: int| is_saved_for(root, entries, spots, i, row_view(rows[k]));
        assert(is_saved_for(root, entries, spots, i, row_view(rows[k])));
        assert(is_change(spots, entries[i]));
    }
    assert forall|i: int| 0 <= i < entries.len() && is_change(
        spots,
        #[trigger] entries[i],
    ) implies plan.contains(as_applied(entries[i], found_in(spots, entries[i]))) by {
        let row = row_for(root, entries[i], found_in(spots, entries[i]))->0;
        assert(views.contains(row));
        let m = choose|m: int| 0 <= m < views.len() && views[m] == row;
        assert(row_view(list[m]) == row);
        assert(rows_view(rows).contains(row));
        let k = choose|k: int| 0 <= k < rows_view(rows).len() && rows_view(rows)[k] == row;
        assert(row_view(rows[k]) == row);
        assert(is_saved_for(root, entries, spots, i, row_view(rows[k])));
        assert(plan[k] == as_applied(entries[i], found_in(spots, entries[i])));
    }
}

/// A plan that was applied is not applied again: nothing changes.
pub proof fn lemma_apply_once(
    before: Tables,
    after: Tables,
    later: Tables,
    project: WatchedProject,
    recovery: Recovery,
    files: usize,
    now: i64,
    applied: AppliedRecovery,
    spots: Seq<Spot>,
    copies: Seq<crate::intent_recovery::SavedCopy>,
    then_at: i64,
    result: Result<ApplyStart, Error>,
)
    requires
        before.wf(),
        recovery_by_ref(before.recoveries, project.id, recovery_name(recovery)) == Some(recovery),
        recovery.status@ == "planned"@,
        apply_ended(before, after, project.id, recovery, files, None, now, Ok(applied)),
        apply_begun(
            after,
            later,
            project,
            recovery_name(recovery),
            spots,
            copies,
            then_at,
            result,
        ),
    ensures
        later == after,
        result matches Ok(ApplyStart::Already(told)) && told.already_applied && told.files_changed
            == 0 && told.recovery == applied.recovery && told.recovery.status@
            == "applied"@,
{
    crate::db::lemma_public_id_names_its_id("rec_"@, recovery.id);
    let keep = is_recovery(recovery.id);
    rows::lemma_lookup_kept(before.recoveries, keep);
    rows::lemma_lookup_kept(after.recoveries, keep);
    let r = applied.recovery;
    assert(recovery_by_ref(after.recoveries, project.id, recovery_name(recovery)) == Some(r));
    let k = choose|k: int| 0 <= k < after.recoveries.len() && after.recoveries[k] == r;
    let m = choose|m: int| 0 <= m < before.recoveries.len() && before.recoveries[m] == recovery;
    assert(after.recoveries[k].id == recovery.id);
    assert(before.recoveries[k].id == recovery.id) by {
        if before.recoveries[k].id != recovery.id {
            assert(after.recoveries[k] == before.recoveries[k]);
        }
    }
    if k < m {
        assert(before.recoveries[k].row_id() < before.recoveries[m].row_id());
    } else if m < k {
        assert(before.recoveries[m].row_id() < before.recoveries[k].row_id());
    }
}

// ── cleaning up ─────────────────────────────────────────────────────

/// A cleanup removes no change from within the time that is kept, and none of
/// another project.
pub proof fn lemma_prune_keeps_recent_changes(
    before: Tables,
    project_id: i64,
    until: i64,
    event: FileEvent,
)
    requires
        before.events.contains(event),
        event.project_id != project_id || event.timestamp >= until,
    ensures
        events_pruned(before, project_id, until).events.contains(event),
{
    rows::lemma_retained_contains(before.events, surviving(project_id, until));
}

/// A cleanup removes no saved version that a change that stays, a file that is
/// there or a plan that may be applied still needs.
pub proof fn lemma_prune_keeps_needed_versions(
    before: Tables,
    after: Tables,
    project_id: i64,
    config: RetentionConfig,
    now: i64,
    temps: Seq<StoredFile>,
    temp_cutoff: i64,
    snapshots: Seq<StoredFile>,
    backups: Seq<StoredFile>,
    dry_run: bool,
    plan: PrunePlan,
    i: int,
)
    requires
        is_pruned(
            before,
            after,
            project_id,
            config,
            now,
            temps,
            temp_cutoff,
            snapshots,
            backups,
            dry_run,
            Ok(plan),
        ),
        0 <= i < plan.snapshots@.len(),
    ensures
        held_hash(plan.snapshots@[i]@) matches Some(hash) && !is_live(
            events_pruned(before, project_id, cutoff_at(config, now) as i64),
            project_id,
            now,
            hash,
        ),
{
    let rest = events_pruned(before, project_id, cutoff_at(config, now) as i64);
    let live = choose|live: Seq<Seq<char>>|
        {
            &&& #[trigger] are_live(rest, project_id, now, live)
            &&& text::views(plan.snapshots@) == paths_of(rows::retained(snapshots, is_orphan(live)))
        };
    let gone = rows::retained(snapshots, is_orphan(live));
    rows::lemma_retained_contains(snapshots, is_orphan(live));
    assert(text::views(plan.snapshots@).len() == plan.snapshots@.len());
    assert(paths_of(gone)[i] == text::views(plan.snapshots@)[i]);
    assert(gone.contains(gone[i]));
    assert(is_orphan(live)(gone[i]));
}

/// A cleanup that is only tried changes nothing.
pub proof fn lemma_dry_run_changes_nothing(
    before: Tables,
    after: Tables,
    project_id: i64,
    config: RetentionConfig,
    now: i64,
    temps: Seq<StoredFile>,
    temp_cutoff: i64,
    snapshots: Seq<StoredFile>,
    backups: Seq<StoredFile>,
    result: Result<PrunePlan, Error>,
)
    requires
        is_pruned(
            before,
            after,
            project_id,
            config,
            now,
            temps,
            temp_cutoff,
            snapshots,
            backups,
            true,
            result,
        ),
    ensures
        after == before,
{
}

/// A cleanup that is only tried tells what the cleanup itself removes and how much
/// room that frees, and changes nothing; it fails exactly where the cleanup does.
pub proof fn lemma_dry_run_tells_what_goes(
    before: Tables,
    tried: Tables,
    done: Tables,
    project_id: i64,
    config: RetentionConfig,
    now: i64,
    temps: Seq<StoredFile>,
    temp_cutoff: i64,
    snapshots: Seq<StoredFile>,
    backups: Seq<StoredFile>,
    told: Result<PrunePlan, Error>,
    removed: Result<PrunePlan, Error>,
)
    requires
        is_pruned(
            before,
            tried,
            project_id,
            config,
            now,
            temps,
            temp_cutoff,
            snapshots,
            backups,
            true,
            told,
        ),
        is_pruned(
            before,
            done,
            project_id,
            config,
            now,
            temps,
            temp_cutoff,
            snapshots,
            backups,
            false,
            removed,
        ),
    ensures
        tried == before,
        match (told, removed) {
            (Ok(told), Ok(plan)) => {
                &&& told.stats == plan.stats
                &&& text::views(told.temps@) == text::views(plan.temps@)
                &&& text::views(told.snapshots@) == text::views(plan.snapshots@)
                &&& text::views(told.backups@) == text::views(plan.backups@)
            },
            (Err(a), Err(b)) => a@ == b@,
            _ => false,
        },
{
    let rest = events_pruned(before, project_id, cutoff_at(config, now) as i64);
    assert forall|a: Seq<Seq<char>>, b: Seq<Seq<char>>|
        #[trigger] are_live(rest, project_id, now, a) && #[trigger] are_live(
            rest,
            project_id,
            now,
            b,
        ) implies a == b by {
        sorted::lemma_ascending_unique(a, b);
    }
}

} // verus!
