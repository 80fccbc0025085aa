//! What a request asks for, and what is shown for it.
use vstd::prelude::*;

use crate::activity::{
    are_shown, checkpoint_asked, is_checkpoint_run, is_latest, latest_lines, Burst, LocalTime,
};
use crate::db::checkpoints::{checkpoint_saved, is_checkpoint_by_ref};
use crate::db::claims::{boundary_closed, open_aborted};
use crate::db::events::{is_deletion, recoverable_deletions};
use crate::db::runs::{is_active_session, run_by_ref, run_completed};
use crate::db::Tables;
use crate::duration::duration_of;
use crate::error::Error;
use crate::groups::{are_groups, group_paths, ChangeGroup};
use crate::laws::claiming::lemma_lookup_run;
use crate::laws::finding::lemma_active_run_of_a_project;
use crate::laws::grouping::{is_path_of, lemma_every_change_is_in_one_group};
use crate::laws::recording::{has_name, is_newest, lemma_checkpoint_marks_the_newest_change};
use crate::models::{Checkpoint, FileEvent, Run, RunBoundary};
use crate::number;
use crate::recover::{is_recover_step, RecoverStep};
use crate::restore::{is_request, RestoreRequest};
use crate::rows;
use crate::rows::Order;
use crate::text;

verus! {

// ── restores ────────────────────────────────────────────────────────

/// A restore goes back to a time so long ago, to a given time, or to a checkpoint: to
/// the change that it marks, or to its time where it marks none. Only one of them can
/// be asked for, and one must be, except for a deleted file, which goes back to what it
/// was when it was deleted.
pub proof fn lemma_what_a_restore_goes_back_to(
    t: Tables,
    project_id: i64,
    path: Option<Seq<char>>,
    duration: Option<Seq<char>>,
    checkpoint: Option<Seq<char>>,
    timestamp: Option<i64>,
    deleted: bool,
    now: i64,
    result: Result<RestoreRequest, Error>,
)
    requires
        is_request(
            t,
            project_id,
            path,
            duration,
            checkpoint,
            timestamp,
            deleted,
            now,
            result,
        ),
        now >= 0,
    ensures
        path is None ==> result is Err,
        deleted && path is Some ==> (result is Ok <==> duration is None && checkpoint is None
            && timestamp is None),
        deleted && result is Ok ==> result->Ok_0 is Deleted,
        !deleted && duration is None && checkpoint is None && timestamp is None ==> result is Err,
        duration is Some && checkpoint is Some ==> result is Err,
        duration is Some && timestamp is Some ==> result is Err,
        checkpoint is Some && timestamp is Some ==> result is Err,
        !deleted && path is Some && duration is None && checkpoint is None && timestamp is Some
            ==> (result matches Ok(RestoreRequest::AtTime(at, _)) && at == timestamp->0),
        !deleted && path is Some && checkpoint is None && timestamp is None && duration is Some
            && duration_of(duration->0) is Ok && duration_of(duration->0)->Ok_0 >= 0 && duration_of(
            duration->0,
        )->Ok_0 <= i64::MAX ==> (result matches Ok(RestoreRequest::AtTime(at, _)) && at == now
            - duration_of(duration->0)->Ok_0),
        !deleted && path is Some && checkpoint is None && timestamp is None && duration is Some
            && duration_of(duration->0) is Err ==> result is Err,
        !deleted && path is Some && checkpoint is Some && result is Ok ==> exists|
            found: Result<Option<Checkpoint>, Error>,
        |
            #[trigger] is_checkpoint_by_ref(t, project_id, checkpoint->0, found) && goes_to(
                found,
                result->Ok_0,
            ),
{
}

/// Whether a request goes back to a checkpoint.
pub open spec fn goes_to(found: Result<Option<Checkpoint>, Error>, request: RestoreRequest) -> bool {
    found matches Ok(Some(c)) && match c.event_id {
        Some(id) => request matches RestoreRequest::AtEvent(at, _) && at == id,
        None => request matches RestoreRequest::AtTime(at, _) && at == c.timestamp,
    }
}

// ── checkpoints ─────────────────────────────────────────────────────

/// A checkpoint that is asked for has the name that was given, without the blanks around
/// it, in the Run that was named, else in the only active Run of the project, else in
/// none. A new one marks the newest change.
pub proof fn lemma_checkpoint_is_saved_as_asked(
    before: Tables,
    after: Tables,
    project_id: i64,
    name: Seq<char>,
    intent: Option<Seq<char>>,
    run_reference: Option<Seq<char>>,
    now: i64,
    result: Result<(Checkpoint, bool), Error>,
)
    requires
        before.wf(),
        checkpoint_asked(before, after, project_id, name, intent, run_reference, now, result),
    ensures
        text::trimmed(name).len() == 0 ==> result is Err,
        result is Err ==> after == before,
        result is Ok ==> {
            let c = result->Ok_0.0;
            &&& after.checkpoints.contains(c)
            &&& c.name@ == text::trimmed(name)
            &&& run_reference is Some ==> (run_by_ref(
                before.sessions,
                project_id,
                run_reference->0,
            ) matches Some(run) && c.run_id == Some(run.id))
            &&& run_reference is None && c.run_id is None ==> forall|i: int|
                0 <= i < before.sessions.len() && (#[trigger] before.sessions[i]).project_id
                    == project_id ==> before.sessions[i].ended_at is Some
            &&& run_reference is None && c.run_id is Some ==> exists|i: int|
                {
                    &&& 0 <= i < before.sessions.len()
                    &&& (#[trigger] before.sessions[i]).id == c.run_id->0
                    &&& before.sessions[i].project_id == project_id
                    &&& before.sessions[i].ended_at is None
                }
            &&& result->Ok_0.1 ==> c.event_id is Some && is_newest(
                before.events,
                project_id,
                c.event_id->0,
            ) && c.timestamp == now
            &&& !result->Ok_0.1 ==> after == before
        },
{
    if text::trimmed(name).len() > 0 {
        let run = choose|run: Result<Option<i64>, Error>|
            {
                &&& #[trigger] is_checkpoint_run(before, project_id, run_reference, run)
                &&& match run {
                    Err(e) => after == before && (result matches Err(x) && x == e),
                    Ok(run_id) => checkpoint_saved(
                        before,
                        after,
                        project_id,
                        run_id,
                        text::trimmed(name),
                        now,
                        intent,
                        now,
                        result,
                    ),
                }
            };
        if result is Ok {
            let c = result->Ok_0.0;
            lemma_checkpoint_marks_the_newest_change(
                before,
                after,
                project_id,
                run->Ok_0,
                text::trimmed(name),
                now,
                intent,
                now,
                result,
            );
            assert(has_name(c, project_id, run->Ok_0, text::trimmed(name)));
            if run_reference is None {
                let active = choose|active: Result<Option<Run>, Error>|
                    {
                        &&& #[trigger] is_active_session(before.sessions, project_id, active)
                        &&& match active {
                            Ok(Some(r)) => run == Ok::<Option<i64>, Error>(Some(r.id)),
                            Ok(None) => run == Ok::<Option<i64>, Error>(None),
                            Err(e) => run == Err::<Option<i64>, Error>(e),
                        }
                    };
                lemma_active_run_of_a_project(before, project_id, active);
                if let Ok(Some(r)) = active {
                    let i = choose|i: int|
                        0 <= i < before.sessions.len() && before.sessions[i] == r;
                    assert(before.sessions[i].id == c.run_id->0);
                }
            }
        }
    }
}

// ── recoveries of Runs ──────────────────────────────────────────────

/// Two lists one behind the other have what either has.
proof fn lemma_joined_lists(a: Seq<Seq<char>>, b: Seq<Seq<char>>, p: Seq<char>)
    ensures
        (a + b).contains(p) <==> a.contains(p) || b.contains(p),
{
    let all = a + b;
    if all.contains(p) {
        let k = choose|k: int| 0 <= k < all.len() && all[k] == p;
        if k < a.len() {
            assert(a[k] == p);
        } else {
            assert(b[k - a.len()] == p);
        }
    }
    if a.contains(p) {
        let k = choose|k: int| 0 <= k < a.len() && a[k] == p;
        assert(all[k] == p);
    }
    if b.contains(p) {
        let k = choose|k: int| 0 <= k < b.len() && b[k] == p;
        assert(all[a.len() + k] == p);
    }
}

/// The paths of groups are those of each.
pub proof fn lemma_group_paths(groups: Seq<ChangeGroup>, p: Seq<char>)
    ensures
        group_paths(groups).contains(p) <==> exists|g: int|
            0 <= g < groups.len() && is_path_of(#[trigger] groups[g], p),
    decreases groups.len(),
{
    if groups.len() > 0 {
        let front = groups.drop_last();
        let n = front.len() as int;
        lemma_group_paths(front, p);
        lemma_joined_lists(group_paths(front), text::views(groups.last().paths@), p);
        assert(groups[n] == groups.last());
        if exists|g: int| 0 <= g < front.len() && is_path_of(#[trigger] front[g], p) {
            let g = choose|g: int| 0 <= g < front.len() && is_path_of(#[trigger] front[g], p);
            assert(is_path_of(groups[g], p));
        }
        if exists|g: int| 0 <= g < groups.len() && is_path_of(#[trigger] groups[g], p) {
            let g = choose|g: int| 0 <= g < groups.len() && is_path_of(#[trigger] groups[g], p);
            if g < n {
                assert(is_path_of(front[g], p));
            }
        }
        assert(is_path_of(groups[n], p) <==> text::views(groups.last().paths@).contains(p));
    }
}

/// Of a Run, the files that are named are recovered; else those of the group that is
/// named; else every file that one of its changes names. A group that is not there is
/// refused.
pub proof fn lemma_what_of_a_run_is_recovered(
    session: Run,
    root: Seq<char>,
    events: Seq<FileEvent>,
    stats: Seq<(usize, usize)>,
    groups: Seq<ChangeGroup>,
    group: Option<Seq<char>>,
    selected: Seq<Seq<char>>,
    result: Result<RecoverStep, Error>,
)
    requires
        are_groups(root, events, stats, groups),
        is_recover_step(session, events.len() as int, groups, group, selected, result),
    ensures
        events.len() == 0 ==> (result matches Ok(RecoverStep::Nothing(_))),
        events.len() > 0 && selected.len() > 0 ==> (result matches Ok(
            RecoverStep::Files { paths, .. },
        ) && text::views(paths@) == selected),
        events.len() > 0 && selected.len() == 0 && group is None ==> (result matches Ok(
            RecoverStep::Files { paths, .. },
        ) && forall|i: int|
            0 <= i < events.len() ==> text::views(paths@).contains((#[trigger] events[i]).path@) && (
            events[i].old_path is Some ==> text::views(paths@).contains(
                events[i].old_path->0@,
            ))),
        events.len() > 0 && selected.len() == 0 && group is Some ==> (result matches Ok(
            RecoverStep::Files { paths, .. },
        ) ==> exists|g: int|
            0 <= g < groups.len() && (#[trigger] groups[g]).id@ == text::lower(
                text::trimmed(group->0),
            ) && text::views(paths@) == text::views(groups[g].paths@)),
        events.len() > 0 && selected.len() == 0 && group is Some ==> (result is Ok <==> exists|
            g: int,
        |
            0 <= g < groups.len() && (#[trigger] groups[g]).id@ == text::lower(
                text::trimmed(group->0),
            ) && groups[g].id@.len() > 0),
{
    if events.len() > 0 {
        assert(events.contains(events[0]));
        lemma_every_change_is_in_one_group(root, events, stats, groups, events[0]);
        if selected.len() == 0 {
            match group {
                None => {
                    let paths = result->Ok_0->Files_paths;
                    assert forall|i: int| 0 <= i < events.len() implies text::views(
                        paths@,
                    ).contains((#[trigger] events[i]).path@) && (events[i].old_path is Some
                        ==> text::views(paths@).contains(events[i].old_path->0@)) by {
                        let e = events[i];
                        assert(events.contains(e));
                        lemma_every_change_is_in_one_group(root, events, stats, groups, e);
                        let g = choose|g: int|
                            {
                                &&& 0 <= g < groups.len()
                                &&& (#[trigger] groups[g]).id@ == crate::groups::group_of(
                                    crate::path::relative(e.path@, root),
                                )
                                &&& text::views(groups[g].paths@).contains(e.path@)
                                &&& e.old_path is Some ==> text::views(
                                    groups[g].paths@,
                                ).contains(e.old_path->0@)
                            };
                        assert(is_path_of(groups[g], e.path@));
                        lemma_group_paths(groups, e.path@);
                        if e.old_path is Some {
                            assert(is_path_of(groups[g], e.old_path->0@));
                            lemma_group_paths(groups, e.old_path->0@);
                        }
                    }
                },
                Some(wanted) => {
                    let ids = crate::recover::group_ids(groups);
                    let key = text::lower(text::trimmed(wanted));
                    let at = choose|at: Result<usize, Error>|
                        #[trigger] crate::recover::is_group(groups, wanted, at)
                            && crate::recover::is_group_step(session, groups, at, result);
                    if ids.contains(key) {
                        let k = choose|k: int| 0 <= k < ids.len() && ids[k] == key;
                        assert(groups[k].id@ == key);
                    }
                    if exists|g: int| 0 <= g < groups.len() && (#[trigger] groups[g]).id@ == key {
                        let g = choose|g: int|
                            0 <= g < groups.len() && (#[trigger] groups[g]).id@ == key;
                        assert(ids[g] == key);
                    }
                    if let Ok(i) = at {
                        assert(groups[i as int].id@ == key);
                    }
                },
            }
        }
    }
}

// ── what is shown ───────────────────────────────────────────────────

/// Whether one change is told before another: it is newer.
pub open spec fn is_newer(a: FileEvent, b: FileEvent) -> bool {
    a.timestamp > b.timestamp || (a.timestamp == b.timestamp && a.id > b.id)
}

/// A list that is cut short has the newest, in their order.
proof fn lemma_limited(
    events: Seq<FileEvent>,
    keep: spec_fn(FileEvent) -> bool,
    limit: int,
    list: Seq<FileEvent>,
)
    requires
        rows::is_limited(events, Order::Newest, keep, limit, list),
        limit >= 0,
    ensures
        list.len() <= limit,
        forall|i: int| 0 <= i < list.len() ==> events.contains(#[trigger] list[i]) && keep(list[i]),
        forall|i: int, j: int|
            0 <= i < j < list.len() ==> is_newer(#[trigger] list[i], #[trigger] list[j]),
        forall|e: FileEvent|
            events.contains(e) && keep(e) && !(#[trigger] list.contains(e)) ==> list.len() == limit
                && forall|i: int| 0 <= i < list.len() ==> is_newer(#[trigger] list[i], e),
{
    let full = choose|full: Seq<FileEvent>|
        {
            &&& #[trigger] rows::is_listing(events, Order::Newest, keep, full)
            &&& list == full.take(
                if limit < full.len() {
                    limit
                } else {
                    full.len() as int
                },
            )
        };
    assert forall|i: int| 0 <= i < list.len() implies events.contains(#[trigger] list[i]) && keep(
        list[i],
    ) by {
        assert(list[i] == full[i]);
    }
    assert forall|i: int, j: int| 0 <= i < j < list.len() implies is_newer(
        #[trigger] list[i],
        #[trigger] list[j],
    ) by {
        assert(rows::row_before(Order::Newest, full[i], full[j]));
    }
    assert forall|e: FileEvent|
        events.contains(e) && keep(e) && !(#[trigger] list.contains(e)) implies list.len() == limit
        && forall|i: int| 0 <= i < list.len() ==> is_newer(#[trigger] list[i], e) by {
        let k = choose|k: int| 0 <= k < events.len() && events[k] == e;
        assert(full.contains(events[k]));
        let m = choose|m: int| 0 <= m < full.len() && full[m] == e;
        if m < list.len() {
            assert(list[m] == e);
        }
        assert forall|i: int| 0 <= i < list.len() implies is_newer(#[trigger] list[i], e) by {
            assert(rows::row_before(Order::Newest, full[i], full[m]));
        }
    }
}

/// Whether a change is one that a timeline is asked for.
pub open spec fn is_wanted(e: FileEvent, project_id: i64, from: Option<i64>) -> bool {
    e.project_id == project_id && (from is Some ==> e.timestamp >= from->0)
}

/// A timeline shows the newest changes of the project since the moment that was given,
/// the newest first, and leaves out only older ones than it shows. Asked for deletions,
/// it shows those among them.
pub proof fn lemma_timeline_shows_the_newest_changes(
    events: Seq<FileEvent>,
    project_id: i64,
    limit: int,
    from: Option<i64>,
    list: Seq<FileEvent>,
    deletions: Seq<FileEvent>,
)
    requires
        limit >= 0,
        are_shown(events, project_id, limit, from, false, list),
        are_shown(events, project_id, limit, from, true, deletions),
    ensures
        list.len() <= limit,
        forall|i: int|
            0 <= i < list.len() ==> events.contains(#[trigger] list[i]) && is_wanted(
                list[i],
                project_id,
                from,
            ),
        forall|i: int, j: int|
            0 <= i < j < list.len() ==> is_newer(#[trigger] list[i], #[trigger] list[j]),
        forall|e: FileEvent|
            events.contains(e) && is_wanted(e, project_id, from) && !(#[trigger] list.contains(e))
                ==> list.len() == limit && forall|i: int|
                0 <= i < list.len() ==> is_newer(#[trigger] list[i], e),
        forall|e: FileEvent| #[trigger]
            deletions.contains(e) <==> list.contains(e) && e.event_type@ == "DELETED"@,
{
    let keep = crate::activity::shown_changes(project_id, from);
    lemma_limited(events, keep, limit, list);
    assert forall|e: FileEvent| #[trigger] keep(e) == is_wanted(e, project_id, from) by {}
    let all = choose|all: Seq<FileEvent>|
        {
            &&& #[trigger] rows::is_limited(events, Order::Newest, keep, limit, all)
            &&& deletions == rows::retained(all, |e: FileEvent| is_deletion(e))
        };
    lemma_one_limited(events, keep, limit, list, all);
    rows::lemma_retained_contains(all, |e: FileEvent| is_deletion(e));
}

/// There is only one list of the newest.
proof fn lemma_one_limited(
    events: Seq<FileEvent>,
    keep: spec_fn(FileEvent) -> bool,
    limit: int,
    a: Seq<FileEvent>,
    b: Seq<FileEvent>,
)
    requires
        rows::is_limited(events, Order::Newest, keep, limit, a),
        rows::is_limited(events, Order::Newest, keep, limit, b),
    ensures
        a == b,
{
    let x = choose|full: Seq<FileEvent>|
        {
            &&& #[trigger] rows::is_listing(events, Order::Newest, keep, full)
            &&& a == full.take(
                if limit < full.len() {
                    limit
                } else {
                    full.len() as int
                },
            )
        };
    let y = choose|full: Seq<FileEvent>|
        {
            &&& #[trigger] rows::is_listing(events, Order::Newest, keep, full)
            &&& b == full.take(
                if limit < full.len() {
                    limit
                } else {
                    full.len() as int
                },
            )
        };
    rows::lemma_listed(events, Order::Newest, keep, x);
    rows::lemma_listed(events, Order::Newest, keep, y);
}

/// The deleted files that are offered are those whose last contents are known, the
/// newest deletions first; only older deletions are left out.
pub proof fn lemma_deleted_files_are_offered(
    events: Seq<FileEvent>,
    project_id: i64,
    limit: int,
    list: Seq<FileEvent>,
)
    requires
        limit >= 0,
        rows::is_limited(events, Order::Newest, recoverable_deletions(project_id), limit, list),
    ensures
        list.len() <= limit,
        forall|i: int|
            0 <= i < list.len() ==> events.contains(#[trigger] list[i]) && list[i].project_id
                == project_id && list[i].event_type@ == "DELETED"@ && list[i].previous_hash is Some,
        forall|i: int, j: int|
            0 <= i < j < list.len() ==> is_newer(#[trigger] list[i], #[trigger] list[j]),
        forall|e: FileEvent|
            events.contains(e) && e.project_id == project_id && e.event_type@ == "DELETED"@
                && e.previous_hash is Some && !(#[trigger] list.contains(e)) ==> list.len() == limit
                && forall|i: int| 0 <= i < list.len() ==> is_newer(#[trigger] list[i], e),
{
    let keep = recoverable_deletions(project_id);
    lemma_limited(events, keep, limit, list);
    assert forall|e: FileEvent| #[trigger]
        keep(e) == (e.project_id == project_id && e.event_type@ == "DELETED"@ && e.previous_hash is Some) by {}
}

/// In an emergency the way back leads to the second before the burst that ended last, by
/// a preview and a restore of the whole folder to that time.
pub proof fn lemma_emergency_goes_back_before_the_last_burst(
    bursts: Seq<Burst>,
    at: int,
    times: Seq<LocalTime>,
    other: int,
)
    requires
        is_latest(bursts, Some(at)),
        bursts[at].start > i64::MIN,
        0 <= other < bursts.len(),
    ensures
        bursts[other].end <= bursts[at].end,
        latest_lines(Some(bursts[at]), times).len() == 4,
        latest_lines(Some(bursts[at]), times)[1] == "  Target timestamp: "@ + number::decimal(
            bursts[at].start - 1,
        ),
        latest_lines(Some(bursts[at]), times)[2] == "  Preview: "@ + (
        "undo restore . --timestamp "@ + number::decimal(bursts[at].start - 1) + " --preview"@),
        latest_lines(Some(bursts[at]), times)[3] == "  Restore: "@ + (
        "undo restore . --timestamp "@ + number::decimal(bursts[at].start - 1) + " --yes"@),
{
    assert(bursts[other].end <= bursts[at].end);
}

// ── changes that a Run leaves open ──────────────────────────────────

/// When a reported Run ends, each change that it left open is aborted, and can then not
/// be closed any more. What it closed stays closed, and the changes of other Runs stay.
pub proof fn lemma_open_changes_are_aborted(
    before: Tables,
    after: Tables,
    run: Run,
    status: Seq<char>,
    now: i64,
    result: Result<Run, Error>,
    i: int,
)
    requires
        before.wf(),
        before.sessions.contains(run),
        run.ended_at is None,
        run.attribution_mode@ == "reported"@,
        run_completed(before, after, run.id, status, now, result),
        0 <= i < before.boundaries.len(),
    ensures
        after.boundaries.len() == before.boundaries.len(),
        after.boundaries[i].id == before.boundaries[i].id,
        before.boundaries[i].run_id == run.id && before.boundaries[i].status@ == "open"@ ==> {
            &&& after.boundaries[i].status@ == "aborted"@
            &&& after.boundaries[i].ended_at == Some(now)
            &&& after.boundaries[i].start_event_id == before.boundaries[i].start_event_id
            &&& after.boundaries[i].end_event_id == before.boundaries[i].end_event_id
        },
        before.boundaries[i].run_id != run.id || before.boundaries[i].status@ != "open"@
            ==> after.boundaries[i] == before.boundaries[i],
{
    lemma_lookup_run(before, run);
    assert(open_aborted(before.boundaries, after.boundaries, run.id, now));
    assert(after.boundaries[i] == after.boundaries[i]);
}

/// A change that was aborted is never closed, and nothing is claimed for it.
pub proof fn lemma_aborted_change_claims_nothing(
    before: Tables,
    after: Tables,
    b: RunBoundary,
    paths: Seq<Seq<char>>,
    now: i64,
    result: Result<RunBoundary, Error>,
)
    requires
        before.wf(),
        before.boundaries.contains(b),
        b.status@ == "aborted"@,
        boundary_closed(before, after, b.run_id, b.external_change_id@, paths, now, result),
    ensures
        result is Err,
        after == before,
{
    reveal_strlit("closed");
    reveal_strlit("aborted");
    assert("closed"@.len() == 6 && "aborted"@.len() == 7);
    let keep = crate::db::claims::is_change(b.run_id, b.external_change_id@);
    let at = choose|at: int| 0 <= at < before.boundaries.len() && before.boundaries[at] == b;
    assert forall|k: int| 0 <= k < at implies !keep(#[trigger] before.boundaries[k]) by {
        assert(!crate::db::same_change(before.boundaries[k], before.boundaries[at]));
    }
    rows::lemma_lookup(before.boundaries, keep, Some(at));
}

} // verus!
