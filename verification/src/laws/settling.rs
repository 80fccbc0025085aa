//! How changes, Runs and plans are opened, ended and labelled.
use vstd::prelude::*;

use crate::agent_events::{are_normalized, event_processed, AgentEvent, Reply, Site};
use crate::agent_hooks::{hook_applied, is_outcome, HookStep};
use crate::cli::Agent;
use crate::db::claims::{announced, boundary_opened, is_change, paths_announced};
use crate::db::recoveries::recovery_created;
use crate::db::runs::{is_external, run_completed};
use crate::db::Tables;
use crate::error::Error;
use crate::laws::claiming::lemma_lookup_run;
use crate::laws::finding::{
    is_active_here, is_named_here, lemma_found_run_is_named, lemma_only_the_active_run_is_meant,
    lemma_only_the_named_run_is_meant, lemma_plan_is_found,
};
use crate::laws::hooking::{is_known_as, lemma_known};
use crate::laws::recording::{is_newest, is_text, lemma_newest};
use crate::laws::reporting::{is_event_of, lemma_kinds_differ, lemma_reported_found};
use crate::models::{Recovery, RecoveryEntry, Run, RunBoundary, WatchedProject};
use crate::places::Place;
use crate::recoveries::{
    boundary_recovery_created, outcome_persisted, plan_persisted, rows_view, run_recovery_created,
    timestamp_recovery_created,
};
use crate::recovery_apply::{apply_ended, inapplicable, recovery_name, AppliedRecovery};
use crate::restore::{EntryView, RestorePlan};
use crate::restore_fs::{CappedRead, Spot};
use crate::restore_report::state_problem;
use crate::rows;
use crate::rows::Row;
use crate::runs::{is_meant_run, run_stopped};
use crate::sorted;
use crate::text;

verus! {

// ── changes that a Run announces ────────────────────────────────────

/// A change that a Run opens anew begins at the newest change of the project, is open, and
/// announces exactly the given paths. The earlier changes of Runs and what they announced
/// stay, and nothing is claimed yet.
pub proof fn lemma_change_opens_at_the_newest_change(
    before: Tables,
    after: Tables,
    run: Run,
    external_change_id: Seq<char>,
    paths: Seq<Seq<char>>,
    now: i64,
    b: RunBoundary,
)
    requires
        before.wf(),
        before.sessions.contains(run),
        boundary_opened(before, after, run.id, external_change_id, paths, now, Ok(b)),
        !before.boundaries.contains(b),
    ensures
        run.ended_at is None,
        run.attribution_mode@ == "reported"@,
        after.boundaries == before.boundaries.push(b),
        b.run_id == run.id,
        b.external_change_id@ == external_change_id,
        b.status@ == "open"@,
        b.started_at == now,
        b.ended_at is None,
        is_newest(before.events, run.project_id, b.start_event_id),
        forall|p: Seq<char>| #[trigger]
            announced(after.boundary_paths, b.id, p) <==> paths.contains(p),
        forall|i: int|
            0 <= i < before.boundary_paths.len() ==> after.boundary_paths[i]
                == #[trigger] before.boundary_paths[i],
        after.claims == before.claims,
        after.events == before.events,
        after.sessions == before.sessions,
{
    lemma_lookup_run(before, run);
    lemma_newest(before, run.project_id);
    rows::lemma_lookup_kept(before.boundaries, is_change(run.id, external_change_id));
    let list = choose|list: Seq<Seq<char>>|
        sorted::is_sorted_set(paths, list) && #[trigger] paths_announced(
            before.boundary_paths,
            after.boundary_paths,
            b.id,
            list,
        );
    let n = before.boundary_paths.len() as int;
    assert forall|p: Seq<char>| #[trigger]
        announced(after.boundary_paths, b.id, p) <==> paths.contains(p) by {
        if announced(after.boundary_paths, b.id, p) {
            let i = choose|i: int|
                0 <= i < after.boundary_paths.len() && (
                #[trigger] after.boundary_paths[i]).boundary_id == b.id
                    && after.boundary_paths[i].path@ == p;
            if i < n {
                assert(after.boundary_paths[i] == before.boundary_paths[i]);
                assert(before.boundary_paths[i].boundary_id <= before.last.boundaries);
            } else {
                assert(list[i - n] == p);
                assert(list.contains(p));
            }
        }
        if paths.contains(p) {
            assert(list.contains(p));
            let k = choose|k: int| 0 <= k < list.len() && list[k] == p;
            assert(after.boundary_paths[n + k].path@ == p);
        }
    }
}

/// Whether a Run has a change with an external id.
pub open spec fn has_change(t: Tables, run: Run, external_change_id: Seq<char>) -> bool {
    exists|i: int|
        0 <= i < t.boundaries.len() && (#[trigger] t.boundaries[i]).run_id == run.id
            && t.boundaries[i].external_change_id@ == external_change_id
}

/// Whether a Run has an open change that begins at the newest change of its project and
/// announces paths.
pub open spec fn is_opened(
    before: Tables,
    after: Tables,
    run: Run,
    external_change_id: Seq<char>,
    paths: Seq<Seq<char>>,
    b: RunBoundary,
) -> bool {
    &&& after.boundaries.contains(b)
    &&& b.run_id == run.id
    &&& b.external_change_id@ == external_change_id
    &&& b.status@ == "open"@
    &&& is_newest(before.events, run.project_id, b.start_event_id)
    &&& forall|p: Seq<char>| #[trigger]
        announced(after.boundary_paths, b.id, p) <==> paths.contains(p)
}

/// A change that a Run has not opened before is opened.
proof fn lemma_opened(
    before: Tables,
    after: Tables,
    run: Run,
    external_change_id: Seq<char>,
    paths: Seq<Seq<char>>,
    now: i64,
    b: RunBoundary,
)
    requires
        before.wf(),
        before.sessions.contains(run),
        !has_change(before, run, external_change_id),
        boundary_opened(before, after, run.id, external_change_id, paths, now, Ok(b)),
    ensures
        is_opened(before, after, run, external_change_id, paths, b),
{
    let keep = is_change(run.id, external_change_id);
    lemma_lookup_run(before, run);
    rows::lemma_lookup_kept(before.boundaries, keep);
    if let Some(known) = rows::lookup(before.boundaries, keep) {
        let k = choose|k: int| 0 <= k < before.boundaries.len() && before.boundaries[k] == known;
        assert(before.boundaries[k].run_id == run.id);
    }
    if before.boundaries.contains(b) {
        let k = choose|k: int| 0 <= k < before.boundaries.len() && before.boundaries[k] == b;
        assert(before.boundaries[k].row_id() <= before.last.boundaries);
    }
    lemma_change_opens_at_the_newest_change(
        before,
        after,
        run,
        external_change_id,
        paths,
        now,
        b,
    );
    assert(after.boundaries[before.boundaries.len() as int] == b);
}

/// A hook that opens a change opens it in its Run, on the files that it reports.
pub proof fn lemma_hook_opens_its_change(
    before: Tables,
    after: Tables,
    run: Run,
    external_run_id: Seq<char>,
    agent: Agent,
    change_id: String,
    paths: Vec<String>,
    now: i64,
    result: Result<(), Error>,
) -> (b: RunBoundary)
    requires
        before.wf(),
        before.sessions.contains(run),
        is_known_as(run, run.project_id, external_run_id),
        !has_change(before, run, change_id@),
        hook_applied(
            before,
            after,
            run.project_id,
            external_run_id,
            agent,
            HookStep::Open { change_id, paths },
            now,
            result,
        ),
        result is Ok,
    ensures
        is_opened(before, after, run, change_id@, text::views(paths@), b),
{
    lemma_known(before, run, external_run_id);
    let list = text::views(paths@);
    let (middle, found) = choose|middle: Tables, found: Result<Run, Error>|
        #[trigger] crate::agent_hooks::hook_run_ensured(
            before,
            middle,
            run.project_id,
            external_run_id,
            agent,
            now,
            found,
        ) && crate::agent_hooks::change_opened(
            middle,
            after,
            found,
            change_id@,
            list,
            now,
            result,
        );
    let b = choose|b: Result<RunBoundary, Error>|
        #[trigger] boundary_opened(before, after, run.id, change_id@, list, now, b) && is_outcome(
            b,
            result,
        );
    lemma_opened(before, after, run, change_id@, list, now, b->Ok_0);
    b->Ok_0
}

/// A `change_started` event opens a change of its Run, on the files that its paths lead to.
pub proof fn lemma_event_opens_its_change(
    before: Tables,
    after: Tables,
    event: AgentEvent,
    site: Site,
    disk: Seq<Place>,
    named_at: i64,
    now: i64,
    run: Run,
    result: Result<(Option<i64>, Reply), Error>,
) -> (found: (RunBoundary, Vec<String>))
    requires
        before.wf(),
        event.event@ == "change_started"@,
        before.sessions.contains(run),
        run.project_id == site.project_id,
        is_event_of(event, run),
        event.paths is Some,
        event.external_change_id is Some,
        !has_change(before, run, event.external_change_id->0@),
        event_processed(before, after, event, site, disk, named_at, now, result),
        result is Ok,
    ensures
        are_normalized(
            disk,
            site.root@,
            site.project_root@,
            text::views(event.paths->0@),
            Ok(found.1),
        ),
        is_opened(
            before,
            after,
            run,
            event.external_change_id->0@,
            text::views(found.1@),
            found.0,
        ),
        result->Ok_0.0 == Some(run.id),
{
    lemma_kinds_differ();
    lemma_reported_found(before, run, event);
    let inputs = text::views(event.paths->0@);
    let paths = choose|paths: Result<Vec<String>, Error>|
        {
            &&& #[trigger] are_normalized(disk, site.root@, site.project_root@, inputs, paths)
            &&& match paths {
                Err(e) => after == before && crate::agent_events::fails_with(result, e),
                Ok(list) => crate::agent_events::change_moved(
                    before,
                    after,
                    event,
                    run,
                    text::views(list@),
                    now,
                    result,
                ),
            }
        };
    let list = text::views(paths->Ok_0@);
    let change = event.external_change_id->0@;
    assert(exists|moved: Result<RunBoundary, Error>|
        crate::agent_events::boundary_moved(
            true,
            before,
            after,
            run.id,
            change,
            list,
            now,
            moved,
        ) && moved is Ok && result->Ok_0.0 == Some(run.id));
    let moved = choose|moved: Result<RunBoundary, Error>|
        crate::agent_events::boundary_moved(
            true,
            before,
            after,
            run.id,
            change,
            list,
            now,
            moved,
        ) && moved is Ok;
    assert(boundary_opened(before, after, run.id, change, list, now, moved));
    lemma_opened(before, after, run, change, list, now, moved->Ok_0);
    (moved->Ok_0, paths->Ok_0)
}

/// When a hook ends its Run, the Run has ended as completed, at the newest change of the
/// project. Where it has ended already, or is not there, nothing changes.
pub proof fn lemma_hook_ends_its_run(
    before: Tables,
    after: Tables,
    project_id: i64,
    external_run_id: Seq<char>,
    agent: Agent,
    now: i64,
    result: Result<(), Error>,
)
    requires
        before.wf(),
        hook_applied(
            before,
            after,
            project_id,
            external_run_id,
            agent,
            HookStep::End,
            now,
            result,
        ),
    ensures
        result is Ok,
        (forall|i: int|
            0 <= i < before.sessions.len() && is_known_as(
                #[trigger] before.sessions[i],
                project_id,
                external_run_id,
            ) ==> before.sessions[i].ended_at is Some) ==> after == before,
        forall|i: int|
            0 <= i < before.sessions.len() && is_known_as(
                #[trigger] before.sessions[i],
                project_id,
                external_run_id,
            ) && before.sessions[i].ended_at is None ==> {
                &&& after.sessions.len() == before.sessions.len()
                &&& after.sessions[i].id == before.sessions[i].id
                &&& after.sessions[i].status@ == "completed"@
                &&& after.sessions[i].ended_at == Some(now)
                &&& after.sessions[i].end_event_id is Some
                &&& is_newest(before.events, project_id, after.sessions[i].end_event_id->0)
                &&& after.events == before.events
            },
{
    let keep = is_external(project_id, external_run_id);
    rows::lemma_lookup_kept(before.sessions, keep);
    lemma_newest(before, project_id);
    if let Some(run) = rows::lookup(before.sessions, keep) {
        let k = choose|k: int| 0 <= k < before.sessions.len() && before.sessions[k] == run;
        assert(is_known_as(before.sessions[k], project_id, external_run_id));
    }
    assert forall|i: int|
        0 <= i < before.sessions.len() && is_known_as(
            #[trigger] before.sessions[i],
            project_id,
            external_run_id,
        ) && before.sessions[i].ended_at is None implies {
        &&& after.sessions.len() == before.sessions.len()
        &&& after.sessions[i].id == before.sessions[i].id
        &&& after.sessions[i].status@ == "completed"@
        &&& after.sessions[i].ended_at == Some(now)
        &&& after.sessions[i].end_event_id is Some
        &&& is_newest(before.events, project_id, after.sessions[i].end_event_id->0)
        &&& after.events == before.events
    } by {
        let run = before.sessions[i];
        assert(before.sessions.contains(run));
        lemma_known(before, run, external_run_id);
        lemma_lookup_run(before, run);
        let done = choose|done: Result<Run, Error>|
            #[trigger] run_completed(before, after, run.id, "completed"@, now, done) && is_outcome(
                done,
                result,
            );
        let r = done->Ok_0;
        let j = choose|j: int|
            0 <= j < before.sessions.len() && before.sessions[j] == run && after.sessions
                == #[trigger] before.sessions.update(j, r);
        if j < i {
            assert(before.sessions[j].row_id() < before.sessions[i].row_id());
        } else if i < j {
            assert(before.sessions[i].row_id() < before.sessions[j].row_id());
        }
    }
    if rows::lookup(before.sessions, keep) is Some {
        let run = rows::lookup(before.sessions, keep)->0;
        if run.ended_at is None {
            lemma_lookup_run(before, run);
        }
    }
}

/// A Run that is stopped is the one that is named, else the only active one, of those that
/// the folder sees. It ends with the outcome that was given, which is one of three; one
/// that has ended already stays as it is.
pub proof fn lemma_stopped_run_is_the_one_meant(
    before: Tables,
    after: Tables,
    cwd: Seq<char>,
    resolved: i64,
    reference: Option<Seq<char>>,
    status: Seq<char>,
    now: i64,
    r: Run,
) -> (run: Run)
    requires
        before.wf(),
        run_stopped(before, after, cwd, resolved, reference, status, now, Ok(r)),
    ensures
        status == "completed"@ || status == "failed"@ || status == "aborted"@,
        before.sessions.contains(run),
        reference is Some ==> is_named_here(before, cwd, resolved, reference->0, run),
        reference is None ==> is_active_here(before, cwd, resolved, run),
        r.id == run.id,
        run.ended_at is Some ==> r == run && after == before,
        run.ended_at is None ==> {
            &&& r.status@ == status
            &&& r.ended_at == Some(now)
            &&& r.end_event_id is Some
            &&& is_newest(before.events, run.project_id, r.end_event_id->0)
            &&& after.sessions.contains(r)
        },
{
    let found = choose|found: Result<Option<Run>, Error>|
        {
            &&& #[trigger] is_meant_run(before, cwd, resolved, reference, found)
            &&& match found {
                Ok(Some(run)) => run_completed(before, after, run.id, status, now, Ok(r)),
                _ => false,
            }
        };
    let run = found->Ok_0->0;
    match reference {
        Some(name) => {
            lemma_only_the_named_run_is_meant(before, cwd, resolved, name, found);
            lemma_found_run_is_named(before, run.project_id, name);
        },
        None => lemma_only_the_active_run_is_meant(before, cwd, resolved, found),
    }
    lemma_lookup_run(before, run);
    lemma_newest(before, run.project_id);
    if run.ended_at is None {
        let j = choose|j: int|
            0 <= j < before.sessions.len() && before.sessions[j] == run && after.sessions
                == #[trigger] before.sessions.update(j, r);
        assert(after.sessions[j] == r);
    }
    run
}

// ── plans ───────────────────────────────────────────────────────────

/// A plan that was carried out is known as applied, at that time. One that stopped on the
/// way is known as conflicted, is told as an error, and is never taken as applied. The
/// other plans stay, and so do all changes.
pub proof fn lemma_what_an_apply_leaves(
    before: Tables,
    after: Tables,
    at: int,
    files: usize,
    failure: Option<Seq<char>>,
    now: i64,
    result: Result<AppliedRecovery, Error>,
)
    requires
        before.wf(),
        after.wf(),
        0 <= at < before.recoveries.len(),
        before.recoveries[at].status@ == "planned"@,
        apply_ended(
            before,
            after,
            before.recoveries[at].project_id,
            before.recoveries[at],
            files,
            failure,
            now,
            result,
        ),
    ensures
        after.recoveries.len() == before.recoveries.len(),
        after.recoveries[at].id == before.recoveries[at].id,
        failure is Some ==> result is Err && after.recoveries[at].status@ == "conflicted"@
            && after.recoveries[at].applied_at == before.recoveries[at].applied_at,
        failure is None ==> {
            &&& after.recoveries[at].status@ == "applied"@
            &&& after.recoveries[at].applied_at == Some(now)
            &&& result is Ok
            &&& result->Ok_0.recovery == after.recoveries[at]
            &&& result->Ok_0.files_changed == files
            &&& !result->Ok_0.already_applied
        },
        forall|i: int|
            0 <= i < before.recoveries.len() && i != at ==> #[trigger] after.recoveries[i]
                == before.recoveries[i],
        after.entries == before.entries,
        after.events == before.events,
{
    let from = before.recoveries[at];
    assert(after.recoveries[at] == after.recoveries[at]);
    assert forall|i: int| 0 <= i < before.recoveries.len() && i != at implies
        #[trigger] after.recoveries[i] == before.recoveries[i] by {
        if i < at {
            assert(before.recoveries[i].row_id() < before.recoveries[at].row_id());
        } else {
            assert(before.recoveries[at].row_id() < before.recoveries[i].row_id());
        }
    }
    if failure is None {
        let r = after.recoveries[at];
        assert(after.recoveries.contains(r));
        lemma_plan_is_found(after, r, from.project_id);
        assert(recovery_name(from) == recovery_name(r));
    }
}

/// A plan is carried out only while it is planned, until it expires, and where nothing
/// about it is unclear.
pub proof fn lemma_when_a_plan_is_carried_out(r: Recovery, now: i64)
    ensures
        inapplicable(r, now) is None <==> r.status@ == "planned"@ && now <= r.expires_at
            && r.ambiguity is None,
{
}

/// An entry is not carried out on a file that is not as the plan expects it, nor on one
/// that cannot be looked at.
pub proof fn lemma_entry_is_for_the_file_as_it_was(entry: EntryView, content: Vec<u8>)
    requires
        entry.expected is Some,
    ensures
        state_problem(entry, CappedRead::Missing) is None <==> entry.expected == Some(
            (false, None::<Seq<char>>),
        ),
        state_problem(entry, CappedRead::Content(content)) is None <==> entry.expected == Some(
            (true, Some(crate::hex::content_hash(content@))),
        ),
{
}

/// Whether a plan says what it is for.
pub open spec fn is_labelled(
    r: Recovery,
    project_id: i64,
    run_id: Option<i64>,
    request: Seq<char>,
    kind: Seq<char>,
    confidence: Seq<char>,
    ambiguity: Option<Seq<char>>,
) -> bool {
    &&& r.project_id == project_id
    &&& r.run_id == run_id
    &&& r.request@ == request
    &&& r.kind@ == kind
    &&& r.confidence@ == confidence
    &&& is_text(r.ambiguity, ambiguity)
    &&& r.status@ == "planned"@
}

/// A saved plan is labelled as it was given.
proof fn lemma_labelled(
    before: Tables,
    after: Tables,
    project: WatchedProject,
    run_id: Option<i64>,
    request: Seq<char>,
    kind: Seq<char>,
    confidence: Seq<char>,
    ambiguity: Option<Seq<char>>,
    plan: Result<RestorePlan, Error>,
    spots: Seq<Spot>,
    now: i64,
    r: Recovery,
)
    requires
        outcome_persisted(
            before,
            after,
            project,
            run_id,
            request,
            kind,
            confidence,
            ambiguity,
            plan,
            spots,
            now,
            Ok(r),
        ),
    ensures
        is_labelled(r, project.id, run_id, request, kind, confidence, ambiguity),
        after.recoveries == before.recoveries.push(r),
        after.events == before.events,
{
    let entries = crate::restore::entries_view(plan->Ok_0.entries@);
    assert(plan_persisted(
        before,
        after,
        project,
        run_id,
        request,
        kind,
        confidence,
        ambiguity,
        entries,
        spots,
        now,
        Ok(r),
    ));
    let rows = crate::recoveries::rows_for(project.root_path@, entries, spots)->Ok_0;
    let list = choose|list: Seq<RecoveryEntry>|
        {
            &&& rows_view(list) == rows
            &&& #[trigger] recovery_created(
                before,
                after,
                project.id,
                run_id,
                request,
                kind,
                confidence,
                ambiguity,
                list,
                now,
                Ok(r),
            )
        };
}

/// A recovery to a time says that it is exact by time, and one to before a change that it
/// is exact by its paths; neither belongs to a Run, and nothing about them is unclear.
pub proof fn lemma_recoveries_without_a_run(
    before: Tables,
    after: Tables,
    project: WatchedProject,
    base: Seq<char>,
    path: Seq<char>,
    paths: Seq<Seq<char>>,
    time: i64,
    event_id: i64,
    request: Seq<char>,
    kind: Seq<char>,
    raw_symlink: bool,
    disk: Seq<Place>,
    spots: Seq<Spot>,
    now: i64,
    r: Recovery,
)
    ensures
        timestamp_recovery_created(
            before,
            after,
            project,
            base,
            path,
            time,
            request,
            kind,
            raw_symlink,
            disk,
            spots,
            now,
            Ok(r),
        ) ==> is_labelled(r, project.id, None, request, kind, "exact-timestamp"@, None),
        boundary_recovery_created(
            before,
            after,
            project,
            base,
            paths,
            event_id,
            request,
            kind,
            spots,
            now,
            Ok(r),
        ) ==> is_labelled(r, project.id, None, request, kind, "exact-paths"@, None),
{
    if timestamp_recovery_created(
        before,
        after,
        project,
        base,
        path,
        time,
        request,
        kind,
        raw_symlink,
        disk,
        spots,
        now,
        Ok(r),
    ) {
        let plan = choose|plan: Result<RestorePlan, Error>|
            #[trigger] outcome_persisted(
                before,
                after,
                project,
                None,
                request,
                kind,
                "exact-timestamp"@,
                None,
                plan,
                spots,
                now,
                Ok(r),
            );
        lemma_labelled(
            before,
            after,
            project,
            None,
            request,
            kind,
            "exact-timestamp"@,
            None,
            plan,
            spots,
            now,
            r,
        );
    }
    if boundary_recovery_created(
        before,
        after,
        project,
        base,
        paths,
        event_id,
        request,
        kind,
        spots,
        now,
        Ok(r),
    ) {
        let plan = choose|plan: Result<RestorePlan, Error>|
            #[trigger] outcome_persisted(
                before,
                after,
                project,
                None,
                request,
                kind,
                "exact-paths"@,
                None,
                plan,
                spots,
                now,
                Ok(r),
            );
        lemma_labelled(
            before,
            after,
            project,
            None,
            request,
            kind,
            "exact-paths"@,
            None,
            plan,
            spots,
            now,
            r,
        );
    }
}

/// A recovery of a Run belongs to the Run and says of itself what it was given; there is
/// none for a Run that is still active or is of another project.
pub proof fn lemma_recovery_of_a_run_is_labelled(
    before: Tables,
    after: Tables,
    project: WatchedProject,
    base: Seq<char>,
    run: Run,
    paths: Seq<Seq<char>>,
    request: Seq<char>,
    kind: Seq<char>,
    confidence: Seq<char>,
    ambiguity: Option<Seq<char>>,
    disk: Seq<Place>,
    spots: Seq<Spot>,
    now: i64,
    result: Result<Recovery, Error>,
)
    requires
        run_recovery_created(
            before,
            after,
            project,
            base,
            run,
            paths,
            request,
            kind,
            confidence,
            ambiguity,
            disk,
            spots,
            now,
            result,
        ),
    ensures
        run.ended_at is None || run.project_id != project.id ==> result is Err && after == before,
        result is Ok ==> is_labelled(
            result->Ok_0,
            project.id,
            Some(run.id),
            request,
            kind,
            confidence,
            ambiguity,
        ) && after.recoveries == before.recoveries.push(result->Ok_0),
{
    if result is Ok {
        let r = result->Ok_0;
        let plan = choose|plan: Result<RestorePlan, Error>|
            #[trigger] outcome_persisted(
                before,
                after,
                project,
                Some(run.id),
                request,
                kind,
                confidence,
                ambiguity,
                plan,
                spots,
                now,
                result,
            );
        lemma_labelled(
            before,
            after,
            project,
            Some(run.id),
            request,
            kind,
            confidence,
            ambiguity,
            plan,
            spots,
            now,
            r,
        );
    }
}

} // verus!
