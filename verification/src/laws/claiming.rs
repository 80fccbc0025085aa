//! Which changes a Run has made its own, and whose a file is.
use vstd::prelude::*;

use crate::db::claims::{
    announced, boundary_closed, boundary_opened, claim_count, claimed_by, claims_event, contested,
    foreign, is_change, on_event, owned, ownership, paths_checked,
};
use crate::db::events::{lemma_max_id, max_id};
use crate::db::runs::{events_of, in_window, is_run, run_completed, run_started, NewRun};
use crate::db::{Claim, Tables};
use crate::error::Error;
use crate::laws::moments::{moved_from, names_file};
use crate::models::{FileEvent, Run, RunBoundary};
use crate::rows;
use crate::rows::Row;

verus! {

// ── changes that a Run reports ──────────────────────────────────────

/// Whether a change names one of some paths.
pub open spec fn names_one(e: FileEvent, project_id: i64, paths: Seq<Seq<char>>) -> bool {
    exists|i: int| 0 <= i < paths.len() && names_file(e, project_id, #[trigger] paths[i])
}

/// The row with an id is looked up.
proof fn lemma_lookup_id<T: Row>(list: Seq<T>, keep: spec_fn(T) -> bool, row: T)
    requires
        rows::ids_grow(list),
        list.contains(row),
        forall|r: T| #[trigger] keep(r) <==> r.row_id() == row.row_id(),
    ensures
        rows::lookup(list, keep) == Some(row),
{
    let at = choose|at: int| 0 <= at < list.len() && list[at] == row;
    assert forall|k: int| 0 <= k < at implies !keep(#[trigger] list[k]) by {
        assert(list[k].row_id() < list[at].row_id());
    }
    rows::lemma_lookup(list, keep, Some(at));
}

/// A Run of the tables is looked up by its id.
pub proof fn lemma_lookup_run(t: Tables, run: Run)
    requires
        t.wf(),
        t.sessions.contains(run),
    ensures
        rows::lookup(t.sessions, is_run(run.id)) == Some(run),
{
    lemma_lookup_id(t.sessions, is_run(run.id), run);
}

/// A change of a Run is looked up by its external id.
proof fn lemma_lookup_change(t: Tables, b: RunBoundary)
    requires
        t.wf(),
        t.boundaries.contains(b),
    ensures
        rows::lookup(t.boundaries, is_change(b.run_id, b.external_change_id@)) == Some(b),
{
    let keep = is_change(b.run_id, b.external_change_id@);
    let at = choose|at: int| 0 <= at < t.boundaries.len() && t.boundaries[at] == b;
    assert forall|k: int| 0 <= k < at implies !keep(#[trigger] t.boundaries[k]) by {
        assert(!crate::db::same_change(t.boundaries[k], t.boundaries[at]));
    }
    rows::lemma_lookup(t.boundaries, keep, Some(at));
}

/// When an open change of a Run is closed, the Run claims every change of its project
/// since then that names one of the announced paths, whether a file was left there or
/// moved away from there. It claims nothing else, no claim is lost, and the recorded
/// changes stay.
pub proof fn lemma_closed_change_claims_what_it_announced(
    before: Tables,
    after: Tables,
    run: Run,
    opened: RunBoundary,
    paths: Seq<Seq<char>>,
    now: i64,
    result: Result<RunBoundary, Error>,
    closed: RunBoundary,
)
    requires
        before.wf(),
        before.sessions.contains(run),
        before.boundaries.contains(opened),
        opened.run_id == run.id,
        opened.status@ == "open"@,
        boundary_closed(before, after, run.id, opened.external_change_id@, paths, now, result),
        result == Ok::<RunBoundary, Error>(closed),
    ensures
        forall|i: int|
            0 <= i < before.events.len() && (#[trigger] before.events[i]).id
                > opened.start_event_id && names_one(before.events[i], run.project_id, paths)
                ==> after.claims.contains(
                Claim { session_id: run.id, event_id: before.events[i].id },
            ),
        forall|c: Claim| #[trigger]
            after.claims.contains(c) ==> before.claims.contains(c) || (c.session_id == run.id
                && exists|i: int|
                0 <= i < before.events.len() && (#[trigger] before.events[i]).id == c.event_id
                    && before.events[i].id > opened.start_event_id && names_one(
                    before.events[i],
                    run.project_id,
                    paths,
                )),
        forall|c: Claim| before.claims.contains(c) ==> #[trigger] after.claims.contains(c),
        after.events == before.events,
        closed.status@ == "closed"@,
        closed.id == opened.id,
        closed.start_event_id == opened.start_event_id,
        after.boundaries.contains(closed),
        closed.end_event_id matches Some(last) && forall|i: int|
            0 <= i < before.events.len() && (#[trigger] before.events[i]).project_id
                == run.project_id ==> before.events[i].id <= last,
{
    reveal_strlit("open");
    reveal_strlit("closed");
    reveal_strlit("aborted");
    assert("open"@.len() == 4 && "closed"@.len() == 6 && "aborted"@.len() == 7);
    lemma_lookup_run(before, run);
    lemma_lookup_change(before, opened);
    lemma_max_id(before.events, run.project_id);
    let last = max_id(before.events, run.project_id);
    let keep = claimed_by(
        run.project_id,
        opened.start_event_id,
        last as i64,
        before.boundary_paths,
        opened.id,
    );
    rows::lemma_retained_contains(before.events, keep);
    let chosen = rows::retained(before.events, keep);
    assert forall|e: FileEvent| #[trigger] keep(e) && before.events.contains(e) <==> before.events.contains(
        e,
    ) && e.id > opened.start_event_id && names_one(e, run.project_id, paths) by {
        if before.events.contains(e) && e.id > opened.start_event_id && names_one(
            e,
            run.project_id,
            paths,
        ) {
            let i = choose|i: int|
                0 <= i < paths.len() && names_file(e, run.project_id, #[trigger] paths[i]);
            assert(paths.contains(paths[i]));
            assert(announced(before.boundary_paths, opened.id, paths[i]));
            let k = choose|k: int| 0 <= k < before.events.len() && before.events[k] == e;
            assert(before.events[k].id <= last);
        }
        if keep(e) {
            let i = choose|i: int|
                0 <= i < before.boundary_paths.len() && (
                #[trigger] before.boundary_paths[i]).boundary_id == opened.id
                    && crate::db::events::touches(e, before.boundary_paths[i].path@);
            let p = before.boundary_paths[i].path@;
            assert(announced(before.boundary_paths, opened.id, p));
            assert(paths.contains(p));
            let j = choose|j: int| 0 <= j < paths.len() && paths[j] == p;
            assert(e.path@ == p || moved_from(e, p));
            assert(names_file(e, run.project_id, paths[j]));
        }
    }
    assert forall|i: int|
        0 <= i < before.events.len() && (#[trigger] before.events[i]).id > opened.start_event_id
            && names_one(before.events[i], run.project_id, paths) implies after.claims.contains(
        Claim { session_id: run.id, event_id: before.events[i].id },
    ) by {
        assert(before.events.contains(before.events[i]));
        assert(keep(before.events[i]));
        assert(chosen.contains(before.events[i]));
        assert(crate::db::has_event(chosen, before.events[i].id));
    }
    assert forall|c: Claim| #[trigger] after.claims.contains(c) && !before.claims.contains(
        c,
    ) implies c.session_id == run.id && exists|i: int|
        0 <= i < before.events.len() && (#[trigger] before.events[i]).id == c.event_id
            && before.events[i].id > opened.start_event_id && names_one(
            before.events[i],
            run.project_id,
            paths,
        ) by {
        let k = choose|k: int| 0 <= k < chosen.len() && (#[trigger] chosen[k]).id == c.event_id;
        assert(chosen.contains(chosen[k]));
        let m = choose|m: int| 0 <= m < before.events.len() && before.events[m] == chosen[k];
        assert(keep(before.events[m]));
    }
    let at = choose|at: int|
        0 <= at < before.boundaries.len() && before.boundaries[at] == opened && after.boundaries
            == #[trigger] before.boundaries.update(at, closed);
    assert(after.boundaries[at] == closed);
}

/// A change that a Run opens is closed with the paths with which it was opened, and
/// claims every change to one of them that was recorded in between.
pub proof fn lemma_change_claims_what_happened_in_between(
    before: Tables,
    opened: Tables,
    during: Tables,
    after: Tables,
    run: Run,
    external_change_id: Seq<char>,
    paths: Seq<Seq<char>>,
    now: i64,
    later: i64,
    b: RunBoundary,
    result: Result<RunBoundary, Error>,
)
    requires
        before.wf(),
        during.wf(),
        before.sessions.contains(run),
        boundary_opened(before, opened, run.id, external_change_id, paths, now, Ok(b)),
        !before.boundaries.contains(b),
        during.sessions.contains(run),
        during.boundaries.contains(b),
        during.boundary_paths == opened.boundary_paths,
        during.projects == opened.projects,
        boundary_closed(during, after, run.id, external_change_id, paths, later, result),
    ensures
        result is Ok,
        b.status@ == "open"@,
        forall|i: int|
            0 <= i < during.events.len() && is_new_event(
                before.events,
                run.project_id,
                #[trigger] during.events[i],
            ) && names_one(during.events[i], run.project_id, paths) ==> after.claims.contains(
                Claim { session_id: run.id, event_id: during.events[i].id },
            ),
{
    reveal_strlit("open");
    reveal_strlit("closed");
    reveal_strlit("aborted");
    assert("open"@.len() == 4 && "closed"@.len() == 6 && "aborted"@.len() == 7);
    lemma_lookup_run(before, run);
    rows::lemma_lookup_kept(before.boundaries, is_change(run.id, external_change_id));
    assert(rows::lookup(before.boundaries, is_change(run.id, external_change_id)) is None);
    lemma_lookup_run(during, run);
    lemma_lookup_change(during, b);
    let list = choose|list: Seq<Seq<char>>|
        crate::sorted::is_sorted_set(paths, list) && #[trigger] crate::db::claims::paths_announced(
            before.boundary_paths,
            opened.boundary_paths,
            b.id,
            list,
        );
    assert forall|p: Seq<char>|
        announced(during.boundary_paths, b.id, p) <==> #[trigger] paths.contains(p) by {
        let n = before.boundary_paths.len() as int;
        if paths.contains(p) {
            assert(list.contains(p));
            let k = choose|k: int| 0 <= k < list.len() && list[k] == p;
            assert(opened.boundary_paths[n + k].path@ == p);
        }
        if announced(during.boundary_paths, b.id, p) {
            let k = choose|k: int|
                0 <= k < during.boundary_paths.len() && (
                #[trigger] during.boundary_paths[k]).boundary_id == b.id
                    && during.boundary_paths[k].path@ == p;
            if k < n {
                assert(opened.boundary_paths[k] == before.boundary_paths[k]);
                assert(before.boundary_paths[k].boundary_id <= before.last.boundaries);
            }
            assert(list[k - n] == p);
            assert(list.contains(p));
        }
    }
    assert(!(exists|e: Seq<char>| #[trigger] paths_checked(during, run, paths, Err(e)))) by {
        if exists|e: Seq<char>| #[trigger] paths_checked(during, run, paths, Err(e)) {
            let e = choose|e: Seq<char>| #[trigger] paths_checked(during, run, paths, Err(e));
            assert(paths_checked(before, run, paths, Err(e)));
        }
    }
    assert(result is Ok);
    lemma_max_id(before.events, run.project_id);
    lemma_closed_change_claims_what_it_announced(
        during,
        after,
        run,
        b,
        paths,
        later,
        result,
        result->Ok_0,
    );
    assert forall|i: int|
        0 <= i < during.events.len() && is_new_event(
            before.events,
            run.project_id,
            #[trigger] during.events[i],
        ) && names_one(during.events[i], run.project_id, paths) implies during.events[i].id
        > b.start_event_id by {
        if max_id(before.events, run.project_id) > 0 {
            let k = choose|k: int|
                0 <= k < before.events.len() && (#[trigger] before.events[k]).project_id
                    == run.project_id && before.events[k].id == max_id(
                    before.events,
                    run.project_id,
                );
            assert(before.events[k].id < during.events[i].id);
        }
    }
}

/// Whether a change came after all that a project had.
pub open spec fn is_new_event(events: Seq<FileEvent>, project_id: i64, e: FileEvent) -> bool {
    e.id > 0 && forall|i: int|
        0 <= i < events.len() && (#[trigger] events[i]).project_id == project_id ==> events[i].id
            < e.id
}

// ── Runs that record by time ────────────────────────────────────────

/// A Run that records by time claims, when it ends, every change of its project that
/// was recorded after it began and in its time, and nothing else. Changes that it
/// does not end with stay whose they were.
pub proof fn lemma_window_run_claims_its_time(
    before: Tables,
    after: Tables,
    run: Run,
    status: Seq<char>,
    now: i64,
    result: Result<Run, Error>,
)
    requires
        before.wf(),
        before.sessions.contains(run),
        run.ended_at is None,
        run.attribution_mode@ != "reported"@,
        run_completed(before, after, run.id, status, now, result),
    ensures
        forall|i: int|
            0 <= i < before.events.len() && is_in_time(run, now, #[trigger] before.events[i])
                ==> after.claims.contains(
                Claim { session_id: run.id, event_id: before.events[i].id },
            ),
        forall|c: Claim| #[trigger]
            after.claims.contains(c) ==> before.claims.contains(c) || (c.session_id == run.id
                && exists|i: int|
                0 <= i < before.events.len() && (#[trigger] before.events[i]).id == c.event_id
                    && is_in_time(run, now, before.events[i])),
        forall|c: Claim| before.claims.contains(c) ==> #[trigger] after.claims.contains(c),
        result matches Ok(ended) && ended.id == run.id && ended.status@ == status
            && ended.ended_at == Some(now) && ended.start_event_id == run.start_event_id
            && after.sessions.contains(ended),
        after.events == before.events,
        after.boundaries == before.boundaries,
{
    lemma_lookup_run(before, run);
    lemma_max_id(before.events, run.project_id);
    let last = max_id(before.events, run.project_id);
    let keep = in_window(run, now, last as i64);
    rows::lemma_retained_contains(before.events, keep);
    let chosen = rows::retained(before.events, keep);
    assert forall|i: int|
        0 <= i < before.events.len() && is_in_time(run, now, #[trigger] before.events[i]) implies
        after.claims.contains(Claim { session_id: run.id, event_id: before.events[i].id }) by {
        assert(before.events[i].id <= last);
        assert(before.events.contains(before.events[i]));
        assert(chosen.contains(before.events[i]));
        assert(crate::db::has_event(chosen, before.events[i].id));
    }
    assert forall|c: Claim| #[trigger] after.claims.contains(c) && !before.claims.contains(
        c,
    ) implies c.session_id == run.id && exists|i: int|
        0 <= i < before.events.len() && (#[trigger] before.events[i]).id == c.event_id
            && is_in_time(run, now, before.events[i]) by {
        let k = choose|k: int| 0 <= k < chosen.len() && (#[trigger] chosen[k]).id == c.event_id;
        assert(chosen.contains(chosen[k]));
        let m = choose|m: int| 0 <= m < before.events.len() && before.events[m] == chosen[k];
        assert(keep(before.events[m]));
    }
    lemma_ended_run_is_there(before, after, run, status, now, result);
}

/// Whether a change was recorded in the time of a Run, up to its end.
pub open spec fn is_in_time(run: Run, end: i64, e: FileEvent) -> bool {
    &&& e.project_id == run.project_id
    &&& e.id > run.start_event_id
    &&& run.started_at <= e.timestamp <= end
}

/// A Run that ends is in the tables as it ended.
proof fn lemma_ended_run_is_there(
    before: Tables,
    after: Tables,
    run: Run,
    status: Seq<char>,
    now: i64,
    result: Result<Run, Error>,
)
    requires
        before.wf(),
        before.sessions.contains(run),
        run.ended_at is None,
        run_completed(before, after, run.id, status, now, result),
    ensures
        result matches Ok(ended) && after.sessions.contains(ended),
{
    lemma_lookup_run(before, run);
    let ended = result->Ok_0;
    let at = choose|at: int|
        0 <= at < before.sessions.len() && before.sessions[at] == run && after.sessions
            == #[trigger] before.sessions.update(at, ended);
    assert(after.sessions[at] == ended);
}

/// A reported Run claims nothing by ending; of its changes those that are open are
/// aborted and all others stay as they are, and so do those of other Runs.
pub proof fn lemma_reported_run_keeps_its_claims(
    before: Tables,
    after: Tables,
    run: Run,
    status: Seq<char>,
    now: i64,
    result: Result<Run, Error>,
)
    requires
        before.wf(),
        before.sessions.contains(run),
        run.ended_at is None,
        run.attribution_mode@ == "reported"@,
        run_completed(before, after, run.id, status, now, result),
    ensures
        after.claims == before.claims,
        after.events == before.events,
        after.boundaries.len() == before.boundaries.len(),
        forall|i: int|
            0 <= i < before.boundaries.len() ==> if before.boundaries[i].run_id == run.id
                && before.boundaries[i].status@ == "open"@ {
                &&& (#[trigger] after.boundaries[i]).status@ == "aborted"@
                &&& after.boundaries[i].id == before.boundaries[i].id
                &&& after.boundaries[i].end_event_id == before.boundaries[i].end_event_id
            } else {
                after.boundaries[i] == before.boundaries[i]
            },
        result matches Ok(ended) && ended.id == run.id && ended.status@ == status
            && ended.ended_at == Some(now) && after.sessions.contains(ended),
{
    lemma_lookup_run(before, run);
    lemma_ended_run_is_there(before, after, run, status, now, result);
}

// ── whose a file is ─────────────────────────────────────────────────

/// Whether a Run claims a change.
pub open spec fn has_claim_on(t: Tables, run_id: i64, e: FileEvent) -> bool {
    t.claims.contains(Claim { session_id: run_id, event_id: e.id })
}

/// Whether a Run claims a change, and no other does.
pub open spec fn is_alone_on(t: Tables, run_id: i64, e: FileEvent) -> bool {
    has_claim_on(t, run_id, e) && forall|other: i64|
        other != run_id ==> !#[trigger] has_claim_on(t, other, e)
}

/// Whether some change to a file is claimed by a Run.
pub open spec fn has_part(t: Tables, run: Run, path: Seq<char>) -> bool {
    exists|i: int|
        0 <= i < t.events.len() && names_file(#[trigger] t.events[i], run.project_id, path)
            && has_claim_on(t, run.id, t.events[i])
}

/// Whether some change to a file is claimed by a Run and by another one.
pub open spec fn has_rival(t: Tables, run: Run, path: Seq<char>) -> bool {
    exists|i: int|
        0 <= i < t.events.len() && names_file(#[trigger] t.events[i], run.project_id, path)
            && has_claim_on(t, run.id, t.events[i]) && !is_alone_on(t, run.id, t.events[i])
}

/// Whether a Run is alone on every change to a file since it began.
pub open spec fn is_only_one_since(t: Tables, run: Run, path: Seq<char>) -> bool {
    forall|i: int|
        0 <= i < t.events.len() && names_file(#[trigger] t.events[i], run.project_id, path)
            && t.events[i].id > run.start_event_id ==> is_alone_on(t, run.id, t.events[i])
}

/// Where more than one claim is counted, there are two.
proof fn lemma_counted_twice(claims: Seq<Claim>, event_id: i64) -> (pair: (int, int))
    requires
        claim_count(claims, event_id) > 1,
    ensures
        0 <= pair.0 < pair.1 < claims.len(),
        claims[pair.0].event_id == event_id,
        claims[pair.1].event_id == event_id,
    decreases claims.len(),
{
    let front = claims.drop_last();
    let n = claims.len() - 1;
    if claim_count(front, event_id) > 1 {
        let pair = lemma_counted_twice(front, event_id);
        assert(front[pair.0] == claims[pair.0] && front[pair.1] == claims[pair.1]);
        pair
    } else {
        rows::lemma_kept_some(front, on_event(event_id));
        let i = choose|i: int| 0 <= i < front.len() && on_event(event_id)(#[trigger] front[i]);
        assert(claims[i] == front[i]);
        (i, n)
    }
}

/// A change that a Run claims is claimed once exactly where no other Run does.
proof fn lemma_alone(t: Tables, run_id: i64, e: FileEvent)
    requires
        t.wf(),
        has_claim_on(t, run_id, e),
    ensures
        is_alone_on(t, run_id, e) <==> claim_count(t.claims, e.id) == 1,
        claim_count(t.claims, e.id) >= 1,
{
    let mine = Claim { session_id: run_id, event_id: e.id };
    let a = choose|a: int| 0 <= a < t.claims.len() && t.claims[a] == mine;
    rows::lemma_kept_some(t.claims, on_event(e.id));
    assert(on_event(e.id)(t.claims[a]));
    if claim_count(t.claims, e.id) > 1 {
        let pair = lemma_counted_twice(t.claims, e.id);
        let other = if t.claims[pair.0].session_id != run_id {
            t.claims[pair.0]
        } else {
            t.claims[pair.1]
        };
        assert(t.claims[pair.0] != t.claims[pair.1]);
        assert(other.session_id != run_id);
        assert(t.claims.contains(other));
        assert(other == (Claim { session_id: other.session_id, event_id: e.id }));
        assert(has_claim_on(t, other.session_id, e));
    }
    if !is_alone_on(t, run_id, e) {
        let other = choose|other: i64| other != run_id && #[trigger] has_claim_on(t, other, e);
        let theirs = Claim { session_id: other, event_id: e.id };
        let b = choose|b: int| 0 <= b < t.claims.len() && t.claims[b] == theirs;
        if a < b {
            crate::laws::lemma_two_claims(t.claims, a, b, e.id);
        } else {
            crate::laws::lemma_two_claims(t.claims, b, a, e.id);
        }
    }
}

/// Whose a file is follows from the claims alone. It is no matter of a Run that claims
/// no change to it; a collision where another Run claims the same change; the Run's
/// own where every change since the Run began is claimed by it and by no other; else
/// others have changed it in between.
pub proof fn lemma_whose_a_file_is(t: Tables, run: Run, path: Seq<char>)
    requires
        t.wf(),
    ensures
        ownership(t, run, path) == if !has_part(t, run, path) {
            "unattributed"@
        } else if has_rival(t, run, path) {
            "collision"@
        } else if is_only_one_since(t, run, path) {
            "exclusive"@
        } else {
            "interleaved"@
        },
{
    assert forall|e: FileEvent| #[trigger]
        owned(t, run, path)(e) <==> names_file(e, run.project_id, path) && has_claim_on(
            t,
            run.id,
            e,
        ) by {
        assert(moved_from(e, path) <==> crate::text::is_some_text(e.old_path, path));
    }
    assert forall|e: FileEvent| #[trigger]
        contested(t, run, path)(e) <==> names_file(e, run.project_id, path) && has_claim_on(
            t,
            run.id,
            e,
        ) && !is_alone_on(t, run.id, e) by {
        assert(owned(t, run, path)(e) <==> names_file(e, run.project_id, path) && has_claim_on(
            t,
            run.id,
            e,
        ));
        if has_claim_on(t, run.id, e) {
            lemma_alone(t, run.id, e);
        }
    }
    assert forall|e: FileEvent| #[trigger]
        foreign(t, run, path)(e) <==> names_file(e, run.project_id, path) && e.id
            > run.start_event_id && !is_alone_on(t, run.id, e) by {
        assert(moved_from(e, path) <==> crate::text::is_some_text(e.old_path, path));
        if has_claim_on(t, run.id, e) {
            lemma_alone(t, run.id, e);
        }
        assert(claims_event(t.claims, run.id, e.id) <==> has_claim_on(t, run.id, e));
    }
    if has_part(t, run, path) {
        let i = choose|i: int|
            0 <= i < t.events.len() && names_file(#[trigger] t.events[i], run.project_id, path)
                && has_claim_on(t, run.id, t.events[i]);
        assert(owned(t, run, path)(t.events[i]));
    }
    if has_rival(t, run, path) {
        let i = choose|i: int|
            0 <= i < t.events.len() && names_file(#[trigger] t.events[i], run.project_id, path)
                && has_claim_on(t, run.id, t.events[i]) && !is_alone_on(t, run.id, t.events[i]);
        assert(contested(t, run, path)(t.events[i]));
    }
    if !is_only_one_since(t, run, path) {
        let i = choose|i: int|
            0 <= i < t.events.len() && names_file(#[trigger] t.events[i], run.project_id, path)
                && t.events[i].id > run.start_event_id && !is_alone_on(t, run.id, t.events[i]);
        assert(foreign(t, run, path)(t.events[i]));
    } else {
        assert forall|i: int| 0 <= i < t.events.len() implies !foreign(t, run, path)(
            #[trigger] t.events[i],
        ) by {
            assert(foreign(t, run, path)(t.events[i]) <==> names_file(
                t.events[i],
                run.project_id,
                path,
            ) && t.events[i].id > run.start_event_id && !is_alone_on(t, run.id, t.events[i]));
        }
    }
}

/// A Run that starts is active, and begins right behind what its project has: every
/// change that is recorded later is one of its time.
pub proof fn lemma_run_starts_behind_what_was(
    before: Tables,
    after: Tables,
    project_id: i64,
    new: NewRun,
    now: i64,
    run: Run,
)
    requires
        run_started(before, after, project_id, new, now, Ok(run)),
        !before.sessions.contains(run),
    ensures
        after.sessions == before.sessions.push(run),
        after.events == before.events,
        after.claims == before.claims,
        run.project_id == project_id,
        run.name@ == new.name,
        run.attribution_mode@ == new.attribution_mode,
        run.status@ == "active"@,
        run.started_at == now,
        run.ended_at is None,
        run.id == before.last.sessions + 1,
        forall|i: int|
            0 <= i < before.events.len() && (#[trigger] before.events[i]).project_id == project_id
                ==> before.events[i].id <= run.start_event_id,
        run.start_event_id == 0 || exists|i: int|
            0 <= i < before.events.len() && (#[trigger] before.events[i]).project_id == project_id
                && before.events[i].id == run.start_event_id,
{
    rows::lemma_lookup_kept(
        before.sessions,
        crate::db::runs::is_external(project_id, new.external_id->0),
    );
    lemma_max_id(before.events, project_id);
}

/// The changes of a Run are those that it claims, as soon as it claims any or reports
/// them; else those of its time.
pub proof fn lemma_changes_of_a_run(t: Tables, run: Run, now: i64, e: FileEvent)
    requires
        t.events.contains(e),
    ensures
        (run.attribution_mode@ == "reported"@ || exists|i: int|
            0 <= i < t.claims.len() && (#[trigger] t.claims[i]).session_id == run.id) ==> (
        events_of(t, run, now)(e) <==> has_claim_on(t, run.id, e)),
        !(run.attribution_mode@ == "reported"@ || exists|i: int|
            0 <= i < t.claims.len() && (#[trigger] t.claims[i]).session_id == run.id) ==> (
        events_of(t, run, now)(e) <==> is_in_time(
            run,
            if run.ended_at is Some {
                run.ended_at->0
            } else {
                now
            },
            e,
        ) && (run.end_event_id is None || e.id <= run.end_event_id->0)),
{
    let mine = crate::db::claims::of_session(run.id);
    rows::lemma_kept_some(t.claims, mine);
    if rows::kept(t.claims, mine) > 0 {
        let i = choose|i: int| 0 <= i < t.claims.len() && mine(#[trigger] t.claims[i]);
        assert(t.claims[i].session_id == run.id);
    } else if exists|i: int| 0 <= i < t.claims.len() && (#[trigger] t.claims[i]).session_id
        == run.id {
        let i = choose|i: int|
            0 <= i < t.claims.len() && (#[trigger] t.claims[i]).session_id == run.id;
        assert(mine(t.claims[i]));
    }
    lemma_max_id(t.events, run.project_id);
    let k = choose|k: int| 0 <= k < t.events.len() && t.events[k] == e;
    assert(t.events[k].project_id == run.project_id ==> t.events[k].id <= max_id(
        t.events,
        run.project_id,
    ));
}

} // verus!
