//! Which Run, plan or version is meant.
use vstd::prelude::*;

use crate::db::projects::is_covering;
use crate::db::recoveries::{are_entries, is_recovery, recovery_by_ref};
use crate::db::runs::{active_of, is_active_session, is_named, is_run, run_by_ref};
use crate::db::{lemma_public_id_names_its_id, public_id_of, Tables};
use crate::error::Error;
use crate::laws::claiming::lemma_lookup_run;
use crate::laws::recording::{is_inside, lemma_inside};
use crate::models::{Recovery, RecoveryEntry, Run, WatchedProject};
use crate::number;
use crate::path;
use crate::recovery_apply::{
    choice_problem, inapplicable, is_selection, part_chosen, part_saved, recovery_name, row_at,
};
use crate::rows;
use crate::rows::{Order, Row};
use crate::runs::{active_runs, has_run_id, is_context, is_meant_run, runs_by_ref, with_ids};
use crate::sorted;
use crate::text;

verus! {

// ── Runs ────────────────────────────────────────────────────────────

/// Whether a folder sees the Runs of a project: the project records the folder, or its
/// own folder holds it.
pub open spec fn sees(t: Tables, cwd: Seq<char>, resolved: i64, project_id: i64) -> bool {
    project_id == resolved || exists|i: int|
        0 <= i < t.projects.len() && (#[trigger] t.projects[i]).id == project_id && is_inside(
            cwd,
            t.projects[i].root_path@,
        )
}

/// Whether a Run that a folder sees is active.
pub open spec fn is_active_here(t: Tables, cwd: Seq<char>, resolved: i64, run: Run) -> bool {
    t.sessions.contains(run) && run.ended_at is None && sees(t, cwd, resolved, run.project_id)
}

/// The projects that a folder sees are listed once each.
proof fn lemma_with_ids(first: i64, projects: Seq<WatchedProject>)
    ensures
        with_ids(first, projects).no_duplicates(),
        forall|id: i64| #[trigger]
            with_ids(first, projects).contains(id) <==> id == first || exists|i: int|
                0 <= i < projects.len() && (#[trigger] projects[i]).id == id,
    decreases projects.len(),
{
    let all = with_ids(first, projects);
    if projects.len() == 0 {
        assert(all[0] == first);
    } else {
        let front = projects.drop_last();
        lemma_with_ids(first, front);
        let before = with_ids(first, front);
        let last = projects.last().id;
        let n = front.len() as int;
        assert forall|id: i64| #[trigger] all.contains(id) <==> id == first || exists|i: int|
            0 <= i < projects.len() && (#[trigger] projects[i]).id == id by {
            if all.contains(id) {
                let k = choose|k: int| 0 <= k < all.len() && all[k] == id;
                if k < before.len() {
                    assert(before[k] == id);
                    assert(before.contains(id));
                    if id != first {
                        let i = choose|i: int|
                            0 <= i < front.len() && (#[trigger] front[i]).id == id;
                        assert(projects[i].id == id);
                    }
                } else {
                    assert(projects[n].id == id);
                }
            }
            if id == first {
                assert(before.contains(id));
            }
            if exists|i: int| 0 <= i < projects.len() && (#[trigger] projects[i]).id == id {
                let i = choose|i: int| 0 <= i < projects.len() && (#[trigger] projects[i]).id == id;
                if i < n {
                    assert(front[i].id == id);
                    assert(before.contains(id));
                }
            }
            if before.contains(id) {
                let k = choose|k: int| 0 <= k < before.len() && before[k] == id;
                assert(all[k] == id);
            }
            if id == last && !before.contains(last) {
                assert(all[before.len() as int] == id);
            }
        }
    }
}

/// A folder sees the projects of its context and no others.
proof fn lemma_context(t: Tables, cwd: Seq<char>, resolved: i64, ids: Seq<i64>)
    requires
        is_context(t.projects, cwd, resolved, ids),
    ensures
        ids.no_duplicates(),
        forall|id: i64| #[trigger] ids.contains(id) <==> sees(t, cwd, resolved, id),
{
    let covering = choose|covering: Seq<WatchedProject>|
        #[trigger] is_covering(t.projects, cwd, covering) && ids == with_ids(resolved, covering);
    lemma_with_ids(resolved, covering);
    assert forall|id: i64| #[trigger] ids.contains(id) <==> sees(t, cwd, resolved, id) by {
        if ids.contains(id) && id != resolved {
            let i = choose|i: int| 0 <= i < covering.len() && (#[trigger] covering[i]).id == id;
            assert(t.projects.contains(covering[i]));
            let k = choose|k: int| 0 <= k < t.projects.len() && t.projects[k] == covering[i];
            lemma_inside(cwd, t.projects[k].root_path@);
            assert(t.projects[k].id == id);
        }
        if sees(t, cwd, resolved, id) && id != resolved {
            let k = choose|k: int|
                0 <= k < t.projects.len() && (#[trigger] t.projects[k]).id == id && is_inside(
                    cwd,
                    t.projects[k].root_path@,
                );
            lemma_inside(cwd, t.projects[k].root_path@);
            assert(covering.contains(t.projects[k]));
            let i = choose|i: int| 0 <= i < covering.len() && covering[i] == t.projects[k];
            assert(covering[i].id == id);
        }
    }
}

/// The active Runs of projects are listed once each.
proof fn lemma_active_runs(sessions: Seq<Run>, ids: Seq<i64>)
    requires
        rows::ids_grow(sessions),
        ids.no_duplicates(),
    ensures
        active_runs(sessions, ids).no_duplicates(),
        forall|r: Run| #[trigger]
            active_runs(sessions, ids).contains(r) <==> sessions.contains(r) && r.ended_at is None
                && ids.contains(r.project_id),
    decreases ids.len(),
{
    let all = active_runs(sessions, ids);
    if ids.len() > 0 {
        let front = ids.drop_last();
        let last = ids.last();
        lemma_active_runs(sessions, front);
        let before = active_runs(sessions, front);
        let keep = active_of(last);
        rows::lemma_listing(sessions, Order::Newest, keep);
        let own = rows::listed(sessions, Order::Newest, keep);
        let n = before.len() as int;
        assert forall|r: Run| #[trigger] own.contains(r) <==> sessions.contains(r) && keep(r) by {
            if own.contains(r) {
                let k = choose|k: int| 0 <= k < own.len() && own[k] == r;
                assert(sessions.contains(own[k]) && keep(own[k]));
            }
            if sessions.contains(r) && keep(r) {
                let k = choose|k: int| 0 <= k < sessions.len() && sessions[k] == r;
                assert(own.contains(sessions[k]));
            }
        }
        assert forall|r: Run| #[trigger]
            all.contains(r) <==> before.contains(r) || own.contains(r) by {
            if all.contains(r) {
                let k = choose|k: int| 0 <= k < all.len() && all[k] == r;
                if k < n {
                    assert(before[k] == r);
                } else {
                    assert(own[k - n] == r);
                }
            }
            if before.contains(r) {
                let k = choose|k: int| 0 <= k < before.len() && before[k] == r;
                assert(all[k] == r);
            }
            if own.contains(r) {
                let k = choose|k: int| 0 <= k < own.len() && own[k] == r;
                assert(all[n + k] == r);
            }
        }
        assert forall|id: i64| ids.contains(id) <==> front.contains(id) || id == last by {
            if ids.contains(id) {
                let k = choose|k: int| 0 <= k < ids.len() && ids[k] == id;
                if k < front.len() {
                    assert(front[k] == id);
                }
            }
            if front.contains(id) {
                let k = choose|k: int| 0 <= k < front.len() && front[k] == id;
                assert(ids[k] == id);
            }
            assert(ids[ids.len() - 1] == last);
        }
        assert(!front.contains(last)) by {
            if front.contains(last) {
                let k = choose|k: int| 0 <= k < front.len() && front[k] == last;
                assert(ids[k] == ids[ids.len() - 1]);
            }
        }
        assert forall|i: int, j: int|
            0 <= i < all.len() && 0 <= j < all.len() && i != j implies all[i] != all[j] by {
            lemma_apart(before, own, last, i, j);
        }
    }
}

/// Two places of two lists hold two Runs.
proof fn lemma_apart(before: Seq<Run>, own: Seq<Run>, last: i64, i: int, j: int)
    requires
        before.no_duplicates(),
        forall|r: Run| #[trigger] before.contains(r) ==> r.project_id != last,
        forall|k: int| 0 <= k < own.len() ==> (#[trigger] own[k]).project_id == last,
        forall|a: int, b: int|
            0 <= a < b < own.len() ==> rows::row_before(
                Order::Newest,
                #[trigger] own[a],
                #[trigger] own[b],
            ),
        0 <= i < (before + own).len(),
        0 <= j < (before + own).len(),
        i != j,
    ensures
        (before + own)[i] != (before + own)[j],
{
    let n = before.len() as int;
    if i < n {
        assert(before.contains(before[i]));
    }
    if j < n {
        assert(before.contains(before[j]));
    }
    if i >= n && j >= n {
        if i < j {
            assert(rows::row_before(Order::Newest, own[i - n], own[j - n]));
        } else {
            assert(rows::row_before(Order::Newest, own[j - n], own[i - n]));
        }
    }
}

/// Where no Run is named, the one that is active is meant, of all that the folder sees;
/// none where none is, and where several are none is guessed.
pub proof fn lemma_only_the_active_run_is_meant(
    t: Tables,
    cwd: Seq<char>,
    resolved: i64,
    result: Result<Option<Run>, Error>,
)
    requires
        t.wf(),
        is_meant_run(t, cwd, resolved, None, result),
    ensures
        match result {
            Ok(Some(run)) => is_active_here(t, cwd, resolved, run) && forall|r: Run| #[trigger]
                is_active_here(t, cwd, resolved, r) ==> r == run,
            Ok(None) => forall|r: Run| !#[trigger] is_active_here(t, cwd, resolved, r),
            Err(_) => exists|a: Run, b: Run|
                #![trigger is_active_here(t, cwd, resolved, a), is_active_here(t, cwd, resolved, b)]
                a != b && is_active_here(t, cwd, resolved, a) && is_active_here(
                    t,
                    cwd,
                    resolved,
                    b,
                ),
        },
{
    let ids = choose|ids: Seq<i64>|
        {
            &&& #[trigger] is_context(t.projects, cwd, resolved, ids)
            &&& crate::runs::is_active_in_context(t.sessions, ids, result)
        };
    lemma_context(t, cwd, resolved, ids);
    lemma_active_runs(t.sessions, ids);
    let active = active_runs(t.sessions, ids);
    assert forall|r: Run| #[trigger]
        is_active_here(t, cwd, resolved, r) <==> active.contains(r) by {
        assert(ids.contains(r.project_id) <==> sees(t, cwd, resolved, r.project_id));
    }
    if active.len() > 0 {
        assert(active.contains(active[0]));
        if active.len() == 1 {
            assert forall|r: Run| #[trigger] is_active_here(t, cwd, resolved, r) implies r
                == active[0] by {
                let k = choose|k: int| 0 <= k < active.len() && active[k] == r;
            }
        } else {
            assert(active.contains(active[1]));
            assert(active[0] != active[1]);
            assert(is_active_here(t, cwd, resolved, active[0]) && is_active_here(
                t,
                cwd,
                resolved,
                active[1],
            ));
        }
    }
}

/// A Run of a project is found there by its public id, and by its name. Its public id
/// finds nothing in another project.
pub proof fn lemma_run_is_found(t: Tables, run: Run, project_id: i64)
    requires
        t.wf(),
        t.sessions.contains(run),
    ensures
        run.project_id == project_id ==> run_by_ref(
            t.sessions,
            project_id,
            "r_"@ + number::decimal(run.id as int),
        ) == Some(run),
        run.project_id != project_id ==> run_by_ref(
            t.sessions,
            project_id,
            "r_"@ + number::decimal(run.id as int),
        ) is None,
        run.project_id == project_id && public_id_of(run.name@, "r_"@) is None ==> run_by_ref(
            t.sessions,
            project_id,
            run.name@,
        ) == Some(run),
{
    lemma_public_id_names_its_id("r_"@, run.id);
    lemma_lookup_run(t, run);
    if run.project_id == project_id {
        let keep = is_named(project_id, run.name@);
        let at = choose|at: int| 0 <= at < t.sessions.len() && t.sessions[at] == run;
        assert forall|k: int| 0 <= k < at implies !keep(#[trigger] t.sessions[k]) by {
            assert(!crate::db::same_run(t.sessions[k], t.sessions[at]));
        }
        rows::lemma_lookup(t.sessions, keep, Some(at));
    }
}

/// Whatever a reference finds is a Run of the project that has the reference as its
/// public id or its name.
pub proof fn lemma_found_run_is_named(t: Tables, project_id: i64, reference: Seq<char>)
    ensures
        run_by_ref(t.sessions, project_id, reference) matches Some(run) ==> {
            &&& t.sessions.contains(run)
            &&& run.project_id == project_id
            &&& run.name@ == reference || public_id_of(reference, "r_"@) == Some(run.id as int)
        },
{
    if let Some(id) = public_id_of(reference, "r_"@) {
        rows::lemma_lookup_kept(t.sessions, is_run(id as i64));
    } else {
        rows::lemma_lookup_kept(t.sessions, is_named(project_id, reference));
    }
}

/// Whether a reference finds a Run in a project that a folder sees.
pub open spec fn is_named_here(
    t: Tables,
    cwd: Seq<char>,
    resolved: i64,
    reference: Seq<char>,
    run: Run,
) -> bool {
    sees(t, cwd, resolved, run.project_id) && run_by_ref(t.sessions, run.project_id, reference)
        == Some(run)
}

/// The Runs that a reference finds in projects are listed once each.
proof fn lemma_runs_by_ref(t: Tables, ids: Seq<i64>, reference: Seq<char>)
    requires
        t.wf(),
    ensures
        forall|r: Run| #[trigger]
            runs_by_ref(t.sessions, ids, reference).contains(r) <==> ids.contains(r.project_id)
                && run_by_ref(t.sessions, r.project_id, reference) == Some(r),
        forall|i: int, j: int|
            0 <= i < j < runs_by_ref(t.sessions, ids, reference).len() ==> (
            #[trigger] runs_by_ref(t.sessions, ids, reference)[i]).id != (
            #[trigger] runs_by_ref(t.sessions, ids, reference)[j]).id,
    decreases ids.len(),
{
    let all = runs_by_ref(t.sessions, ids, reference);
    if ids.len() > 0 {
        let front = ids.drop_last();
        let last = ids.last();
        lemma_runs_by_ref(t, front, reference);
        let before = runs_by_ref(t.sessions, front, reference);
        let found = run_by_ref(t.sessions, last, reference);
        lemma_found_run_is_named(t, last, reference);
        let n = ids.len() - 1;
        assert(ids[n] == last);
        assert forall|id: i64| #[trigger]
            ids.contains(id) <==> front.contains(id) || id == last by {
            if ids.contains(id) {
                let k = choose|k: int| 0 <= k < ids.len() && ids[k] == id;
                if k < front.len() {
                    assert(front[k] == id);
                }
            }
            if front.contains(id) {
                let k = choose|k: int| 0 <= k < front.len() && front[k] == id;
                assert(ids[k] == id);
            }
        }
        assert forall|r: Run| #[trigger]
            all.contains(r) <==> ids.contains(r.project_id) && run_by_ref(
                t.sessions,
                r.project_id,
                reference,
            ) == Some(r) by {
            if all.contains(r) {
                let k = choose|k: int| 0 <= k < all.len() && all[k] == r;
                if k < before.len() {
                    assert(before[k] == r);
                    assert(before.contains(r));
                }
            }
            if before.contains(r) {
                let k = choose|k: int| 0 <= k < before.len() && before[k] == r;
                assert(all[k] == r);
            }
            if ids.contains(r.project_id) && run_by_ref(t.sessions, r.project_id, reference)
                == Some(r) && !front.contains(r.project_id) {
                assert(r.project_id == last);
                if has_run_id(before, r.id) {
                    let k = choose|k: int| 0 <= k < before.len() && (#[trigger] before[k]).id == r.id;
                    assert(before.contains(before[k]));
                    lemma_found_run_is_named(t, before[k].project_id, reference);
                    lemma_same_id(t, before[k], r);
                } else {
                    assert(all[before.len() as int] == r);
                }
            }
        }
    }
}

/// Two Runs with one id are one.
proof fn lemma_same_id(t: Tables, a: Run, b: Run)
    requires
        t.wf(),
        t.sessions.contains(a),
        t.sessions.contains(b),
        a.id == b.id,
    ensures
        a == b,
{
    let i = choose|i: int| 0 <= i < t.sessions.len() && t.sessions[i] == a;
    let j = choose|j: int| 0 <= j < t.sessions.len() && t.sessions[j] == b;
    if i < j {
        assert(t.sessions[i].row_id() < t.sessions[j].row_id());
    } else if j < i {
        assert(t.sessions[j].row_id() < t.sessions[i].row_id());
    }
}

/// A Run that is named is meant where the folder sees it and sees no other of the name;
/// where it sees several none is guessed.
pub proof fn lemma_only_the_named_run_is_meant(
    t: Tables,
    cwd: Seq<char>,
    resolved: i64,
    reference: Seq<char>,
    result: Result<Option<Run>, Error>,
)
    requires
        t.wf(),
        is_meant_run(t, cwd, resolved, Some(reference), result),
    ensures
        match result {
            Ok(Some(run)) => is_named_here(t, cwd, resolved, reference, run) && forall|r: Run|
                #[trigger] is_named_here(t, cwd, resolved, reference, r) ==> r == run,
            Ok(None) => forall|r: Run| !#[trigger] is_named_here(t, cwd, resolved, reference, r),
            Err(_) => exists|a: Run, b: Run|
                #![trigger is_named_here(t, cwd, resolved, reference, a), is_named_here(t, cwd, resolved, reference, b)]
                a != b && is_named_here(t, cwd, resolved, reference, a) && is_named_here(
                    t,
                    cwd,
                    resolved,
                    reference,
                    b,
                ),
        },
{
    let ids = choose|ids: Seq<i64>|
        {
            &&& #[trigger] is_context(t.projects, cwd, resolved, ids)
            &&& crate::runs::is_run_in_context(t.sessions, ids, reference, result)
        };
    lemma_context(t, cwd, resolved, ids);
    lemma_runs_by_ref(t, ids, reference);
    let found = runs_by_ref(t.sessions, ids, reference);
    assert forall|r: Run| #[trigger]
        is_named_here(t, cwd, resolved, reference, r) <==> found.contains(r) by {
        assert(ids.contains(r.project_id) <==> sees(t, cwd, resolved, r.project_id));
    }
    if found.len() > 0 {
        assert(found.contains(found[0]));
        if found.len() == 1 {
            assert forall|r: Run| #[trigger]
                is_named_here(t, cwd, resolved, reference, r) implies r == found[0] by {
                let k = choose|k: int| 0 <= k < found.len() && found[k] == r;
            }
        } else {
            assert(found.contains(found[1]));
            assert(found[0].id != found[1].id);
            assert(is_named_here(t, cwd, resolved, reference, found[0]) && is_named_here(
                t,
                cwd,
                resolved,
                reference,
                found[1],
            ));
        }
    }
}

/// The active Run of a project is the only one that has not ended; there is none where
/// all have, and none is guessed where several have not.
pub proof fn lemma_active_run_of_a_project(
    t: Tables,
    project_id: i64,
    result: Result<Option<Run>, Error>,
)
    requires
        t.wf(),
        is_active_session(t.sessions, project_id, result),
    ensures
        match result {
            Ok(Some(run)) => t.sessions.contains(run) && run.project_id == project_id
                && run.ended_at is None && forall|i: int|
                0 <= i < t.sessions.len() && (#[trigger] t.sessions[i]).project_id == project_id
                    && t.sessions[i].ended_at is None ==> t.sessions[i] == run,
            Ok(None) => forall|i: int|
                0 <= i < t.sessions.len() && (#[trigger] t.sessions[i]).project_id == project_id
                    ==> t.sessions[i].ended_at is Some,
            Err(_) => exists|i: int, j: int|
                0 <= i < t.sessions.len() && 0 <= j < t.sessions.len() && i != j && (
                #[trigger] t.sessions[i]).project_id == project_id && (
                #[trigger] t.sessions[j]).project_id == project_id && t.sessions[i].ended_at is None
                    && t.sessions[j].ended_at is None,
        },
{
    let keep = active_of(project_id);
    let active = choose|active: Seq<Run>|
        {
            &&& #[trigger] rows::is_listing(t.sessions, Order::Newest, keep, active)
            &&& if active.len() == 0 {
                result matches Ok(found) && found is None
            } else if active.len() == 1 {
                result matches Ok(found) && found == Some(active[0])
            } else {
                result is Err
            }
        };
    if active.len() == 0 {
        assert forall|i: int|
            0 <= i < t.sessions.len() && (#[trigger] t.sessions[i]).project_id
                == project_id implies t.sessions[i].ended_at is Some by {
            if t.sessions[i].ended_at is None {
                assert(keep(t.sessions[i]));
                assert(active.contains(t.sessions[i]));
            }
        }
    } else if active.len() == 1 {
        let run = active[0];
        assert forall|i: int|
            0 <= i < t.sessions.len() && (#[trigger] t.sessions[i]).project_id == project_id
                && t.sessions[i].ended_at is None implies t.sessions[i] == run by {
            assert(keep(t.sessions[i]));
            assert(active.contains(t.sessions[i]));
        }
    } else {
        let i = choose|i: int| 0 <= i < t.sessions.len() && t.sessions[i] == active[0];
        let j = choose|j: int| 0 <= j < t.sessions.len() && t.sessions[j] == active[1];
        assert(t.sessions.contains(active[0]) && t.sessions.contains(active[1]));
        assert(rows::row_before(Order::Newest, active[0], active[1]));
        assert(t.sessions[i].project_id == project_id && t.sessions[j].project_id == project_id);
        assert(i != j);
    }
}

// ── plans ───────────────────────────────────────────────────────────

/// A plan is found by its public id, in its own project and in no other.
pub proof fn lemma_plan_is_found(t: Tables, r: Recovery, project_id: i64)
    requires
        t.wf(),
        t.recoveries.contains(r),
    ensures
        recovery_by_ref(t.recoveries, project_id, "rec_"@ + number::decimal(r.id as int)) == if r.project_id
            == project_id {
            Some(r)
        } else {
            None
        },
{
    lemma_public_id_names_its_id("rec_"@, r.id);
    let keep = is_recovery(r.id);
    let at = choose|at: int| 0 <= at < t.recoveries.len() && t.recoveries[at] == r;
    assert forall|k: int| 0 <= k < at implies !keep(#[trigger] t.recoveries[k]) by {
        assert(t.recoveries[k].row_id() < t.recoveries[at].row_id());
    }
    rows::lemma_lookup(t.recoveries, keep, Some(at));
}

/// The last row for a path is a row for it.
proof fn lemma_row_at(rows: Seq<RecoveryEntry>, root: Seq<char>, rel: Seq<char>)
    ensures
        match row_at(rows, root, rel) {
            Some(row) => rows.contains(row) && path::relative(row.path@, root) == rel,
            None => forall|i: int|
                0 <= i < rows.len() ==> path::relative((#[trigger] rows[i]).path@, root) != rel,
        },
    decreases rows.len(),
{
    if rows.len() > 0 {
        let front = rows.drop_last();
        let n = front.len() as int;
        assert(rows[n] == rows.last());
        lemma_row_at(front, root, rel);
        match row_at(front, root, rel) {
            Some(row) => {
                let k = choose|k: int| 0 <= k < front.len() && front[k] == row;
                assert(rows[k] == row);
            },
            None => {
                assert forall|i: int|
                    0 <= i < rows.len() && path::relative(rows.last().path@, root)
                        != rel implies path::relative((#[trigger] rows[i]).path@, root) != rel by {
                    if i < n {
                        assert(front[i] == rows[i]);
                    }
                }
            },
        }
    }
}

/// Paths can be chosen where each is one of the plan.
proof fn lemma_choice(rows: Seq<RecoveryEntry>, root: Seq<char>, paths: Seq<Seq<char>>)
    ensures
        choice_problem(rows, root, paths) is None <==> forall|i: int|
            0 <= i < paths.len() ==> text::trimmed(#[trigger] paths[i]).len() > 0 && row_at(
                rows,
                root,
                paths[i],
            ) is Some,
    decreases paths.len(),
{
    if paths.len() > 0 {
        let front = paths.drop_last();
        let n = front.len() as int;
        lemma_choice(rows, root, front);
        assert(paths[n] == paths.last());
        assert forall|i: int| 0 <= i < n implies #[trigger] paths[i] == front[i] by {}
        if choice_problem(rows, root, paths) is None {
            assert forall|i: int| 0 <= i < paths.len() implies text::trimmed(
                #[trigger] paths[i],
            ).len() > 0 && row_at(rows, root, paths[i]) is Some by {
                if i < n {
                    assert(text::trimmed(front[i]).len() > 0);
                }
            }
        }
        if forall|i: int|
            0 <= i < paths.len() ==> text::trimmed(#[trigger] paths[i]).len() > 0 && row_at(
                rows,
                root,
                paths[i],
            ) is Some {
            assert forall|i: int| 0 <= i < n implies text::trimmed(#[trigger] front[i]).len() > 0
                && row_at(rows, root, front[i]) is Some by {
                assert(text::trimmed(paths[i]).len() > 0);
            }
            assert(text::trimmed(paths[n]).len() > 0);
        }
    }
}

/// Whether a row of a plan is for a chosen path.
pub open spec fn is_chosen(
    row: RecoveryEntry,
    root: Seq<char>,
    paths: Seq<Seq<char>>,
) -> bool {
    exists|i: int| 0 <= i < paths.len() && path::relative(row.path@, root) == #[trigger] paths[i]
}

/// A part of a plan can be chosen where at least one file is, and each that is chosen is
/// one of the plan. The part then has a row of the plan for each chosen file, one for
/// each, and no others.
pub proof fn lemma_part_is_what_was_chosen(
    root: Seq<char>,
    rows: Seq<RecoveryEntry>,
    paths: Seq<Seq<char>>,
    result: Result<Vec<RecoveryEntry>, Error>,
)
    requires
        is_selection(root, rows, paths, result),
    ensures
        result is Ok <==> paths.len() > 0 && forall|i: int|
            0 <= i < paths.len() ==> text::trimmed(#[trigger] paths[i]).len() > 0 && exists|k: int|
                0 <= k < rows.len() && path::relative((#[trigger] rows[k]).path@, root) == paths[i],
        result is Ok ==> {
            let part = result->Ok_0@;
            &&& forall|i: int|
                0 <= i < part.len() ==> rows.contains(#[trigger] part[i]) && is_chosen(
                    part[i],
                    root,
                    paths,
                )
            &&& forall|i: int|
                0 <= i < paths.len() ==> has_row_for(part, root, #[trigger] paths[i])
            &&& forall|i: int, j: int|
                0 <= i < j < part.len() ==> path::relative((#[trigger] part[i]).path@, root)
                    != path::relative((#[trigger] part[j]).path@, root)
        },
{
    lemma_choice(rows, root, paths);
    assert forall|i: int| 0 <= i < paths.len() implies (row_at(rows, root, #[trigger] paths[i]) is Some
        <==> exists|k: int|
        0 <= k < rows.len() && path::relative((#[trigger] rows[k]).path@, root) == paths[i]) by {
        lemma_row_at(rows, root, paths[i]);
        if let Some(row) = row_at(rows, root, paths[i]) {
            let k = choose|k: int| 0 <= k < rows.len() && rows[k] == row;
            assert(path::relative(rows[k].path@, root) == paths[i]);
        }
    }
    if result is Ok {
        let part = result->Ok_0@;
        let keys = choose|keys: Seq<Seq<char>>|
            {
                &&& #[trigger] sorted::is_sorted_set(paths, keys)
                &&& part.len() == keys.len()
                &&& forall|i: int|
                    0 <= i < keys.len() ==> row_at(rows, root, #[trigger] keys[i]) == Some(part[i])
            };
        assert forall|i: int| 0 <= i < part.len() implies rows.contains(#[trigger] part[i])
            && is_chosen(part[i], root, paths) && path::relative(part[i].path@, root)
            == keys[i] by {
            lemma_row_at(rows, root, keys[i]);
            assert(row_at(rows, root, keys[i]) == Some(part[i]));
            assert(keys.contains(keys[i]));
            let k = choose|k: int| 0 <= k < paths.len() && paths[k] == keys[i];
            assert(path::relative(part[i].path@, root) == paths[k]);
        }
        assert forall|i: int| 0 <= i < paths.len() implies has_row_for(
            part,
            root,
            #[trigger] paths[i],
        ) by {
            assert(paths.contains(paths[i]));
            assert(keys.contains(paths[i]));
            let k = choose|k: int| 0 <= k < keys.len() && keys[k] == paths[i];
            assert(path::relative(part[k].path@, root) == paths[i]);
        }
        assert forall|i: int, j: int| 0 <= i < j < part.len() implies path::relative(
            (#[trigger] part[i]).path@,
            root,
        ) != path::relative((#[trigger] part[j]).path@, root) by {
            assert(sorted::less(keys[i], keys[j]));
            sorted::lemma_less_irreflexive(keys[i]);
        }
    }
}

/// Whether rows have one for a path below the root.
pub open spec fn has_row_for(part: Seq<RecoveryEntry>, root: Seq<char>, rel: Seq<char>) -> bool {
    exists|k: int|
        0 <= k < part.len() && path::relative((#[trigger] part[k]).path@, root) == rel
}

/// Whether two rows of plans do the same to one file.
pub open spec fn does_the_same(a: RecoveryEntry, b: RecoveryEntry) -> bool {
    a.path == b.path && a.action == b.action && a.expected_exists == b.expected_exists
        && a.expected_hash == b.expected_hash && a.target_hash == b.target_hash
        && a.source_timestamp == b.source_timestamp
}

/// Choosing a part of a plan never changes the plan, nor any row or change that is
/// there. Where a new plan is made of the part, each of its rows does to its file what
/// the plan does, and the file is one that was chosen.
pub proof fn lemma_part_leaves_the_plan(
    before: Tables,
    after: Tables,
    project: WatchedProject,
    reference: Seq<char>,
    paths: Seq<Seq<char>>,
    now: i64,
    result: Result<String, Error>,
)
    requires
        before.wf(),
        part_chosen(before, after, project, reference, paths, now, result),
    ensures
        forall|i: int|
            0 <= i < before.recoveries.len() ==> after.recoveries[i]
                == #[trigger] before.recoveries[i],
        before.recoveries.len() <= after.recoveries.len() <= before.recoveries.len() + 1,
        forall|i: int|
            0 <= i < before.entries.len() ==> after.entries[i] == #[trigger] before.entries[i],
        before.entries.len() <= after.entries.len(),
        after.events == before.events,
        after.recoveries == before.recoveries ==> after.entries == before.entries,
        after.recoveries.len() > before.recoveries.len() ==> {
            let source = recovery_by_ref(before.recoveries, project.id, reference);
            let made = after.recoveries[before.recoveries.len() as int];
            &&& source is Some
            &&& made.status@ == "planned"@
            &&& made.project_id == source->0.project_id
            &&& result matches Ok(name) && name@ == recovery_name(made)
            &&& forall|m: int|
                before.entries.len() <= m < after.entries.len() ==> (
                #[trigger] after.entries[m]).recovery_id == made.id && is_chosen(
                    after.entries[m],
                    project.root_path@,
                    paths,
                ) && is_row_of_plan(before.entries, source->0.id, after.entries[m])
        },
{
    if let Some(source) = recovery_by_ref(before.recoveries, project.id, reference) {
        let (list, chosen) = choose|
            list: Seq<RecoveryEntry>,
            chosen: Result<Vec<RecoveryEntry>, Error>,
        |
            {
                &&& #[trigger] are_entries(before.entries, source.id, list)
                &&& #[trigger] is_selection(project.root_path@, list, paths, chosen)
                &&& match chosen {
                    Err(e) => after == before && (result matches Err(x) && x == e),
                    Ok(part) => if source.status@ != "applied"@ && inapplicable(
                        source,
                        now,
                    ) is Some {
                        after == before && (result matches Err(e) && e@ == inapplicable(
                            source,
                            now,
                        )->0)
                    } else if source.status@ == "applied"@ || part@.len() == list.len() {
                        after == before && (result matches Ok(name) && name@ == reference)
                    } else {
                        part_saved(before, after, source, part@, list.len() as int, now, result)
                    },
                }
            };
        lemma_part_is_what_was_chosen(project.root_path@, list, paths, chosen);
        if after != before {
            let part = chosen->Ok_0@;
            let derived = choose|derived: Result<Recovery, Error>|
                {
                    &&& #[trigger] crate::db::recoveries::recovery_created(
                        before,
                        after,
                        source.project_id,
                        source.run_id,
                        crate::recovery_apply::part_request(
                            source.request@,
                            part.len() as int,
                            list.len() as int,
                        ),
                        source.kind@,
                        source.confidence@,
                        text::view_opt(source.ambiguity),
                        part,
                        now,
                        derived,
                    )
                    &&& match derived {
                        Err(e) => result matches Err(x) && x == e,
                        Ok(r) => result matches Ok(name) && name@ == recovery_name(r),
                    }
                };
            let made = derived->Ok_0;
            let n = before.entries.len() as int;
            assert forall|m: int| n <= m < after.entries.len() implies (
            #[trigger] after.entries[m]).recovery_id == made.id && is_chosen(
                after.entries[m],
                project.root_path@,
                paths,
            ) && is_row_of_plan(before.entries, source.id, after.entries[m]) by {
                let row = part[m - n];
                assert(list.contains(row) && is_chosen(row, project.root_path@, paths));
                let k = choose|k: int| 0 <= k < list.len() && list[k] == row;
                assert(before.entries.contains(list[k]));
                let i = choose|i: int|
                    0 <= i < paths.len() && path::relative(row.path@, project.root_path@)
                        == #[trigger] paths[i];
                assert(path::relative(after.entries[m].path@, project.root_path@) == paths[i]);
                let b = choose|b: int| 0 <= b < before.entries.len() && before.entries[b] == row;
                assert(does_the_same(before.entries[b], after.entries[m]));
            }
        }
    }
}

/// Whether a row does what a row of a plan does.
pub open spec fn is_row_of_plan(
    entries: Seq<RecoveryEntry>,
    recovery_id: i64,
    row: RecoveryEntry,
) -> bool {
    exists|k: int|
        0 <= k < entries.len() && (#[trigger] entries[k]).recovery_id == recovery_id
            && does_the_same(entries[k], row)
}

} // verus!
