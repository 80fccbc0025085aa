//! Recoveries: saved plans that bring files back, made first and carried out
//! later, and only on the files for which they were made.
use vstd::prelude::*;
use vstd::string::*;

use crate::db::claims::ownership;
use crate::db::recoveries::recovery_created;
use crate::db::runs::is_run;
use crate::db::{Database, Tables};
use crate::error::Error;
use crate::models::{Recovery, RecoveryEntry, Run, WatchedProject};
use crate::number;
use crate::path;
use crate::path::join_spec;
use crate::places;
use crate::places::Place;
use crate::restore;
use crate::restore::{
    entries_at_id, entries_of, entries_view, is_planned, is_restore_plan, ActionView, EntryView,
    RestoreAction, RestorePlan, RestorePlanEntry,
};
use crate::restore_fs;
use crate::restore_fs::{leaf_at, leaf_problem, read_at, CappedRead, Spot};
use crate::restore_report::{current_state, state_of};
use crate::rows;
use crate::text;

verus! {

// ── saving a plan ───────────────────────────────────────────────────

/// What a saved plan does to one file. Which plan it is of is not part of it: a
/// plan has its id only once it is saved.
pub ghost struct RowView {
    pub path: Seq<char>,
    pub action: Seq<char>,
    pub target_hash: Option<Seq<char>>,
    pub source_timestamp: Option<i64>,
    pub expected_hash: Option<Seq<char>>,
    pub expected_exists: bool,
}

/// What a saved plan does to one file, whichever plan it is of.
pub open spec fn row_view(e: RecoveryEntry) -> RowView {
    RowView {
        path: e.path@,
        action: e.action@,
        target_hash: text::view_opt(e.target_hash),
        source_timestamp: e.source_timestamp,
        expected_hash: text::view_opt(e.expected_hash),
        expected_exists: e.expected_exists,
    }
}

/// What a saved plan does to its files.
pub open spec fn rows_view(list: Seq<RecoveryEntry>) -> Seq<RowView> {
    list.map_values(|e: RecoveryEntry| row_view(e))
}

/// What is saved for an entry on a file in a state: nothing where the file is
/// already as it should be.
pub open spec fn row_for(root: Seq<char>, entry: EntryView, state: (bool, Option<Seq<char>>)) -> Option<
    RowView,
> {
    let row = RowView {
        path: join_spec(root, entry.path),
        action: ""@,
        target_hash: None,
        source_timestamp: None,
        expected_hash: state.1,
        expected_exists: state.0,
    };
    match entry.action {
        ActionView::Write(source) => if state.0 && state.1 == Some(source.hash) {
            None
        } else {
            Some(
                RowView {
                    action: "WRITE"@,
                    target_hash: Some(source.hash),
                    source_timestamp: Some(source.timestamp),
                    ..row
                },
            )
        },
        ActionView::Delete => if !state.0 {
            None
        } else {
            Some(RowView { action: "DELETE"@, ..row })
        },
    }
}

/// What is saved for the entries of a plan, by what is found at their files.
pub open spec fn rows_for(root: Seq<char>, entries: Seq<EntryView>, spots: Seq<Spot>) -> Result<
    Seq<RowView>,
    Seq<char>,
>
    decreases entries.len(),
{
    if entries.len() == 0 {
        Ok(Seq::empty())
    } else {
        match rows_for(root, entries.drop_last(), spots) {
            Err(e) => Err(e),
            Ok(list) => {
                let e = entries.last();
                match leaf_problem(leaf_at(spots, e.path), e.path) {
                    Some(said) => Err(said),
                    None => match current_state(read_at(spots, e.path), e.path) {
                        Err(said) => Err(said),
                        Ok(state) => if e.expected is Some && e.expected->0 != state {
                            Err(
                                "No recovery plan was saved because "@ + e.rel_path
                                    + " changed during the preview.\nRun the preview again."@,
                            )
                        } else {
                            match row_for(root, e, state) {
                                None => Ok(list),
                                Some(row) => Ok(list.push(row)),
                            }
                        },
                    },
                }
            },
        }
    }
}

/// Saving a plan at a time.
pub open spec fn plan_persisted(
    before: Tables,
    after: Tables,
    project: WatchedProject,
    run_id: Option<i64>,
    request: Seq<char>,
    kind: Seq<char>,
    confidence: Seq<char>,
    ambiguity: Option<Seq<char>>,
    entries: Seq<EntryView>,
    spots: Seq<Spot>,
    now: i64,
    result: Result<Recovery, Error>,
) -> bool {
    match rows_for(project.root_path@, entries, spots) {
        Err(said) => after == before && (result matches Err(e) && e@ == said),
        Ok(rows) => exists|list: Seq<RecoveryEntry>|
            {
                &&& rows_view(list) == rows
                &&& #[trigger] recovery_created(
                    before,
                    after,
                    project.id,
                    run_id,
                    request,
                    kind,
                    confidence,
                    ambiguity,
                    list,
                    now,
                    result,
                )
            },
    }
}

/// An error with the first entries is one with all.
proof fn lemma_rows_error(root: Seq<char>, entries: Seq<EntryView>, spots: Seq<Spot>, n: int)
    requires
        0 <= n <= entries.len(),
        rows_for(root, entries.take(n), spots) is Err,
    ensures
        rows_for(root, entries, spots) == rows_for(root, entries.take(n), spots),
    decreases entries.len() - n,
{
    if n < entries.len() {
        assert(entries.take(n + 1).drop_last() =~= entries.take(n));
        lemma_rows_error(root, entries, spots, n + 1);
    } else {
        assert(entries.take(n) =~= entries);
    }
}

/// What is saved for an entry on a file in a state.
fn make_row(root: &str, entry: &RestorePlanEntry, there: bool, hash: &Option<String>) -> (row: Option<
    RecoveryEntry,
>)
    ensures
        match row_for(root@, entry@, (there, text::view_opt(*hash))) {
            None => row is None,
            Some(v) => row matches Some(r) && row_view(r) == v,
        },
{
    let path = entry.path.absolute(root);
    match &entry.action {
        RestoreAction::Write { source } => {
            if there && text::is_text(hash, source.hash.as_str()) {
                return None;
            }
            Some(
                RecoveryEntry {
                    recovery_id: 0,
                    path,
                    action: "WRITE".to_owned(),
                    target_hash: Some(source.hash.clone()),
                    source_timestamp: Some(source.timestamp),
                    expected_hash: text::clone_opt(hash),
                    expected_exists: there,
                },
            )
        },
        RestoreAction::DeleteCreatedAfterTarget => {
            if !there {
                return None;
            }
            Some(
                RecoveryEntry {
                    recovery_id: 0,
                    path,
                    action: "DELETE".to_owned(),
                    target_hash: None,
                    source_timestamp: None,
                    expected_hash: text::clone_opt(hash),
                    expected_exists: there,
                },
            )
        },
    }
}

/// What is saved for the entries of a plan, by what is found at their files.
fn rows_of_plan(root: &str, plan: &RestorePlan, spots: &Vec<Spot>) -> (result: Result<
    Vec<RecoveryEntry>,
    Error,
>)
    ensures
        match rows_for(root@, entries_view(plan.entries@), spots@) {
            Err(said) => result matches Err(e) && e@ == said,
            Ok(rows) => result matches Ok(list) && rows_view(list@) == rows,
        },
{
    let ghost all = entries_view(plan.entries@);
    let none = CappedRead::Missing;
    let mut rows: Vec<RecoveryEntry> = Vec::new();
    let mut i: usize = 0;
    proof {
        assert(all.take(0) =~= Seq::empty());
        assert(rows_view(rows@) =~= Seq::empty());
    }
    while i < plan.entries.len()
        invariant
            i <= plan.entries.len(),
            none is Missing,
            all == entries_view(plan.entries@),
            rows_for(root@, all.take(i as int), spots@) == Ok::<Seq<RowView>, Seq<char>>(
                rows_view(rows@),
            ),
        decreases plan.entries.len() - i,
    {
        let entry = &plan.entries[i];
        let ghost next = all.take(i + 1);
        proof {
            assert(next.drop_last() =~= all.take(i as int));
            assert(next.last() == plan.entries@[i as int]@);
        }
        let leaf = restore_fs::find_leaf(spots, entry.path.relative());
        match restore_fs::validate(&entry.path, leaf) {
            Err(e) => {
                proof {
                    lemma_rows_error(root@, all, spots@, i + 1);
                }
                return Err(e);
            },
            Ok(_) => {},
        }
        let read = match restore_fs::find_spot(spots, entry.path.relative()) {
            Some(k) => &spots[k].read,
            None => &none,
        };
        assert(*read == read_at(spots@, entry.path@));
        let (there, hash) = match state_of(read, entry.path.relative()) {
            Err(e) => {
                proof {
                    lemma_rows_error(root@, all, spots@, i + 1);
                }
                return Err(e);
            },
            Ok(state) => state,
        };
        let moved = match &entry.expected_current {
            Some(expected) => there != expected.exists || !text::same_opt(&hash, &expected.hash),
            None => false,
        };
        if moved {
            proof {
                lemma_rows_error(root@, all, spots@, i + 1);
            }
            return Err(
                Error::new(
                    text::cat3(
                        "No recovery plan was saved because ",
                        entry.rel_path.as_str(),
                        " changed during the preview.\nRun the preview again.",
                    ),
                ),
            );
        }
        let ghost earlier = rows@;
        match make_row(root, entry, there, &hash) {
            Some(row) => {
                let ghost added = row;
                rows.push(row);
                proof {
                    assert(rows_view(rows@) =~= rows_view(earlier).push(row_view(added)));
                }
            },
            None => {},
        }
        i += 1;
    }
    proof {
        assert(all.take(i as int) =~= all);
    }
    Ok(rows)
}

/// Saves a plan at a time, with what is found at its files as what must be
/// there when it is carried out.
pub fn persist_restore_plan(
    db: &mut Database,
    project: &WatchedProject,
    run_id: Option<i64>,
    request: &str,
    kind: &str,
    confidence: &str,
    ambiguity: Option<&str>,
    plan: &RestorePlan,
    spots: &Vec<Spot>,
    now: i64,
) -> (result: Result<Recovery, Error>)
    requires
        old(db)@.wf(),
    ensures
        final(db)@.wf(),
        plan_persisted(
            old(db)@,
            final(db)@,
            *project,
            run_id,
            request@,
            kind@,
            confidence@,
            text::view_opt_str(ambiguity),
            entries_view(plan.entries@),
            spots@,
            now,
            result,
        ),
{
    let rows = rows_of_plan(project.root_path.as_str(), plan, spots)?;
    let result = db.create_recovery_at(
        project.id,
        run_id,
        request,
        kind,
        confidence,
        ambiguity,
        &rows,
        now,
    );
    assert(recovery_created(
        old(db)@,
        db@,
        project.id,
        run_id,
        request@,
        kind@,
        confidence@,
        text::view_opt_str(ambiguity),
        rows@,
        now,
        result,
    ));
    result
}

// ── recoveries of a Run ─────────────────────────────────────────────

/// What is said of a Run that still runs.
pub open spec fn still_active_text(run: Run) -> Seq<char> {
    "No recovery plan was created because Run "@ + ("r_"@ + number::decimal(run.id as int))
        + " is still active.\nFinish the Run, then try again."@
}

/// What is said of a Run of another project.
pub open spec fn other_project_text(run: Run) -> Seq<char> {
    "Run "@ + ("r_"@ + number::decimal(run.id as int)) + " belongs to a different project"@
}

/// An error for a Run that still runs.
pub fn still_active(run: &Run) -> (e: Error)
    ensures
        e@ == still_active_text(*run),
{
    Error::new(
        text::cat3(
            "No recovery plan was created because Run ",
            run.public_id().as_str(),
            " is still active.\nFinish the Run, then try again.",
        ),
    )
}

/// Tells whether a Run is one of a project.
pub fn ensure_run_project(run: &Run, project: &WatchedProject) -> (result: Result<(), Error>)
    ensures
        if run.project_id == project.id {
            result is Ok
        } else {
            result matches Err(e) && e@ == other_project_text(*run)
        },
{
    if run.project_id != project.id {
        return Err(
            Error::new(
                text::cat3("Run ", run.public_id().as_str(), " belongs to a different project"),
            ),
        );
    }
    Ok(())
}

/// The chosen files that a reported Run does not own alone, with who does. Else
/// what is wrong with one of them.
pub open spec fn blocked_paths(
    t: Tables,
    project: WatchedProject,
    base: Seq<char>,
    run: Run,
    disk: Seq<Place>,
    paths: Seq<Seq<char>>,
) -> Result<Seq<Seq<char>>, Seq<char>>
    decreases paths.len(),
{
    if paths.len() == 0 {
        Ok(Seq::empty())
    } else {
        match blocked_paths(t, project, base, run, disk, paths.drop_last()) {
            Err(e) => Err(e),
            Ok(list) => {
                let root = project.root_path@;
                let place = places::leads_to(disk, base, paths.last()).0;
                if !path::is_at_or_below(place, places::real_root(disk, root)) {
                    Err(places::outside_text(paths.last(), root))
                } else {
                    match rows::lookup(t.sessions, is_run(run.id)) {
                        None => Err(crate::db::claims::run_missing_text(run.id)),
                        Some(known) => {
                            let status = ownership(t, known, place);
                            if status == "exclusive"@ {
                                Ok(list)
                            } else {
                                Ok(
                                    list.push(
                                        path::relative(place, root) + " ("@ + status + ")"@,
                                    ),
                                )
                            }
                        },
                    }
                }
            },
        }
    }
}

/// What keeps the chosen files of a Run from being recovered, if anything does.
/// Only a reported Run must own them alone.
pub open spec fn ownership_problem(
    t: Tables,
    project: WatchedProject,
    base: Seq<char>,
    run: Run,
    disk: Seq<Place>,
    paths: Seq<Seq<char>>,
) -> Option<Seq<char>> {
    if run.attribution_mode@ != "reported"@ {
        None
    } else {
        match blocked_paths(t, project, base, run, disk, paths) {
            Err(said) => Some(said),
            Ok(list) => if list.len() == 0 {
                None
            } else {
                Some(
                    "No recovery plan was created because reported ownership is not exclusive for: "@
                        + text::joined(list, ", "@)
                        + ". Collision, interleaved, and unattributed paths cannot be safely restored as whole files."@,
                )
            },
        }
    }
}

/// A wrong path among the first is one among all.
proof fn lemma_blocked_error(
    t: Tables,
    project: WatchedProject,
    base: Seq<char>,
    run: Run,
    disk: Seq<Place>,
    paths: Seq<Seq<char>>,
    n: int,
)
    requires
        0 <= n <= paths.len(),
        blocked_paths(t, project, base, run, disk, paths.take(n)) is Err,
    ensures
        blocked_paths(t, project, base, run, disk, paths) == blocked_paths(
            t,
            project,
            base,
            run,
            disk,
            paths.take(n),
        ),
    decreases paths.len() - n,
{
    if n < paths.len() {
        assert(paths.take(n + 1).drop_last() =~= paths.take(n));
        lemma_blocked_error(t, project, base, run, disk, paths, n + 1);
    } else {
        assert(paths.take(n) =~= paths);
    }
}

/// Tells whether the chosen files of a Run can be recovered as whole files.
pub fn ensure_reported_paths_recoverable(
    db: &Database,
    project: &WatchedProject,
    base_dir: &str,
    run: &Run,
    paths: &Vec<String>,
    disk: &Vec<Place>,
) -> (result: Result<(), Error>)
    ensures
        match ownership_problem(db@, *project, base_dir@, *run, disk@, text::views(paths@)) {
            None => result is Ok,
            Some(said) => result matches Err(e) && e@ == said,
        },
{
    if !run.is_reported() {
        return Ok(());
    }
    let ghost all = text::views(paths@);
    let root = project.root_path.as_str();
    let mut blocked: Vec<String> = Vec::new();
    let mut i: usize = 0;
    proof {
        assert(all.take(0) =~= Seq::empty());
        assert(text::views(blocked@) =~= Seq::empty());
    }
    while i < paths.len()
        invariant
            i <= paths.len(),
            run.attribution_mode@ == "reported"@,
            root@ == project.root_path@,
            all == text::views(paths@),
            blocked_paths(db@, *project, base_dir@, *run, disk@, all.take(i as int)) == Ok::<
                Seq<Seq<char>>,
                Seq<char>,
            >(text::views(blocked@)),
        decreases paths.len() - i,
    {
        proof {
            assert(all.take(i + 1).drop_last() =~= all.take(i as int));
            assert(all.take(i + 1).last() == paths@[i as int]@);
        }
        let place = match places::safe_resolve_path(base_dir, paths[i].as_str(), root, disk) {
            Err(e) => {
                proof {
                    lemma_blocked_error(db@, *project, base_dir@, *run, disk@, all, i + 1);
                }
                return Err(e);
            },
            Ok(place) => place,
        };
        let status = match db.classify_run_path_ownership(run.id, place.path.as_str()) {
            Err(e) => {
                proof {
                    lemma_blocked_error(db@, *project, base_dir@, *run, disk@, all, i + 1);
                }
                return Err(e);
            },
            Ok(status) => status,
        };
        if !text::same(status.as_str(), "exclusive") {
            let rel = path::relative_path(place.path.as_str(), root);
            let mut line = text::cat3(rel, " (", status.as_str());
            line.append(")");
            text::add_line(&mut blocked, line);
        }
        i += 1;
    }
    proof {
        assert(all.take(i as int) =~= all);
    }
    if blocked.len() > 0 {
        return Err(
            Error::new(
                text::cat3(
                    "No recovery plan was created because reported ownership is not exclusive for: ",
                    text::join(&blocked, ", ").as_str(),
                    ". Collision, interleaved, and unattributed paths cannot be safely restored as whole files.",
                ),
            ),
        );
    }
    Ok(())
}

/// Saving what a plan has come to.
pub open spec fn outcome_persisted(
    before: Tables,
    after: Tables,
    project: WatchedProject,
    run_id: Option<i64>,
    request: Seq<char>,
    kind: Seq<char>,
    confidence: Seq<char>,
    ambiguity: Option<Seq<char>>,
    plan: Result<RestorePlan, Error>,
    spots: Seq<Spot>,
    now: i64,
    result: Result<Recovery, Error>,
) -> bool {
    match plan {
        Err(e) => after == before && (result matches Err(x) && x == e),
        Ok(p) => plan_persisted(
            before,
            after,
            project,
            run_id,
            request,
            kind,
            confidence,
            ambiguity,
            entries_view(p.entries@),
            spots,
            now,
            result,
        ),
    }
}

/// Saving the recovery of chosen files to how they were when a Run started.
pub open spec fn run_recovery_created(
    before: Tables,
    after: Tables,
    project: WatchedProject,
    base: Seq<char>,
    run: Run,
    paths: Seq<Seq<char>>,
    request: Seq<char>,
    kind: Seq<char>,
    confidence: Seq<char>,
    ambiguity: Option<Seq<char>>,
    disk: Seq<Place>,
    spots: Seq<Spot>,
    now: i64,
    result: Result<Recovery, Error>,
) -> bool {
    let blocked = ownership_problem(before, project, base, run, disk, paths);
    if run.ended_at is None {
        after == before && (result matches Err(e) && e@ == still_active_text(run))
    } else if run.project_id != project.id {
        after == before && (result matches Err(e) && e@ == other_project_text(run))
    } else if blocked is Some {
        after == before && (result matches Err(e) && e@ == blocked->0)
    } else {
        exists|plan: Result<RestorePlan, Error>|
            {
                &&& is_planned(
                    entries_of(
                        entries_at_id(
                            before.events,
                            run.project_id,
                            project.root_path@,
                            base,
                            spots,
                            paths,
                            run.start_event_id,
                            true,
                        ),
                    ),
                    plan,
                )
                &&& #[trigger] outcome_persisted(
                    before,
                    after,
                    project,
                    Some(run.id),
                    request,
                    kind,
                    confidence,
                    ambiguity,
                    plan,
                    spots,
                    now,
                    result,
                )
            }
    }
}

/// Saves what a plan has come to.
fn persist_outcome(
    db: &mut Database,
    project: &WatchedProject,
    run_id: Option<i64>,
    request: &str,
    kind: &str,
    confidence: &str,
    ambiguity: Option<&str>,
    plan: Result<RestorePlan, Error>,
    spots: &Vec<Spot>,
    now: i64,
) -> (result: Result<Recovery, Error>)
    requires
        old(db)@.wf(),
    ensures
        final(db)@.wf(),
        outcome_persisted(
            old(db)@,
            final(db)@,
            *project,
            run_id,
            request@,
            kind@,
            confidence@,
            text::view_opt_str(ambiguity),
            plan,
            spots@,
            now,
            result,
        ),
{
    match plan {
        Err(e) => Err(e),
        Ok(plan) => persist_restore_plan(
            db,
            project,
            run_id,
            request,
            kind,
            confidence,
            ambiguity,
            &plan,
            spots,
            now,
        ),
    }
}

/// Saves the recovery of chosen files to how they were when a Run started.
pub fn create_run_recovery_in(
    db: &mut Database,
    project: &WatchedProject,
    base_dir: &str,
    run: &Run,
    paths: &Vec<String>,
    request: &str,
    kind: &str,
    confidence: &str,
    ambiguity: Option<&str>,
    disk: &Vec<Place>,
    spots: &Vec<Spot>,
    now: i64,
) -> (result: Result<Recovery, Error>)
    requires
        old(db)@.wf(),
    ensures
        final(db)@.wf(),
        run_recovery_created(
            old(db)@,
            final(db)@,
            *project,
            base_dir@,
            *run,
            text::views(paths@),
            request@,
            kind@,
            confidence@,
            text::view_opt_str(ambiguity),
            disk@,
            spots@,
            now,
            result,
        ),
{
    if run.is_active() {
        return Err(still_active(run));
    }
    ensure_run_project(run, project)?;
    ensure_reported_paths_recoverable(db, project, base_dir, run, paths, disk)?;
    let plan = restore::plan_paths_restore_at_session_start(
        db,
        project,
        base_dir,
        paths,
        run,
        spots,
    );
    let ghost seen = plan;
    let result = persist_outcome(
        db,
        project,
        Some(run.id),
        request,
        kind,
        confidence,
        ambiguity,
        plan,
        spots,
        now,
    );
    assert(outcome_persisted(
        old(db)@,
        db@,
        *project,
        Some(run.id),
        request@,
        kind@,
        confidence@,
        text::view_opt_str(ambiguity),
        seen,
        spots@,
        now,
        result,
    ));
    result
}

/// Saving the recovery of a path to a time.
pub open spec fn timestamp_recovery_created(
    before: Tables,
    after: Tables,
    project: WatchedProject,
    base: Seq<char>,
    path: Seq<char>,
    time: i64,
    request: Seq<char>,
    kind: Seq<char>,
    raw_symlink: bool,
    disk: Seq<Place>,
    spots: Seq<Spot>,
    now: i64,
    result: Result<Recovery, Error>,
) -> bool {
    exists|plan: Result<RestorePlan, Error>|
        {
            &&& is_restore_plan(
                before.events,
                project,
                base,
                path,
                time,
                false,
                raw_symlink,
                disk,
                spots,
                plan,
            )
            &&& #[trigger] outcome_persisted(
                before,
                after,
                project,
                None,
                request,
                kind,
                "exact-timestamp"@,
                None,
                plan,
                spots,
                now,
                result,
            )
        }
}

/// Saves the recovery of a path to a time.
pub fn create_timestamp_recovery_in(
    db: &mut Database,
    project: &WatchedProject,
    base_dir: &str,
    path: &str,
    target_timestamp: i64,
    request: &str,
    kind: &str,
    raw_symlink: bool,
    disk: &Vec<Place>,
    spots: &Vec<Spot>,
    now: i64,
) -> (result: Result<Recovery, Error>)
    requires
        old(db)@.wf(),
    ensures
        final(db)@.wf(),
        timestamp_recovery_created(
            old(db)@,
            final(db)@,
            *project,
            base_dir@,
            path@,
            target_timestamp,
            request@,
            kind@,
            raw_symlink,
            disk@,
            spots@,
            now,
            result,
        ),
{
    let plan = restore::plan_restore(
        db,
        project,
        base_dir,
        path,
        target_timestamp,
        false,
        raw_symlink,
        disk,
        spots,
    );
    let ghost seen = plan;
    let result = persist_outcome(
        db,
        project,
        None,
        request,
        kind,
        "exact-timestamp",
        None,
        plan,
        spots,
        now,
    );
    assert(outcome_persisted(
        old(db)@,
        db@,
        *project,
        None,
        request@,
        kind@,
        "exact-timestamp"@,
        None,
        seen,
        spots@,
        now,
        result,
    ));
    result
}

/// Saving the recovery of chosen files to how they were after an event.
pub open spec fn boundary_recovery_created(
    before: Tables,
    after: Tables,
    project: WatchedProject,
    base: Seq<char>,
    paths: Seq<Seq<char>>,
    event_id: i64,
    request: Seq<char>,
    kind: Seq<char>,
    spots: Seq<Spot>,
    now: i64,
    result: Result<Recovery, Error>,
) -> bool {
    exists|plan: Result<RestorePlan, Error>|
        {
            &&& is_planned(
                entries_of(
                    entries_at_id(
                        before.events,
                        project.id,
                        project.root_path@,
                        base,
                        spots,
                        paths,
                        event_id,
                        false,
                    ),
                ),
                plan,
            )
            &&& #[trigger] outcome_persisted(
                before,
                after,
                project,
                None,
                request,
                kind,
                "exact-paths"@,
                None,
                plan,
                spots,
                now,
                result,
            )
        }
}

/// Saves the recovery of chosen files to how they were after an event.
pub fn create_event_boundary_recovery_in(
    db: &mut Database,
    project: &WatchedProject,
    base_dir: &str,
    paths: &Vec<String>,
    event_id: i64,
    request: &str,
    kind: &str,
    spots: &Vec<Spot>,
    now: i64,
) -> (result: Result<Recovery, Error>)
    requires
        old(db)@.wf(),
    ensures
        final(db)@.wf(),
        boundary_recovery_created(
            old(db)@,
            final(db)@,
            *project,
            base_dir@,
            text::views(paths@),
            event_id,
            request@,
            kind@,
            spots@,
            now,
            result,
        ),
{
    let plan = restore::plan_paths_restore_at_event_id(
        db,
        project,
        base_dir,
        paths,
        event_id,
        spots,
    );
    let ghost seen = plan;
    let result = persist_outcome(
        db,
        project,
        None,
        request,
        kind,
        "exact-paths",
        None,
        plan,
        spots,
        now,
    );
    assert(outcome_persisted(
        old(db)@,
        db@,
        *project,
        None,
        request@,
        kind@,
        "exact-paths"@,
        None,
        seen,
        spots@,
        now,
        result,
    ));
    result
}

} // verus!
