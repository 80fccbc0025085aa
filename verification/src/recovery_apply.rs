//! Carrying out a saved recovery plan: only while it is fresh and clear, and
//! only on files that are still as they were when it was made.
use vstd::prelude::*;
use vstd::string::*;

use crate::db::recoveries::{
    are_entries, marked_applied, marked_conflicted, recovery_by_ref, recovery_created,
};
use crate::db::{Database, Tables};
use crate::error::Error;
use crate::intent_recovery::{find_copy, saved_at, SavedCopy};
use crate::models::{Recovery, RecoveryEntry, WatchedProject};
use crate::number;
use crate::path;
use crate::restore;
use crate::restore::{
    entries_view, ActionView, EntryView, ExpectedState, RestoreAction, RestoreKind, RestorePlan,
    RestorePlanEntry, RestoreSource, SourceView,
};
use crate::restore_fs;
use crate::restore_fs::{confined_below, leaf_at, leaf_problem, read_at, CappedRead, ProjectPath, Spot};
use crate::restore_report::{current_state, state_of};
use crate::sorted;
use crate::style::{BOLD, DIM, GREEN, RESET, YELLOW};
use crate::text;

verus! {

/// What came of carrying out a plan.
#[derive(Debug)]
pub struct AppliedRecovery {
    pub recovery: Recovery,
    pub files_changed: usize,
    pub already_applied: bool,
}

/// A recovery by its public id.
pub open spec fn recovery_name(r: Recovery) -> Seq<char> {
    "rec_"@ + number::decimal(r.id as int)
}

// ── whether a plan can be carried out ───────────────────────────────

/// What keeps a plan from being carried out at a time, if anything does.
pub open spec fn inapplicable(r: Recovery, now: i64) -> Option<Seq<char>> {
    if r.status@ != "planned"@ {
        Some(
            "Saved recovery plan "@ + recovery_name(r) + " cannot be applied because its status is '"@
                + r.status@ + "'."@,
        )
    } else if now > r.expires_at {
        Some(
            "No files changed because saved recovery plan "@ + recovery_name(r)
                + " expired.\nCreate a new preview, then apply the new plan."@,
        )
    } else {
        match r.ambiguity {
            Some(said) => Some(
                "No files changed because saved recovery plan "@ + recovery_name(r)
                    + " has overlapping changes.\nReview this conflict before trying another recovery: "@
                    + said@,
            ),
            None => None,
        }
    }
}

/// Tells whether a plan can be carried out at a time.
pub fn ensure_recovery_is_applicable(recovery: &Recovery, now: i64) -> (result: Result<(), Error>)
    ensures
        match inapplicable(*recovery, now) {
            None => result is Ok,
            Some(said) => result matches Err(e) && e@ == said,
        },
{
    let id = recovery.public_id();
    if !text::same(recovery.status.as_str(), "planned") {
        return Err(
            Error::new(
                text::cat5(
                    "Saved recovery plan ",
                    id.as_str(),
                    " cannot be applied because its status is '",
                    recovery.status.as_str(),
                    "'.",
                ),
            ),
        );
    }
    if now > recovery.expires_at {
        return Err(
            Error::new(
                text::cat3(
                    "No files changed because saved recovery plan ",
                    id.as_str(),
                    " expired.\nCreate a new preview, then apply the new plan.",
                ),
            ),
        );
    }
    if let Some(said) = &recovery.ambiguity {
        let mut out = text::cat3(
            "No files changed because saved recovery plan ",
            id.as_str(),
            " has overlapping changes.\nReview this conflict before trying another recovery: ",
        );
        out.append(said.as_str());
        return Err(Error::new(out));
    }
    Ok(())
}

/// The files of a plan that are not as they were when it was made, and those
/// that cannot be put back. Else why that cannot be told, or that the contents
/// to write are gone.
pub open spec fn changed_files(
    root: Seq<char>,
    rows: Seq<RecoveryEntry>,
    spots: Seq<Spot>,
    copies: Seq<SavedCopy>,
) -> Result<Seq<Seq<char>>, Seq<char>>
    decreases rows.len(),
{
    if rows.len() == 0 {
        Ok(Seq::empty())
    } else {
        match changed_files(root, rows.drop_last(), spots, copies) {
            Err(e) => Err(e),
            Ok(list) => {
                let row = rows.last();
                match confined_below(root, row.path@) {
                    Err(e) => Err(e),
                    Ok(target) => match leaf_problem(leaf_at(spots, target), target) {
                        Some(said) => Ok(list.push(target + " ("@ + said + ")"@)),
                        None => match current_state(read_at(spots, target), target) {
                            Err(e) => Err(e),
                            Ok(state) => if state != (
                                row.expected_exists,
                                text::view_opt(row.expected_hash),
                            ) {
                                Ok(list.push(target))
                            } else if row.target_hash is Some && saved_at(
                                copies,
                                row.target_hash->0@,
                            ) is Err {
                                Err(
                                    "Recovery source for "@ + path::relative(row.path@, root)
                                        + " is unavailable"@,
                                )
                            } else {
                                Ok(list)
                            },
                        },
                    },
                }
            },
        }
    }
}

/// An error with the first files is one with all.
proof fn lemma_changed_error(
    root: Seq<char>,
    rows: Seq<RecoveryEntry>,
    spots: Seq<Spot>,
    copies: Seq<SavedCopy>,
    n: int,
)
    requires
        0 <= n <= rows.len(),
        changed_files(root, rows.take(n), spots, copies) is Err,
    ensures
        changed_files(root, rows, spots, copies) == changed_files(
            root,
            rows.take(n),
            spots,
            copies,
        ),
    decreases rows.len() - n,
{
    if n < rows.len() {
        assert(rows.take(n + 1).drop_last() =~= rows.take(n));
        lemma_changed_error(root, rows, spots, copies, n + 1);
    } else {
        assert(rows.take(n) =~= rows);
    }
}

/// The files of a plan that are not as they were when it was made.
pub fn preflight_entries(
    root: &str,
    rows: &Vec<RecoveryEntry>,
    spots: &Vec<Spot>,
    copies: &Vec<SavedCopy>,
) -> (result: Result<Vec<String>, Error>)
    ensures
        match changed_files(root@, rows@, spots@, copies@) {
            Err(said) => result matches Err(e) && e@ == said,
            Ok(list) => result matches Ok(conflicts) && text::views(conflicts@) == list,
        },
{
    let none = CappedRead::Missing;
    let mut conflicts: Vec<String> = Vec::new();
    let mut i: usize = 0;
    proof {
        assert(text::views(conflicts@) =~= Seq::empty());
        assert(rows@.take(0) =~= Seq::empty());
    }
    while i < rows.len()
        invariant
            i <= rows.len(),
            none is Missing,
            changed_files(root@, rows@.take(i as int), spots@, copies@) == Ok::<
                Seq<Seq<char>>,
                Seq<char>,
            >(text::views(conflicts@)),
        decreases rows.len() - i,
    {
        let row = &rows[i];
        proof {
            assert(rows@.take(i + 1).drop_last() =~= rows@.take(i as int));
            assert(rows@.take(i + 1).last() == rows@[i as int]);
        }
        let target = match ProjectPath::from_stored(root, row.path.as_str()) {
            Err(e) => {
                proof {
                    lemma_changed_error(root@, rows@, spots@, copies@, i + 1);
                }
                return Err(e);
            },
            Ok(target) => target,
        };
        let leaf = restore_fs::find_leaf(spots, target.relative());
        match restore_fs::validate(&target, leaf) {
            Err(e) => {
                let mut line = text::cat3(target.relative(), " (", e.message.as_str());
                line.append(")");
                text::add_line(&mut conflicts, line);
            },
            Ok(_) => {
                let read = match restore_fs::find_spot(spots, target.relative()) {
                    Some(k) => &spots[k].read,
                    None => &none,
                };
                assert(*read == read_at(spots@, target@));
                let (there, hash) = match state_of(read, target.relative()) {
                    Err(e) => {
                        proof {
                            lemma_changed_error(root@, rows@, spots@, copies@, i + 1);
                        }
                        return Err(e);
                    },
                    Ok(state) => state,
                };
                if there != row.expected_exists || !text::same_opt(&hash, &row.expected_hash) {
                    text::add_line(&mut conflicts, target.display());
                } else if let Some(wanted) = &row.target_hash {
                    match find_copy(copies, wanted.as_str()) {
                        Ok(_) => {},
                        Err(_) => {
                            proof {
                                lemma_changed_error(root@, rows@, spots@, copies@, i + 1);
                            }
                            return Err(
                                Error::new(
                                    text::cat3(
                                        "Recovery source for ",
                                        path::relative_path(row.path.as_str(), root),
                                        " is unavailable",
                                    ),
                                ),
                            );
                        },
                    }
                }
            },
        }
        i += 1;
    }
    proof {
        assert(rows@.take(i as int) =~= rows@);
    }
    Ok(conflicts)
}

/// What a saved plan does to its files, at a time. Else what is wrong with it.
pub open spec fn plan_of(root: Seq<char>, rows: Seq<RecoveryEntry>, now: i64) -> Result<
    Seq<EntryView>,
    Seq<char>,
>
    decreases rows.len(),
{
    if rows.len() == 0 {
        Ok(Seq::empty())
    } else {
        match plan_of(root, rows.drop_last(), now) {
            Err(e) => Err(e),
            Ok(list) => {
                let row = rows.last();
                match confined_below(root, row.path@) {
                    Err(e) => Err(e),
                    Ok(target) => {
                        let entry = EntryView {
                            path: target,
                            rel_path: target,
                            action: ActionView::Delete,
                            expected: Some(
                                (row.expected_exists, text::view_opt(row.expected_hash)),
                            ),
                        };
                        if row.action@ == "WRITE"@ {
                            match row.target_hash {
                                None => Err("WRITE Recovery entry has no target hash"@),
                                Some(hash) => Ok(
                                    list.push(
                                        EntryView {
                                            action: ActionView::Write(
                                                SourceView {
                                                    hash: hash@,
                                                    timestamp: match row.source_timestamp {
                                                        Some(at) => at,
                                                        None => now,
                                                    },
                                                    kind: RestoreKind::Exact,
                                                },
                                            ),
                                            ..entry
                                        },
                                    ),
                                ),
                            }
                        } else if row.action@ == "DELETE"@ {
                            Ok(list.push(entry))
                        } else {
                            Err("unknown Recovery action '"@ + row.action@ + "'"@)
                        }
                    },
                }
            },
        }
    }
}

/// An error with the first rows is one with all.
proof fn lemma_plan_error(root: Seq<char>, rows: Seq<RecoveryEntry>, now: i64, n: int)
    requires
        0 <= n <= rows.len(),
        plan_of(root, rows.take(n), now) is Err,
    ensures
        plan_of(root, rows, now) == plan_of(root, rows.take(n), now),
    decreases rows.len() - n,
{
    if n < rows.len() {
        assert(rows.take(n + 1).drop_last() =~= rows.take(n));
        lemma_plan_error(root, rows, now, n + 1);
    } else {
        assert(rows.take(n) =~= rows);
    }
}

/// What a saved plan does to its files, at a time.
pub fn recovery_entries_to_plan(root: &str, rows: &Vec<RecoveryEntry>, now: i64) -> (result: Result<
    RestorePlan,
    Error,
>)
    ensures
        match plan_of(root@, rows@, now) {
            Err(said) => result matches Err(e) && e@ == said,
            Ok(list) => result matches Ok(plan) && entries_view(plan.entries@) == list,
        },
{
    let mut entries: Vec<RestorePlanEntry> = Vec::new();
    let mut i: usize = 0;
    proof {
        assert(entries_view(entries@) =~= Seq::empty());
        assert(rows@.take(0) =~= Seq::empty());
    }
    while i < rows.len()
        invariant
            i <= rows.len(),
            plan_of(root@, rows@.take(i as int), now) == Ok::<Seq<EntryView>, Seq<char>>(
                entries_view(entries@),
            ),
        decreases rows.len() - i,
    {
        let row = &rows[i];
        proof {
            assert(rows@.take(i + 1).drop_last() =~= rows@.take(i as int));
            assert(rows@.take(i + 1).last() == rows@[i as int]);
        }
        let target = match ProjectPath::from_stored(root, row.path.as_str()) {
            Err(e) => {
                proof {
                    lemma_plan_error(root@, rows@, now, i + 1);
                }
                return Err(e);
            },
            Ok(target) => target,
        };
        let action = if text::same(row.action.as_str(), "WRITE") {
            match &row.target_hash {
                None => {
                    proof {
                        lemma_plan_error(root@, rows@, now, i + 1);
                    }
                    return Err(
                        Error::new("WRITE Recovery entry has no target hash".to_owned()),
                    );
                },
                Some(hash) => RestoreAction::Write {
                    source: RestoreSource {
                        hash: hash.clone(),
                        timestamp: match row.source_timestamp {
                            Some(at) => at,
                            None => now,
                        },
                        kind: RestoreKind::Exact,
                    },
                },
            }
        } else if text::same(row.action.as_str(), "DELETE") {
            proof {
                reveal_strlit("WRITE");
                reveal_strlit("DELETE");
                assert("WRITE"@.len() != "DELETE"@.len());
            }
            RestoreAction::DeleteCreatedAfterTarget
        } else {
            proof {
                lemma_plan_error(root@, rows@, now, i + 1);
            }
            return Err(
                Error::new(
                    text::cat3("unknown Recovery action '", row.action.as_str(), "'"),
                ),
            );
        };
        let rel_path = target.display();
        let entry = RestorePlanEntry {
            path: target,
            rel_path,
            action,
            expected_current: Some(
                ExpectedState {
                    exists: row.expected_exists,
                    hash: text::clone_opt(&row.expected_hash),
                },
            ),
        };
        restore::add_entry(&mut entries, entry);
        i += 1;
    }
    proof {
        assert(rows@.take(i as int) =~= rows@);
    }
    Ok(RestorePlan { entries })
}

// ── carrying out ────────────────────────────────────────────────────

/// What follows once a plan has been looked at.
#[derive(Debug)]
pub enum ApplyStart {
    /// It was carried out before, and this is what is told of it.
    Already(AppliedRecovery),
    /// It is to be carried out.
    Go(Recovery, RestorePlan),
}

/// What is said of a plan that nobody knows.
pub open spec fn unknown_recovery_text(reference: Seq<char>) -> Seq<char> {
    "Recovery '"@ + reference + "' not found"@
}

/// Looking at a plan that has rows and can be carried out.
pub open spec fn plan_checked(
    before: Tables,
    after: Tables,
    root: Seq<char>,
    recovery: Recovery,
    rows: Seq<RecoveryEntry>,
    spots: Seq<Spot>,
    copies: Seq<SavedCopy>,
    now: i64,
    result: Result<ApplyStart, Error>,
) -> bool {
    match changed_files(root, rows, spots, copies) {
        Err(said) => after == before && (result matches Err(e) && e@ == said),
        Ok(list) => if list.len() > 0 {
            let reason = text::joined(list, "; "@);
            &&& marked_conflicted(before, after, recovery.id, reason)
            &&& result matches Err(e) && e@
                == "No files changed because files were edited after saved recovery plan "@
                + recovery_name(recovery) + " was created.\nCreate a new preview for: "@ + reason
        } else {
            &&& after == before
            &&& match plan_of(root, rows, now) {
                Err(said) => result matches Err(e) && e@ == said,
                Ok(entries) => result matches Ok(ApplyStart::Go(r, plan)) && r == recovery
                    && entries_view(plan.entries@) == entries,
            }
        },
    }
}

/// Beginning to carry out a plan at a time, by what is found at its files.
pub open spec fn apply_begun(
    before: Tables,
    after: Tables,
    project: WatchedProject,
    reference: Seq<char>,
    spots: Seq<Spot>,
    copies: Seq<SavedCopy>,
    now: i64,
    result: Result<ApplyStart, Error>,
) -> bool {
    match recovery_by_ref(before.recoveries, project.id, reference) {
        None => after == before && (result matches Err(e) && e@ == unknown_recovery_text(
            reference,
        )),
        Some(recovery) => if recovery.status@ == "applied"@ {
            after == before && (result matches Ok(ApplyStart::Already(told))
                && told.recovery == recovery && told.files_changed == 0 && told.already_applied)
        } else if inapplicable(recovery, now) is Some {
            after == before && (result matches Err(e) && e@ == inapplicable(recovery, now)->0)
        } else {
            exists|rows: Seq<RecoveryEntry>|
                {
                    &&& #[trigger] are_entries(before.entries, recovery.id, rows)
                    &&& plan_checked(
                        before,
                        after,
                        project.root_path@,
                        recovery,
                        rows,
                        spots,
                        copies,
                        now,
                        result,
                    )
                }
        },
    }
}

/// Begins to carry out a plan: the plan itself where its files are still as they
/// were, else it is marked so that it is never carried out.
pub fn apply_recovery_in(
    db: &mut Database,
    project: &WatchedProject,
    reference: &str,
    spots: &Vec<Spot>,
    copies: &Vec<SavedCopy>,
    now: i64,
) -> (result: Result<ApplyStart, Error>)
    requires
        old(db)@.wf(),
    ensures
        final(db)@.wf(),
        apply_begun(
            old(db)@,
            final(db)@,
            *project,
            reference@,
            spots@,
            copies@,
            now,
            result,
        ),
{
    let recovery = match db.get_recovery_by_ref(project.id, reference)? {
        None => {
            return Err(Error::new(text::cat3("Recovery '", reference, "' not found")));
        },
        Some(recovery) => recovery,
    };
    if text::same(recovery.status.as_str(), "applied") {
        return Ok(
            ApplyStart::Already(
                AppliedRecovery { recovery, files_changed: 0, already_applied: true },
            ),
        );
    }
    ensure_recovery_is_applicable(&recovery, now)?;
    let root = project.root_path.as_str();
    let rows = db.get_recovery_entries(recovery.id)?;
    assert(are_entries(old(db)@.entries, recovery.id, rows@));
    let conflicts = preflight_entries(root, &rows, spots, copies)?;
    if conflicts.len() > 0 {
        let reason = text::join(&conflicts, "; ");
        db.mark_recovery_conflicted(recovery.id, reason.as_str())?;
        let mut said = text::cat3(
            "No files changed because files were edited after saved recovery plan ",
            recovery.public_id().as_str(),
            " was created.\nCreate a new preview for: ",
        );
        said.append(reason.as_str());
        let result = Err(Error::new(said));
        assert(plan_checked(
            old(db)@,
            db@,
            project.root_path@,
            recovery,
            rows@,
            spots@,
            copies@,
            now,
            result,
        ));
        return result;
    }
    let plan = recovery_entries_to_plan(root, &rows, now);
    match plan {
        Err(e) => Err(e),
        Ok(plan) => Ok(ApplyStart::Go(recovery, plan)),
    }
}

/// Ending to carry out a plan at a time: it worked, or it stopped for a reason.
pub open spec fn apply_ended(
    before: Tables,
    after: Tables,
    project_id: i64,
    recovery: Recovery,
    files: usize,
    failure: Option<Seq<char>>,
    now: i64,
    result: Result<AppliedRecovery, Error>,
) -> bool {
    match failure {
        Some(said) => {
            &&& marked_conflicted(before, after, recovery.id, "apply stopped: "@ + said)
            &&& result matches Err(e) && e@ == "Saved recovery plan "@ + recovery_name(recovery)
                + " stopped during apply; earlier files in the plan may have changed."@
        },
        None => {
            &&& marked_applied(before, after, recovery.id, now)
            &&& match recovery_by_ref(after.recoveries, project_id, recovery_name(recovery)) {
                None => result matches Err(e) && e@ == "failed to read applied Recovery"@,
                Some(r) => result matches Ok(applied) && applied.recovery == r
                    && applied.files_changed == files && !applied.already_applied,
            }
        },
    }
}

/// Ends to carry out a plan at a time.
pub fn finish_apply(
    db: &mut Database,
    project_id: i64,
    recovery: &Recovery,
    files: usize,
    failure: Option<&str>,
    now: i64,
) -> (result: Result<AppliedRecovery, Error>)
    requires
        old(db)@.wf(),
    ensures
        final(db)@.wf(),
        apply_ended(
            old(db)@,
            final(db)@,
            project_id,
            *recovery,
            files,
            text::view_opt_str(failure),
            now,
            result,
        ),
{
    let id = recovery.public_id();
    if let Some(said) = failure {
        db.mark_recovery_conflicted(
            recovery.id,
            text::cat("apply stopped: ", said).as_str(),
        )?;
        return Err(
            Error::new(
                text::cat3(
                    "Saved recovery plan ",
                    id.as_str(),
                    " stopped during apply; earlier files in the plan may have changed.",
                ),
            ),
        );
    }
    db.mark_recovery_applied_at(recovery.id, now)?;
    match db.get_recovery_by_ref(project_id, id.as_str())? {
        None => Err(Error::new("failed to read applied Recovery".to_owned())),
        Some(recovery) => Ok(
            AppliedRecovery { recovery, files_changed: files, already_applied: false },
        ),
    }
}

// ── a part of a plan ────────────────────────────────────────────────

/// The last row of a plan for a path below the root.
pub open spec fn row_at(rows: Seq<RecoveryEntry>, root: Seq<char>, rel: Seq<char>) -> Option<
    RecoveryEntry,
>
    decreases rows.len(),
{
    if rows.len() == 0 {
        None
    } else if path::relative(rows.last().path@, root) == rel {
        Some(rows.last())
    } else {
        row_at(rows.drop_last(), root, rel)
    }
}

/// What is wrong with the first chosen path that cannot be chosen, if one is.
pub open spec fn choice_problem(rows: Seq<RecoveryEntry>, root: Seq<char>, paths: Seq<Seq<char>>) -> Option<
    Seq<char>,
>
    decreases paths.len(),
{
    if paths.len() == 0 {
        None
    } else {
        match choice_problem(rows, root, paths.drop_last()) {
            Some(said) => Some(said),
            None => if text::trimmed(paths.last()).len() == 0 {
                Some("selected restore path cannot be empty"@)
            } else if row_at(rows, root, paths.last()) is None {
                Some(
                    "selected path '"@ + paths.last() + "' is not part of this recovery plan"@,
                )
            } else {
                None
            },
        }
    }
}

/// Whether a result is the rows of a plan for chosen paths, in their order.
pub open spec fn is_selection(
    root: Seq<char>,
    rows: Seq<RecoveryEntry>,
    paths: Seq<Seq<char>>,
    result: Result<Vec<RecoveryEntry>, Error>,
) -> bool {
    if paths.len() == 0 {
        result matches Err(e) && e@ == "select at least one file to restore"@
    } else {
        match choice_problem(rows, root, paths) {
            Some(said) => result matches Err(e) && e@ == said,
            None => exists|keys: Seq<Seq<char>>|
                {
                    &&& #[trigger] sorted::is_sorted_set(paths, keys)
                    &&& result matches Ok(list)
                    &&& list@.len() == keys.len()
                    &&& forall|i: int|
                        0 <= i < keys.len() ==> row_at(rows, root, #[trigger] keys[i]) == Some(
                            list@[i],
                        )
                },
        }
    }
}

/// A problem with the first paths is one with all.
proof fn lemma_choice_problem(rows: Seq<RecoveryEntry>, root: Seq<char>, paths: Seq<Seq<char>>, n: int)
    requires
        0 <= n <= paths.len(),
        choice_problem(rows, root, paths.take(n)) is Some,
    ensures
        choice_problem(rows, root, paths) == choice_problem(rows, root, paths.take(n)),
    decreases paths.len() - n,
{
    if n < paths.len() {
        assert(paths.take(n + 1).drop_last() =~= paths.take(n));
        lemma_choice_problem(rows, root, paths, n + 1);
    } else {
        assert(paths.take(n) =~= paths);
    }
}

/// Without a problem every chosen path is one of the plan.
proof fn lemma_choice_known(rows: Seq<RecoveryEntry>, root: Seq<char>, paths: Seq<Seq<char>>, i: int)
    requires
        choice_problem(rows, root, paths) is None,
        0 <= i < paths.len(),
    ensures
        row_at(rows, root, paths[i]) is Some,
    decreases paths.len(),
{
    if i < paths.len() - 1 {
        lemma_choice_known(rows, root, paths.drop_last(), i);
    }
}

/// The place of the last row of a plan for a path below the root.
fn find_row_at(rows: &Vec<RecoveryEntry>, root: &str, rel: &str) -> (at: Option<usize>)
    ensures
        match at {
            Some(i) => i < rows@.len() && row_at(rows@, root@, rel@) == Some(rows@[i as int]),
            None => row_at(rows@, root@, rel@) is None,
        },
{
    let mut i: usize = rows.len();
    proof {
        assert(rows@.take(i as int) =~= rows@);
    }
    while i > 0
        invariant
            i <= rows.len(),
            row_at(rows@.take(i as int), root@, rel@) == row_at(rows@, root@, rel@),
        decreases i,
    {
        proof {
            assert(rows@.take(i as int).drop_last() =~= rows@.take(i - 1));
            assert(rows@.take(i as int).last() == rows@[i - 1]);
        }
        if text::same(path::relative_path(rows[i - 1].path.as_str(), root), rel) {
            return Some(i - 1);
        }
        i -= 1;
    }
    None
}

/// The rows of a plan for chosen paths, in their order.
pub fn select_recovery_entries(root: &str, rows: &Vec<RecoveryEntry>, paths: &Vec<String>) -> (result:
    Result<Vec<RecoveryEntry>, Error>)
    ensures
        is_selection(root@, rows@, text::views(paths@), result),
{
    if paths.len() == 0 {
        return Err(Error::new("select at least one file to restore".to_owned()));
    }
    let ghost all = text::views(paths@);
    let mut i: usize = 0;
    proof {
        assert(all.take(0) =~= Seq::empty());
    }
    while i < paths.len()
        invariant
            i <= paths.len(),
            all == text::views(paths@),
            all.len() > 0,
            choice_problem(rows@, root@, all.take(i as int)) is None,
        decreases paths.len() - i,
    {
        proof {
            assert(all.take(i + 1).drop_last() =~= all.take(i as int));
            assert(all.take(i + 1).last() == paths@[i as int]@);
        }
        if text::blank(paths[i].as_str()) {
            proof {
                lemma_choice_problem(rows@, root@, all, i + 1);
            }
            return Err(Error::new("selected restore path cannot be empty".to_owned()));
        }
        if find_row_at(rows, root, paths[i].as_str()).is_none() {
            proof {
                lemma_choice_problem(rows@, root@, all, i + 1);
            }
            return Err(
                Error::new(
                    text::cat3(
                        "selected path '",
                        paths[i].as_str(),
                        "' is not part of this recovery plan",
                    ),
                ),
            );
        }
        i += 1;
    }
    proof {
        assert(all.take(i as int) =~= all);
    }
    let keys = sorted::sorted_set(paths);
    let ghost names = text::views(keys@);
    let mut list: Vec<RecoveryEntry> = Vec::new();
    let mut k: usize = 0;
    while k < keys.len()
        invariant
            k <= keys.len(),
            names == text::views(keys@),
            all == text::views(paths@),
            sorted::is_sorted_set(all, names),
            choice_problem(rows@, root@, all) is None,
            list@.len() == k,
            forall|m: int|
                0 <= m < k ==> row_at(rows@, root@, #[trigger] names[m]) == Some(list@[m]),
        decreases keys.len() - k,
    {
        let at = find_row_at(rows, root, keys[k].as_str());
        proof {
            assert(names[k as int] == keys@[k as int]@);
            assert(names.contains(names[k as int]));
            let m = choose|m: int| 0 <= m < all.len() && all[m] == names[k as int];
            lemma_choice_known(rows@, root@, all, m);
        }
        match at {
            Some(m) => {
                list.push(rows[m].clone());
            },
            None => {
                assert(false);
            },
        }
        k += 1;
    }
    assert(sorted::is_sorted_set(all, names));
    Ok(list)
}

/// Choosing a part of a plan to carry out: the plan itself where it was carried
/// out already or all of it is chosen, else a new plan that is the part. The
/// plan itself stays as it is.
pub open spec fn part_chosen(
    before: Tables,
    after: Tables,
    project: WatchedProject,
    reference: Seq<char>,
    paths: Seq<Seq<char>>,
    now: i64,
    result: Result<String, Error>,
) -> bool {
    match recovery_by_ref(before.recoveries, project.id, reference) {
        None => after == before && (result matches Err(e) && e@ == unknown_recovery_text(
            reference,
        )),
        Some(source) => exists|rows: Seq<RecoveryEntry>, chosen: Result<Vec<RecoveryEntry>, Error>|
            {
                &&& #[trigger] are_entries(before.entries, source.id, rows)
                &&& #[trigger] is_selection(project.root_path@, rows, paths, chosen)
                &&& match chosen {
                    Err(e) => after == before && (result matches Err(x) && x == e),
                    Ok(part) => if source.status@ != "applied"@ && inapplicable(
                        source,
                        now,
                    ) is Some {
                        after == before && (result matches Err(e) && e@ == inapplicable(
                            source,
                            now,
                        )->0)
                    } else if source.status@ == "applied"@ || part@.len() == rows.len() {
                        after == before && (result matches Ok(name) && name@ == reference)
                    } else {
                        part_saved(before, after, source, part@, rows.len() as int, now, result)
                    },
                }
            },
    }
}

/// Saving a part of a plan as a plan.
pub open spec fn part_saved(
    before: Tables,
    after: Tables,
    source: Recovery,
    part: Seq<RecoveryEntry>,
    whole: int,
    now: i64,
    result: Result<String, Error>,
) -> bool {
    exists|derived: Result<Recovery, Error>|
        {
            &&& #[trigger] recovery_created(
                before,
                after,
                source.project_id,
                source.run_id,
                part_request(source.request@, part.len() as int, whole),
                source.kind@,
                source.confidence@,
                text::view_opt(source.ambiguity),
                part,
                now,
                derived,
            )
            &&& match derived {
                Err(e) => result matches Err(x) && x == e,
                Ok(r) => result matches Ok(name) && name@ == recovery_name(r),
            }
        }
}

/// What a part of a plan was asked for.
pub open spec fn part_request(request: Seq<char>, n: int, whole: int) -> Seq<char> {
    request + " ("@ + number::decimal(n) + " of "@ + number::decimal(whole) + " selected files)"@
}

/// Chooses a part of a plan to carry out, at a time: the reference of the plan
/// to carry out.
pub fn apply_recovery_paths_in(
    db: &mut Database,
    project: &WatchedProject,
    reference: &str,
    paths: &Vec<String>,
    now: i64,
) -> (result: Result<String, Error>)
    requires
        old(db)@.wf(),
    ensures
        final(db)@.wf(),
        part_chosen(
            old(db)@,
            final(db)@,
            *project,
            reference@,
            text::views(paths@),
            now,
            result,
        ),
{
    let source = match db.get_recovery_by_ref(project.id, reference)? {
        None => {
            return Err(Error::new(text::cat3("Recovery '", reference, "' not found")));
        },
        Some(source) => source,
    };
    let rows = db.get_recovery_entries(source.id)?;
    assert(are_entries(old(db)@.entries, source.id, rows@));
    let chosen = select_recovery_entries(project.root_path.as_str(), &rows, paths);
    let ghost seen = chosen;
    assert(is_selection(project.root_path@, rows@, text::views(paths@), seen));
    let part = match chosen {
        Err(e) => {
            return Err(e);
        },
        Ok(part) => part,
    };
    if text::same(source.status.as_str(), "applied") {
        return Ok(reference.to_owned());
    }
    ensure_recovery_is_applicable(&source, now)?;
    if part.len() == rows.len() {
        return Ok(reference.to_owned());
    }
    let mut request = text::cat3(
        source.request.as_str(),
        " (",
        number::count_text(part.len()).as_str(),
    );
    request.append(" of ");
    request.append(number::count_text(rows.len()).as_str());
    request.append(" selected files)");
    let ambiguity = match &source.ambiguity {
        Some(said) => Some(said.as_str()),
        None => None,
    };
    let derived = db.create_recovery_at(
        project.id,
        source.run_id,
        request.as_str(),
        source.kind.as_str(),
        source.confidence.as_str(),
        ambiguity,
        &part,
        now,
    );
    let ghost made = derived;
    assert(recovery_created(
        old(db)@,
        db@,
        source.project_id,
        source.run_id,
        part_request(source.request@, part@.len() as int, rows@.len() as int),
        source.kind@,
        source.confidence@,
        text::view_opt(source.ambiguity),
        part@,
        now,
        made,
    ));
    let result = match derived {
        Err(e) => Err(e),
        Ok(recovery) => Ok(recovery.public_id()),
    };
    assert(part_saved(
        old(db)@,
        db@,
        source,
        part@,
        rows@.len() as int,
        now,
        result,
    ));
    result
}

// ── what is said ────────────────────────────────────────────────────

/// How sure a plan is, for people to read.
pub open spec fn confidence_name(confidence: Seq<char>) -> Seq<char> {
    if confidence == "explicit-intent"@ {
        "High — matched a completed task boundary"@
    } else if confidence == "path-match"@ {
        "Medium — matched file and folder names"@
    } else if confidence == "exact-paths"@ {
        "High — exact selected files"@
    } else if confidence == "exact-timestamp"@ {
        "High — exact saved time"@
    } else if confidence == "ambiguous"@ {
        "Needs review — changes overlap"@
    } else {
        confidence
    }
}

/// How sure a plan is, for people to read.
pub fn confidence_label<'a>(confidence: &'a str) -> (label: &'a str)
    ensures
        label@ == confidence_name(confidence@),
{
    if text::same(confidence, "explicit-intent") {
        "High — matched a completed task boundary"
    } else if text::same(confidence, "path-match") {
        "Medium — matched file and folder names"
    } else if text::same(confidence, "exact-paths") {
        "High — exact selected files"
    } else if text::same(confidence, "exact-timestamp") {
        "High — exact saved time"
    } else if text::same(confidence, "ambiguous") {
        "Needs review — changes overlap"
    } else {
        confidence
    }
}

/// The lines on a saved plan before what it does.
pub open spec fn recovery_head(r: Recovery, files: int) -> Seq<Seq<char>> {
    let a = seq![BOLD@ + "Saved recovery plan "@ + recovery_name(r) + "."@ + RESET@];
    let b = match r.run_id {
        Some(id) => a.push("Run:        r_"@ + number::decimal(id as int)),
        None => a,
    };
    let c = b.push("Request:    "@ + r.request@).push(
        "Match:      "@ + confidence_name(r.confidence@),
    );
    let d = if r.confidence@ == "explicit-intent"@ {
        c.push("Keeps:      later file changes that do not overlap"@)
    } else if r.confidence@ == "path-match"@ {
        c.push("Scope:      whole files matched by file and folder names"@)
    } else {
        c
    };
    let e = d.push("Files:      "@ + number::decimal(files));
    match r.ambiguity {
        Some(said) => e.push(YELLOW@ + "Needs review:"@ + RESET@ + " "@ + said@).push(""@),
        None => e.push(""@),
    }
}

/// The lines on a saved plan before what it does.
pub fn print_recovery(recovery: &Recovery, files: usize) -> (lines: Vec<String>)
    ensures
        text::views(lines@) == recovery_head(*recovery, files as int),
{
    let mut lines: Vec<String> = Vec::new();
    let id = recovery.public_id();
    text::add_line(&mut lines, text::cat5(BOLD, "Saved recovery plan ", id.as_str(), ".", RESET));
    proof {
        assert(text::views(lines@) =~= seq![
            BOLD@ + "Saved recovery plan "@ + recovery_name(*recovery) + "."@ + RESET@,
        ]);
    }
    if let Some(run_id) = recovery.run_id {
        text::add_line(
            &mut lines,
            text::cat("Run:        r_", number::signed_text(run_id).as_str()),
        );
    }
    text::add_line(&mut lines, text::cat("Request:    ", recovery.request.as_str()));
    text::add_line(
        &mut lines,
        text::cat("Match:      ", confidence_label(recovery.confidence.as_str())),
    );
    if text::same(recovery.confidence.as_str(), "explicit-intent") {
        text::add_line(
            &mut lines,
            "Keeps:      later file changes that do not overlap".to_owned(),
        );
    } else if text::same(recovery.confidence.as_str(), "path-match") {
        text::add_line(
            &mut lines,
            "Scope:      whole files matched by file and folder names".to_owned(),
        );
    }
    text::add_line(&mut lines, text::cat("Files:      ", number::count_text(files).as_str()));
    if let Some(said) = &recovery.ambiguity {
        text::add_line(
            &mut lines,
            text::cat5(YELLOW, "Needs review:", RESET, " ", said.as_str()),
        );
    }
    text::add_line(&mut lines, "".to_owned());
    lines
}

/// What is said after the files of a recovery are shown.
pub open spec fn recovery_tail(recovery: Recovery, files: int) -> Seq<Seq<char>> {
    let last = "Apply this exact plan with: undo apply "@ + recovery_name(recovery);
    if files == 0 {
        seq![
            "This plan would not change any files."@,
            DIM@ + "No files changed."@ + RESET@,
            last,
        ]
    } else {
        seq![last]
    }
}

/// What is said after the files of a recovery are shown.
pub fn print_recovery_end(recovery: &Recovery, files: usize) -> (lines: Vec<String>)
    ensures
        text::views(lines@) == recovery_tail(*recovery, files as int),
{
    let mut lines: Vec<String> = Vec::new();
    if files == 0 {
        text::add_line(&mut lines, "This plan would not change any files.".to_owned());
        text::add_line(&mut lines, text::cat3(DIM, "No files changed.", RESET));
    }
    text::add_line(
        &mut lines,
        text::cat("Apply this exact plan with: undo apply ", recovery.public_id().as_str()),
    );
    proof {
        assert(text::views(lines@) =~= recovery_tail(*recovery, files as int));
    }
    lines
}

/// What is said once a plan has been carried out.
pub open spec fn applied_text(outcome: AppliedRecovery) -> Seq<char> {
    if outcome.already_applied {
        GREEN@ + "Saved recovery plan "@ + recovery_name(outcome.recovery)
            + " was already applied; no files changed."@ + RESET@
    } else {
        GREEN@ + "Changed "@ + number::decimal(outcome.files_changed as int) + " "@ + (
        if outcome.files_changed == 1 {
            "file"@
        } else {
            "files"@
        }) + " using saved recovery plan "@ + recovery_name(outcome.recovery) + "."@ + RESET@
    }
}

/// What is said once a plan has been carried out.
pub fn cmd_apply(outcome: &AppliedRecovery) -> (said: String)
    ensures
        said@ == applied_text(*outcome),
{
    let id = outcome.recovery.public_id();
    if outcome.already_applied {
        return text::cat5(
            GREEN,
            "Saved recovery plan ",
            id.as_str(),
            " was already applied; no files changed.",
            RESET,
        );
    }
    let word = if outcome.files_changed == 1 {
        "file"
    } else {
        "files"
    };
    let mut said = text::cat5(
        GREEN,
        "Changed ",
        number::count_text(outcome.files_changed).as_str(),
        " ",
        word,
    );
    said.append(" using saved recovery plan ");
    said.append(id.as_str());
    said.append(".");
    said.append(RESET);
    said
}

} // verus!
