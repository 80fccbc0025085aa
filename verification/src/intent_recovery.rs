//! Taking back one finished task of a Run, and keeping what came after it.
use vstd::prelude::*;
use vstd::string::*;

use crate::db::events::{between, is_deletion, touching_beyond, touching_upto};
use crate::db::{Database, Tables};
use crate::error::Error;
use crate::groups::named_paths;
use crate::hex;
use crate::models::{FileEvent, Recovery, Run, RunIntent, WatchedProject};
use crate::recoveries::{
    ensure_run_project, other_project_text, persist_restore_plan, plan_persisted, still_active,
    still_active_text,
};
use crate::restore;
use crate::restore::{
    checked_target, entries_view, is_arranged, target_at, ActionView, EntryView, ExpectedState,
    RestoreAction, RestoreKind, RestorePlanEntry, RestoreSource, SourceView,
};
use crate::restore_fs;
use crate::restore_fs::{read_at, CappedRead, ProjectPath, Spot};
use crate::restore_report::{current_state, state_of};
use crate::rows;
use crate::rows::Order;
use crate::sorted;
use crate::text;

verus! {

// ── states ──────────────────────────────────────────────────────────

/// The recorded state of a path at a moment.
#[derive(Debug)]
pub enum StoredState {
    Present { hash: String, timestamp: i64 },
    Absent,
    Unknown,
}

/// The recorded state of a path.
pub ghost enum StoredView {
    Present(Seq<char>, i64),
    Absent,
    Unknown,
}

impl View for StoredState {
    type V = StoredView;

    open spec fn view(&self) -> StoredView {
        match *self {
            StoredState::Present { hash, timestamp } => StoredView::Present(hash@, timestamp),
            StoredState::Absent => StoredView::Absent,
            StoredState::Unknown => StoredView::Unknown,
        }
    }
}

/// A path with contents, where they are known.
pub open spec fn stored(hash: Option<String>, timestamp: i64) -> StoredView {
    match hash {
        Some(h) => StoredView::Present(h@, timestamp),
        None => StoredView::Unknown,
    }
}

/// The recorded state of a path by the last change up to a moment, else by the
/// first one after it.
pub open spec fn stored_by(last: Option<FileEvent>, next: Option<FileEvent>, path: Seq<char>) -> StoredView {
    match last {
        Some(e) => if (text::is_some_text(e.old_path, path) && e.path@ != path) || (e.path@ == path
            && is_deletion(e)) {
            StoredView::Absent
        } else {
            stored(e.current_hash, e.timestamp)
        },
        None => match next {
            Some(e) => if text::is_some_text(e.old_path, path) || (e.path@ == path && (
            e.event_type@ == "MODIFIED"@ || e.event_type@ == "DELETED"@)) {
                stored(e.previous_hash, e.timestamp)
            } else {
                StoredView::Absent
            },
            None => StoredView::Unknown,
        },
    }
}

/// The recorded state of a path right after an event.
pub open spec fn stored_at(events: Seq<FileEvent>, project_id: i64, path: Seq<char>, event_id: i64) -> StoredView {
    stored_by(
        rows::pick(events, Order::HighestId, touching_upto(project_id, path, event_id)),
        rows::pick(events, Order::LowestId, touching_beyond(project_id, path, event_id)),
        path,
    )
}

/// Whether two recorded states are the same.
pub open spec fn is_same(a: StoredView, b: StoredView) -> bool {
    match (a, b) {
        (StoredView::Present(x, _), StoredView::Present(y, _)) => x == y,
        (StoredView::Absent, StoredView::Absent) => true,
        (StoredView::Unknown, StoredView::Unknown) => true,
        _ => false,
    }
}

/// Whether a file is in a recorded state.
pub open spec fn fits(state: (bool, Option<Seq<char>>), recorded: StoredView) -> bool {
    match recorded {
        StoredView::Present(hash, _) => state.0 && state.1 == Some(hash),
        StoredView::Absent => !state.0,
        StoredView::Unknown => false,
    }
}

/// A path with contents, where they are known.
fn with_contents(hash: &Option<String>, timestamp: i64) -> (state: StoredState)
    ensures
        state@ == stored(*hash, timestamp),
{
    match hash {
        Some(h) => StoredState::Present { hash: h.clone(), timestamp },
        None => StoredState::Unknown,
    }
}

/// The recorded state of a path right after an event.
pub fn stored_state_at_id(db: &Database, project_id: i64, path: &str, event_id: i64) -> (result:
    Result<StoredState, Error>)
    requires
        db@.wf(),
    ensures
        result matches Ok(state) && state@ == stored_at(db@.events, project_id, path@, event_id),
{
    let last = db.get_path_state_event_at_id(project_id, path, event_id)?;
    let next = db.get_first_path_event_after_id(project_id, path, event_id)?;
    proof {
        rows::lemma_pick(
            db@.events,
            Order::HighestId,
            touching_upto(project_id, path@, event_id),
            last,
        );
        rows::lemma_pick(
            db@.events,
            Order::LowestId,
            touching_beyond(project_id, path@, event_id),
            next,
        );
    }
    if let Some(event) = last {
        let here = text::same(event.path.as_str(), path);
        if text::is_text(&event.old_path, path) && !here {
            return Ok(StoredState::Absent);
        }
        if here && text::same(event.event_type.as_str(), "DELETED") {
            return Ok(StoredState::Absent);
        }
        return Ok(with_contents(&event.current_hash, event.timestamp));
    }
    if let Some(event) = next {
        let existed = text::is_text(&event.old_path, path) || (text::same(
            event.path.as_str(),
            path,
        ) && (text::same(event.event_type.as_str(), "MODIFIED") || text::same(
            event.event_type.as_str(),
            "DELETED",
        )));
        if existed {
            return Ok(with_contents(&event.previous_hash, event.timestamp));
        }
        return Ok(StoredState::Absent);
    }
    Ok(StoredState::Unknown)
}

/// Whether two recorded states are the same.
pub fn same_stored_state(left: &StoredState, right: &StoredState) -> (same: bool)
    ensures
        same == is_same(left@, right@),
{
    match (left, right) {
        (StoredState::Present { hash: a, timestamp: _ }, StoredState::Present { hash: b, timestamp: _ }) =>
        text::same(a.as_str(), b.as_str()),
        (StoredState::Absent, StoredState::Absent) => true,
        (StoredState::Unknown, StoredState::Unknown) => true,
        _ => false,
    }
}

/// Whether a file is in a recorded state.
pub fn current_matches_stored(there: bool, hash: &Option<String>, recorded: &StoredState) -> (yes: bool)
    ensures
        yes == fits((there, text::view_opt(*hash)), recorded@),
{
    match recorded {
        StoredState::Present { hash: h, timestamp: _ } => there && text::is_text(hash, h.as_str()),
        StoredState::Absent => !there,
        StoredState::Unknown => false,
    }
}

// ── one file ────────────────────────────────────────────────────────

/// Contents that were kept, under what they are known by. Without contents they
/// could not be read, and why.
#[derive(Debug)]
pub struct SavedCopy {
    pub hash: String,
    pub content: Option<Vec<u8>>,
    pub error: String,
}

/// The contents that are known by a hash, else why they cannot be had.
pub open spec fn saved_at(copies: Seq<SavedCopy>, hash: Seq<char>) -> Result<Seq<u8>, Seq<char>>
    decreases copies.len(),
{
    if copies.len() == 0 {
        Err("saved contents "@ + hash + " are unavailable"@)
    } else if copies.last().hash@ == hash {
        match copies.last().content {
            Some(bytes) => Ok(bytes@),
            None => Err(copies.last().error@),
        }
    } else {
        saved_at(copies.drop_last(), hash)
    }
}

/// The contents that are known by a hash.
pub fn find_copy<'a>(copies: &'a Vec<SavedCopy>, hash: &str) -> (result: Result<&'a Vec<u8>, Error>)
    ensures
        match saved_at(copies@, hash@) {
            Ok(bytes) => result matches Ok(b) && b@ == bytes,
            Err(said) => result matches Err(e) && e@ == said,
        },
{
    let mut i: usize = copies.len();
    proof {
        assert(copies@.take(i as int) =~= copies@);
    }
    while i > 0
        invariant
            i <= copies.len(),
            saved_at(copies@.take(i as int), hash@) == saved_at(copies@, hash@),
        decreases i,
    {
        proof {
            assert(copies@.take(i as int).drop_last() =~= copies@.take(i - 1));
            assert(copies@.take(i as int).last() == copies@[i - 1]);
        }
        if text::same(copies[i - 1].hash.as_str(), hash) {
            return match &copies[i - 1].content {
                Some(bytes) => Ok(bytes),
                None => Err(Error::new(copies[i - 1].error.clone())),
            };
        }
        i -= 1;
    }
    Err(Error::new(text::cat3("saved contents ", hash, " are unavailable")))
}

/// What becomes of contents once the change from some contents to others is
/// taken back in them. Nothing where the change is no longer in them.
pub uninterp spec fn reverted(changed: Seq<u8>, original: Seq<u8>, current: Seq<u8>) -> Option<Seq<u8>>;

/// Takes a change back: the patch that `diffy::create_patch_bytes` makes from
/// the changed contents to the original ones, applied by `diffy::apply_bytes` to
/// the current ones. The result depends on the three contents alone; what it
/// holds is left unsaid.
#[verifier::external_body]
fn take_back(changed: &[u8], original: &[u8], current: &[u8]) -> (content: Option<Vec<u8>>)
    ensures
        match content {
            Some(bytes) => reverted(changed@, original@, current@) == Some(bytes@),
            None => reverted(changed@, original@, current@) is None,
        },
{
    diffy::apply_bytes(current, &diffy::create_patch_bytes(changed, original)).ok()
}

/// An entry that writes a version, on a file in a state.
pub open spec fn write_entry(
    target: Seq<char>,
    hash: Seq<char>,
    timestamp: i64,
    state: (bool, Option<Seq<char>>),
) -> EntryView {
    EntryView {
        path: target,
        rel_path: target,
        action: ActionView::Write(SourceView { hash, timestamp, kind: RestoreKind::Exact }),
        expected: Some(state),
    }
}

/// What is done to a file, and contents that must be kept for it.
pub ghost struct StepView {
    pub entry: EntryView,
    pub keep: Option<(Seq<char>, Seq<u8>)>,
}

/// What is done to a file that is still as a task left it: it becomes what it
/// was before.
pub open spec fn direct_step(target: Seq<char>, before: StoredView, state: (bool, Option<Seq<char>>)) -> Result<
    Option<StepView>,
    Seq<char>,
> {
    match before {
        StoredView::Present(hash, timestamp) => Ok(
            Some(
                StepView { entry: write_entry(target, hash, timestamp, state), keep: None },
            ),
        ),
        StoredView::Absent => Ok(
            Some(
                StepView {
                    entry: EntryView {
                        path: target,
                        rel_path: target,
                        action: ActionView::Delete,
                        expected: Some(state),
                    },
                    keep: None,
                },
            ),
        ),
        StoredView::Unknown => Err("state before intent is no longer recoverable"@),
    }
}

/// What is done to a file that was changed again, once the task is taken back in
/// it.
pub open spec fn merged_step(
    target: Seq<char>,
    timestamp: i64,
    state: (bool, Option<Seq<char>>),
    merged: Option<Seq<u8>>,
) -> Result<Option<StepView>, Seq<char>> {
    match merged {
        None => Err("later edits overlap the unwanted intent"@),
        Some(content) => {
            let hash = hex::content_hash(content);
            if state.1 == Some(hash) {
                Ok(None)
            } else {
                Ok(
                    Some(
                        StepView {
                            entry: write_entry(target, hash, timestamp, state),
                            keep: Some((hash, content)),
                        },
                    ),
                )
            }
        },
    }
}

/// What is done to a file to take a task back in it.
pub open spec fn inverse_step(
    target: Seq<char>,
    before: StoredView,
    after: StoredView,
    read: CappedRead,
    copies: Seq<SavedCopy>,
) -> Result<Option<StepView>, Seq<char>> {
    if is_same(before, after) {
        Ok(None)
    } else {
        match current_state(read, target) {
            Err(said) => Err(said),
            Ok(state) => if fits(state, after) {
                direct_step(target, before, state)
            } else if fits(state, before) {
                Ok(None)
            } else if before is Present && after is Present && read is Content {
                match (saved_at(copies, before->0), saved_at(copies, after->0)) {
                    (Err(said), _) => Err(said),
                    (_, Err(said)) => Err(said),
                    (Ok(original), Ok(changed)) => merged_step(
                        target,
                        before->1,
                        state,
                        reverted(changed, original, read->Content_0@),
                    ),
                }
            } else {
                Err("later edits overlap a create, delete, rename, or unavailable snapshot"@)
            },
        }
    }
}

/// What is done to a file, and contents that must be kept for it.
#[derive(Debug)]
pub struct InverseStep {
    pub entry: RestorePlanEntry,
    pub keep: Option<(String, Vec<u8>)>,
}

/// What is done to a file, and contents that must be kept for it.
pub open spec fn step_view(step: InverseStep) -> StepView {
    StepView {
        entry: step.entry@,
        keep: match step.keep {
            Some(k) => Some((k.0@, k.1@)),
            None => None,
        },
    }
}

/// Whether a result is a step, none, or an error.
pub open spec fn is_step(
    expected: Result<Option<StepView>, Seq<char>>,
    result: Result<Option<InverseStep>, Error>,
) -> bool {
    match expected {
        Err(said) => result matches Err(e) && e@ == said,
        Ok(None) => result matches Ok(x) && x is None,
        Ok(Some(step)) => result matches Ok(Some(x)) && step_view(x) == step,
    }
}

/// An entry that writes a version, on a file in a state.
fn make_write(target: &ProjectPath, hash: String, timestamp: i64, there: bool, current: &Option<String>) -> (entry:
    RestorePlanEntry)
    ensures
        entry@ == write_entry(target@, hash@, timestamp, (there, text::view_opt(*current))),
{
    RestorePlanEntry {
        path: target.duplicate(),
        rel_path: target.display(),
        action: RestoreAction::Write {
            source: RestoreSource { hash, timestamp, kind: RestoreKind::Exact },
        },
        expected_current: Some(ExpectedState { exists: there, hash: text::clone_opt(current) }),
    }
}

/// What is done to a file that is still as a task left it.
pub fn direct_entry_from_state(
    target: &ProjectPath,
    before: &StoredState,
    there: bool,
    current: &Option<String>,
) -> (result: Result<Option<InverseStep>, Error>)
    ensures
        is_step(direct_step(target@, before@, (there, text::view_opt(*current))), result),
{
    match before {
        StoredState::Present { hash, timestamp } => Ok(
            Some(
                InverseStep {
                    entry: make_write(target, hash.clone(), *timestamp, there, current),
                    keep: None,
                },
            ),
        ),
        StoredState::Absent => Ok(
            Some(
                InverseStep {
                    entry: RestorePlanEntry {
                        path: target.duplicate(),
                        rel_path: target.display(),
                        action: RestoreAction::DeleteCreatedAfterTarget,
                        expected_current: Some(
                            ExpectedState { exists: there, hash: text::clone_opt(current) },
                        ),
                    },
                    keep: None,
                },
            ),
        ),
        StoredState::Unknown => Err(
            Error::new("state before intent is no longer recoverable".to_owned()),
        ),
    }
}

/// What is done to a file that was changed again, once the task is taken back in
/// it.
pub fn entry_from_merge(
    target: &ProjectPath,
    timestamp: i64,
    there: bool,
    current: &Option<String>,
    merged: Option<Vec<u8>>,
) -> (result: Result<Option<InverseStep>, Error>)
    ensures
        is_step(
            merged_step(
                target@,
                timestamp,
                (there, text::view_opt(*current)),
                match merged {
                    Some(bytes) => Some(bytes@),
                    None => None,
                },
            ),
            result,
        ),
{
    match merged {
        None => Err(Error::new("later edits overlap the unwanted intent".to_owned())),
        Some(content) => {
            let hash = hex::hash_bytes(content.as_slice());
            if text::is_text(current, hash.as_str()) {
                return Ok(None);
            }
            let entry = make_write(target, hash.clone(), timestamp, there, current);
            Ok(Some(InverseStep { entry, keep: Some((hash, content)) }))
        },
    }
}

/// What is done to a file to take back what happened to it between two events.
pub fn plan_inverse_intent_path(
    db: &Database,
    project_id: i64,
    target: &ProjectPath,
    db_path: &str,
    start_event_id: i64,
    end_event_id: i64,
    read: &CappedRead,
    copies: &Vec<SavedCopy>,
) -> (result: Result<Option<InverseStep>, Error>)
    requires
        db@.wf(),
    ensures
        is_step(
            inverse_step(
                target@,
                stored_at(db@.events, project_id, db_path@, start_event_id),
                stored_at(db@.events, project_id, db_path@, end_event_id),
                *read,
                copies@,
            ),
            result,
        ),
{
    let before = stored_state_at_id(db, project_id, db_path, start_event_id)?;
    let after = stored_state_at_id(db, project_id, db_path, end_event_id)?;
    if same_stored_state(&before, &after) {
        return Ok(None);
    }
    let (there, hash) = match state_of(read, target.relative()) {
        Err(e) => {
            return Err(e);
        },
        Ok(state) => state,
    };
    if current_matches_stored(there, &hash, &after) {
        return direct_entry_from_state(target, &before, there, &hash);
    }
    if current_matches_stored(there, &hash, &before) {
        return Ok(None);
    }
    match (&before, &after, read) {
        (
            StoredState::Present { hash: before_hash, timestamp },
            StoredState::Present { hash: after_hash, timestamp: _ },
            CappedRead::Content(current),
        ) => {
            let original = match find_copy(copies, before_hash.as_str()) {
                Err(e) => {
                    return Err(e);
                },
                Ok(bytes) => bytes,
            };
            let changed = match find_copy(copies, after_hash.as_str()) {
                Err(e) => {
                    return Err(e);
                },
                Ok(bytes) => bytes,
            };
            let merged = take_back(
                changed.as_slice(),
                original.as_slice(),
                current.as_slice(),
            );
            entry_from_merge(target, *timestamp, there, &hash, merged)
        },
        _ => Err(
            Error::new(
                "later edits overlap a create, delete, rename, or unavailable snapshot".to_owned(),
            ),
        ),
    }
}

// ── a whole task ────────────────────────────────────────────────────

/// What is done to the first of some files to take a task back, what cannot be
/// done, and contents that must be kept.
pub ghost struct Inverse {
    pub entries: Seq<EntryView>,
    pub conflicts: Seq<Seq<char>>,
    pub keep: Seq<(Seq<char>, Seq<u8>)>,
}

/// What is done to files to take a task back in them.
pub open spec fn inverse_of(
    events: Seq<FileEvent>,
    project: WatchedProject,
    first: i64,
    last: i64,
    spots: Seq<Spot>,
    copies: Seq<SavedCopy>,
    paths: Seq<Seq<char>>,
) -> Result<Inverse, Seq<char>>
    decreases paths.len(),
{
    if paths.len() == 0 {
        Ok(Inverse { entries: Seq::empty(), conflicts: Seq::empty(), keep: Seq::empty() })
    } else {
        match inverse_of(events, project, first, last, spots, copies, paths.drop_last()) {
            Err(e) => Err(e),
            Ok(sofar) => match target_at(project.root_path@, spots, paths.last()) {
                Err(e) => Err(e),
                Ok(target) => match inverse_step(
                    target,
                    stored_at(events, project.id, paths.last(), first),
                    stored_at(events, project.id, paths.last(), last),
                    read_at(spots, target),
                    copies,
                ) {
                    Err(said) => Ok(
                        Inverse {
                            conflicts: sofar.conflicts.push(target + ": "@ + said),
                            ..sofar
                        },
                    ),
                    Ok(None) => Ok(sofar),
                    Ok(Some(step)) => Ok(
                        Inverse {
                            entries: sofar.entries.push(step.entry),
                            keep: match step.keep {
                                Some(k) => sofar.keep.push(k),
                                None => sofar.keep,
                            },
                            ..sofar
                        },
                    ),
                },
            },
        }
    }
}

/// What must be kept.
pub open spec fn keep_view(keep: Seq<(String, Vec<u8>)>) -> Seq<(Seq<char>, Seq<u8>)> {
    keep.map_values(|k: (String, Vec<u8>)| (k.0@, k.1@))
}

/// A wrong path among the first is one among all.
proof fn lemma_inverse_error(
    events: Seq<FileEvent>,
    project: WatchedProject,
    first: i64,
    last: i64,
    spots: Seq<Spot>,
    copies: Seq<SavedCopy>,
    paths: Seq<Seq<char>>,
    n: int,
)
    requires
        0 <= n <= paths.len(),
        inverse_of(events, project, first, last, spots, copies, paths.take(n)) is Err,
    ensures
        inverse_of(events, project, first, last, spots, copies, paths) == inverse_of(
            events,
            project,
            first,
            last,
            spots,
            copies,
            paths.take(n),
        ),
    decreases paths.len() - n,
{
    if n < paths.len() {
        assert(paths.take(n + 1).drop_last() =~= paths.take(n));
        lemma_inverse_error(events, project, first, last, spots, copies, paths, n + 1);
    } else {
        assert(paths.take(n) =~= paths);
    }
}

/// What is done to files to take a task back, what cannot be done, and contents
/// that must be kept.
#[derive(Debug)]
pub struct InversePlan {
    pub entries: Vec<RestorePlanEntry>,
    pub conflicts: Vec<String>,
    pub keep: Vec<(String, Vec<u8>)>,
}

/// What is done to files to take a task back in them.
fn plan_inverse(
    db: &Database,
    project: &WatchedProject,
    first: i64,
    last: i64,
    spots: &Vec<Spot>,
    copies: &Vec<SavedCopy>,
    paths: &Vec<String>,
) -> (result: Result<InversePlan, Error>)
    requires
        db@.wf(),
    ensures
        match inverse_of(db@.events, *project, first, last, spots@, copies@, text::views(paths@)) {
            Err(said) => result matches Err(e) && e@ == said,
            Ok(inverse) => {
                &&& result matches Ok(plan)
                &&& entries_view(plan.entries@) == inverse.entries
                &&& text::views(plan.conflicts@) == inverse.conflicts
                &&& keep_view(plan.keep@) == inverse.keep
            },
        },
{
    let ghost all = text::views(paths@);
    let none = CappedRead::Missing;
    let mut entries: Vec<RestorePlanEntry> = Vec::new();
    let mut conflicts: Vec<String> = Vec::new();
    let mut keep: Vec<(String, Vec<u8>)> = Vec::new();
    let mut i: usize = 0;
    proof {
        assert(all.take(0) =~= Seq::empty());
        assert(entries_view(entries@) =~= Seq::empty());
        assert(text::views(conflicts@) =~= Seq::empty());
        assert(keep_view(keep@) =~= Seq::empty());
    }
    while i < paths.len()
        invariant
            i <= paths.len(),
            db@.wf(),
            none is Missing,
            all == text::views(paths@),
            inverse_of(db@.events, *project, first, last, spots@, copies@, all.take(i as int))
                == Ok::<Inverse, Seq<char>>(
                Inverse {
                    entries: entries_view(entries@),
                    conflicts: text::views(conflicts@),
                    keep: keep_view(keep@),
                },
            ),
        decreases paths.len() - i,
    {
        proof {
            assert(all.take(i + 1).drop_last() =~= all.take(i as int));
            assert(all.take(i + 1).last() == paths@[i as int]@);
        }
        let target = match checked_target(project.root_path.as_str(), spots, paths[i].as_str()) {
            Err(e) => {
                proof {
                    lemma_inverse_error(
                        db@.events,
                        *project,
                        first,
                        last,
                        spots@,
                        copies@,
                        all,
                        i + 1,
                    );
                }
                return Err(e);
            },
            Ok(target) => target,
        };
        let read = match restore_fs::find_spot(spots, target.relative()) {
            Some(k) => &spots[k].read,
            None => &none,
        };
        assert(*read == read_at(spots@, target@));
        match plan_inverse_intent_path(
            db,
            project.id,
            &target,
            paths[i].as_str(),
            first,
            last,
            read,
            copies,
        ) {
            Err(e) => {
                text::add_line(
                    &mut conflicts,
                    text::cat3(target.relative(), ": ", e.message.as_str()),
                );
            },
            Ok(None) => {},
            Ok(Some(step)) => {
                let ghost view = step_view(step);
                restore::add_entry(&mut entries, step.entry);
                if let Some(k) = step.keep {
                    let ghost earlier = keep@;
                    let ghost added = k;
                    keep.push(k);
                    proof {
                        assert(keep_view(keep@) =~= keep_view(earlier).push(
                            (added.0@, added.1@),
                        ));
                    }
                }
            },
        }
        i += 1;
    }
    proof {
        assert(all.take(i as int) =~= all);
    }
    Ok(InversePlan { entries, conflicts, keep })
}

/// The paths that changes name, each once and in their order.
pub fn paths_from_events(events: &Vec<FileEvent>) -> (paths: Vec<String>)
    ensures
        sorted::is_sorted_set(named_paths(events@), text::views(paths@)),
{
    let mut list: Vec<String> = Vec::new();
    let mut i: usize = 0;
    proof {
        assert(text::views(list@) =~= named_paths(events@.take(0)));
    }
    while i < events.len()
        invariant
            i <= events.len(),
            text::views(list@) == named_paths(events@.take(i as int)),
        decreases events.len() - i,
    {
        proof {
            assert(events@.take(i + 1).drop_last() =~= events@.take(i as int));
        }
        text::add_line(&mut list, events[i].path.clone());
        if let Some(old_path) = &events[i].old_path {
            text::add_line(&mut list, old_path.clone());
        }
        i += 1;
    }
    proof {
        assert(events@.take(i as int) =~= events@);
    }
    sorted::sorted_set(&list)
}

/// What is said of a task that still runs.
pub open spec fn open_task_text(intent: RunIntent) -> Seq<char> {
    "No recovery plan was created because task '"@ + intent.label@
        + "' is still active.\nFinish the task boundary, then try again."@
}

/// A saved recovery of a task, and contents that must be kept for it.
#[derive(Debug)]
pub struct IntentRecovery {
    pub recovery: Recovery,
    pub keep: Vec<(String, Vec<u8>)>,
}

/// Saving the recovery of a task from what is done to its files.
pub open spec fn inverse_persisted(
    before: Tables,
    after: Tables,
    project: WatchedProject,
    run: Run,
    request: Seq<char>,
    inverse: Inverse,
    spots: Seq<Spot>,
    now: i64,
    result: Result<IntentRecovery, Error>,
) -> bool {
    exists|entries: Seq<EntryView>, saved: Result<Recovery, Error>|
        {
            &&& is_arranged(inverse.entries, entries)
            &&& #[trigger] plan_persisted(
                before,
                after,
                project,
                Some(run.id),
                request,
                "intent"@,
                task_confidence(inverse.conflicts),
                task_ambiguity(inverse.conflicts),
                entries,
                spots,
                now,
                saved,
            )
            &&& match saved {
                Err(e) => result matches Err(x) && x == e,
                Ok(r) => result matches Ok(x) && x.recovery == r && keep_view(x.keep@)
                    == inverse.keep,
            }
        }
}

/// How sure a recovery of a task is.
pub open spec fn task_confidence(conflicts: Seq<Seq<char>>) -> Seq<char> {
    if conflicts.len() == 0 {
        "explicit-intent"@
    } else {
        "ambiguous"@
    }
}

/// What is unclear about a recovery of a task.
pub open spec fn task_ambiguity(conflicts: Seq<Seq<char>>) -> Option<Seq<char>> {
    if conflicts.len() == 0 {
        None
    } else {
        Some(text::joined(conflicts, "; "@))
    }
}

/// Saving the recovery of a task at a time.
pub open spec fn intent_recovery_created(
    before: Tables,
    after: Tables,
    project: WatchedProject,
    run: Run,
    intent: RunIntent,
    request: Seq<char>,
    spots: Seq<Spot>,
    copies: Seq<SavedCopy>,
    now: i64,
    result: Result<IntentRecovery, Error>,
) -> bool {
    if run.ended_at is None {
        after == before && (result matches Err(e) && e@ == still_active_text(run))
    } else if intent.end_event_id is None {
        after == before && (result matches Err(e) && e@ == open_task_text(intent))
    } else if run.project_id != project.id {
        after == before && (result matches Err(e) && e@ == other_project_text(run))
    } else {
        let last = intent.end_event_id->0;
        let changes = rows::listed(
            before.events,
            Order::LowestId,
            between(project.id, intent.start_event_id, last),
        );
        exists|paths: Seq<Seq<char>>|
            {
                &&& #[trigger] sorted::is_sorted_set(named_paths(changes), paths)
                &&& match inverse_of(
                    before.events,
                    project,
                    intent.start_event_id,
                    last,
                    spots,
                    copies,
                    paths,
                ) {
                    Err(said) => after == before && (result matches Err(e) && e@ == said),
                    Ok(inverse) => inverse_persisted(
                        before,
                        after,
                        project,
                        run,
                        request,
                        inverse,
                        spots,
                        now,
                        result,
                    ),
                }
            }
    }
}

/// Saves the recovery of a task at a time. Later changes to the same files are
/// kept where they do not overlap; where they do the plan says so and cannot be
/// carried out.
pub fn create_intent_recovery(
    db: &mut Database,
    project: &WatchedProject,
    run: &Run,
    intent: &RunIntent,
    request: &str,
    spots: &Vec<Spot>,
    copies: &Vec<SavedCopy>,
    now: i64,
) -> (result: Result<IntentRecovery, Error>)
    requires
        old(db)@.wf(),
    ensures
        final(db)@.wf(),
        intent_recovery_created(
            old(db)@,
            final(db)@,
            *project,
            *run,
            *intent,
            request@,
            spots@,
            copies@,
            now,
            result,
        ),
{
    if run.is_active() {
        return Err(still_active(run));
    }
    let last = match intent.end_event_id {
        Some(id) => id,
        None => {
            return Err(
                Error::new(
                    text::cat3(
                        "No recovery plan was created because task '",
                        intent.label.as_str(),
                        "' is still active.\nFinish the task boundary, then try again.",
                    ),
                ),
            );
        },
    };
    ensure_run_project(run, project)?;
    let changes = db.get_events_between_ids(project.id, intent.start_event_id, last)?;
    proof {
        rows::lemma_listed(
            db@.events,
            Order::LowestId,
            between(project.id, intent.start_event_id, last),
            changes@,
        );
    }
    let paths = paths_from_events(&changes);
    assert(sorted::is_sorted_set(named_paths(changes@), text::views(paths@)));
    let inverse = match plan_inverse(
        db,
        project,
        intent.start_event_id,
        last,
        spots,
        copies,
        &paths,
    ) {
        Err(e) => {
            return Err(e);
        },
        Ok(inverse) => inverse,
    };
    let ghost view = inverse_of(
        old(db)@.events,
        *project,
        intent.start_event_id,
        last,
        spots@,
        copies@,
        text::views(paths@),
    )->Ok_0;
    let clean = inverse.conflicts.len() == 0;
    let confidence = if clean {
        "explicit-intent"
    } else {
        "ambiguous"
    };
    let said = text::join(&inverse.conflicts, "; ");
    let ambiguity = if clean {
        None
    } else {
        Some(said.as_str())
    };
    assert(text::view_opt_str(ambiguity) == task_ambiguity(view.conflicts));
    let keep = inverse.keep;
    let plan = restore::arranged_plan(inverse.entries);
    let saved = persist_restore_plan(
        db,
        project,
        Some(run.id),
        request,
        "intent",
        confidence,
        ambiguity,
        &plan,
        spots,
        now,
    );
    let ghost seen = saved;
    assert(plan_persisted(
        old(db)@,
        db@,
        *project,
        Some(run.id),
        request@,
        "intent"@,
        task_confidence(view.conflicts),
        task_ambiguity(view.conflicts),
        entries_view(plan.entries@),
        spots@,
        now,
        seen,
    ));
    let result = match saved {
        Err(e) => Err(e),
        Ok(recovery) => Ok(IntentRecovery { recovery, keep }),
    };
    assert(inverse_persisted(
        old(db)@,
        db@,
        *project,
        *run,
        request@,
        view,
        spots@,
        now,
        result,
    ));
    result
}

} // verus!
