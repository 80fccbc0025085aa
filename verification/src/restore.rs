//! Bringing files back to an earlier state: which version is meant, and the
//! plan that brings every file of a scope there.
use vstd::prelude::*;
use vstd::string::*;

use crate::clock;
use crate::db::checkpoints::is_checkpoint_by_ref;
use crate::db::events::{
    between, deletes, deletions_at, is_deletion, max_id, since, touching_after, touching_beyond,
    touching_until, touching_upto,
};
use crate::db::Database;
use crate::duration;
use crate::error::Error;
use crate::models::{Checkpoint, FileEvent, Run, WatchedProject};
use crate::number;
use crate::order;
use crate::path;
use crate::path::join_spec;
use crate::places;
use crate::places::Place;
use crate::restore_fs;
use crate::restore_fs::{confined_below, leaf_at, leaf_exists, leaf_problem, ProjectPath, Spot};
use crate::rows;
use crate::rows::Order;
use crate::sorted;
use crate::text;

verus! {

// ── versions ────────────────────────────────────────────────────────

/// Where a version comes from.
#[derive(Clone, Copy, Debug, PartialEq, Eq, Structural)]
pub enum RestoreKind {
    /// It was there at the time that was asked for.
    Exact,
    /// None is from so long ago; this is the oldest.
    OldestFallback,
    /// The file is gone; these are its last contents.
    DeletedFallback,
}

/// A version of a file.
#[derive(Debug)]
pub struct RestoreSource {
    pub hash: String,
    pub timestamp: i64,
    pub kind: RestoreKind,
}

/// What a version is.
pub ghost struct SourceView {
    pub hash: Seq<char>,
    pub timestamp: i64,
    pub kind: RestoreKind,
}

impl View for RestoreSource {
    type V = SourceView;

    open spec fn view(&self) -> SourceView {
        SourceView { hash: self.hash@, timestamp: self.timestamp, kind: self.kind }
    }
}

/// What an optional version is.
pub open spec fn source_opt(source: Option<RestoreSource>) -> Option<SourceView> {
    match source {
        Some(s) => Some(s@),
        None => None,
    }
}

/// The state of a path at a moment.
#[derive(Debug)]
pub enum BoundaryState {
    Present(RestoreSource),
    Absent,
    /// Nothing recorded tells.
    Unknown,
}

/// What the state of a path is.
pub ghost enum StateView {
    Present(SourceView),
    Absent,
    Unknown,
}

impl View for BoundaryState {
    type V = StateView;

    open spec fn view(&self) -> StateView {
        match *self {
            BoundaryState::Present(s) => StateView::Present(s@),
            BoundaryState::Absent => StateView::Absent,
            BoundaryState::Unknown => StateView::Unknown,
        }
    }
}

/// An exact version, where its contents are known.
pub open spec fn exact(hash: Option<String>, timestamp: i64) -> Option<SourceView> {
    match hash {
        Some(h) => Some(SourceView { hash: h@, timestamp, kind: RestoreKind::Exact }),
        None => None,
    }
}

/// The version of a path before a change, where the change tells that there was
/// one.
pub open spec fn source_before(e: FileEvent, path: Seq<char>) -> Option<SourceView> {
    if text::is_some_text(e.old_path, path) || (e.path@ == path && (e.event_type@ == "MODIFIED"@
        || e.event_type@ == "DELETED"@)) {
        exact(e.previous_hash, e.timestamp)
    } else {
        None
    }
}

/// The state of a path after a change that touches it.
pub open spec fn state_after(e: FileEvent, path: Seq<char>) -> StateView {
    if text::is_some_text(e.old_path, path) && e.path@ != path {
        StateView::Absent
    } else if e.path@ == path && is_deletion(e) {
        StateView::Absent
    } else {
        match exact(e.current_hash, e.timestamp) {
            Some(s) => StateView::Present(s),
            None => StateView::Unknown,
        }
    }
}

/// The state of a path by the last change up to a moment, else by the first one
/// after it.
pub open spec fn state_by(last: Option<FileEvent>, next: Option<FileEvent>, path: Seq<char>) -> StateView {
    match last {
        Some(e) => state_after(e, path),
        None => match next {
            Some(e) => match source_before(e, path) {
                Some(s) => StateView::Present(s),
                None => StateView::Absent,
            },
            None => StateView::Unknown,
        },
    }
}

/// The state of a path at a time.
pub open spec fn state_at_time(
    events: Seq<FileEvent>,
    project_id: i64,
    path: Seq<char>,
    time: i64,
) -> StateView {
    state_by(
        rows::pick(events, Order::Newest, touching_until(project_id, path, time)),
        rows::pick(events, Order::Oldest, touching_after(project_id, path, time)),
        path,
    )
}

/// The state of a path right after an event.
pub open spec fn state_at_id(
    events: Seq<FileEvent>,
    project_id: i64,
    path: Seq<char>,
    event_id: i64,
) -> StateView {
    state_by(
        rows::pick(events, Order::HighestId, touching_upto(project_id, path, event_id)),
        rows::pick(events, Order::LowestId, touching_beyond(project_id, path, event_id)),
        path,
    )
}

/// The version of a path in a state.
pub open spec fn source_in(state: StateView) -> Option<SourceView> {
    match state {
        StateView::Present(s) => Some(s),
        StateView::Absent => None,
        StateView::Unknown => None,
    }
}

/// The changes that left a file at a path with contents that are known.
pub open spec fn versions_at(project_id: i64, path: Seq<char>) -> spec_fn(FileEvent) -> bool {
    |e: FileEvent|
        e.project_id == project_id && e.path@ == path && !is_deletion(e) && e.current_hash is Some
}

/// The same, up to a time.
pub open spec fn versions_until(project_id: i64, path: Seq<char>, until: i64) -> spec_fn(
    FileEvent,
) -> bool {
    |e: FileEvent| versions_at(project_id, path)(e) && e.timestamp <= until
}

/// The version that the first change after a time replaced, where that change
/// tells of one.
pub open spec fn source_before_next(
    events: Seq<FileEvent>,
    project_id: i64,
    path: Seq<char>,
    time: i64,
) -> Option<SourceView> {
    match rows::pick(events, Order::Oldest, touching_after(project_id, path, time)) {
        Some(e) => source_before(e, path),
        None => None,
    }
}

/// The version of a path to bring back for a time: the newest one up to then, else
/// the one before the first change after it, else the oldest one, else the last
/// contents of a file that was deleted.
pub open spec fn best_source(
    events: Seq<FileEvent>,
    project_id: i64,
    path: Seq<char>,
    time: i64,
) -> Option<SourceView> {
    let newest = rows::pick(events, Order::Newest, versions_until(project_id, path, time));
    let oldest = rows::pick(events, Order::Oldest, versions_at(project_id, path));
    let deleted = rows::pick(events, Order::Newest, deletions_at(project_id, path));
    if newest is Some {
        Some(
            SourceView {
                hash: newest->0.current_hash->0@,
                timestamp: newest->0.timestamp,
                kind: RestoreKind::Exact,
            },
        )
    } else if source_before_next(events, project_id, path, time) is Some {
        source_before_next(events, project_id, path, time)
    } else if oldest is Some {
        Some(
            SourceView {
                hash: oldest->0.current_hash->0@,
                timestamp: oldest->0.timestamp,
                kind: RestoreKind::OldestFallback,
            },
        )
    } else if deleted is Some && deleted->0.previous_hash is Some {
        Some(
            SourceView {
                hash: deleted->0.previous_hash->0@,
                timestamp: deleted->0.timestamp,
                kind: RestoreKind::DeletedFallback,
            },
        )
    } else {
        None
    }
}

/// An exact version, where its contents are known.
fn exact_source(hash: &Option<String>, timestamp: i64) -> (source: Option<RestoreSource>)
    ensures
        source_opt(source) == exact(*hash, timestamp),
{
    match hash {
        Some(h) => Some(RestoreSource { hash: h.clone(), timestamp, kind: RestoreKind::Exact }),
        None => None,
    }
}

/// The version of a path before a change.
pub fn source_before_event(event: &FileEvent, path: &str) -> (source: Option<RestoreSource>)
    ensures
        source_opt(source) == source_before(*event, path@),
{
    let there = text::is_text(&event.old_path, path) || (text::same(event.path.as_str(), path) && (
    text::same(event.event_type.as_str(), "MODIFIED") || text::same(
        event.event_type.as_str(),
        "DELETED",
    )));
    if !there {
        return None;
    }
    exact_source(&event.previous_hash, event.timestamp)
}

/// The state of a path after a change that touches it.
pub fn state_from_event(event: &FileEvent, path: &str) -> (state: BoundaryState)
    ensures
        state@ == state_after(*event, path@),
{
    if text::is_text(&event.old_path, path) && !text::same(event.path.as_str(), path) {
        return BoundaryState::Absent;
    }
    if text::same(event.path.as_str(), path) && text::same(event.event_type.as_str(), "DELETED") {
        return BoundaryState::Absent;
    }
    match exact_source(&event.current_hash, event.timestamp) {
        Some(source) => BoundaryState::Present(source),
        None => BoundaryState::Unknown,
    }
}

/// The state of a path by the changes round a moment.
fn state_between(last: Option<FileEvent>, next: Option<FileEvent>, path: &str) -> (state:
    BoundaryState)
    ensures
        state@ == state_by(last, next, path@),
{
    match last {
        Some(event) => state_from_event(&event, path),
        None => match next {
            Some(event) => match source_before_event(&event, path) {
                Some(source) => BoundaryState::Present(source),
                None => BoundaryState::Absent,
            },
            None => BoundaryState::Unknown,
        },
    }
}

/// The state of a path at a time.
pub fn resolve_state_at_time(db: &Database, project_id: i64, path: &str, target_time: i64) -> (result:
    Result<BoundaryState, Error>)
    requires
        db@.wf(),
    ensures
        result matches Ok(state) && state@ == state_at_time(
            db@.events,
            project_id,
            path@,
            target_time,
        ),
{
    let last = db.get_path_state_event_at_time(project_id, path, target_time)?;
    let next = db.get_first_path_event_after(project_id, path, target_time)?;
    proof {
        rows::lemma_pick(
            db@.events,
            Order::Newest,
            touching_until(project_id, path@, target_time),
            last,
        );
        rows::lemma_pick(
            db@.events,
            Order::Oldest,
            touching_after(project_id, path@, target_time),
            next,
        );
    }
    Ok(state_between(last, next, path))
}

/// The state of a path right after an event.
pub fn resolve_state_at_event_id(db: &Database, project_id: i64, path: &str, event_id: i64) -> (result:
    Result<BoundaryState, Error>)
    requires
        db@.wf(),
    ensures
        result matches Ok(state) && state@ == state_at_id(db@.events, project_id, path@, event_id),
{
    let last = db.get_path_state_event_at_id(project_id, path, event_id)?;
    let next = db.get_first_path_event_after_id(project_id, path, event_id)?;
    proof {
        rows::lemma_pick(
            db@.events,
            Order::HighestId,
            touching_upto(project_id, path@, event_id),
            last,
        );
        rows::lemma_pick(
            db@.events,
            Order::LowestId,
            touching_beyond(project_id, path@, event_id),
            next,
        );
    }
    Ok(state_between(last, next, path))
}

/// The version in a state.
fn version_in(state: BoundaryState) -> (source: Option<RestoreSource>)
    ensures
        source_opt(source) == source_in(state@),
{
    match state {
        BoundaryState::Present(source) => Some(source),
        BoundaryState::Absent => None,
        BoundaryState::Unknown => None,
    }
}

/// The version of a path that was there at a time.
pub fn resolve_exact_source_at_time(db: &Database, project_id: i64, path: &str, target_time: i64) -> (result:
    Result<Option<RestoreSource>, Error>)
    requires
        db@.wf(),
    ensures
        result matches Ok(source) && source_opt(source) == source_in(
            state_at_time(db@.events, project_id, path@, target_time),
        ),
{
    let state = resolve_state_at_time(db, project_id, path, target_time)?;
    Ok(version_in(state))
}

/// The version of a path that was there when a Run started.
pub fn resolve_exact_source_at_session_start(db: &Database, session: &Run, path: &str) -> (result:
    Result<Option<RestoreSource>, Error>)
    requires
        db@.wf(),
    ensures
        result matches Ok(source) && source_opt(source) == source_in(
            state_at_id(db@.events, session.project_id, path@, session.start_event_id),
        ),
{
    let state = resolve_state_at_event_id(db, session.project_id, path, session.start_event_id)?;
    Ok(version_in(state))
}

/// The version of a path to bring back for a time.
pub fn resolve_restore_source(db: &Database, project_id: i64, path: &str, target_time: i64) -> (result:
    Result<Option<RestoreSource>, Error>)
    requires
        db@.wf(),
    ensures
        result matches Ok(source) && source_opt(source) == best_source(
            db@.events,
            project_id,
            path@,
            target_time,
        ),
{
    let has_contents = |e: &FileEvent| -> (yes: bool)
        ensures yes == versions_at(project_id, path@)(*e)
    {
        e.project_id == project_id && text::same(e.path.as_str(), path) && !deletes(e)
            && e.current_hash.is_some()
    };
    let up_to_then = |e: &FileEvent| -> (yes: bool)
        ensures yes == versions_until(project_id, path@, target_time)(*e)
    {
        e.timestamp <= target_time && e.project_id == project_id && text::same(
            e.path.as_str(),
            path,
        ) && !deletes(e) && e.current_hash.is_some()
    };
    let newest = rows::first_row(
        &db.events,
        Order::Newest,
        up_to_then,
        Ghost(versions_until(project_id, path@, target_time)),
    );
    if let Some(event) = newest {
        return Ok(exact_source(&event.current_hash, event.timestamp));
    }
    let next = db.get_first_path_event_after(project_id, path, target_time)?;
    proof {
        rows::lemma_pick(
            db@.events,
            Order::Oldest,
            touching_after(project_id, path@, target_time),
            next,
        );
    }
    if let Some(event) = next {
        if let Some(source) = source_before_event(&event, path) {
            return Ok(Some(source));
        }
    }
    let oldest = rows::first_row(
        &db.events,
        Order::Oldest,
        has_contents,
        Ghost(versions_at(project_id, path@)),
    );
    if let Some(event) = oldest {
        if let Some(hash) = event.current_hash {
            return Ok(
                Some(
                    RestoreSource {
                        hash,
                        timestamp: event.timestamp,
                        kind: RestoreKind::OldestFallback,
                    },
                ),
            );
        }
    }
    let deleted = db.get_latest_deleted_event(project_id, path)?;
    proof {
        rows::lemma_pick(db@.events, Order::Newest, deletions_at(project_id, path@), deleted);
    }
    if let Some(event) = deleted {
        if let Some(hash) = event.previous_hash {
            return Ok(
                Some(
                    RestoreSource {
                        hash,
                        timestamp: event.timestamp,
                        kind: RestoreKind::DeletedFallback,
                    },
                ),
            );
        }
    }
    Ok(None)
}

// ── plans ───────────────────────────────────────────────────────────

/// What is done to a file.
#[derive(Debug)]
pub enum RestoreAction {
    Write { source: RestoreSource },
    DeleteCreatedAfterTarget,
}

/// What is done to a file.
pub ghost enum ActionView {
    Write(SourceView),
    Delete,
}

impl View for RestoreAction {
    type V = ActionView;

    open spec fn view(&self) -> ActionView {
        match *self {
            RestoreAction::Write { source } => ActionView::Write(source@),
            RestoreAction::DeleteCreatedAfterTarget => ActionView::Delete,
        }
    }
}

/// What must be at a file for a plan to be carried out.
#[derive(Debug)]
pub struct ExpectedState {
    pub exists: bool,
    pub hash: Option<String>,
}

/// What must be at a file.
pub open spec fn expected_view(state: Option<ExpectedState>) -> Option<(bool, Option<Seq<char>>)> {
    match state {
        Some(s) => Some((s.exists, text::view_opt(s.hash))),
        None => None,
    }
}

/// What a plan does to one file.
#[derive(Debug)]
pub struct RestorePlanEntry {
    pub path: ProjectPath,
    pub rel_path: String,
    pub action: RestoreAction,
    pub expected_current: Option<ExpectedState>,
}

/// What a plan does to one file.
pub ghost struct EntryView {
    pub path: Seq<char>,
    pub rel_path: Seq<char>,
    pub action: ActionView,
    pub expected: Option<(bool, Option<Seq<char>>)>,
}

impl View for RestorePlanEntry {
    type V = EntryView;

    open spec fn view(&self) -> EntryView {
        EntryView {
            path: self.path@,
            rel_path: self.rel_path@,
            action: self.action@,
            expected: expected_view(self.expected_current),
        }
    }
}

/// A plan: what is done to each of some files.
#[derive(Debug)]
pub struct RestorePlan {
    pub entries: Vec<RestorePlanEntry>,
}

/// What the entries of a plan are.
pub open spec fn entries_view(list: Seq<RestorePlanEntry>) -> Seq<EntryView> {
    list.map_values(|e: RestorePlanEntry| e@)
}

/// The paths by which entries are ordered.
pub open spec fn entry_paths(list: Seq<EntryView>) -> Seq<Seq<char>> {
    list.map_values(|e: EntryView| e.rel_path)
}

/// Whether entries are others in the order of their paths.
pub open spec fn is_arranged(all: Seq<EntryView>, entries: Seq<EntryView>) -> bool {
    &&& all.len() <= usize::MAX
    &&& exists|order: Seq<usize>|
        #[trigger] order::is_text_order(entry_paths(all), order) && entries == order::arranged(
            all,
            order,
        )
}

/// An entry for a file with nothing expected of it.
pub open spec fn new_entry(target: Seq<char>, action: ActionView) -> EntryView {
    EntryView { path: target, rel_path: target, action, expected: None }
}

/// What a plan does to a file that was in a state: it writes the version of that
/// state, and deletes a file that was not there.
pub open spec fn entry_for(
    spots: Seq<Spot>,
    target: Seq<char>,
    state: StateView,
    unknown_is_absent: bool,
) -> Result<Option<EntryView>, Seq<char>> {
    match state {
        StateView::Present(source) => Ok(Some(new_entry(target, ActionView::Write(source)))),
        _ => if state is Unknown && !unknown_is_absent {
            Ok(None)
        } else {
            match leaf_exists(leaf_at(spots, target), target) {
                Err(e) => Err(e),
                Ok(there) => if there {
                    Ok(Some(new_entry(target, ActionView::Delete)))
                } else {
                    Ok(None)
                },
            }
        },
    }
}

/// The file of a project at a path, where it can be put back.
pub open spec fn target_at(root: Seq<char>, spots: Seq<Spot>, path: Seq<char>) -> Result<
    Seq<char>,
    Seq<char>,
> {
    match confined_below(root, path) {
        Err(e) => Err(e),
        Ok(target) => match leaf_problem(leaf_at(spots, target), target) {
            Some(e) => Err(e),
            None => Ok(target),
        },
    }
}

/// The file of a project at a path, where it can be put back.
pub fn checked_target(root: &str, spots: &Vec<Spot>, path: &str) -> (result: Result<ProjectPath, Error>)
    ensures
        match target_at(root@, spots@, path@) {
            Ok(target) => result matches Ok(t) && t@ == target,
            Err(said) => result matches Err(e) && e@ == said,
        },
{
    match ProjectPath::from_stored(root, path) {
        Err(e) => Err(e),
        Ok(target) => {
            let leaf = restore_fs::find_leaf(spots, target.relative());
            match restore_fs::validate(&target, leaf) {
                Err(e) => Err(e),
                Ok(_) => Ok(target),
            }
        },
    }
}

/// What a plan does to a file that was in a state.
fn plan_entry(spots: &Vec<Spot>, target: ProjectPath, state: BoundaryState, unknown_is_absent: bool) -> (result:
    Result<Option<RestorePlanEntry>, Error>)
    ensures
        match entry_for(spots@, target@, state@, unknown_is_absent) {
            Err(said) => result matches Err(e) && e@ == said,
            Ok(None) => result matches Ok(x) && x is None,
            Ok(Some(entry)) => result matches Ok(Some(x)) && x@ == entry,
        },
{
    let delete = match state {
        BoundaryState::Present(source) => {
            let rel_path = target.display();
            return Ok(
                Some(
                    RestorePlanEntry {
                        path: target,
                        rel_path,
                        action: RestoreAction::Write { source },
                        expected_current: None,
                    },
                ),
            );
        },
        BoundaryState::Absent => true,
        BoundaryState::Unknown => unknown_is_absent,
    };
    if !delete {
        return Ok(None);
    }
    let leaf = restore_fs::find_leaf(spots, target.relative());
    match restore_fs::file_exists(&target, leaf) {
        Err(e) => Err(e),
        Ok(there) => if there {
            let rel_path = target.display();
            Ok(
                Some(
                    RestorePlanEntry {
                        path: target,
                        rel_path,
                        action: RestoreAction::DeleteCreatedAfterTarget,
                        expected_current: None,
                    },
                ),
            )
        } else {
            Ok(None)
        },
    }
}

/// A copy of what must be at a file.
pub fn copy_expected(state: &Option<ExpectedState>) -> (copy: Option<ExpectedState>)
    ensures
        expected_view(copy) == expected_view(*state),
{
    match state {
        Some(s) => Some(ExpectedState { exists: s.exists, hash: text::clone_opt(&s.hash) }),
        None => None,
    }
}

/// A copy of what is done to a file.
pub fn copy_action(action: &RestoreAction) -> (copy: RestoreAction)
    ensures
        copy@ == action@,
{
    match action {
        RestoreAction::Write { source } => RestoreAction::Write {
            source: RestoreSource {
                hash: source.hash.clone(),
                timestamp: source.timestamp,
                kind: source.kind,
            },
        },
        RestoreAction::DeleteCreatedAfterTarget => RestoreAction::DeleteCreatedAfterTarget,
    }
}

/// A copy of an entry.
pub fn copy_entry(entry: &RestorePlanEntry) -> (copy: RestorePlanEntry)
    ensures
        copy@ == entry@,
{
    RestorePlanEntry {
        path: entry.path.duplicate(),
        rel_path: entry.rel_path.clone(),
        action: copy_action(&entry.action),
        expected_current: copy_expected(&entry.expected_current),
    }
}

/// Adds an entry to a list.
pub fn add_entry(list: &mut Vec<RestorePlanEntry>, entry: RestorePlanEntry)
    ensures
        entries_view(final(list)@) == entries_view(old(list)@).push(entry@),
{
    let ghost before = list@;
    let ghost added = entry;
    list.push(entry);
    proof {
        assert(entries_view(list@) =~= entries_view(before).push(added@));
    }
}

/// A plan with entries in the order of their paths.
pub fn arranged_plan(entries: Vec<RestorePlanEntry>) -> (plan: RestorePlan)
    ensures
        is_arranged(entries_view(entries@), entries_view(plan.entries@)),
{
    let ghost all = entries_view(entries@);
    let count: usize = entries.len();
    assert(all.len() == count);
    let said = |e: &RestorePlanEntry| -> (out: String)
        ensures out@ == e@.rel_path
    { e.rel_path.clone() };
    let keys = text::lines_for(&entries, said, Ghost(|e: RestorePlanEntry| e@.rel_path));
    proof {
        assert(text::views(keys@) =~= entry_paths(all));
    }
    let order = order::text_order_of(&keys);
    let mut sorted: Vec<RestorePlanEntry> = Vec::new();
    let mut i: usize = 0;
    proof {
        assert(entries_view(sorted@) =~= order::arranged(all, order@.take(0)));
    }
    while i < order.len()
        invariant
            i <= order.len(),
            all == entries_view(entries@),
            order::is_text_order(entry_paths(all), order@),
            entries_view(sorted@) == order::arranged(all, order@.take(i as int)),
        decreases order.len() - i,
    {
        let at: usize = order[i];
        proof {
            assert(order@[i as int] < entry_paths(all).len());
            assert(all[at as int] == entries@[at as int]@);
        }
        add_entry(&mut sorted, copy_entry(&entries[at]));
        proof {
            assert(order@.take(i + 1) =~= order@.take(i as int).push(at));
            assert(order::arranged(all, order@.take(i + 1)) =~= order::arranged(
                all,
                order@.take(i as int),
            ).push(all[at as int]));
        }
        i += 1;
    }
    proof {
        assert(order@.take(i as int) =~= order@);
        assert(order::is_text_order(entry_paths(all), order@));
    }
    RestorePlan { entries: sorted }
}

// ── plans for a scope ───────────────────────────────────────────────

/// Paths with one more, where it is in a scope and can be put back.
pub open spec fn noted(
    sofar: Result<Seq<Seq<char>>, Seq<char>>,
    path: Seq<char>,
    scope: Seq<char>,
    root: Seq<char>,
    spots: Seq<Spot>,
) -> Result<Seq<Seq<char>>, Seq<char>> {
    match sofar {
        Err(e) => Err(e),
        Ok(list) => if !path::in_scope(path, scope) {
            Ok(list)
        } else {
            match target_at(root, spots, path) {
                Err(e) => Err(e),
                Ok(_) => Ok(list.push(path)),
            }
        },
    }
}

/// The paths in a scope that changes name, where all can be put back.
pub open spec fn scoped_paths(
    events: Seq<FileEvent>,
    scope: Seq<char>,
    root: Seq<char>,
    spots: Seq<Spot>,
) -> Result<Seq<Seq<char>>, Seq<char>>
    decreases events.len(),
{
    if events.len() == 0 {
        Ok(Seq::empty())
    } else {
        let half = noted(
            scoped_paths(events.drop_last(), scope, root, spots),
            events.last().path@,
            scope,
            root,
            spots,
        );
        match events.last().old_path {
            Some(p) => noted(half, p@, scope, root, spots),
            None => half,
        }
    }
}

/// What a plan does to the files at some paths, for a time.
pub open spec fn entries_at_time(
    events: Seq<FileEvent>,
    project_id: i64,
    root: Seq<char>,
    spots: Seq<Spot>,
    paths: Seq<Seq<char>>,
    time: i64,
) -> Result<Seq<EntryView>, Seq<char>>
    decreases paths.len(),
{
    if paths.len() == 0 {
        Ok(Seq::empty())
    } else {
        match entries_at_time(events, project_id, root, spots, paths.drop_last(), time) {
            Err(e) => Err(e),
            Ok(list) => {
                let path = paths.last();
                match target_at(root, spots, path) {
                    Err(e) => Err(e),
                    Ok(target) => match entry_for(
                        spots,
                        target,
                        state_at_time(events, project_id, path, time),
                        true,
                    ) {
                        Err(e) => Err(e),
                        Ok(None) => Ok(list),
                        Ok(Some(entry)) => Ok(list.push(entry)),
                    },
                }
            },
        }
    }
}

/// Whether a result is what a plan does to all files of a scope, for a time.
pub open spec fn is_directory_plan(
    events: Seq<FileEvent>,
    project_id: i64,
    root: Seq<char>,
    spots: Seq<Spot>,
    scope: Seq<char>,
    time: i64,
    result: Result<Seq<EntryView>, Seq<char>>,
) -> bool {
    let seen = rows::listed(events, Order::Newest, since(project_id, time));
    match scoped_paths(seen, scope, root, spots) {
        Err(e) => result == Err::<Seq<EntryView>, Seq<char>>(e),
        Ok(list) => exists|paths: Seq<Seq<char>>|
            #[trigger] sorted::is_sorted_set(list, paths) && result == entries_at_time(
                events,
                project_id,
                root,
                spots,
                paths,
                time,
            ),
    }
}

/// What a result holds: entries, or what is wrong.
pub open spec fn entries_result(result: Result<Vec<RestorePlanEntry>, Error>) -> Result<
    Seq<EntryView>,
    Seq<char>,
> {
    match result {
        Ok(list) => Ok(entries_view(list@)),
        Err(e) => Err(e@),
    }
}

/// Once a path is wrong, more changes do not mend it.
proof fn lemma_scoped_error(
    events: Seq<FileEvent>,
    scope: Seq<char>,
    root: Seq<char>,
    spots: Seq<Spot>,
    n: int,
)
    requires
        0 <= n <= events.len(),
        scoped_paths(events.take(n), scope, root, spots) is Err,
    ensures
        scoped_paths(events, scope, root, spots) == scoped_paths(
            events.take(n),
            scope,
            root,
            spots,
        ),
    decreases events.len() - n,
{
    if n < events.len() {
        assert(events.take(n + 1).drop_last() =~= events.take(n));
        lemma_scoped_error(events, scope, root, spots, n + 1);
    } else {
        assert(events.take(n) =~= events);
    }
}

/// Once an entry is wrong, more paths do not mend it.
proof fn lemma_entries_error(
    events: Seq<FileEvent>,
    project_id: i64,
    root: Seq<char>,
    spots: Seq<Spot>,
    paths: Seq<Seq<char>>,
    time: i64,
    n: int,
)
    requires
        0 <= n <= paths.len(),
        entries_at_time(events, project_id, root, spots, paths.take(n), time) is Err,
    ensures
        entries_at_time(events, project_id, root, spots, paths, time) == entries_at_time(
            events,
            project_id,
            root,
            spots,
            paths.take(n),
            time,
        ),
    decreases paths.len() - n,
{
    if n < paths.len() {
        assert(paths.take(n + 1).drop_last() =~= paths.take(n));
        lemma_entries_error(events, project_id, root, spots, paths, time, n + 1);
    } else {
        assert(paths.take(n) =~= paths);
    }
}

/// Adds a path to a set, where it is in a scope and can be put back.
fn note_path(
    kept: &mut Vec<String>,
    path: &String,
    scope: &str,
    root: &str,
    spots: &Vec<Spot>,
    Ghost(list): Ghost<Seq<Seq<char>>>,
) -> (result: Result<(), Error>)
    requires
        sorted::in_order(old(kept)@),
        sorted::is_sorted_set(list, text::views(old(kept)@)),
    ensures
        match noted(Ok(list), path@, scope@, root@, spots@) {
            Err(said) => result matches Err(e) && e@ == said,
            Ok(more) => result is Ok && sorted::in_order(final(kept)@) && sorted::is_sorted_set(
                more,
                text::views(final(kept)@),
            ),
        },
{
    if !path::within(path.as_str(), scope) {
        return Ok(());
    }
    match checked_target(root, spots, path.as_str()) {
        Err(e) => Err(e),
        Ok(_) => {
            let ghost before = text::views(kept@);
            let new = sorted::insert(kept, path.clone());
            proof {
                let more = list.push(path@);
                assert forall|t: Seq<char>| text::views(kept@).contains(t) <==> more.contains(
                    t,
                ) by {
                    if list.contains(t) {
                        let k = choose|k: int| 0 <= k < list.len() && list[k] == t;
                        assert(more[k] == t);
                    }
                    assert(more[list.len() as int] == path@);
                    if more.contains(t) && t != path@ {
                        let k = choose|k: int| 0 <= k < more.len() && more[k] == t;
                        assert(list[k] == t);
                    }
                }
            }
            Ok(())
        },
    }
}

/// The paths in a scope that changes name, each once and in their order.
fn paths_in_scope(events: &Vec<FileEvent>, scope: &str, root: &str, spots: &Vec<Spot>) -> (result:
    Result<Vec<String>, Error>)
    ensures
        match scoped_paths(events@, scope@, root@, spots@) {
            Err(said) => result matches Err(e) && e@ == said,
            Ok(list) => result matches Ok(paths) && sorted::is_sorted_set(
                list,
                text::views(paths@),
            ),
        },
{
    let mut kept: Vec<String> = Vec::new();
    let ghost mut list = Seq::<Seq<char>>::empty();
    let mut i: usize = 0;
    proof {
        assert(text::views(kept@) =~= list);
        assert(events@.take(0) =~= Seq::empty());
    }
    while i < events.len()
        invariant
            i <= events.len(),
            sorted::in_order(kept@),
            sorted::is_sorted_set(list, text::views(kept@)),
            scoped_paths(events@.take(i as int), scope@, root@, spots@) == Ok::<
                Seq<Seq<char>>,
                Seq<char>,
            >(list),
        decreases events.len() - i,
    {
        let ghost next = events@.take(i + 1);
        proof {
            assert(next.drop_last() =~= events@.take(i as int));
            assert(next.last() == events@[i as int]);
        }
        let ghost half = noted(Ok(list), events@[i as int].path@, scope@, root@, spots@);
        match note_path(&mut kept, &events[i].path, scope, root, spots, Ghost(list)) {
            Err(e) => {
                proof {
                    assert(scoped_paths(next, scope@, root@, spots@) is Err);
                    lemma_scoped_error(events@, scope@, root@, spots@, i + 1);
                }
                return Err(e);
            },
            Ok(_) => {},
        }
        proof {
            list = half->Ok_0;
        }
        if let Some(old_path) = &events[i].old_path {
            let ghost whole = noted(Ok(list), old_path@, scope@, root@, spots@);
            match note_path(&mut kept, old_path, scope, root, spots, Ghost(list)) {
                Err(e) => {
                    proof {
                        assert(scoped_paths(next, scope@, root@, spots@) is Err);
                        lemma_scoped_error(events@, scope@, root@, spots@, i + 1);
                    }
                    return Err(e);
                },
                Ok(_) => {},
            }
            proof {
                list = whole->Ok_0;
            }
        }
        i += 1;
    }
    proof {
        assert(events@.take(i as int) =~= events@);
    }
    Ok(kept)
}

/// What a plan does to all files of a scope, for a time.
fn plan_directory_restore(
    db: &Database,
    project: &WatchedProject,
    scope: &str,
    target_time: i64,
    spots: &Vec<Spot>,
) -> (result: Result<Vec<RestorePlanEntry>, Error>)
    requires
        db@.wf(),
    ensures
        is_directory_plan(
            db@.events,
            project.id,
            project.root_path@,
            spots@,
            scope@,
            target_time,
            entries_result(result),
        ),
{
    let root = project.root_path.as_str();
    let events = db.get_events_since(project.id, target_time)?;
    proof {
        rows::lemma_listed(db@.events, Order::Newest, since(project.id, target_time), events@);
    }
    let paths = match paths_in_scope(&events, scope, root, spots) {
        Err(e) => {
            return Err(e);
        },
        Ok(paths) => paths,
    };
    let ghost all = text::views(paths@);
    assert(sorted::is_sorted_set(
        scoped_paths(events@, scope@, root@, spots@)->Ok_0,
        all,
    ));
    let mut entries: Vec<RestorePlanEntry> = Vec::new();
    let mut i: usize = 0;
    proof {
        assert(all.take(0) =~= Seq::empty());
        assert(entries_view(entries@) =~= Seq::empty());
    }
    while i < paths.len()
        invariant
            i <= paths.len(),
            db@.wf(),
            all == text::views(paths@),
            root@ == project.root_path@,
            events@ == rows::listed(db@.events, Order::Newest, since(project.id, target_time)),
            scoped_paths(events@, scope@, root@, spots@) is Ok,
            sorted::is_sorted_set(scoped_paths(events@, scope@, root@, spots@)->Ok_0, all),
            entries_at_time(
                db@.events,
                project.id,
                root@,
                spots@,
                all.take(i as int),
                target_time,
            ) == Ok::<Seq<EntryView>, Seq<char>>(entries_view(entries@)),
        decreases paths.len() - i,
    {
        let ghost next = all.take(i + 1);
        proof {
            assert(next.drop_last() =~= all.take(i as int));
            assert(next.last() == paths@[i as int]@);
        }
        let target = match checked_target(root, spots, paths[i].as_str()) {
            Err(e) => {
                proof {
                    lemma_entries_error(
                        db@.events,
                        project.id,
                        root@,
                        spots@,
                        all,
                        target_time,
                        i + 1,
                    );
                }
                return Err(e);
            },
            Ok(target) => target,
        };
        let state = resolve_state_at_time(db, project.id, paths[i].as_str(), target_time)?;
        match plan_entry(spots, target, state, true) {
            Err(e) => {
                proof {
                    lemma_entries_error(
                        db@.events,
                        project.id,
                        root@,
                        spots@,
                        all,
                        target_time,
                        i + 1,
                    );
                }
                return Err(e);
            },
            Ok(None) => {},
            Ok(Some(entry)) => {
                add_entry(&mut entries, entry);
            },
        }
        i += 1;
    }
    proof {
        assert(all.take(i as int) =~= all);
    }
    Ok(entries)
}

/// What a plan does to one file, for a time.
pub open spec fn single_plan(
    events: Seq<FileEvent>,
    project_id: i64,
    root: Seq<char>,
    path: Seq<char>,
    time: i64,
    fallbacks: bool,
) -> Result<Seq<EntryView>, Seq<char>> {
    let source = if fallbacks {
        best_source(events, project_id, path, time)
    } else {
        source_in(state_at_time(events, project_id, path, time))
    };
    match source {
        None => Ok(Seq::empty()),
        Some(s) => match confined_below(root, path) {
            Err(e) => Err(e),
            Ok(target) => Ok(seq![new_entry(target, ActionView::Write(s))]),
        },
    }
}

/// What a plan does to one file, for a time.
fn plan_single_file_restore(
    db: &Database,
    project: &WatchedProject,
    path: &str,
    target_time: i64,
    allow_fallbacks: bool,
) -> (result: Result<Vec<RestorePlanEntry>, Error>)
    requires
        db@.wf(),
    ensures
        entries_result(result) == single_plan(
            db@.events,
            project.id,
            project.root_path@,
            path@,
            target_time,
            allow_fallbacks,
        ),
{
    let found = if allow_fallbacks {
        resolve_restore_source(db, project.id, path, target_time)?
    } else {
        resolve_exact_source_at_time(db, project.id, path, target_time)?
    };
    let mut entries: Vec<RestorePlanEntry> = Vec::new();
    proof {
        assert(entries_view(entries@) =~= Seq::empty());
    }
    let source = match found {
        None => {
            return Ok(entries);
        },
        Some(source) => source,
    };
    match ProjectPath::from_absolute(project.root_path.as_str(), path) {
        Err(e) => Err(e),
        Ok(target) => {
            let rel_path = target.display();
            let ghost view = new_entry(target@, ActionView::Write(source@));
            add_entry(
                &mut entries,
                RestorePlanEntry {
                    path: target,
                    rel_path,
                    action: RestoreAction::Write { source },
                    expected_current: None,
                },
            );
            proof {
                assert(entries_view(entries@) =~= seq![view]);
            }
            Ok(entries)
        },
    }
}

/// What is said of a path that is a link.
pub open spec fn symlink_text(path: Seq<char>) -> Seq<char> {
    "refusing to restore through symlink '"@ + path + "'"@
}

/// Whether a result is the plan for a path from a directory, for a time. A
/// folder, and a path at which nothing is left but below which something was,
/// stand for all files in them.
pub open spec fn is_restore_plan(
    events: Seq<FileEvent>,
    project: WatchedProject,
    cwd: Seq<char>,
    path: Seq<char>,
    time: i64,
    fallbacks: bool,
    raw_symlink: bool,
    disk: Seq<Place>,
    spots: Seq<Spot>,
    result: Result<RestorePlan, Error>,
) -> bool {
    let root = project.root_path@;
    let place = places::leads_to(disk, cwd, path);
    let single = single_plan(events, project.id, root, place.0, time, fallbacks);
    if raw_symlink {
        result matches Err(e) && e@ == symlink_text(path)
    } else if !path::is_at_or_below(place.0, places::real_root(disk, root)) {
        result matches Err(e) && e@ == places::outside_text(path, root)
    } else if !place.1 && path != "."@ && places::is_there(disk, cwd, path) {
        is_planned(single, result)
    } else {
        exists|whole: Result<Seq<EntryView>, Seq<char>>|
            {
                &&& #[trigger] is_directory_plan(
                    events,
                    project.id,
                    root,
                    spots,
                    place.0,
                    time,
                    whole,
                )
                &&& is_planned(
                    if whole is Ok && whole->Ok_0.len() == 0 && !place.1 && path != "."@ {
                        single
                    } else {
                        whole
                    },
                    result,
                )
            }
    }
}

/// Whether a result is a plan of entries in the order of their paths.
pub open spec fn is_planned(
    entries: Result<Seq<EntryView>, Seq<char>>,
    result: Result<RestorePlan, Error>,
) -> bool {
    match entries {
        Err(said) => result matches Err(e) && e@ == said,
        Ok(all) => result matches Ok(plan) && is_arranged(all, entries_view(plan.entries@)),
    }
}

/// The plan of some entries.
fn planned(entries: Result<Vec<RestorePlanEntry>, Error>) -> (result: Result<RestorePlan, Error>)
    ensures
        is_planned(entries_result(entries), result),
{
    match entries {
        Err(e) => Err(e),
        Ok(list) => Ok(arranged_plan(list)),
    }
}

/// Tells that a path is a link, where it is.
fn reject_raw_symlink(raw_symlink: bool, path_str: &str) -> (result: Result<(), Error>)
    ensures
        if raw_symlink {
            result matches Err(e) && e@ == symlink_text(path_str@)
        } else {
            result is Ok
        },
{
    if raw_symlink {
        Err(Error::new(text::cat3("refusing to restore through symlink '", path_str, "'")))
    } else {
        Ok(())
    }
}

/// The plan for a path from a directory, for a time, by what is found on the
/// disk.
pub fn plan_restore(
    db: &Database,
    project: &WatchedProject,
    cwd: &str,
    path_str: &str,
    target_time: i64,
    allow_single_fallbacks: bool,
    raw_symlink: bool,
    disk: &Vec<Place>,
    spots: &Vec<Spot>,
) -> (result: Result<RestorePlan, Error>)
    requires
        db@.wf(),
    ensures
        is_restore_plan(
            db@.events,
            *project,
            cwd@,
            path_str@,
            target_time,
            allow_single_fallbacks,
            raw_symlink,
            disk@,
            spots@,
            result,
        ),
{
    reject_raw_symlink(raw_symlink, path_str)?;
    let place = match places::safe_resolve_path(cwd, path_str, project.root_path.as_str(), disk) {
        Err(e) => {
            return Err(e);
        },
        Ok(place) => place,
    };
    let scope = place.path.as_str();
    let whole_scope = place.directory || text::same(path_str, ".");
    if !whole_scope && place.there {
        let entries = plan_single_file_restore(
            db,
            project,
            scope,
            target_time,
            allow_single_fallbacks,
        );
        return planned(entries);
    }
    let entries = plan_directory_restore(db, project, scope, target_time, spots);
    let ghost whole = entries_result(entries);
    assert(is_directory_plan(
        db@.events,
        project.id,
        project.root_path@,
        spots@,
        scope@,
        target_time,
        whole,
    ));
    let none = match &entries {
        Ok(list) => list.len() == 0,
        Err(_) => false,
    };
    if none && !whole_scope {
        let single = plan_single_file_restore(
            db,
            project,
            scope,
            target_time,
            allow_single_fallbacks,
        );
        planned(single)
    } else {
        planned(entries)
    }
}

// ── plans for chosen files ──────────────────────────────────────────

/// What a plan does to the first of some files, and which they were.
pub ghost struct Sofar {
    pub entries: Seq<EntryView>,
    pub seen: Seq<Seq<char>>,
}

/// What a plan does to chosen files, each once, for the moment after an event.
pub open spec fn entries_at_id(
    events: Seq<FileEvent>,
    project_id: i64,
    root: Seq<char>,
    cwd: Seq<char>,
    spots: Seq<Spot>,
    inputs: Seq<Seq<char>>,
    event_id: i64,
    unknown_is_absent: bool,
) -> Result<Sofar, Seq<char>>
    decreases inputs.len(),
{
    if inputs.len() == 0 {
        Ok(Sofar { entries: Seq::empty(), seen: Seq::empty() })
    } else {
        match entries_at_id(
            events,
            project_id,
            root,
            cwd,
            spots,
            inputs.drop_last(),
            event_id,
            unknown_is_absent,
        ) {
            Err(e) => Err(e),
            Ok(sofar) => {
                let path = join_spec(cwd, inputs.last());
                match target_at(root, spots, path) {
                    Err(e) => Err(e),
                    Ok(target) => if sofar.seen.contains(target) {
                        Ok(sofar)
                    } else {
                        match entry_for(
                            spots,
                            target,
                            state_at_id(events, project_id, path, event_id),
                            unknown_is_absent,
                        ) {
                            Err(e) => Err(e),
                            Ok(None) => Ok(Sofar { seen: sofar.seen.push(target), ..sofar }),
                            Ok(Some(entry)) => Ok(
                                Sofar {
                                    entries: sofar.entries.push(entry),
                                    seen: sofar.seen.push(target),
                                },
                            ),
                        }
                    },
                }
            },
        }
    }
}

/// The entries of a plan for chosen files.
pub open spec fn entries_of(sofar: Result<Sofar, Seq<char>>) -> Result<Seq<EntryView>, Seq<char>> {
    match sofar {
        Ok(s) => Ok(s.entries),
        Err(e) => Err(e),
    }
}

/// Once a file is wrong, more files do not mend it.
proof fn lemma_chosen_error(
    events: Seq<FileEvent>,
    project_id: i64,
    root: Seq<char>,
    cwd: Seq<char>,
    spots: Seq<Spot>,
    inputs: Seq<Seq<char>>,
    event_id: i64,
    unknown_is_absent: bool,
    n: int,
)
    requires
        0 <= n <= inputs.len(),
        entries_at_id(
            events,
            project_id,
            root,
            cwd,
            spots,
            inputs.take(n),
            event_id,
            unknown_is_absent,
        ) is Err,
    ensures
        entries_at_id(
            events,
            project_id,
            root,
            cwd,
            spots,
            inputs,
            event_id,
            unknown_is_absent,
        ) == entries_at_id(
            events,
            project_id,
            root,
            cwd,
            spots,
            inputs.take(n),
            event_id,
            unknown_is_absent,
        ),
    decreases inputs.len() - n,
{
    if n < inputs.len() {
        assert(inputs.take(n + 1).drop_last() =~= inputs.take(n));
        lemma_chosen_error(
            events,
            project_id,
            root,
            cwd,
            spots,
            inputs,
            event_id,
            unknown_is_absent,
            n + 1,
        );
    } else {
        assert(inputs.take(n) =~= inputs);
    }
}

/// The file that an input means, and the path under which its changes are
/// recorded.
fn target_from_input(root: &str, cwd: &str, spots: &Vec<Spot>, path_str: &str) -> (result: Result<
    (String, ProjectPath),
    Error,
>)
    ensures
        match target_at(root@, spots@, join_spec(cwd@, path_str@)) {
            Ok(target) => result matches Ok(r) && r.0@ == join_spec(cwd@, path_str@) && r.1@
                == target,
            Err(said) => result matches Err(e) && e@ == said,
        },
{
    let absolute = path::join(cwd, path_str);
    match checked_target(root, spots, absolute.as_str()) {
        Err(e) => Err(e),
        Ok(target) => Ok((absolute, target)),
    }
}

/// What a plan does to chosen files, for the moment after an event.
fn plan_chosen(
    db: &Database,
    project_id: i64,
    root: &str,
    cwd: &str,
    paths: &Vec<String>,
    event_id: i64,
    unknown_is_absent: bool,
    spots: &Vec<Spot>,
) -> (result: Result<Vec<RestorePlanEntry>, Error>)
    requires
        db@.wf(),
    ensures
        entries_result(result) == entries_of(
            entries_at_id(
                db@.events,
                project_id,
                root@,
                cwd@,
                spots@,
                text::views(paths@),
                event_id,
                unknown_is_absent,
            ),
        ),
{
    let ghost all = text::views(paths@);
    let mut entries: Vec<RestorePlanEntry> = Vec::new();
    let mut seen: Vec<String> = Vec::new();
    let mut i: usize = 0;
    proof {
        assert(all.take(0) =~= Seq::empty());
        assert(entries_view(entries@) =~= Seq::empty());
        assert(text::views(seen@) =~= Seq::empty());
    }
    while i < paths.len()
        invariant
            i <= paths.len(),
            db@.wf(),
            all == text::views(paths@),
            entries_at_id(
                db@.events,
                project_id,
                root@,
                cwd@,
                spots@,
                all.take(i as int),
                event_id,
                unknown_is_absent,
            ) == Ok::<Sofar, Seq<char>>(
                Sofar { entries: entries_view(entries@), seen: text::views(seen@) },
            ),
        decreases paths.len() - i,
    {
        let ghost next = all.take(i + 1);
        proof {
            assert(next.drop_last() =~= all.take(i as int));
            assert(next.last() == paths@[i as int]@);
        }
        let (db_path, target) = match target_from_input(root, cwd, spots, paths[i].as_str()) {
            Err(e) => {
                proof {
                    lemma_chosen_error(
                        db@.events,
                        project_id,
                        root@,
                        cwd@,
                        spots@,
                        all,
                        event_id,
                        unknown_is_absent,
                        i + 1,
                    );
                }
                return Err(e);
            },
            Ok(found) => found,
        };
        if !text::contains(&seen, target.relative()) {
            text::add_line(&mut seen, target.display());
            let state = resolve_state_at_event_id(db, project_id, db_path.as_str(), event_id)?;
            match plan_entry(spots, target, state, unknown_is_absent) {
                Err(e) => {
                    proof {
                        lemma_chosen_error(
                            db@.events,
                            project_id,
                            root@,
                            cwd@,
                            spots@,
                            all,
                            event_id,
                            unknown_is_absent,
                            i + 1,
                        );
                    }
                    return Err(e);
                },
                Ok(None) => {},
                Ok(Some(entry)) => {
                    add_entry(&mut entries, entry);
                },
            }
        }
        i += 1;
    }
    proof {
        assert(all.take(i as int) =~= all);
    }
    Ok(entries)
}

/// The plan that brings chosen files back to how they were when a Run started.
/// A file of which nothing tells counts as not there.
pub fn plan_paths_restore_at_session_start(
    db: &Database,
    project: &WatchedProject,
    cwd: &str,
    paths: &Vec<String>,
    session: &Run,
    spots: &Vec<Spot>,
) -> (result: Result<RestorePlan, Error>)
    requires
        db@.wf(),
    ensures
        is_planned(
            entries_of(
                entries_at_id(
                    db@.events,
                    session.project_id,
                    project.root_path@,
                    cwd@,
                    spots@,
                    text::views(paths@),
                    session.start_event_id,
                    true,
                ),
            ),
            result,
        ),
{
    let entries = plan_chosen(
        db,
        session.project_id,
        project.root_path.as_str(),
        cwd,
        paths,
        session.start_event_id,
        true,
        spots,
    );
    planned(entries)
}

/// The plan that brings chosen files back to how they were after an event. A
/// file of which nothing tells is left alone.
pub fn plan_paths_restore_at_event_id(
    db: &Database,
    project: &WatchedProject,
    cwd: &str,
    paths: &Vec<String>,
    event_id: i64,
    spots: &Vec<Spot>,
) -> (result: Result<RestorePlan, Error>)
    requires
        db@.wf(),
    ensures
        is_planned(
            entries_of(
                entries_at_id(
                    db@.events,
                    project.id,
                    project.root_path@,
                    cwd@,
                    spots@,
                    text::views(paths@),
                    event_id,
                    false,
                ),
            ),
            result,
        ),
{
    let entries = plan_chosen(
        db,
        project.id,
        project.root_path.as_str(),
        cwd,
        paths,
        event_id,
        false,
        spots,
    );
    planned(entries)
}

/// The paths in a scope that changes name.
pub open spec fn scope_members(events: Seq<FileEvent>, scope: Seq<char>) -> Seq<Seq<char>>
    decreases events.len(),
{
    if events.len() == 0 {
        Seq::empty()
    } else {
        let before = scope_members(events.drop_last(), scope);
        let half = if path::in_scope(events.last().path@, scope) {
            before.push(events.last().path@)
        } else {
            before
        };
        match events.last().old_path {
            Some(p) => if path::in_scope(p@, scope) {
                half.push(p@)
            } else {
                half
            },
            None => half,
        }
    }
}

/// The files that a scope stands for, for the moment after an event: those that
/// later changes name, or where there are none the scope itself.
pub open spec fn are_scope_files(
    events: Seq<FileEvent>,
    project_id: i64,
    scope: Seq<char>,
    whole: bool,
    event_id: i64,
    files: Seq<Seq<char>>,
) -> bool {
    let later = rows::listed(
        events,
        Order::LowestId,
        between(project_id, event_id, max_id(events, project_id) as i64),
    );
    let members = scope_members(later, scope);
    if whole && members.len() > 0 {
        sorted::is_sorted_set(members, files)
    } else {
        files == seq![scope]
    }
}

/// Whether a path stands for all files below it: it is a folder, or there is
/// nothing left at it.
pub open spec fn is_scope(disk: Seq<Place>, cwd: Seq<char>, path: Seq<char>) -> bool {
    places::leads_to(disk, cwd, path).1 || path == "."@ || !places::is_there(disk, cwd, path)
}

/// Whether a result is the plan for a path from a directory, for the moment
/// after an event.
pub open spec fn is_plan_at_event(
    events: Seq<FileEvent>,
    project: WatchedProject,
    cwd: Seq<char>,
    path: Seq<char>,
    event_id: i64,
    raw_symlink: bool,
    disk: Seq<Place>,
    spots: Seq<Spot>,
    result: Result<RestorePlan, Error>,
) -> bool {
    let root = project.root_path@;
    let place = places::leads_to(disk, cwd, path);
    if raw_symlink {
        result matches Err(e) && e@ == symlink_text(path)
    } else if !path::is_at_or_below(place.0, places::real_root(disk, root)) {
        result matches Err(e) && e@ == places::outside_text(path, root)
    } else {
        let whole = is_scope(disk, cwd, path);
        exists|files: Seq<Seq<char>>|
            {
                &&& #[trigger] are_scope_files(
                    events,
                    project.id,
                    place.0,
                    whole,
                    event_id,
                    files,
                )
                &&& is_planned(
                    entries_of(
                        entries_at_id(
                            events,
                            project.id,
                            root,
                            cwd,
                            spots,
                            files,
                            event_id,
                            false,
                        ),
                    ),
                    result,
                )
            }
    }
}

/// The paths in a scope that changes name.
fn members_of(events: &Vec<FileEvent>, scope: &str) -> (paths: Vec<String>)
    ensures
        text::views(paths@) == scope_members(events@, scope@),
{
    let mut paths: Vec<String> = Vec::new();
    let mut i: usize = 0;
    proof {
        assert(text::views(paths@) =~= scope_members(events@.take(0), scope@));
    }
    while i < events.len()
        invariant
            i <= events.len(),
            text::views(paths@) == scope_members(events@.take(i as int), scope@),
        decreases events.len() - i,
    {
        proof {
            assert(events@.take(i + 1).drop_last() =~= events@.take(i as int));
        }
        if path::within(events[i].path.as_str(), scope) {
            text::add_line(&mut paths, events[i].path.clone());
        }
        if let Some(old_path) = &events[i].old_path {
            if path::within(old_path.as_str(), scope) {
                text::add_line(&mut paths, old_path.clone());
            }
        }
        i += 1;
    }
    proof {
        assert(events@.take(i as int) =~= events@);
    }
    paths
}

/// The files that a scope stands for, for the moment after an event.
pub fn scope_files(db: &Database, project_id: i64, scope: &str, whole: bool, event_id: i64) -> (result:
    Result<Vec<String>, Error>)
    requires
        db@.wf(),
    ensures
        result matches Ok(files) && are_scope_files(
            db@.events,
            project_id,
            scope@,
            whole,
            event_id,
            text::views(files@),
        ),
{
    if whole {
        let last = db.max_event_id(project_id)?;
        let later = db.get_events_between_ids(project_id, event_id, last)?;
        proof {
            rows::lemma_listed(
                db@.events,
                Order::LowestId,
                between(project_id, event_id, last),
                later@,
            );
        }
        let members = members_of(&later, scope);
        if members.len() > 0 {
            return Ok(sorted::sorted_set(&members));
        }
    }
    let mut files: Vec<String> = Vec::new();
    text::add_line(&mut files, scope.to_owned());
    proof {
        assert(text::views(files@) =~= seq![scope@]);
    }
    Ok(files)
}

/// The plan for a path from a directory, for the moment after an event.
pub fn plan_restore_at_event_id(
    db: &Database,
    project: &WatchedProject,
    cwd: &str,
    path_str: &str,
    event_id: i64,
    raw_symlink: bool,
    disk: &Vec<Place>,
    spots: &Vec<Spot>,
) -> (result: Result<RestorePlan, Error>)
    requires
        db@.wf(),
    ensures
        is_plan_at_event(
            db@.events,
            *project,
            cwd@,
            path_str@,
            event_id,
            raw_symlink,
            disk@,
            spots@,
            result,
        ),
{
    reject_raw_symlink(raw_symlink, path_str)?;
    let place = match places::safe_resolve_path(cwd, path_str, project.root_path.as_str(), disk) {
        Err(e) => {
            return Err(e);
        },
        Ok(place) => place,
    };
    let whole = place.directory || text::same(path_str, ".") || !place.there;
    let files = scope_files(db, project.id, place.path.as_str(), whole, event_id)?;
    assert(are_scope_files(
        db@.events,
        project.id,
        places::leads_to(disk@, cwd@, path_str@).0,
        is_scope(disk@, cwd@, path_str@),
        event_id,
        text::views(files@),
    ));
    plan_paths_restore_at_event_id(db, project, cwd, &files, event_id, spots)
}

// ── requests ────────────────────────────────────────────────────────

/// What is said where a restore names more than one moment.
pub open spec fn one_target_text() -> Seq<char> {
    "use only one restore target: a duration, --checkpoint, or --timestamp"@
}

/// Whether a result is the time that a restore asks for, and how it is called.
pub open spec fn is_restore_time(
    t: crate::db::Tables,
    project_id: i64,
    duration: Option<Seq<char>>,
    checkpoint: Option<Seq<char>>,
    timestamp: Option<i64>,
    now: i64,
    result: Result<(i64, String), Error>,
) -> bool {
    if (duration is Some && checkpoint is Some) || (duration is Some && timestamp is Some) || (
    checkpoint is Some && timestamp is Some) {
        result matches Err(e) && e@ == one_target_text()
    } else if duration is Some {
        match duration::duration_of(duration->0) {
            Err(said) => result matches Err(e) && e@ == said,
            Ok(seconds) => result matches Ok(r) && r.0 == clock::clamp(now - seconds) && r.1@
                == duration->0 + " ago"@,
        }
    } else if checkpoint is Some {
        exists|found: Result<Option<Checkpoint>, Error>|
            {
                &&& #[trigger] is_checkpoint_by_ref(t, project_id, checkpoint->0, found)
                &&& match found {
                    Err(e) => result matches Err(x) && x == e,
                    Ok(None) => result matches Err(e) && e@ == "checkpoint '"@ + checkpoint->0
                        + "' not found"@,
                    Ok(Some(c)) => result matches Ok(r) && r.0 == c.timestamp && r.1@
                        == "checkpoint '"@ + checkpoint->0 + "'"@,
                }
            }
    } else if timestamp is Some {
        result matches Ok(r) && r.0 == timestamp->0 && r.1@ == "Unix timestamp "@ + number::decimal(
            timestamp->0 as int,
        )
    } else {
        result matches Err(e) && e@
            == "restore requires a duration, --checkpoint, or --timestamp"@
    }
}

/// The time that a restore asks for, and how it is called.
pub fn resolve_restore_time_at(
    db: &Database,
    project_id: i64,
    duration: Option<&str>,
    checkpoint: Option<&str>,
    timestamp: Option<i64>,
    now: i64,
) -> (result: Result<(i64, String), Error>)
    requires
        db@.wf(),
    ensures
        is_restore_time(
            db@,
            project_id,
            text::view_opt_str(duration),
            text::view_opt_str(checkpoint),
            timestamp,
            now,
            result,
        ),
{
    let named = if duration.is_some() {
        checkpoint.is_some() || timestamp.is_some()
    } else {
        checkpoint.is_some() && timestamp.is_some()
    };
    if named {
        return Err(
            Error::new(
                "use only one restore target: a duration, --checkpoint, or --timestamp".to_owned(),
            ),
        );
    }
    if let Some(duration) = duration {
        return match duration::parse_duration(duration) {
            Err(e) => Err(e),
            Ok(seconds) => Ok((clock::earlier(now, seconds), text::cat(duration, " ago"))),
        };
    }
    if let Some(name) = checkpoint {
        let found = db.get_checkpoint_by_ref(project_id, name);
        let ghost seen = found;
        assert(text::view_opt_str(checkpoint)->0 == name@);
        assert(is_checkpoint_by_ref(
            db@,
            project_id,
            text::view_opt_str(checkpoint)->0,
            seen,
        ));
        return match found {
            Err(e) => Err(e),
            Ok(None) => Err(Error::new(text::cat3("checkpoint '", name, "' not found"))),
            Ok(Some(c)) => Ok((c.timestamp, text::cat3("checkpoint '", name, "'"))),
        };
    }
    match timestamp {
        Some(at) => Ok((at, text::cat("Unix timestamp ", number::signed_text(at).as_str()))),
        None => Err(
            Error::new("restore requires a duration, --checkpoint, or --timestamp".to_owned()),
        ),
    }
}

/// The time that a restore asks for now, and how it is called.
pub fn resolve_restore_time(
    db: &Database,
    project_id: i64,
    duration: Option<&str>,
    checkpoint: Option<&str>,
    timestamp: Option<i64>,
) -> (result: Result<(i64, String), Error>)
    requires
        db@.wf(),
    ensures
        exists|now: i64|
            #[trigger] is_restore_time(
                db@,
                project_id,
                text::view_opt_str(duration),
                text::view_opt_str(checkpoint),
                timestamp,
                now,
                result,
            ),
{
    let now = clock::unix_now();
    resolve_restore_time_at(db, project_id, duration, checkpoint, timestamp, now)
}

/// What a restore is about.
#[derive(Debug)]
pub enum RestoreRequest {
    /// The last contents of a deleted file.
    Deleted,
    /// The moment after an event, under a name.
    AtEvent(i64, String),
    /// A time, under a name.
    AtTime(i64, String),
}

/// Whether a result is what a restore asks for.
pub open spec fn is_request(
    t: crate::db::Tables,
    project_id: i64,
    path: Option<Seq<char>>,
    duration: Option<Seq<char>>,
    checkpoint: Option<Seq<char>>,
    timestamp: Option<i64>,
    deleted: bool,
    now: i64,
    result: Result<RestoreRequest, Error>,
) -> bool {
    if deleted {
        if path is None {
            result matches Err(e) && e@
                == "No file was selected.\nUse: undo restore-deleted <path>"@
        } else if duration is Some || checkpoint is Some || timestamp is Some {
            result matches Err(e) && e@
                == "restore --deleted cannot be combined with a duration, --checkpoint, or --timestamp"@
        } else {
            result matches Ok(r) && r is Deleted
        }
    } else if path is None {
        result matches Err(e) && e@
            == "No file or folder was selected.\nUse: undo restore <path> <duration>"@
    } else if checkpoint is Some && (duration is Some || timestamp is Some) {
        result matches Err(e) && e@ == one_target_text()
    } else if checkpoint is Some {
        exists|found: Result<Option<Checkpoint>, Error>|
            {
                &&& #[trigger] is_checkpoint_by_ref(t, project_id, checkpoint->0, found)
                &&& match found {
                    Err(e) => result matches Err(x) && x == e,
                    Ok(None) => result matches Err(e) && e@ == "checkpoint '"@ + checkpoint->0
                        + "' not found"@,
                    Ok(Some(c)) => match c.event_id {
                        Some(id) => result matches Ok(RestoreRequest::AtEvent(at, label)) && at
                            == id && label@ == "checkpoint '"@ + c.name@ + "'"@,
                        None => result matches Ok(RestoreRequest::AtTime(at, label)) && at
                            == c.timestamp && label@ == "checkpoint '"@ + checkpoint->0 + "'"@,
                    },
                }
            }
    } else {
        exists|time: Result<(i64, String), Error>|
            {
                &&& #[trigger] is_restore_time(
                    t,
                    project_id,
                    duration,
                    checkpoint,
                    timestamp,
                    now,
                    time,
                )
                &&& match time {
                    Err(e) => result matches Err(x) && x == e,
                    Ok(at) => result matches Ok(RestoreRequest::AtTime(when, label)) && when
                        == at.0 && label@ == at.1@,
                }
            }
    }
}

/// What a restore asks for, at a time.
pub fn cmd_restore(
    db: &Database,
    project_id: i64,
    path: Option<&str>,
    duration: Option<&str>,
    checkpoint: Option<&str>,
    timestamp: Option<i64>,
    deleted: bool,
    now: i64,
) -> (result: Result<RestoreRequest, Error>)
    requires
        db@.wf(),
    ensures
        is_request(
            db@,
            project_id,
            text::view_opt_str(path),
            text::view_opt_str(duration),
            text::view_opt_str(checkpoint),
            timestamp,
            deleted,
            now,
            result,
        ),
{
    if deleted {
        if path.is_none() {
            return Err(
                Error::new(
                    "No file was selected.\nUse: undo restore-deleted <path>".to_owned(),
                ),
            );
        }
        if duration.is_some() || checkpoint.is_some() || timestamp.is_some() {
            return Err(
                Error::new(
                    "restore --deleted cannot be combined with a duration, --checkpoint, or --timestamp".to_owned(),
                ),
            );
        }
        return Ok(RestoreRequest::Deleted);
    }
    if path.is_none() {
        return Err(
            Error::new(
                "No file or folder was selected.\nUse: undo restore <path> <duration>".to_owned(),
            ),
        );
    }
    if let Some(name) = checkpoint {
        if duration.is_some() || timestamp.is_some() {
            return Err(
                Error::new(
                    "use only one restore target: a duration, --checkpoint, or --timestamp".to_owned(),
                ),
            );
        }
        let found = db.get_checkpoint_by_ref(project_id, name);
        let ghost seen = found;
        assert(text::view_opt_str(checkpoint)->0 == name@);
        assert(is_checkpoint_by_ref(
            db@,
            project_id,
            text::view_opt_str(checkpoint)->0,
            seen,
        ));
        return match found {
            Err(e) => Err(e),
            Ok(None) => Err(Error::new(text::cat3("checkpoint '", name, "' not found"))),
            Ok(Some(c)) => match c.event_id {
                Some(id) => Ok(
                    RestoreRequest::AtEvent(id, text::cat3("checkpoint '", c.name.as_str(), "'")),
                ),
                None => Ok(
                    RestoreRequest::AtTime(c.timestamp, text::cat3("checkpoint '", name, "'")),
                ),
            },
        };
    }
    let time = resolve_restore_time_at(db, project_id, duration, checkpoint, timestamp, now);
    assert(is_restore_time(
        db@,
        project_id,
        text::view_opt_str(duration),
        text::view_opt_str(checkpoint),
        timestamp,
        now,
        time,
    ));
    match time {
        Err(e) => Err(e),
        Ok((at, label)) => Ok(RestoreRequest::AtTime(at, label)),
    }
}

/// Whether a result is the plan that brings a deleted file back, where its last
/// contents are known.
pub open spec fn is_deleted_plan(
    events: Seq<FileEvent>,
    project: WatchedProject,
    cwd: Seq<char>,
    path: Seq<char>,
    raw_symlink: bool,
    disk: Seq<Place>,
    result: Result<Option<RestorePlan>, Error>,
) -> bool {
    let root = project.root_path@;
    let place = places::leads_to(disk, cwd, path).0;
    let gone = rows::pick(events, Order::Newest, deletions_at(project.id, place));
    if raw_symlink {
        result matches Err(e) && e@ == symlink_text(path)
    } else if !path::is_at_or_below(place, places::real_root(disk, root)) {
        result matches Err(e) && e@ == places::outside_text(path, root)
    } else if gone is None || gone->0.previous_hash is None {
        result matches Ok(plan) && plan is None
    } else {
        match confined_below(root, place) {
            Err(said) => result matches Err(e) && e@ == said,
            Ok(target) => result matches Ok(Some(plan)) && entries_view(plan.entries@) == seq![
                EntryView {
                    path: target,
                    rel_path: path::relative(place, root),
                    action: ActionView::Write(
                        SourceView {
                            hash: gone->0.previous_hash->0@,
                            timestamp: gone->0.timestamp,
                            kind: RestoreKind::DeletedFallback,
                        },
                    ),
                    expected: None,
                },
            ],
        }
    }
}

/// The plan that brings a deleted file back, where its last contents are known.
pub fn cmd_restore_deleted(
    db: &Database,
    project: &WatchedProject,
    cwd: &str,
    path_str: &str,
    raw_symlink: bool,
    disk: &Vec<Place>,
) -> (result: Result<Option<RestorePlan>, Error>)
    requires
        db@.wf(),
    ensures
        is_deleted_plan(db@.events, *project, cwd@, path_str@, raw_symlink, disk@, result),
{
    reject_raw_symlink(raw_symlink, path_str)?;
    let root = project.root_path.as_str();
    let place = match places::safe_resolve_path(cwd, path_str, root, disk) {
        Err(e) => {
            return Err(e);
        },
        Ok(place) => place,
    };
    let gone = db.get_latest_deleted_event(project.id, place.path.as_str())?;
    proof {
        rows::lemma_pick(db@.events, Order::Newest, deletions_at(project.id, place.path@), gone);
    }
    let event = match gone {
        None => {
            return Ok(None);
        },
        Some(event) => event,
    };
    let hash = match event.previous_hash {
        None => {
            return Ok(None);
        },
        Some(hash) => hash,
    };
    let target = match ProjectPath::from_absolute(root, place.path.as_str()) {
        Err(e) => {
            return Err(e);
        },
        Ok(target) => target,
    };
    let rel_path = path::relative_path(place.path.as_str(), root).to_owned();
    let entry = RestorePlanEntry {
        path: target,
        rel_path,
        action: RestoreAction::Write {
            source: RestoreSource {
                hash,
                timestamp: event.timestamp,
                kind: RestoreKind::DeletedFallback,
            },
        },
        expected_current: None,
    };
    let mut entries: Vec<RestorePlanEntry> = Vec::new();
    let ghost view = entry@;
    add_entry(&mut entries, entry);
    proof {
        assert(entries_view(entries@) =~= seq![view]);
    }
    Ok(Some(RestorePlan { entries }))
}

} // verus!
