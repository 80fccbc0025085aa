//! Whether tables that come from outside are well formed.
use vstd::prelude::*;

use crate::db::{
    both_active, claims_refer, distinct, has_event, has_run, numbered, same_boundary_path,
    same_change, same_checkpoint, same_entry, same_file, same_key, same_root, same_run,
    BoundaryPath, Claim, Database, IntegrationEvent,
};
use crate::models::{
    Checkpoint, FileEvent, FileState, RecoveryEntry, Run, RunBoundary, RunIntent, WatchedProject,
};
use crate::rows::{ids_grow, Row};
use crate::text;

verus! {

/// Whether the ids of a table grow, and none is above the last one given out.
fn is_numbered<T: Row>(rows: &Vec<T>, last: i64) -> (yes: bool)
    ensures
        yes == numbered(rows@, last),
{
    let mut highest: i64 = 0;
    let mut i: usize = 0;
    while i < rows.len()
        invariant
            i <= rows.len(),
            0 <= highest,
            forall|k: int| 0 <= k < i ==> 0 < (#[trigger] rows@[k]).row_id() <= last,
            forall|k: int| 0 <= k < i ==> (#[trigger] rows@[k]).row_id() <= highest,
            forall|k: int, m: int|
                0 <= k < m < i ==> (#[trigger] rows@[k]).row_id() < (#[trigger] rows@[m]).row_id(),
            i == 0 ==> highest == 0,
            i > 0 ==> highest == rows@[i - 1].row_id(),
        decreases rows.len() - i,
    {
        let id = rows[i].keys().1;
        if id <= highest || id > last {
            proof {
                if numbered(rows@, last) {
                    assert(0 < rows@[i as int].row_id() <= last);
                    if i > 0 {
                        assert(rows@[i - 1].row_id() < rows@[i as int].row_id());
                    }
                }
            }
            return false;
        }
        highest = id;
        i += 1;
    }
    assert(ids_grow(rows@));
    true
}

/// Whether no two rows clash.
fn are_distinct<T, F: Fn(&T, &T) -> bool>(
    rows: &Vec<T>,
    test: F,
    Ghost(clash): Ghost<spec_fn(T, T) -> bool>,
) -> (yes: bool)
    requires
        forall|a: T, b: T| #[trigger] test.requires((&a, &b)),
        forall|a: T, b: T, hit: bool| #[trigger]
            test.ensures((&a, &b), hit) ==> hit == clash(a, b),
    ensures
        yes == distinct(rows@, clash),
{
    let mut j: usize = 0;
    while j < rows.len()
        invariant
            j <= rows.len(),
            forall|a: T, b: T| #[trigger] test.requires((&a, &b)),
            forall|a: T, b: T, hit: bool| #[trigger]
                test.ensures((&a, &b), hit) ==> hit == clash(a, b),
            forall|k: int, m: int|
                0 <= k < m < j ==> !clash(#[trigger] rows@[k], #[trigger] rows@[m]),
        decreases rows.len() - j,
    {
        let mut i: usize = 0;
        while i < j
            invariant
                i <= j < rows.len(),
                forall|a: T, b: T| #[trigger] test.requires((&a, &b)),
                forall|a: T, b: T, hit: bool| #[trigger]
                    test.ensures((&a, &b), hit) ==> hit == clash(a, b),
                forall|k: int| 0 <= k < i ==> !clash(#[trigger] rows@[k], rows@[j as int]),
            decreases j - i,
        {
            if test(&rows[i], &rows[j]) {
                assert(clash(rows@[i as int], rows@[j as int]));
                return false;
            }
            i += 1;
        }
        j += 1;
    }
    true
}

/// Whether no two claims are the same.
fn claims_differ(claims: &Vec<Claim>) -> (yes: bool)
    ensures
        yes == claims@.no_duplicates(),
{
    let ghost clash = |a: Claim, b: Claim| a == b;
    let test = |a: &Claim, b: &Claim| -> (hit: bool)
        ensures hit == (*a == *b)
    { a.session_id == b.session_id && a.event_id == b.event_id };
    let yes = are_distinct(claims, test, Ghost(clash));
    proof {
        if yes {
            assert forall|i: int, j: int| 0 <= i < claims@.len() && 0 <= j < claims@.len() && i
                != j implies claims@[i] != claims@[j] by {
                if i < j {
                    assert(!clash(claims@[i], claims@[j]));
                } else {
                    assert(!clash(claims@[j], claims@[i]));
                }
            }
        } else if claims@.no_duplicates() {
            assert forall|i: int, j: int| 0 <= i < j < claims@.len() implies !clash(
                #[trigger] claims@[i],
                #[trigger] claims@[j],
            ) by {}
        }
    }
    yes
}

/// Whether some Run has the id.
fn run_is_there(sessions: &Vec<Run>, id: i64) -> (yes: bool)
    ensures
        yes == has_run(sessions@, id),
{
    let mut i: usize = 0;
    while i < sessions.len()
        invariant
            i <= sessions.len(),
            forall|k: int| 0 <= k < i ==> (#[trigger] sessions@[k]).id != id,
        decreases sessions.len() - i,
    {
        if sessions[i].id == id {
            return true;
        }
        i += 1;
    }
    false
}

/// Whether some event has the id.
fn event_is_there(events: &Vec<FileEvent>, id: i64) -> (yes: bool)
    ensures
        yes == has_event(events@, id),
{
    let mut i: usize = 0;
    while i < events.len()
        invariant
            i <= events.len(),
            forall|k: int| 0 <= k < i ==> (#[trigger] events@[k]).id != id,
        decreases events.len() - i,
    {
        if events[i].id == id {
            return true;
        }
        i += 1;
    }
    false
}

/// Whether every claim is of a Run and an event that are there.
fn claims_are_there(claims: &Vec<Claim>, sessions: &Vec<Run>, events: &Vec<FileEvent>) -> (yes: bool)
    ensures
        yes == claims_refer(claims@, sessions@, events@),
{
    let mut i: usize = 0;
    while i < claims.len()
        invariant
            i <= claims.len(),
            forall|k: int|
                0 <= k < i ==> has_run(sessions@, (#[trigger] claims@[k]).session_id) && has_event(
                    events@,
                    claims@[k].event_id,
                ),
        decreases claims.len() - i,
    {
        if !run_is_there(sessions, claims[i].session_id) || !event_is_there(
            events,
            claims[i].event_id,
        ) {
            assert(!(has_run(sessions@, claims@[i as int].session_id) && has_event(
                events@,
                claims@[i as int].event_id,
            )));
            return false;
        }
        i += 1;
    }
    true
}

impl Database {
    /// Whether the ids of the tables are in order.
    fn ids_are_sound(&self) -> (yes: bool)
        ensures
            yes == (numbered(self@.projects, self@.last.projects) && numbered(
                self@.events,
                self@.last.events,
            ) && numbered(self@.states, self@.last.states) && numbered(
                self@.checkpoints,
                self@.last.checkpoints,
            ) && numbered(self@.sessions, self@.last.sessions) && numbered(
                self@.boundaries,
                self@.last.boundaries,
            ) && numbered(self@.intents, self@.last.intents) && numbered(
                self@.recoveries,
                self@.last.recoveries,
            )),
    {
        is_numbered(&self.projects, self.last.projects) && is_numbered(
            &self.events,
            self.last.events,
        ) && is_numbered(&self.states, self.last.states) && is_numbered(
            &self.checkpoints,
            self.last.checkpoints,
        ) && is_numbered(&self.sessions, self.last.sessions) && is_numbered(
            &self.boundaries,
            self.last.boundaries,
        ) && is_numbered(&self.intents, self.last.intents) && is_numbered(
            &self.recoveries,
            self.last.recoveries,
        )
    }

    /// Whether no two rows share what must be unique, in the tables on projects
    /// and Runs.
    fn runs_are_distinct(&self) -> (yes: bool)
        ensures
            yes == (distinct(self@.projects, |a, b| same_root(a, b)) && distinct(
                self@.checkpoints,
                |a, b| same_checkpoint(a, b),
            ) && distinct(self@.sessions, |a, b| same_run(a, b)) && distinct(
                self@.intents,
                |a, b| both_active(a, b),
            )),
    {
        let roots = |a: &WatchedProject, b: &WatchedProject| -> (hit: bool)
            ensures hit == same_root(*a, *b)
        { text::same(a.root_path.as_str(), b.root_path.as_str()) };
        let marks = |a: &Checkpoint, b: &Checkpoint| -> (hit: bool)
            ensures hit == same_checkpoint(*a, *b)
        {
            text::same(a.name.as_str(), b.name.as_str()) && match (a.run_id, b.run_id) {
                (Some(x), Some(y)) => x == y,
                (None, None) => a.project_id == b.project_id,
                _ => false,
            }
        };
        let runs = |a: &Run, b: &Run| -> (hit: bool)
            ensures hit == same_run(*a, *b)
        {
            a.project_id == b.project_id && (text::same(a.name.as_str(), b.name.as_str()) || (
            a.external_id.is_some() && text::same_opt(&a.external_id, &b.external_id)))
        };
        let tasks = |a: &RunIntent, b: &RunIntent| -> (hit: bool)
            ensures hit == both_active(*a, *b)
        { a.run_id == b.run_id && a.ended_at.is_none() && b.ended_at.is_none() };
        are_distinct(
            &self.projects,
            roots,
            Ghost(|a: WatchedProject, b: WatchedProject| same_root(a, b)),
        ) && are_distinct(
            &self.checkpoints,
            marks,
            Ghost(|a: Checkpoint, b: Checkpoint| same_checkpoint(a, b)),
        ) && are_distinct(&self.sessions, runs, Ghost(|a: Run, b: Run| same_run(a, b)))
            && are_distinct(
            &self.intents,
            tasks,
            Ghost(|a: RunIntent, b: RunIntent| both_active(a, b)),
        )
    }

    /// Whether no two rows share what must be unique, in the tables on files.
    fn files_are_distinct(&self) -> (yes: bool)
        ensures
            yes == (distinct(self@.states, |a, b| same_file(a, b)) && distinct(
                self@.boundaries,
                |a, b| same_change(a, b),
            ) && distinct(self@.boundary_paths, |a, b| same_boundary_path(a, b)) && distinct(
                self@.entries,
                |a, b| same_entry(a, b),
            ) && distinct(self@.integration, |a, b| same_key(a, b))),
    {
        let files = |a: &FileState, b: &FileState| -> (hit: bool)
            ensures hit == same_file(*a, *b)
        { a.project_id == b.project_id && text::same(a.path.as_str(), b.path.as_str()) };
        let changes = |a: &RunBoundary, b: &RunBoundary| -> (hit: bool)
            ensures hit == same_change(*a, *b)
        {
            a.run_id == b.run_id && text::same(
                a.external_change_id.as_str(),
                b.external_change_id.as_str(),
            )
        };
        let paths = |a: &BoundaryPath, b: &BoundaryPath| -> (hit: bool)
            ensures hit == same_boundary_path(*a, *b)
        { a.boundary_id == b.boundary_id && text::same(a.path.as_str(), b.path.as_str()) };
        let entries = |a: &RecoveryEntry, b: &RecoveryEntry| -> (hit: bool)
            ensures hit == same_entry(*a, *b)
        { a.recovery_id == b.recovery_id && text::same(a.path.as_str(), b.path.as_str()) };
        let answers = |a: &IntegrationEvent, b: &IntegrationEvent| -> (hit: bool)
            ensures hit == same_key(*a, *b)
        { text::same(a.idempotency_key.as_str(), b.idempotency_key.as_str()) };
        are_distinct(&self.states, files, Ghost(|a: FileState, b: FileState| same_file(a, b)))
            && are_distinct(
            &self.boundaries,
            changes,
            Ghost(|a: RunBoundary, b: RunBoundary| same_change(a, b)),
        ) && are_distinct(
            &self.boundary_paths,
            paths,
            Ghost(|a: BoundaryPath, b: BoundaryPath| same_boundary_path(a, b)),
        ) && are_distinct(
            &self.entries,
            entries,
            Ghost(|a: RecoveryEntry, b: RecoveryEntry| same_entry(a, b)),
        ) && are_distinct(
            &self.integration,
            answers,
            Ghost(|a: IntegrationEvent, b: IntegrationEvent| same_key(a, b)),
        )
    }

    /// Whether no id below one has been given out, and no path or file belongs to
    /// a change or a plan that is not there.
    fn starts_are_sound(&self) -> (yes: bool)
        ensures
            yes == self@.ids_start(),
    {
        let mut i: usize = 0;
        while i < self.boundary_paths.len()
            invariant
                i <= self.boundary_paths.len(),
                forall|k: int|
                    0 <= k < i ==> (#[trigger] self@.boundary_paths[k]).boundary_id
                        <= self@.last.boundaries,
            decreases self.boundary_paths.len() - i,
        {
            if self.boundary_paths[i].boundary_id > self.last.boundaries {
                assert(self@.boundary_paths[i as int].boundary_id > self@.last.boundaries);
                return false;
            }
            i += 1;
        }
        let mut i: usize = 0;
        while i < self.entries.len()
            invariant
                i <= self.entries.len(),
                forall|k: int|
                    0 <= k < i ==> (#[trigger] self@.entries[k]).recovery_id
                        <= self@.last.recoveries,
            decreases self.entries.len() - i,
        {
            if self.entries[i].recovery_id > self.last.recoveries {
                assert(self@.entries[i as int].recovery_id > self@.last.recoveries);
                return false;
            }
            i += 1;
        }
        self.last.projects >= 0 && self.last.events >= 0 && self.last.states >= 0
            && self.last.checkpoints >= 0 && self.last.sessions >= 0 && self.last.boundaries >= 0
            && self.last.intents >= 0 && self.last.recoveries >= 0
    }

    /// Whether the tables are well formed.
    pub fn is_sound(&self) -> (yes: bool)
        ensures
            yes == self@.wf(),
    {
        self.ids_are_sound() && self.runs_are_distinct() && self.files_are_distinct()
            && claims_differ(&self.claims) && claims_are_there(
            &self.claims,
            &self.sessions,
            &self.events,
        ) && self.starts_are_sound()
    }
}

} // verus!
