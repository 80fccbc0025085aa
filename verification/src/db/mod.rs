//! The recorded history of every watched project, as tables of rows.

pub mod check;
pub mod checkpoints;
pub mod claims;
pub mod events;
pub mod integration;
pub mod intents;
pub mod projects;
pub mod recoveries;
pub mod runs;
pub mod states;

use vstd::prelude::*;

use crate::models::{
    Checkpoint, FileEvent, FileState, Recovery, RecoveryEntry, Run, RunBoundary, RunIntent,
    WatchedProject,
};
use crate::number;
use crate::rows::{ids_grow, Row};
use crate::text;

verus! {

/// A claim that a Run made on an event.
#[derive(Debug, Clone, Copy)]
pub struct Claim {
    pub session_id: i64,
    pub event_id: i64,
}

/// A path that a reported change announced.
#[derive(Debug)]
pub struct BoundaryPath {
    pub boundary_id: i64,
    pub path: String,
}

/// The recorded answer to one event of an integration.
#[derive(Debug)]
pub struct IntegrationEvent {
    pub idempotency_key: String,
    pub run_id: Option<i64>,
    pub event_type: String,
    pub request_hash: String,
    pub response_json: String,
    pub created_at: i64,
}

/// The last id that each table has given out. Ids are never used again.
#[derive(Debug, Clone, Copy)]
pub struct Sequences {
    pub projects: i64,
    pub events: i64,
    pub states: i64,
    pub checkpoints: i64,
    pub sessions: i64,
    pub boundaries: i64,
    pub intents: i64,
    pub recoveries: i64,
}

/// The tables of the history.
#[derive(Debug)]
pub struct Database {
    pub projects: Vec<WatchedProject>,
    pub events: Vec<FileEvent>,
    pub states: Vec<FileState>,
    pub checkpoints: Vec<Checkpoint>,
    pub sessions: Vec<Run>,
    pub claims: Vec<Claim>,
    pub boundaries: Vec<RunBoundary>,
    pub boundary_paths: Vec<BoundaryPath>,
    pub intents: Vec<RunIntent>,
    pub recoveries: Vec<Recovery>,
    pub entries: Vec<RecoveryEntry>,
    pub integration: Vec<IntegrationEvent>,
    pub last: Sequences,
}

/// What the tables hold.
#[verifier::ext_equal]
pub struct Tables {
    pub projects: Seq<WatchedProject>,
    pub events: Seq<FileEvent>,
    pub states: Seq<FileState>,
    pub checkpoints: Seq<Checkpoint>,
    pub sessions: Seq<Run>,
    pub claims: Seq<Claim>,
    pub boundaries: Seq<RunBoundary>,
    pub boundary_paths: Seq<BoundaryPath>,
    pub intents: Seq<RunIntent>,
    pub recoveries: Seq<Recovery>,
    pub entries: Seq<RecoveryEntry>,
    pub integration: Seq<IntegrationEvent>,
    pub last: Sequences,
}

impl View for Database {
    type V = Tables;

    open spec fn view(&self) -> Tables {
        Tables {
            projects: self.projects@,
            events: self.events@,
            states: self.states@,
            checkpoints: self.checkpoints@,
            sessions: self.sessions@,
            claims: self.claims@,
            boundaries: self.boundaries@,
            boundary_paths: self.boundary_paths@,
            intents: self.intents@,
            recoveries: self.recoveries@,
            entries: self.entries@,
            integration: self.integration@,
            last: self.last,
        }
    }
}

impl Row for WatchedProject {
    open spec fn row_id(&self) -> int {
        self.id as int
    }

    open spec fn rank(&self) -> int {
        self.created_at as int
    }

    fn keys(&self) -> (keys: (i64, i64)) {
        (self.created_at, self.id)
    }

    fn duplicate(&self) -> (copy: Self) {
        self.clone()
    }
}

impl Row for FileEvent {
    open spec fn row_id(&self) -> int {
        self.id as int
    }

    open spec fn rank(&self) -> int {
        self.timestamp as int
    }

    fn keys(&self) -> (keys: (i64, i64)) {
        (self.timestamp, self.id)
    }

    fn duplicate(&self) -> (copy: Self) {
        self.clone()
    }
}

impl Row for FileState {
    open spec fn row_id(&self) -> int {
        self.id as int
    }

    open spec fn rank(&self) -> int {
        self.last_seen_at as int
    }

    fn keys(&self) -> (keys: (i64, i64)) {
        (self.last_seen_at, self.id)
    }

    fn duplicate(&self) -> (copy: Self) {
        self.clone()
    }
}

impl Row for Checkpoint {
    open spec fn row_id(&self) -> int {
        self.id as int
    }

    open spec fn rank(&self) -> int {
        self.timestamp as int
    }

    fn keys(&self) -> (keys: (i64, i64)) {
        (self.timestamp, self.id)
    }

    fn duplicate(&self) -> (copy: Self) {
        self.clone()
    }
}

impl Row for Run {
    open spec fn row_id(&self) -> int {
        self.id as int
    }

    open spec fn rank(&self) -> int {
        self.started_at as int
    }

    fn keys(&self) -> (keys: (i64, i64)) {
        (self.started_at, self.id)
    }

    fn duplicate(&self) -> (copy: Self) {
        self.clone()
    }
}

impl Row for RunBoundary {
    open spec fn row_id(&self) -> int {
        self.id as int
    }

    open spec fn rank(&self) -> int {
        self.started_at as int
    }

    fn keys(&self) -> (keys: (i64, i64)) {
        (self.started_at, self.id)
    }

    fn duplicate(&self) -> (copy: Self) {
        self.clone()
    }
}

impl Row for RunIntent {
    open spec fn row_id(&self) -> int {
        self.id as int
    }

    open spec fn rank(&self) -> int {
        self.start_event_id as int
    }

    fn keys(&self) -> (keys: (i64, i64)) {
        (self.start_event_id, self.id)
    }

    fn duplicate(&self) -> (copy: Self) {
        self.clone()
    }
}

impl Row for Recovery {
    open spec fn row_id(&self) -> int {
        self.id as int
    }

    open spec fn rank(&self) -> int {
        self.created_at as int
    }

    fn keys(&self) -> (keys: (i64, i64)) {
        (self.created_at, self.id)
    }

    fn duplicate(&self) -> (copy: Self) {
        self.clone()
    }
}

// ── well-formed tables ──────────────────────────────────────────────

/// Whether the ids of a table grow, and none is above the last one given out.
pub open spec fn numbered<T: Row>(rows: Seq<T>, last: i64) -> bool {
    &&& ids_grow(rows)
    &&& forall|i: int| 0 <= i < rows.len() ==> 0 < (#[trigger] rows[i]).row_id() <= last
}

/// Whether no two rows clash.
pub open spec fn distinct<T>(rows: Seq<T>, clash: spec_fn(T, T) -> bool) -> bool {
    forall|i: int, j: int|
        0 <= i < j < rows.len() ==> !clash(#[trigger] rows[i], #[trigger] rows[j])
}

/// Two rows of one folder.
pub open spec fn same_root(a: WatchedProject, b: WatchedProject) -> bool {
    a.root_path@ == b.root_path@
}

/// Two states of one file.
pub open spec fn same_file(a: FileState, b: FileState) -> bool {
    a.project_id == b.project_id && a.path@ == b.path@
}

/// Two checkpoints of one name: in one Run, or outside Runs in one project.
pub open spec fn same_checkpoint(a: Checkpoint, b: Checkpoint) -> bool {
    &&& a.name@ == b.name@
    &&& match (a.run_id, b.run_id) {
        (Some(x), Some(y)) => x == y,
        (None, None) => a.project_id == b.project_id,
        _ => false,
    }
}

/// Two Runs of one project with one name, or with one external id.
pub open spec fn same_run(a: Run, b: Run) -> bool {
    &&& a.project_id == b.project_id
    &&& a.name@ == b.name@ || (a.external_id is Some && text::view_opt(a.external_id)
        == text::view_opt(b.external_id))
}

/// Two changes of one Run with one external id.
pub open spec fn same_change(a: RunBoundary, b: RunBoundary) -> bool {
    a.run_id == b.run_id && a.external_change_id@ == b.external_change_id@
}

/// One path announced twice for a change.
pub open spec fn same_boundary_path(a: BoundaryPath, b: BoundaryPath) -> bool {
    a.boundary_id == b.boundary_id && a.path@ == b.path@
}

/// Two tasks of one Run that have not ended.
pub open spec fn both_active(a: RunIntent, b: RunIntent) -> bool {
    a.run_id == b.run_id && a.ended_at is None && b.ended_at is None
}

/// One file twice in a recovery plan.
pub open spec fn same_entry(a: RecoveryEntry, b: RecoveryEntry) -> bool {
    a.recovery_id == b.recovery_id && a.path@ == b.path@
}

/// Two answers for one key.
pub open spec fn same_key(a: IntegrationEvent, b: IntegrationEvent) -> bool {
    a.idempotency_key@ == b.idempotency_key@
}

/// Whether some event has the id.
pub open spec fn has_event(events: Seq<FileEvent>, id: i64) -> bool {
    exists|i: int| 0 <= i < events.len() && (#[trigger] events[i]).id == id
}

/// Whether some Run has the id.
pub open spec fn has_run(sessions: Seq<Run>, id: i64) -> bool {
    exists|i: int| 0 <= i < sessions.len() && (#[trigger] sessions[i]).id == id
}

/// Whether some project has the id.
pub open spec fn has_project(projects: Seq<WatchedProject>, id: i64) -> bool {
    exists|i: int| 0 <= i < projects.len() && (#[trigger] projects[i]).id == id
}

/// Whether every claim is of a Run and an event that are there.
pub open spec fn claims_refer(claims: Seq<Claim>, sessions: Seq<Run>, events: Seq<FileEvent>) -> bool {
    forall|i: int|
        0 <= i < claims.len() ==> has_run(sessions, (#[trigger] claims[i]).session_id)
            && has_event(events, claims[i].event_id)
}

impl Tables {
    /// What holds of the tables at all times: ids grow and are never used
    /// again, no two rows share what must be unique, and a claim names a Run
    /// and an event that exist.
    pub open spec fn wf(self) -> bool {
        &&& numbered(self.projects, self.last.projects)
        &&& numbered(self.events, self.last.events)
        &&& numbered(self.states, self.last.states)
        &&& numbered(self.checkpoints, self.last.checkpoints)
        &&& numbered(self.sessions, self.last.sessions)
        &&& numbered(self.boundaries, self.last.boundaries)
        &&& numbered(self.intents, self.last.intents)
        &&& numbered(self.recoveries, self.last.recoveries)
        &&& distinct(self.projects, |a, b| same_root(a, b))
        &&& distinct(self.states, |a, b| same_file(a, b))
        &&& distinct(self.checkpoints, |a, b| same_checkpoint(a, b))
        &&& distinct(self.sessions, |a, b| same_run(a, b))
        &&& distinct(self.boundaries, |a, b| same_change(a, b))
        &&& distinct(self.boundary_paths, |a, b| same_boundary_path(a, b))
        &&& distinct(self.intents, |a, b| both_active(a, b))
        &&& distinct(self.entries, |a, b| same_entry(a, b))
        &&& distinct(self.integration, |a, b| same_key(a, b))
        &&& self.claims.no_duplicates()
        &&& claims_refer(self.claims, self.sessions, self.events)
        &&& self.ids_start()
    }

    /// No id below one has been given out, and no path or file belongs to a
    /// change or a plan that is not there.
    pub open spec fn ids_start(self) -> bool {
        &&& self.last.projects >= 0
        &&& self.last.events >= 0
        &&& self.last.states >= 0
        &&& self.last.checkpoints >= 0
        &&& self.last.sessions >= 0
        &&& self.last.boundaries >= 0
        &&& self.last.intents >= 0
        &&& self.last.recoveries >= 0
        &&& forall|i: int|
            0 <= i < self.boundary_paths.len() ==> (#[trigger] self.boundary_paths[i]).boundary_id
                <= self.last.boundaries
        &&& forall|i: int|
            0 <= i < self.entries.len() ==> (#[trigger] self.entries[i]).recovery_id
                <= self.last.recoveries
    }
}

/// A row with a new highest id keeps a table numbered.
pub proof fn lemma_numbered_push<T: Row>(rows: Seq<T>, last: i64, row: T, next: i64)
    requires
        numbered(rows, last),
        0 <= last < next,
        row.row_id() == next,
    ensures
        numbered(rows.push(row), next),
{
    assert forall|i: int, j: int| 0 <= i < j < rows.push(row).len() implies (
    #[trigger] rows.push(row)[i]).row_id() < (#[trigger] rows.push(row)[j]).row_id() by {
        assert(rows.push(row)[i] == rows[i]);
        if j < rows.len() {
            assert(rows.push(row)[j] == rows[j]);
        }
    }
}

/// A row that clashes with none may be added.
pub proof fn lemma_distinct_push<T>(rows: Seq<T>, clash: spec_fn(T, T) -> bool, row: T)
    requires
        distinct(rows, clash),
        forall|i: int| 0 <= i < rows.len() ==> !clash(#[trigger] rows[i], row),
    ensures
        distinct(rows.push(row), clash),
{
    assert forall|i: int, j: int| 0 <= i < j < rows.push(row).len() implies !clash(
        #[trigger] rows.push(row)[i],
        #[trigger] rows.push(row)[j],
    ) by {
        assert(rows.push(row)[i] == rows[i]);
        if j < rows.len() {
            assert(rows.push(row)[j] == rows[j]);
        }
    }
}

/// A row may be replaced by one with the same id.
pub proof fn lemma_numbered_update<T: Row>(rows: Seq<T>, last: i64, at: int, row: T)
    requires
        numbered(rows, last),
        0 <= at < rows.len(),
        row.row_id() == rows[at].row_id(),
    ensures
        numbered(rows.update(at, row), last),
{
    let now = rows.update(at, row);
    assert forall|i: int, j: int| 0 <= i < j < now.len() implies (#[trigger] now[i]).row_id() < (
    #[trigger] now[j]).row_id() by {
        assert(rows[i].row_id() < rows[j].row_id());
    }
    assert forall|i: int| 0 <= i < now.len() implies 0 < (#[trigger] now[i]).row_id() <= last by {
        assert(0 < rows[i].row_id());
    }
}

/// The error for a row of a project, Run or event that is not there.
pub open spec fn foreign_key_text() -> Seq<char> {
    "FOREIGN KEY constraint failed"@
}

/// The error for a table that has no id left.
pub open spec fn full_text() -> Seq<char> {
    "database or disk is full"@
}

/// Two projects have different ids.
pub proof fn lemma_project_ids_differ(t: Tables, a: int, b: int)
    requires
        t.wf(),
        0 <= a < b < t.projects.len(),
    ensures
        t.projects[a].id != t.projects[b].id,
{
    assert(t.projects[a].row_id() < t.projects[b].row_id());
}

impl Database {
    /// A history with nothing in it.
    pub fn open_in_memory() -> (result: Result<Database, crate::error::Error>)
        ensures
            result matches Ok(db) && db@.wf() && db@ == empty_tables(),
    {
        Ok(
            Database {
                projects: Vec::new(),
                events: Vec::new(),
                states: Vec::new(),
                checkpoints: Vec::new(),
                sessions: Vec::new(),
                claims: Vec::new(),
                boundaries: Vec::new(),
                boundary_paths: Vec::new(),
                intents: Vec::new(),
                recoveries: Vec::new(),
                entries: Vec::new(),
                integration: Vec::new(),
                last: Sequences {
                    projects: 0,
                    events: 0,
                    states: 0,
                    checkpoints: 0,
                    sessions: 0,
                    boundaries: 0,
                    intents: 0,
                    recoveries: 0,
                },
            },
        )
    }
}

/// Tables with nothing in them.
pub open spec fn empty_tables() -> Tables {
    Tables {
        projects: Seq::empty(),
        events: Seq::empty(),
        states: Seq::empty(),
        checkpoints: Seq::empty(),
        sessions: Seq::empty(),
        claims: Seq::empty(),
        boundaries: Seq::empty(),
        boundary_paths: Seq::empty(),
        intents: Seq::empty(),
        recoveries: Seq::empty(),
        entries: Seq::empty(),
        integration: Seq::empty(),
        last: Sequences {
            projects: 0,
            events: 0,
            states: 0,
            checkpoints: 0,
            sessions: 0,
            boundaries: 0,
            intents: 0,
            recoveries: 0,
        },
    }
}

/// The id that a public id names: `prefix`, then a decimal number that fits.
pub open spec fn public_id_of(value: Seq<char>, prefix: Seq<char>) -> Option<int> {
    match text::stripped(value, prefix) {
        Some(rest) => match number::parsed(rest) {
            Some(n) => if i64::MIN <= n <= i64::MAX {
                Some(n)
            } else {
                None
            },
            None => None,
        },
        None => None,
    }
}

/// The id that a public id names.
pub fn parse_public_id(value: &str, prefix: &str) -> (id: Option<i64>)
    ensures
        match id {
            Some(n) => public_id_of(value@, prefix@) == Some(n as int),
            None => public_id_of(value@, prefix@) is None,
        },
{
    match text::strip(value, prefix) {
        Some(rest) => number::parse_signed(rest),
        None => None,
    }
}

/// A public id names the id that it was made of.
pub proof fn lemma_public_id_names_its_id(prefix: Seq<char>, id: i64)
    ensures
        public_id_of(prefix + number::decimal(id as int), prefix) == Some(id as int),
{
    let whole = prefix + number::decimal(id as int);
    assert(whole.subrange(0, prefix.len() as int) =~= prefix);
    assert(whole.skip(prefix.len() as int) =~= number::decimal(id as int));
    number::lemma_parsed_decimal(id as int);
}

} // verus!
