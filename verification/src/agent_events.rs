//! Events that an agent reports of its own work.
use vstd::prelude::*;
use vstd::string::*;
use vstd::utf8::encode_utf8;

use crate::agent_hooks::agent_label;
use crate::cli::{label_of, Agent};
use crate::clock;
use crate::db::checkpoints::checkpoint_saved;
use crate::db::claims::{boundary_closed, boundary_opened, of_session};
use crate::db::integration::{answer_recorded, is_replay};
use crate::db::intents::{task_completed, task_started};
use crate::db::runs::{is_active_session, is_external, run_by_ref, run_completed};
use crate::db::{Database, Tables};
use crate::error::Error;
use crate::hex;
use crate::models::{Checkpoint, Run, RunBoundary, RunIntent};
use crate::number;
use crate::path;
use crate::places;
use crate::places::Place;
use crate::rows;
use crate::runs;
use crate::runs::{run_begun, run_stopped, StartRunOptions};
use crate::sorted;
use crate::text;

verus! {

pub const AGENT_EVENT_VERSION: u32 = 1;

pub const REPORTED_AGENT_EVENT_VERSION: u32 = 2;

pub const MAX_REPORTED_PATHS: usize = 256;

/// An event that an agent reports.
#[derive(Debug)]
pub struct AgentEvent {
    pub version: u32,
    pub event: String,
    pub idempotency_key: String,
    pub run_id: Option<String>,
    pub name: Option<String>,
    pub actor: Option<String>,
    pub agent: Option<String>,
    pub command: Option<String>,
    pub intent: Option<String>,
    pub status: Option<String>,
    pub external_run_id: Option<String>,
    pub external_change_id: Option<String>,
    pub paths: Option<Vec<String>>,
}

// ── validation ──────────────────────────────────────────────────────

/// Whether an event tells of a change to files.
pub open spec fn is_change_event(event: Seq<char>) -> bool {
    event == "change_started"@ || event == "change_completed"@
}

/// Whether a version of the protocol knows an event.
pub open spec fn is_supported(version: u32, event: Seq<char>) -> bool {
    ||| event == "run_started"@
    ||| event == "checkpoint"@
    ||| event == "intent_started"@
    ||| event == "intent_completed"@
    ||| event == "run_completed"@
    ||| version == REPORTED_AGENT_EVENT_VERSION && is_change_event(event)
}

/// How many bytes a text takes.
pub open spec fn bytes(s: Seq<char>) -> int {
    encode_utf8(s).len() as int
}

/// Whether a field is longer than it may be.
pub open spec fn is_over(value: Option<String>, limit: int) -> bool {
    value matches Some(s) && bytes(s@) > limit
}

/// The first field that is longer than it may be, and how long it may be.
pub open spec fn overlong(e: AgentEvent) -> Option<(Seq<char>, int)> {
    if is_over(e.name, 200) {
        Some(("name"@, 200))
    } else if is_over(e.actor, 32) {
        Some(("actor"@, 32))
    } else if is_over(e.agent, 200) {
        Some(("agent"@, 200))
    } else if is_over(e.command, 4096) {
        Some(("command"@, 4096))
    } else if is_over(e.intent, 4096) {
        Some(("intent"@, 4096))
    } else if is_over(e.status, 32) {
        Some(("status"@, 32))
    } else if is_over(e.external_run_id, 200) {
        Some(("external_run_id"@, 200))
    } else if is_over(e.external_change_id, 200) {
        Some(("external_change_id"@, 200))
    } else if is_over(e.run_id, 200) {
        Some(("run_id"@, 200))
    } else {
        None
    }
}

/// What is said of a field that is longer than it may be.
pub open spec fn overlong_text(field: (Seq<char>, int)) -> Seq<char> {
    field.0 + " exceeds "@ + number::decimal(field.1) + " UTF-8 bytes"@
}

/// Whether a field is there and says something.
pub open spec fn is_filled(value: Option<String>) -> bool {
    value matches Some(s) && text::trimmed(s@).len() > 0
}

/// What is said of a wrong number of paths.
pub open spec fn path_count_text() -> Seq<char> {
    "paths must contain 1–"@ + number::decimal(MAX_REPORTED_PATHS as int)
        + " exact project files"@
}

/// Whether a list of paths has too few or too many.
pub open spec fn wrong_count(n: int) -> bool {
    n == 0 || n > MAX_REPORTED_PATHS
}

/// What is wrong with an event, if anything is.
pub open spec fn problem(e: AgentEvent) -> Option<Seq<char>> {
    let kind = e.event@;
    if e.version != AGENT_EVENT_VERSION && e.version != REPORTED_AGENT_EVENT_VERSION {
        Some(
            "unsupported event version "@ + number::decimal(e.version as int)
                + "; supported versions are 1 and 2"@,
        )
    } else if !is_supported(e.version, kind) {
        Some("unsupported v"@ + number::decimal(e.version as int) + " event '"@ + kind + "'"@)
    } else if text::trimmed(e.idempotency_key@).len() == 0 || bytes(e.idempotency_key@) > 200 {
        Some("idempotency_key must contain 1–200 UTF-8 bytes"@)
    } else if overlong(e) is Some {
        Some(overlong_text(overlong(e)->0))
    } else if kind == "run_completed"@ && e.status is Some && !runs::is_outcome(e.status->0@) {
        Some("Run status must be completed, failed, or aborted"@)
    } else if e.version == AGENT_EVENT_VERSION {
        if kind != "run_started"@ && e.external_run_id is Some {
            Some("external_run_id is only valid for v1 run_started"@)
        } else if e.external_change_id is Some || e.paths is Some {
            Some("external_change_id and paths require protocol version 2"@)
        } else {
            None
        }
    } else if !is_filled(e.external_run_id) {
        Some("v2 events require a non-empty external_run_id"@)
    } else if e.run_id is Some {
        Some("v2 resolves Runs by external_run_id; omit run_id"@)
    } else if is_change_event(kind) {
        if !is_filled(e.external_change_id) {
            Some("v2 change events require a non-empty external_change_id"@)
        } else if e.paths is None {
            Some("v2 change events require non-empty exact paths"@)
        } else if wrong_count(e.paths->0@.len() as int) {
            Some(path_count_text())
        } else if exists|i: int| 0 <= i < e.paths->0@.len() && bytes(#[trigger] e.paths->0@[i]@) > 4096 {
            Some("each reported path must be at most 4096 UTF-8 bytes"@)
        } else {
            None
        }
    } else if e.external_change_id is Some || e.paths is Some {
        Some("external_change_id and paths are only valid for v2 change events"@)
    } else {
        None
    }
}

/// Whether a field is longer than it may be.
fn over(value: &Option<String>, limit: usize) -> (yes: bool)
    ensures
        yes == is_over(*value, limit as int),
{
    match value {
        Some(s) => text::byte_len(s.as_str()) > limit,
        None => false,
    }
}

/// Whether one of some texts is longer than it may be.
fn any_over(list: &Vec<String>, limit: usize) -> (yes: bool)
    ensures
        yes == exists|i: int| 0 <= i < list@.len() && bytes(#[trigger] list@[i]@) > limit,
{
    let mut i: usize = 0;
    while i < list.len()
        invariant
            i <= list.len(),
            forall|k: int| 0 <= k < i ==> bytes(#[trigger] list@[k]@) <= limit,
        decreases list.len() - i,
    {
        if text::byte_len(list[i].as_str()) > limit {
            assert(bytes(list@[i as int]@) > limit);
            return true;
        }
        i += 1;
    }
    false
}

/// Whether a field is there and says something.
fn filled(value: &Option<String>) -> (yes: bool)
    ensures
        yes == is_filled(*value),
{
    match value {
        Some(s) => !text::blank(s.as_str()),
        None => false,
    }
}

/// The first field that is longer than it may be, and how long it may be.
fn find_overlong(e: &AgentEvent) -> (found: Option<(&'static str, u64)>)
    ensures
        match found {
            Some(f) => overlong(*e) == Some((f.0@, f.1 as int)),
            None => overlong(*e) is None,
        },
{
    if over(&e.name, 200) {
        Some(("name", 200))
    } else if over(&e.actor, 32) {
        Some(("actor", 32))
    } else if over(&e.agent, 200) {
        Some(("agent", 200))
    } else if over(&e.command, 4096) {
        Some(("command", 4096))
    } else if over(&e.intent, 4096) {
        Some(("intent", 4096))
    } else if over(&e.status, 32) {
        Some(("status", 32))
    } else if over(&e.external_run_id, 200) {
        Some(("external_run_id", 200))
    } else if over(&e.external_change_id, 200) {
        Some(("external_change_id", 200))
    } else if over(&e.run_id, 200) {
        Some(("run_id", 200))
    } else {
        None
    }
}

/// An error for a wrong number of paths.
fn path_count_error() -> (e: Error)
    ensures
        e@ == path_count_text(),
{
    Error::new(
        text::cat3(
            "paths must contain 1–",
            number::count_text(MAX_REPORTED_PATHS).as_str(),
            " exact project files",
        ),
    )
}

/// An error with a given text.
fn refused(said: &str) -> (result: Result<(), Error>)
    ensures
        result matches Err(e) && e@ == said@,
{
    Err(Error::new(said.to_owned()))
}

/// Tells whether an event can be processed.
pub fn validate_event(event: &AgentEvent) -> (result: Result<(), Error>)
    ensures
        match problem(*event) {
            None => result is Ok,
            Some(said) => result matches Err(e) && e@ == said,
        },
{
    let kind = event.event.as_str();
    if event.version != AGENT_EVENT_VERSION && event.version != REPORTED_AGENT_EVENT_VERSION {
        let said = text::cat3(
            "unsupported event version ",
            number::unsigned_text(event.version as u64).as_str(),
            "; supported versions are 1 and 2",
        );
        return refused(said.as_str());
    }
    let is_change = text::same(kind, "change_started") || text::same(kind, "change_completed");
    let supported = text::same(kind, "run_started") || text::same(kind, "checkpoint") || text::same(
        kind,
        "intent_started",
    ) || text::same(kind, "intent_completed") || text::same(kind, "run_completed") || (
    event.version == REPORTED_AGENT_EVENT_VERSION && is_change);
    if !supported {
        let said = text::cat5(
            "unsupported v",
            number::unsigned_text(event.version as u64).as_str(),
            " event '",
            kind,
            "'",
        );
        return refused(said.as_str());
    }
    if text::blank(event.idempotency_key.as_str()) || text::byte_len(event.idempotency_key.as_str()) > 200 {
        return refused("idempotency_key must contain 1–200 UTF-8 bytes");
    }
    if let Some((name, limit)) = find_overlong(event) {
        let mut said = text::cat3(name, " exceeds ", number::unsigned_text(limit).as_str());
        said.append(" UTF-8 bytes");
        return refused(said.as_str());
    }
    if text::same(kind, "run_completed") {
        if let Some(status) = &event.status {
            runs::validate_completion_status(status.as_str())?;
        }
    }
    if event.version == AGENT_EVENT_VERSION {
        if !text::same(kind, "run_started") && event.external_run_id.is_some() {
            return refused("external_run_id is only valid for v1 run_started");
        }
        if event.external_change_id.is_some() || event.paths.is_some() {
            return refused("external_change_id and paths require protocol version 2");
        }
        return Ok(());
    }
    if !filled(&event.external_run_id) {
        return refused("v2 events require a non-empty external_run_id");
    }
    if event.run_id.is_some() {
        return refused("v2 resolves Runs by external_run_id; omit run_id");
    }
    if is_change {
        if !filled(&event.external_change_id) {
            return refused("v2 change events require a non-empty external_change_id");
        }
        match &event.paths {
            None => {
                return refused("v2 change events require non-empty exact paths");
            },
            Some(paths) => {
                if paths.len() == 0 || paths.len() > MAX_REPORTED_PATHS {
                    return Err(path_count_error());
                }
                if any_over(paths, 4096) {
                    return refused("each reported path must be at most 4096 UTF-8 bytes");
                }
            },
        }
    } else if event.external_change_id.is_some() || event.paths.is_some() {
        return refused("external_change_id and paths are only valid for v2 change events");
    }
    Ok(())
}

/// The task that an event starts.
pub fn required_intent<'a>(event: &'a AgentEvent) -> (result: Result<&'a str, Error>)
    ensures
        match result {
            Ok(label) => is_filled(event.intent) && label@ == text::trimmed(event.intent->0@),
            Err(e) => !is_filled(event.intent) && e@
                == "intent_started requires a non-empty 'intent'"@,
        },
{
    match &event.intent {
        Some(s) => {
            let label = text::trim(s.as_str());
            if label.unicode_len() > 0 {
                return Ok(label);
            }
        },
        None => {},
    }
    Err(Error::new("intent_started requires a non-empty 'intent'".to_owned()))
}

/// The name of the checkpoint that an event saves.
pub fn required_checkpoint_name<'a>(event: &'a AgentEvent) -> (result: Result<&'a str, Error>)
    ensures
        match result {
            Ok(name) => is_filled(event.name) && name@ == text::trimmed(event.name->0@),
            Err(e) => !is_filled(event.name) && e@
                == "checkpoint event requires a non-empty 'name'"@,
        },
{
    match &event.name {
        Some(s) => {
            let name = text::trim(s.as_str());
            if name.unicode_len() > 0 {
                return Ok(name);
            }
        },
        None => {},
    }
    Err(Error::new("checkpoint event requires a non-empty 'name'".to_owned()))
}

// ── the Run of an event ─────────────────────────────────────────────

/// The reported Run with an external id, else what is wrong.
pub open spec fn reported_run(sessions: Seq<Run>, project_id: i64, external_id: Seq<char>) -> Result<
    Run,
    Seq<char>,
> {
    match rows::lookup(sessions, is_external(project_id, external_id)) {
        None => Err(
            "reported Run '"@ + external_id + "' not found; send v2 run_started first"@,
        ),
        Some(run) => if run.attribution_mode@ != "reported"@ {
            Err(
                "Run "@ + ("r_"@ + number::decimal(run.id as int))
                    + " does not use reported attribution"@,
            )
        } else {
            Ok(run)
        },
    }
}

/// A Run that is still active, else what is wrong.
pub open spec fn open_run(run: Result<Run, Seq<char>>) -> Result<Run, Seq<char>> {
    match run {
        Ok(r) => if r.ended_at is Some {
            Err("Run "@ + ("r_"@ + number::decimal(r.id as int)) + " is already complete"@)
        } else {
            Ok(r)
        },
        Err(e) => Err(e),
    }
}

/// Whether a result says what another does.
pub open spec fn says<T>(result: Result<T, Error>, expected: Result<T, Seq<char>>) -> bool {
    match expected {
        Ok(x) => result matches Ok(y) && y == x,
        Err(said) => result matches Err(e) && e@ == said,
    }
}

/// Whether a result is the active Run that a reference, or nothing, means.
pub open spec fn is_required_active(
    sessions: Seq<Run>,
    project_id: i64,
    reference: Option<Seq<char>>,
    result: Result<Run, Error>,
) -> bool {
    match reference {
        Some(name) => says(
            result,
            open_run(
                match run_by_ref(sessions, project_id, name) {
                    Some(run) => Ok(run),
                    None => Err("Run '"@ + name + "' not found"@),
                },
            ),
        ),
        None => exists|active: Result<Option<Run>, Error>|
            {
                &&& #[trigger] is_active_session(sessions, project_id, active)
                &&& match active {
                    Err(e) => result matches Err(x) && x == e,
                    Ok(None) => result matches Err(e) && e@
                        == "no active Run; send run_started first"@,
                    Ok(Some(run)) => says(result, open_run(Ok(run))),
                }
            },
    }
}

/// Whether a result is the Run that an event belongs to.
pub open spec fn is_required_run(
    sessions: Seq<Run>,
    project_id: i64,
    event: AgentEvent,
    result: Result<Run, Error>,
) -> bool {
    if event.version == REPORTED_AGENT_EVENT_VERSION {
        says(result, open_run(reported_run(sessions, project_id, event.external_run_id->0@)))
    } else {
        is_required_active(sessions, project_id, text::view_opt(event.run_id), result)
    }
}

/// The reported Run that an event names, active or not.
fn find_reported_run(db: &Database, project_id: i64, external_id: &str) -> (result: Result<Run, Error>)
    ensures
        says(result, reported_run(db@.sessions, project_id, external_id@)),
{
    match db.get_run_by_external_id(project_id, external_id)? {
        None => Err(
            Error::new(
                text::cat3(
                    "reported Run '",
                    external_id,
                    "' not found; send v2 run_started first",
                ),
            ),
        ),
        Some(run) => if !run.is_reported() {
            Err(
                Error::new(
                    text::cat3(
                        "Run ",
                        run.public_id().as_str(),
                        " does not use reported attribution",
                    ),
                ),
            )
        } else {
            Ok(run)
        },
    }
}

/// A Run that is still active.
fn still_open(run: Run) -> (result: Result<Run, Error>)
    ensures
        says(result, open_run(Ok(run))),
{
    if !run.is_active() {
        Err(
            Error::new(
                text::cat3("Run ", run.public_id().as_str(), " is already complete"),
            ),
        )
    } else {
        Ok(run)
    }
}

/// The active reported Run that an event names.
pub fn required_reported_run(db: &Database, project_id: i64, event: &AgentEvent) -> (result: Result<
    Run,
    Error,
>)
    requires
        event.external_run_id is Some,
    ensures
        says(
            result,
            open_run(reported_run(db@.sessions, project_id, event.external_run_id->0@)),
        ),
{
    let external_id = match &event.external_run_id {
        Some(id) => id.as_str(),
        None => "",
    };
    match find_reported_run(db, project_id, external_id) {
        Ok(run) => still_open(run),
        Err(e) => Err(e),
    }
}

/// The active Run that a reference, or nothing, means.
pub fn required_active_run(db: &Database, project_id: i64, reference: Option<&str>) -> (result: Result<
    Run,
    Error,
>)
    requires
        db@.wf(),
    ensures
        is_required_active(db@.sessions, project_id, text::view_opt_str(reference), result),
{
    match reference {
        Some(reference) => match db.get_run_by_ref(project_id, reference)? {
            Some(run) => still_open(run),
            None => Err(Error::new(text::cat3("Run '", reference, "' not found"))),
        },
        None => {
            let active = db.get_active_session(project_id);
            assert(is_active_session(db@.sessions, project_id, active));
            match active {
                Err(e) => Err(e),
                Ok(None) => Err(Error::new("no active Run; send run_started first".to_owned())),
                Ok(Some(run)) => still_open(run),
            }
        },
    }
}

/// The Run that an event belongs to.
fn run_of_event(db: &Database, project_id: i64, event: &AgentEvent) -> (result: Result<Run, Error>)
    requires
        db@.wf(),
        problem(*event) is None,
    ensures
        is_required_run(db@.sessions, project_id, *event, result),
{
    if event.version == REPORTED_AGENT_EVENT_VERSION {
        required_reported_run(db, project_id, event)
    } else {
        let reference = match &event.run_id {
            Some(id) => Some(id.as_str()),
            None => None,
        };
        required_active_run(db, project_id, reference)
    }
}

// ── reported paths ──────────────────────────────────────────────────

/// The characters of a pattern that stands for many paths.
pub open spec fn is_glob_char(c: char) -> bool {
    c == '*' || c == '?' || c == '[' || c == ']' || c == '{' || c == '}'
}

/// Whether a path is a pattern.
pub open spec fn is_glob(s: Seq<char>) -> bool {
    exists|i: int| 0 <= i < s.len() && is_glob_char(#[trigger] s[i])
}

/// Where the reported paths lead, each to one file of the project. Else what is
/// wrong with the first that does not.
pub open spec fn reported_paths(
    disk: Seq<Place>,
    root: Seq<char>,
    project_root: Seq<char>,
    inputs: Seq<Seq<char>>,
) -> Result<Seq<Seq<char>>, Seq<char>>
    decreases inputs.len(),
{
    if inputs.len() == 0 {
        Ok(Seq::empty())
    } else {
        match reported_paths(disk, root, project_root, inputs.drop_last()) {
            Err(e) => Err(e),
            Ok(list) => {
                let input = text::trimmed(inputs.last());
                let place = places::leads_to(disk, root, input);
                if input.len() == 0 {
                    Err("reported paths cannot be empty"@)
                } else if is_glob(input) {
                    Err("reported path '"@ + input + "' must be exact; globs are not allowed"@)
                } else if !path::is_at_or_below(place.0, places::real_root(disk, project_root)) {
                    Err(places::outside_text(input, project_root))
                } else if place.1 {
                    Err(
                        "reported path '"@ + input
                            + "' is a directory; exact file paths are required"@,
                    )
                } else if list.contains(place.0) {
                    Err("reported paths contain duplicate '"@ + input + "'"@)
                } else {
                    Ok(list.push(place.0))
                }
            },
        }
    }
}

/// Whether a result is the reported paths in their order, or what is wrong.
pub open spec fn are_normalized(
    disk: Seq<Place>,
    root: Seq<char>,
    project_root: Seq<char>,
    inputs: Seq<Seq<char>>,
    result: Result<Vec<String>, Error>,
) -> bool {
    if wrong_count(inputs.len() as int) {
        result matches Err(e) && e@ == path_count_text()
    } else {
        match reported_paths(disk, root, project_root, inputs) {
            Err(said) => result matches Err(e) && e@ == said,
            Ok(list) => result matches Ok(paths) && sorted::is_sorted_set(
                list,
                text::views(paths@),
            ),
        }
    }
}

/// Once a path is wrong, more paths do not mend it.
proof fn lemma_reported_error(
    disk: Seq<Place>,
    root: Seq<char>,
    project_root: Seq<char>,
    inputs: Seq<Seq<char>>,
    n: int,
)
    requires
        0 <= n <= inputs.len(),
        reported_paths(disk, root, project_root, inputs.take(n)) is Err,
    ensures
        reported_paths(disk, root, project_root, inputs) == reported_paths(
            disk,
            root,
            project_root,
            inputs.take(n),
        ),
    decreases inputs.len() - n,
{
    if n < inputs.len() {
        assert(inputs.take(n + 1).drop_last() =~= inputs.take(n));
        lemma_reported_error(disk, root, project_root, inputs, n + 1);
    } else {
        assert(inputs.take(n) =~= inputs);
    }
}

/// Whether a path is a pattern.
pub fn glob(s: &str) -> (yes: bool)
    ensures
        yes == is_glob(s@),
{
    let chars = text::chars_of(s);
    let mut i: usize = 0;
    while i < chars.len()
        invariant
            i <= chars.len(),
            chars@ == s@,
            forall|k: int| 0 <= k < i ==> !is_glob_char(#[trigger] s@[k]),
        decreases chars.len() - i,
    {
        let c = chars[i];
        if c == '*' || c == '?' || c == '[' || c == ']' || c == '{' || c == '}' {
            assert(is_glob_char(s@[i as int]));
            return true;
        }
        i += 1;
    }
    false
}

/// One reported path: where it leads, or what is wrong with it.
fn normalize_reported_path(disk: &Vec<Place>, root: &str, project_root: &str, input: &str) -> (result:
    Result<String, Error>)
    ensures
        ({
            let place = places::leads_to(disk@, root@, input@);
            if input@.len() == 0 {
                result matches Err(e) && e@ == "reported paths cannot be empty"@
            } else if is_glob(input@) {
                result matches Err(e) && e@ == "reported path '"@ + input@
                    + "' must be exact; globs are not allowed"@
            } else if !path::is_at_or_below(place.0, places::real_root(disk@, project_root@)) {
                result matches Err(e) && e@ == places::outside_text(input@, project_root@)
            } else if place.1 {
                result matches Err(e) && e@ == "reported path '"@ + input@
                    + "' is a directory; exact file paths are required"@
            } else {
                result matches Ok(path) && path@ == place.0
            }
        }),
{
    if input.unicode_len() == 0 {
        return Err(Error::new("reported paths cannot be empty".to_owned()));
    }
    if glob(input) {
        return Err(
            Error::new(
                text::cat3("reported path '", input, "' must be exact; globs are not allowed"),
            ),
        );
    }
    match places::safe_resolve_path(root, input, project_root, disk) {
        Err(e) => Err(e),
        Ok(place) => if place.directory {
            Err(
                Error::new(
                    text::cat3(
                        "reported path '",
                        input,
                        "' is a directory; exact file paths are required",
                    ),
                ),
            )
        } else {
            Ok(place.path)
        },
    }
}

/// The files that reported paths lead to, in their order. A path that leads out
/// of the project, to a directory or to a file that is already there, or that
/// stands for many, is refused.
pub fn normalize_reported_paths(
    project_root: &str,
    root: &str,
    paths: &Vec<String>,
    disk: &Vec<Place>,
) -> (result: Result<Vec<String>, Error>)
    ensures
        are_normalized(disk@, root@, project_root@, text::views(paths@), result),
{
    if paths.len() == 0 || paths.len() > MAX_REPORTED_PATHS {
        return Err(path_count_error());
    }
    let ghost inputs = text::views(paths@);
    let ghost mut list = Seq::<Seq<char>>::empty();
    let mut kept: Vec<String> = Vec::new();
    let mut i: usize = 0;
    proof {
        assert(text::views(kept@) =~= list);
        assert(inputs.take(0) =~= Seq::empty());
    }
    while i < paths.len()
        invariant
            i <= paths.len(),
            inputs == text::views(paths@),
            !wrong_count(inputs.len() as int),
            sorted::in_order(kept@),
            sorted::is_sorted_set(list, text::views(kept@)),
            reported_paths(disk@, root@, project_root@, inputs.take(i as int)) == Ok::<
                Seq<Seq<char>>,
                Seq<char>,
            >(list),
        decreases paths.len() - i,
    {
        let ghost next = inputs.take(i + 1);
        proof {
            assert(next.drop_last() =~= inputs.take(i as int));
            assert(next.last() == paths@[i as int]@);
        }
        let input = text::trim(paths[i].as_str());
        match normalize_reported_path(disk, root, project_root, input) {
            Err(e) => {
                proof {
                    lemma_reported_error(disk@, root@, project_root@, inputs, i + 1);
                }
                return Err(e);
            },
            Ok(path) => {
                let ghost found = path@;
                let new = sorted::insert(&mut kept, path);
                if !new {
                    proof {
                        assert(list.contains(found));
                        lemma_reported_error(disk@, root@, project_root@, inputs, i + 1);
                    }
                    return Err(
                        Error::new(text::cat3("reported paths contain duplicate '", input, "'")),
                    );
                }
                proof {
                    let longer = list.push(found);
                    assert forall|t: Seq<char>| text::views(kept@).contains(t)
                        <==> longer.contains(t) by {
                        if list.contains(t) {
                            let k = choose|k: int| 0 <= k < list.len() && list[k] == t;
                            assert(longer[k] == t);
                        }
                        assert(longer[list.len() as int] == found);
                        if longer.contains(t) && t != found {
                            let k = choose|k: int| 0 <= k < longer.len() && longer[k] == t;
                            assert(list[k] == t);
                        }
                    }
                    list = longer;
                }
            },
        }
        i += 1;
    }
    proof {
        assert(inputs.take(i as int) =~= inputs);
    }
    Ok(kept)
}

// ── processing ──────────────────────────────────────────────────────

/// Where an event comes from: the project that watches the directory, the
/// directory, the root from which reported paths are resolved, and the process.
#[derive(Debug)]
pub struct Site<'a> {
    pub project_id: i64,
    pub project_root: &'a str,
    pub cwd: &'a str,
    pub root: &'a str,
    pub process: u32,
}

/// The answer to an event. What an event has no answer for is absent.
#[derive(Debug)]
pub struct Reply {
    pub version: u32,
    pub event: String,
    pub run_id: String,
    pub status: Option<String>,
    pub external_run_id: Option<String>,
    pub external_change_id: Option<String>,
    pub claimed_events: Option<usize>,
    pub checkpoint_id: Option<String>,
    pub created: Option<bool>,
    pub intent_id: Option<String>,
    pub intent: Option<String>,
}

/// What an answer says.
pub ghost struct Answer {
    pub version: u32,
    pub event: Seq<char>,
    pub run_id: Seq<char>,
    pub status: Option<Seq<char>>,
    pub external_run_id: Option<Seq<char>>,
    pub external_change_id: Option<Seq<char>>,
    pub claimed_events: Option<int>,
    pub checkpoint_id: Option<Seq<char>>,
    pub created: Option<bool>,
    pub intent_id: Option<Seq<char>>,
    pub intent: Option<Seq<char>>,
}

impl View for Reply {
    type V = Answer;

    open spec fn view(&self) -> Answer {
        Answer {
            version: self.version,
            event: self.event@,
            run_id: self.run_id@,
            status: text::view_opt(self.status),
            external_run_id: text::view_opt(self.external_run_id),
            external_change_id: text::view_opt(self.external_change_id),
            claimed_events: match self.claimed_events {
                Some(n) => Some(n as int),
                None => None,
            },
            checkpoint_id: text::view_opt(self.checkpoint_id),
            created: self.created,
            intent_id: text::view_opt(self.intent_id),
            intent: text::view_opt(self.intent),
        }
    }
}

/// An answer that names the Run alone.
pub open spec fn plain_answer(event: AgentEvent, run: Run) -> Answer {
    Answer {
        version: event.version,
        event: event.event@,
        run_id: "r_"@ + number::decimal(run.id as int),
        status: None,
        external_run_id: None,
        external_change_id: None,
        claimed_events: None,
        checkpoint_id: None,
        created: None,
        intent_id: None,
        intent: None,
    }
}

/// Whether a result is an answer for a Run.
pub open spec fn answers(result: Result<(Option<i64>, Reply), Error>, run: Run, answer: Answer) -> bool {
    result matches Ok(r) && r.0 == Some(run.id) && r.1@ == answer
}

/// Whether a result is an error.
pub open spec fn fails_with(result: Result<(Option<i64>, Reply), Error>, e: Error) -> bool {
    result matches Err(x) && x == e
}

/// An answer that names the Run alone.
fn plain_reply(event: &AgentEvent, run: &Run) -> (reply: Reply)
    ensures
        reply@ == plain_answer(*event, *run),
{
    Reply {
        version: event.version,
        event: event.event.clone(),
        run_id: run.public_id(),
        status: None,
        external_run_id: None,
        external_change_id: None,
        claimed_events: None,
        checkpoint_id: None,
        created: None,
        intent_id: None,
        intent: None,
    }
}

/// What the Run that an event starts is started with.
pub open spec fn options_of<'a>(event: AgentEvent, options: StartRunOptions<'a>) -> bool {
    &&& text::view_opt_str(options.name) == text::view_opt(event.name)
    &&& text::view_opt_str(options.actor) == Some(
        match event.actor {
            Some(actor) => actor@,
            None => "agent"@,
        },
    )
    &&& text::view_opt_str(options.agent) == text::view_opt(event.agent)
    &&& text::view_opt_str(options.command) == text::view_opt(event.command)
    &&& text::view_opt_str(options.intent) == text::view_opt(event.intent)
    &&& text::view_opt_str(options.external_id) == Some(
        match event.external_run_id {
            Some(id) => id@,
            None => event.idempotency_key@,
        },
    )
}

/// How changes are attributed to a Run that a version of the protocol starts.
pub open spec fn mode_of(version: u32) -> Seq<char> {
    if version == REPORTED_AGENT_EVENT_VERSION {
        "reported"@
    } else {
        "window"@
    }
}

/// An event on a change comes in the second version of the protocol.
proof fn lemma_change_is_reported(event: AgentEvent)
    requires
        problem(event) is None,
        is_change_event(event.event@),
    ensures
        event.version == REPORTED_AGENT_EVENT_VERSION,
        event.external_run_id is Some,
        event.external_change_id is Some,
        event.paths is Some,
{
    reveal_strlit("change_started");
    reveal_strlit("change_completed");
    reveal_strlit("run_started");
    reveal_strlit("checkpoint");
    reveal_strlit("intent_started");
    reveal_strlit("intent_completed");
    reveal_strlit("run_completed");
    assert("change_started"@[0] == 'c' && "change_completed"@[0] == 'c');
    assert("intent_started"@[0] == 'i' && "intent_completed"@[0] == 'i');
    assert("run_started"@[0] == 'r' && "run_completed"@[0] == 'r');
    assert("checkpoint"@.len() != "change_started"@.len());
}

/// Processing `run_started`.
pub open spec fn start_processed(
    before: Tables,
    after: Tables,
    event: AgentEvent,
    project_id: i64,
    process: u32,
    named_at: i64,
    now: i64,
    result: Result<(Option<i64>, Reply), Error>,
) -> bool {
    let mode = mode_of(event.version);
    exists|options: StartRunOptions, run: Result<Run, Error>|
        {
            &&& #[trigger] options_of(event, options)
            &&& #[trigger] run_begun(
                before,
                after,
                project_id,
                options,
                mode,
                process,
                named_at,
                now,
                run,
            )
            &&& match run {
                Err(e) => fails_with(result, e),
                Ok(r) => answers(
                    result,
                    r,
                    (Answer { status: Some(r.status@), ..plain_answer(event, r) }),
                ),
            }
        }
}

/// Opening or closing a change of a Run.
pub open spec fn boundary_moved(
    opening: bool,
    before: Tables,
    after: Tables,
    run_id: i64,
    change_id: Seq<char>,
    paths: Seq<Seq<char>>,
    now: i64,
    result: Result<RunBoundary, Error>,
) -> bool {
    if opening {
        boundary_opened(before, after, run_id, change_id, paths, now, result)
    } else {
        boundary_closed(before, after, run_id, change_id, paths, now, result)
    }
}

/// Processing `change_started` or `change_completed` for a Run and its paths.
pub open spec fn change_moved(
    before: Tables,
    after: Tables,
    event: AgentEvent,
    run: Run,
    paths: Seq<Seq<char>>,
    now: i64,
    result: Result<(Option<i64>, Reply), Error>,
) -> bool {
    let opening = event.event@ == "change_started"@;
    exists|moved: Result<RunBoundary, Error>|
        {
            &&& #[trigger] boundary_moved(
                opening,
                before,
                after,
                run.id,
                event.external_change_id->0@,
                paths,
                now,
                moved,
            )
            &&& match moved {
                Err(e) => fails_with(result, e),
                Ok(b) => answers(
                    result,
                    run,
                    (Answer {
                        status: Some(b.status@),
                        external_run_id: text::view_opt(event.external_run_id),
                        external_change_id: text::view_opt(event.external_change_id),
                        claimed_events: if opening {
                            None
                        } else {
                            Some(rows::kept(after.claims, of_session(run.id)) as int)
                        },
                        ..plain_answer(event, run)
                    }),
                ),
            }
        }
}

/// Processing `change_started` or `change_completed`.
pub open spec fn change_processed(
    before: Tables,
    after: Tables,
    event: AgentEvent,
    project_id: i64,
    project_root: Seq<char>,
    root: Seq<char>,
    disk: Seq<Place>,
    now: i64,
    result: Result<(Option<i64>, Reply), Error>,
) -> bool {
    match open_run(reported_run(before.sessions, project_id, event.external_run_id->0@)) {
        Err(said) => after == before && (result matches Err(e) && e@ == said),
        Ok(run) => exists|paths: Result<Vec<String>, Error>|
            {
                &&& #[trigger] are_normalized(
                    disk,
                    root,
                    project_root,
                    text::views(event.paths->0@),
                    paths,
                )
                &&& match paths {
                    Err(e) => after == before && fails_with(result, e),
                    Ok(list) => change_moved(
                        before,
                        after,
                        event,
                        run,
                        text::views(list@),
                        now,
                        result,
                    ),
                }
            },
    }
}

/// Processing `checkpoint` for a Run.
pub open spec fn checkpoint_processed(
    before: Tables,
    after: Tables,
    event: AgentEvent,
    project_id: i64,
    run: Run,
    now: i64,
    result: Result<(Option<i64>, Reply), Error>,
) -> bool {
    if !is_filled(event.name) {
        after == before && (result matches Err(e) && e@
            == "checkpoint event requires a non-empty 'name'"@)
    } else {
        exists|saved: Result<(Checkpoint, bool), Error>|
            {
                &&& #[trigger] checkpoint_saved(
                    before,
                    after,
                    project_id,
                    Some(run.id),
                    text::trimmed(event.name->0@),
                    now,
                    text::view_opt(event.intent),
                    now,
                    saved,
                )
                &&& match saved {
                    Err(e) => fails_with(result, e),
                    Ok(c) => answers(
                        result,
                        run,
                        (Answer {
                            checkpoint_id: Some("cp_"@ + number::decimal(c.0.id as int)),
                            created: Some(c.1),
                            ..plain_answer(event, run)
                        }),
                    ),
                }
            }
    }
}

/// Processing `intent_started` or `intent_completed` for a Run.
pub open spec fn task_processed(
    before: Tables,
    after: Tables,
    event: AgentEvent,
    run: Run,
    now: i64,
    result: Result<(Option<i64>, Reply), Error>,
) -> bool {
    if event.event@ == "intent_started"@ && !is_filled(event.intent) {
        after == before && (result matches Err(e) && e@
            == "intent_started requires a non-empty 'intent'"@)
    } else {
        exists|task: Result<RunIntent, Error>|
            {
                &&& #[trigger] task_moved(before, after, event, run, now, task)
                &&& match task {
                    Err(e) => fails_with(result, e),
                    Ok(t) => answers(
                        result,
                        run,
                        (Answer {
                            intent_id: Some("i_"@ + number::decimal(t.id as int)),
                            intent: Some(t.label@),
                            ..plain_answer(event, run)
                        }),
                    ),
                }
            }
    }
}

/// Starting or ending the task of a Run.
pub open spec fn task_moved(
    before: Tables,
    after: Tables,
    event: AgentEvent,
    run: Run,
    now: i64,
    task: Result<RunIntent, Error>,
) -> bool {
    if event.event@ == "intent_started"@ {
        task_started(before, after, run.id, text::trimmed(event.intent->0@), now, task)
    } else {
        task_completed(before, after, run.id, text::view_opt(event.intent), now, task)
    }
}

/// How the Run that an event ends has ended.
pub open spec fn outcome_of(event: AgentEvent) -> Seq<char> {
    match event.status {
        Some(status) => status@,
        None => "completed"@,
    }
}

/// Ending the Run of an event. A reported Run that has ended already stays as
/// it is, so that a repeated event is answered alike.
pub open spec fn run_finished(
    before: Tables,
    after: Tables,
    event: AgentEvent,
    project_id: i64,
    cwd: Seq<char>,
    now: i64,
    run: Result<Run, Error>,
) -> bool {
    if event.version == REPORTED_AGENT_EVENT_VERSION {
        match reported_run(before.sessions, project_id, event.external_run_id->0@) {
            Err(said) => after == before && (run matches Err(e) && e@ == said),
            Ok(r) => if r.ended_at is Some {
                after == before && (run matches Ok(x) && x == r)
            } else {
                run_completed(before, after, r.id, outcome_of(event), now, run)
            },
        }
    } else {
        run_stopped(
            before,
            after,
            cwd,
            project_id,
            text::view_opt(event.run_id),
            outcome_of(event),
            now,
            run,
        )
    }
}

/// Processing `run_completed`.
pub open spec fn finish_processed(
    before: Tables,
    after: Tables,
    event: AgentEvent,
    project_id: i64,
    cwd: Seq<char>,
    now: i64,
    result: Result<(Option<i64>, Reply), Error>,
) -> bool {
    exists|run: Result<Run, Error>|
        {
            &&& #[trigger] run_finished(before, after, event, project_id, cwd, now, run)
            &&& match run {
                Err(e) => fails_with(result, e),
                Ok(r) => answers(
                    result,
                    r,
                    (Answer { status: Some(r.status@), ..plain_answer(event, r) }),
                ),
            }
        }
}

/// Processing an event at a time.
pub open spec fn event_processed(
    before: Tables,
    after: Tables,
    event: AgentEvent,
    site: Site,
    disk: Seq<Place>,
    named_at: i64,
    now: i64,
    result: Result<(Option<i64>, Reply), Error>,
) -> bool {
    let kind = event.event@;
    if kind == "run_started"@ {
        start_processed(
            before,
            after,
            event,
            site.project_id,
            site.process,
            named_at,
            now,
            result,
        )
    } else if is_change_event(kind) {
        change_processed(
            before,
            after,
            event,
            site.project_id,
            site.project_root@,
            site.root@,
            disk,
            now,
            result,
        )
    } else if kind == "run_completed"@ {
        finish_processed(before, after, event, site.project_id, site.cwd@, now, result)
    } else {
        exists|run: Result<Run, Error>|
            {
                &&& #[trigger] is_required_run(before.sessions, site.project_id, event, run)
                &&& match run {
                    Err(e) => after == before && fails_with(result, e),
                    Ok(r) => if kind == "checkpoint"@ {
                        checkpoint_processed(
                            before,
                            after,
                            event,
                            site.project_id,
                            r,
                            now,
                            result,
                        )
                    } else {
                        task_processed(before, after, event, r, now, result)
                    },
                }
            }
    }
}

/// An optional text as a slice.
fn slice(value: &Option<String>) -> (out: Option<&str>)
    ensures
        text::view_opt_str(out) == text::view_opt(*value),
{
    match value {
        Some(s) => Some(s.as_str()),
        None => None,
    }
}

/// Processes `run_started`.
fn process_start(
    db: &mut Database,
    event: &AgentEvent,
    project_id: i64,
    process: u32,
    named_at: i64,
    now: i64,
) -> (result: Result<(Option<i64>, Reply), Error>)
    requires
        old(db)@.wf(),
    ensures
        final(db)@.wf(),
        start_processed(
            old(db)@,
            final(db)@,
            *event,
            project_id,
            process,
            named_at,
            now,
            result,
        ),
{
    let external_id = match &event.external_run_id {
        Some(id) => id.as_str(),
        None => event.idempotency_key.as_str(),
    };
    let options = StartRunOptions {
        name: slice(&event.name),
        actor: match &event.actor {
            Some(actor) => Some(actor.as_str()),
            None => Some("agent"),
        },
        agent: slice(&event.agent),
        command: slice(&event.command),
        intent: slice(&event.intent),
        external_id: Some(external_id),
    };
    assert(options_of(*event, options));
    let mode = if event.version == REPORTED_AGENT_EVENT_VERSION {
        "reported"
    } else {
        "window"
    };
    let run = runs::start_run_with_mode(db, project_id, &options, mode, process, named_at, now);
    let ghost seen = run;
    assert(mode@ == mode_of(event.version));
    assert(run_begun(
        old(db)@,
        db@,
        project_id,
        options,
        mode_of(event.version),
        process,
        named_at,
        now,
        seen,
    ));
    match run {
        Err(e) => Err(e),
        Ok(r) => {
            let mut reply = plain_reply(event, &r);
            reply.status = Some(r.status.clone());
            Ok((Some(r.id), reply))
        },
    }
}

/// Processes `change_started` or `change_completed`.
fn process_change(
    db: &mut Database,
    event: &AgentEvent,
    site: &Site,
    disk: &Vec<Place>,
    now: i64,
) -> (result: Result<(Option<i64>, Reply), Error>)
    requires
        old(db)@.wf(),
        problem(*event) is None,
        is_change_event(event.event@),
    ensures
        final(db)@.wf(),
        change_processed(
            old(db)@,
            final(db)@,
            *event,
            site.project_id,
            site.project_root@,
            site.root@,
            disk@,
            now,
            result,
        ),
{
    let ghost before = db@;
    proof {
        lemma_change_is_reported(*event);
    }
    let run = match required_reported_run(db, site.project_id, event) {
        Err(e) => {
            return Err(e);
        },
        Ok(run) => run,
    };
    let (given, change_id) = match (&event.paths, &event.external_change_id) {
        (Some(paths), Some(id)) => (paths, id.as_str()),
        _ => {
            assert(false);
            return Err(Error::new("".to_owned()));
        },
    };
    let paths = normalize_reported_paths(site.project_root, site.root, given, disk);
    let ghost seen = paths;
    assert(are_normalized(
        disk@,
        site.root@,
        site.project_root@,
        text::views(event.paths->0@),
        seen,
    ));
    let list = match paths {
        Err(e) => {
            return Err(e);
        },
        Ok(list) => list,
    };
    let opening = text::same(event.event.as_str(), "change_started");
    let moved = if opening {
        db.open_run_boundary_at(run.id, change_id, &list, now)
    } else {
        db.close_run_boundary_at(run.id, change_id, &list, now)
    };
    let ghost done = moved;
    assert(boundary_moved(
        opening,
        before,
        db@,
        run.id,
        change_id@,
        text::views(list@),
        now,
        done,
    ));
    let boundary = match moved {
        Err(e) => {
            let result = Err(e);
            assert(change_moved(
                before,
                db@,
                *event,
                run,
                text::views(list@),
                now,
                result,
            ));
            return result;
        },
        Ok(b) => b,
    };
    let mut reply = plain_reply(event, &run);
    reply.status = Some(boundary.status.clone());
    reply.external_run_id = text::clone_opt(&event.external_run_id);
    reply.external_change_id = text::clone_opt(&event.external_change_id);
    if !opening {
        let claimed = db.count_run_claimed_events(run.id)?;
        reply.claimed_events = Some(claimed);
    }
    let result = Ok((Some(run.id), reply));
    assert(change_moved(before, db@, *event, run, text::views(list@), now, result));
    result
}

/// Processes `checkpoint` for a Run.
fn process_checkpoint(db: &mut Database, event: &AgentEvent, project_id: i64, run: &Run, now: i64) -> (result:
    Result<(Option<i64>, Reply), Error>)
    requires
        old(db)@.wf(),
    ensures
        final(db)@.wf(),
        checkpoint_processed(old(db)@, final(db)@, *event, project_id, *run, now, result),
{
    let name = match required_checkpoint_name(event) {
        Err(e) => {
            return Err(e);
        },
        Ok(name) => name,
    };
    let saved = db.save_checkpoint(project_id, Some(run.id), name, now, slice(&event.intent), now);
    let ghost seen = saved;
    assert(checkpoint_saved(
        old(db)@,
        db@,
        project_id,
        Some(run.id),
        text::trimmed(event.name->0@),
        now,
        text::view_opt(event.intent),
        now,
        seen,
    ));
    match saved {
        Err(e) => Err(e),
        Ok((checkpoint, created)) => {
            let mut reply = plain_reply(event, run);
            reply.checkpoint_id = Some(checkpoint.public_id());
            reply.created = Some(created);
            Ok((Some(run.id), reply))
        },
    }
}

/// Processes `intent_started` or `intent_completed` for a Run.
fn process_task(db: &mut Database, event: &AgentEvent, run: &Run, now: i64) -> (result: Result<
    (Option<i64>, Reply),
    Error,
>)
    requires
        old(db)@.wf(),
    ensures
        final(db)@.wf(),
        task_processed(old(db)@, final(db)@, *event, *run, now, result),
{
    let task = if text::same(event.event.as_str(), "intent_started") {
        let label = match required_intent(event) {
            Err(e) => {
                return Err(e);
            },
            Ok(label) => label,
        };
        db.start_run_intent_now(run.id, label, now)
    } else {
        db.complete_run_intent_now(run.id, slice(&event.intent), now)
    };
    let ghost seen = task;
    assert(task_moved(old(db)@, db@, *event, *run, now, seen));
    match task {
        Err(e) => Err(e),
        Ok(task) => {
            let mut reply = plain_reply(event, run);
            reply.intent_id = Some(task.public_id());
            reply.intent = Some(task.label.clone());
            Ok((Some(run.id), reply))
        },
    }
}

/// Processes `run_completed`.
fn process_finish(db: &mut Database, event: &AgentEvent, site: &Site, now: i64) -> (result: Result<
    (Option<i64>, Reply),
    Error,
>)
    requires
        old(db)@.wf(),
        problem(*event) is None,
    ensures
        final(db)@.wf(),
        finish_processed(
            old(db)@,
            final(db)@,
            *event,
            site.project_id,
            site.cwd@,
            now,
            result,
        ),
{
    let status = match &event.status {
        Some(status) => status.as_str(),
        None => "completed",
    };
    let run = if event.version == REPORTED_AGENT_EVENT_VERSION {
        let external_id = match &event.external_run_id {
            Some(id) => id.as_str(),
            None => "",
        };
        match find_reported_run(db, site.project_id, external_id) {
            Err(e) => Err(e),
            Ok(run) => if run.is_active() {
                db.complete_run_at(run.id, status, now)
            } else {
                Ok(run)
            },
        }
    } else {
        runs::stop_run_at(db, site.cwd, site.project_id, slice(&event.run_id), status, now)
    };
    let ghost seen = run;
    assert(run_finished(old(db)@, db@, *event, site.project_id, site.cwd@, now, seen));
    match run {
        Err(e) => Err(e),
        Ok(r) => {
            let mut reply = plain_reply(event, &r);
            reply.status = Some(r.status.clone());
            Ok((Some(r.id), reply))
        },
    }
}

/// Processes an event at a time, once its project is known and up to date. An
/// event with a problem is not processed.
pub fn process_event_at(
    db: &mut Database,
    event: &AgentEvent,
    site: &Site,
    disk: &Vec<Place>,
    named_at: i64,
    now: i64,
) -> (result: Result<(Option<i64>, Reply), Error>)
    requires
        old(db)@.wf(),
        problem(*event) is None,
    ensures
        final(db)@.wf(),
        event_processed(
            old(db)@,
            final(db)@,
            *event,
            *site,
            disk@,
            named_at,
            now,
            result,
        ),
{
    let kind = event.event.as_str();
    if text::same(kind, "run_started") {
        return process_start(db, event, site.project_id, site.process, named_at, now);
    }
    if text::same(kind, "change_started") || text::same(kind, "change_completed") {
        return process_change(db, event, site, disk, now);
    }
    if text::same(kind, "run_completed") {
        return process_finish(db, event, site, now);
    }
    let run = run_of_event(db, site.project_id, event);
    let ghost seen = run;
    assert(is_required_run(old(db)@.sessions, site.project_id, *event, seen));
    match run {
        Err(e) => Err(e),
        Ok(run) => if text::same(kind, "checkpoint") {
            process_checkpoint(db, event, site.project_id, &run, now)
        } else {
            process_task(db, event, &run, now)
        },
    }
}

/// Processes an event now.
pub fn process_event(db: &mut Database, event: &AgentEvent, site: &Site, disk: &Vec<Place>) -> (result:
    Result<(Option<i64>, Reply), Error>)
    requires
        old(db)@.wf(),
        problem(*event) is None,
    ensures
        final(db)@.wf(),
        exists|named_at: i64, now: i64|
            #[trigger] event_processed(
                old(db)@,
                final(db)@,
                *event,
                *site,
                disk@,
                named_at,
                now,
                result,
            ),
{
    let named_at = clock::unix_now();
    let now = clock::unix_now();
    process_event_at(db, event, site, disk, named_at, now)
}

// ── answering once ──────────────────────────────────────────────────

/// What a JSON text is once parsed and written again without spaces and with
/// its keys in order, or why it is no JSON text.
pub uninterp spec fn canonical_json(payload: Seq<char>) -> Result<Seq<u8>, Seq<char>>;

/// A JSON text, parsed by `serde_json::from_str` into a `serde_json::Value` and
/// written by `serde_json::to_vec`: a function of the text alone. Which bytes
/// come out is left unsaid.
#[verifier::external_body]
fn canonical(payload: &str) -> (result: Result<Vec<u8>, String>)
    ensures
        match result {
            Ok(bytes) => canonical_json(payload@) == Ok::<Seq<u8>, Seq<char>>(bytes@),
            Err(said) => canonical_json(payload@) == Err::<Seq<u8>, Seq<char>>(said@),
        },
{
    serde_json::from_str::<serde_json::Value>(payload).and_then(
        |value| serde_json::to_vec(&value),
    ).map_err(|error| error.to_string())
}

/// The digest of a request in its canonical form.
pub fn canonical_hash(canonical: &Vec<u8>) -> (hash: String)
    ensures
        hash@ == hex::hex(hex::sha256(canonical@)),
        hash@.len() == 64,
{
    let digest = hex::digest(canonical.as_slice());
    proof {
        hex::lemma_hex_length(digest@);
    }
    hex::to_hex(digest.as_slice())
}

/// What a request is known by, or why it is no JSON text.
pub open spec fn request_digest(payload: Seq<char>) -> Result<Seq<char>, Seq<char>> {
    match canonical_json(payload) {
        Ok(bytes) => Ok(hex::hex(hex::sha256(bytes))),
        Err(said) => Err(said),
    }
}

/// What a request is known by: requests that mean the same have the same.
pub fn request_hash(payload: &str) -> (result: Result<String, Error>)
    ensures
        match request_digest(payload@) {
            Ok(digest) => result matches Ok(hash) && hash@ == digest && hash@.len() == 64,
            Err(said) => result matches Err(e) && e@ == said,
        },
{
    match canonical(payload) {
        Ok(bytes) => Ok(canonical_hash(&bytes)),
        Err(said) => Err(Error::new(said)),
    }
}

/// What is said where no request came, with an agent in the example.
pub open spec fn empty_request_text(usual: Agent) -> Seq<char> {
    "event requires one JSON object on stdin or through --json.\nExample: printf '%s' '{\"version\":1,\"event\":\"run_started\",\"idempotency_key\":\"agent-42-start\",\"agent\":\""@
        + label_of(usual) + "\"}' | undo event"@
}

/// Tells whether a request came at all.
pub fn check_request(payload: &str, usual: Agent) -> (result: Result<(), Error>)
    ensures
        match result {
            Ok(_) => text::trimmed(payload@).len() > 0,
            Err(e) => text::trimmed(payload@).len() == 0 && e@ == empty_request_text(usual),
        },
{
    if text::blank(payload) {
        Err(
            Error::new(
                text::cat3(
                    "event requires one JSON object on stdin or through --json.\nExample: printf '%s' '{\"version\":1,\"event\":\"run_started\",\"idempotency_key\":\"agent-42-start\",\"agent\":\"",
                    agent_label(usual),
                    "\"}' | undo event",
                ),
            ),
        )
    } else {
        Ok(())
    }
}

/// How an event that comes in goes on.
#[derive(Debug)]
pub enum EventStep {
    /// It was answered before, and this is the answer.
    Answered(String),
    /// It is processed, as the request with this digest.
    Process(String),
}

/// How an event that comes in goes on: one with a problem is refused, one that was
/// answered gets its answer again, and one that used the key of another request is
/// refused.
pub open spec fn event_received(
    t: Tables,
    payload: Seq<char>,
    event: AgentEvent,
    result: Result<EventStep, Error>,
) -> bool {
    match problem(event) {
        Some(said) => result matches Err(e) && e@ == said,
        None => match request_digest(payload) {
            Err(said) => result matches Err(e) && e@ == said,
            Ok(digest) => exists|known: Result<Option<String>, Error>|
                {
                    &&& #[trigger] is_replay(t, event.idempotency_key@, digest, known)
                    &&& match known {
                        Err(e) => result matches Err(x) && x@ == e@,
                        Ok(Some(answer)) => result matches Ok(EventStep::Answered(out)) && out@
                            == answer@,
                        Ok(None) => result matches Ok(EventStep::Process(hash)) && hash@ == digest,
                    }
                },
        },
    }
}

/// Takes an event in: `event` is what `payload` holds.
pub fn cmd_event(db: &Database, payload: &str, event: &AgentEvent) -> (result: Result<
    EventStep,
    Error,
>)
    ensures
        event_received(db@, payload@, *event, result),
{
    validate_event(event)?;
    let hash = request_hash(payload)?;
    let known = db.get_integration_response(event.idempotency_key.as_str(), hash.as_str());
    assert(is_replay(db@, event.idempotency_key@, hash@, known));
    match known {
        Err(e) => Err(e),
        Ok(Some(answer)) => Ok(EventStep::Answered(answer)),
        Ok(None) => Ok(EventStep::Process(hash)),
    }
}

/// Settling the answer to an event at a time: where one is recorded already it
/// is given again, else this one is recorded.
pub open spec fn event_settled(
    before: Tables,
    after: Tables,
    event: AgentEvent,
    request_hash: Seq<char>,
    run_id: Option<i64>,
    response_json: Seq<char>,
    now: i64,
    result: Result<String, Error>,
) -> bool {
    exists|known: Result<Option<String>, Error>|
        {
            &&& #[trigger] is_replay(before, event.idempotency_key@, request_hash, known)
            &&& match known {
                Err(e) => after == before && (result matches Err(x) && x == e),
                Ok(Some(answer)) => after == before && (result matches Ok(out) && out@ == answer@),
                Ok(None) => exists|done: Result<(), Error>|
                    {
                        &&& #[trigger] answer_recorded(
                            before,
                            after,
                            event.idempotency_key@,
                            request_hash,
                            run_id,
                            event.event@,
                            response_json,
                            now,
                            done,
                        )
                        &&& match done {
                            Ok(_) => result matches Ok(out) && out@ == response_json,
                            Err(e) => result matches Err(x) && x == e,
                        }
                    },
            }
        }
}

/// Settles the answer to an event now.
pub fn settle_event(
    db: &mut Database,
    event: &AgentEvent,
    request_hash: &str,
    run_id: Option<i64>,
    response_json: &str,
) -> (result: Result<String, Error>)
    requires
        old(db)@.wf(),
    ensures
        final(db)@.wf(),
        exists|now: i64|
            #[trigger] event_settled(
                old(db)@,
                final(db)@,
                *event,
                request_hash@,
                run_id,
                response_json@,
                now,
                result,
            ),
{
    let now = clock::unix_now();
    let ghost before = db@;
    let known = db.get_integration_response(event.idempotency_key.as_str(), request_hash);
    let ghost seen = known;
    assert(is_replay(before, event.idempotency_key@, request_hash@, seen));
    let result = match known {
        Err(e) => Err(e),
        Ok(Some(answer)) => Ok(answer),
        Ok(None) => {
            let done = db.record_integration_response_at(
                event.idempotency_key.as_str(),
                request_hash,
                run_id,
                event.event.as_str(),
                response_json,
                now,
            );
            let ghost recorded = done;
            assert(answer_recorded(
                before,
                db@,
                event.idempotency_key@,
                request_hash@,
                run_id,
                event.event@,
                response_json@,
                now,
                recorded,
            ));
            match done {
                Ok(_) => Ok(response_json.to_owned()),
                Err(e) => Err(e),
            }
        },
    };
    assert(event_settled(
        before,
        db@,
        *event,
        request_hash@,
        run_id,
        response_json@,
        now,
        result,
    ));
    result
}

} // verus!
