//! Runs: looking them up, starting and ending them.
use vstd::prelude::*;
use vstd::string::*;

use crate::clock;
use crate::db::claims::{claims_extended, lemma_claims_extended_refer, open_aborted};
use crate::db::events::max_id;
use crate::db::intents::{active_intent, intents_with_ended, is_ended_intent};
use crate::db::{
    foreign_key_text, full_text, has_event, has_project, has_run, lemma_distinct_push,
    lemma_numbered_push, lemma_numbered_update, public_id_of, same_run, Database, Sequences,
    Tables,
};
use crate::error::Error;
use crate::models::{FileEvent, Run, RunIntent, Session};
use crate::number;
use crate::rows;
use crate::rows::{Order, Row};
use crate::text;

verus! {

// ── which Runs ──────────────────────────────────────────────────────

/// The Run with an id.
pub open spec fn is_run(id: i64) -> spec_fn(Run) -> bool {
    |r: Run| r.id == id
}

/// The Runs of a project.
pub open spec fn runs_of(project_id: i64) -> spec_fn(Run) -> bool {
    |r: Run| r.project_id == project_id
}

/// The Runs of a project that have not ended.
pub open spec fn active_of(project_id: i64) -> spec_fn(Run) -> bool {
    |r: Run| r.project_id == project_id && r.ended_at is None
}

/// The Runs of a project that have not ended and record by time.
pub open spec fn active_windows_of(project_id: i64) -> spec_fn(Run) -> bool {
    |r: Run| r.project_id == project_id && r.ended_at is None && r.attribution_mode@ == "window"@
}

/// The Run of a project with a name.
pub open spec fn is_named(project_id: i64, name: Seq<char>) -> spec_fn(Run) -> bool {
    |r: Run| r.project_id == project_id && r.name@ == name
}

/// The Run of a project with an external id.
pub open spec fn is_external(project_id: i64, external_id: Seq<char>) -> spec_fn(Run) -> bool {
    |r: Run| r.project_id == project_id && text::is_some_text(r.external_id, external_id)
}

/// The Run that a reference names in a project: by its public id, else by its
/// name.
pub open spec fn run_by_ref(sessions: Seq<Run>, project_id: i64, reference: Seq<char>) -> Option<
    Run,
> {
    match public_id_of(reference, "r_"@) {
        Some(id) => match rows::lookup(sessions, is_run(id as i64)) {
            Some(run) => if run.project_id == project_id {
                Some(run)
            } else {
                None
            },
            None => None,
        },
        None => rows::lookup(sessions, is_named(project_id, reference)),
    }
}

// ── starting ────────────────────────────────────────────────────────

/// What a new Run is given, as text.
pub struct NewRun {
    pub name: Seq<char>,
    pub kind: Seq<char>,
    pub attribution_mode: Seq<char>,
    pub actor: Seq<char>,
    pub agent: Option<Seq<char>>,
    pub command: Option<Seq<char>>,
    pub intent: Option<Seq<char>>,
    pub external_id: Option<Seq<char>>,
}

/// Whether a Run row is new.
pub open spec fn is_new_run(
    r: Run,
    id: int,
    project_id: i64,
    new: NewRun,
    event_id: int,
    now: i64,
) -> bool {
    &&& r.id == id
    &&& r.project_id == project_id
    &&& r.name@ == new.name
    &&& r.kind@ == new.kind
    &&& r.attribution_mode@ == new.attribution_mode
    &&& r.actor@ == new.actor
    &&& text::view_opt(r.agent) == new.agent
    &&& text::view_opt(r.command) == new.command
    &&& text::view_opt(r.intent) == new.intent
    &&& text::view_opt(r.external_id) == new.external_id
    &&& r.status@ == "active"@
    &&& r.started_at == now
    &&& r.ended_at is None
    &&& r.start_event_id == event_id
    &&& r.end_event_id is None
    &&& r.created_at == now
}

/// The active Run that stands in the way of a new one: any where the new one
/// records by time, one that records by time where the new one is reported.
pub open spec fn conflicting_run(sessions: Seq<Run>, project_id: i64, mode: Seq<char>) -> Option<
    Run,
> {
    if mode == "window"@ {
        rows::pick(sessions, Order::Newest, active_of(project_id))
    } else {
        rows::pick(sessions, Order::Newest, active_windows_of(project_id))
    }
}

/// What is said where an active Run stands in the way.
pub open spec fn conflict_text(active: Run, mode: Seq<char>) -> Seq<char> {
    "Run "@ + ("r_"@ + number::decimal(active.id as int)) + " ('"@ + active.name@ + "', "@
        + active.attribution_mode@
        + " attribution) is already active. Complete it before starting this "@ + mode + " Run."@
}

/// What is said where a name is taken.
pub open spec fn name_taken_text() -> Seq<char> {
    "UNIQUE constraint failed: sessions.project_id, sessions.name"@
}

/// Starting a Run at a time: the Run with the external id again where there is
/// one of the same mode, a refusal where another Run stands in the way, else a
/// new row.
pub open spec fn run_started(
    before: Tables,
    after: Tables,
    project_id: i64,
    new: NewRun,
    now: i64,
    result: Result<Run, Error>,
) -> bool {
    let known = rows::lookup(before.sessions, is_external(project_id, new.external_id->0));
    let active = conflicting_run(before.sessions, project_id, new.attribution_mode);
    if new.external_id is Some && known is Some {
        &&& after == before
        &&& if known->0.attribution_mode@ == new.attribution_mode {
            result matches Ok(r) && r == known->0
        } else {
            result matches Err(e) && e@ == "external Run ID '"@ + new.external_id->0
                + "' already belongs to a "@ + known->0.attribution_mode@ + " Run"@
        }
    } else if active is Some {
        after == before && (result matches Err(e) && e@ == conflict_text(
            active->0,
            new.attribution_mode,
        ))
    } else if before.last.sessions == i64::MAX {
        after == before && (result matches Err(e) && e@ == full_text())
    } else if rows::lookup(before.sessions, is_named(project_id, new.name)) is Some {
        after == before && (result matches Err(e) && e@ == name_taken_text())
    } else if !has_project(before.projects, project_id) {
        after == before && (result matches Err(e) && e@ == foreign_key_text())
    } else {
        &&& result matches Ok(r)
        &&& is_new_run(
            r,
            before.last.sessions + 1,
            project_id,
            new,
            max_id(before.events, project_id),
            now,
        )
        &&& after == (Tables {
            sessions: before.sessions.push(r),
            last: Sequences { sessions: r.id, ..before.last },
            ..before
        })
    }
}

/// A new Run keeps the tables well formed.
proof fn lemma_run_started_wf(before: Tables, after: Tables, row: Run)
    requires
        before.wf(),
        before.last.sessions < i64::MAX,
        row.id == before.last.sessions + 1,
        forall|i: int| 0 <= i < before.sessions.len() ==> !same_run(#[trigger] before.sessions[i], row),
        after == (Tables {
            sessions: before.sessions.push(row),
            last: Sequences { sessions: row.id, ..before.last },
            ..before
        }),
    ensures
        after.wf(),
{
    lemma_numbered_push(before.sessions, before.last.sessions, row, row.id);
    lemma_distinct_push(before.sessions, |a, b| same_run(a, b), row);
    assert forall|i: int| 0 <= i < after.claims.len() implies has_run(
        after.sessions,
        (#[trigger] after.claims[i]).session_id,
    ) && has_event(after.events, after.claims[i].event_id) by {
        assert(has_run(before.sessions, before.claims[i].session_id));
        let k = choose|k: int|
            0 <= k < before.sessions.len() && (#[trigger] before.sessions[k]).id
                == before.claims[i].session_id;
        assert(after.sessions[k].id == after.claims[i].session_id);
    }
}

// ── ending ──────────────────────────────────────────────────────────

/// Whether a Run row is another one, ended.
pub open spec fn is_ended_run(r: Run, from: Run, event_id: int, now: i64, status: Seq<char>) -> bool {
    &&& r.status@ == status
    &&& r == (Run {
        status: r.status,
        ended_at: Some(now),
        end_event_id: Some(event_id as i64),
        ..from
    })
}

/// Whether the Runs are those of before but for one that was replaced.
pub open spec fn runs_with(before: Seq<Run>, after: Seq<Run>, from: Run, to: Run) -> bool {
    exists|at: int|
        0 <= at < before.len() && before[at] == from && after == #[trigger] before.update(at, to)
}

/// The events in the time window of a Run that ends.
pub open spec fn in_window(run: Run, ended_at: i64, last: i64) -> spec_fn(FileEvent) -> bool {
    |e: FileEvent|
        {
            &&& e.project_id == run.project_id
            &&& e.id > run.start_event_id
            &&& e.id <= last
            &&& e.timestamp >= run.started_at
            &&& e.timestamp <= ended_at
        }
}

/// Ending a Run at a time: its task ends with it, its open changes are aborted
/// where it is reported, and the events of its time window become its own where
/// it is not. A Run that has ended stays as it is.
pub open spec fn run_completed(
    before: Tables,
    after: Tables,
    run_id: i64,
    status: Seq<char>,
    now: i64,
    result: Result<Run, Error>,
) -> bool {
    match rows::lookup(before.sessions, is_run(run_id)) {
        None => after == before && (result matches Err(e) && e@ == "Run r_"@ + number::decimal(
            run_id as int,
        ) + " not found. Use `undo run list` to see available Runs."@),
        Some(run) => if run.ended_at is Some {
            after == before && (result matches Ok(r) && r == run)
        } else {
            let last = max_id(before.events, run.project_id);
            &&& result matches Ok(r)
            &&& is_ended_run(r, run, last, now, status)
            &&& runs_with(before.sessions, after.sessions, run, r)
            &&& match active_intent(before.intents, run.id) {
                Some(task) => exists|ended: RunIntent|
                    #[trigger] is_ended_intent(ended, task, last as i64, now) && intents_with_ended(
                        before.intents,
                        after.intents,
                        task,
                        ended,
                    ),
                None => after.intents == before.intents,
            }
            &&& if run.attribution_mode@ == "reported"@ {
                &&& open_aborted(before.boundaries, after.boundaries, run.id, now)
                &&& after.claims == before.claims
            } else {
                &&& after.boundaries == before.boundaries
                &&& claims_extended(
                    before.claims,
                    after.claims,
                    run.id,
                    rows::retained(before.events, in_window(run, now, last as i64)),
                )
            }
            &&& after == (Tables {
                sessions: after.sessions,
                intents: after.intents,
                boundaries: after.boundaries,
                claims: after.claims,
                ..before
            })
        },
    }
}

/// A Run may be replaced by one with the same id, project, name and external id.
proof fn lemma_run_update_wf(before: Tables, after: Tables, at: int, to: Run)
    requires
        before.wf(),
        0 <= at < before.sessions.len(),
        to.id == before.sessions[at].id,
        to.project_id == before.sessions[at].project_id,
        to.name == before.sessions[at].name,
        to.external_id == before.sessions[at].external_id,
        after == (Tables { sessions: before.sessions.update(at, to), ..before }),
    ensures
        after.wf(),
        forall|id: i64| has_run(before.sessions, id) ==> #[trigger] has_run(after.sessions, id),
{
    lemma_numbered_update(before.sessions, before.last.sessions, at, to);
    assert forall|i: int, j: int| 0 <= i < j < after.sessions.len() implies !same_run(
        #[trigger] after.sessions[i],
        #[trigger] after.sessions[j],
    ) by {
        assert(!same_run(before.sessions[i], before.sessions[j]));
    }
    assert forall|id: i64| has_run(before.sessions, id) implies #[trigger] has_run(
        after.sessions,
        id,
    ) by {
        let k = choose|k: int| 0 <= k < before.sessions.len() && (#[trigger] before.sessions[k]).id == id;
        assert(after.sessions[k].id == id);
    }
    assert forall|i: int| 0 <= i < after.claims.len() implies has_run(
        after.sessions,
        (#[trigger] after.claims[i]).session_id,
    ) && has_event(after.events, after.claims[i].event_id) by {
        assert(has_run(before.sessions, before.claims[i].session_id));
    }
}

// ── the active Run ──────────────────────────────────────────────────

/// The public ids of Runs.
pub open spec fn public_ids(runs: Seq<Run>) -> Seq<Seq<char>> {
    runs.map_values(|r: Run| "r_"@ + number::decimal(r.id as int))
}

/// The only active Run of a project, none, or a refusal to guess.
pub open spec fn is_active_session(
    sessions: Seq<Run>,
    project_id: i64,
    result: Result<Option<Run>, Error>,
) -> bool {
    exists|active: Seq<Run>|
        {
            &&& #[trigger] rows::is_listing(sessions, Order::Newest, active_of(project_id), active)
            &&& if active.len() == 0 {
                result matches Ok(found) && found is None
            } else if active.len() == 1 {
                result matches Ok(found) && found == Some(active[0])
            } else {
                result matches Err(e) && e@ == "multiple Runs are active ("@ + text::joined(
                    public_ids(active),
                    ", "@,
                ) + "); specify a Run explicitly with --run <RUN> or run_id"@
            }
        }
}

/// The public ids of Runs.
pub fn public_id_list(runs: &Vec<Run>) -> (ids: Vec<String>)
    ensures
        text::views(ids@) == public_ids(runs@),
{
    let mut ids: Vec<String> = Vec::new();
    let mut i: usize = 0;
    while i < runs.len()
        invariant
            i <= runs.len(),
            ids@.len() == i,
            forall|k: int|
                0 <= k < i ==> (#[trigger] ids@[k])@ == "r_"@ + number::decimal(runs@[k].id as int),
        decreases runs.len() - i,
    {
        ids.push(runs[i].public_id());
        i += 1;
    }
    proof {
        assert(text::views(ids@) =~= public_ids(runs@));
    }
    ids
}

/// The events of a Run: those that it has claimed, or where it claims none and
/// is not reported, those of its time window.
pub open spec fn events_of(t: Tables, session: Run, now: i64) -> spec_fn(FileEvent) -> bool {
    if rows::kept(t.claims, crate::db::claims::of_session(session.id)) > 0
        || session.attribution_mode@ == "reported"@ {
        |e: FileEvent| crate::db::claims::claims_event(t.claims, session.id, e.id)
    } else {
        in_window(
            session,
            match session.ended_at {
                Some(at) => at,
                None => now,
            },
            match session.end_event_id {
                Some(id) => id,
                None => max_id(t.events, session.project_id) as i64,
            },
        )
    }
}

impl Database {
    /// The Run with an id.
    pub fn get_session_by_id(&self, session_id: i64) -> (result: Result<Option<Run>, Error>)
        ensures
            result matches Ok(run) && run == rows::lookup(self@.sessions, is_run(session_id)),
    {
        let test = |r: &Run| -> (yes: bool)
            ensures yes == (r.id == session_id)
        { r.id == session_id };
        Ok(rows::find_row(&self.sessions, test, Ghost(is_run(session_id))))
    }

    /// The Run of a project with a name.
    pub fn get_session_by_name(&self, project_id: i64, name: &str) -> (result: Result<
        Option<Run>,
        Error,
    >)
        ensures
            result matches Ok(run) && run == rows::lookup(
                self@.sessions,
                is_named(project_id, name@),
            ),
    {
        let test = |r: &Run| -> (yes: bool)
            ensures yes == (r.project_id == project_id && r.name@ == name@)
        { r.project_id == project_id && text::same(r.name.as_str(), name) };
        Ok(rows::find_row(&self.sessions, test, Ghost(is_named(project_id, name@))))
    }

    /// The Run of a project with an external id.
    pub fn get_run_by_external_id(&self, project_id: i64, external_id: &str) -> (result: Result<
        Option<Run>,
        Error,
    >)
        ensures
            result matches Ok(run) && run == rows::lookup(
                self@.sessions,
                is_external(project_id, external_id@),
            ),
    {
        let test = |r: &Run| -> (yes: bool)
            ensures yes == (r.project_id == project_id && text::is_some_text(
                r.external_id,
                external_id@,
            ))
        { r.project_id == project_id && text::is_text(&r.external_id, external_id) };
        Ok(rows::find_row(&self.sessions, test, Ghost(is_external(project_id, external_id@))))
    }

    /// The Run that a reference names in a project.
    pub fn get_run_by_ref(&self, project_id: i64, reference: &str) -> (result: Result<
        Option<Run>,
        Error,
    >)
        ensures
            result matches Ok(run) && run == run_by_ref(self@.sessions, project_id, reference@),
    {
        match crate::db::parse_public_id(reference, "r_") {
            Some(id) => match self.get_session_by_id(id)? {
                Some(run) => if run.project_id == project_id {
                    Ok(Some(run))
                } else {
                    Ok(None)
                },
                None => Ok(None),
            },
            None => self.get_session_by_name(project_id, reference),
        }
    }

    /// The Runs of a project, the newest first.
    pub fn list_sessions(&self, project_id: i64) -> (result: Result<Vec<Run>, Error>)
        requires
            self@.wf(),
        ensures
            result matches Ok(list) && rows::is_listing(
                self@.sessions,
                Order::Newest,
                runs_of(project_id),
                list@,
            ),
    {
        let test = |r: &Run| -> (yes: bool)
            ensures yes == (r.project_id == project_id)
        { r.project_id == project_id };
        Ok(rows::listing(&self.sessions, Order::Newest, test, Ghost(runs_of(project_id))))
    }

    /// The Runs of a project that have not ended, the newest first.
    pub fn list_active_runs(&self, project_id: i64) -> (result: Result<Vec<Run>, Error>)
        requires
            self@.wf(),
        ensures
            result matches Ok(list) && rows::is_listing(
                self@.sessions,
                Order::Newest,
                active_of(project_id),
                list@,
            ),
    {
        let test = |r: &Run| -> (yes: bool)
            ensures yes == (r.project_id == project_id && r.ended_at is None)
        { r.project_id == project_id && r.ended_at.is_none() };
        Ok(rows::listing(&self.sessions, Order::Newest, test, Ghost(active_of(project_id))))
    }

    /// The only active Run of a project. Where there are several it is not
    /// guessed which one is meant.
    pub fn get_active_session(&self, project_id: i64) -> (result: Result<Option<Run>, Error>)
        requires
            self@.wf(),
        ensures
            is_active_session(self@.sessions, project_id, result),
    {
        let active = self.list_active_runs(project_id)?;
        assert(rows::is_listing(self@.sessions, Order::Newest, active_of(project_id), active@));
        if active.len() == 0 {
            Ok(None)
        } else if active.len() == 1 {
            Ok(Some(active[0].clone()))
        } else {
            let ids = public_id_list(&active);
            Err(
                Error::new(
                    text::cat3(
                        "multiple Runs are active (",
                        text::join(&ids, ", ").as_str(),
                        "); specify a Run explicitly with --run <RUN> or run_id",
                    ),
                ),
            )
        }
    }

    /// The active Run that stands in the way of a new one.
    fn conflict(&self, project_id: i64, mode: &str) -> (active: Option<Run>)
        requires
            self@.wf(),
        ensures
            active == conflicting_run(self@.sessions, project_id, mode@),
    {
        if text::same(mode, "window") {
            let test = |r: &Run| -> (yes: bool)
                ensures yes == (r.project_id == project_id && r.ended_at is None)
            { r.project_id == project_id && r.ended_at.is_none() };
            rows::first_row(&self.sessions, Order::Newest, test, Ghost(active_of(project_id)))
        } else {
            let test = |r: &Run| -> (yes: bool)
                ensures yes == (r.project_id == project_id && r.ended_at is None
                    && r.attribution_mode@ == "window"@)
            {
                r.project_id == project_id && r.ended_at.is_none() && text::same(
                    r.attribution_mode.as_str(),
                    "window",
                )
            };
            rows::first_row(
                &self.sessions,
                Order::Newest,
                test,
                Ghost(active_windows_of(project_id)),
            )
        }
    }

    /// Starts a Run at a time.
    pub fn start_run_with_attribution(
        &mut self,
        project_id: i64,
        name: &str,
        kind: &str,
        attribution_mode: &str,
        actor: &str,
        agent: Option<&str>,
        command: Option<&str>,
        intent: Option<&str>,
        external_id: Option<&str>,
        now: i64,
    ) -> (result: Result<Run, Error>)
        requires
            old(self)@.wf(),
        ensures
            final(self)@.wf(),
            run_started(
                old(self)@,
                final(self)@,
                project_id,
                (NewRun {
                    name: name@,
                    kind: kind@,
                    attribution_mode: attribution_mode@,
                    actor: actor@,
                    agent: text::view_opt_str(agent),
                    command: text::view_opt_str(command),
                    intent: text::view_opt_str(intent),
                    external_id: text::view_opt_str(external_id),
                }),
                now,
                result,
            ),
    {
        let ghost before = self@;
        if let Some(external) = external_id {
            if let Some(known) = self.get_run_by_external_id(project_id, external)? {
                if !text::same(known.attribution_mode.as_str(), attribution_mode) {
                    return Err(
                        Error::new(
                            text::cat5(
                                "external Run ID '",
                                external,
                                "' already belongs to a ",
                                known.attribution_mode.as_str(),
                                " Run",
                            ),
                        ),
                    );
                }
                return Ok(known);
            }
        }
        if let Some(active) = self.conflict(project_id, attribution_mode) {
            let head = text::cat5(
                "Run ",
                active.public_id().as_str(),
                " ('",
                active.name.as_str(),
                "', ",
            );
            return Err(
                Error::new(
                    text::cat5(
                        head.as_str(),
                        active.attribution_mode.as_str(),
                        " attribution) is already active. Complete it before starting this ",
                        attribution_mode,
                        " Run.",
                    ),
                ),
            );
        }
        if self.last.sessions == i64::MAX {
            return Err(Error::new("database or disk is full".to_owned()));
        }
        if self.get_session_by_name(project_id, name)?.is_some() {
            return Err(
                Error::new(
                    "UNIQUE constraint failed: sessions.project_id, sessions.name".to_owned(),
                ),
            );
        }
        if !self.project_exists(project_id) {
            return Err(Error::new("FOREIGN KEY constraint failed".to_owned()));
        }
        let id: i64 = self.last.sessions + 1;
        let start_event_id = self.highest_event_id(project_id);
        let row = Run {
            id,
            project_id,
            name: name.to_owned(),
            kind: kind.to_owned(),
            attribution_mode: attribution_mode.to_owned(),
            actor: actor.to_owned(),
            agent: text::own_opt(agent),
            command: text::own_opt(command),
            intent: text::own_opt(intent),
            external_id: text::own_opt(external_id),
            status: "active".to_owned(),
            started_at: now,
            ended_at: None,
            start_event_id,
            end_event_id: None,
            created_at: now,
        };
        let copy = row.clone();
        self.sessions.push(row);
        self.last.sessions = id;
        proof {
            rows::lemma_lookup_kept(before.sessions, is_named(project_id, name@));
            if external_id is Some {
                rows::lemma_lookup_kept(
                    before.sessions,
                    is_external(project_id, external_id->0@),
                );
            }
            assert forall|i: int| 0 <= i < before.sessions.len() implies !same_run(
                #[trigger] before.sessions[i],
                copy,
            ) by {
                assert(!is_named(project_id, name@)(before.sessions[i]));
                if external_id is Some {
                    assert(!is_external(project_id, external_id->0@)(before.sessions[i]));
                }
            }
            lemma_run_started_wf(before, self@, copy);
        }
        Ok(copy)
    }

    /// Starts a Run now that records by time.
    pub fn start_run(
        &mut self,
        project_id: i64,
        name: &str,
        kind: &str,
        actor: &str,
        agent: Option<&str>,
        command: Option<&str>,
        intent: Option<&str>,
        external_id: Option<&str>,
    ) -> (result: Result<Run, Error>)
        requires
            old(self)@.wf(),
        ensures
            final(self)@.wf(),
            exists|now: i64|
                #[trigger] run_started(
                    old(self)@,
                    final(self)@,
                    project_id,
                    (NewRun {
                        name: name@,
                        kind: kind@,
                        attribution_mode: "window"@,
                        actor: actor@,
                        agent: text::view_opt_str(agent),
                        command: text::view_opt_str(command),
                        intent: text::view_opt_str(intent),
                        external_id: text::view_opt_str(external_id),
                    }),
                    now,
                    result,
                ),
    {
        let now = clock::unix_now();
        self.start_run_with_attribution(
            project_id,
            name,
            kind,
            "window",
            actor,
            agent,
            command,
            intent,
            external_id,
            now,
        )
    }

    /// Starts a Run now whose changes an integration reports.
    pub fn start_reported_run(
        &mut self,
        project_id: i64,
        name: &str,
        kind: &str,
        actor: &str,
        agent: Option<&str>,
        command: Option<&str>,
        intent: Option<&str>,
        external_id: &str,
    ) -> (result: Result<Run, Error>)
        requires
            old(self)@.wf(),
        ensures
            final(self)@.wf(),
            exists|now: i64|
                #[trigger] run_started(
                    old(self)@,
                    final(self)@,
                    project_id,
                    (NewRun {
                        name: name@,
                        kind: kind@,
                        attribution_mode: "reported"@,
                        actor: actor@,
                        agent: text::view_opt_str(agent),
                        command: text::view_opt_str(command),
                        intent: text::view_opt_str(intent),
                        external_id: Some(external_id@),
                    }),
                    now,
                    result,
                ),
    {
        let now = clock::unix_now();
        self.start_run_with_attribution(
            project_id,
            name,
            kind,
            "reported",
            actor,
            agent,
            command,
            intent,
            Some(external_id),
            now,
        )
    }

    /// Starts a Run of a person now.
    pub fn start_session(&mut self, project_id: i64, name: &str, kind: &str) -> (result: Result<
        Session,
        Error,
    >)
        requires
            old(self)@.wf(),
        ensures
            final(self)@.wf(),
            exists|now: i64|
                #[trigger] run_started(
                    old(self)@,
                    final(self)@,
                    project_id,
                    (NewRun {
                        name: name@,
                        kind: kind@,
                        attribution_mode: "window"@,
                        actor: "human"@,
                        agent: None,
                        command: None,
                        intent: None,
                        external_id: None,
                    }),
                    now,
                    result,
                ),
    {
        self.start_run(project_id, name, kind, "human", None, None, None, None)
    }

    /// Ends a Run at a time.
    pub fn complete_run_at(&mut self, run_id: i64, status: &str, now: i64) -> (result: Result<
        Run,
        Error,
    >)
        requires
            old(self)@.wf(),
        ensures
            final(self)@.wf(),
            run_completed(old(self)@, final(self)@, run_id, status@, now, result),
    {
        let ghost before = self@;
        let ghost keep = is_run(run_id);
        let test = |r: &Run| -> (yes: bool)
            ensures yes == (r.id == run_id)
        { r.id == run_id };
        let at: usize = match rows::position(&self.sessions, test, Ghost(keep)) {
            None => {
                proof {
                    rows::lemma_lookup(before.sessions, keep, None);
                }
                return Err(
                    Error::new(
                        text::cat3(
                            "Run r_",
                            number::signed_text(run_id).as_str(),
                            " not found. Use `undo run list` to see available Runs.",
                        ),
                    ),
                );
            },
            Some(at) => at,
        };
        proof {
            rows::lemma_lookup(before.sessions, keep, Some(at as int));
        }
        let run = self.sessions[at].clone();
        if run.ended_at.is_some() {
            return Ok(run);
        }
        let last: i64 = self.highest_event_id(run.project_id);
        let reported = run.is_reported();
        if let Some(task) = self.get_active_run_intent(run.id)? {
            let ended = self.complete_run_intent_at(
                run.id,
                Some(task.label.as_str()),
                last,
                now,
            );
            proof {
                assert(is_ended_intent(ended->Ok_0, task, last, now) && intents_with_ended(
                    before.intents,
                    self@.intents,
                    task,
                    ended->Ok_0,
                ));
            }
        }
        let ghost tasks = self@;
        assert(tasks == (Tables { intents: tasks.intents, ..before }));
        if reported {
            self.abort_open_boundaries_at(run.id, now);
        }
        let ghost aborted = self@;
        let mut row = run.clone();
        row.ended_at = Some(now);
        row.end_event_id = Some(last);
        row.status = status.to_owned();
        let copy = row.clone();
        self.sessions.set(at, row);
        let ghost ended = self@;
        proof {
            assert(ended.sessions == before.sessions.update(at as int, copy));
            lemma_run_update_wf(aborted, ended, at as int, copy);
        }
        if !reported {
            let project_id: i64 = run.project_id;
            let first: i64 = run.start_event_id;
            let started_at: i64 = run.started_at;
            let test = |e: &FileEvent| -> (yes: bool)
                ensures yes == (e.project_id == project_id && e.id > first && e.id <= last
                    && e.timestamp >= started_at && e.timestamp <= now)
            {
                e.project_id == project_id && e.id > first && e.id <= last && e.timestamp
                    >= started_at && e.timestamp <= now
            };
            let ghost window = in_window(run, now, last);
            let chosen = rows::retain(&self.events, test, Ghost(window));
            self.claim_events(run.id, &chosen);
            proof {
                assert(ended.sessions[at as int].id == run.id);
                assert(has_run(ended.sessions, run.id));
                lemma_claims_extended_refer(ended, self@.claims, run.id, window);
            }
        }
        assert(self@ == (Tables {
            sessions: self@.sessions,
            intents: self@.intents,
            boundaries: self@.boundaries,
            claims: self@.claims,
            ..before
        }));
        assert(runs_with(before.sessions, self@.sessions, run, copy));
        assert(is_ended_run(copy, run, last as int, now, status@));
        assert(reported ==> open_aborted(before.boundaries, self@.boundaries, run.id, now));
        assert(!reported ==> self@.boundaries == before.boundaries);
        Ok(copy)
    }

    /// Ends a Run now.
    pub fn complete_run(&mut self, run_id: i64, status: &str) -> (result: Result<Run, Error>)
        requires
            old(self)@.wf(),
        ensures
            final(self)@.wf(),
            exists|now: i64|
                #[trigger] run_completed(old(self)@, final(self)@, run_id, status@, now, result),
    {
        let now = clock::unix_now();
        self.complete_run_at(run_id, status, now)
    }

    /// Ends the only active Run of a project now, where there is one.
    pub fn stop_active_session(&mut self, project_id: i64) -> (result: Result<Option<Run>, Error>)
        requires
            old(self)@.wf(),
        ensures
            final(self)@.wf(),
            exists|found: Result<Option<Run>, Error>|
                {
                    &&& #[trigger] is_active_session(old(self)@.sessions, project_id, found)
                    &&& match found {
                        Err(e) => final(self)@ == old(self)@ && (result matches Err(x) && x == e),
                        Ok(None) => final(self)@ == old(self)@ && (result matches Ok(x) && x
                            is None),
                        Ok(Some(run)) => exists|now: i64, done: Result<Run, Error>|
                            {
                                &&& #[trigger] run_completed(
                                    old(self)@,
                                    final(self)@,
                                    run.id,
                                    "completed"@,
                                    now,
                                    done,
                                )
                                &&& match done {
                                    Ok(r) => result matches Ok(x) && x == Some(r),
                                    Err(e) => result matches Err(x) && x == e,
                                }
                            },
                    }
                },
    {
        let found = self.get_active_session(project_id);
        match found {
            Err(e) => {
                assert(is_active_session(old(self)@.sessions, project_id, found));
                Err(e)
            },
            Ok(None) => {
                assert(is_active_session(old(self)@.sessions, project_id, found));
                Ok(None)
            },
            Ok(Some(run)) => {
                assert(is_active_session(old(self)@.sessions, project_id, found));
                let now = clock::unix_now();
                let done = self.complete_run_at(run.id, "completed", now);
                assert(run_completed(old(self)@, self@, run.id, "completed"@, now, done));
                match done {
                    Ok(r) => Ok(Some(r)),
                    Err(e) => Err(e),
                }
            },
        }
    }

    /// The events of a Run at a time, the newest first.
    pub fn session_events_at(&self, session: &Session, now: i64) -> (result: Result<
        Vec<FileEvent>,
        Error,
    >)
        requires
            self@.wf(),
        ensures
            result matches Ok(list) && rows::is_listing(
                self@.events,
                Order::Newest,
                events_of(self@, *session, now),
                list@,
            ),
    {
        let ghost t = self@;
        let ghost keep = events_of(t, *session, now);
        let claimed = self.count_run_claimed_events(session.id)?;
        if claimed > 0 || session.is_reported() {
            let claims = &self.claims;
            let id: i64 = session.id;
            let test = |e: &FileEvent| -> (yes: bool)
                ensures yes == crate::db::claims::claims_event(claims@, id, e.id)
            { crate::db::claims::has_claim(claims, id, e.id) };
            return Ok(rows::listing(&self.events, Order::Newest, test, Ghost(keep)));
        }
        let ended_at: i64 = match session.ended_at {
            Some(at) => at,
            None => now,
        };
        let last: i64 = match session.end_event_id {
            Some(id) => id,
            None => self.highest_event_id(session.project_id),
        };
        let project_id: i64 = session.project_id;
        let first: i64 = session.start_event_id;
        let started_at: i64 = session.started_at;
        let test = |e: &FileEvent| -> (yes: bool)
            ensures yes == (e.project_id == project_id && e.id > first && e.id <= last
                && e.timestamp >= started_at && e.timestamp <= ended_at)
        {
            e.project_id == project_id && e.id > first && e.id <= last && e.timestamp >= started_at
                && e.timestamp <= ended_at
        };
        Ok(rows::listing(&self.events, Order::Newest, test, Ghost(keep)))
    }

    /// The events of a Run, the newest first.
    pub fn get_session_events(&self, session: &Session) -> (result: Result<Vec<FileEvent>, Error>)
        requires
            self@.wf(),
        ensures
            result matches Ok(list) && exists|now: i64|
                rows::is_listing(
                    self@.events,
                    Order::Newest,
                    #[trigger] events_of(self@, *session, now),
                    list@,
                ),
    {
        let now = clock::unix_now();
        self.session_events_at(session, now)
    }
}

} // verus!
