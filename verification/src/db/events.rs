//! Recorded file changes: adding them, and the queries over them.
use vstd::prelude::*;
use vstd::string::*;

use crate::clock;
use crate::db::projects::is_project;
use crate::db::{
    foreign_key_text, full_text, has_event, has_project, has_run, lemma_numbered_push, Claim,
    Database, Sequences, Tables,
};
use crate::error::Error;
use crate::models::{FileEvent, Session, WatchedProject};
use crate::rows;
use crate::rows::{Order, Row};
use crate::text;

verus! {

// ── which events ────────────────────────────────────────────────────

/// The events of a project.
pub open spec fn of_project(project_id: i64) -> spec_fn(FileEvent) -> bool {
    |e: FileEvent| e.project_id == project_id
}

/// The events of a project from a time on.
pub open spec fn since(project_id: i64, from: i64) -> spec_fn(FileEvent) -> bool {
    |e: FileEvent| e.project_id == project_id && e.timestamp >= from
}

/// The events of a project before a time.
pub open spec fn earlier_than(project_id: i64, until: i64) -> spec_fn(FileEvent) -> bool {
    |e: FileEvent| e.project_id == project_id && e.timestamp < until
}

/// The events of a project that are not before a time, and those of others.
pub open spec fn surviving(project_id: i64, until: i64) -> spec_fn(FileEvent) -> bool {
    |e: FileEvent| !(e.project_id == project_id && e.timestamp < until)
}

/// Whether an event is of the path, or moved a file away from it.
pub open spec fn touches(e: FileEvent, path: Seq<char>) -> bool {
    e.path@ == path || text::is_some_text(e.old_path, path)
}

/// Whether an event is of the path, or moved a file away from it.
pub fn event_touches(e: &FileEvent, path: &str) -> (yes: bool)
    ensures
        yes == touches(*e, path@),
{
    text::same(e.path.as_str(), path) || text::is_text(&e.old_path, path)
}

/// Whether an event removed its file.
pub open spec fn is_deletion(e: FileEvent) -> bool {
    e.event_type@ == "DELETED"@
}

/// Whether an event removed its file.
pub fn deletes(e: &FileEvent) -> (yes: bool)
    ensures
        yes == is_deletion(*e),
{
    text::same(e.event_type.as_str(), "DELETED")
}

/// The events at a path.
pub open spec fn at_path(project_id: i64, path: Seq<char>) -> spec_fn(FileEvent) -> bool {
    |e: FileEvent| e.project_id == project_id && e.path@ == path
}

/// The events at a path, up to a time, that left the file in place.
pub open spec fn restorable(project_id: i64, path: Seq<char>, until: i64) -> spec_fn(
    FileEvent,
) -> bool {
    |e: FileEvent|
        e.project_id == project_id && e.path@ == path && e.timestamp <= until && !is_deletion(e)
}

/// The events that touch a path, up to a time.
pub open spec fn touching_until(project_id: i64, path: Seq<char>, until: i64) -> spec_fn(
    FileEvent,
) -> bool {
    |e: FileEvent| e.project_id == project_id && touches(e, path) && e.timestamp <= until
}

/// The events that touch a path, after a time.
pub open spec fn touching_after(project_id: i64, path: Seq<char>, from: i64) -> spec_fn(
    FileEvent,
) -> bool {
    |e: FileEvent| e.project_id == project_id && touches(e, path) && e.timestamp > from
}

/// The events that touch a path, up to an event id.
pub open spec fn touching_upto(project_id: i64, path: Seq<char>, last: i64) -> spec_fn(
    FileEvent,
) -> bool {
    |e: FileEvent| e.project_id == project_id && touches(e, path) && e.id <= last
}

/// The events that touch a path, beyond an event id.
pub open spec fn touching_beyond(project_id: i64, path: Seq<char>, first: i64) -> spec_fn(
    FileEvent,
) -> bool {
    |e: FileEvent| e.project_id == project_id && touches(e, path) && e.id > first
}

/// The events beyond one event id and up to another.
pub open spec fn between(project_id: i64, first: i64, last: i64) -> spec_fn(FileEvent) -> bool {
    |e: FileEvent| e.project_id == project_id && e.id > first && e.id <= last
}

/// The events that touch a path, beyond one event id and up to another.
pub open spec fn touching_between(
    project_id: i64,
    path: Seq<char>,
    first: i64,
    last: i64,
) -> spec_fn(FileEvent) -> bool {
    |e: FileEvent| e.project_id == project_id && touches(e, path) && e.id > first && e.id <= last
}

/// The events at a path that left a file in place before a Run started. The
/// event id decides for those of the very second of the start.
pub open spec fn before_start(session: Session, path: Seq<char>) -> spec_fn(FileEvent) -> bool {
    |e: FileEvent|
        {
            &&& e.project_id == session.project_id
            &&& e.path@ == path
            &&& !is_deletion(e)
            &&& e.timestamp < session.started_at || (e.timestamp == session.started_at && e.id
                <= session.start_event_id)
        }
}

/// The events that removed the file at a path.
pub open spec fn deletions_at(project_id: i64, path: Seq<char>) -> spec_fn(FileEvent) -> bool {
    |e: FileEvent| e.project_id == project_id && e.path@ == path && is_deletion(e)
}

/// The events at a path that left a file in place.
pub open spec fn writes_at(project_id: i64, path: Seq<char>) -> spec_fn(FileEvent) -> bool {
    |e: FileEvent| e.project_id == project_id && e.path@ == path && !is_deletion(e)
}

/// The deletions whose last contents are known.
pub open spec fn recoverable_deletions(project_id: i64) -> spec_fn(FileEvent) -> bool {
    |e: FileEvent| e.project_id == project_id && is_deletion(e) && e.previous_hash is Some
}

/// The highest id among the events of a project, or zero.
pub open spec fn max_id(events: Seq<FileEvent>, project_id: i64) -> int
    decreases events.len(),
{
    if events.len() == 0 {
        0
    } else {
        let before = max_id(events.drop_last(), project_id);
        if events.last().project_id == project_id && events.last().id > before {
            events.last().id as int
        } else {
            before
        }
    }
}

/// The highest id is that of an event of the project, and none is above it.
pub proof fn lemma_max_id(events: Seq<FileEvent>, project_id: i64)
    ensures
        0 <= max_id(events, project_id) <= i64::MAX,
        forall|i: int|
            0 <= i < events.len() && (#[trigger] events[i]).project_id == project_id
                ==> events[i].id <= max_id(events, project_id),
        max_id(events, project_id) > 0 ==> exists|i: int|
            0 <= i < events.len() && (#[trigger] events[i]).project_id == project_id
                && events[i].id == max_id(events, project_id),
    decreases events.len(),
{
    if events.len() > 0 {
        let front = events.drop_last();
        lemma_max_id(front, project_id);
        assert forall|i: int|
            0 <= i < events.len() && (#[trigger] events[i]).project_id
                == project_id implies events[i].id <= max_id(events, project_id) by {
            if i < front.len() {
                assert(front[i] == events[i]);
            }
        }
        if max_id(events, project_id) > 0 {
            if max_id(events, project_id) == max_id(front, project_id) {
                let i = choose|i: int|
                    0 <= i < front.len() && (#[trigger] front[i]).project_id == project_id
                        && front[i].id == max_id(front, project_id);
                assert(events[i] == front[i]);
            } else {
                assert(events[events.len() - 1].project_id == project_id);
            }
        }
    }
}

// ── adding events ───────────────────────────────────────────────────

/// A new event, as text.
pub struct NewEvent {
    pub path: Seq<char>,
    pub event_type: Seq<char>,
    pub current_hash: Option<Seq<char>>,
    pub previous_hash: Option<Seq<char>>,
    pub snapshot_path: Option<Seq<char>>,
    pub old_path: Option<Seq<char>>,
    pub file_size: Option<i64>,
}

/// Whether an event row holds what was given.
pub open spec fn is_event(e: FileEvent, id: int, project_id: i64, at: i64, new: NewEvent) -> bool {
    &&& e.id == id
    &&& e.project_id == project_id
    &&& e.timestamp == at
    &&& e.path@ == new.path
    &&& e.event_type@ == new.event_type
    &&& text::view_opt(e.current_hash) == new.current_hash
    &&& text::view_opt(e.previous_hash) == new.previous_hash
    &&& text::view_opt(e.snapshot_path) == new.snapshot_path
    &&& text::view_opt(e.old_path) == new.old_path
    &&& e.file_size == new.file_size
}

/// Adding an event at a time: it gets the next id, unless there is none left or
/// the project does not exist.
pub open spec fn event_added(
    before: Tables,
    after: Tables,
    project_id: i64,
    at: i64,
    new: NewEvent,
    result: Result<(), Error>,
) -> bool {
    if before.last.events == i64::MAX {
        after == before && (result matches Err(e) && e@ == full_text())
    } else if !has_project(before.projects, project_id) {
        after == before && (result matches Err(e) && e@ == foreign_key_text())
    } else {
        &&& result is Ok
        &&& after.events.len() == before.events.len() + 1
        &&& is_event(after.events.last(), before.last.events + 1, project_id, at, new)
        &&& after == (Tables {
            events: before.events.push(after.events.last()),
            last: Sequences { events: after.events.last().id, ..before.last },
            ..before
        })
    }
}

/// An added event keeps the tables well formed.
proof fn lemma_event_added_wf(before: Tables, after: Tables, row: FileEvent)
    requires
        before.wf(),
        before.last.events < i64::MAX,
        row.id == before.last.events + 1,
        after == (Tables {
            events: before.events.push(row),
            last: Sequences { events: row.id, ..before.last },
            ..before
        }),
    ensures
        after.wf(),
{
    lemma_numbered_push(before.events, before.last.events, row, row.id);
    assert forall|i: int| 0 <= i < after.claims.len() implies has_run(
        after.sessions,
        (#[trigger] after.claims[i]).session_id,
    ) && has_event(after.events, after.claims[i].event_id) by {
        assert(has_event(before.events, before.claims[i].event_id));
        let k = choose|k: int|
            0 <= k < before.events.len() && (#[trigger] before.events[k]).id
                == before.claims[i].event_id;
        assert(after.events[k].id == after.claims[i].event_id);
    }
}

impl Database {
    /// Whether there is a project with the id.
    pub fn project_exists(&self, project_id: i64) -> (yes: bool)
        ensures
            yes == has_project(self@.projects, project_id),
    {
        let test = |p: &WatchedProject| -> (yes: bool)
            ensures yes == (p.id == project_id)
        { p.id == project_id };
        let at = rows::position(&self.projects, test, Ghost(is_project(project_id)));
        proof {
            if has_project(self@.projects, project_id) {
                let i = choose|i: int|
                    0 <= i < self@.projects.len() && (#[trigger] self@.projects[i]).id
                        == project_id;
                assert(is_project(project_id)(self@.projects[i]));
            }
            if at is Some {
                assert(is_project(project_id)(self@.projects[at->0 as int]));
            }
        }
        at.is_some()
    }

    /// Adds an event at a time.
    pub fn add_event(
        &mut self,
        project_id: i64,
        at: i64,
        path: &str,
        event_type: &str,
        current_hash: Option<&str>,
        previous_hash: Option<&str>,
        snapshot_path: Option<&str>,
        old_path: Option<&str>,
        file_size: Option<i64>,
    ) -> (result: Result<(), Error>)
        requires
            old(self)@.wf(),
        ensures
            final(self)@.wf(),
            event_added(
                old(self)@,
                final(self)@,
                project_id,
                at,
                (NewEvent {
                    path: path@,
                    event_type: event_type@,
                    current_hash: text::view_opt_str(current_hash),
                    previous_hash: text::view_opt_str(previous_hash),
                    snapshot_path: text::view_opt_str(snapshot_path),
                    old_path: text::view_opt_str(old_path),
                    file_size,
                }),
                result,
            ),
    {
        if self.last.events == i64::MAX {
            return Err(Error::new("database or disk is full".to_owned()));
        }
        if !self.project_exists(project_id) {
            return Err(Error::new("FOREIGN KEY constraint failed".to_owned()));
        }
        let id: i64 = self.last.events + 1;
        let row = FileEvent {
            id,
            project_id,
            timestamp: at,
            path: path.to_owned(),
            event_type: event_type.to_owned(),
            current_hash: text::own_opt(current_hash),
            previous_hash: text::own_opt(previous_hash),
            snapshot_path: text::own_opt(snapshot_path),
            old_path: text::own_opt(old_path),
            file_size,
        };
        let ghost before = self@;
        let ghost added = row;
        self.events.push(row);
        self.last.events = id;
        proof {
            lemma_event_added_wf(before, self@, added);
        }
        Ok(())
    }

    /// Adds an event now.
    pub fn insert_event(
        &mut self,
        project_id: i64,
        path: &str,
        event_type: &str,
        current_hash: Option<&str>,
        previous_hash: Option<&str>,
        snapshot_path: Option<&str>,
        old_path: Option<&str>,
        file_size: Option<i64>,
    ) -> (result: Result<(), Error>)
        requires
            old(self)@.wf(),
        ensures
            final(self)@.wf(),
            exists|now: i64|
                #[trigger] event_added(
                    old(self)@,
                    final(self)@,
                    project_id,
                    now,
                    (NewEvent {
                        path: path@,
                        event_type: event_type@,
                        current_hash: text::view_opt_str(current_hash),
                        previous_hash: text::view_opt_str(previous_hash),
                        snapshot_path: text::view_opt_str(snapshot_path),
                        old_path: text::view_opt_str(old_path),
                        file_size,
                    }),
                    result,
                ),
    {
        let now = clock::unix_now();
        self.add_event(
            project_id,
            now,
            path,
            event_type,
            current_hash,
            previous_hash,
            snapshot_path,
            old_path,
            file_size,
        )
    }

    /// Adds an event without contents at a time.
    pub fn insert_event_at(
        &mut self,
        project_id: i64,
        path: &str,
        event_type: &str,
        ts: i64,
    ) -> (result: Result<(), Error>)
        requires
            old(self)@.wf(),
        ensures
            final(self)@.wf(),
            event_added(
                old(self)@,
                final(self)@,
                project_id,
                ts,
                (NewEvent {
                    path: path@,
                    event_type: event_type@,
                    current_hash: None,
                    previous_hash: None,
                    snapshot_path: None,
                    old_path: None,
                    file_size: None,
                }),
                result,
            ),
    {
        self.add_event(project_id, ts, path, event_type, None, None, None, None, None)
    }

    // ── queries ─────────────────────────────────────────────────────

    /// The newest events of a project, at most `limit`.
    pub fn get_timeline(&self, project_id: i64, limit: usize) -> (result: Result<
        Vec<FileEvent>,
        Error,
    >)
        requires
            self@.wf(),
        ensures
            result matches Ok(list) && rows::is_limited(
                self@.events,
                Order::Newest,
                of_project(project_id),
                limit as int,
                list@,
            ),
    {
        let test = |e: &FileEvent| -> (yes: bool)
            ensures yes == (e.project_id == project_id)
        { e.project_id == project_id };
        Ok(rows::limited(&self.events, Order::Newest, limit, test, Ghost(of_project(project_id))))
    }

    /// The events of a project from a time on, the newest first.
    pub fn get_events_since(&self, project_id: i64, since_timestamp: i64) -> (result: Result<
        Vec<FileEvent>,
        Error,
    >)
        requires
            self@.wf(),
        ensures
            result matches Ok(list) && rows::is_listing(
                self@.events,
                Order::Newest,
                since(project_id, since_timestamp),
                list@,
            ),
    {
        let test = |e: &FileEvent| -> (yes: bool)
            ensures yes == (e.project_id == project_id && e.timestamp >= since_timestamp)
        { e.project_id == project_id && e.timestamp >= since_timestamp };
        Ok(
            rows::listing(
                &self.events,
                Order::Newest,
                test,
                Ghost(since(project_id, since_timestamp)),
            ),
        )
    }

    /// The newest events of a project from a time on, at most `limit`.
    pub fn get_events_since_limited(
        &self,
        project_id: i64,
        since_timestamp: i64,
        limit: usize,
    ) -> (result: Result<Vec<FileEvent>, Error>)
        requires
            self@.wf(),
        ensures
            result matches Ok(list) && rows::is_limited(
                self@.events,
                Order::Newest,
                since(project_id, since_timestamp),
                limit as int,
                list@,
            ),
    {
        let test = |e: &FileEvent| -> (yes: bool)
            ensures yes == (e.project_id == project_id && e.timestamp >= since_timestamp)
        { e.project_id == project_id && e.timestamp >= since_timestamp };
        Ok(
            rows::limited(
                &self.events,
                Order::Newest,
                limit,
                test,
                Ghost(since(project_id, since_timestamp)),
            ),
        )
    }

    /// The newest event at a path.
    pub fn get_latest_event(&self, project_id: i64, path: &str) -> (result: Result<
        Option<FileEvent>,
        Error,
    >)
        requires
            self@.wf(),
        ensures
            result matches Ok(event) && rows::is_first(
                self@.events,
                Order::Newest,
                at_path(project_id, path@),
                event,
            ),
    {
        let test = |e: &FileEvent| -> (yes: bool)
            ensures yes == (e.project_id == project_id && e.path@ == path@)
        { e.project_id == project_id && text::same(e.path.as_str(), path) };
        Ok(
            rows::first_row(&self.events, Order::Newest, test, Ghost(at_path(project_id, path@))),
        )
    }

    /// The newest event at a path, up to a time, that left the file in place.
    pub fn get_event_at_time(&self, project_id: i64, path: &str, before_ts: i64) -> (result: Result<
        Option<FileEvent>,
        Error,
    >)
        requires
            self@.wf(),
        ensures
            result matches Ok(event) && rows::is_first(
                self@.events,
                Order::Newest,
                restorable(project_id, path@, before_ts),
                event,
            ),
    {
        let test = |e: &FileEvent| -> (yes: bool)
            ensures yes == (e.project_id == project_id && e.path@ == path@ && e.timestamp
                <= before_ts && !is_deletion(*e))
        {
            e.project_id == project_id && text::same(e.path.as_str(), path) && e.timestamp
                <= before_ts && !deletes(e)
        };
        Ok(
            rows::first_row(
                &self.events,
                Order::Newest,
                test,
                Ghost(restorable(project_id, path@, before_ts)),
            ),
        )
    }

    /// The newest event, up to a time, that settles whether the path existed.
    /// Unlike [`Database::get_event_at_time`], deletions and moves away count,
    /// because absence is a state that can be recovered.
    pub fn get_path_state_event_at_time(
        &self,
        project_id: i64,
        path: &str,
        before_ts: i64,
    ) -> (result: Result<Option<FileEvent>, Error>)
        requires
            self@.wf(),
        ensures
            result matches Ok(event) && rows::is_first(
                self@.events,
                Order::Newest,
                touching_until(project_id, path@, before_ts),
                event,
            ),
    {
        let test = |e: &FileEvent| -> (yes: bool)
            ensures yes == (e.project_id == project_id && touches(*e, path@) && e.timestamp
                <= before_ts)
        { e.project_id == project_id && event_touches(e, path) && e.timestamp <= before_ts };
        Ok(
            rows::first_row(
                &self.events,
                Order::Newest,
                test,
                Ghost(touching_until(project_id, path@, before_ts)),
            ),
        )
    }

    /// The last event, up to an event id, that settles whether the path existed.
    pub fn get_path_state_event_at_id(
        &self,
        project_id: i64,
        path: &str,
        event_id: i64,
    ) -> (result: Result<Option<FileEvent>, Error>)
        requires
            self@.wf(),
        ensures
            result matches Ok(event) && rows::is_first(
                self@.events,
                Order::HighestId,
                touching_upto(project_id, path@, event_id),
                event,
            ),
    {
        let test = |e: &FileEvent| -> (yes: bool)
            ensures yes == (e.project_id == project_id && touches(*e, path@) && e.id <= event_id)
        { e.project_id == project_id && event_touches(e, path) && e.id <= event_id };
        Ok(
            rows::first_row(
                &self.events,
                Order::HighestId,
                test,
                Ghost(touching_upto(project_id, path@, event_id)),
            ),
        )
    }

    /// The first event after a time that changed whether the path existed or
    /// what it contained.
    pub fn get_first_path_event_after(
        &self,
        project_id: i64,
        path: &str,
        after_ts: i64,
    ) -> (result: Result<Option<FileEvent>, Error>)
        requires
            self@.wf(),
        ensures
            result matches Ok(event) && rows::is_first(
                self@.events,
                Order::Oldest,
                touching_after(project_id, path@, after_ts),
                event,
            ),
    {
        let test = |e: &FileEvent| -> (yes: bool)
            ensures yes == (e.project_id == project_id && touches(*e, path@) && e.timestamp
                > after_ts)
        { e.project_id == project_id && event_touches(e, path) && e.timestamp > after_ts };
        Ok(
            rows::first_row(
                &self.events,
                Order::Oldest,
                test,
                Ghost(touching_after(project_id, path@, after_ts)),
            ),
        )
    }

    /// The first event beyond an event id that changed whether the path existed
    /// or what it contained.
    pub fn get_first_path_event_after_id(
        &self,
        project_id: i64,
        path: &str,
        event_id: i64,
    ) -> (result: Result<Option<FileEvent>, Error>)
        requires
            self@.wf(),
        ensures
            result matches Ok(event) && rows::is_first(
                self@.events,
                Order::LowestId,
                touching_beyond(project_id, path@, event_id),
                event,
            ),
    {
        let test = |e: &FileEvent| -> (yes: bool)
            ensures yes == (e.project_id == project_id && touches(*e, path@) && e.id > event_id)
        { e.project_id == project_id && event_touches(e, path) && e.id > event_id };
        Ok(
            rows::first_row(
                &self.events,
                Order::LowestId,
                test,
                Ghost(touching_beyond(project_id, path@, event_id)),
            ),
        )
    }

    /// The newest event at the start of a Run that left the file in place. The
    /// event id decides for events of the very second of the start.
    pub fn get_event_at_session_start(&self, session: &Session, path: &str) -> (result: Result<
        Option<FileEvent>,
        Error,
    >)
        requires
            self@.wf(),
        ensures
            result matches Ok(event) && rows::is_first(
                self@.events,
                Order::Newest,
                before_start(*session, path@),
                event,
            ),
    {
        let test = |e: &FileEvent| -> (yes: bool)
            ensures yes == before_start(*session, path@)(*e)
        {
            e.project_id == session.project_id && text::same(e.path.as_str(), path) && !deletes(e)
                && (e.timestamp < session.started_at || (e.timestamp == session.started_at && e.id
                <= session.start_event_id))
        };
        Ok(
            rows::first_row(
                &self.events,
                Order::Newest,
                test,
                Ghost(before_start(*session, path@)),
            ),
        )
    }

    /// The first event of a Run that touches the path.
    pub fn get_first_path_event_in_session(&self, session: &Session, path: &str) -> (result: Result<
        Option<FileEvent>,
        Error,
    >)
        requires
            self@.wf(),
        ensures
            result matches Ok(event) && rows::is_first(
                self@.events,
                Order::LowestId,
                touching_between(
                    session.project_id,
                    path@,
                    session.start_event_id,
                    match session.end_event_id {
                        Some(id) => id,
                        None => max_id(self@.events, session.project_id) as i64,
                    },
                ),
                event,
            ),
    {
        let last: i64 = match session.end_event_id {
            Some(id) => id,
            None => self.highest_event_id(session.project_id),
        };
        let project_id: i64 = session.project_id;
        let first: i64 = session.start_event_id;
        let test = |e: &FileEvent| -> (yes: bool)
            ensures yes == (e.project_id == project_id && touches(*e, path@) && e.id > first
                && e.id <= last)
        { e.project_id == project_id && event_touches(e, path) && e.id > first && e.id <= last };
        Ok(
            rows::first_row(
                &self.events,
                Order::LowestId,
                test,
                Ghost(touching_between(project_id, path@, first, last)),
            ),
        )
    }

    /// The newest deletion of the file at a path.
    pub fn get_latest_deleted_event(&self, project_id: i64, path: &str) -> (result: Result<
        Option<FileEvent>,
        Error,
    >)
        requires
            self@.wf(),
        ensures
            result matches Ok(event) && rows::is_first(
                self@.events,
                Order::Newest,
                deletions_at(project_id, path@),
                event,
            ),
    {
        let test = |e: &FileEvent| -> (yes: bool)
            ensures yes == (e.project_id == project_id && e.path@ == path@ && is_deletion(*e))
        { e.project_id == project_id && text::same(e.path.as_str(), path) && deletes(e) };
        Ok(
            rows::first_row(
                &self.events,
                Order::Newest,
                test,
                Ghost(deletions_at(project_id, path@)),
            ),
        )
    }

    /// The oldest event at a path that left a file in place.
    pub fn get_oldest_event(&self, project_id: i64, path: &str) -> (result: Result<
        Option<FileEvent>,
        Error,
    >)
        requires
            self@.wf(),
        ensures
            result matches Ok(event) && rows::is_first(
                self@.events,
                Order::Oldest,
                writes_at(project_id, path@),
                event,
            ),
    {
        let test = |e: &FileEvent| -> (yes: bool)
            ensures yes == (e.project_id == project_id && e.path@ == path@ && !is_deletion(*e))
        { e.project_id == project_id && text::same(e.path.as_str(), path) && !deletes(e) };
        Ok(
            rows::first_row(
                &self.events,
                Order::Oldest,
                test,
                Ghost(writes_at(project_id, path@)),
            ),
        )
    }

    /// How many events a project has.
    pub fn count_events(&self, project_id: i64) -> (result: Result<usize, Error>)
        ensures
            result matches Ok(n) && n == rows::kept(self@.events, of_project(project_id)),
    {
        let test = |e: &FileEvent| -> (yes: bool)
            ensures yes == (e.project_id == project_id)
        { e.project_id == project_id };
        Ok(rows::count_rows(&self.events, test, Ghost(of_project(project_id))))
    }

    /// The times of the oldest and the newest event of a project.
    pub fn event_time_bounds(&self, project_id: i64) -> (result: Result<
        (Option<i64>, Option<i64>),
        Error,
    >)
        requires
            self@.wf(),
        ensures
            result matches Ok(bounds) && is_time_bounds(self@.events, project_id, bounds),
    {
        let test = |e: &FileEvent| -> (yes: bool)
            ensures yes == (e.project_id == project_id)
        { e.project_id == project_id };
        let first = rows::first_row(
            &self.events,
            Order::Oldest,
            test,
            Ghost(of_project(project_id)),
        );
        let test = |e: &FileEvent| -> (yes: bool)
            ensures yes == (e.project_id == project_id)
        { e.project_id == project_id };
        let last = rows::first_row(&self.events, Order::Newest, test, Ghost(of_project(project_id)));
        match (first, last) {
            (Some(f), Some(l)) => Ok((Some(f.timestamp), Some(l.timestamp))),
            _ => Ok((None, None)),
        }
    }

    /// The newest deletions whose last contents are known, at most `limit`.
    pub fn get_deleted_events(&self, project_id: i64, limit: usize) -> (result: Result<
        Vec<FileEvent>,
        Error,
    >)
        requires
            self@.wf(),
        ensures
            result matches Ok(list) && rows::is_limited(
                self@.events,
                Order::Newest,
                recoverable_deletions(project_id),
                limit as int,
                list@,
            ),
    {
        let test = |e: &FileEvent| -> (yes: bool)
            ensures yes == (e.project_id == project_id && is_deletion(*e) && e.previous_hash
                is Some)
        { e.project_id == project_id && deletes(e) && e.previous_hash.is_some() };
        Ok(
            rows::limited(
                &self.events,
                Order::Newest,
                limit,
                test,
                Ghost(recoverable_deletions(project_id)),
            ),
        )
    }

    /// The events beyond one event id and up to another, by growing id.
    pub fn get_events_between_ids(
        &self,
        project_id: i64,
        start_event_id: i64,
        end_event_id: i64,
    ) -> (result: Result<Vec<FileEvent>, Error>)
        requires
            self@.wf(),
        ensures
            result matches Ok(list) && rows::is_listing(
                self@.events,
                Order::LowestId,
                between(project_id, start_event_id, end_event_id),
                list@,
            ),
    {
        let test = |e: &FileEvent| -> (yes: bool)
            ensures yes == (e.project_id == project_id && e.id > start_event_id && e.id
                <= end_event_id)
        { e.project_id == project_id && e.id > start_event_id && e.id <= end_event_id };
        Ok(
            rows::listing(
                &self.events,
                Order::LowestId,
                test,
                Ghost(between(project_id, start_event_id, end_event_id)),
            ),
        )
    }

    /// The highest id among the events of a project, or zero.
    pub fn highest_event_id(&self, project_id: i64) -> (id: i64)
        ensures
            id == max_id(self@.events, project_id),
    {
        let mut best: i64 = 0;
        let mut i: usize = 0;
        while i < self.events.len()
            invariant
                i <= self.events.len(),
                best == max_id(self.events@.take(i as int), project_id),
            decreases self.events.len() - i,
        {
            proof {
                assert(self.events@.take(i + 1).drop_last() =~= self.events@.take(i as int));
            }
            if self.events[i].project_id == project_id && self.events[i].id > best {
                best = self.events[i].id;
            }
            i += 1;
        }
        proof {
            assert(self.events@.take(i as int) =~= self.events@);
        }
        best
    }

    /// The highest id among the events of a project, or zero.
    pub fn max_event_id(&self, project_id: i64) -> (result: Result<i64, Error>)
        ensures
            result matches Ok(id) && id == max_id(self@.events, project_id),
    {
        Ok(self.highest_event_id(project_id))
    }

    // ── pruning ─────────────────────────────────────────────────────

    /// How many events of a project are before a time.
    pub fn count_events_before(&self, project_id: i64, before_ts: i64) -> (result: Result<
        u64,
        Error,
    >)
        ensures
            result matches Ok(n) && n == rows::kept(
                self@.events,
                earlier_than(project_id, before_ts),
            ),
    {
        let test = |e: &FileEvent| -> (yes: bool)
            ensures yes == (e.project_id == project_id && e.timestamp < before_ts)
        { e.project_id == project_id && e.timestamp < before_ts };
        let count = rows::count_rows(
            &self.events,
            test,
            Ghost(earlier_than(project_id, before_ts)),
        );
        Ok(count as u64)
    }

    /// Removes the events of a project before a time, and the claims on them.
    /// How many events were removed.
    pub fn delete_events_before(&mut self, project_id: i64, before_ts: i64) -> (result: Result<
        u64,
        Error,
    >)
        requires
            old(self)@.wf(),
        ensures
            final(self)@.wf(),
            result matches Ok(n) && n == rows::kept(
                old(self)@.events,
                earlier_than(project_id, before_ts),
            ),
            final(self)@ == events_pruned(old(self)@, project_id, before_ts),
    {
        let count = self.count_events_before(project_id, before_ts);
        let ghost before = self@;
        let ghost keep = surviving(project_id, before_ts);
        let test = |e: &FileEvent| -> (yes: bool)
            ensures yes == (!(e.project_id == project_id && e.timestamp < before_ts))
        { !(e.project_id == project_id && e.timestamp < before_ts) };
        let events = rows::retain(&self.events, test, Ghost(keep));
        let mut claims: Vec<Claim> = Vec::new();
        let mut i: usize = 0;
        while i < self.claims.len()
            invariant
                i <= self.claims.len(),
                self@ == before,
                claims@ == rows::retained(self.claims@.take(i as int), claims_on(events@)),
            decreases self.claims.len() - i,
        {
            proof {
                assert(self.claims@.take(i + 1).drop_last() =~= self.claims@.take(i as int));
            }
            if event_listed(&events, self.claims[i].event_id) {
                claims.push(self.claims[i]);
            }
            i += 1;
        }
        proof {
            assert(self.claims@.take(i as int) =~= self.claims@);
        }
        self.events = events;
        self.claims = claims;
        proof {
            lemma_pruned_wf(before, project_id, before_ts);
            assert(self@ =~= events_pruned(before, project_id, before_ts));
        }
        count
    }
}

/// Whether bounds are the times of the oldest and the newest event.
pub open spec fn is_time_bounds(
    events: Seq<FileEvent>,
    project_id: i64,
    bounds: (Option<i64>, Option<i64>),
) -> bool {
    match bounds {
        (Some(low), Some(high)) => {
            &&& exists|i: int|
                0 <= i < events.len() && (#[trigger] events[i]).project_id == project_id
                    && events[i].timestamp == low
            &&& exists|i: int|
                0 <= i < events.len() && (#[trigger] events[i]).project_id == project_id
                    && events[i].timestamp == high
            &&& forall|i: int|
                0 <= i < events.len() && (#[trigger] events[i]).project_id == project_id ==> low
                    <= events[i].timestamp <= high
        },
        (None, None) => forall|i: int|
            0 <= i < events.len() ==> (#[trigger] events[i]).project_id != project_id,
        _ => false,
    }
}

/// The claims on events that are there.
pub open spec fn claims_on(events: Seq<FileEvent>) -> spec_fn(Claim) -> bool {
    |c: Claim| has_event(events, c.event_id)
}

/// The tables without the events of a project before a time, and without the
/// claims on them.
pub open spec fn events_pruned(before: Tables, project_id: i64, until: i64) -> Tables {
    let events = rows::retained(before.events, surviving(project_id, until));
    Tables { events, claims: rows::retained(before.claims, claims_on(events)), ..before }
}

/// Whether some event has the id.
fn event_listed(events: &Vec<FileEvent>, id: i64) -> (yes: bool)
    ensures
        yes == has_event(events@, id),
{
    let mut i: usize = 0;
    while i < events.len()
        invariant
            i <= events.len(),
            forall|k: int| 0 <= k < i ==> (#[trigger] events@[k]).id != id,
        decreases events.len() - i,
    {
        if events[i].id == id {
            return true;
        }
        i += 1;
    }
    false
}

/// Pruning keeps the tables well formed.
proof fn lemma_pruned_wf(before: Tables, project_id: i64, until: i64)
    requires
        before.wf(),
    ensures
        events_pruned(before, project_id, until).wf(),
{
    let keep = surviving(project_id, until);
    let after = events_pruned(before, project_id, until);
    rows::lemma_retained_contains(before.events, keep);
    rows::lemma_retained_pairs(
        before.events,
        keep,
        |a: FileEvent, b: FileEvent| a.row_id() < b.row_id(),
    );
    assert forall|i: int, j: int| 0 <= i < j < after.events.len() implies (
    #[trigger] after.events[i]).row_id() < (#[trigger] after.events[j]).row_id() by {
        let relation = |a: FileEvent, b: FileEvent| a.row_id() < b.row_id();
        assert(relation(after.events[i], after.events[j]));
    }
    assert forall|i: int| 0 <= i < after.events.len() implies 0 < (
    #[trigger] after.events[i]).row_id() <= after.last.events by {
        assert(after.events.contains(after.events[i]));
        let k = choose|k: int| 0 <= k < before.events.len() && before.events[k] == after.events[i];
        assert(0 < before.events[k].row_id());
    }
    let stays = claims_on(after.events);
    rows::lemma_retained_contains(before.claims, stays);
    rows::lemma_retained_pairs(before.claims, stays, |a: Claim, b: Claim| a != b);
    assert forall|i: int, j: int|
        0 <= i < after.claims.len() && 0 <= j < after.claims.len() && i
            != j implies after.claims[i] != after.claims[j] by {
        let differ = |a: Claim, b: Claim| a != b;
        if i < j {
            assert(differ(after.claims[i], after.claims[j]));
        } else {
            assert(differ(after.claims[j], after.claims[i]));
        }
    }
    assert forall|i: int| 0 <= i < after.claims.len() implies has_run(
        after.sessions,
        (#[trigger] after.claims[i]).session_id,
    ) && has_event(after.events, after.claims[i].event_id) by {
        assert(after.claims.contains(after.claims[i]));
        let k = choose|k: int| 0 <= k < before.claims.len() && before.claims[k] == after.claims[i];
        assert(has_run(before.sessions, before.claims[k].session_id));
    }
}

} // verus!
