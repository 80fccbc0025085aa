//! The tasks inside a Run.
use vstd::prelude::*;
use vstd::string::*;

use crate::clock;
use crate::db::events::max_id;
use crate::db::runs::is_run;
use crate::db::{
    both_active, full_text, lemma_distinct_push, lemma_numbered_push, lemma_numbered_update,
    Database, Sequences, Tables,
};
use crate::error::Error;
use crate::models::{Run, RunIntent};
use crate::number;
use crate::rows;
use crate::rows::Order;
use crate::text;

verus! {

/// The tasks of a Run.
pub open spec fn of_run(run_id: i64) -> spec_fn(RunIntent) -> bool {
    |t: RunIntent| t.run_id == run_id
}

/// The tasks of a Run that have not ended.
pub open spec fn active_in(run_id: i64) -> spec_fn(RunIntent) -> bool {
    |t: RunIntent| t.run_id == run_id && t.ended_at is None
}

/// The tasks of a Run with a label that have ended.
pub open spec fn ended_as(run_id: i64, label: Seq<char>) -> spec_fn(RunIntent) -> bool {
    |t: RunIntent| t.run_id == run_id && t.label@ == label && t.ended_at is Some
}

/// The task of a Run that has not ended.
pub open spec fn active_intent(intents: Seq<RunIntent>, run_id: i64) -> Option<RunIntent> {
    rows::pick(intents, Order::HighestId, active_in(run_id))
}

/// Whether a task row is new.
pub open spec fn is_new_intent(
    t: RunIntent,
    id: int,
    run_id: i64,
    label: Seq<char>,
    event_id: i64,
    now: i64,
) -> bool {
    &&& t.id == id
    &&& t.run_id == run_id
    &&& t.label@ == label
    &&& t.status@ == "active"@
    &&& t.start_event_id == event_id
    &&& t.end_event_id is None
    &&& t.started_at == now
    &&& t.ended_at is None
}

/// Starting a task in a Run that is there, at an event and a time: the active
/// task again where it has the label, an error where it has another, else a new
/// row.
pub open spec fn intent_started(
    before: Tables,
    after: Tables,
    run_id: i64,
    label: Seq<char>,
    event_id: i64,
    now: i64,
    result: Result<RunIntent, Error>,
) -> bool {
    match active_intent(before.intents, run_id) {
        Some(active) => {
            &&& after == before
            &&& if active.label@ == label {
                result matches Ok(t) && t == active
            } else {
                result matches Err(e) && e@ == "Run r_"@ + number::decimal(run_id as int)
                    + " already has an active intent. Complete it before starting another."@
            }
        },
        None => if before.last.intents == i64::MAX {
            after == before && (result matches Err(e) && e@ == full_text())
        } else {
            &&& result matches Ok(t)
            &&& is_new_intent(t, before.last.intents + 1, run_id, label, event_id, now)
            &&& after == (Tables {
                intents: before.intents.push(t),
                last: Sequences { intents: t.id, ..before.last },
                ..before
            })
        },
    }
}

/// Whether a task row is another one, ended.
pub open spec fn is_ended_intent(t: RunIntent, from: RunIntent, event_id: i64, now: i64) -> bool {
    &&& t.status@ == "completed"@
    &&& t == (RunIntent {
        status: t.status,
        end_event_id: Some(event_id),
        ended_at: Some(now),
        ..from
    })
}

/// Whether the rows of one table are those of another but for one task that has
/// ended.
pub open spec fn intents_with_ended(
    before: Seq<RunIntent>,
    after: Seq<RunIntent>,
    from: RunIntent,
    to: RunIntent,
) -> bool {
    exists|at: int|
        0 <= at < before.len() && before[at] == from && after == #[trigger] before.update(at, to)
}

/// Ending a task of a Run at an event and a time.
pub open spec fn intent_completed(
    before: Tables,
    after: Tables,
    run_id: i64,
    label: Option<Seq<char>>,
    event_id: i64,
    now: i64,
    result: Result<RunIntent, Error>,
) -> bool {
    match active_intent(before.intents, run_id) {
        None => {
            let ended = rows::pick(before.intents, Order::Newest, ended_as(run_id, label->0));
            &&& after == before
            &&& if label is Some && ended is Some {
                result matches Ok(t) && t == ended->0
            } else {
                result matches Err(e) && e@ == "Run r_"@ + number::decimal(run_id as int)
                    + " has no active intent. Send intent_started before intent_completed."@
            }
        },
        Some(active) => if label is Some && label->0 != active.label@ {
            &&& after == before
            &&& result matches Err(e)
            &&& e@ == "Run r_"@ + number::decimal(run_id as int) + " has active intent '"@
                + active.label@ + "', not '"@ + label->0
                + "'. Send the active intent name or omit 'intent'."@
        } else {
            &&& result matches Ok(t)
            &&& is_ended_intent(t, active, event_id, now)
            &&& intents_with_ended(before.intents, after.intents, active, t)
            &&& after == (Tables { intents: after.intents, ..before })
        },
    }
}

/// Whether the Run can take part in a task, and what is said where it cannot.
pub open spec fn run_is_open(before: Tables, run_id: i64, error: Option<Seq<char>>) -> bool {
    match rows::lookup(before.sessions, is_run(run_id)) {
        None => error == Some(
            "Run r_"@ + number::decimal(run_id as int) + " not found."@,
        ),
        Some(run) => if run.ended_at is Some {
            error == Some("Run "@ + ("r_"@ + number::decimal(run.id as int))
                + " is already completed."@)
        } else {
            error is None
        },
    }
}

/// A task that ends leaves the tables well formed.
proof fn lemma_ended_wf(before: Tables, after: Tables, at: int, to: RunIntent)
    requires
        before.wf(),
        0 <= at < before.intents.len(),
        to.id == before.intents[at].id,
        to.run_id == before.intents[at].run_id,
        to.ended_at is Some,
        after == (Tables { intents: before.intents.update(at, to), ..before }),
    ensures
        after.wf(),
{
    lemma_numbered_update(before.intents, before.last.intents, at, to);
    assert forall|i: int, j: int| 0 <= i < j < after.intents.len() implies !both_active(
        #[trigger] after.intents[i],
        #[trigger] after.intents[j],
    ) by {
        assert(!both_active(before.intents[i], before.intents[j]));
    }
}

impl Database {
    /// The tasks of a Run, in the order in which they started.
    pub fn list_run_intents(&self, run_id: i64) -> (result: Result<Vec<RunIntent>, Error>)
        requires
            self@.wf(),
        ensures
            result matches Ok(list) && rows::is_listing(
                self@.intents,
                Order::Oldest,
                of_run(run_id),
                list@,
            ),
    {
        let test = |t: &RunIntent| -> (yes: bool)
            ensures yes == (t.run_id == run_id)
        { t.run_id == run_id };
        Ok(rows::listing(&self.intents, Order::Oldest, test, Ghost(of_run(run_id))))
    }

    /// The task of a Run that has not ended.
    pub fn get_active_run_intent(&self, run_id: i64) -> (result: Result<Option<RunIntent>, Error>)
        requires
            self@.wf(),
        ensures
            result matches Ok(t) && t == active_intent(self@.intents, run_id) && rows::is_first(
                self@.intents,
                Order::HighestId,
                active_in(run_id),
                t,
            ),
    {
        let test = |t: &RunIntent| -> (yes: bool)
            ensures yes == (t.run_id == run_id && t.ended_at is None)
        { t.run_id == run_id && t.ended_at.is_none() };
        Ok(rows::first_row(&self.intents, Order::HighestId, test, Ghost(active_in(run_id))))
    }

    /// Starts a task in a Run, at an event and a time.
    pub fn start_run_intent_at(
        &mut self,
        run_id: i64,
        label: &str,
        event_id: i64,
        timestamp: i64,
    ) -> (result: Result<RunIntent, Error>)
        requires
            old(self)@.wf(),
        ensures
            final(self)@.wf(),
            intent_started(
                old(self)@,
                final(self)@,
                run_id,
                label@,
                event_id,
                timestamp,
                result,
            ),
    {
        let active = self.get_active_run_intent(run_id)?;
        match active {
            Some(active) => {
                if text::same(active.label.as_str(), label) {
                    return Ok(active);
                }
                Err(
                    Error::new(
                        text::cat3(
                            "Run r_",
                            number::signed_text(run_id).as_str(),
                            " already has an active intent. Complete it before starting another.",
                        ),
                    ),
                )
            },
            None => {
                if self.last.intents == i64::MAX {
                    return Err(Error::new("database or disk is full".to_owned()));
                }
                let ghost before = self@;
                let id: i64 = self.last.intents + 1;
                let row = RunIntent {
                    id,
                    run_id,
                    label: label.to_owned(),
                    status: "active".to_owned(),
                    start_event_id: event_id,
                    end_event_id: None,
                    started_at: timestamp,
                    ended_at: None,
                };
                let copy = row.clone();
                self.intents.push(row);
                self.last.intents = id;
                proof {
                    lemma_numbered_push(before.intents, before.last.intents, copy, id);
                    assert forall|i: int| 0 <= i < before.intents.len() implies !both_active(
                        #[trigger] before.intents[i],
                        copy,
                    ) by {
                        assert(!active_in(run_id)(before.intents[i]));
                    }
                    lemma_distinct_push(before.intents, |a, b| both_active(a, b), copy);
                }
                Ok(copy)
            },
        }
    }

    /// Whether tasks can be started and ended in a Run.
    fn open_run(&self, run_id: i64) -> (result: Result<Run, Error>)
        requires
            self@.wf(),
        ensures
            match result {
                Ok(run) => run_is_open(self@, run_id, None) && rows::lookup(
                    self@.sessions,
                    is_run(run_id),
                ) == Some(run),
                Err(e) => run_is_open(self@, run_id, Some(e@)),
            },
    {
        match self.get_session_by_id(run_id)? {
            None => Err(
                Error::new(
                    text::cat3("Run r_", number::signed_text(run_id).as_str(), " not found."),
                ),
            ),
            Some(run) => {
                if run.ended_at.is_some() {
                    return Err(
                        Error::new(
                            text::cat3("Run ", run.public_id().as_str(), " is already completed."),
                        ),
                    );
                }
                Ok(run)
            },
        }
    }

    /// Starts a task in a Run, at its latest event and a time.
    pub fn start_run_intent_now(&mut self, run_id: i64, label: &str, now: i64) -> (result: Result<
        RunIntent,
        Error,
    >)
        requires
            old(self)@.wf(),
        ensures
            final(self)@.wf(),
            task_started(old(self)@, final(self)@, run_id, label@, now, result),
    {
        match self.open_run(run_id) {
            Err(e) => Err(e),
            Ok(run) => {
                let event_id = self.highest_event_id(run.project_id);
                self.start_run_intent_at(run_id, label, event_id, now)
            },
        }
    }

    /// Starts a task in a Run now.
    pub fn start_run_intent(&mut self, run_id: i64, label: &str) -> (result: Result<
        RunIntent,
        Error,
    >)
        requires
            old(self)@.wf(),
        ensures
            final(self)@.wf(),
            exists|now: i64|
                #[trigger] task_started(old(self)@, final(self)@, run_id, label@, now, result),
    {
        let now = clock::unix_now();
        self.start_run_intent_now(run_id, label, now)
    }

    /// Ends the task of a Run, at an event and a time.
    pub fn complete_run_intent_at(
        &mut self,
        run_id: i64,
        label: Option<&str>,
        event_id: i64,
        timestamp: i64,
    ) -> (result: Result<RunIntent, Error>)
        requires
            old(self)@.wf(),
        ensures
            final(self)@.wf(),
            intent_completed(
                old(self)@,
                final(self)@,
                run_id,
                text::view_opt_str(label),
                event_id,
                timestamp,
                result,
            ),
    {
        let ghost before = self@;
        let active = self.get_active_run_intent(run_id)?;
        match active {
            None => {
                if let Some(label) = label {
                    let test = |t: &RunIntent| -> (yes: bool)
                        ensures yes == (t.run_id == run_id && t.label@ == label@ && t.ended_at
                            is Some)
                    {
                        t.run_id == run_id && text::same(t.label.as_str(), label)
                            && t.ended_at.is_some()
                    };
                    let ended = rows::first_row(
                        &self.intents,
                        Order::Newest,
                        test,
                        Ghost(ended_as(run_id, label@)),
                    );
                    if let Some(t) = ended {
                        return Ok(t);
                    }
                }
                Err(
                    Error::new(
                        text::cat3(
                            "Run r_",
                            number::signed_text(run_id).as_str(),
                            " has no active intent. Send intent_started before intent_completed.",
                        ),
                    ),
                )
            },
            Some(active) => {
                if let Some(label) = label {
                    if !text::same(active.label.as_str(), label) {
                        let head = text::cat5(
                            "Run r_",
                            number::signed_text(run_id).as_str(),
                            " has active intent '",
                            active.label.as_str(),
                            "', not '",
                        );
                        return Err(
                            Error::new(
                                text::cat3(
                                    head.as_str(),
                                    label,
                                    "'. Send the active intent name or omit 'intent'.",
                                ),
                            ),
                        );
                    }
                }
                let id: i64 = active.id;
                let test = |t: &RunIntent| -> (yes: bool)
                    ensures yes == (t.id == id)
                { t.id == id };
                let ghost has_id = |t: RunIntent| t.id == id;
                let at = rows::position(&self.intents, test, Ghost(has_id));
                proof {
                    let k = choose|k: int|
                        0 <= k < before.intents.len() && before.intents[k] == active;
                    assert(has_id(before.intents[k]));
                    assert(at is Some);
                    let i = at->0 as int;
                    assert(has_id(before.intents[i]));
                    if i < k {
                        assert(rows::Row::row_id(&before.intents[i]) < rows::Row::row_id(
                            &before.intents[k],
                        ));
                    } else if k < i {
                        assert(rows::Row::row_id(&before.intents[k]) < rows::Row::row_id(
                            &before.intents[i],
                        ));
                    }
                    assert(before.intents[i] == active);
                }
                let i: usize = at.unwrap();
                let mut row = active.clone();
                row.status = "completed".to_owned();
                row.end_event_id = Some(event_id);
                row.ended_at = Some(timestamp);
                let copy = row.clone();
                self.intents.set(i, row);
                proof {
                    assert(self@.intents == before.intents.update(i as int, copy));
                    lemma_ended_wf(before, self@, i as int, copy);
                }
                Ok(copy)
            },
        }
    }

    /// Ends the task of a Run, at its latest event and a time.
    pub fn complete_run_intent_now(
        &mut self,
        run_id: i64,
        label: Option<&str>,
        now: i64,
    ) -> (result: Result<RunIntent, Error>)
        requires
            old(self)@.wf(),
        ensures
            final(self)@.wf(),
            task_completed(
                old(self)@,
                final(self)@,
                run_id,
                text::view_opt_str(label),
                now,
                result,
            ),
    {
        match self.open_run(run_id) {
            Err(e) => Err(e),
            Ok(run) => {
                let event_id = self.highest_event_id(run.project_id);
                self.complete_run_intent_at(run_id, label, event_id, now)
            },
        }
    }

    /// Ends the task of a Run now.
    pub fn complete_run_intent(&mut self, run_id: i64, label: Option<&str>) -> (result: Result<
        RunIntent,
        Error,
    >)
        requires
            old(self)@.wf(),
        ensures
            final(self)@.wf(),
            exists|now: i64|
                #[trigger] task_completed(
                    old(self)@,
                    final(self)@,
                    run_id,
                    text::view_opt_str(label),
                    now,
                    result,
                ),
    {
        let now = clock::unix_now();
        self.complete_run_intent_now(run_id, label, now)
    }
}

/// Starting a task in a Run at a time.
pub open spec fn task_started(
    before: Tables,
    after: Tables,
    run_id: i64,
    label: Seq<char>,
    now: i64,
    result: Result<RunIntent, Error>,
) -> bool {
    if run_is_open(before, run_id, None) {
        let run = rows::lookup(before.sessions, is_run(run_id))->0;
        intent_started(
            before,
            after,
            run_id,
            label,
            max_id(before.events, run.project_id) as i64,
            now,
            result,
        )
    } else {
        after == before && (result matches Err(e) && run_is_open(before, run_id, Some(e@)))
    }
}

/// Ending the task of a Run at a time.
pub open spec fn task_completed(
    before: Tables,
    after: Tables,
    run_id: i64,
    label: Option<Seq<char>>,
    now: i64,
    result: Result<RunIntent, Error>,
) -> bool {
    if run_is_open(before, run_id, None) {
        let run = rows::lookup(before.sessions, is_run(run_id))->0;
        intent_completed(
            before,
            after,
            run_id,
            label,
            max_id(before.events, run.project_id) as i64,
            now,
            result,
        )
    } else {
        after == before && (result matches Err(e) && run_is_open(before, run_id, Some(e@)))
    }
}

} // verus!
