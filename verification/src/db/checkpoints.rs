//! Named points in the history of a project.
use vstd::prelude::*;
use vstd::string::*;

use crate::clock;
use crate::db::events::max_id;
use crate::db::runs::{is_active_session, is_run};
use crate::db::{
    foreign_key_text, full_text, has_project, has_run, lemma_distinct_push, lemma_numbered_push,
    public_id_of, same_checkpoint, Database, Sequences, Tables,
};
use crate::error::Error;
use crate::models::{Checkpoint, Run};
use crate::number;
use crate::rows;
use crate::rows::Order;
use crate::text;

verus! {

/// The checkpoints of a project.
pub open spec fn checkpoints_of(project_id: i64) -> spec_fn(Checkpoint) -> bool {
    |c: Checkpoint| c.project_id == project_id
}

/// The checkpoints of a project with a name.
pub open spec fn named(project_id: i64, name: Seq<char>) -> spec_fn(Checkpoint) -> bool {
    |c: Checkpoint| c.project_id == project_id && c.name@ == name
}

/// The checkpoint with an id.
pub open spec fn is_checkpoint(id: i64) -> spec_fn(Checkpoint) -> bool {
    |c: Checkpoint| c.id == id
}

/// The checkpoint that a name means in a Run, or outside Runs in a project.
pub open spec fn takes_name(project_id: i64, run_id: Option<i64>, name: Seq<char>) -> spec_fn(
    Checkpoint,
) -> bool {
    |c: Checkpoint|
        match run_id {
            Some(id) => c.run_id == Some(id) && c.name@ == name,
            None => c.project_id == project_id && c.run_id is None && c.name@ == name,
        }
}

/// Saving a checkpoint at an event: the one with the name again where there is
/// one, else a new row. Whether it is new.
pub open spec fn checkpoint_saved(
    before: Tables,
    after: Tables,
    project_id: i64,
    run_id: Option<i64>,
    name: Seq<char>,
    timestamp: i64,
    intent: Option<Seq<char>>,
    now: i64,
    result: Result<(Checkpoint, bool), Error>,
) -> bool {
    let known = rows::lookup(before.checkpoints, takes_name(project_id, run_id, name));
    if known is Some {
        after == before && (result matches Ok(saved) && saved.0 == known->0 && !saved.1)
    } else if before.last.checkpoints == i64::MAX {
        after == before && (result matches Err(e) && e@ == full_text())
    } else if !has_project(before.projects, project_id) || (run_id is Some && !has_run(
        before.sessions,
        run_id->0,
    )) {
        after == before && (result matches Err(e) && e@ == foreign_key_text())
    } else {
        &&& result matches Ok(saved)
        &&& saved.1
        &&& saved.0.id == before.last.checkpoints + 1
        &&& saved.0.project_id == project_id
        &&& saved.0.run_id == run_id
        &&& saved.0.name@ == name
        &&& saved.0.timestamp == timestamp
        &&& saved.0.event_id == Some(max_id(before.events, project_id) as i64)
        &&& text::view_opt(saved.0.intent) == intent
        &&& saved.0.created_at == now
        &&& after == (Tables {
            checkpoints: before.checkpoints.push(saved.0),
            last: Sequences { checkpoints: saved.0.id, ..before.last },
            ..before
        })
    }
}

/// The checkpoint that a reference names in a project: by its public id, else
/// by its name where only one has it.
pub open spec fn is_checkpoint_by_ref(
    t: Tables,
    project_id: i64,
    reference: Seq<char>,
    result: Result<Option<Checkpoint>, Error>,
) -> bool {
    match public_id_of(reference, "cp_"@) {
        Some(id) => result matches Ok(found) && found == match rows::lookup(
            t.checkpoints,
            is_checkpoint(id as i64),
        ) {
            Some(c) => if c.project_id == project_id {
                Some(c)
            } else {
                None
            },
            None => None,
        },
        None => exists|list: Seq<Checkpoint>|
            {
                &&& #[trigger] rows::is_listing(
                    t.checkpoints,
                    Order::Newest,
                    named(project_id, reference),
                    list,
                )
                &&& if list.len() == 0 {
                    result matches Ok(found) && found is None
                } else if list.len() == 1 {
                    result matches Ok(found) && found == Some(list[0])
                } else {
                    result matches Err(e) && e@ == ambiguous_text(reference, list[0], list[1])
                }
            },
    }
}

/// What is said of a name that several checkpoints have.
pub open spec fn ambiguous_text(name: Seq<char>, first: Checkpoint, second: Checkpoint) -> Seq<char> {
    "checkpoint name '"@ + name + "' is ambiguous ("@ + ("cp_"@ + number::decimal(first.id as int))
        + " and "@ + ("cp_"@ + number::decimal(second.id as int))
        + "). Use a specific checkpoint id, such as "@ + ("cp_"@ + number::decimal(first.id as int))
        + "."@
}

/// The id of a Run, where there is one.
pub open spec fn id_of(run: Option<Run>) -> Option<i64> {
    match run {
        Some(r) => Some(r.id),
        None => None,
    }
}

/// Saving a checkpoint of a project for its active Run.
pub open spec fn checkpoint_created(
    before: Tables,
    after: Tables,
    project_id: i64,
    name: Seq<char>,
    timestamp: i64,
    now: i64,
    result: Result<(), Error>,
) -> bool {
    exists|active: Result<Option<Run>, Error>|
        {
            &&& #[trigger] is_active_session(before.sessions, project_id, active)
            &&& match active {
                Err(e) => after == before && (result matches Err(x) && x == e),
                Ok(run) => exists|saved: Result<(Checkpoint, bool), Error>|
                    {
                        &&& #[trigger] checkpoint_saved(
                            before,
                            after,
                            project_id,
                            id_of(run),
                            name,
                            timestamp,
                            None,
                            now,
                            saved,
                        )
                        &&& match saved {
                            Ok(_) => result is Ok,
                            Err(e) => result matches Err(x) && x == e,
                        }
                    },
            }
        }
}

impl Database {
    /// Saves a checkpoint of a project, with a time of its own, at the latest
    /// event. Whether it is new.
    pub fn save_checkpoint(
        &mut self,
        project_id: i64,
        run_id: Option<i64>,
        name: &str,
        timestamp: i64,
        intent: Option<&str>,
        now: i64,
    ) -> (result: Result<(Checkpoint, bool), Error>)
        requires
            old(self)@.wf(),
        ensures
            final(self)@.wf(),
            checkpoint_saved(
                old(self)@,
                final(self)@,
                project_id,
                run_id,
                name@,
                timestamp,
                text::view_opt_str(intent),
                now,
                result,
            ),
    {
        let ghost before = self@;
        let ghost keep = takes_name(project_id, run_id, name@);
        let test = |c: &Checkpoint| -> (yes: bool)
            ensures yes == takes_name(project_id, run_id, name@)(*c)
        {
            match run_id {
                Some(id) => match c.run_id {
                    Some(r) => r == id && text::same(c.name.as_str(), name),
                    None => false,
                },
                None => c.project_id == project_id && c.run_id.is_none() && text::same(
                    c.name.as_str(),
                    name,
                ),
            }
        };
        let known = rows::find_row(&self.checkpoints, test, Ghost(keep));
        if let Some(c) = known {
            return Ok((c, false));
        }
        if self.last.checkpoints == i64::MAX {
            return Err(Error::new("database or disk is full".to_owned()));
        }
        let mut present = self.project_exists(project_id);
        if let Some(id) = run_id {
            let run = self.get_session_by_id(id)?;
            proof {
                rows::lemma_lookup_kept(before.sessions, is_run(id));
                if run is Some {
                    let k = choose|k: int|
                        0 <= k < before.sessions.len() && before.sessions[k] == run->0;
                    assert(before.sessions[k].id == id);
                } else if has_run(before.sessions, id) {
                    let k = choose|k: int|
                        0 <= k < before.sessions.len() && (#[trigger] before.sessions[k]).id == id;
                    assert(is_run(id)(before.sessions[k]));
                }
            }
            present = present && run.is_some();
        }
        if !present {
            return Err(Error::new("FOREIGN KEY constraint failed".to_owned()));
        }
        let id: i64 = self.last.checkpoints + 1;
        let event_id = self.highest_event_id(project_id);
        let row = Checkpoint {
            id,
            project_id,
            run_id,
            name: name.to_owned(),
            timestamp,
            event_id: Some(event_id),
            intent: text::own_opt(intent),
            created_at: now,
        };
        let copy = row.clone();
        self.checkpoints.push(row);
        self.last.checkpoints = id;
        proof {
            rows::lemma_lookup_kept(before.checkpoints, keep);
            lemma_numbered_push(before.checkpoints, before.last.checkpoints, copy, id);
            assert forall|i: int| 0 <= i < before.checkpoints.len() implies !same_checkpoint(
                #[trigger] before.checkpoints[i],
                copy,
            ) by {
                assert(!keep(before.checkpoints[i]));
            }
            lemma_distinct_push(before.checkpoints, |a, b| same_checkpoint(a, b), copy);
        }
        Ok((copy, true))
    }

    /// Saves a checkpoint of a project for its active Run.
    pub fn create_checkpoint(&mut self, project_id: i64, name: &str, timestamp: i64) -> (result:
        Result<(), Error>)
        requires
            old(self)@.wf(),
        ensures
            final(self)@.wf(),
            exists|now: i64|
                #[trigger] checkpoint_created(
                    old(self)@,
                    final(self)@,
                    project_id,
                    name@,
                    timestamp,
                    now,
                    result,
                ),
    {
        let active = self.get_active_session(project_id);
        assert(is_active_session(old(self)@.sessions, project_id, active));
        let now = clock::unix_now();
        match active {
            Err(e) => {
                let result = Err(e);
                assert(checkpoint_created(
                    old(self)@,
                    self@,
                    project_id,
                    name@,
                    timestamp,
                    now,
                    result,
                ));
                result
            },
            Ok(run) => {
                let run_id = match &run {
                    Some(r) => Some(r.id),
                    None => None,
                };
                let saved = self.save_checkpoint(project_id, run_id, name, timestamp, None, now);
                let ghost kept = saved;
                let result = match saved {
                    Ok(_) => Ok(()),
                    Err(e) => Err(e),
                };
                proof {
                    assert(checkpoint_saved(
                        old(self)@,
                        self@,
                        project_id,
                        id_of(active->Ok_0),
                        name@,
                        timestamp,
                        None,
                        now,
                        kept,
                    ));
                    assert(checkpoint_created(
                        old(self)@,
                        self@,
                        project_id,
                        name@,
                        timestamp,
                        now,
                        result,
                    ));
                }
                result
            },
        }
    }

    /// Saves a checkpoint of a project at the latest event, now.
    pub fn create_checkpoint_now(
        &mut self,
        project_id: i64,
        run_id: Option<i64>,
        name: &str,
        intent: Option<&str>,
    ) -> (result: Result<(Checkpoint, bool), Error>)
        requires
            old(self)@.wf(),
        ensures
            final(self)@.wf(),
            exists|now: i64|
                #[trigger] checkpoint_saved(
                    old(self)@,
                    final(self)@,
                    project_id,
                    run_id,
                    name@,
                    now,
                    text::view_opt_str(intent),
                    now,
                    result,
                ),
    {
        let now = clock::unix_now();
        self.save_checkpoint(project_id, run_id, name, now, intent, now)
    }

    /// The checkpoints of a project, the newest first.
    pub fn list_checkpoints(&self, project_id: i64) -> (result: Result<Vec<Checkpoint>, Error>)
        requires
            self@.wf(),
        ensures
            result matches Ok(list) && rows::is_listing(
                self@.checkpoints,
                Order::Newest,
                checkpoints_of(project_id),
                list@,
            ),
    {
        let test = |c: &Checkpoint| -> (yes: bool)
            ensures yes == (c.project_id == project_id)
        { c.project_id == project_id };
        Ok(rows::listing(&self.checkpoints, Order::Newest, test, Ghost(checkpoints_of(project_id))))
    }

    /// The newest checkpoint of a project with a name.
    pub fn get_checkpoint(&self, project_id: i64, name: &str) -> (result: Result<
        Option<Checkpoint>,
        Error,
    >)
        requires
            self@.wf(),
        ensures
            result matches Ok(found) && rows::is_first(
                self@.checkpoints,
                Order::Newest,
                named(project_id, name@),
                found,
            ),
    {
        let test = |c: &Checkpoint| -> (yes: bool)
            ensures yes == (c.project_id == project_id && c.name@ == name@)
        { c.project_id == project_id && text::same(c.name.as_str(), name) };
        Ok(
            rows::first_row(
                &self.checkpoints,
                Order::Newest,
                test,
                Ghost(named(project_id, name@)),
            ),
        )
    }

    /// The checkpoint that a reference names in a project.
    pub fn get_checkpoint_by_ref(&self, project_id: i64, reference: &str) -> (result: Result<
        Option<Checkpoint>,
        Error,
    >)
        requires
            self@.wf(),
        ensures
            is_checkpoint_by_ref(self@, project_id, reference@, result),
    {
        if let Some(id) = crate::db::parse_public_id(reference, "cp_") {
            let test = |c: &Checkpoint| -> (yes: bool)
                ensures yes == (c.id == id)
            { c.id == id };
            return match rows::find_row(&self.checkpoints, test, Ghost(is_checkpoint(id))) {
                Some(c) => if c.project_id == project_id {
                    Ok(Some(c))
                } else {
                    Ok(None)
                },
                None => Ok(None),
            };
        }
        let test = |c: &Checkpoint| -> (yes: bool)
            ensures yes == (c.project_id == project_id && c.name@ == reference@)
        { c.project_id == project_id && text::same(c.name.as_str(), reference) };
        let list = rows::listing(
            &self.checkpoints,
            Order::Newest,
            test,
            Ghost(named(project_id, reference@)),
        );
        assert(rows::is_listing(
            self@.checkpoints,
            Order::Newest,
            named(project_id, reference@),
            list@,
        ));
        if list.len() == 0 {
            Ok(None)
        } else if list.len() == 1 {
            Ok(Some(list[0].clone()))
        } else {
            let first = list[0].public_id();
            let head = text::cat5(
                "checkpoint name '",
                reference,
                "' is ambiguous (",
                first.as_str(),
                " and ",
            );
            Err(
                Error::new(
                    text::cat5(
                        head.as_str(),
                        list[1].public_id().as_str(),
                        "). Use a specific checkpoint id, such as ",
                        first.as_str(),
                        ".",
                    ),
                ),
            )
        }
    }
}

} // verus!
