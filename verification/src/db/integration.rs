//! Answers to integrations, kept so that a repeated event is answered alike.
use vstd::prelude::*;
use vstd::string::*;

use crate::clock;
use crate::db::runs::is_run;
use crate::db::{
    foreign_key_text, has_run, lemma_distinct_push, same_key, Database, IntegrationEvent, Tables,
};
use crate::error::Error;
use crate::rows;
use crate::text;

verus! {

/// The recorded answer for a key.
pub open spec fn is_answer(key: Seq<char>) -> spec_fn(IntegrationEvent) -> bool {
    |a: IntegrationEvent| a.idempotency_key@ == key
}

/// What is said where a key is used again with another request.
pub open spec fn reused_key_text(key: Seq<char>) -> Seq<char> {
    "idempotency key '"@ + key + "' was already used with a different payload"@
}

/// What is answered to a key with a request: the recorded answer where there is
/// one for this request, an error where it was for another. An answer without a
/// request was recorded before requests were, and fits all.
pub open spec fn is_replay(
    t: Tables,
    key: Seq<char>,
    request_hash: Seq<char>,
    result: Result<Option<String>, Error>,
) -> bool {
    match rows::lookup(t.integration, is_answer(key)) {
        None => result matches Ok(answer) && answer is None,
        Some(a) => if a.request_hash@.len() > 0 && a.request_hash@ != request_hash {
            result matches Err(e) && e@ == reused_key_text(key)
        } else {
            result matches Ok(answer) && text::is_some_text(answer, a.response_json@)
        },
    }
}

/// Whether an answer row is new.
pub open spec fn is_new_answer(
    a: IntegrationEvent,
    key: Seq<char>,
    request_hash: Seq<char>,
    run_id: Option<i64>,
    event_type: Seq<char>,
    response_json: Seq<char>,
    now: i64,
) -> bool {
    &&& a.idempotency_key@ == key
    &&& a.request_hash@ == request_hash
    &&& a.run_id == run_id
    &&& a.event_type@ == event_type
    &&& a.response_json@ == response_json
    &&& a.created_at == now
}

/// Recording an answer at a time.
pub open spec fn answer_recorded(
    before: Tables,
    after: Tables,
    key: Seq<char>,
    request_hash: Seq<char>,
    run_id: Option<i64>,
    event_type: Seq<char>,
    response_json: Seq<char>,
    now: i64,
    result: Result<(), Error>,
) -> bool {
    if rows::lookup(before.integration, is_answer(key)) is Some {
        after == before && (result matches Err(e) && e@
            == "UNIQUE constraint failed: integration_events.idempotency_key"@)
    } else if run_id is Some && !has_run(before.sessions, run_id->0) {
        after == before && (result matches Err(e) && e@ == foreign_key_text())
    } else {
        &&& result is Ok
        &&& after.integration.len() == before.integration.len() + 1
        &&& is_new_answer(
            after.integration.last(),
            key,
            request_hash,
            run_id,
            event_type,
            response_json,
            now,
        )
        &&& after == (Tables {
            integration: before.integration.push(after.integration.last()),
            ..before
        })
    }
}

impl Database {
    /// What was answered to a key with a request.
    pub fn get_integration_response(&self, key: &str, request_hash: &str) -> (result: Result<
        Option<String>,
        Error,
    >)
        ensures
            is_replay(self@, key@, request_hash@, result),
    {
        let ghost keep = is_answer(key@);
        let test = |a: &IntegrationEvent| -> (yes: bool)
            ensures yes == (a.idempotency_key@ == key@)
        { text::same(a.idempotency_key.as_str(), key) };
        match rows::position(&self.integration, test, Ghost(keep)) {
            None => {
                proof {
                    rows::lemma_lookup(self@.integration, keep, None);
                }
                Ok(None)
            },
            Some(at) => {
                proof {
                    rows::lemma_lookup(self@.integration, keep, Some(at as int));
                }
                let stored = &self.integration[at].request_hash;
                if !stored.as_str().is_empty() && !text::same(stored.as_str(), request_hash) {
                    return Err(
                        Error::new(
                            text::cat3(
                                "idempotency key '",
                                key,
                                "' was already used with a different payload",
                            ),
                        ),
                    );
                }
                Ok(Some(self.integration[at].response_json.clone()))
            },
        }
    }

    /// Records the answer to a key with a request at a time.
    pub fn record_integration_response_at(
        &mut self,
        key: &str,
        request_hash: &str,
        run_id: Option<i64>,
        event_type: &str,
        response_json: &str,
        now: i64,
    ) -> (result: Result<(), Error>)
        requires
            old(self)@.wf(),
        ensures
            final(self)@.wf(),
            answer_recorded(
                old(self)@,
                final(self)@,
                key@,
                request_hash@,
                run_id,
                event_type@,
                response_json@,
                now,
                result,
            ),
    {
        let ghost before = self@;
        let ghost keep = is_answer(key@);
        let test = |a: &IntegrationEvent| -> (yes: bool)
            ensures yes == (a.idempotency_key@ == key@)
        { text::same(a.idempotency_key.as_str(), key) };
        let at = rows::position(&self.integration, test, Ghost(keep));
        proof {
            match at {
                None => rows::lemma_lookup(before.integration, keep, None),
                Some(i) => rows::lemma_lookup(before.integration, keep, Some(i as int)),
            }
        }
        if at.is_some() {
            return Err(
                Error::new(
                    "UNIQUE constraint failed: integration_events.idempotency_key".to_owned(),
                ),
            );
        }
        if let Some(id) = run_id {
            let run = self.get_session_by_id(id)?;
            proof {
                rows::lemma_lookup_kept(before.sessions, is_run(id));
                if run is Some {
                    let k = choose|k: int|
                        0 <= k < before.sessions.len() && before.sessions[k] == run->0;
                    assert(before.sessions[k].id == id);
                } else if has_run(before.sessions, id) {
                    let k = choose|k: int|
                        0 <= k < before.sessions.len() && (#[trigger] before.sessions[k]).id == id;
                    assert(is_run(id)(before.sessions[k]));
                }
            }
            if run.is_none() {
                return Err(Error::new("FOREIGN KEY constraint failed".to_owned()));
            }
        }
        let row = IntegrationEvent {
            idempotency_key: key.to_owned(),
            run_id,
            event_type: event_type.to_owned(),
            request_hash: request_hash.to_owned(),
            response_json: response_json.to_owned(),
            created_at: now,
        };
        let ghost added = row;
        self.integration.push(row);
        proof {
            assert forall|i: int| 0 <= i < before.integration.len() implies !same_key(
                #[trigger] before.integration[i],
                added,
            ) by {
                assert(!keep(before.integration[i]));
            }
            lemma_distinct_push(before.integration, |a, b| same_key(a, b), added);
        }
        Ok(())
    }

    /// Records the answer to a key with a request now.
    pub fn record_integration_response(
        &mut self,
        key: &str,
        request_hash: &str,
        run_id: Option<i64>,
        event_type: &str,
        response_json: &str,
    ) -> (result: Result<(), Error>)
        requires
            old(self)@.wf(),
        ensures
            final(self)@.wf(),
            exists|now: i64|
                #[trigger] answer_recorded(
                    old(self)@,
                    final(self)@,
                    key@,
                    request_hash@,
                    run_id,
                    event_type@,
                    response_json@,
                    now,
                    result,
                ),
    {
        let now = clock::unix_now();
        self.record_integration_response_at(
            key,
            request_hash,
            run_id,
            event_type,
            response_json,
            now,
        )
    }
}

} // verus!
