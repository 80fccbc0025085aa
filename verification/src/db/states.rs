//! The latest known state of each file, and the saved contents still in use.
use vstd::prelude::*;
use vstd::string::*;

use crate::clock;
use crate::db::events::{events_pruned, surviving};
use crate::db::{
    distinct, foreign_key_text, full_text, has_project, lemma_distinct_push, lemma_numbered_push,
    lemma_numbered_update, same_file, Database, Sequences, Tables,
};
use crate::error::Error;
use crate::models::{FileEvent, FileState, Recovery, RecoveryEntry};
use crate::rows;
use crate::sorted;
use crate::text;

verus! {

/// The state of a file.
pub open spec fn is_file(project_id: i64, path: Seq<char>) -> spec_fn(FileState) -> bool {
    |s: FileState| s.project_id == project_id && s.path@ == path
}

/// The states of a project.
pub open spec fn in_project(project_id: i64) -> spec_fn(FileState) -> bool {
    |s: FileState| s.project_id == project_id
}

/// Whether a state row holds what was given.
pub open spec fn is_state(
    s: FileState,
    id: int,
    project_id: i64,
    path: Seq<char>,
    hash: Seq<char>,
    exists: bool,
    size: i64,
    mtime_nanos: Option<i64>,
    now: i64,
) -> bool {
    &&& s.id == id
    &&& s.project_id == project_id
    &&& s.path@ == path
    &&& text::is_some_text(s.latest_hash, hash)
    &&& s.last_seen_at == now
    &&& s.exists_now == exists
    &&& s.size == Some(size)
    &&& s.mtime_nanos == mtime_nanos
}

/// Recording the state of a file at a time: the row of the file is rewritten,
/// or added where there is none.
pub open spec fn state_recorded(
    before: Tables,
    after: Tables,
    project_id: i64,
    path: Seq<char>,
    hash: Seq<char>,
    exists: bool,
    size: i64,
    mtime_nanos: Option<i64>,
    now: i64,
    result: Result<(), Error>,
) -> bool {
    if exists|at: int| #[trigger] rows::is_found(before.states, is_file(project_id, path), Some(at)) {
        let at = choose|at: int|
            #[trigger] rows::is_found(before.states, is_file(project_id, path), Some(at));
        &&& result is Ok
        &&& after.states.len() == before.states.len()
        &&& is_state(
            after.states[at],
            before.states[at].id as int,
            project_id,
            path,
            hash,
            exists,
            size,
            mtime_nanos,
            now,
        )
        &&& after == (Tables { states: before.states.update(at, after.states[at]), ..before })
    } else if before.last.states == i64::MAX {
        after == before && (result matches Err(e) && e@ == full_text())
    } else if !has_project(before.projects, project_id) {
        after == before && (result matches Err(e) && e@ == foreign_key_text())
    } else {
        &&& result is Ok
        &&& after.states.len() == before.states.len() + 1
        &&& is_state(
            after.states.last(),
            before.last.states + 1,
            project_id,
            path,
            hash,
            exists,
            size,
            mtime_nanos,
            now,
        )
        &&& after == (Tables {
            states: before.states.push(after.states.last()),
            last: Sequences { states: after.states.last().id, ..before.last },
            ..before
        })
    }
}

/// Marking a file as gone at a time: its row stays, and says so.
pub open spec fn state_marked_deleted(
    before: Tables,
    after: Tables,
    project_id: i64,
    path: Seq<char>,
    now: i64,
) -> bool {
    &&& after.states.len() == before.states.len()
    &&& after == (Tables { states: after.states, ..before })
    &&& forall|i: int|
        0 <= i < before.states.len() ==> #[trigger] after.states[i] == if is_file(
            project_id,
            path,
        )(before.states[i]) {
            FileState { exists_now: false, last_seen_at: now, ..before.states[i] }
        } else {
            before.states[i]
        }
}

/// There is at most one state of a file.
proof fn lemma_one_state(states: Seq<FileState>, project_id: i64, path: Seq<char>, i: int, j: int)
    requires
        distinct(states, |a, b| same_file(a, b)),
        0 <= i < states.len(),
        0 <= j < states.len(),
        is_file(project_id, path)(states[i]),
        is_file(project_id, path)(states[j]),
    ensures
        i == j,
{
    if i < j {
        assert(same_file(states[i], states[j]));
    }
    if j < i {
        assert(same_file(states[j], states[i]));
    }
}

// ── saved contents in use ───────────────────────────────────────────

/// A plan that may still be applied keeps what it would write.
pub open spec fn plan_pins(r: Recovery, e: RecoveryEntry, project_id: i64, now: i64) -> bool {
    &&& r.id == e.recovery_id
    &&& r.project_id == project_id
    &&& r.status@ == "planned"@
    &&& r.expires_at >= now
}

/// Whether contents are in use at a time: by a recorded event, as what it wrote
/// or what it replaced; by a file that still exists; or by a recovery plan that
/// may still be applied.
pub open spec fn is_live(t: Tables, project_id: i64, now: i64, hash: Seq<char>) -> bool {
    ||| exists|i: int|
        0 <= i < t.events.len() && (#[trigger] t.events[i]).project_id == project_id
            && text::is_some_text(t.events[i].current_hash, hash)
    ||| exists|i: int|
        0 <= i < t.events.len() && (#[trigger] t.events[i]).project_id == project_id
            && text::is_some_text(t.events[i].previous_hash, hash)
    ||| exists|i: int|
        0 <= i < t.states.len() && (#[trigger] t.states[i]).project_id == project_id
            && t.states[i].exists_now && text::is_some_text(t.states[i].latest_hash, hash)
    ||| exists|i: int, j: int|
        0 <= i < t.recoveries.len() && 0 <= j < t.entries.len() && plan_pins(
            #[trigger] t.recoveries[i],
            #[trigger] t.entries[j],
            project_id,
            now,
        ) && text::is_some_text(t.entries[j].target_hash, hash)
}

/// Whether `hashes` are exactly the contents in use at a time.
pub open spec fn are_live(
    t: Tables,
    project_id: i64,
    now: i64,
    hashes: Seq<Seq<char>>,
) -> bool {
    &&& sorted::ascending(hashes)
    &&& forall|hash: Seq<char>| #[trigger] hashes.contains(hash) <==> is_live(t, project_id, now, hash)
}

/// Whether an event of a project wrote or replaced contents.
pub open spec fn event_pins(e: FileEvent, project_id: i64, hash: Seq<char>) -> bool {
    e.project_id == project_id && (text::is_some_text(e.current_hash, hash) || text::is_some_text(
        e.previous_hash,
        hash,
    ))
}

/// Contents are in use after events are gone where an event that stays, a file or
/// a plan needs them.
proof fn lemma_live_from(t: Tables, project_id: i64, since: i64, now: i64, hash: Seq<char>)
    ensures
        is_live(events_pruned(t, project_id, since), project_id, now, hash) <==> {
            ||| exists|k: int|
                0 <= k < t.events.len() && (#[trigger] t.events[k]).project_id == project_id
                    && t.events[k].timestamp >= since && (text::is_some_text(
                    t.events[k].current_hash,
                    hash,
                ) || text::is_some_text(t.events[k].previous_hash, hash))
            ||| exists|k: int|
                0 <= k < t.states.len() && (#[trigger] t.states[k]).project_id == project_id
                    && t.states[k].exists_now && text::is_some_text(t.states[k].latest_hash, hash)
            ||| exists|m: int, k: int|
                0 <= m < t.recoveries.len() && 0 <= k < t.entries.len() && plan_pins(
                    #[trigger] t.recoveries[m],
                    #[trigger] t.entries[k],
                    project_id,
                    now,
                ) && text::is_some_text(t.entries[k].target_hash, hash)
        },
{
    let after = events_pruned(t, project_id, since);
    assert(after.states == t.states && after.recoveries == t.recoveries && after.entries
        == t.entries);
    rows::lemma_retained_contains(t.events, surviving(project_id, since));
    if exists|k: int|
        0 <= k < t.events.len() && event_pins(#[trigger] t.events[k], project_id, hash)
            && t.events[k].timestamp >= since {
        let k = choose|k: int|
            0 <= k < t.events.len() && event_pins(#[trigger] t.events[k], project_id, hash)
                && t.events[k].timestamp >= since;
        assert(t.events.contains(t.events[k]));
        assert(after.events.contains(t.events[k]));
        let i = choose|i: int| 0 <= i < after.events.len() && after.events[i] == t.events[k];
        assert(event_pins(after.events[i], project_id, hash));
    }
    if exists|i: int|
        0 <= i < after.events.len() && event_pins(#[trigger] after.events[i], project_id, hash) {
        let i = choose|i: int|
            0 <= i < after.events.len() && event_pins(#[trigger] after.events[i], project_id, hash);
        assert(after.events.contains(after.events[i]));
        assert(surviving(project_id, since)(after.events[i]));
        let k = choose|k: int| 0 <= k < t.events.len() && t.events[k] == after.events[i];
        assert(event_pins(t.events[k], project_id, hash));
    }
}

/// Puts an optional hash in a list in order.
fn pin(list: &mut Vec<String>, hash: &Option<String>)
    requires
        sorted::in_order(old(list)@),
    ensures
        sorted::in_order(final(list)@),
        forall|t: Seq<char>|
            #[trigger] text::views(final(list)@).contains(t) <==> text::views(old(list)@).contains(
                t,
            ) || text::is_some_text(*hash, t),
{
    match hash {
        Some(h) => {
            let _ = sorted::insert(list, h.clone());
        },
        None => {},
    }
}

impl Database {
    /// Records the state of a file at a time.
    pub fn record_file_state(
        &mut self,
        project_id: i64,
        path: &str,
        hash: &str,
        exists: bool,
        size: i64,
        mtime_nanos: Option<i64>,
        now: i64,
    ) -> (result: Result<(), Error>)
        requires
            old(self)@.wf(),
        ensures
            final(self)@.wf(),
            state_recorded(
                old(self)@,
                final(self)@,
                project_id,
                path@,
                hash@,
                exists,
                size,
                mtime_nanos,
                now,
                result,
            ),
    {
        let ghost before = self@;
        let ghost keep = is_file(project_id, path@);
        let test = |s: &FileState| -> (yes: bool)
            ensures yes == (s.project_id == project_id && s.path@ == path@)
        { s.project_id == project_id && text::same(s.path.as_str(), path) };
        let at = rows::position(&self.states, test, Ghost(keep));
        match at {
            Some(i) => {
                let row = FileState {
                    id: self.states[i].id,
                    project_id,
                    path: path.to_owned(),
                    latest_hash: Some(hash.to_owned()),
                    last_seen_at: now,
                    exists_now: exists,
                    size: Some(size),
                    mtime_nanos,
                };
                let ghost added = row;
                self.states.set(i, row);
                proof {
                    assert(rows::is_found(before.states, keep, Some(i as int)));
                    let chosen = choose|at: int|
                        #[trigger] rows::is_found(before.states, keep, Some(at));
                    lemma_one_state(before.states, project_id, path@, i as int, chosen);
                    lemma_numbered_update(before.states, before.last.states, i as int, added);
                    assert forall|a: int, b: int| 0 <= a < b < self@.states.len() implies
                        !same_file(#[trigger] self@.states[a], #[trigger] self@.states[b]) by {
                        assert(!same_file(before.states[a], before.states[b]));
                    }
                }
                Ok(())
            },
            None => {
                proof {
                    assert forall|k: int| !#[trigger] rows::is_found(
                        before.states,
                        keep,
                        Some(k),
                    ) by {
                        if rows::is_found(before.states, keep, Some(k)) {
                            assert(!keep(before.states[k]));
                        }
                    }
                }
                if self.last.states == i64::MAX {
                    return Err(Error::new("database or disk is full".to_owned()));
                }
                if !self.project_exists(project_id) {
                    return Err(Error::new("FOREIGN KEY constraint failed".to_owned()));
                }
                let id: i64 = self.last.states + 1;
                let row = FileState {
                    id,
                    project_id,
                    path: path.to_owned(),
                    latest_hash: Some(hash.to_owned()),
                    last_seen_at: now,
                    exists_now: exists,
                    size: Some(size),
                    mtime_nanos,
                };
                let ghost added = row;
                self.states.push(row);
                self.last.states = id;
                proof {
                    lemma_numbered_push(before.states, before.last.states, added, id);
                    assert forall|k: int| 0 <= k < before.states.len() implies !same_file(
                        #[trigger] before.states[k],
                        added,
                    ) by {
                        assert(!keep(before.states[k]));
                    }
                    lemma_distinct_push(before.states, |a, b| same_file(a, b), added);
                }
                Ok(())
            },
        }
    }

    /// Records the state of a file now.
    pub fn upsert_file_state(
        &mut self,
        project_id: i64,
        path: &str,
        hash: &str,
        exists: bool,
        size: i64,
        mtime_nanos: Option<i64>,
    ) -> (result: Result<(), Error>)
        requires
            old(self)@.wf(),
        ensures
            final(self)@.wf(),
            exists|now: i64|
                #[trigger] state_recorded(
                    old(self)@,
                    final(self)@,
                    project_id,
                    path@,
                    hash@,
                    exists,
                    size,
                    mtime_nanos,
                    now,
                    result,
                ),
    {
        let now = clock::unix_now();
        self.record_file_state(project_id, path, hash, exists, size, mtime_nanos, now)
    }

    /// The state of a file.
    pub fn get_file_state(&self, project_id: i64, path: &str) -> (result: Result<
        Option<FileState>,
        Error,
    >)
        ensures
            result matches Ok(state) && state == rows::lookup(
                self@.states,
                is_file(project_id, path@),
            ),
    {
        let test = |s: &FileState| -> (yes: bool)
            ensures yes == (s.project_id == project_id && s.path@ == path@)
        { s.project_id == project_id && text::same(s.path.as_str(), path) };
        Ok(rows::find_row(&self.states, test, Ghost(is_file(project_id, path@))))
    }

    /// Marks a file as gone at a time.
    pub fn mark_deleted_at(&mut self, project_id: i64, path: &str, now: i64) -> (result: Result<
        (),
        Error,
    >)
        requires
            old(self)@.wf(),
        ensures
            final(self)@.wf(),
            result is Ok,
            state_marked_deleted(old(self)@, final(self)@, project_id, path@, now),
    {
        let ghost before = self@;
        let ghost keep = is_file(project_id, path@);
        let test = |s: &FileState| -> (yes: bool)
            ensures yes == (s.project_id == project_id && s.path@ == path@)
        { s.project_id == project_id && text::same(s.path.as_str(), path) };
        let at = rows::position(&self.states, test, Ghost(keep));
        match at {
            Some(i) => {
                let mut row = self.states[i].clone();
                row.exists_now = false;
                row.last_seen_at = now;
                let ghost changed = row;
                self.states.set(i, row);
                proof {
                    lemma_numbered_update(before.states, before.last.states, i as int, changed);
                    assert forall|a: int, b: int| 0 <= a < b < self@.states.len() implies
                        !same_file(#[trigger] self@.states[a], #[trigger] self@.states[b]) by {
                        assert(!same_file(before.states[a], before.states[b]));
                    }
                    assert forall|k: int| 0 <= k < before.states.len() && k != i implies !keep(
                        #[trigger] before.states[k],
                    ) by {
                        if keep(before.states[k]) {
                            lemma_one_state(before.states, project_id, path@, i as int, k);
                        }
                    }
                }
            },
            None => {
                proof {
                    assert forall|k: int| 0 <= k < before.states.len() implies !keep(
                        #[trigger] before.states[k],
                    ) by {}
                }
            },
        }
        Ok(())
    }

    /// Marks a file as gone now.
    pub fn mark_deleted(&mut self, project_id: i64, path: &str) -> (result: Result<(), Error>)
        requires
            old(self)@.wf(),
        ensures
            final(self)@.wf(),
            result is Ok,
            exists|now: i64|
                #[trigger] state_marked_deleted(old(self)@, final(self)@, project_id, path@, now),
    {
        let now = clock::unix_now();
        self.mark_deleted_at(project_id, path, now)
    }

    /// The states of all files of a project, in the order of their rows.
    pub fn get_all_file_states(&self, project_id: i64) -> (result: Result<Vec<FileState>, Error>)
        ensures
            result matches Ok(list) && list@ == rows::retained(
                self@.states,
                in_project(project_id),
            ),
    {
        let test = |s: &FileState| -> (yes: bool)
            ensures yes == (s.project_id == project_id)
        { s.project_id == project_id };
        Ok(rows::retain(&self.states, test, Ghost(in_project(project_id))))
    }

    /// The contents in use at a time, in ascending order.
    pub fn live_hashes_at(&self, project_id: i64, now: i64) -> (result: Result<
        Vec<String>,
        Error,
    >)
        ensures
            result matches Ok(hashes) && are_live(
                self@,
                project_id,
                now,
                text::views(hashes@),
            ),
    {
        let result = self.live_hashes_from(project_id, i64::MIN, now);
        proof {
            let after = events_pruned(self@, project_id, i64::MIN);
            rows::lemma_retained_all(self@.events, surviving(project_id, i64::MIN));
            assert(after.events == self@.events && after.states == self@.states && after.recoveries
                == self@.recoveries && after.entries == self@.entries);
            assert forall|hash: Seq<char>| #[trigger]
                is_live(after, project_id, now, hash) == is_live(
                    self@,
                    project_id,
                    now,
                    hash,
                ) by {}
        }
        result
    }

    /// The contents that are in use at a time once the events of a project before
    /// another time are gone, in ascending order.
    pub fn live_hashes_from(&self, project_id: i64, since: i64, now: i64) -> (result: Result<
        Vec<String>,
        Error,
    >)
        ensures
            result matches Ok(hashes) && are_live(
                events_pruned(self@, project_id, since),
                project_id,
                now,
                text::views(hashes@),
            ),
    {
        let ghost t = self@;
        let mut list: Vec<String> = Vec::new();
        let mut i: usize = 0;
        let ghost none = text::views(list@);
        while i < self.events.len()
            invariant
                i <= self.events.len(),
                t == self@,
                sorted::in_order(list@),
                forall|hash: Seq<char>|
                    #[trigger] text::views(list@).contains(hash) <==> (exists|k: int|
                        0 <= k < i && (#[trigger] t.events[k]).project_id == project_id
                        && t.events[k].timestamp >= since && (
                        text::is_some_text(t.events[k].current_hash, hash) || text::is_some_text(
                            t.events[k].previous_hash,
                            hash,
                        ))),
            decreases self.events.len() - i,
        {
            let ghost earlier = text::views(list@);
            if self.events[i].project_id == project_id && self.events[i].timestamp >= since {
                pin(&mut list, &self.events[i].current_hash);
                pin(&mut list, &self.events[i].previous_hash);
            }
            proof {
                assert forall|hash: Seq<char>|
                    #[trigger] text::views(list@).contains(hash) <==> (exists|k: int|
                        0 <= k < i + 1 && (#[trigger] t.events[k]).project_id == project_id
                        && t.events[k].timestamp >= since && (
                        text::is_some_text(t.events[k].current_hash, hash) || text::is_some_text(
                            t.events[k].previous_hash,
                            hash,
                        ))) by {
                    assert(earlier.contains(hash) ==> text::views(list@).contains(hash));
                }
            }
            i += 1;
        }
        let ghost from_events = text::views(list@);
        let mut i: usize = 0;
        while i < self.states.len()
            invariant
                i <= self.states.len(),
                t == self@,
                sorted::in_order(list@),
                forall|hash: Seq<char>|
                    #[trigger] text::views(list@).contains(hash) <==> from_events.contains(hash)
                        || (exists|k: int|
                        0 <= k < i && (#[trigger] t.states[k]).project_id == project_id
                            && t.states[k].exists_now && text::is_some_text(
                            t.states[k].latest_hash,
                            hash,
                        )),
            decreases self.states.len() - i,
        {
            let ghost earlier = text::views(list@);
            if self.states[i].project_id == project_id && self.states[i].exists_now {
                pin(&mut list, &self.states[i].latest_hash);
            }
            proof {
                assert forall|hash: Seq<char>|
                    #[trigger] text::views(list@).contains(hash) <==> from_events.contains(hash)
                        || (exists|k: int|
                        0 <= k < i + 1 && (#[trigger] t.states[k]).project_id == project_id
                            && t.states[k].exists_now && text::is_some_text(
                            t.states[k].latest_hash,
                            hash,
                        )) by {
                    assert(earlier.contains(hash) ==> text::views(list@).contains(hash));
                }
            }
            i += 1;
        }
        let ghost from_files = text::views(list@);
        let mut j: usize = 0;
        while j < self.entries.len()
            invariant
                j <= self.entries.len(),
                t == self@,
                sorted::in_order(list@),
                forall|hash: Seq<char>|
                    #[trigger] text::views(list@).contains(hash) <==> from_files.contains(hash)
                        || (exists|m: int, k: int|
                        0 <= m < t.recoveries.len() && 0 <= k < j && plan_pins(
                            #[trigger] t.recoveries[m],
                            #[trigger] t.entries[k],
                            project_id,
                            now,
                        ) && text::is_some_text(t.entries[k].target_hash, hash)),
            decreases self.entries.len() - j,
        {
            let ghost earlier = text::views(list@);
            let pinned = self.entry_pinned(project_id, now, j);
            if pinned {
                pin(&mut list, &self.entries[j].target_hash);
            }
            proof {
                assert forall|hash: Seq<char>|
                    #[trigger] text::views(list@).contains(hash) <==> from_files.contains(hash)
                        || (exists|m: int, k: int|
                        0 <= m < t.recoveries.len() && 0 <= k < j + 1 && plan_pins(
                            #[trigger] t.recoveries[m],
                            #[trigger] t.entries[k],
                            project_id,
                            now,
                        ) && text::is_some_text(t.entries[k].target_hash, hash)) by {
                    assert(earlier.contains(hash) ==> text::views(list@).contains(hash));
                    if pinned && text::is_some_text(t.entries[j as int].target_hash, hash) {
                        let m = choose|m: int|
                            0 <= m < t.recoveries.len() && plan_pins(
                                #[trigger] t.recoveries[m],
                                t.entries[j as int],
                                project_id,
                                now,
                            );
                        assert(plan_pins(t.recoveries[m], t.entries[j as int], project_id, now));
                    }
                }
            }
            j += 1;
        }
        proof {
            let after = events_pruned(t, project_id, since);
            assert forall|hash: Seq<char>| #[trigger]
                text::views(list@).contains(hash) <==> is_live(after, project_id, now, hash) by {
                lemma_live_from(t, project_id, since, now, hash);
            }
        }
        Ok(list)
    }

    /// Whether the plan of an entry may still be applied at a time.
    fn entry_pinned(&self, project_id: i64, now: i64, at: usize) -> (yes: bool)
        requires
            at < self.entries.len(),
        ensures
            yes == exists|m: int|
                0 <= m < self@.recoveries.len() && plan_pins(
                    #[trigger] self@.recoveries[m],
                    self@.entries[at as int],
                    project_id,
                    now,
                ),
    {
        let mut m: usize = 0;
        while m < self.recoveries.len()
            invariant
                at < self.entries.len(),
                m <= self.recoveries.len(),
                forall|k: int|
                    0 <= k < m ==> !plan_pins(
                        #[trigger] self.recoveries@[k],
                        self.entries@[at as int],
                        project_id,
                        now,
                    ),
            decreases self.recoveries.len() - m,
        {
            if self.recoveries[m].id == self.entries[at].recovery_id
                && self.recoveries[m].project_id == project_id && text::same(
                self.recoveries[m].status.as_str(),
                "planned",
            ) && self.recoveries[m].expires_at >= now {
                assert(plan_pins(
                    self@.recoveries[m as int],
                    self@.entries[at as int],
                    project_id,
                    now,
                ));
                return true;
            }
            m += 1;
        }
        false
    }

    /// The contents in use now, in ascending order.
    pub fn get_live_hashes(&self, project_id: i64) -> (result: Result<Vec<String>, Error>)
        ensures
            result matches Ok(hashes) && exists|now: i64|
                #[trigger] are_live(self@, project_id, now, text::views(hashes@)),
    {
        let now = clock::unix_now();
        self.live_hashes_at(project_id, now)
    }
}

} // verus!
