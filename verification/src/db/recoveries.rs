//! Saved recovery plans.
use vstd::prelude::*;
use vstd::string::*;

use crate::clock;
use crate::db::runs::is_run;
use crate::db::{
    distinct, foreign_key_text, full_text, has_project, has_run, lemma_numbered_push,
    lemma_numbered_update, public_id_of, same_entry, Database, Sequences, Tables,
};
use crate::error::Error;
use crate::models::{Recovery, RecoveryEntry};
use crate::rows;
use crate::sorted;
use crate::text;

verus! {

/// How long a saved plan can be applied: a day.
pub const PLAN_LIFETIME_SECS: i64 = 86400;

/// The plan with an id.
pub open spec fn is_recovery(id: i64) -> spec_fn(Recovery) -> bool {
    |r: Recovery| r.id == id
}

/// Whether no file is twice in a list of entries.
pub open spec fn paths_differ(entries: Seq<RecoveryEntry>) -> bool {
    forall|i: int, j: int|
        0 <= i < j < entries.len() ==> (#[trigger] entries[i]).path@ != (#[trigger] entries[j]).path@
}

/// The entries of a plan, under its id.
pub open spec fn owned_entries(entries: Seq<RecoveryEntry>, id: i64) -> Seq<RecoveryEntry> {
    entries.map_values(|e: RecoveryEntry| RecoveryEntry { recovery_id: id, ..e })
}

/// Whether a plan row is new.
pub open spec fn is_new_recovery(
    r: Recovery,
    id: int,
    project_id: i64,
    run_id: Option<i64>,
    request: Seq<char>,
    kind: Seq<char>,
    confidence: Seq<char>,
    ambiguity: Option<Seq<char>>,
    now: i64,
) -> bool {
    &&& r.id == id
    &&& r.project_id == project_id
    &&& r.run_id == run_id
    &&& r.request@ == request
    &&& r.kind@ == kind
    &&& r.status@ == "planned"@
    &&& r.confidence@ == confidence
    &&& text::view_opt(r.ambiguity) == ambiguity
    &&& r.created_at == now
    &&& r.expires_at == clock::clamp(now + PLAN_LIFETIME_SECS)
    &&& r.applied_at is None
}

/// Saving a recovery plan at a time, with all its entries or not at all.
pub open spec fn recovery_created(
    before: Tables,
    after: Tables,
    project_id: i64,
    run_id: Option<i64>,
    request: Seq<char>,
    kind: Seq<char>,
    confidence: Seq<char>,
    ambiguity: Option<Seq<char>>,
    entries: Seq<RecoveryEntry>,
    now: i64,
    result: Result<Recovery, Error>,
) -> bool {
    if before.last.recoveries == i64::MAX {
        after == before && (result matches Err(e) && e@ == full_text())
    } else if !has_project(before.projects, project_id) || (run_id is Some && !has_run(
        before.sessions,
        run_id->0,
    )) {
        after == before && (result matches Err(e) && e@ == foreign_key_text())
    } else if !paths_differ(entries) {
        after == before && (result matches Err(e) && e@
            == "UNIQUE constraint failed: recovery_entries.recovery_id, recovery_entries.path"@)
    } else {
        &&& result matches Ok(r)
        &&& is_new_recovery(
            r,
            before.last.recoveries + 1,
            project_id,
            run_id,
            request,
            kind,
            confidence,
            ambiguity,
            now,
        )
        &&& after == (Tables {
            recoveries: before.recoveries.push(r),
            entries: before.entries + owned_entries(entries, r.id),
            last: Sequences { recoveries: r.id, ..before.last },
            ..before
        })
    }
}

/// The plan that a reference names in a project.
pub open spec fn recovery_by_ref(recoveries: Seq<Recovery>, project_id: i64, reference: Seq<char>) -> Option<
    Recovery,
> {
    match public_id_of(reference, "rec_"@) {
        Some(id) => match rows::lookup(recoveries, is_recovery(id as i64)) {
            Some(r) => if r.project_id == project_id {
                Some(r)
            } else {
                None
            },
            None => None,
        },
        None => None,
    }
}

/// Whether a list holds exactly the entries of a plan, in the order of their
/// paths.
pub open spec fn are_entries(
    entries: Seq<RecoveryEntry>,
    recovery_id: i64,
    list: Seq<RecoveryEntry>,
) -> bool {
    &&& forall|i: int|
        0 <= i < list.len() ==> entries.contains(#[trigger] list[i]) && list[i].recovery_id
            == recovery_id
    &&& forall|i: int|
        0 <= i < entries.len() && (#[trigger] entries[i]).recovery_id == recovery_id
            ==> list.contains(entries[i])
    &&& forall|i: int, j: int|
        0 <= i < j < list.len() ==> sorted::less(
            (#[trigger] list[i]).path@,
            (#[trigger] list[j]).path@,
        )
}

/// Whether a plan row is another one, applied.
pub open spec fn is_applied(r: Recovery, from: Recovery, now: i64) -> bool {
    if from.status@ == "planned"@ {
        &&& r.status@ == "applied"@
        &&& r == (Recovery { status: r.status, applied_at: Some(now), ..from })
    } else {
        r == from
    }
}

/// Whether a plan row is another one that cannot be applied any more.
pub open spec fn is_conflicted(r: Recovery, from: Recovery, reason: Seq<char>) -> bool {
    if from.status@ == "planned"@ {
        &&& r.status@ == "conflicted"@
        &&& text::is_some_text(r.ambiguity, reason)
        &&& r == (Recovery { status: r.status, ambiguity: r.ambiguity, ..from })
    } else {
        r == from
    }
}

/// Marking a plan as applied at a time: only a planned one changes.
pub open spec fn marked_applied(before: Tables, after: Tables, recovery_id: i64, now: i64) -> bool {
    &&& after.recoveries.len() == before.recoveries.len()
    &&& after == (Tables { recoveries: after.recoveries, ..before })
    &&& forall|i: int|
        0 <= i < before.recoveries.len() ==> if before.recoveries[i].id == recovery_id {
            is_applied(#[trigger] after.recoveries[i], before.recoveries[i], now)
        } else {
            after.recoveries[i] == before.recoveries[i]
        }
}

/// Marking a plan as not applicable any more: only a planned one changes.
pub open spec fn marked_conflicted(
    before: Tables,
    after: Tables,
    recovery_id: i64,
    reason: Seq<char>,
) -> bool {
    &&& after.recoveries.len() == before.recoveries.len()
    &&& after == (Tables { recoveries: after.recoveries, ..before })
    &&& forall|i: int|
        0 <= i < before.recoveries.len() ==> if before.recoveries[i].id == recovery_id {
            is_conflicted(#[trigger] after.recoveries[i], before.recoveries[i], reason)
        } else {
            after.recoveries[i] == before.recoveries[i]
        }
}

/// The latest time at which a plan of a project was applied.
pub open spec fn is_latest_applied(recoveries: Seq<Recovery>, project_id: i64, at: Option<i64>) -> bool {
    match at {
        Some(t) => {
            &&& exists|i: int|
                0 <= i < recoveries.len() && (#[trigger] recoveries[i]).project_id == project_id
                    && recoveries[i].status@ == "applied"@ && recoveries[i].applied_at == Some(t)
            &&& forall|i: int|
                0 <= i < recoveries.len() && (#[trigger] recoveries[i]).project_id == project_id
                    && recoveries[i].status@ == "applied"@ && recoveries[i].applied_at is Some
                    ==> recoveries[i].applied_at->0 <= t
        },
        None => forall|i: int|
            0 <= i < recoveries.len() && (#[trigger] recoveries[i]).project_id == project_id
                && recoveries[i].status@ == "applied"@ ==> recoveries[i].applied_at is None,
    }
}

/// Whether no file is twice in a list of entries.
fn different_paths(entries: &Vec<RecoveryEntry>) -> (yes: bool)
    ensures
        yes == paths_differ(entries@),
{
    let mut i: usize = 0;
    while i < entries.len()
        invariant
            i <= entries.len(),
            forall|a: int, b: int|
                0 <= a < b < i ==> (#[trigger] entries@[a]).path@ != (#[trigger] entries@[b]).path@,
        decreases entries.len() - i,
    {
        let mut j: usize = 0;
        while j < i
            invariant
                j <= i < entries.len(),
                forall|a: int| 0 <= a < j ==> (#[trigger] entries@[a]).path@ != entries@[i as int].path@,
            decreases i - j,
        {
            if text::same(entries[j].path.as_str(), entries[i].path.as_str()) {
                return false;
            }
            j += 1;
        }
        i += 1;
    }
    true
}

/// New entries of a new plan clash with none.
proof fn lemma_entries_added_wf(before: Tables, after: Tables, row: Recovery, entries: Seq<RecoveryEntry>)
    requires
        before.wf(),
        before.last.recoveries < i64::MAX,
        row.id == before.last.recoveries + 1,
        paths_differ(entries),
        after == (Tables {
            recoveries: before.recoveries.push(row),
            entries: before.entries + owned_entries(entries, row.id),
            last: Sequences { recoveries: row.id, ..before.last },
            ..before
        }),
    ensures
        after.wf(),
{
    lemma_numbered_push(before.recoveries, before.last.recoveries, row, row.id);
    let n = before.entries.len();
    let added = owned_entries(entries, row.id);
    assert forall|i: int, j: int| 0 <= i < j < after.entries.len() implies !same_entry(
        #[trigger] after.entries[i],
        #[trigger] after.entries[j],
    ) by {
        if j < n {
            assert(!same_entry(before.entries[i], before.entries[j]));
        } else if i >= n {
            assert(entries[i - n].path@ != entries[j - n].path@);
        } else {
            assert(before.entries[i].recovery_id <= before.last.recoveries);
        }
    }
    assert forall|i: int| 0 <= i < after.entries.len() implies (
    #[trigger] after.entries[i]).recovery_id <= after.last.recoveries by {
        if i < n {
            assert(before.entries[i].recovery_id <= before.last.recoveries);
        }
    }
}

impl Database {
    /// Saves a recovery plan at a time.
    pub fn create_recovery_at(
        &mut self,
        project_id: i64,
        run_id: Option<i64>,
        request: &str,
        kind: &str,
        confidence: &str,
        ambiguity: Option<&str>,
        entries: &Vec<RecoveryEntry>,
        now: i64,
    ) -> (result: Result<Recovery, Error>)
        requires
            old(self)@.wf(),
        ensures
            final(self)@.wf(),
            recovery_created(
                old(self)@,
                final(self)@,
                project_id,
                run_id,
                request@,
                kind@,
                confidence@,
                text::view_opt_str(ambiguity),
                entries@,
                now,
                result,
            ),
    {
        let ghost before = self@;
        if self.last.recoveries == i64::MAX {
            return Err(Error::new("database or disk is full".to_owned()));
        }
        let mut present = self.project_exists(project_id);
        if let Some(id) = run_id {
            let run = self.get_session_by_id(id)?;
            proof {
                rows::lemma_lookup_kept(before.sessions, is_run(id));
                if run is Some {
                    let k = choose|k: int|
                        0 <= k < before.sessions.len() && before.sessions[k] == run->0;
                    assert(before.sessions[k].id == id);
                } else if has_run(before.sessions, id) {
                    let k = choose|k: int|
                        0 <= k < before.sessions.len() && (#[trigger] before.sessions[k]).id == id;
                    assert(is_run(id)(before.sessions[k]));
                }
            }
            present = present && run.is_some();
        }
        if !present {
            return Err(Error::new("FOREIGN KEY constraint failed".to_owned()));
        }
        if !different_paths(entries) {
            return Err(
                Error::new(
                    "UNIQUE constraint failed: recovery_entries.recovery_id, recovery_entries.path".to_owned(),
                ),
            );
        }
        let id: i64 = self.last.recoveries + 1;
        let row = Recovery {
            id,
            project_id,
            run_id,
            request: request.to_owned(),
            kind: kind.to_owned(),
            status: "planned".to_owned(),
            confidence: confidence.to_owned(),
            ambiguity: text::own_opt(ambiguity),
            created_at: now,
            expires_at: clock::later(now, PLAN_LIFETIME_SECS),
            applied_at: None,
        };
        let copy = row.clone();
        self.recoveries.push(row);
        self.last.recoveries = id;
        let ghost half = self@;
        let mut i: usize = 0;
        proof {
            assert(before.entries + owned_entries(entries@.take(0), id) =~= before.entries);
        }
        while i < entries.len()
            invariant
                i <= entries.len(),
                self@ == (Tables { entries: self@.entries, ..half }),
                self@.entries == before.entries + owned_entries(entries@.take(i as int), id),
            decreases entries.len() - i,
        {
            let mut entry = entries[i].clone();
            entry.recovery_id = id;
            let ghost earlier = self@.entries;
            let ghost added = entry;
            self.entries.push(entry);
            proof {
                assert(added == (RecoveryEntry { recovery_id: id, ..entries@[i as int] }));
                assert(owned_entries(entries@.take(i + 1), id) =~= owned_entries(
                    entries@.take(i as int),
                    id,
                ).push(added));
                assert(self@.entries =~= before.entries + owned_entries(entries@.take(i + 1), id));
            }
            i += 1;
        }
        proof {
            assert(entries@.take(i as int) =~= entries@);
            lemma_entries_added_wf(before, self@, copy, entries@);
        }
        Ok(copy)
    }

    /// Saves a recovery plan now. It can be applied for a day.
    pub fn create_recovery(
        &mut self,
        project_id: i64,
        run_id: Option<i64>,
        request: &str,
        kind: &str,
        confidence: &str,
        ambiguity: Option<&str>,
        entries: &Vec<RecoveryEntry>,
    ) -> (result: Result<Recovery, Error>)
        requires
            old(self)@.wf(),
        ensures
            final(self)@.wf(),
            exists|now: i64|
                #[trigger] recovery_created(
                    old(self)@,
                    final(self)@,
                    project_id,
                    run_id,
                    request@,
                    kind@,
                    confidence@,
                    text::view_opt_str(ambiguity),
                    entries@,
                    now,
                    result,
                ),
    {
        let now = clock::unix_now();
        self.create_recovery_at(
            project_id,
            run_id,
            request,
            kind,
            confidence,
            ambiguity,
            entries,
            now,
        )
    }

    /// The plan that a reference names in a project.
    pub fn get_recovery_by_ref(&self, project_id: i64, reference: &str) -> (result: Result<
        Option<Recovery>,
        Error,
    >)
        ensures
            result matches Ok(found) && found == recovery_by_ref(
                self@.recoveries,
                project_id,
                reference@,
            ),
    {
        match crate::db::parse_public_id(reference, "rec_") {
            None => Ok(None),
            Some(id) => {
                let test = |r: &Recovery| -> (yes: bool)
                    ensures yes == (r.id == id)
                { r.id == id };
                match rows::find_row(&self.recoveries, test, Ghost(is_recovery(id))) {
                    Some(r) => if r.project_id == project_id {
                        Ok(Some(r))
                    } else {
                        Ok(None)
                    },
                    None => Ok(None),
                }
            },
        }
    }

    /// The entries of a plan, in the order of their paths.
    pub fn get_recovery_entries(&self, recovery_id: i64) -> (result: Result<
        Vec<RecoveryEntry>,
        Error,
    >)
        requires
            self@.wf(),
        ensures
            result matches Ok(list) && are_entries(self@.entries, recovery_id, list@),
    {
        let ghost all = self@.entries;
        let mut list: Vec<RecoveryEntry> = Vec::new();
        let mut i: usize = 0;
        while i < self.entries.len()
            invariant
                i <= self.entries.len(),
                all == self@.entries,
                distinct(all, |a, b| same_entry(a, b)),
                are_entries(all.take(i as int), recovery_id, list@),
            decreases self.entries.len() - i,
        {
            let ghost t0 = all.take(i as int);
            let ghost t1 = all.take(i + 1);
            let ghost row = all[i as int];
            let ghost earlier = list@;
            proof {
                assert(t1 =~= t0.push(row));
                assert forall|k: int| 0 <= k < earlier.len() implies t1.contains(
                    #[trigger] earlier[k],
                ) by {
                    assert(t0.contains(earlier[k]));
                    let m = choose|m: int| 0 <= m < t0.len() && t0[m] == earlier[k];
                    assert(t1[m] == earlier[k]);
                }
            }
            if self.entries[i].recovery_id == recovery_id {
                let mut k: usize = list.len();
                while k > 0 && sorted::before(
                    self.entries[i].path.as_str(),
                    list[k - 1].path.as_str(),
                )
                    invariant
                        i < self.entries.len(),
                        row == self.entries@[i as int],
                        k <= list.len(),
                        list@ == earlier,
                        forall|m: int|
                            k <= m < list.len() ==> sorted::less(
                                row.path@,
                                (#[trigger] list@[m]).path@,
                            ),
                    decreases k,
                {
                    k -= 1;
                }
                proof {
                    if k > 0 {
                        let other = earlier[k - 1];
                        assert(t0.contains(other));
                        let m = choose|m: int| 0 <= m < t0.len() && t0[m] == other;
                        assert(!same_entry(all[m], all[i as int]));
                        sorted::lemma_less_total(other.path@, row.path@);
                        assert(sorted::less(other.path@, row.path@));
                    }
                }
                list.insert(k, self.entries[i].clone());
                proof {
                    let now = list@;
                    assert(now == earlier.insert(k as int, row));
                    assert(t1[i as int] == row);
                    assert forall|m: int| 0 <= m < now.len() implies t1.contains(
                        #[trigger] now[m],
                    ) && now[m].recovery_id == recovery_id by {
                        if m < k {
                            assert(now[m] == earlier[m]);
                        } else if m > k {
                            assert(now[m] == earlier[m - 1]);
                        }
                    }
                    assert forall|m: int|
                        0 <= m < t1.len() && (#[trigger] t1[m]).recovery_id
                            == recovery_id implies now.contains(t1[m]) by {
                        if m < i {
                            assert(t0[m] == t1[m]);
                            assert(earlier.contains(t0[m]));
                            let q = choose|q: int| 0 <= q < earlier.len() && earlier[q] == t0[m];
                            let w = if q < k { q } else { q + 1 };
                            assert(now[w] == t1[m]);
                        } else {
                            assert(now[k as int] == t1[m]);
                        }
                    }
                    assert forall|a: int, b: int| 0 <= a < b < now.len() implies sorted::less(
                        (#[trigger] now[a]).path@,
                        (#[trigger] now[b]).path@,
                    ) by {
                        if b < k {
                            assert(sorted::less(earlier[a].path@, earlier[b].path@));
                        } else if a > k {
                            assert(sorted::less(earlier[a - 1].path@, earlier[b - 1].path@));
                        } else if a < k {
                            if b > k {
                                assert(sorted::less(earlier[a].path@, earlier[b - 1].path@));
                            } else if a < k - 1 {
                                assert(sorted::less(earlier[a].path@, earlier[k - 1].path@));
                                sorted::lemma_less_transitive(
                                    earlier[a].path@,
                                    earlier[k - 1].path@,
                                    row.path@,
                                );
                            }
                        }
                    }
                }
            } else {
                proof {
                    assert forall|m: int|
                        0 <= m < t1.len() && (#[trigger] t1[m]).recovery_id
                            == recovery_id implies list@.contains(t1[m]) by {
                        assert(m < i);
                        assert(t0[m] == t1[m]);
                    }
                }
            }
            i += 1;
        }
        proof {
            assert(all.take(i as int) =~= all);
        }
        Ok(list)
    }

    /// Marks a plan as applied at a time.
    pub fn mark_recovery_applied_at(&mut self, recovery_id: i64, now: i64) -> (result: Result<
        (),
        Error,
    >)
        requires
            old(self)@.wf(),
        ensures
            final(self)@.wf(),
            result is Ok,
            marked_applied(old(self)@, final(self)@, recovery_id, now),
    {
        let ghost before = self@;
        let mut i: usize = 0;
        while i < self.recoveries.len()
            invariant
                i <= self.recoveries.len(),
                self@.wf(),
                self@ == (Tables { recoveries: self@.recoveries, ..before }),
                self@.recoveries.len() == before.recoveries.len(),
                forall|k: int|
                    0 <= k < i ==> if before.recoveries[k].id == recovery_id {
                        is_applied(#[trigger] self@.recoveries[k], before.recoveries[k], now)
                    } else {
                        self@.recoveries[k] == before.recoveries[k]
                    },
                forall|k: int|
                    i <= k < before.recoveries.len() ==> #[trigger] self@.recoveries[k]
                        == before.recoveries[k],
            decreases self.recoveries.len() - i,
        {
            if self.recoveries[i].id == recovery_id && text::same(
                self.recoveries[i].status.as_str(),
                "planned",
            ) {
                let ghost half = self@;
                let mut row = self.recoveries[i].clone();
                row.status = "applied".to_owned();
                row.applied_at = Some(now);
                let ghost changed = row;
                self.recoveries.set(i, row);
                proof {
                    lemma_numbered_update(half.recoveries, half.last.recoveries, i as int, changed);
                }
            }
            i += 1;
        }
        Ok(())
    }

    /// Marks a plan as applied now.
    pub fn mark_recovery_applied(&mut self, recovery_id: i64) -> (result: Result<(), Error>)
        requires
            old(self)@.wf(),
        ensures
            final(self)@.wf(),
            result is Ok,
            exists|now: i64|
                #[trigger] marked_applied(old(self)@, final(self)@, recovery_id, now),
    {
        let now = clock::unix_now();
        self.mark_recovery_applied_at(recovery_id, now)
    }

    /// Marks a plan as not applicable any more.
    pub fn mark_recovery_conflicted(&mut self, recovery_id: i64, reason: &str) -> (result: Result<
        (),
        Error,
    >)
        requires
            old(self)@.wf(),
        ensures
            final(self)@.wf(),
            result is Ok,
            marked_conflicted(old(self)@, final(self)@, recovery_id, reason@),
    {
        let ghost before = self@;
        let mut i: usize = 0;
        while i < self.recoveries.len()
            invariant
                i <= self.recoveries.len(),
                self@.wf(),
                self@ == (Tables { recoveries: self@.recoveries, ..before }),
                self@.recoveries.len() == before.recoveries.len(),
                forall|k: int|
                    0 <= k < i ==> if before.recoveries[k].id == recovery_id {
                        is_conflicted(
                            #[trigger] self@.recoveries[k],
                            before.recoveries[k],
                            reason@,
                        )
                    } else {
                        self@.recoveries[k] == before.recoveries[k]
                    },
                forall|k: int|
                    i <= k < before.recoveries.len() ==> #[trigger] self@.recoveries[k]
                        == before.recoveries[k],
            decreases self.recoveries.len() - i,
        {
            if self.recoveries[i].id == recovery_id && text::same(
                self.recoveries[i].status.as_str(),
                "planned",
            ) {
                let ghost half = self@;
                let mut row = self.recoveries[i].clone();
                row.status = "conflicted".to_owned();
                row.ambiguity = Some(reason.to_owned());
                let ghost changed = row;
                self.recoveries.set(i, row);
                proof {
                    lemma_numbered_update(half.recoveries, half.last.recoveries, i as int, changed);
                }
            }
            i += 1;
        }
        Ok(())
    }

    /// When a plan of a project was applied last.
    pub fn latest_applied_recovery_at(&self, project_id: i64) -> (result: Result<
        Option<i64>,
        Error,
    >)
        ensures
            result matches Ok(at) && is_latest_applied(self@.recoveries, project_id, at),
    {
        let mut best: Option<i64> = None;
        let mut i: usize = 0;
        proof {
            assert(self.recoveries@.take(0).len() == 0);
        }
        while i < self.recoveries.len()
            invariant
                i <= self.recoveries.len(),
                is_latest_applied(self.recoveries@.take(i as int), project_id, best),
            decreases self.recoveries.len() - i,
        {
            let ghost t0 = self.recoveries@.take(i as int);
            let ghost t1 = self.recoveries@.take(i + 1);
            let ghost earlier = best;
            let applied = self.recoveries[i].project_id == project_id && text::same(
                self.recoveries[i].status.as_str(),
                "applied",
            );
            if applied {
                if let Some(at) = self.recoveries[i].applied_at {
                    match best {
                        Some(b) => {
                            if at > b {
                                best = Some(at);
                            }
                        },
                        None => {
                            best = Some(at);
                        },
                    }
                }
            }
            proof {
                assert(t1[i as int] == self.recoveries@[i as int]);
                assert forall|k: int| 0 <= k < t0.len() implies #[trigger] t1[k] == t0[k] by {}
                if earlier is Some {
                    let k = choose|k: int|
                        0 <= k < t0.len() && (#[trigger] t0[k]).project_id == project_id
                            && t0[k].status@ == "applied"@ && t0[k].applied_at == earlier;
                    assert(t1[k].applied_at == earlier);
                }
            }
            i += 1;
        }
        proof {
            assert(self.recoveries@.take(i as int) =~= self.recoveries@);
        }
        Ok(best)
    }
}

} // verus!
