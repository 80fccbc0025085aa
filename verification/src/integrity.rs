//! Whether every saved version that is needed is there.
//!
//! The saved versions and the tables that refer to them are kept apart, so after a
//! crash a row can refer to a version that is missing or cannot be read. The check
//! reports such rows and changes nothing.
use vstd::prelude::*;

use crate::db::Database;
use crate::error::Error;
use crate::models::FileState;
use crate::rows;
use crate::sorted;
use crate::text;

verus! {

/// The outcome of a check over the saved versions of a project.
#[derive(Debug, Clone, Copy)]
pub struct IntegrityReport {
    /// The versions of files that are there now.
    pub checked: usize,
    /// The versions that are missing.
    pub missing: usize,
    /// The versions that are there and cannot be read.
    pub corrupt: usize,
}

impl Default for IntegrityReport {
    fn default() -> (report: Self)
        ensures
            report == (IntegrityReport { checked: 0, missing: 0, corrupt: 0 }),
    {
        IntegrityReport { checked: 0, missing: 0, corrupt: 0 }
    }
}

impl IntegrityReport {
    /// Whether nothing is wrong.
    pub fn is_clean(&self) -> (clean: bool)
        ensures
            clean == (self.missing == 0 && self.corrupt == 0),
    {
        self.missing == 0 && self.corrupt == 0
    }

    /// How many versions something is wrong with.
    pub fn problems(&self) -> (count: usize)
        requires
            self.missing + self.corrupt <= usize::MAX,
        ensures
            count == self.missing + self.corrupt,
    {
        self.missing + self.corrupt
    }
}

/// What the store has of a version.
#[derive(Debug)]
pub struct StoredVersion {
    pub hash: String,
    /// Whether it can be read.
    pub readable: bool,
}

/// Whether a file that is there now has contents with a hash.
pub open spec fn is_current(s: FileState, project_id: i64, hash: Seq<char>) -> bool {
    s.project_id == project_id && s.exists_now && text::is_some_text(s.latest_hash, hash)
}

/// Whether a file of a project that is there now has contents with a hash.
pub open spec fn is_needed(states: Seq<FileState>, project_id: i64, hash: Seq<char>) -> bool {
    exists|i: int| 0 <= i < states.len() && is_current(#[trigger] states[i], project_id, hash)
}

/// Whether a list holds each hash that is needed once.
pub open spec fn are_needed(states: Seq<FileState>, project_id: i64, list: Seq<Seq<char>>) -> bool {
    sorted::ascending(list) && forall|h: Seq<char>|
        #[trigger] list.contains(h) <==> is_needed(states, project_id, h)
}

/// The versions with a hash.
pub open spec fn is_version(hash: Seq<char>) -> spec_fn(StoredVersion) -> bool {
    |v: StoredVersion| v.hash@ == hash
}

/// What the store has of a version with a hash.
pub open spec fn stored(store: Seq<StoredVersion>, hash: Seq<char>) -> Option<StoredVersion> {
    rows::lookup(store, is_version(hash))
}

/// Whether a version is missing.
pub open spec fn is_missing(store: Seq<StoredVersion>) -> spec_fn(Seq<char>) -> bool {
    |hash: Seq<char>| stored(store, hash) is None
}

/// Whether a version is there and cannot be read.
pub open spec fn is_corrupt(store: Seq<StoredVersion>) -> spec_fn(Seq<char>) -> bool {
    |hash: Seq<char>| stored(store, hash) matches Some(v) && !v.readable
}

/// What is found on versions, each looked for and, in a deep check, read.
pub open spec fn report_on(
    list: Seq<Seq<char>>,
    store: Seq<StoredVersion>,
    deep: bool,
) -> IntegrityReport {
    IntegrityReport {
        checked: list.len() as usize,
        missing: rows::kept(list, is_missing(store)) as usize,
        corrupt: if deep {
            rows::kept(list, is_corrupt(store)) as usize
        } else {
            0
        },
    }
}

/// The hashes of the files of a project that are there now, each once.
pub fn hashes_to_check(db: &Database, project_id: i64) -> (list: Vec<String>)
    ensures
        are_needed(db@.states, project_id, text::views(list@)),
{
    let mut list: Vec<String> = Vec::new();
    let mut i: usize = 0;
    proof {
        assert(text::views(list@) =~= Seq::empty());
    }
    while i < db.states.len()
        invariant
            i <= db.states.len(),
            sorted::in_order(list@),
            forall|h: Seq<char>|
                #[trigger] text::views(list@).contains(h) <==> is_needed(
                    db.states@.take(i as int),
                    project_id,
                    h,
                ),
        decreases db.states.len() - i,
    {
        let ghost before = text::views(list@);
        if db.states[i].project_id == project_id && db.states[i].exists_now {
            if let Some(hash) = &db.states[i].latest_hash {
                let new = sorted::insert(&mut list, hash.clone());
            }
        }
        proof {
            let s0 = db.states@.take(i as int);
            let s1 = db.states@.take(i + 1);
            assert(s1[i as int] == db.states@[i as int]);
            assert forall|h: Seq<char>| #[trigger] text::views(list@).contains(h) <==> is_needed(
                s1,
                project_id,
                h,
            ) by {
                assert(before.contains(h) <==> is_needed(s0, project_id, h));
                if is_needed(s0, project_id, h) {
                    let k = choose|k: int|
                        0 <= k < s0.len() && is_current(#[trigger] s0[k], project_id, h);
                    assert(s1[k] == s0[k]);
                }
                if is_needed(s1, project_id, h) && !is_current(s1[i as int], project_id, h) {
                    let k = choose|k: int|
                        0 <= k < s1.len() && is_current(#[trigger] s1[k], project_id, h);
                    assert(s0[k] == s1[k]);
                }
            }
        }
        i += 1;
    }
    proof {
        assert(db.states@.take(i as int) =~= db@.states);
    }
    list
}

/// Missing and corrupt versions are different ones.
proof fn lemma_counts(list: Seq<Seq<char>>, store: Seq<StoredVersion>)
    ensures
        rows::kept(list, is_missing(store)) + rows::kept(list, is_corrupt(store)) <= list.len(),
    decreases list.len(),
{
    if list.len() > 0 {
        lemma_counts(list.drop_last(), store);
    }
}

/// What is found on versions.
fn count(list: &Vec<String>, store: &Vec<StoredVersion>, deep: bool) -> (report: IntegrityReport)
    ensures
        report == report_on(text::views(list@), store@, deep),
        report.missing + report.corrupt <= report.checked,
{
    let ghost all = text::views(list@);
    let mut report = IntegrityReport { checked: 0, missing: 0, corrupt: 0 };
    let mut i: usize = 0;
    while i < list.len()
        invariant
            i <= list.len(),
            all == text::views(list@),
            report.checked == i,
            report.missing == rows::kept(all.take(i as int), is_missing(store@)),
            report.corrupt == if deep {
                rows::kept(all.take(i as int), is_corrupt(store@))
            } else {
                0nat
            },
        decreases list.len() - i,
    {
        let hash = &list[i];
        let ghost keep = is_version(hash@);
        proof {
            assert(all.take(i + 1).drop_last() =~= all.take(i as int));
            assert(all.take(i + 1).last() == hash@);
            lemma_counts(all.take(i as int), store@);
            lemma_counts(all.take(i + 1), store@);
        }
        report.checked = i + 1;
        let test = |v: &StoredVersion| -> (yes: bool)
            ensures yes == (v.hash@ == hash@)
        { text::same(v.hash.as_str(), hash.as_str()) };
        let at = rows::position(store, test, Ghost(keep));
        proof {
            rows::lemma_lookup(
                store@,
                keep,
                match at {
                    Some(k) => Some(k as int),
                    None => None,
                },
            );
        }
        match at {
            None => {
                report.missing = report.missing + 1;
            },
            Some(k) => {
                if deep && !store[k].readable {
                    report.corrupt = report.corrupt + 1;
                }
            },
        }
        i += 1;
    }
    proof {
        assert(all.take(i as int) =~= all);
        lemma_counts(all, store@);
        assert(all.len() == list@.len());
    }
    report
}

/// Whether a result is what is found on the versions of a project.
pub open spec fn is_report(
    states: Seq<FileState>,
    project_id: i64,
    store: Seq<StoredVersion>,
    deep: bool,
    report: IntegrityReport,
) -> bool {
    exists|list: Seq<Seq<char>>|
        #[trigger] are_needed(states, project_id, list) && report == report_on(list, store, deep)
}

/// Checks the versions of the files of a project that are there now. Each is
/// looked for once; in a deep check it must be readable too.
pub fn check(db: &Database, project_id: i64, store: &Vec<StoredVersion>, deep: bool) -> (result:
    Result<IntegrityReport, Error>)
    ensures
        result matches Ok(report) && is_report(db@.states, project_id, store@, deep, report)
            && report.missing + report.corrupt <= report.checked,
{
    let list = hashes_to_check(db, project_id);
    assert(are_needed(db@.states, project_id, text::views(list@)));
    Ok(count(&list, store, deep))
}

/// A check finds nothing wrong exactly where every version that is needed is
/// there and, in a deep check, can be read.
pub proof fn lemma_clean(
    states: Seq<FileState>,
    project_id: i64,
    store: Seq<StoredVersion>,
    deep: bool,
    report: IntegrityReport,
    list: Seq<Seq<char>>,
)
    requires
        are_needed(states, project_id, list),
        list.len() <= usize::MAX,
        report == report_on(list, store, deep),
    ensures
        (report.missing == 0 && report.corrupt == 0) <==> forall|h: Seq<char>|
            #[trigger] is_needed(states, project_id, h) ==> (stored(store, h) matches Some(v) && (
            deep ==> v.readable)),
{
    lemma_counts(list, store);
    rows::lemma_kept_some(list, is_missing(store));
    rows::lemma_kept_some(list, is_corrupt(store));
    if report.missing == 0 && report.corrupt == 0 {
        assert forall|h: Seq<char>| #[trigger] is_needed(states, project_id, h) implies (stored(
            store,
            h,
        ) matches Some(v) && (deep ==> v.readable)) by {
            assert(list.contains(h));
            let k = choose|k: int| 0 <= k < list.len() && list[k] == h;
            assert(!is_missing(store)(list[k]));
            if deep {
                assert(!is_corrupt(store)(list[k]));
            }
        }
    } else {
        if rows::kept(list, is_missing(store)) > 0 {
            let k = choose|k: int| 0 <= k < list.len() && is_missing(store)(#[trigger] list[k]);
            assert(list.contains(list[k]));
            assert(is_needed(states, project_id, list[k]));
        } else {
            let k = choose|k: int| 0 <= k < list.len() && is_corrupt(store)(#[trigger] list[k]);
            assert(list.contains(list[k]));
            assert(is_needed(states, project_id, list[k]));
        }
    }
}

} // verus!
