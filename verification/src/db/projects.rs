//! The folders that are watched.
use vstd::prelude::*;
use vstd::string::*;

use crate::clock;
use crate::db::{
    full_text, lemma_distinct_push, lemma_numbered_push, same_root, Database, Sequences, Tables,
};
use crate::error::Error;
use crate::models::WatchedProject;
use crate::path;
use crate::rows;
use crate::text;

verus! {

/// Whether a project has the root.
pub open spec fn is_root(root: Seq<char>) -> spec_fn(WatchedProject) -> bool {
    |p: WatchedProject| p.root_path@ == root
}

/// Whether a project has the id.
pub open spec fn is_project(id: i64) -> spec_fn(WatchedProject) -> bool {
    |p: WatchedProject| p.id == id
}

/// Getting the project of `root`, or making one at `now`.
pub open spec fn project_gotten(
    before: Tables,
    after: Tables,
    root: Seq<char>,
    now: i64,
    result: Result<WatchedProject, Error>,
) -> bool {
    if exists|i: int| 0 <= i < before.projects.len() && is_root(root)(#[trigger] before.projects[i]) {
        &&& after == before
        &&& result matches Ok(project)
        &&& before.projects.contains(project)
        &&& project.root_path@ == root
    } else if before.last.projects == i64::MAX {
        &&& after == before
        &&& result matches Err(e)
        &&& e@ == full_text()
    } else {
        &&& result matches Ok(project)
        &&& project.id == before.last.projects + 1
        &&& project.root_path@ == root
        &&& project.created_at == now
        &&& after == (Tables {
            projects: before.projects.push(project),
            last: Sequences { projects: project.id, ..before.last },
            ..before
        })
    }
}

/// Whether a project's folder is `path` or above it.
pub open spec fn covers(project: WatchedProject, path: Seq<char>) -> bool {
    path::in_scope(path, project.root_path@)
}

/// The project that covers a path most closely.
pub open spec fn is_closest(
    projects: Seq<WatchedProject>,
    path: Seq<char>,
    project: Option<WatchedProject>,
) -> bool {
    match project {
        Some(p) => {
            &&& projects.contains(p)
            &&& covers(p, path)
            &&& forall|i: int|
                0 <= i < projects.len() && covers(#[trigger] projects[i], path)
                    ==> projects[i].root_path@.len() <= p.root_path@.len()
        },
        None => forall|i: int|
            0 <= i < projects.len() ==> !covers(#[trigger] projects[i], path),
    }
}

/// All projects that cover a path, the closest first.
pub open spec fn is_covering(
    projects: Seq<WatchedProject>,
    path: Seq<char>,
    list: Seq<WatchedProject>,
) -> bool {
    &&& forall|i: int|
        0 <= i < list.len() ==> projects.contains(#[trigger] list[i]) && covers(list[i], path)
    &&& forall|i: int|
        0 <= i < projects.len() && covers(#[trigger] projects[i], path) ==> list.contains(
            projects[i],
        )
    &&& forall|i: int, j: int|
        0 <= i < j < list.len() ==> (#[trigger] list[i]).root_path@.len() > (
        #[trigger] list[j]).root_path@.len()
}

/// Two folders of one length that cover one path are one folder.
pub proof fn lemma_cover_same_length(a: WatchedProject, b: WatchedProject, path: Seq<char>)
    requires
        covers(a, path),
        covers(b, path),
        a.root_path@.len() == b.root_path@.len(),
    ensures
        a.root_path@ == b.root_path@,
{
    let x = a.root_path@;
    let y = b.root_path@;
    reveal_strlit("/");
    let n = x.len() as int;
    if path == x || path == y {
        if path != x {
            assert((x + "/"@).len() == n + 1);
        }
        if path != y {
            assert((y + "/"@).len() == n + 1);
        }
    } else {
        assert((x + "/"@) =~= path.subrange(0, n + 1));
        assert((y + "/"@) =~= path.subrange(0, n + 1));
        assert(x =~= path.subrange(0, n + 1).take(n)) by {
            assert((x + "/"@).take(n) =~= x);
        }
        assert(y =~= path.subrange(0, n + 1).take(n)) by {
            assert((y + "/"@).take(n) =~= y);
        }
    }
}

impl Database {
    /// The project of `root_path`, made at `now` where there is none.
    pub fn project_at(&mut self, root_path: &str, now: i64) -> (result: Result<
        WatchedProject,
        Error,
    >)
        requires
            old(self)@.wf(),
        ensures
            final(self)@.wf(),
            project_gotten(old(self)@, final(self)@, root_path@, now, result),
    {
        let ghost keep = is_root(root_path@);
        let test = |p: &WatchedProject| -> (yes: bool)
            ensures yes == (p.root_path@ == root_path@)
        { text::same(p.root_path.as_str(), root_path) };
        let at = rows::position(&self.projects, test, Ghost(keep));
        match at {
            Some(i) => {
                assert(keep(self.projects@[i as int]));
                assert(self@.projects.contains(self.projects@[i as int]));
                Ok(self.projects[i].clone())
            },
            None => {
                if self.last.projects == i64::MAX {
                    return Err(Error::new("database or disk is full".to_owned()));
                }
                let id: i64 = self.last.projects + 1;
                let project = WatchedProject { id, root_path: root_path.to_owned(), created_at: now };
                let ghost before = self@;
                let copy = project.clone();
                self.projects.push(project);
                self.last.projects = id;
                proof {
                    lemma_numbered_push(before.projects, before.last.projects, copy, id);
                    assert forall|i: int| 0 <= i < before.projects.len() implies !same_root(
                        #[trigger] before.projects[i],
                        copy,
                    ) by {
                        assert(!keep(before.projects[i]));
                    }
                    lemma_distinct_push(before.projects, |a, b| same_root(a, b), copy);
                }
                Ok(copy)
            },
        }
    }

    /// The project of `root_path`, made now where there is none.
    pub fn get_or_create_project(&mut self, root_path: &str) -> (result: Result<
        WatchedProject,
        Error,
    >)
        requires
            old(self)@.wf(),
        ensures
            final(self)@.wf(),
            exists|now: i64| project_gotten(old(self)@, final(self)@, root_path@, now, result),
    {
        let now = clock::unix_now();
        let result = self.project_at(root_path, now);
        assert(project_gotten(old(self)@, self@, root_path@, now, result));
        result
    }

    /// The project with the id.
    pub fn get_project_by_id(&self, project_id: i64) -> (result: Result<
        Option<WatchedProject>,
        Error,
    >)
        ensures
            result matches Ok(project) && project == rows::lookup(
                self@.projects,
                is_project(project_id),
            ),
    {
        let test = |p: &WatchedProject| -> (yes: bool)
            ensures yes == (p.id == project_id)
        { p.id == project_id };
        Ok(rows::find_row(&self.projects, test, Ghost(is_project(project_id))))
    }

    /// The project whose folder is `path` or above it; of several the one that
    /// lies closest to `path`.
    pub fn find_project_for_path(&self, path: &str) -> (result: Result<
        Option<WatchedProject>,
        Error,
    >)
        ensures
            result matches Ok(project) && is_closest(self@.projects, path@, project),
    {
        let mut best: Option<usize> = None;
        let mut i: usize = 0;
        while i < self.projects.len()
            invariant
                i <= self.projects.len(),
                match best {
                    Some(b) => {
                        &&& b < i
                        &&& covers(self.projects@[b as int], path@)
                        &&& forall|k: int|
                            0 <= k < i && covers(#[trigger] self.projects@[k], path@)
                                ==> self.projects@[k].root_path@.len()
                                <= self.projects@[b as int].root_path@.len()
                    },
                    None => forall|k: int|
                        0 <= k < i ==> !covers(#[trigger] self.projects@[k], path@),
                },
            decreases self.projects.len() - i,
        {
            if path::within(path, self.projects[i].root_path.as_str()) {
                match best {
                    Some(b) => {
                        if self.projects[i].root_path.as_str().unicode_len()
                            > self.projects[b].root_path.as_str().unicode_len() {
                            best = Some(i);
                        }
                    },
                    None => {
                        best = Some(i);
                    },
                }
            }
            i += 1;
        }
        match best {
            Some(b) => {
                assert(self@.projects.contains(self.projects@[b as int]));
                Ok(Some(self.projects[b].clone()))
            },
            None => Ok(None),
        }
    }

    /// All projects whose folder is `path` or above it, the closest first.
    pub fn list_projects_for_path(&self, path: &str) -> (result: Result<
        Vec<WatchedProject>,
        Error,
    >)
        requires
            self@.wf(),
        ensures
            result matches Ok(list) && is_covering(self@.projects, path@, list@),
    {
        let mut list: Vec<WatchedProject> = Vec::new();
        let mut i: usize = 0;
        while i < self.projects.len()
            invariant
                self@.wf(),
                i <= self.projects.len(),
                is_covering(self.projects@.take(i as int), path@, list@),
            decreases self.projects.len() - i,
        {
            let ghost t0 = self.projects@.take(i as int);
            let ghost t1 = self.projects@.take(i + 1);
            let ghost row = self.projects@[i as int];
            let ghost earlier = list@;
            proof {
                assert(t1 =~= t0.push(row));
                assert forall|k: int| 0 <= k < earlier.len() implies t1.contains(
                    #[trigger] earlier[k],
                ) by {
                    assert(t0.contains(earlier[k]));
                    let m = choose|m: int| 0 <= m < t0.len() && t0[m] == earlier[k];
                    assert(t1[m] == earlier[k]);
                }
            }
            if path::within(path, self.projects[i].root_path.as_str()) {
                let n: usize = self.projects[i].root_path.as_str().unicode_len();
                let mut k: usize = list.len();
                while k > 0 && list[k - 1].root_path.as_str().unicode_len() < n
                    invariant
                        k <= list.len(),
                        list@ == earlier,
                        n == row.root_path@.len(),
                        forall|m: int|
                            k <= m < list.len() ==> (#[trigger] list@[m]).root_path@.len() < n,
                    decreases k,
                {
                    k -= 1;
                }
                proof {
                    if k > 0 && earlier[k - 1].root_path@.len() == n {
                        lemma_cover_same_length(earlier[k - 1], row, path@);
                        assert(t0.contains(earlier[k - 1]));
                        let m = choose|m: int| 0 <= m < t0.len() && t0[m] == earlier[k - 1];
                        assert(same_root(self.projects@[m], self.projects@[i as int]));
                    }
                }
                list.insert(k, self.projects[i].clone());
                proof {
                    let now = list@;
                    assert(now == earlier.insert(k as int, row));
                    assert(t1[i as int] == row);
                    assert forall|m: int| 0 <= m < now.len() implies t1.contains(
                        #[trigger] now[m],
                    ) && covers(now[m], path@) by {
                        if m < k {
                            assert(now[m] == earlier[m]);
                        } else if m > k {
                            assert(now[m] == earlier[m - 1]);
                        }
                    }
                    assert forall|m: int|
                        0 <= m < t1.len() && covers(#[trigger] t1[m], path@) implies now.contains(
                        t1[m],
                    ) by {
                        if m < i {
                            assert(t0[m] == t1[m]);
                            assert(earlier.contains(t0[m]));
                            let q = choose|q: int| 0 <= q < earlier.len() && earlier[q] == t0[m];
                            let w = if q < k { q } else { q + 1 };
                            assert(now[w] == t1[m]);
                        } else {
                            assert(now[k as int] == t1[m]);
                        }
                    }
                    assert forall|a: int, b: int| 0 <= a < b < now.len() implies (
                    #[trigger] now[a]).root_path@.len() > (#[trigger] now[b]).root_path@.len() by {
                        if b < k {
                            assert(earlier[a].root_path@.len() > earlier[b].root_path@.len());
                        } else if a > k {
                            assert(earlier[a - 1].root_path@.len() > earlier[b
                                - 1].root_path@.len());
                        } else if a < k {
                            if a < k - 1 {
                                assert(earlier[a].root_path@.len() > earlier[k
                                    - 1].root_path@.len());
                            }
                            if b > k {
                                assert(earlier[a].root_path@.len() > earlier[b
                                    - 1].root_path@.len());
                            }
                        }
                    }
                }
            } else {
                proof {
                    assert forall|m: int|
                        0 <= m < t1.len() && covers(#[trigger] t1[m], path@) implies list@.contains(
                        t1[m],
                    ) by {
                        assert(m < i);
                        assert(t0[m] == t1[m]);
                    }
                }
            }
            i += 1;
        }
        proof {
            assert(self.projects@.take(i as int) =~= self.projects@);
        }
        Ok(list)
    }

    /// The ids of all projects.
    pub fn get_all_project_ids(&self) -> (result: Result<Vec<i64>, Error>)
        ensures
            result matches Ok(ids) && ids@ == self@.projects.map_values(
                |p: WatchedProject| p.id,
            ),
    {
        let mut ids: Vec<i64> = Vec::new();
        let mut i: usize = 0;
        while i < self.projects.len()
            invariant
                i <= self.projects.len(),
                ids@.len() == i,
                forall|k: int| 0 <= k < i ==> ids@[k] == self.projects@[k].id,
            decreases self.projects.len() - i,
        {
            ids.push(self.projects[i].id);
            i += 1;
        }
        proof {
            assert(ids@ =~= self@.projects.map_values(|p: WatchedProject| p.id));
        }
        Ok(ids)
    }
}

} // verus!
