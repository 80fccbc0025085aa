//! Reported changes: the exact paths that an integration announces, the events
//! that it claims when the change ends, and who owns a path.
use vstd::prelude::*;
use vstd::string::*;

use crate::clock;
use crate::db::events::{event_touches, max_id, touches};
use crate::db::projects::is_project;
use crate::db::runs::is_run;
use crate::db::{
    claims_refer, full_text, has_event, has_run, lemma_distinct_push, lemma_numbered_push,
    lemma_numbered_update, same_boundary_path, same_change, BoundaryPath, Claim, Database,
    Sequences, Tables,
};
use crate::error::Error;
use crate::models::{FileEvent, Run, RunBoundary};
use crate::number;
use crate::path;
use crate::rows;
use crate::rows::{ids_grow, Row};
use crate::sorted;
use crate::text;

verus! {

// ── looking up changes ──────────────────────────────────────────────

/// The change of a Run with an external id.
pub open spec fn is_change(run_id: i64, external_change_id: Seq<char>) -> spec_fn(
    RunBoundary,
) -> bool {
    |b: RunBoundary| b.run_id == run_id && b.external_change_id@ == external_change_id
}

/// Whether a path was announced for a change.
pub open spec fn announced(paths: Seq<BoundaryPath>, boundary_id: i64, path: Seq<char>) -> bool {
    exists|i: int|
        0 <= i < paths.len() && (#[trigger] paths[i]).boundary_id == boundary_id && paths[i].path@
            == path
}

/// Whether a list holds exactly the paths announced for a change, in order.
pub open spec fn are_announced(
    paths: Seq<BoundaryPath>,
    boundary_id: i64,
    list: Seq<Seq<char>>,
) -> bool {
    &&& sorted::ascending(list)
    &&& forall|p: Seq<char>| #[trigger] list.contains(p) <==> announced(paths, boundary_id, p)
}

/// Whether a path may be announced in a project: absolute, without `.` or `..`
/// components, and inside the folder.
pub open spec fn is_claimable(path: Seq<char>, root: Seq<char>) -> bool {
    &&& path::is_absolute(path)
    &&& !path::has_parent(path)
    &&& path::names_below(path, root) is Some
}

/// What is said of a list of paths that cannot be announced for a Run.
pub open spec fn paths_checked(
    t: Tables,
    run: Run,
    paths: Seq<Seq<char>>,
    result: Result<Seq<Seq<char>>, Seq<char>>,
) -> bool {
    if paths.len() == 0 || !paths.no_duplicates() {
        result == Err::<Seq<Seq<char>>, Seq<char>>(
            "a reported change requires a non-empty unique path set"@,
        )
    } else {
        match rows::lookup(t.projects, is_project(run.project_id)) {
            None => result == Err::<Seq<Seq<char>>, Seq<char>>(
                "project "@ + number::decimal(run.project_id as int) + " not found"@,
            ),
            Some(project) => {
                let root = project.root_path@;
                if exists|i: int| 0 <= i < paths.len() && !is_claimable(#[trigger] paths[i], root) {
                    result matches Err(e) && exists|p: Seq<char>|
                        {
                            &&& paths.contains(p)
                            &&& !is_claimable(p, root)
                            &&& forall|q: Seq<char>|
                                paths.contains(q) && !is_claimable(q, root) ==> q == p
                                    || sorted::less(p, q)
                            &&& e == #[trigger] claim_refusal(p, root)
                        }
                } else {
                    result matches Ok(list) && sorted::is_sorted_set(paths, list)
                }
            },
        }
    }
}

/// What is said of a path that cannot be announced.
pub open spec fn claim_refusal(path: Seq<char>, root: Seq<char>) -> Seq<char> {
    "reported claim path '"@ + path + "' must be a normalized absolute path inside "@ + root
}

/// The answer to announcing a change again with other paths.
pub open spec fn other_paths_text() -> Seq<char> {
    "idempotent replay for this change used a different exact path set"@
}

/// The answer to a change of a Run that has ended.
pub open spec fn run_complete_text(run: Run) -> Seq<char> {
    "Run "@ + ("r_"@ + number::decimal(run.id as int)) + " is already complete"@
}

/// The answer to a Run that is not there.
pub open spec fn run_missing_text(run_id: i64) -> Seq<char> {
    "Run r_"@ + number::decimal(run_id as int) + " not found"@
}

// ── opening a change ────────────────────────────────────────────────

/// Whether a change row is new.
pub open spec fn is_new_boundary(
    b: RunBoundary,
    id: int,
    run_id: i64,
    external_change_id: Seq<char>,
    event_id: int,
    now: i64,
) -> bool {
    &&& b.id == id
    &&& b.run_id == run_id
    &&& b.external_change_id@ == external_change_id
    &&& b.status@ == "open"@
    &&& b.start_event_id == event_id
    &&& b.end_event_id is None
    &&& b.started_at == now
    &&& b.ended_at is None
    &&& b.created_at == now
    &&& b.updated_at == now
}

/// Whether the announced paths are those of before and, for one change, those
/// of a list.
pub open spec fn paths_announced(
    before: Seq<BoundaryPath>,
    after: Seq<BoundaryPath>,
    boundary_id: i64,
    list: Seq<Seq<char>>,
) -> bool {
    &&& after.len() == before.len() + list.len()
    &&& forall|i: int| 0 <= i < before.len() ==> #[trigger] after[i] == before[i]
    &&& forall|i: int|
        before.len() <= i < after.len() ==> (#[trigger] after[i]).boundary_id == boundary_id
            && after[i].path@ == list[i - before.len()]
}

/// Opening a change of a Run at a time.
pub open spec fn boundary_opened(
    before: Tables,
    after: Tables,
    run_id: i64,
    external_change_id: Seq<char>,
    paths: Seq<Seq<char>>,
    now: i64,
    result: Result<RunBoundary, Error>,
) -> bool {
    match rows::lookup(before.sessions, is_run(run_id)) {
        None => after == before && (result matches Err(e) && e@ == run_missing_text(run_id)),
        Some(run) => if run.attribution_mode@ != "reported"@ {
            after == before && (result matches Err(e) && e@ == "Run "@ + ("r_"@ + number::decimal(
                run.id as int,
            )) + " uses window attribution and cannot accept explicit change claims"@)
        } else if run.ended_at is Some {
            after == before && (result matches Err(e) && e@ == run_complete_text(run))
        } else if exists|e: Seq<char>| #[trigger] paths_checked(before, run, paths, Err(e)) {
            after == before && (result matches Err(e) && paths_checked(
                before,
                run,
                paths,
                Err(e@),
            ))
        } else {
            match rows::lookup(before.boundaries, is_change(run_id, external_change_id)) {
                Some(existing) => {
                    &&& after == before
                    &&& if forall|p: Seq<char>|
                        announced(before.boundary_paths, existing.id, p) <==> #[trigger] paths.contains(
                            p,
                        ) {
                        result matches Ok(b) && b == existing
                    } else {
                        result matches Err(e) && e@ == other_paths_text()
                    }
                },
                None => if before.last.boundaries == i64::MAX {
                    after == before && (result matches Err(e) && e@ == full_text())
                } else {
                    &&& result matches Ok(b)
                    &&& is_new_boundary(
                        b,
                        before.last.boundaries + 1,
                        run_id,
                        external_change_id,
                        max_id(before.events, run.project_id),
                        now,
                    )
                    &&& exists|list: Seq<Seq<char>>|
                        sorted::is_sorted_set(paths, list) && #[trigger] paths_announced(
                            before.boundary_paths,
                            after.boundary_paths,
                            b.id,
                            list,
                        )
                    &&& after == (Tables {
                        boundaries: before.boundaries.push(b),
                        boundary_paths: after.boundary_paths,
                        last: Sequences { boundaries: b.id, ..before.last },
                        ..before
                    })
                },
            }
        },
    }
}

impl Database {
    /// The change of a Run with an external id.
    pub fn get_run_boundary_by_external_id(
        &self,
        run_id: i64,
        external_change_id: &str,
    ) -> (result: Result<Option<RunBoundary>, Error>)
        ensures
            result matches Ok(b) && b == rows::lookup(
                self@.boundaries,
                is_change(run_id, external_change_id@),
            ),
    {
        let test = |b: &RunBoundary| -> (yes: bool)
            ensures yes == (b.run_id == run_id && b.external_change_id@ == external_change_id@)
        { b.run_id == run_id && text::same(b.external_change_id.as_str(), external_change_id) };
        Ok(
            rows::find_row(
                &self.boundaries,
                test,
                Ghost(is_change(run_id, external_change_id@)),
            ),
        )
    }

    /// The paths announced for a change, in ascending order.
    pub fn get_run_boundary_paths(&self, boundary_id: i64) -> (result: Result<Vec<String>, Error>)
        ensures
            result matches Ok(list) && are_announced(
                self@.boundary_paths,
                boundary_id,
                text::views(list@),
            ),
    {
        let mut list: Vec<String> = Vec::new();
        let mut i: usize = 0;
        while i < self.boundary_paths.len()
            invariant
                i <= self.boundary_paths.len(),
                sorted::in_order(list@),
                forall|p: Seq<char>|
                    #[trigger] text::views(list@).contains(p) <==> announced(
                        self.boundary_paths@.take(i as int),
                        boundary_id,
                        p,
                    ),
            decreases self.boundary_paths.len() - i,
        {
            let ghost t0 = self.boundary_paths@.take(i as int);
            let ghost t1 = self.boundary_paths@.take(i + 1);
            let ghost earlier = text::views(list@);
            let ghost row = self.boundary_paths@[i as int];
            if self.boundary_paths[i].boundary_id == boundary_id {
                let _ = sorted::insert(&mut list, self.boundary_paths[i].path.clone());
            }
            proof {
                assert forall|p: Seq<char>|
                    #[trigger] text::views(list@).contains(p) <==> announced(
                        t1,
                        boundary_id,
                        p,
                    ) by {
                    assert(earlier.contains(p) <==> announced(t0, boundary_id, p));
                    if announced(t0, boundary_id, p) {
                        let k = choose|k: int|
                            0 <= k < t0.len() && (#[trigger] t0[k]).boundary_id == boundary_id
                                && t0[k].path@ == p;
                        assert(t1[k] == t0[k]);
                    }
                    if announced(t1, boundary_id, p) {
                        let k = choose|k: int|
                            0 <= k < t1.len() && (#[trigger] t1[k]).boundary_id == boundary_id
                                && t1[k].path@ == p;
                        if k < i {
                            assert(t0[k] == t1[k]);
                        }
                    }
                    assert(t1[i as int] == row);
                }
            }
            i += 1;
        }
        proof {
            assert(self.boundary_paths@.take(i as int) =~= self.boundary_paths@);
        }
        Ok(list)
    }

    /// The paths that can be announced for a Run, in ascending order, or what is
    /// said where one cannot.
    fn validated_boundary_paths(&self, run: &Run, paths: &Vec<String>) -> (result: Result<
        Vec<String>,
        Error,
    >)
        ensures
            match result {
                Ok(list) => paths_checked(
                    self@,
                    *run,
                    text::views(paths@),
                    Ok(text::views(list@)),
                ),
                Err(e) => paths_checked(self@, *run, text::views(paths@), Err(e@)),
            },
    {
        let ghost given = text::views(paths@);
        let requested = sorted::sorted_set(paths);
        let ghost wanted = text::views(requested@);
        proof {
            if given.len() == 0 {
                assert(given =~= Seq::<Seq<char>>::empty());
                if wanted.len() > 0 {
                    assert(wanted.contains(wanted[0]));
                }
            } else {
                assert(given.contains(given[0]));
            }
        }
        if requested.len() == 0 || requested.len() != paths.len() {
            return Err(
                Error::new("a reported change requires a non-empty unique path set".to_owned()),
            );
        }
        match self.get_project_by_id(run.project_id)? {
            None => Err(
                Error::new(
                    text::cat3(
                        "project ",
                        number::signed_text(run.project_id).as_str(),
                        " not found",
                    ),
                ),
            ),
            Some(project) => {
                let ghost root = project.root_path@;
                let mut i: usize = 0;
                while i < requested.len()
                    invariant
                        i <= requested.len(),
                        given == text::views(paths@),
                        wanted == text::views(requested@),
                        sorted::is_sorted_set(given, wanted),
                        given.len() > 0,
                        given.no_duplicates(),
                        root == project.root_path@,
                        rows::lookup(self@.projects, is_project(run.project_id)) == Some(project),
                        forall|k: int| 0 <= k < i ==> is_claimable(#[trigger] wanted[k], root),
                    decreases requested.len() - i,
                {
                    let p = requested[i].as_str();
                    let names = path::path_names(p);
                    let fits = path::absolute(p) && !text::contains(&names, "..") && path::below(
                        p,
                        project.root_path.as_str(),
                    ).is_some();
                    proof {
                        assert(wanted[i as int] == p@);
                        assert(fits == is_claimable(p@, root));
                    }
                    if !fits {
                        let head = text::cat3(
                            "reported claim path '",
                            p,
                            "' must be a normalized absolute path inside ",
                        );
                        proof {
                            assert(wanted.contains(p@));
                            assert(given.contains(p@));
                            let k = choose|k: int| 0 <= k < given.len() && given[k] == p@;
                            assert(!is_claimable(given[k], root));
                            assert forall|q: Seq<char>|
                                given.contains(q) && !is_claimable(q, root) implies q == p@
                                || sorted::less(p@, q) by {
                                assert(wanted.contains(q));
                                let m = choose|m: int| 0 <= m < wanted.len() && wanted[m] == q;
                                if m < i {
                                    assert(is_claimable(wanted[m], root));
                                }
                            }
                        }
                        let result = Err(
                            Error::new(text::cat(head.as_str(), project.root_path.as_str())),
                        );
                        proof {
                            assert(result->Err_0@ == claim_refusal(p@, root));
                        }
                        return result;
                    }
                    i += 1;
                }
                proof {
                    assert forall|k: int| 0 <= k < given.len() implies is_claimable(
                        #[trigger] given[k],
                        root,
                    ) by {
                        assert(given.contains(given[k]));
                        assert(wanted.contains(given[k]));
                        let m = choose|m: int| 0 <= m < wanted.len() && wanted[m] == given[k];
                        assert(is_claimable(wanted[m], root));
                    }
                }
                Ok(requested)
            },
        }
    }

    /// Whether the paths announced for a change are those of a list in order.
    fn same_boundary_paths(&self, boundary_id: i64, requested: &Vec<String>) -> (same: bool)
        requires
            sorted::in_order(requested@),
        ensures
            same == forall|p: Seq<char>|
                announced(self@.boundary_paths, boundary_id, p) <==> #[trigger] text::views(
                    requested@,
                ).contains(p),
    {
        let stored = self.get_run_boundary_paths(boundary_id);
        match stored {
            Err(_) => false,
            Ok(stored) => {
                let ghost a = text::views(stored@);
                let ghost b = text::views(requested@);
                let equal = same_list(&stored, requested);
                proof {
                    if equal {
                        assert forall|p: Seq<char>|
                            announced(self@.boundary_paths, boundary_id, p)
                                <==> #[trigger] b.contains(p) by {
                            assert(a.contains(p) <==> announced(
                                self@.boundary_paths,
                                boundary_id,
                                p,
                            ));
                        }
                    } else if forall|p: Seq<char>|
                        announced(self@.boundary_paths, boundary_id, p) <==> #[trigger] b.contains(
                            p,
                        ) {
                        assert forall|p: Seq<char>| a.contains(p) <==> b.contains(p) by {
                            assert(a.contains(p) <==> announced(
                                self@.boundary_paths,
                                boundary_id,
                                p,
                            ));
                        }
                        sorted::lemma_ascending_unique(a, b);
                    }
                }
                equal
            },
        }
    }
}

/// Whether two lists hold the same strings at the same places.
pub fn same_list(a: &Vec<String>, b: &Vec<String>) -> (equal: bool)
    ensures
        equal == (text::views(a@) == text::views(b@)),
{
    if a.len() != b.len() {
        proof {
            assert(text::views(a@).len() != text::views(b@).len());
        }
        return false;
    }
    let mut i: usize = 0;
    while i < a.len()
        invariant
            i <= a.len() == b.len(),
            forall|k: int| 0 <= k < i ==> (#[trigger] a@[k])@ == b@[k]@,
        decreases a.len() - i,
    {
        if !text::same(a[i].as_str(), b[i].as_str()) {
            proof {
                assert(text::views(a@)[i as int] != text::views(b@)[i as int]);
            }
            return false;
        }
        i += 1;
    }
    proof {
        assert(text::views(a@) =~= text::views(b@));
    }
    true
}

impl Database {
    /// Opens a change of a Run at a time.
    pub fn open_run_boundary_at(
        &mut self,
        run_id: i64,
        external_change_id: &str,
        paths: &Vec<String>,
        now: i64,
    ) -> (result: Result<RunBoundary, Error>)
        requires
            old(self)@.wf(),
        ensures
            final(self)@.wf(),
            boundary_opened(
                old(self)@,
                final(self)@,
                run_id,
                external_change_id@,
                text::views(paths@),
                now,
                result,
            ),
    {
        let ghost before = self@;
        let ghost given = text::views(paths@);
        let run = match self.get_session_by_id(run_id)? {
            None => {
                return Err(
                    Error::new(
                        text::cat3("Run r_", number::signed_text(run_id).as_str(), " not found"),
                    ),
                );
            },
            Some(run) => run,
        };
        if !run.is_reported() {
            return Err(
                Error::new(
                    text::cat3(
                        "Run ",
                        run.public_id().as_str(),
                        " uses window attribution and cannot accept explicit change claims",
                    ),
                ),
            );
        }
        if !run.is_active() {
            return Err(
                Error::new(text::cat3("Run ", run.public_id().as_str(), " is already complete")),
            );
        }
        let requested = match self.validated_boundary_paths(&run, paths) {
            Err(e) => {
                return Err(e);
            },
            Ok(list) => list,
        };
        proof {
            assert forall|e: Seq<char>| !#[trigger] paths_checked(before, run, given, Err(e)) by {}
        }
        if let Some(existing) = self.get_run_boundary_by_external_id(run_id, external_change_id)? {
            let same = self.same_boundary_paths(existing.id, &requested);
            proof {
                let list = text::views(requested@);
                if same {
                    assert forall|p: Seq<char>|
                        announced(before.boundary_paths, existing.id, p)
                            <==> #[trigger] given.contains(p) by {
                        assert(list.contains(p) <==> given.contains(p));
                    }
                } else if forall|p: Seq<char>|
                    announced(before.boundary_paths, existing.id, p) <==> #[trigger] given.contains(
                        p,
                    ) {
                    assert forall|p: Seq<char>|
                        announced(before.boundary_paths, existing.id, p)
                            <==> #[trigger] list.contains(p) by {
                        assert(list.contains(p) <==> given.contains(p));
                    }
                }
            }
            if same {
                return Ok(existing);
            }
            return Err(
                Error::new(
                    "idempotent replay for this change used a different exact path set".to_owned(),
                ),
            );
        }
        if self.last.boundaries == i64::MAX {
            return Err(Error::new("database or disk is full".to_owned()));
        }
        let id: i64 = self.last.boundaries + 1;
        let start_event_id = self.highest_event_id(run.project_id);
        let row = RunBoundary {
            id,
            run_id: run.id,
            external_change_id: external_change_id.to_owned(),
            status: "open".to_owned(),
            start_event_id,
            end_event_id: None,
            started_at: now,
            ended_at: None,
            created_at: now,
            updated_at: now,
        };
        let copy = row.clone();
        proof {
            rows::lemma_lookup_kept(before.sessions, is_run(run_id));
            rows::lemma_lookup_kept(before.boundaries, is_change(run_id, external_change_id@));
        }
        self.boundaries.push(row);
        self.last.boundaries = id;
        let ghost list = text::views(requested@);
        let mut i: usize = 0;
        let ghost half = self@;
        while i < requested.len()
            invariant
                i <= requested.len(),
                list == text::views(requested@),
                self@ == (Tables { boundary_paths: self@.boundary_paths, ..half }),
                paths_announced(
                    before.boundary_paths,
                    self@.boundary_paths,
                    id,
                    list.take(i as int),
                ),
            decreases requested.len() - i,
        {
            self.boundary_paths.push(BoundaryPath { boundary_id: id, path: requested[i].clone() });
            proof {
                assert(list.take(i + 1) =~= list.take(i as int).push(list[i as int]));
            }
            i += 1;
        }
        proof {
            assert(list.take(i as int) =~= list);
            assert(sorted::is_sorted_set(given, list));
            lemma_boundary_opened_wf(before, self@, copy, list);
        }
        Ok(copy)
    }

    /// Opens a change of a Run now, with its exact paths. The row records what
    /// an integration claims; it is no evidence of which process wrote a file.
    pub fn open_run_boundary(
        &mut self,
        run_id: i64,
        external_change_id: &str,
        paths: &Vec<String>,
    ) -> (result: Result<RunBoundary, Error>)
        requires
            old(self)@.wf(),
        ensures
            final(self)@.wf(),
            exists|now: i64|
                #[trigger] boundary_opened(
                    old(self)@,
                    final(self)@,
                    run_id,
                    external_change_id@,
                    text::views(paths@),
                    now,
                    result,
                ),
    {
        let now = clock::unix_now();
        self.open_run_boundary_at(run_id, external_change_id, paths, now)
    }
}

/// A new change keeps the tables well formed.
proof fn lemma_boundary_opened_wf(
    before: Tables,
    after: Tables,
    row: RunBoundary,
    list: Seq<Seq<char>>,
)
    requires
        before.wf(),
        before.last.boundaries < i64::MAX,
        row.id == before.last.boundaries + 1,
        sorted::ascending(list),
        forall|i: int| 0 <= i < before.boundaries.len() ==> !same_change(#[trigger] before.boundaries[i], row),
        paths_announced(before.boundary_paths, after.boundary_paths, row.id, list),
        after == (Tables {
            boundaries: before.boundaries.push(row),
            boundary_paths: after.boundary_paths,
            last: Sequences { boundaries: row.id, ..before.last },
            ..before
        }),
    ensures
        after.wf(),
{
    lemma_numbered_push(before.boundaries, before.last.boundaries, row, row.id);
    lemma_distinct_push(before.boundaries, |a, b| same_change(a, b), row);
    let n = before.boundary_paths.len();
    assert forall|i: int, j: int| 0 <= i < j < after.boundary_paths.len() implies
        !same_boundary_path(#[trigger] after.boundary_paths[i], #[trigger] after.boundary_paths[j]) by {
        if j < n {
            assert(!same_boundary_path(before.boundary_paths[i], before.boundary_paths[j]));
        } else if i >= n {
            sorted::lemma_less_asymmetric(list[i - n], list[j - n]);
        } else {
            assert(before.boundary_paths[i].boundary_id <= before.last.boundaries);
        }
    }
    assert forall|i: int| 0 <= i < after.boundary_paths.len() implies (
    #[trigger] after.boundary_paths[i]).boundary_id <= after.last.boundaries by {
        if i < n {
            assert(before.boundary_paths[i].boundary_id <= before.last.boundaries);
        }
    }
}

// ── claiming events ─────────────────────────────────────────────────

/// Whether a Run has claimed an event.
pub open spec fn claims_event(claims: Seq<Claim>, session_id: i64, event_id: i64) -> bool {
    claims.contains(Claim { session_id, event_id })
}

/// Whether the claims are those of before and, of one Run, those on some events.
pub open spec fn claims_extended(
    before: Seq<Claim>,
    after: Seq<Claim>,
    session_id: i64,
    events: Seq<FileEvent>,
) -> bool {
    &&& before.is_prefix_of(after)
    &&& after.no_duplicates()
    &&& forall|c: Claim|
        #[trigger] after.contains(c) <==> before.contains(c) || (c.session_id == session_id && has_event(
            events,
            c.event_id,
        ))
}

/// Whether `claims` hold the claim of a Run on an event.
pub(crate) fn has_claim(claims: &Vec<Claim>, session_id: i64, event_id: i64) -> (yes: bool)
    ensures
        yes == claims_event(claims@, session_id, event_id),
{
    let mut i: usize = 0;
    while i < claims.len()
        invariant
            i <= claims.len(),
            forall|k: int| 0 <= k < i ==> claims@[k] != (Claim { session_id, event_id }),
        decreases claims.len() - i,
    {
        if claims[i].session_id == session_id && claims[i].event_id == event_id {
            assert(claims@[i as int] == (Claim { session_id, event_id }));
            return true;
        }
        i += 1;
    }
    false
}

impl Database {
    /// Claims some events for a Run.
    pub(crate) fn claim_events(&mut self, session_id: i64, events: &Vec<FileEvent>)
        requires
            old(self)@.claims.no_duplicates(),
        ensures
            final(self)@ == (Tables { claims: final(self)@.claims, ..old(self)@ }),
            claims_extended(old(self)@.claims, final(self)@.claims, session_id, events@),
    {
        let ghost before = self@;
        let mut i: usize = 0;
        proof {
            assert(before.claims.subrange(0, before.claims.len() as int) =~= before.claims);
        }
        while i < events.len()
            invariant
                i <= events.len(),
                self@ == (Tables { claims: self@.claims, ..before }),
                claims_extended(
                    before.claims,
                    self@.claims,
                    session_id,
                    events@.take(i as int),
                ),
            decreases events.len() - i,
        {
            let id: i64 = events[i].id;
            let ghost earlier = self@.claims;
            let ghost t0 = events@.take(i as int);
            let ghost t1 = events@.take(i + 1);
            let ghost new = Claim { session_id, event_id: id };
            proof {
                assert forall|e: i64| #[trigger] has_event(t1, e) <==> has_event(t0, e) || e == id by {
                    if has_event(t1, e) {
                        let k = choose|k: int| 0 <= k < t1.len() && (#[trigger] t1[k]).id == e;
                        if k < i {
                            assert(t0[k] == t1[k]);
                        }
                    }
                    if has_event(t0, e) {
                        let k = choose|k: int| 0 <= k < t0.len() && (#[trigger] t0[k]).id == e;
                        assert(t1[k] == t0[k]);
                    }
                    assert(t1[i as int].id == id);
                }
            }
            if !has_claim(&self.claims, session_id, id) {
                self.claims.push(Claim { session_id, event_id: id });
                proof {
                    let now = self@.claims;
                    assert(now == earlier.push(new));
                    assert(before.claims =~= now.subrange(0, before.claims.len() as int)) by {
                        assert(before.claims =~= earlier.subrange(0, before.claims.len() as int));
                    }
                    assert forall|a: int, b: int|
                        0 <= a < now.len() && 0 <= b < now.len() && a != b implies now[a]
                        != now[b] by {
                        if a == earlier.len() {
                            assert(earlier.contains(earlier[b]));
                        } else if b == earlier.len() {
                            assert(earlier.contains(earlier[a]));
                        }
                    }
                    assert forall|c: Claim|
                        #[trigger] now.contains(c) <==> earlier.contains(c) || c == new by {
                        if now.contains(c) {
                            let k = choose|k: int| 0 <= k < now.len() && now[k] == c;
                            if k < earlier.len() {
                                assert(earlier[k] == c);
                            }
                        }
                        if earlier.contains(c) {
                            let k = choose|k: int| 0 <= k < earlier.len() && earlier[k] == c;
                            assert(now[k] == c);
                        }
                        assert(now[earlier.len() as int] == new);
                    }
                }
            }
            proof {
                assert forall|c: Claim|
                    #[trigger] self@.claims.contains(c) <==> before.claims.contains(c) || (
                    c.session_id == session_id && has_event(t1, c.event_id)) by {
                    assert(earlier.contains(c) <==> before.claims.contains(c) || (c.session_id
                        == session_id && has_event(t0, c.event_id)));
                    if c.session_id == session_id && c.event_id == id {
                        assert(c == new);
                    }
                }
            }
            i += 1;
        }
        proof {
            assert(events@.take(i as int) =~= events@);
        }
    }
}

// ── ending a change ─────────────────────────────────────────────────

/// Whether an event touches one of the paths announced for a change.
pub open spec fn touches_announced(e: FileEvent, paths: Seq<BoundaryPath>, boundary_id: i64) -> bool {
    exists|i: int|
        0 <= i < paths.len() && (#[trigger] paths[i]).boundary_id == boundary_id && touches(
            e,
            paths[i].path@,
        )
}

/// The events that a change claims when it ends: those since it was opened that
/// touch one of its paths.
pub open spec fn claimed_by(
    project_id: i64,
    first: i64,
    last: i64,
    paths: Seq<BoundaryPath>,
    boundary_id: i64,
) -> spec_fn(FileEvent) -> bool {
    |e: FileEvent|
        {
            &&& e.project_id == project_id
            &&& e.id > first
            &&& e.id <= last
            &&& touches_announced(e, paths, boundary_id)
        }
}

/// Whether a change row is another one, closed.
pub open spec fn is_closed_boundary(b: RunBoundary, from: RunBoundary, event_id: int, now: i64) -> bool {
    if from.status@ == "open"@ {
        &&& b.status@ == "closed"@
        &&& b == (RunBoundary {
            status: b.status,
            end_event_id: Some(event_id as i64),
            ended_at: Some(now),
            updated_at: now,
            ..from
        })
    } else {
        b == from
    }
}

/// Whether a change row is another one, aborted.
pub open spec fn is_aborted_boundary(b: RunBoundary, from: RunBoundary, now: i64) -> bool {
    if from.status@ == "open"@ {
        &&& b.status@ == "aborted"@
        &&& b == (RunBoundary { status: b.status, ended_at: Some(now), updated_at: now, ..from })
    } else {
        b == from
    }
}

/// Whether the changes are those of before but for one that was replaced.
pub open spec fn boundaries_with(
    before: Seq<RunBoundary>,
    after: Seq<RunBoundary>,
    from: RunBoundary,
    to: RunBoundary,
) -> bool {
    exists|at: int|
        0 <= at < before.len() && before[at] == from && after == #[trigger] before.update(at, to)
}

/// Closing a change of a Run at a time.
pub open spec fn boundary_closed(
    before: Tables,
    after: Tables,
    run_id: i64,
    external_change_id: Seq<char>,
    paths: Seq<Seq<char>>,
    now: i64,
    result: Result<RunBoundary, Error>,
) -> bool {
    let found_run = rows::lookup(before.sessions, is_run(run_id));
    let found = rows::lookup(before.boundaries, is_change(run_id, external_change_id));
    if found_run is None {
        after == before && (result matches Err(e) && e@ == run_missing_text(run_id))
    } else if found is None {
        after == before && (result matches Err(e) && e@ == "change '"@ + external_change_id
            + "' was not opened for Run "@ + ("r_"@ + number::decimal(run_id as int)))
    } else if exists|e: Seq<char>| #[trigger] paths_checked(before, found_run->0, paths, Err(e)) {
        after == before && (result matches Err(e) && paths_checked(
            before,
            found_run->0,
            paths,
            Err(e@),
        ))
    } else if !(forall|p: Seq<char>|
        announced(before.boundary_paths, found->0.id, p) <==> #[trigger] paths.contains(p)) {
        after == before && (result matches Err(e) && e@ == other_paths_text())
    } else if found->0.status@ == "closed"@ {
        after == before && (result matches Ok(b) && b == found->0)
    } else if found->0.status@ == "aborted"@ {
        after == before && (result matches Err(e) && e@ == "change '"@ + external_change_id
            + "' was aborted when Run "@ + ("r_"@ + number::decimal(run_id as int))
            + " completed"@)
    } else if found_run->0.ended_at is Some {
        after == before && (result matches Err(e) && e@ == run_complete_text(found_run->0))
    } else {
        let run = found_run->0;
        let from = found->0;
        let last = max_id(before.events, run.project_id);
        let keep = claimed_by(
            run.project_id,
            from.start_event_id,
            last as i64,
            before.boundary_paths,
            from.id,
        );
        &&& result matches Ok(b)
        &&& is_closed_boundary(b, from, last, now)
        &&& boundaries_with(before.boundaries, after.boundaries, from, b)
        &&& claims_extended(
            before.claims,
            after.claims,
            run_id,
            rows::retained(before.events, keep),
        )
        &&& after == (Tables { boundaries: after.boundaries, claims: after.claims, ..before })
    }
}

/// Aborting a change of a Run at a time.
pub open spec fn boundary_aborted(
    before: Tables,
    after: Tables,
    run_id: i64,
    external_change_id: Seq<char>,
    now: i64,
    result: Result<RunBoundary, Error>,
) -> bool {
    match rows::lookup(before.boundaries, is_change(run_id, external_change_id)) {
        None => after == before && (result matches Err(e) && e@ == "change '"@ + external_change_id
            + "' was not opened for Run r_"@ + number::decimal(run_id as int)),
        Some(from) => {
            &&& result matches Ok(b)
            &&& is_aborted_boundary(b, from, now)
            &&& boundaries_with(before.boundaries, after.boundaries, from, b)
            &&& after == (Tables { boundaries: after.boundaries, ..before })
        },
    }
}

/// Whether the open changes of a Run are aborted, and all others unchanged.
pub open spec fn open_aborted(
    before: Seq<RunBoundary>,
    after: Seq<RunBoundary>,
    run_id: i64,
    now: i64,
) -> bool {
    &&& after.len() == before.len()
    &&& forall|i: int|
        0 <= i < before.len() ==> if before[i].run_id == run_id {
            is_aborted_boundary(#[trigger] after[i], before[i], now)
        } else {
            after[i] == before[i]
        }
}

/// Claims on stored events by a stored Run keep the tables well formed.
pub(crate) proof fn lemma_claims_extended_refer(
    before: Tables,
    claims: Seq<Claim>,
    session_id: i64,
    keep: spec_fn(FileEvent) -> bool,
)
    requires
        before.wf(),
        has_run(before.sessions, session_id),
        claims_extended(before.claims, claims, session_id, rows::retained(before.events, keep)),
    ensures
        claims_refer(claims, before.sessions, before.events),
{
    let chosen = rows::retained(before.events, keep);
    rows::lemma_retained_contains(before.events, keep);
    assert forall|i: int| 0 <= i < claims.len() implies has_run(
        before.sessions,
        (#[trigger] claims[i]).session_id,
    ) && has_event(before.events, claims[i].event_id) by {
        let c = claims[i];
        assert(claims.contains(c));
        if before.claims.contains(c) {
            let k = choose|k: int| 0 <= k < before.claims.len() && before.claims[k] == c;
            assert(has_run(before.sessions, before.claims[k].session_id));
        } else {
            let k = choose|k: int| 0 <= k < chosen.len() && (#[trigger] chosen[k]).id == c.event_id;
            assert(chosen.contains(chosen[k]));
            let m = choose|m: int| 0 <= m < before.events.len() && before.events[m] == chosen[k];
            assert(before.events[m].id == c.event_id);
        }
    }
}

/// A change may be replaced by one with the same id, Run and external id.
pub(crate) proof fn lemma_boundary_update_wf(before: Tables, after: Tables, at: int, to: RunBoundary)
    requires
        before.wf(),
        0 <= at < before.boundaries.len(),
        to.id == before.boundaries[at].id,
        to.run_id == before.boundaries[at].run_id,
        to.external_change_id == before.boundaries[at].external_change_id,
        after == (Tables { boundaries: before.boundaries.update(at, to), ..before }),
    ensures
        after.wf(),
{
    lemma_numbered_update(before.boundaries, before.last.boundaries, at, to);
    assert forall|i: int, j: int| 0 <= i < j < after.boundaries.len() implies !same_change(
        #[trigger] after.boundaries[i],
        #[trigger] after.boundaries[j],
    ) by {
        assert(!same_change(before.boundaries[i], before.boundaries[j]));
    }
}

impl Database {
    /// Whether an event touches one of the paths announced for a change.
    fn event_announced(paths: &Vec<BoundaryPath>, boundary_id: i64, e: &FileEvent) -> (yes: bool)
        ensures
            yes == touches_announced(*e, paths@, boundary_id),
    {
        let mut i: usize = 0;
        while i < paths.len()
            invariant
                i <= paths.len(),
                forall|k: int|
                    0 <= k < i ==> !((#[trigger] paths@[k]).boundary_id == boundary_id && touches(
                        *e,
                        paths@[k].path@,
                    )),
            decreases paths.len() - i,
        {
            if paths[i].boundary_id == boundary_id && event_touches(e, paths[i].path.as_str()) {
                return true;
            }
            i += 1;
        }
        false
    }

    /// Where the change of a Run with an external id is stored.
    fn boundary_position(&self, run_id: i64, external_change_id: &str) -> (at: Option<usize>)
        ensures
            match at {
                Some(i) => i < self@.boundaries.len() && rows::lookup(
                    self@.boundaries,
                    is_change(run_id, external_change_id@),
                ) == Some(self@.boundaries[i as int]),
                None => rows::lookup(
                    self@.boundaries,
                    is_change(run_id, external_change_id@),
                ) is None,
            },
    {
        let ghost keep = is_change(run_id, external_change_id@);
        let test = |b: &RunBoundary| -> (yes: bool)
            ensures yes == (b.run_id == run_id && b.external_change_id@ == external_change_id@)
        { b.run_id == run_id && text::same(b.external_change_id.as_str(), external_change_id) };
        let at = rows::position(&self.boundaries, test, Ghost(keep));
        proof {
            match at {
                Some(i) => rows::lemma_lookup(self@.boundaries, keep, Some(i as int)),
                None => rows::lemma_lookup(self@.boundaries, keep, None),
            }
        }
        at
    }

    /// Closes a change of a Run at a time, and claims the events since it was
    /// opened whose path, or whose former path, is exactly one of its paths.
    pub fn close_run_boundary_at(
        &mut self,
        run_id: i64,
        external_change_id: &str,
        paths: &Vec<String>,
        now: i64,
    ) -> (result: Result<RunBoundary, Error>)
        requires
            old(self)@.wf(),
        ensures
            final(self)@.wf(),
            boundary_closed(
                old(self)@,
                final(self)@,
                run_id,
                external_change_id@,
                text::views(paths@),
                now,
                result,
            ),
    {
        let ghost before = self@;
        let ghost given = text::views(paths@);
        let run = match self.get_session_by_id(run_id)? {
            None => {
                return Err(
                    Error::new(
                        text::cat3("Run r_", number::signed_text(run_id).as_str(), " not found"),
                    ),
                );
            },
            Some(run) => run,
        };
        proof {
            rows::lemma_lookup_kept(before.sessions, is_run(run_id));
        }
        let at: usize = match self.boundary_position(run_id, external_change_id) {
            None => {
                let head = text::cat3("change '", external_change_id, "' was not opened for Run ");
                return Err(Error::new(text::cat(head.as_str(), run.public_id().as_str())));
            },
            Some(at) => at,
        };
        let boundary = self.boundaries[at].clone();
        let requested = match self.validated_boundary_paths(&run, paths) {
            Err(e) => {
                return Err(e);
            },
            Ok(list) => list,
        };
        let same = self.same_boundary_paths(boundary.id, &requested);
        proof {
            let list = text::views(requested@);
            assert forall|e: Seq<char>| !#[trigger] paths_checked(before, run, given, Err(e)) by {}
            if same {
                assert forall|p: Seq<char>|
                    announced(before.boundary_paths, boundary.id, p) <==> #[trigger] given.contains(
                        p,
                    ) by {
                    assert(list.contains(p) <==> given.contains(p));
                }
            } else if forall|p: Seq<char>|
                announced(before.boundary_paths, boundary.id, p) <==> #[trigger] given.contains(
                    p,
                ) {
                assert forall|p: Seq<char>|
                    announced(before.boundary_paths, boundary.id, p) <==> #[trigger] list.contains(
                        p,
                    ) by {
                    assert(list.contains(p) <==> given.contains(p));
                }
            }
        }
        if !same {
            return Err(
                Error::new(
                    "idempotent replay for this change used a different exact path set".to_owned(),
                ),
            );
        }
        if text::same(boundary.status.as_str(), "closed") {
            return Ok(boundary);
        }
        if text::same(boundary.status.as_str(), "aborted") {
            return Err(
                Error::new(
                    text::cat5(
                        "change '",
                        external_change_id,
                        "' was aborted when Run ",
                        run.public_id().as_str(),
                        " completed",
                    ),
                ),
            );
        }
        if !run.is_active() {
            return Err(
                Error::new(text::cat3("Run ", run.public_id().as_str(), " is already complete")),
            );
        }
        let last: i64 = self.highest_event_id(run.project_id);
        let project_id: i64 = run.project_id;
        let first: i64 = boundary.start_event_id;
        let boundary_id: i64 = boundary.id;
        let announced_paths = &self.boundary_paths;
        let ghost keep = claimed_by(
            project_id,
            first,
            last,
            before.boundary_paths,
            boundary_id,
        );
        let test = |e: &FileEvent| -> (yes: bool)
            ensures yes == claimed_by(
                project_id,
                first,
                last,
                announced_paths@,
                boundary_id,
            )(*e)
        {
            e.project_id == project_id && e.id > first && e.id <= last && Self::event_announced(
                announced_paths,
                boundary_id,
                e,
            )
        };
        let chosen = rows::retain(&self.events, test, Ghost(keep));
        let mut row = boundary.clone();
        if text::same(boundary.status.as_str(), "open") {
            row.status = "closed".to_owned();
            row.end_event_id = Some(last);
            row.ended_at = Some(now);
            row.updated_at = now;
        }
        let copy = row.clone();
        self.boundaries.set(at, row);
        let ghost half = self@;
        proof {
            assert(half.boundaries == before.boundaries.update(at as int, copy));
            lemma_boundary_update_wf(before, half, at as int, copy);
        }
        self.claim_events(run.id, &chosen);
        proof {
            let m = choose|m: int| 0 <= m < before.sessions.len() && before.sessions[m] == run;
            assert(before.sessions[m].id == run_id);
            assert(has_run(before.sessions, run_id));
            lemma_claims_extended_refer(half, self@.claims, run_id, keep);
        }
        Ok(copy)
    }

    /// Closes a change of a Run now.
    pub fn close_run_boundary(
        &mut self,
        run_id: i64,
        external_change_id: &str,
        paths: &Vec<String>,
    ) -> (result: Result<RunBoundary, Error>)
        requires
            old(self)@.wf(),
        ensures
            final(self)@.wf(),
            exists|now: i64|
                #[trigger] boundary_closed(
                    old(self)@,
                    final(self)@,
                    run_id,
                    external_change_id@,
                    text::views(paths@),
                    now,
                    result,
                ),
    {
        let now = clock::unix_now();
        self.close_run_boundary_at(run_id, external_change_id, paths, now)
    }

    /// Aborts a change of a Run at a time.
    pub fn abort_run_boundary_at(
        &mut self,
        run_id: i64,
        external_change_id: &str,
        now: i64,
    ) -> (result: Result<RunBoundary, Error>)
        requires
            old(self)@.wf(),
        ensures
            final(self)@.wf(),
            boundary_aborted(
                old(self)@,
                final(self)@,
                run_id,
                external_change_id@,
                now,
                result,
            ),
    {
        let ghost before = self@;
        match self.boundary_position(run_id, external_change_id) {
            None => {
                let head = text::cat3(
                    "change '",
                    external_change_id,
                    "' was not opened for Run r_",
                );
                Err(Error::new(text::cat(head.as_str(), number::signed_text(run_id).as_str())))
            },
            Some(at) => {
                let mut row = self.boundaries[at].clone();
                if text::same(row.status.as_str(), "open") {
                    row.status = "aborted".to_owned();
                    row.ended_at = Some(now);
                    row.updated_at = now;
                }
                let copy = row.clone();
                self.boundaries.set(at, row);
                proof {
                    assert(self@.boundaries == before.boundaries.update(at as int, copy));
                    lemma_boundary_update_wf(before, self@, at as int, copy);
                }
                Ok(copy)
            },
        }
    }

    /// Aborts a change of a Run now.
    pub fn abort_run_boundary(&mut self, run_id: i64, external_change_id: &str) -> (result: Result<
        RunBoundary,
        Error,
    >)
        requires
            old(self)@.wf(),
        ensures
            final(self)@.wf(),
            exists|now: i64|
                #[trigger] boundary_aborted(
                    old(self)@,
                    final(self)@,
                    run_id,
                    external_change_id@,
                    now,
                    result,
                ),
    {
        let now = clock::unix_now();
        self.abort_run_boundary_at(run_id, external_change_id, now)
    }

    /// Aborts the open changes of a Run at a time.
    pub(crate) fn abort_open_boundaries_at(&mut self, run_id: i64, ended_at: i64)
        requires
            old(self)@.wf(),
        ensures
            final(self)@.wf(),
            final(self)@ == (Tables { boundaries: final(self)@.boundaries, ..old(self)@ }),
            open_aborted(old(self)@.boundaries, final(self)@.boundaries, run_id, ended_at),
    {
        let ghost before = self@;
        let mut i: usize = 0;
        while i < self.boundaries.len()
            invariant
                i <= self.boundaries.len(),
                before.wf(),
                self@.wf(),
                self@ == (Tables { boundaries: self@.boundaries, ..before }),
                self@.boundaries.len() == before.boundaries.len(),
                forall|k: int|
                    0 <= k < i ==> if before.boundaries[k].run_id == run_id {
                        is_aborted_boundary(
                            #[trigger] self@.boundaries[k],
                            before.boundaries[k],
                            ended_at,
                        )
                    } else {
                        self@.boundaries[k] == before.boundaries[k]
                    },
                forall|k: int|
                    i <= k < before.boundaries.len() ==> #[trigger] self@.boundaries[k]
                        == before.boundaries[k],
            decreases self.boundaries.len() - i,
        {
            if self.boundaries[i].run_id == run_id && text::same(
                self.boundaries[i].status.as_str(),
                "open",
            ) {
                let ghost half = self@;
                let mut row = self.boundaries[i].clone();
                row.status = "aborted".to_owned();
                row.ended_at = Some(ended_at);
                row.updated_at = ended_at;
                let ghost changed = row;
                self.boundaries.set(i, row);
                proof {
                    lemma_boundary_update_wf(half, self@, i as int, changed);
                }
            }
            i += 1;
        }
    }
}

// ── who owns a path ─────────────────────────────────────────────────

/// The claims of a Run.
pub open spec fn of_session(run_id: i64) -> spec_fn(Claim) -> bool {
    |c: Claim| c.session_id == run_id
}

/// The claims on an event.
pub open spec fn on_event(event_id: i64) -> spec_fn(Claim) -> bool {
    |c: Claim| c.event_id == event_id
}

/// How many Runs have claimed an event.
pub open spec fn claim_count(claims: Seq<Claim>, event_id: i64) -> nat {
    rows::kept(claims, on_event(event_id))
}

/// The events of a Run's project that touch a path and that the Run has claimed.
pub open spec fn owned(t: Tables, run: Run, path: Seq<char>) -> spec_fn(FileEvent) -> bool {
    |e: FileEvent|
        e.project_id == run.project_id && touches(e, path) && claims_event(t.claims, run.id, e.id)
}

/// The events that a Run has claimed at a path, and another Run too.
pub open spec fn contested(t: Tables, run: Run, path: Seq<char>) -> spec_fn(FileEvent) -> bool {
    |e: FileEvent| owned(t, run, path)(e) && claim_count(t.claims, e.id) > 1
}

/// The events at a path since a Run started that are not the Run's alone.
pub open spec fn foreign(t: Tables, run: Run, path: Seq<char>) -> spec_fn(FileEvent) -> bool {
    |e: FileEvent|
        {
            &&& e.project_id == run.project_id
            &&& e.id > run.start_event_id
            &&& touches(e, path)
            &&& !(claim_count(t.claims, e.id) == 1 && claims_event(t.claims, run.id, e.id))
        }
}

/// Whether some event is one of a kind.
pub open spec fn any_event(events: Seq<FileEvent>, kind: spec_fn(FileEvent) -> bool) -> bool {
    exists|i: int| 0 <= i < events.len() && kind(#[trigger] events[i])
}

/// Who owns a path, as far as claims say.
pub open spec fn ownership(t: Tables, run: Run, path: Seq<char>) -> Seq<char> {
    if !any_event(t.events, owned(t, run, path)) {
        "unattributed"@
    } else if any_event(t.events, contested(t, run, path)) {
        "collision"@
    } else if any_event(t.events, foreign(t, run, path)) {
        "interleaved"@
    } else {
        "exclusive"@
    }
}

/// Whether a list holds, for each event of a project between two ids that a Run
/// has claimed, the event's id and how many Runs have claimed it, by growing id.
pub open spec fn are_claim_counts(
    t: Tables,
    project_id: i64,
    first: i64,
    last: i64,
    list: Seq<(i64, usize)>,
) -> bool {
    &&& forall|i: int, j: int| 0 <= i < j < list.len() ==> (#[trigger] list[i]).0 < (#[trigger] list[j]).0
    &&& forall|i: int|
        0 <= i < list.len() ==> (#[trigger] list[i]).1 == claim_count(t.claims, list[i].0)
            && list[i].1 > 0 && any_event(
            t.events,
            |e: FileEvent|
                e.project_id == project_id && first <= e.id <= last && e.id == list[i].0,
        )
    &&& forall|k: int|
        0 <= k < t.events.len() && (#[trigger] t.events[k]).project_id == project_id && first
            <= t.events[k].id <= last && claim_count(t.claims, t.events[k].id) > 0
            ==> exists|i: int| 0 <= i < list.len() && (#[trigger] list[i]).0 == t.events[k].id
}

impl Database {
    /// How many events a Run has claimed.
    pub fn count_run_claimed_events(&self, run_id: i64) -> (result: Result<usize, Error>)
        ensures
            result matches Ok(n) && n == rows::kept(self@.claims, of_session(run_id)),
    {
        let test = |c: &Claim| -> (yes: bool)
            ensures yes == (c.session_id == run_id)
        { c.session_id == run_id };
        Ok(rows::count_rows(&self.claims, test, Ghost(of_session(run_id))))
    }

    /// How many Runs have claimed an event.
    pub fn event_claim_count(&self, event_id: i64) -> (result: Result<usize, Error>)
        ensures
            result matches Ok(n) && n == claim_count(self@.claims, event_id),
    {
        Ok(Self::claims_on_event(&self.claims, event_id))
    }

    /// How many claims are on an event.
    fn claims_on_event(claims: &Vec<Claim>, event_id: i64) -> (n: usize)
        ensures
            n == claim_count(claims@, event_id),
    {
        let test = |c: &Claim| -> (yes: bool)
            ensures yes == (c.event_id == event_id)
        { c.event_id == event_id };
        rows::count_rows(claims, test, Ghost(on_event(event_id)))
    }

    /// For each claimed event of a project between two ids, how many Runs have
    /// claimed it, by growing id.
    pub fn get_event_claim_counts(
        &self,
        project_id: i64,
        first_event_id: i64,
        last_event_id: i64,
    ) -> (result: Result<Vec<(i64, usize)>, Error>)
        requires
            self@.wf(),
        ensures
            result matches Ok(list) && are_claim_counts(
                self@,
                project_id,
                first_event_id,
                last_event_id,
                list@,
            ),
    {
        let ghost t = self@;
        assert(rows::ids_grow(t.events));
        let mut list: Vec<(i64, usize)> = Vec::new();
        let mut i: usize = 0;
        while i < self.events.len()
            invariant
                i <= self.events.len(),
                t == self@,
                rows::ids_grow(t.events),
                forall|a: int, b: int|
                    0 <= a < b < list@.len() ==> (#[trigger] list@[a]).0 < (#[trigger] list@[b]).0,
                forall|a: int|
                    0 <= a < list@.len() ==> (#[trigger] list@[a]).1 == claim_count(
                        t.claims,
                        list@[a].0,
                    ) && list@[a].1 > 0 && exists|k: int|
                        0 <= k < i && (#[trigger] t.events[k]).project_id == project_id
                            && first_event_id <= t.events[k].id <= last_event_id && t.events[k].id
                            == list@[a].0,
                forall|k: int|
                    0 <= k < i && (#[trigger] t.events[k]).project_id == project_id
                        && first_event_id <= t.events[k].id <= last_event_id && claim_count(
                        t.claims,
                        t.events[k].id,
                    ) > 0 ==> exists|a: int|
                        0 <= a < list@.len() && (#[trigger] list@[a]).0 == t.events[k].id,
            decreases self.events.len() - i,
        {
            let id: i64 = self.events[i].id;
            let ghost earlier = list@;
            if self.events[i].project_id == project_id && first_event_id <= id && id
                <= last_event_id {
                let n = Self::claims_on_event(&self.claims, id);
                if n > 0 {
                    list.push((id, n));
                    proof {
                        assert forall|a: int, b: int| 0 <= a < b < list@.len() implies (
                        #[trigger] list@[a]).0 < (#[trigger] list@[b]).0 by {
                            if b < earlier.len() {
                                assert(earlier[a].0 < earlier[b].0);
                            } else {
                                let k = choose|k: int|
                                    0 <= k < i && (#[trigger] t.events[k]).project_id == project_id
                                        && first_event_id <= t.events[k].id <= last_event_id
                                        && t.events[k].id == earlier[a].0;
                                assert(t.events[k].row_id() < t.events[i as int].row_id());
                            }
                        }
                        assert forall|k: int|
                            0 <= k < i + 1 && (#[trigger] t.events[k]).project_id == project_id
                                && first_event_id <= t.events[k].id <= last_event_id && claim_count(
                                t.claims,
                                t.events[k].id,
                            ) > 0 implies exists|a: int|
                            0 <= a < list@.len() && (#[trigger] list@[a]).0 == t.events[k].id by {
                            if k < i {
                                let a = choose|a: int|
                                    0 <= a < earlier.len() && (#[trigger] earlier[a]).0
                                        == t.events[k].id;
                                assert(list@[a].0 == t.events[k].id);
                            } else {
                                assert(list@[earlier.len() as int].0 == t.events[k].id);
                            }
                        }
                    }
                }
            }
            i += 1;
        }
        proof {
            assert forall|a: int| 0 <= a < list@.len() implies (#[trigger] list@[a]).1
                == claim_count(t.claims, list@[a].0) && list@[a].1 > 0 && any_event(
                t.events,
                |e: FileEvent|
                    e.project_id == project_id && first_event_id <= e.id <= last_event_id && e.id
                        == list@[a].0,
            ) by {
                let k = choose|k: int|
                    0 <= k < i && (#[trigger] t.events[k]).project_id == project_id
                        && first_event_id <= t.events[k].id <= last_event_id && t.events[k].id
                        == list@[a].0;
                let kind = |e: FileEvent|
                    e.project_id == project_id && first_event_id <= e.id <= last_event_id && e.id
                        == list@[a].0;
                assert(kind(t.events[k]));
            }
        }
        Ok(list)
    }

    /// Who owns a path that a reported Run changed: whether the whole file can
    /// be recovered safely. "exclusive" speaks of claims, not of processes.
    pub fn classify_run_path_ownership(&self, run_id: i64, path: &str) -> (result: Result<
        String,
        Error,
    >)
        ensures
            match rows::lookup(self@.sessions, is_run(run_id)) {
                None => result matches Err(e) && e@ == run_missing_text(run_id),
                Some(run) => result matches Ok(kind) && kind@ == ownership(self@, run, path@),
            },
    {
        let ghost t = self@;
        let run = match self.get_session_by_id(run_id)? {
            None => {
                return Err(
                    Error::new(
                        text::cat3("Run r_", number::signed_text(run_id).as_str(), " not found"),
                    ),
                );
            },
            Some(run) => run,
        };
        let project_id: i64 = run.project_id;
        let id: i64 = run.id;
        let start: i64 = run.start_event_id;
        let claims = &self.claims;
        let test = |e: &FileEvent| -> (yes: bool)
            ensures yes == (e.project_id == project_id && touches(*e, path@) && claims_event(
                claims@,
                id,
                e.id,
            ))
        { e.project_id == project_id && event_touches(e, path) && has_claim(claims, id, e.id) };
        let at = rows::position(&self.events, test, Ghost(owned(t, run, path@)));
        if at.is_none() {
            return Ok("unattributed".to_owned());
        }
        proof {
            assert(owned(t, run, path@)(t.events[at->0 as int]));
        }
        let test = |e: &FileEvent| -> (yes: bool)
            ensures yes == (e.project_id == project_id && touches(*e, path@) && claims_event(
                claims@,
                id,
                e.id,
            ) && claim_count(claims@, e.id) > 1)
        {
            e.project_id == project_id && event_touches(e, path) && has_claim(claims, id, e.id)
                && Self::claims_on_event(claims, e.id) > 1
        };
        let at = rows::position(&self.events, test, Ghost(contested(t, run, path@)));
        if at.is_some() {
            proof {
                assert(contested(t, run, path@)(t.events[at->0 as int]));
            }
            return Ok("collision".to_owned());
        }
        let test = |e: &FileEvent| -> (yes: bool)
            ensures yes == (e.project_id == project_id && e.id > start && touches(*e, path@)
                && !(claim_count(claims@, e.id) == 1 && claims_event(claims@, id, e.id)))
        {
            e.project_id == project_id && e.id > start && event_touches(e, path) && !(
            Self::claims_on_event(claims, e.id) == 1 && has_claim(claims, id, e.id))
        };
        let at = rows::position(&self.events, test, Ghost(foreign(t, run, path@)));
        if at.is_some() {
            proof {
                assert(foreign(t, run, path@)(t.events[at->0 as int]));
            }
            return Ok("interleaved".to_owned());
        }
        Ok("exclusive".to_owned())
    }
}

} // verus!
