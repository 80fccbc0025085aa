//! What is recorded is there to be read: changes, states of files, checkpoints and
//! tasks.
use vstd::prelude::*;

use crate::db::checkpoints::{checkpoint_saved, is_checkpoint, is_checkpoint_by_ref, named};
use crate::db::events::{event_added, lemma_max_id, max_id, NewEvent};
use crate::db::intents::{active_in, task_completed, task_started};
use crate::db::projects::{is_closest, project_gotten};
use crate::db::states::{is_file, state_marked_deleted, state_recorded};
use crate::db::{lemma_public_id_names_its_id, public_id_of, Tables};
use crate::error::Error;
use crate::laws::claiming::lemma_lookup_run;
use crate::laws::moments::{held, is_last, leaves_nothing, names_file, was_removed, Moment};
use crate::laws::tasks::is_of_task;
use crate::models::{Checkpoint, FileEvent, FileState, Run, RunIntent, WatchedProject};
use crate::number;
use crate::rows;
use crate::rows::{Order, Row};

verus! {

// ── changes ─────────────────────────────────────────────────────────

/// Whether an optional text is another one.
pub open spec fn is_text(value: Option<String>, said: Option<Seq<char>>) -> bool {
    match value {
        Some(s) => said == Some(s@),
        None => said is None,
    }
}

/// Whether a change is stored as it was given.
pub open spec fn is_stored(e: FileEvent, project_id: i64, at: i64, new: NewEvent) -> bool {
    &&& e.project_id == project_id
    &&& e.timestamp == at
    &&& e.path@ == new.path
    &&& e.event_type@ == new.event_type
    &&& is_text(e.current_hash, new.current_hash)
    &&& is_text(e.previous_hash, new.previous_hash)
    &&& is_text(e.snapshot_path, new.snapshot_path)
    &&& is_text(e.old_path, new.old_path)
    &&& e.file_size == new.file_size
}

/// A change of a project that is there is stored as it was given, behind all earlier
/// ones, which stay as they are. Nothing else is touched.
pub proof fn lemma_change_is_stored(
    before: Tables,
    after: Tables,
    project: WatchedProject,
    at: i64,
    new: NewEvent,
    result: Result<(), Error>,
) -> (e: FileEvent)
    requires
        before.wf(),
        before.projects.contains(project),
        before.last.events < i64::MAX,
        event_added(before, after, project.id, at, new, result),
    ensures
        result is Ok,
        after.events == before.events.push(e),
        is_stored(e, project.id, at, new),
        forall|i: int| 0 <= i < before.events.len() ==> (#[trigger] before.events[i]).id < e.id,
        e.id == after.last.events,
        after.projects == before.projects,
        after.states == before.states,
        after.checkpoints == before.checkpoints,
        after.sessions == before.sessions,
        after.claims == before.claims,
        after.boundaries == before.boundaries,
        after.boundary_paths == before.boundary_paths,
        after.intents == before.intents,
        after.recoveries == before.recoveries,
        after.entries == before.entries,
        after.integration == before.integration,
{
    let k = choose|k: int| 0 <= k < before.projects.len() && before.projects[k] == project;
    assert(before.projects[k].id == project.id);
    let e = after.events.last();
    assert forall|i: int| 0 <= i < before.events.len() implies (#[trigger] before.events[i]).id
        < e.id by {
        assert(before.events[i].row_id() <= before.last.events);
    }
    e
}

/// Right after a change that left a file, the history says that the file held what
/// the change left. It says so of every time from then on as well, where no change
/// to the file lies later than the new one. After a change that left nothing, it says
/// that the file was gone.
pub proof fn lemma_change_is_history(
    before: Tables,
    after: Tables,
    project: WatchedProject,
    at: i64,
    new: NewEvent,
    time: i64,
    result: Result<(), Error>,
)
    requires
        before.wf(),
        before.projects.contains(project),
        before.last.events < i64::MAX,
        event_added(before, after, project.id, at, new, result),
        at <= time,
        forall|i: int|
            0 <= i < before.events.len() && names_file(
                #[trigger] before.events[i],
                project.id,
                new.path,
            ) ==> before.events[i].timestamp <= at,
    ensures
        new.event_type != "DELETED"@ && new.current_hash is Some ==> held(
            after.events,
            project.id,
            new.path,
            Moment::Event(after.last.events),
            new.current_hash->0,
            at,
        ) && held(
            after.events,
            project.id,
            new.path,
            Moment::Time(time),
            new.current_hash->0,
            at,
        ),
        new.event_type == "DELETED"@ ==> was_removed(
            after.events,
            project.id,
            new.path,
            Moment::Event(after.last.events),
        ) && was_removed(after.events, project.id, new.path, Moment::Time(time)),
{
    let e = lemma_change_is_stored(before, after, project, at, new, result);
    let n = before.events.len() as int;
    assert(after.events[n] == e);
    assert(after.events.contains(e));
    let id = after.last.events;
    assert forall|i: int|
        0 <= i < after.events.len() && names_file(
            #[trigger] after.events[i],
            project.id,
            new.path,
        ) implies after.events[i] == e || (after.events[i].id < e.id && after.events[i].timestamp
        <= at) by {
        if i < n {
            assert(after.events[i] == before.events[i]);
        }
    }
    assert(is_last(after.events, project.id, new.path, Moment::Event(id), e));
    assert(is_last(after.events, project.id, new.path, Moment::Time(time), e));
    if new.event_type != "DELETED"@ {
        assert(!leaves_nothing(e, new.path));
    } else {
        assert(leaves_nothing(e, new.path));
    }
}

// ── states of files ─────────────────────────────────────────────────

/// Whether a state is that of a file of a project.
pub open spec fn is_of(s: FileState, project_id: i64, path: Seq<char>) -> bool {
    s.project_id == project_id && s.path@ == path
}

/// Recording the state of a file of a project that is there goes through where there
/// is room. Then what was recorded is what is read, as the only state of the file;
/// the states of other files and all other tables stay.
pub proof fn lemma_state_is_read_back(
    before: Tables,
    after: Tables,
    project: WatchedProject,
    path: Seq<char>,
    hash: Seq<char>,
    there: bool,
    size: i64,
    mtime_nanos: Option<i64>,
    now: i64,
    result: Result<(), Error>,
) -> (s: FileState)
    requires
        before.wf(),
        before.projects.contains(project),
        before.last.states < i64::MAX,
        state_recorded(
            before,
            after,
            project.id,
            path,
            hash,
            there,
            size,
            mtime_nanos,
            now,
            result,
        ),
    ensures
        result is Ok,
        after.states.contains(s),
        rows::lookup(after.states, is_file(project.id, path)) == Some(s),
        is_of(s, project.id, path),
        s.latest_hash matches Some(h) && h@ == hash,
        s.exists_now == there,
        s.size == Some(size),
        s.mtime_nanos == mtime_nanos,
        s.last_seen_at == now,
        forall|i: int|
            0 <= i < after.states.len() && is_of(#[trigger] after.states[i], project.id, path)
                ==> after.states[i] == s,
        forall|i: int|
            0 <= i < before.states.len() && !is_of(#[trigger] before.states[i], project.id, path)
                ==> after.states.contains(before.states[i]),
        after.events == before.events,
        after.projects == before.projects,
        after.sessions == before.sessions,
        after.checkpoints == before.checkpoints,
        after.claims == before.claims,
        after.recoveries == before.recoveries,
        after.entries == before.entries,
{
    let keep = is_file(project.id, path);
    let k = choose|k: int| 0 <= k < before.projects.len() && before.projects[k] == project;
    assert(before.projects[k].id == project.id);
    if exists|at: int| #[trigger] rows::is_found(before.states, keep, Some(at)) {
        let at = choose|at: int| #[trigger] rows::is_found(before.states, keep, Some(at));
        let s = after.states[at];
        assert forall|i: int|
            0 <= i < after.states.len() && is_of(
                #[trigger] after.states[i],
                project.id,
                path,
            ) implies after.states[i] == s by {
            if i != at {
                assert(after.states[i] == before.states[i]);
                if i < at {
                    assert(!keep(before.states[i]));
                } else {
                    assert(!crate::db::same_file(before.states[at], before.states[i]));
                }
            }
        }
        assert forall|i: int|
            0 <= i < before.states.len() && !is_of(
                #[trigger] before.states[i],
                project.id,
                path,
            ) implies after.states.contains(before.states[i]) by {
            assert(after.states[i] == before.states[i]);
        }
        assert(rows::is_found(after.states, keep, Some(at))) by {
            assert forall|j: int| 0 <= j < at implies !keep(#[trigger] after.states[j]) by {
                assert(!keep(before.states[j]));
            }
        }
        rows::lemma_lookup(after.states, keep, Some(at));
        s
    } else {
        let n = before.states.len() as int;
        let s = after.states.last();
        assert(after.states[n] == s);
        rows::lemma_lookup_kept(before.states, keep);
        assert forall|i: int| 0 <= i < n implies !keep(#[trigger] before.states[i]) by {
            if keep(before.states[i]) {
                lemma_first_kept(before.states, keep, i);
            }
        }
        assert forall|i: int|
            0 <= i < before.states.len() && !is_of(
                #[trigger] before.states[i],
                project.id,
                path,
            ) implies after.states.contains(before.states[i]) by {
            assert(after.states[i] == before.states[i]);
        }
        assert forall|i: int|
            0 <= i < after.states.len() && is_of(
                #[trigger] after.states[i],
                project.id,
                path,
            ) implies after.states[i] == s by {
            if i < n {
                assert(!keep(before.states[i]));
            }
        }
        rows::lemma_lookup_pushed(before.states, keep, s);
        s
    }
}

/// Where a row is kept, there is a first one.
pub proof fn lemma_first_kept<T>(list: Seq<T>, keep: spec_fn(T) -> bool, i: int)
    requires
        0 <= i < list.len(),
        keep(list[i]),
    ensures
        exists|at: int| #[trigger] rows::is_found(list, keep, Some(at)),
    decreases i,
{
    if exists|k: int| 0 <= k < i && keep(#[trigger] list[k]) {
        let k = choose|k: int| 0 <= k < i && keep(#[trigger] list[k]);
        lemma_first_kept(list, keep, k);
    } else {
        assert(rows::is_found(list, keep, Some(i)));
    }
}

/// A file that is marked as gone is known as gone, with the version that it had last;
/// the other files stay as they are.
pub proof fn lemma_gone_file_keeps_its_version(
    before: Tables,
    after: Tables,
    project_id: i64,
    path: Seq<char>,
    now: i64,
    i: int,
)
    requires
        state_marked_deleted(before, after, project_id, path, now),
        0 <= i < before.states.len(),
    ensures
        after.states.len() == before.states.len(),
        is_of(before.states[i], project_id, path) ==> {
            &&& is_of(after.states[i], project_id, path)
            &&& !after.states[i].exists_now
            &&& after.states[i].last_seen_at == now
            &&& after.states[i].latest_hash == before.states[i].latest_hash
            &&& after.states[i].size == before.states[i].size
        },
        !is_of(before.states[i], project_id, path) ==> after.states[i] == before.states[i],
        after.events == before.events,
        after.sessions == before.sessions,
        after.checkpoints == before.checkpoints,
{
    assert(after.states[i] == after.states[i]);
}

// ── projects ────────────────────────────────────────────────────────

/// Whether a folder is another one or lies below it.
pub open spec fn is_inside(path: Seq<char>, folder: Seq<char>) -> bool {
    path == folder || (path.len() > folder.len() && path.subrange(0, folder.len() as int) == folder
        && path[folder.len() as int] == '/')
}

/// The project of a path is one whose folder the path is in, and none that is watched
/// is nearer to it. There is none only where no watched folder has the path in it.
pub proof fn lemma_nearest_project_is_meant(
    projects: Seq<WatchedProject>,
    path: Seq<char>,
    found: Option<WatchedProject>,
    other: WatchedProject,
)
    requires
        is_closest(projects, path, found),
        projects.contains(other),
    ensures
        found is None ==> !is_inside(path, other.root_path@),
        found is Some ==> projects.contains(found->0) && is_inside(path, found->0.root_path@) && (
        is_inside(path, other.root_path@) ==> other.root_path@.len()
            <= found->0.root_path@.len()),
{
    let k = choose|k: int| 0 <= k < projects.len() && projects[k] == other;
    lemma_inside(path, other.root_path@);
    if let Some(p) = found {
        lemma_inside(path, p.root_path@);
    }
    assert(projects[k] == other);
}

/// A path is in a folder where the folder's path with a slash begins it.
pub proof fn lemma_inside(path: Seq<char>, folder: Seq<char>)
    ensures
        is_inside(path, folder) <==> crate::path::in_scope(path, folder),
{
    reveal_strlit("/");
    let n = folder.len() as int;
    assert((folder + "/"@).len() == n + 1);
    if path.len() > n {
        if path.subrange(0, n) == folder && path[n] == '/' {
            assert(path.subrange(0, n + 1) =~= folder + "/"@);
        }
        if path.subrange(0, n + 1) == folder + "/"@ {
            assert(path.subrange(0, n) =~= path.subrange(0, n + 1).subrange(0, n));
            assert((folder + "/"@).subrange(0, n) =~= folder);
            assert(path[n] == path.subrange(0, n + 1)[n]);
        }
    }
}

/// A folder that is watched is not watched twice: asked for again, the project is the
/// one that is there. Else there is a new one for the folder, and the others stay.
pub proof fn lemma_folder_is_watched_once(
    before: Tables,
    after: Tables,
    root: Seq<char>,
    now: i64,
    result: Result<WatchedProject, Error>,
)
    requires
        before.wf(),
        before.last.projects < i64::MAX,
        project_gotten(before, after, root, now, result),
    ensures
        result is Ok,
        result->Ok_0.root_path@ == root,
        after.projects.contains(result->Ok_0),
        forall|i: int|
            0 <= i < before.projects.len() ==> after.projects.contains(#[trigger] before.projects[i]),
        forall|i: int|
            0 <= i < before.projects.len() && (#[trigger] before.projects[i]).root_path@ == root
                ==> before.projects[i] == result->Ok_0 && after == before,
        after.events == before.events,
        after.states == before.states,
{
    let project = result->Ok_0;
    if exists|i: int|
        0 <= i < before.projects.len() && crate::db::projects::is_root(root)(
            #[trigger] before.projects[i],
        ) {
        let k = choose|k: int| 0 <= k < before.projects.len() && before.projects[k] == project;
        assert forall|i: int|
            0 <= i < before.projects.len() && (#[trigger] before.projects[i]).root_path@
                == root implies before.projects[i] == project by {
            if i < k {
                assert(!crate::db::same_root(before.projects[i], before.projects[k]));
            } else if k < i {
                assert(!crate::db::same_root(before.projects[k], before.projects[i]));
            }
        }
    } else {
        assert(after.projects[before.projects.len() as int] == project);
        assert forall|i: int| 0 <= i < before.projects.len() implies after.projects.contains(
            #[trigger] before.projects[i],
        ) by {
            assert(after.projects[i] == before.projects[i]);
        }
        assert forall|i: int|
            0 <= i < before.projects.len() implies (#[trigger] before.projects[i]).root_path@
            != root by {
            assert(!crate::db::projects::is_root(root)(before.projects[i]));
        }
    }
}

// ── checkpoints ─────────────────────────────────────────────────────

/// Whether an id is that of the newest change of a project, or nought where it has no
/// change.
pub open spec fn is_newest(events: Seq<FileEvent>, project_id: i64, id: i64) -> bool {
    &&& forall|i: int|
        0 <= i < events.len() && (#[trigger] events[i]).project_id == project_id ==> events[i].id
            <= id
    &&& id == 0 || exists|i: int|
        0 <= i < events.len() && (#[trigger] events[i]).project_id == project_id && events[i].id
            == id
}

/// The newest change has the highest id.
pub proof fn lemma_newest(t: Tables, project_id: i64)
    requires
        t.wf(),
    ensures
        0 <= max_id(t.events, project_id) <= i64::MAX,
        is_newest(t.events, project_id, max_id(t.events, project_id) as i64),
{
    lemma_max_id(t.events, project_id);
}

/// Whether a checkpoint has a name, in a Run or outside Runs in a project.
pub open spec fn has_name(
    c: Checkpoint,
    project_id: i64,
    run_id: Option<i64>,
    name: Seq<char>,
) -> bool {
    c.name@ == name && c.run_id == run_id && (run_id is None ==> c.project_id == project_id)
}

/// A saved checkpoint has the name that was asked for. Where there was one with the
/// name it is that one, and nothing changes. Else it is new and marks the newest
/// change of its project, and the earlier checkpoints and all changes stay.
pub proof fn lemma_checkpoint_marks_the_newest_change(
    before: Tables,
    after: Tables,
    project_id: i64,
    run_id: Option<i64>,
    name: Seq<char>,
    timestamp: i64,
    intent: Option<Seq<char>>,
    now: i64,
    result: Result<(Checkpoint, bool), Error>,
)
    requires
        before.wf(),
        checkpoint_saved(
            before,
            after,
            project_id,
            run_id,
            name,
            timestamp,
            intent,
            now,
            result,
        ),
        result is Ok,
    ensures
        ({
            let c = result->Ok_0.0;
            &&& after.checkpoints.contains(c)
            &&& has_name(c, project_id, run_id, name)
            &&& result->Ok_0.1 <==> forall|i: int|
                0 <= i < before.checkpoints.len() ==> !has_name(
                    #[trigger] before.checkpoints[i],
                    project_id,
                    run_id,
                    name,
                )
            &&& !result->Ok_0.1 ==> after == before
            &&& result->Ok_0.1 ==> {
                &&& after.checkpoints == before.checkpoints.push(c)
                &&& c.project_id == project_id
                &&& c.timestamp == timestamp
                &&& c.created_at == now
                &&& is_text(c.intent, intent)
                &&& c.event_id is Some
                &&& is_newest(before.events, project_id, c.event_id->0)
            }
            &&& after.events == before.events
            &&& after.sessions == before.sessions
        }),
{
    let keep = crate::db::checkpoints::takes_name(project_id, run_id, name);
    rows::lemma_lookup_kept(before.checkpoints, keep);
    let c = result->Ok_0.0;
    lemma_newest(before, project_id);
    match rows::lookup(before.checkpoints, keep) {
        Some(known) => {
            let k = choose|k: int|
                0 <= k < before.checkpoints.len() && before.checkpoints[k] == known;
            assert(has_name(before.checkpoints[k], project_id, run_id, name));
        },
        None => {
            assert forall|i: int| 0 <= i < before.checkpoints.len() implies !has_name(
                #[trigger] before.checkpoints[i],
                project_id,
                run_id,
                name,
            ) by {
                assert(!keep(before.checkpoints[i]));
            }
            assert(after.checkpoints[before.checkpoints.len() as int] == c);
        },
    }
}

/// A checkpoint of a project is found by its public id, and by its name where no other
/// checkpoint of the project has it. The public id finds nothing in another project.
pub proof fn lemma_checkpoint_is_found(
    t: Tables,
    c: Checkpoint,
    project_id: i64,
    by_id: Result<Option<Checkpoint>, Error>,
    by_name: Result<Option<Checkpoint>, Error>,
)
    requires
        t.wf(),
        t.checkpoints.contains(c),
        is_checkpoint_by_ref(t, project_id, "cp_"@ + number::decimal(c.id as int), by_id),
        is_checkpoint_by_ref(t, project_id, c.name@, by_name),
    ensures
        c.project_id == project_id ==> by_id == Ok::<Option<Checkpoint>, Error>(Some(c)),
        c.project_id != project_id ==> by_id == Ok::<Option<Checkpoint>, Error>(None),
        c.project_id == project_id && public_id_of(c.name@, "cp_"@) is None && (forall|i: int|
            0 <= i < t.checkpoints.len() && (#[trigger] t.checkpoints[i]).project_id == project_id
                && t.checkpoints[i].name@ == c.name@ ==> t.checkpoints[i] == c) ==> by_name
            == Ok::<Option<Checkpoint>, Error>(Some(c)),
{
    lemma_public_id_names_its_id("cp_"@, c.id);
    let at = choose|at: int| 0 <= at < t.checkpoints.len() && t.checkpoints[at] == c;
    let keep = is_checkpoint(c.id);
    assert forall|k: int| 0 <= k < at implies !keep(#[trigger] t.checkpoints[k]) by {
        assert(t.checkpoints[k].row_id() < t.checkpoints[at].row_id());
    }
    rows::lemma_lookup(t.checkpoints, keep, Some(at));
    if c.project_id == project_id && public_id_of(c.name@, "cp_"@) is None && (forall|i: int|
        0 <= i < t.checkpoints.len() && (#[trigger] t.checkpoints[i]).project_id == project_id
            && t.checkpoints[i].name@ == c.name@ ==> t.checkpoints[i] == c) {
        let test = named(project_id, c.name@);
        let list = choose|list: Seq<Checkpoint>|
            {
                &&& #[trigger] rows::is_listing(t.checkpoints, Order::Newest, test, list)
                &&& if list.len() == 0 {
                    by_name matches Ok(found) && found is None
                } else if list.len() == 1 {
                    by_name matches Ok(found) && found == Some(list[0])
                } else {
                    by_name matches Err(e) && e@ == crate::db::checkpoints::ambiguous_text(
                        c.name@,
                        list[0],
                        list[1],
                    )
                }
            };
        assert(test(t.checkpoints[at]));
        assert(list.contains(c));
        assert forall|i: int| 0 <= i < list.len() implies #[trigger] list[i] == c by {
            assert(test(list[i]));
            let k = choose|k: int| 0 <= k < t.checkpoints.len() && t.checkpoints[k] == list[i];
            assert(t.checkpoints[k] == c);
        }
        if list.len() > 1 {
            assert(rows::row_before(Order::Newest, list[0], list[1]));
        }
    }
}

// ── tasks ───────────────────────────────────────────────────────────

/// Whether a task of a Run has not ended.
pub open spec fn is_under_way(t: RunIntent, run_id: i64) -> bool {
    t.run_id == run_id && t.ended_at is None
}

/// A task that starts in an active Run begins at the newest change of the Run's
/// project, under the name that was given, and is under way. Where one of the name was
/// under way already, it goes on and nothing changes; where one of another name was,
/// there is no new one.
pub proof fn lemma_task_starts_at_the_newest_change(
    before: Tables,
    after: Tables,
    run: Run,
    label: Seq<char>,
    now: i64,
    result: Result<RunIntent, Error>,
)
    requires
        before.wf(),
        before.sessions.contains(run),
        task_started(before, after, run.id, label, now, result),
    ensures
        run.ended_at is Some ==> result is Err && after == before,
        forall|i: int|
            #![trigger before.intents[i]]
            0 <= i < before.intents.len() && is_under_way(before.intents[i], run.id)
                && run.ended_at is None ==> after == before && (before.intents[i].label@ == label
                ==> result == Ok::<RunIntent, Error>(before.intents[i])) && (before.intents[i].label@
                != label ==> result is Err),
        run.ended_at is None && before.last.intents < i64::MAX && (forall|i: int|
            0 <= i < before.intents.len() ==> !is_under_way(
                #[trigger] before.intents[i],
                run.id,
            )) ==> {
            &&& result is Ok
            &&& after.intents == before.intents.push(result->Ok_0)
            &&& is_under_way(result->Ok_0, run.id)
            &&& result->Ok_0.label@ == label
            &&& result->Ok_0.started_at == now
            &&& result->Ok_0.end_event_id is None
            &&& is_newest(before.events, run.project_id, result->Ok_0.start_event_id)
            &&& after.events == before.events
            &&& after.sessions == before.sessions
        },
{
    lemma_lookup_run(before, run);
    lemma_newest(before, run.project_id);
    rows::lemma_picked(before.intents, Order::HighestId, active_in(run.id));
    let active = crate::db::intents::active_intent(before.intents, run.id);
    assert forall|i: int|
        #![trigger before.intents[i]]
        0 <= i < before.intents.len() && is_under_way(
            before.intents[i],
            run.id,
        ) implies active == Some(before.intents[i]) by {
        assert(active_in(run.id)(before.intents[i]));
        let a = active->0;
        let k = choose|k: int| 0 <= k < before.intents.len() && before.intents[k] == a;
        if i < k {
            assert(!crate::db::both_active(before.intents[i], before.intents[k]));
        } else if k < i {
            assert(!crate::db::both_active(before.intents[k], before.intents[i]));
        }
    }
    if let Some(a) = active {
        let k = choose|k: int| 0 <= k < before.intents.len() && before.intents[k] == a;
        assert(is_under_way(before.intents[k], run.id));
    }
}

/// A task that is under way in an active Run ends at the newest change of the Run's
/// project, where its name or none is given. It keeps its name and its start, and the
/// other tasks stay.
pub proof fn lemma_task_ends_at_the_newest_change(
    before: Tables,
    after: Tables,
    run: Run,
    at: int,
    label: Option<Seq<char>>,
    now: i64,
    result: Result<RunIntent, Error>,
)
    requires
        before.wf(),
        before.sessions.contains(run),
        run.ended_at is None,
        0 <= at < before.intents.len(),
        is_under_way(before.intents[at], run.id),
        task_completed(before, after, run.id, label, now, result),
    ensures
        label is Some && label->0 != before.intents[at].label@ ==> result is Err && after
            == before,
        label is None || label->0 == before.intents[at].label@ ==> {
            &&& result is Ok
            &&& result->Ok_0.id == before.intents[at].id
            &&& result->Ok_0.run_id == run.id
            &&& result->Ok_0.label == before.intents[at].label
            &&& result->Ok_0.start_event_id == before.intents[at].start_event_id
            &&& result->Ok_0.started_at == before.intents[at].started_at
            &&& result->Ok_0.ended_at == Some(now)
            &&& result->Ok_0.end_event_id is Some
            &&& is_newest(before.events, run.project_id, result->Ok_0.end_event_id->0)
            &&& after.intents.len() == before.intents.len()
            &&& after.intents[at] == result->Ok_0
            &&& forall|i: int|
                0 <= i < before.intents.len() && i != at ==> after.intents[i]
                    == #[trigger] before.intents[i]
            &&& after.events == before.events
            &&& after.sessions == before.sessions
        },
{
    lemma_lookup_run(before, run);
    lemma_newest(before, run.project_id);
    let keep = active_in(run.id);
    rows::lemma_picked(before.intents, Order::HighestId, keep);
    let active = crate::db::intents::active_intent(before.intents, run.id);
    assert(keep(before.intents[at]));
    let a = active->0;
    let k = choose|k: int| 0 <= k < before.intents.len() && before.intents[k] == a;
    if at < k {
        assert(!crate::db::both_active(before.intents[at], before.intents[k]));
    } else if k < at {
        assert(!crate::db::both_active(before.intents[k], before.intents[at]));
    }
    assert(active == Some(before.intents[at]));
    if label is None || label->0 == before.intents[at].label@ {
        let t = result->Ok_0;
        let j = choose|j: int|
            0 <= j < before.intents.len() && before.intents[j] == a && after.intents
                == #[trigger] before.intents.update(j, t);
        if j < at {
            assert(before.intents[j].row_id() < before.intents[at].row_id());
        } else if at < j {
            assert(before.intents[at].row_id() < before.intents[j].row_id());
        }
    }
}

/// A change that is recorded while a task is under way, before it ends, is a change of
/// the task; one that was there when the task started is not.
pub proof fn lemma_task_has_its_changes(
    earlier: Tables,
    later: Tables,
    project_id: i64,
    e: FileEvent,
    first: i64,
    last: i64,
)
    requires
        earlier.wf(),
        later.wf(),
        is_newest(earlier.events, project_id, first),
        is_newest(later.events, project_id, last),
        earlier.events.is_prefix_of(later.events),
        later.events.contains(e),
        e.project_id == project_id,
        forall|i: int|
            0 <= i < earlier.events.len() ==> (#[trigger] earlier.events[i]) != e,
        later.last.events >= earlier.last.events,
    ensures
        is_of_task(later.events, project_id, first, last, e.path@),
        forall|i: int|
            0 <= i < earlier.events.len() && (#[trigger] earlier.events[i]).project_id == project_id
                ==> !(first < earlier.events[i].id <= last),
{
    let k = choose|k: int| 0 <= k < later.events.len() && later.events[k] == e;
    let n = earlier.events.len() as int;
    if k < n {
        assert(earlier.events[k] == later.events[k]);
    }
    if first > 0 {
        let j = choose|j: int|
            0 <= j < earlier.events.len() && (#[trigger] earlier.events[j]).project_id
                == project_id && earlier.events[j].id == first;
        assert(later.events[j] == earlier.events[j]);
        assert(later.events[j].row_id() < later.events[k].row_id());
    } else {
        assert(later.events[k].row_id() > 0);
    }
    assert(names_file(later.events[k], project_id, e.path@));
}

} // verus!
