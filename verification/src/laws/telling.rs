//! What is read from requests and told of files, Runs and versions.
use vstd::prelude::*;

use crate::compare::{is_selection, selection_view, DiffSelection};
use crate::db::checkpoints::is_checkpoint_by_ref;
use crate::db::events::at_path;
use crate::db::Tables;
use crate::duration::duration_of;
use crate::error::Error;
use crate::exclude::{has_ignored_name, is_builtin, is_ignored_name, names_in_project};
use crate::integrity::{
    are_needed, is_corrupt, is_missing, is_report, is_version, report_on, stored, IntegrityReport,
    StoredVersion,
};
use crate::models::{Checkpoint, FileEvent, FileState, Run, RunIntent};
use crate::number;
use crate::order;
use crate::path;
use crate::restore::{best_source, RestoreKind};
use crate::rows;
use crate::rows::Order;
use crate::run_report::{
    change_moment, checkpoint_moments, is_history, moment_keys, run_moments, task_moments,
};
use crate::text;

verus! {

// ── durations ───────────────────────────────────────────────────────

/// How many seconds a unit of time has, by its letter.
pub open spec fn seconds_in(unit: char) -> int {
    if unit == 's' {
        1int
    } else if unit == 'm' {
        60int
    } else if unit == 'h' {
        3600int
    } else {
        86_400int
    }
}

/// Whether a letter stands for seconds, minutes, hours or days.
pub open spec fn is_unit(unit: char) -> bool {
    unit == 's' || unit == 'm' || unit == 'h' || unit == 'd'
}

/// A number with a unit behind it is read as so many of the unit, where it is positive
/// and the seconds fit; with no unit or another letter behind it, it is refused.
pub proof fn lemma_duration_is_read(n: i64, unit: char)
    requires
        !text::is_white(unit),
    ensures
        is_unit(unit) && n > 0 && n * seconds_in(unit) <= i64::MAX ==> duration_of(
            number::decimal(n as int) + seq![unit],
        ) == Ok::<int, Seq<char>>(n * seconds_in(unit)),
        !is_unit(unit) || n <= 0 || n * seconds_in(unit) > i64::MAX ==> duration_of(
            number::decimal(n as int) + seq![unit],
        ) is Err,
{
    let count = number::decimal(n as int);
    let s = count + seq![unit];
    number::lemma_parsed_decimal(n as int);
    lemma_decimal_starts(n as int);
    assert(s[0] == count[0]);
    assert(s.last() == unit);
    assert(text::trim_left(s) == s);
    assert(text::trim_right(s) == s);
    assert(s.drop_last() =~= count);
}

/// A decimal number does not begin with white space.
proof fn lemma_decimal_starts(n: int)
    ensures
        number::decimal(n).len() > 0,
        !text::is_white(number::decimal(n)[0]),
{
    let m: nat = if n < 0 {
        (-n) as nat
    } else {
        n as nat
    };
    number::lemma_digits_value(m);
    assert(text::is_digit(number::digits(m)[0]));
}

// ── versions to compare with ────────────────────────────────────────

/// Whether a change is the newest one at a path.
pub open spec fn is_newest_at(
    events: Seq<FileEvent>,
    project_id: i64,
    path: Seq<char>,
    e: FileEvent,
) -> bool {
    &&& events.contains(e)
    &&& e.project_id == project_id
    &&& e.path@ == path
    &&& forall|i: int|
        0 <= i < events.len() && (#[trigger] events[i]).project_id == project_id
            && events[i].path@ == path ==> events[i] == e || events[i].timestamp < e.timestamp || (
        events[i].timestamp == e.timestamp && events[i].id < e.id)
}

/// Whether a version is that of a file when a checkpoint was saved.
pub open spec fn is_version_at(
    events: Seq<FileEvent>,
    project_id: i64,
    path: Seq<char>,
    found: Result<Option<Checkpoint>, Error>,
    selection: Option<DiffSelection>,
) -> bool {
    found matches Ok(Some(c)) && selection_view(selection) == match best_source(
        events,
        project_id,
        path,
        c.timestamp,
    ) {
        Some(s) => Some((s.hash, s.kind == RestoreKind::DeletedFallback)),
        None => None,
    }
}

/// Without a time a file is compared with what its newest change left, or with what it
/// was before that change where the change deleted it. A checkpoint stands for the time
/// at which it was saved, and a duration for the time so long ago; never for both.
pub proof fn lemma_what_a_file_is_compared_with(
    t: Tables,
    project_id: i64,
    path: Seq<char>,
    duration: Option<Seq<char>>,
    checkpoint: Option<Seq<char>>,
    now: i64,
    e: FileEvent,
    result: Result<Option<DiffSelection>, Error>,
)
    requires
        t.wf(),
        is_selection(t, project_id, path, duration, checkpoint, now, result),
        is_newest_at(t.events, project_id, path, e),
    ensures
        duration is Some && checkpoint is Some ==> result is Err,
        duration is None && checkpoint is None ==> result is Ok && selection_view(result->Ok_0)
            == if e.event_type@ == "DELETED"@ {
            match e.previous_hash {
                Some(h) => Some((h@, true)),
                None => None,
            }
        } else {
            match e.current_hash {
                Some(h) => Some((h@, false)),
                None => None,
            }
        },
        duration is Some && checkpoint is None && duration_of(duration->0) is Ok && 0 <= now && (
        duration_of(duration->0)->Ok_0 <= now) ==> result is Ok && selection_view(result->Ok_0)
            == match best_source(
            t.events,
            project_id,
            path,
            (now - duration_of(duration->0)->Ok_0) as i64,
        ) {
            Some(s) => Some((s.hash, s.kind == RestoreKind::DeletedFallback)),
            None => None,
        },
        duration is None && checkpoint is Some && result is Ok ==> exists|
            found: Result<Option<Checkpoint>, Error>,
        |
            #[trigger] is_checkpoint_by_ref(t, project_id, checkpoint->0, found) && is_version_at(
                t.events,
                project_id,
                path,
                found,
                result->Ok_0,
            ),
{
    let keep = at_path(project_id, path);
    assert(keep(e));
    assert forall|i: int| 0 <= i < t.events.len() && keep(#[trigger] t.events[i]) implies t.events[i]
        == e || rows::row_before(Order::Newest, e, t.events[i]) by {}
    assert(rows::is_first(t.events, Order::Newest, keep, Some(e)));
    rows::lemma_pick(t.events, Order::Newest, keep, Some(e));
}

// ── versions that are kept ──────────────────────────────────────────

/// Whether a file that is there now holds a version.
pub open spec fn is_in_use(states: Seq<FileState>, project_id: i64, hash: Seq<char>) -> bool {
    exists|i: int|
        0 <= i < states.len() && (#[trigger] states[i]).project_id == project_id
            && states[i].exists_now && (states[i].latest_hash matches Some(h) && h@ == hash)
}

/// Whether the store has a version.
pub open spec fn has_version(store: Seq<StoredVersion>, hash: Seq<char>) -> bool {
    exists|i: int| 0 <= i < store.len() && (#[trigger] store[i]).hash@ == hash
}

/// Whether the store has a version that it can read, of those with its name the first.
pub open spec fn can_read(store: Seq<StoredVersion>, hash: Seq<char>) -> bool {
    exists|i: int|
        {
            &&& 0 <= i < store.len()
            &&& (#[trigger] store[i]).hash@ == hash
            &&& store[i].readable
            &&& forall|k: int| 0 <= k < i ==> (#[trigger] store[k]).hash@ != hash
        }
}

/// A check looks at each version in use once, and counts those that the store does not
/// have; a deep one also counts those that it has and cannot read.
pub proof fn lemma_check_counts_what_is_wrong(
    states: Seq<FileState>,
    project_id: i64,
    store: Seq<StoredVersion>,
    deep: bool,
    report: IntegrityReport,
) -> (list: Seq<Seq<char>>)
    requires
        is_report(states, project_id, store, deep, report),
        states.len() <= usize::MAX,
    ensures
        list.no_duplicates(),
        forall|h: Seq<char>| #[trigger] list.contains(h) <==> is_in_use(states, project_id, h),
        report.checked == list.len(),
        report.missing == list.filter(|h: Seq<char>| !has_version(store, h)).len(),
        deep ==> report.corrupt == list.filter(
            |h: Seq<char>| has_version(store, h) && !can_read(store, h),
        ).len(),
        !deep ==> report.corrupt == 0,
{
    let list = choose|list: Seq<Seq<char>>|
        #[trigger] are_needed(states, project_id, list) && report == report_on(list, store, deep);
    assert forall|h: Seq<char>| #[trigger]
        list.contains(h) <==> is_in_use(states, project_id, h) by {
        assert(list.contains(h) <==> crate::integrity::is_needed(states, project_id, h));
        if crate::integrity::is_needed(states, project_id, h) {
            let i = choose|i: int|
                0 <= i < states.len() && crate::integrity::is_current(
                    #[trigger] states[i],
                    project_id,
                    h,
                );
            assert(states[i].exists_now);
        }
        if is_in_use(states, project_id, h) {
            let i = choose|i: int|
                0 <= i < states.len() && (#[trigger] states[i]).project_id == project_id
                    && states[i].exists_now && (states[i].latest_hash matches Some(x) && x@ == h);
            assert(crate::integrity::is_current(states[i], project_id, h));
        }
    }
    assert(list.no_duplicates()) by {
        assert forall|i: int, j: int|
            0 <= i < list.len() && 0 <= j < list.len() && i != j implies list[i] != list[j] by {
            if i < j {
                assert(crate::sorted::less(list[i], list[j]));
            } else {
                assert(crate::sorted::less(list[j], list[i]));
            }
            crate::sorted::lemma_less_irreflexive(list[i]);
        }
    }
    lemma_in_use_bound(states, project_id, list);
    let gone = |h: Seq<char>| !has_version(store, h);
    let broken = |h: Seq<char>| has_version(store, h) && !can_read(store, h);
    assert forall|h: Seq<char>|
        #![trigger gone(h)]
        #![trigger broken(h)]
        #![trigger is_missing(store)(h)]
        #![trigger is_corrupt(store)(h)]
        gone(h) == is_missing(store)(h) && broken(h) == is_corrupt(store)(h) by {
        lemma_stored(store, h);
    }
    lemma_kept_is_filter(list, is_missing(store), gone);
    lemma_kept_is_filter(list, is_corrupt(store), broken);
    rows::lemma_kept_bound(list, is_missing(store));
    rows::lemma_kept_bound(list, is_corrupt(store));
    list
}

/// What is found in the store of a version.
proof fn lemma_stored(store: Seq<StoredVersion>, hash: Seq<char>)
    ensures
        has_version(store, hash) <==> stored(store, hash) is Some,
        can_read(store, hash) <==> (stored(store, hash) matches Some(v) && v.readable),
{
    let keep = is_version(hash);
    rows::lemma_lookup_kept(store, keep);
    if has_version(store, hash) {
        let i = choose|i: int| 0 <= i < store.len() && (#[trigger] store[i]).hash@ == hash;
        assert(keep(store[i]));
        crate::laws::recording::lemma_first_kept(store, keep, i);
        let at = choose|at: int| #[trigger] rows::is_found(store, keep, Some(at));
        rows::lemma_lookup(store, keep, Some(at));
        assert forall|k: int| 0 <= k < at implies (#[trigger] store[k]).hash@ != hash by {
            assert(!keep(store[k]));
        }
        if can_read(store, hash) {
            let j = choose|j: int|
                {
                    &&& 0 <= j < store.len()
                    &&& (#[trigger] store[j]).hash@ == hash
                    &&& store[j].readable
                    &&& forall|k: int| 0 <= k < j ==> (#[trigger] store[k]).hash@ != hash
                };
            assert(j == at) by {
                if j < at {
                    assert(store[j].hash@ != hash);
                } else if at < j {
                    assert(store[at].hash@ != hash);
                }
            }
        }
    } else if let Some(v) = stored(store, hash) {
        let k = choose|k: int| 0 <= k < store.len() && store[k] == v;
        assert(store[k].hash@ == hash);
    }
}

/// Counting what passes a test is taking it out and counting.
proof fn lemma_kept_is_filter(
    list: Seq<Seq<char>>,
    keep: spec_fn(Seq<char>) -> bool,
    test: spec_fn(Seq<char>) -> bool,
)
    requires
        forall|h: Seq<char>| #[trigger] keep(h) == test(h),
    ensures
        rows::kept(list, keep) == list.filter(test).len(),
    decreases list.len(),
{
    reveal(Seq::filter);
    if list.len() > 0 {
        lemma_kept_is_filter(list.drop_last(), keep, test);
        assert(keep(list.last()) == test(list.last()));
    }
}

/// There are no more versions in use than files.
proof fn lemma_in_use_bound(states: Seq<FileState>, project_id: i64, list: Seq<Seq<char>>)
    requires
        list.no_duplicates(),
        forall|h: Seq<char>| #[trigger] list.contains(h) <==> is_in_use(states, project_id, h),
    ensures
        list.len() <= states.len(),
{
    let name = |s: FileState| match s.latest_hash {
        Some(h) => h@,
        None => Seq::<char>::empty(),
    };
    let all = states.map_values(name);
    list.unique_seq_to_set();
    vstd::seq_lib::seq_to_set_is_finite(all);
    assert(list.to_set().subset_of(all.to_set())) by {
        assert forall|h: Seq<char>| list.to_set().contains(h) implies all.to_set().contains(h) by {
            assert(list.contains(h));
            let i = choose|i: int|
                0 <= i < states.len() && (#[trigger] states[i]).project_id == project_id
                    && states[i].exists_now && (states[i].latest_hash matches Some(x) && x@ == h);
            assert(all[i] == h);
        }
    }
    vstd::set_lib::lemma_len_subset(list.to_set(), all.to_set());
    all.lemma_cardinality_of_set();
}

// ── what is never recorded ──────────────────────────────────────────

/// A file below a folder that is never recorded is not recorded, however deep it lies,
/// and neither is one with the extension of a key. All other files are.
pub proof fn lemma_what_is_never_recorded(path: Seq<char>, root: Seq<char>, names: Seq<Seq<char>>)
    requires
        path::names_below(path, root) == Some(names),
    ensures
        is_builtin(path, root) <==> (exists|i: int|
            0 <= i < names.len() && is_private_or_made(#[trigger] names[i])) || (path::extension(
            path,
        ) matches Some(ext) && (ext == "pem"@ || ext == "key"@ || ext == "p12"@ || ext == "pfx"@
            || ext == "keystore"@)),
{
    assert(names_in_project(path, root) == names);
    if has_ignored_name(names) {
        let i = choose|i: int| 0 <= i < names.len() && is_ignored_name(#[trigger] names[i]);
        assert(is_private_or_made(names[i]));
    }
    if exists|i: int| 0 <= i < names.len() && is_private_or_made(#[trigger] names[i]) {
        let i = choose|i: int| 0 <= i < names.len() && is_private_or_made(#[trigger] names[i]);
        assert(is_ignored_name(names[i]));
    }
}

/// Whether a name is that of something that tools make, or that is private.
pub open spec fn is_private_or_made(name: Seq<char>) -> bool {
    ||| name == ".env"@ || name == ".env.local"@ || name == ".env.production"@ || name == ".ssh"@
    ||| name == ".git"@ || name == ".undo"@ || name == ".backtrack"@
    ||| name == "node_modules"@ || name == "target"@ || name == "dist"@ || name == "build"@
    ||| name == ".next"@ || name == "__pycache__"@
    ||| name == ".idea"@ || name == ".vscode"@ || name == ".DS_Store"@
}

// ── the history of a Run ────────────────────────────────────────────

/// Whether a history has a moment at a change.
pub open spec fn tells_at(history: Seq<(i64, i64, Seq<char>)>, id: i64, said: Seq<char>) -> bool {
    exists|k: int| 0 <= k < history.len() && (#[trigger] history[k]).0 == id && history[k].2 == said
}

/// The checkpoints that were saved at a change have a moment.
proof fn lemma_checkpoint_moment(list: Seq<Checkpoint>, i: int) -> (k: int)
    requires
        0 <= i < list.len(),
        list[i].event_id is Some,
    ensures
        0 <= k < checkpoint_moments(list).len(),
        checkpoint_moments(list)[k].0 == list[i].event_id->0,
        checkpoint_moments(list)[k].2 == "Checkpoint "@ + list[i].name@ + " ("@ + ("cp_"@
            + number::decimal(list[i].id as int)) + ")"@,
    decreases list.len(),
{
    if i < list.len() - 1 {
        let k = lemma_checkpoint_moment(list.drop_last(), i);
        k
    } else {
        checkpoint_moments(list.drop_last()).len() as int
    }
}

/// The tasks have a moment where they started.
proof fn lemma_task_moment(list: Seq<RunIntent>, i: int) -> (k: int)
    requires
        0 <= i < list.len(),
    ensures
        0 <= k < task_moments(list).len(),
        task_moments(list)[k].0 == list[i].start_event_id,
        task_moments(list)[k].2 == "Task started "@ + list[i].label@ + " ("@ + ("i_"@
            + number::decimal(list[i].id as int)) + ")"@,
    decreases list.len(),
{
    if i < list.len() - 1 {
        lemma_task_moment(list.drop_last(), i)
    } else {
        task_moments(list.drop_last()).len() as int
    }
}

/// The history of a Run goes by the changes at which things happened. It begins with the
/// start of the Run at its first change, where nothing is told of an earlier one, and it
/// has every change, every checkpoint that was saved at a change, and every task.
pub proof fn lemma_history_goes_by_changes(
    run: Run,
    root: Seq<char>,
    events: Seq<FileEvent>,
    checkpoints: Seq<Checkpoint>,
    tasks: Seq<RunIntent>,
    history: Seq<(i64, i64, Seq<char>)>,
)
    requires
        is_history(run, root, events, checkpoints, tasks, history),
        run_moments(run, root, events, checkpoints, tasks).len() <= usize::MAX,
    ensures
        forall|i: int, j: int|
            0 <= i < j < history.len() ==> (#[trigger] history[i]).0 <= (#[trigger] history[j]).0,
        tells_at(
            history,
            run.start_event_id,
            "Run started — "@ + crate::run_report::actor_name(run),
        ),
        forall|i: int|
            0 <= i < events.len() ==> tells_at(
                history,
                (#[trigger] events[i]).id,
                crate::run_report::change_name(events[i].event_type@) + " "@ + path::relative(
                    events[i].path@,
                    root,
                ),
            ),
        forall|i: int|
            0 <= i < checkpoints.len() && (#[trigger] checkpoints[i]).event_id is Some ==> tells_at(
                history,
                checkpoints[i].event_id->0,
                "Checkpoint "@ + checkpoints[i].name@ + " ("@ + ("cp_"@ + number::decimal(
                    checkpoints[i].id as int,
                )) + ")"@,
            ),
        forall|i: int|
            0 <= i < tasks.len() ==> tells_at(
                history,
                (#[trigger] tasks[i]).start_event_id,
                "Task started "@ + tasks[i].label@ + " ("@ + ("i_"@ + number::decimal(
                    tasks[i].id as int,
                )) + ")"@,
            ),
        run.end_event_id is Some ==> tells_at(
            history,
            run.end_event_id->0,
            "Run finished — "@ + crate::run_report::status_name(run.status@),
        ),
{
    let all = run_moments(run, root, events, checkpoints, tasks);
    let keys = moment_keys(all);
    let places = choose|places: Seq<usize>|
        #[trigger] order::is_order(keys, places) && history == order::arranged(all, places);
    assert forall|i: int, j: int| 0 <= i < j < history.len() implies (#[trigger] history[i]).0 <= (
    #[trigger] history[j]).0 by {
        assert(order::stands_before(keys, places[i] as int, places[j] as int));
        assert(keys[places[i] as int].0 == history[i].0);
        assert(keys[places[j] as int].0 == history[j].0);
    }
    let n = events.len() as int;
    let m = checkpoint_moments(checkpoints).len() as int;
    assert(all[0] == (run.start_event_id, 0i64, "Run started — "@ + crate::run_report::actor_name(run)));
    lemma_told_at(all, places, 0);
    assert forall|i: int| 0 <= i < events.len() implies tells_at(
        history,
        (#[trigger] events[i]).id,
        crate::run_report::change_name(events[i].event_type@) + " "@ + path::relative(
            events[i].path@,
            root,
        ),
    ) by {
        assert(all[1 + i] == change_moment(events[i], root));
        lemma_told_at(all, places, 1 + i);
    }
    assert forall|i: int|
        0 <= i < checkpoints.len() && (#[trigger] checkpoints[i]).event_id is Some implies tells_at(
        history,
        checkpoints[i].event_id->0,
        "Checkpoint "@ + checkpoints[i].name@ + " ("@ + ("cp_"@ + number::decimal(
            checkpoints[i].id as int,
        )) + ")"@,
    ) by {
        let k = lemma_checkpoint_moment(checkpoints, i);
        assert(all[1 + n + k] == checkpoint_moments(checkpoints)[k]);
        lemma_told_at(all, places, 1 + n + k);
    }
    assert forall|i: int| 0 <= i < tasks.len() implies tells_at(
        history,
        (#[trigger] tasks[i]).start_event_id,
        "Task started "@ + tasks[i].label@ + " ("@ + ("i_"@ + number::decimal(tasks[i].id as int))
            + ")"@,
    ) by {
        let k = lemma_task_moment(tasks, i);
        assert(all[1 + n + m + k] == task_moments(tasks)[k]);
        lemma_told_at(all, places, 1 + n + m + k);
    }
    if run.end_event_id is Some {
        let last = all.len() - 1;
        assert(all[last].0 == run.end_event_id->0);
        lemma_told_at(all, places, last);
    }
}

/// Each moment is told.
proof fn lemma_told_at(all: Seq<(i64, i64, Seq<char>)>, places: Seq<usize>, k: int)
    requires
        order::is_order(moment_keys(all), places),
        all.len() <= usize::MAX,
        0 <= k < all.len(),
    ensures
        tells_at(order::arranged(all, places), all[k].0, all[k].2),
{
    assert(places.contains(k as usize));
    let j = choose|j: int| 0 <= j < places.len() && places[j] == k as usize;
    assert(order::arranged(all, places)[j] == all[k]);
}

// ── folders that are recorded ───────────────────────────────────────

/// A folder overlaps with itself, with every folder in it and with every folder that it
/// is in, from both sides.
pub proof fn lemma_nested_folders_overlap(folder: Seq<char>, inner: Seq<char>)
    requires
        path::is_absolute(folder),
        path::is_absolute(inner),
    ensures
        crate::daemon::overlaps(folder, folder),
        path::names(folder).is_prefix_of(path::names(inner)) ==> crate::daemon::overlaps(
            folder,
            inner,
        ) && crate::daemon::overlaps(inner, folder),
        !path::names(folder).is_prefix_of(path::names(inner)) && !path::names(
            inner,
        ).is_prefix_of(path::names(folder)) ==> !crate::daemon::overlaps(folder, inner),
{
    assert(path::names(folder).is_prefix_of(path::names(folder)));
}

} // verus!
