//! What is found when changes, Runs, hooks and recorders are looked up.
use vstd::prelude::*;

use crate::activity::{is_latest_burst, is_panic_step, Burst, LocalTime, PanicStep};
use crate::agent_hooks::{
    event_of, external_run, first_folder, folder_at, payload_root, HookPayload,
};
use crate::ask::{
    compacted, ended_runs, is_asked_run, is_match, is_next_step, is_proposed, AskProposal, AskStep,
};
use crate::cli::{word_of, Agent};
use crate::daemon::{
    entry_end, holder_of, holders, is_log_line, is_start_step, last_message, owner_problem,
    recorder_of, says_ready, Mark, Probe, Starting,
};
use crate::db::claims::{are_claim_counts, claim_count};
use crate::db::events::{
    before_start, between, deletions_at, is_time_bounds, of_project, restorable, touching_between,
    writes_at,
};
use crate::db::recoveries::is_latest_applied;
use crate::db::runs::{run_by_ref, run_completed};
use crate::db::Tables;
use crate::error::Error;
use crate::groups::{content_after, content_before, group_paths, ChangeGroup};
use crate::laws::claiming::lemma_lookup_run;
use crate::laws::grouping::is_path_of;
use crate::laws::moments::names_file;
use crate::laws::requesting::{is_newer, lemma_group_paths};
use crate::models::{FileEvent, Recovery, Run, RunIntent};
use crate::number;
use crate::path;
use crate::places::Place;
use crate::rows;
use crate::rows::Order;
use crate::runs::launch_failed;
use crate::text;

verus! {

// ── changes ─────────────────────────────────────────────────────────

/// Whether a change left a file at a path.
pub open spec fn leaves_file(e: FileEvent, project_id: i64, path: Seq<char>) -> bool {
    e.project_id == project_id && e.path@ == path && e.event_type@ != "DELETED"@
}

/// The change at a path at a time is the newest one up to then that left a file there.
pub proof fn lemma_change_at_a_time(
    events: Seq<FileEvent>,
    project_id: i64,
    path: Seq<char>,
    until: i64,
    found: Option<FileEvent>,
    other: FileEvent,
)
    requires
        rows::is_first(events, Order::Newest, restorable(project_id, path, until), found),
        events.contains(other),
        leaves_file(other, project_id, path),
        other.timestamp <= until,
    ensures
        found is Some,
        events.contains(found->0),
        leaves_file(found->0, project_id, path),
        found->0.timestamp <= until,
        other == found->0 || is_newer(found->0, other),
{
    let k = choose|k: int| 0 <= k < events.len() && events[k] == other;
    assert(restorable(project_id, path, until)(events[k]));
}

/// The change at a path when a Run started is the newest one before it that left a file
/// there; in the second of the start, only those that the Run found count.
pub proof fn lemma_change_when_a_run_started(
    events: Seq<FileEvent>,
    run: Run,
    path: Seq<char>,
    found: Option<FileEvent>,
    other: FileEvent,
)
    requires
        rows::is_first(events, Order::Newest, before_start(run, path), found),
        events.contains(other),
        leaves_file(other, run.project_id, path),
        other.timestamp < run.started_at || (other.timestamp == run.started_at && other.id
            <= run.start_event_id),
    ensures
        found is Some,
        events.contains(found->0),
        leaves_file(found->0, run.project_id, path),
        found->0.timestamp <= run.started_at,
        found->0.timestamp == run.started_at ==> found->0.id <= run.start_event_id,
        other == found->0 || is_newer(found->0, other),
{
    let k = choose|k: int| 0 <= k < events.len() && events[k] == other;
    assert(before_start(run, path)(events[k]));
}

/// The first change of a Run to a file is the one with the lowest id of those behind its
/// start and up to its end that name the file.
pub proof fn lemma_first_change_in_a_run(
    events: Seq<FileEvent>,
    project_id: i64,
    path: Seq<char>,
    first: i64,
    last: i64,
    found: Option<FileEvent>,
    other: FileEvent,
)
    requires
        rows::is_first(
            events,
            Order::LowestId,
            touching_between(project_id, path, first, last),
            found,
        ),
        events.contains(other),
        names_file(other, project_id, path),
        first < other.id <= last,
    ensures
        found is Some,
        events.contains(found->0),
        names_file(found->0, project_id, path),
        first < found->0.id <= other.id,
        found->0.id <= last,
{
    let k = choose|k: int| 0 <= k < events.len() && events[k] == other;
    let keep = touching_between(project_id, path, first, last);
    assert(keep(events[k]));
    assert(events[k] == found->0 || rows::row_before(Order::LowestId, found->0, events[k]));
}

/// The oldest version of a file is that of the oldest change that left the file, and the
/// latest deletion of it the newest change that deleted it.
pub proof fn lemma_oldest_version_and_latest_deletion(
    events: Seq<FileEvent>,
    project_id: i64,
    path: Seq<char>,
    oldest: Option<FileEvent>,
    deletion: Option<FileEvent>,
    other: FileEvent,
)
    requires
        rows::is_first(events, Order::Oldest, writes_at(project_id, path), oldest),
        rows::is_first(events, Order::Newest, deletions_at(project_id, path), deletion),
        events.contains(other),
        other.project_id == project_id,
        other.path@ == path,
    ensures
        other.event_type@ != "DELETED"@ ==> oldest is Some && leaves_file(
            oldest->0,
            project_id,
            path,
        ) && (other == oldest->0 || is_newer(other, oldest->0)),
        other.event_type@ == "DELETED"@ ==> deletion is Some && deletion->0.event_type@
            == "DELETED"@ && deletion->0.path@ == path && (other == deletion->0 || is_newer(
            deletion->0,
            other,
        )),
{
    let k = choose|k: int| 0 <= k < events.len() && events[k] == other;
    if other.event_type@ != "DELETED"@ {
        assert(writes_at(project_id, path)(events[k]));
    } else {
        assert(deletions_at(project_id, path)(events[k]));
    }
}

/// The changes between two ids are those of the project behind the first and up to the
/// second, by their ids.
pub proof fn lemma_changes_between_ids(
    events: Seq<FileEvent>,
    project_id: i64,
    first: i64,
    last: i64,
    list: Seq<FileEvent>,
    e: FileEvent,
)
    requires
        rows::is_listing(events, Order::LowestId, between(project_id, first, last), list),
    ensures
        list.contains(e) <==> events.contains(e) && e.project_id == project_id && first < e.id
            <= last,
        forall|i: int, j: int|
            0 <= i < j < list.len() ==> (#[trigger] list[i]).id < (#[trigger] list[j]).id,
{
    let keep = between(project_id, first, last);
    if list.contains(e) {
        let k = choose|k: int| 0 <= k < list.len() && list[k] == e;
        assert(events.contains(list[k]) && keep(list[k]));
    }
    if events.contains(e) && keep(e) {
        let k = choose|k: int| 0 <= k < events.len() && events[k] == e;
        assert(list.contains(events[k]));
    }
    assert forall|i: int, j: int| 0 <= i < j < list.len() implies (#[trigger] list[i]).id < (
    #[trigger] list[j]).id by {
        assert(rows::row_before(Order::LowestId, list[i], list[j]));
    }
}

/// The changes of a project are counted one by one.
pub proof fn lemma_changes_are_counted(events: Seq<FileEvent>, project_id: i64)
    ensures
        rows::kept(events, of_project(project_id)) == events.filter(
            |e: FileEvent| e.project_id == project_id,
        ).len(),
    decreases events.len(),
{
    reveal(Seq::filter);
    if events.len() > 0 {
        lemma_changes_are_counted(events.drop_last(), project_id);
    }
}

/// The times of a project's changes lie between the bounds, and both bounds are times of
/// changes; there are none only where the project has no change.
pub proof fn lemma_time_bounds(
    events: Seq<FileEvent>,
    project_id: i64,
    bounds: (Option<i64>, Option<i64>),
    e: FileEvent,
)
    requires
        is_time_bounds(events, project_id, bounds),
        events.contains(e),
        e.project_id == project_id,
    ensures
        bounds.0 is Some,
        bounds.1 is Some,
        bounds.0->0 <= e.timestamp <= bounds.1->0,
        exists|i: int|
            0 <= i < events.len() && (#[trigger] events[i]).project_id == project_id
                && events[i].timestamp == bounds.0->0,
        exists|i: int|
            0 <= i < events.len() && (#[trigger] events[i]).project_id == project_id
                && events[i].timestamp == bounds.1->0,
{
    let k = choose|k: int| 0 <= k < events.len() && events[k] == e;
    assert(events[k].project_id == project_id);
}

/// Each change in a range that a Run claims is told with the number of Runs that claim it.
pub proof fn lemma_claims_are_counted(
    t: Tables,
    project_id: i64,
    first: i64,
    last: i64,
    list: Seq<(i64, usize)>,
    e: FileEvent,
)
    requires
        are_claim_counts(t, project_id, first, last, list),
        t.events.contains(e),
        e.project_id == project_id,
        first <= e.id <= last,
        claim_count(t.claims, e.id) > 0,
    ensures
        exists|i: int|
            0 <= i < list.len() && (#[trigger] list[i]).0 == e.id && list[i].1 == claim_count(
                t.claims,
                e.id,
            ),
{
    let k = choose|k: int| 0 <= k < t.events.len() && t.events[k] == e;
    assert(t.events[k].project_id == project_id);
}

/// The latest time at which a plan of a project was carried out is not before that of any
/// plan, and is that of one.
pub proof fn lemma_latest_applied(
    recoveries: Seq<Recovery>,
    project_id: i64,
    at: Option<i64>,
    r: Recovery,
)
    requires
        is_latest_applied(recoveries, project_id, at),
        recoveries.contains(r),
        r.project_id == project_id,
        r.status@ == "applied"@,
        r.applied_at is Some,
    ensures
        at is Some,
        r.applied_at->0 <= at->0,
        exists|i: int|
            0 <= i < recoveries.len() && (#[trigger] recoveries[i]).project_id == project_id
                && recoveries[i].status@ == "applied"@ && recoveries[i].applied_at == at,
{
    let k = choose|k: int| 0 <= k < recoveries.len() && recoveries[k] == r;
    assert(recoveries[k].project_id == project_id);
}

/// A file that a change made had nothing before it, and one that a change deleted has
/// nothing after it; otherwise what was kept counts.
pub proof fn lemma_contents_around_a_change(event_type: Seq<char>, kept: Seq<u8>)
    ensures
        content_before("CREATED"@, Some(kept)) == Seq::<u8>::empty(),
        content_after("DELETED"@, Some(kept)) == Seq::<u8>::empty(),
        event_type != "CREATED"@ ==> content_before(event_type, Some(kept)) == kept,
        event_type != "DELETED"@ ==> content_after(event_type, Some(kept)) == kept,
        content_before(event_type, None) == Seq::<u8>::empty(),
        content_after(event_type, None) == Seq::<u8>::empty(),
{
}

// ── emergencies ─────────────────────────────────────────────────────

/// An emergency looks back on one day, and goes back to the second before the burst that
/// ended last in it.
pub proof fn lemma_emergency_looks_back_one_day(
    t: Tables,
    project_id: i64,
    root: Seq<char>,
    now: i64,
    latest: Option<Burst>,
    times: Seq<LocalTime>,
    result: Result<PanicStep, Error>,
)
    requires
        t.wf(),
        t.events.len() <= usize::MAX,
        now >= 0,
        is_latest_burst(t.events, project_id, now, latest),
        is_panic_step(t, project_id, root, true, latest, times, now, result),
    ensures
        latest is None ==> result is Err,
        latest is Some ==> result is Ok,
        latest matches Some(b) ==> (b.start > i64::MIN ==> (result matches Ok(
            PanicStep::GoBack { target },
        ) && target == b.start - 1)),
        latest matches Some(b) ==> now - 86_400 <= b.start <= b.end,
        latest matches Some(b) ==> exists|i: int|
            0 <= i < t.events.len() && (#[trigger] t.events[i]).project_id == project_id
                && t.events[i].timestamp == b.start,
{
    if let Some(b) = latest {
        let from = crate::clock::clamp(now - 86_400) as i64;
        let keep = crate::db::events::since(project_id, from);
        let recent = rows::listed(t.events, Order::Newest, keep);
        rows::lemma_listing(t.events, Order::Newest, keep);
        let (bursts, found) = choose|bursts: Seq<Burst>, found: Option<int>|
            {
                &&& #[trigger] crate::activity::are_bursts(recent, bursts)
                &&& #[trigger] crate::activity::is_latest(bursts, found)
                &&& latest == match found {
                    Some(i) => Some(bursts[i]),
                    None => None,
                }
            };
        lemma_listing_len(t.events, keep, recent);
        let list = crate::laws::grouping::lemma_bursts_are_the_notable_stretches(recent, bursts);
        let k = found->0;
        assert(crate::laws::grouping::tells(bursts[k], list));
        let (i, j) = choose|i: int, j: int| #[trigger]
            crate::laws::grouping::is_stretch(list, i, j) && crate::laws::grouping::is_notable(
                list.subrange(i, j + 1),
            ) && crate::laws::grouping::is_made_by(b, list.subrange(i, j + 1));
        let e = list[i];
        assert(list.subrange(i, j + 1)[0] == e);
        assert(list.subrange(i, j + 1)[j - i] == list[j]);
        assert(list.contains(e));
        assert(recent.contains(e));
        let m = choose|m: int| 0 <= m < recent.len() && recent[m] == e;
        assert(t.events.contains(recent[m]) && keep(recent[m]));
        let n = choose|n: int| 0 <= n < t.events.len() && t.events[n] == e;
        assert(t.events[n].timestamp == b.start);
        if i < j {
            assert(list[i].timestamp <= list[j].timestamp);
        }
    }
}

/// A listing is no longer than its table.
proof fn lemma_listing_len(
    events: Seq<FileEvent>,
    keep: spec_fn(FileEvent) -> bool,
    list: Seq<FileEvent>,
)
    requires
        rows::is_listing(events, Order::Newest, keep, list),
    ensures
        list.len() <= events.len(),
{
    assert(list.no_duplicates()) by {
        assert forall|i: int, j: int|
            0 <= i < list.len() && 0 <= j < list.len() && i != j implies list[i] != list[j] by {
            if i < j {
                assert(rows::row_before(Order::Newest, list[i], list[j]));
            } else {
                assert(rows::row_before(Order::Newest, list[j], list[i]));
            }
        }
    }
    list.unique_seq_to_set();
    vstd::seq_lib::seq_to_set_is_finite(events);
    assert(list.to_set().subset_of(events.to_set())) by {
        assert forall|e: FileEvent| list.to_set().contains(e) implies events.to_set().contains(
            e,
        ) by {
            let k = choose|k: int| 0 <= k < list.len() && list[k] == e;
            assert(events.contains(list[k]));
        }
    }
    vstd::set_lib::lemma_len_subset(list.to_set(), events.to_set());
    events.lemma_cardinality_of_set();
}

// ── hooks ───────────────────────────────────────────────────────────

/// The five events of hooks that are acted on are known however they are written, by
/// their letters; no other event is.
pub proof fn lemma_hook_events_are_known(name: Seq<char>)
    ensures
        event_of(Some(name)) matches Some(known) ==> known == compacted(name) && (known
            == "sessionstart"@ || known == "sessionend"@ || known == "pretooluse"@ || known
            == "posttooluse"@ || known == "posttoolusefailure"@),
        compacted(name) == "sessionstart"@ || compacted(name) == "sessionend"@ || compacted(name)
            == "pretooluse"@ || compacted(name) == "posttooluse"@ || compacted(name)
            == "posttoolusefailure"@ ==> event_of(Some(name)) == Some(compacted(name)),
        event_of(None) is None,
        forall|i: int|
            0 <= i < compacted(name).len() ==> 'a' <= #[trigger] compacted(name)[i] <= 'z' || '0'
                <= compacted(name)[i] <= '9',
        (forall|i: int|
            0 <= i < name.len() ==> 'a' <= #[trigger] name[i] <= 'z' || '0' <= name[i] <= '9')
            ==> compacted(name) == name,
{
    lemma_compacted(name);
}

/// Only small letters and digits are left of a name, and all of them.
proof fn lemma_compacted(name: Seq<char>)
    ensures
        forall|i: int|
            0 <= i < compacted(name).len() ==> 'a' <= #[trigger] compacted(name)[i] <= 'z' || '0'
                <= compacted(name)[i] <= '9',
        (forall|i: int|
            0 <= i < name.len() ==> 'a' <= #[trigger] name[i] <= 'z' || '0' <= name[i] <= '9')
            ==> compacted(name) == name,
    decreases name.len(),
{
    if name.len() > 0 {
        let front = name.drop_last();
        lemma_compacted(front);
        let c = name.last();
        let n = front.len() as int;
        assert(name[n] == c);
        if 'A' <= c <= 'Z' {
            assert('a' <= text::lower_char(c) <= 'z');
        }
        assert forall|i: int| 0 <= i < compacted(name).len() implies 'a'
            <= #[trigger] compacted(name)[i] <= 'z' || '0' <= compacted(name)[i] <= '9' by {
            if i < compacted(front).len() {
                assert(compacted(name)[i] == compacted(front)[i]);
            } else {
                assert(compacted(name)[i] == text::lower_char(c));
            }
        }
        if forall|i: int|
            0 <= i < name.len() ==> 'a' <= #[trigger] name[i] <= 'z' || '0' <= name[i] <= '9' {
            assert forall|i: int| 0 <= i < front.len() implies 'a' <= #[trigger] front[i] <= 'z'
                || '0' <= front[i] <= '9' by {
                assert(front[i] == name[i]);
            }
            assert('a' <= name[n] <= 'z' || '0' <= name[n] <= '9');
            assert(front.push(c) =~= name);
        }
    } else {
        assert(compacted(name) =~= name);
    }
}

/// The Run of a hook is known by the agent's word and the conversation, else the session;
/// a hook that names neither has none.
pub proof fn lemma_run_of_a_hook(agent: Agent, conversation: Seq<char>, session: Option<Seq<char>>)
    requires
        text::trimmed(conversation).len() > 0,
    ensures
        external_run(agent, Some(conversation), session) == Some(
            word_of(agent) + ":"@ + text::trimmed(conversation),
        ),
        external_run(agent, None, Some(conversation)) == Some(
            word_of(agent) + ":"@ + text::trimmed(conversation),
        ),
        external_run(agent, None, None) is None,
{
}

/// The first folder that values name is that of the first value that names one.
proof fn lemma_first_folder(
    values: Seq<Seq<char>>,
    process_cwd: Seq<char>,
    disk: Seq<Place>,
    at: int,
)
    requires
        0 <= at < values.len(),
        folder_at(values[at], process_cwd, disk) is Some,
        forall|k: int|
            0 <= k < at ==> folder_at(#[trigger] values[k], process_cwd, disk) is None,
    ensures
        first_folder(values, process_cwd, disk) == folder_at(values[at], process_cwd, disk),
    decreases values.len(),
{
    let front = values.drop_last();
    if at < front.len() {
        assert forall|k: int| 0 <= k < at implies folder_at(
            #[trigger] front[k],
            process_cwd,
            disk,
        ) is None by {
            assert(front[k] == values[k]);
        }
        assert(front[at] == values[at]);
        lemma_first_folder(front, process_cwd, disk, at);
    } else {
        lemma_no_folder(front, process_cwd, disk);
    }
}

/// Where no value names a folder there is none.
proof fn lemma_no_folder(values: Seq<Seq<char>>, process_cwd: Seq<char>, disk: Seq<Place>)
    requires
        forall|k: int|
            0 <= k < values.len() ==> folder_at(#[trigger] values[k], process_cwd, disk) is None,
    ensures
        first_folder(values, process_cwd, disk) is None,
    decreases values.len(),
{
    if values.len() > 0 {
        let front = values.drop_last();
        assert forall|k: int| 0 <= k < front.len() implies folder_at(
            #[trigger] front[k],
            process_cwd,
            disk,
        ) is None by {
            assert(front[k] == values[k]);
        }
        lemma_no_folder(front, process_cwd, disk);
        assert(values[values.len() - 1] == values.last());
    }
}

/// A hook reports from the first of its workspace folders that is there; where none is,
/// from its own folder.
pub proof fn lemma_folder_of_a_hook(
    payload: HookPayload,
    process_cwd: Seq<char>,
    disk: Seq<Place>,
    at: int,
)
    ensures
        0 <= at < payload.workspace_roots@.len() && folder_at(
            payload.workspace_roots@[at]@,
            process_cwd,
            disk,
        ) is Some && (forall|k: int|
            0 <= k < at ==> folder_at(
                (#[trigger] payload.workspace_roots@[k])@,
                process_cwd,
                disk,
            ) is None) ==> payload_root(payload, process_cwd, disk) == Ok::<Seq<char>, Seq<char>>(
            folder_at(payload.workspace_roots@[at]@, process_cwd, disk)->0,
        ),
        payload.workspace_roots@.len() == 0 && payload.cwd is Some && folder_at(
            payload.cwd->0@,
            process_cwd,
            disk,
        ) is Some ==> payload_root(payload, process_cwd, disk) == Ok::<Seq<char>, Seq<char>>(
            folder_at(payload.cwd->0@, process_cwd, disk)->0,
        ),
{
    let values = text::views(payload.workspace_roots@);
    if 0 <= at < values.len() && folder_at(values[at], process_cwd, disk) is Some && (forall|k: int|
        0 <= k < at ==> folder_at(
            (#[trigger] payload.workspace_roots@[k])@,
            process_cwd,
            disk,
        ) is None) {
        assert forall|k: int| 0 <= k < at implies folder_at(
            #[trigger] values[k],
            process_cwd,
            disk,
        ) is None by {
            assert(values[k] == payload.workspace_roots@[k]@);
        }
        lemma_first_folder(values, process_cwd, disk, at);
    }
}

// ── recorders ───────────────────────────────────────────────────────

/// A new recorder is taken as ready as soon as its mark says so, even where it has ended.
/// Otherwise it has failed where it ended, and where it was looked at two hundred times;
/// until then it is waited for.
pub proof fn lemma_recorder_is_waited_for(
    attempt: int,
    probe: Probe,
    pid: u32,
    log_path: Seq<char>,
    step: Starting,
)
    requires
        is_start_step(attempt, probe, pid, log_path, step),
    ensures
        (probe.mark matches Some(m) && says_ready(m@)) <==> step is Ready,
        !(probe.mark matches Some(m) && says_ready(m@)) && probe.exited is Some ==> step is Failed,
        !(probe.mark matches Some(m) && says_ready(m@)) && probe.exited is None ==> (step is Wait
            <==> attempt + 1 < 200),
{
}

/// What went wrong last with a process is what the last entry of the log says, where that
/// is an error of the process.
pub proof fn lemma_last_error_is_told(
    lines: Seq<Seq<char>>,
    mark: Seq<char>,
    said: (Seq<char>, Seq<char>),
    from: int,
    before: Option<Seq<char>>,
)
    requires
        0 <= from < lines.len(),
        is_log_line(lines[lines.len() - 1]),
        text::sides(lines[lines.len() - 1], mark) == Some(said),
    ensures
        last_message(lines, mark, from, before) == Some(said.1),
    decreases lines.len() - from,
{
    let n = lines.len() as int;
    if from == n - 1 {
        assert(entry_end(lines, n) == n);
        assert(lines.subrange(n, n) =~= Seq::empty());
        assert(seq![said.1] + lines.subrange(n, n) =~= seq![said.1]);
        lemma_joined_one(said.1, "\n"@);
        assert(last_message(lines, mark, n, Some(said.1)) == Some(said.1));
    } else {
        match text::sides(lines[from], mark) {
            None => lemma_last_error_is_told(lines, mark, said, from + 1, before),
            Some(parts) => {
                let end = entry_end(lines, from + 1);
                lemma_entry_end_bound(lines, from + 1);
                let told = text::joined(seq![parts.1] + lines.subrange(from + 1, end), "\n"@);
                lemma_last_error_is_told(lines, mark, said, end, Some(told));
            },
        }
    }
}

/// The last line begins an entry, so the next entry begins there at the latest.
proof fn lemma_entry_end_bound(lines: Seq<Seq<char>>, at: int)
    requires
        0 <= at < lines.len(),
        is_log_line(lines[lines.len() - 1]),
    ensures
        at <= entry_end(lines, at) < lines.len(),
    decreases lines.len() - at,
{
    if !is_log_line(lines[at]) {
        lemma_entry_end_bound(lines, at + 1);
    }
}

/// One text is joined to itself.
proof fn lemma_joined_one(s: Seq<char>, separator: Seq<char>)
    ensures
        text::joined(seq![s], separator) == s,
{
    reveal_with_fuel(text::joined, 3);
    assert(seq![s].drop_last() =~= Seq::<Seq<char>>::empty());
    assert(text::joined(seq![s], separator) =~= s);
}

/// Whether a recorder holds a mark.
pub open spec fn is_held_by(mark: Mark, recorder: (u32, Seq<char>)) -> bool {
    mark.held && path::extension(mark.path@) == Some("pid"@) && (mark.contents matches Some(c)
        && recorder_of(c@) == Some(recorder))
}

/// The recorders that are active are those that hold a mark, and no others.
pub proof fn lemma_active_recorders_hold_marks(marks: Seq<Mark>, recorder: (u32, Seq<char>))
    ensures
        holders(marks).contains(recorder) <==> exists|i: int|
            0 <= i < marks.len() && is_held_by(#[trigger] marks[i], recorder),
    decreases marks.len(),
{
    if marks.len() > 0 {
        let front = marks.drop_last();
        let n = front.len() as int;
        lemma_active_recorders_hold_marks(front, recorder);
        assert(marks[n] == marks.last());
        assert(holder_of(marks[n]) == Some(recorder) <==> is_held_by(marks[n], recorder));
        let before = holders(front);
        let all = holders(marks);
        if all.contains(recorder) {
            let k = choose|k: int| 0 <= k < all.len() && all[k] == recorder;
            if k < before.len() {
                assert(before[k] == recorder);
                let i = choose|i: int|
                    0 <= i < front.len() && is_held_by(#[trigger] front[i], recorder);
                assert(is_held_by(marks[i], recorder));
            } else {
                assert(is_held_by(marks[n], recorder));
            }
        }
        if exists|i: int| 0 <= i < marks.len() && is_held_by(#[trigger] marks[i], recorder) {
            let i = choose|i: int| 0 <= i < marks.len() && is_held_by(#[trigger] marks[i], recorder);
            if i < n {
                assert(is_held_by(front[i], recorder));
                let k = choose|k: int| 0 <= k < before.len() && before[k] == recorder;
                assert(all[k] == recorder);
            } else {
                assert(all[before.len() as int] == recorder);
            }
        }
    }
}

/// A folder may be recorded where an ordinary account owns it: neither root nor one below
/// the threshold for system accounts.
pub proof fn lemma_who_may_own_a_folder(folder: Seq<char>, uid: u32, threshold: u32)
    ensures
        owner_problem(folder, uid, threshold) is None <==> uid != 0 && uid >= threshold,
{
}

// ── Runs that are asked about ───────────────────────────────────────

/// A request is about the Run that it names, else about the last one to start of those
/// that have ended.
pub proof fn lemma_which_run_is_asked_about(
    t: Tables,
    project_id: i64,
    name: Option<Seq<char>>,
    usual: Agent,
    result: Result<Run, Error>,
)
    requires
        t.wf(),
        is_asked_run(t.sessions, project_id, name, usual, result),
    ensures
        name is Some ==> (result is Ok <==> run_by_ref(t.sessions, project_id, name->0) is Some),
        name is Some && result is Ok ==> run_by_ref(t.sessions, project_id, name->0) == Some(
            result->Ok_0,
        ),
        name is None && result is Ok ==> t.sessions.contains(result->Ok_0)
            && result->Ok_0.project_id == project_id && result->Ok_0.ended_at is Some,
        name is None ==> forall|i: int|
            0 <= i < t.sessions.len() && (#[trigger] t.sessions[i]).project_id == project_id
                && t.sessions[i].ended_at is Some ==> result is Ok && t.sessions[i].started_at
                <= result->Ok_0.started_at,
{
    if name is None {
        let keep = ended_runs(project_id);
        rows::lemma_picked(t.sessions, Order::Newest, keep);
        assert forall|i: int|
            0 <= i < t.sessions.len() && (#[trigger] t.sessions[i]).project_id == project_id
                && t.sessions[i].ended_at is Some implies result is Ok && t.sessions[i].started_at
            <= result->Ok_0.started_at by {
            assert(keep(t.sessions[i]));
        }
    }
}

/// A request on a Run that is still active is refused. One on a Run with changes goes on
/// with the task that it means, where it means one; else with the files of the groups
/// that it undoes, all of them and no others, and with nothing where there is none.
pub proof fn lemma_how_a_request_goes_on(
    query: Seq<char>,
    run: Run,
    changes: int,
    intents: Seq<RunIntent>,
    root: Seq<char>,
    groups: Seq<ChangeGroup>,
    result: Result<AskStep, Error>,
)
    requires
        is_next_step(query, run, changes, intents, root, groups, result),
    ensures
        run.ended_at is None ==> result is Err,
        run.ended_at is Some && changes == 0 ==> (result matches Ok(AskStep::Nothing(_))),
        result matches Ok(AskStep::Task { run: r, task, .. }) ==> r == run && exists|i: usize|
            #[trigger] is_match(query, intents, Some(i)) && task == intents[i as int],
        result matches Ok(AskStep::Files { run: r, paths, .. }) ==> r == run && exists|
            p: AskProposal,
        |
            #[trigger] is_proposed(query, run, root, groups, p) && are_files_of(
                p.revert_groups@,
                text::views(paths@),
            ),
{
    if run.ended_at is Some && changes != 0 {
        let found = choose|found: Option<usize>|
            #[trigger] is_match(query, intents, found) && crate::ask::is_step(
                query,
                run,
                intents,
                root,
                groups,
                found,
                result,
            );
        if let Some(i) = found {
            assert(is_match(query, intents, Some(i)));
        } else if groups.len() > 0 {
            let p = choose|p: AskProposal|
                #[trigger] is_proposed(query, run, root, groups, p) && crate::ask::is_proposal_step(
                    query,
                    p,
                    result,
                );
            if let Ok(AskStep::Files { run: r, lines, paths, kind, confidence }) = result {
                let list = text::views(paths@);
                assert forall|f: Seq<char>| #[trigger] list.contains(f) <==> exists|g: int|
                    0 <= g < p.revert_groups@.len() && is_path_of(
                        #[trigger] p.revert_groups@[g],
                        f,
                    ) by {
                    lemma_group_paths(p.revert_groups@, f);
                    assert(list.contains(f) <==> group_paths(p.revert_groups@).contains(f));
                }
                assert(are_files_of(p.revert_groups@, list));
            }
        }
    }
}

/// Whether paths are those of groups.
pub open spec fn are_files_of(groups: Seq<ChangeGroup>, list: Seq<Seq<char>>) -> bool {
    forall|f: Seq<char>| #[trigger]
        list.contains(f) <==> exists|g: int|
            0 <= g < groups.len() && is_path_of(#[trigger] groups[g], f)
}

/// A command that cannot be launched ends its Run as failed, and what is said begins with
/// why it could not be launched.
pub proof fn lemma_failed_launch_ends_the_run(
    before: Tables,
    after: Tables,
    run: Run,
    launch_error: Seq<char>,
    now: i64,
    result: Result<i32, Error>,
)
    requires
        before.wf(),
        before.sessions.contains(run),
        run.ended_at is None,
        launch_failed(before, after, run.id, launch_error, now, result),
    ensures
        result is Err,
        result->Err_0@ == launch_error,
        exists|i: int|
            0 <= i < after.sessions.len() && (#[trigger] after.sessions[i]).id == run.id
                && after.sessions[i].status@ == "failed"@ && after.sessions[i].ended_at == Some(
                now,
            ),
{
    lemma_lookup_run(before, run);
    let ended = choose|ended: Result<Run, Error>|
        {
            &&& #[trigger] run_completed(before, after, run.id, "failed"@, now, ended)
            &&& result matches Err(e) && e@ == match ended {
                Ok(_) => launch_error,
                Err(x) => {
                    let id = "r_"@ + number::decimal(run.id as int);
                    launch_error + "\nUndo also could not mark Run "@ + id + " as failed: "@ + x@
                        + "\nComplete it manually with: undo run stop "@ + id
                        + " --status failed"@
                },
            }
        };
    let r = ended->Ok_0;
    let j = choose|j: int|
        0 <= j < before.sessions.len() && before.sessions[j] == run && after.sessions
            == #[trigger] before.sessions.update(j, r);
    assert(after.sessions[j].id == run.id);
}

} // verus!
