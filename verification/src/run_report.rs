//! What is shown of a Run.
use vstd::prelude::*;
use vstd::string::*;

use crate::cli::{word_of, Agent};
use crate::clock;
use crate::duration;
use crate::groups::ChangeGroup;
use crate::models::{Checkpoint, FileEvent, Run, RunIntent};
use crate::number;
use crate::order;
use crate::path;
use crate::rows;
use crate::style::{BOLD, DIM, GREEN, RED, RESET, YELLOW};
use crate::text;

verus! {

// ── words ───────────────────────────────────────────────────────────

/// Who acts in a Run, for people to read.
pub open spec fn actor_name(run: Run) -> Seq<char> {
    match run.agent {
        Some(agent) => agent@,
        None => if run.actor@ == "human"@ {
            "Human"@
        } else if run.actor@ == "tool"@ {
            "Tool"@
        } else if run.actor@ == "mixed"@ {
            "Mixed"@
        } else {
            run.actor@
        },
    }
}

/// Who acts in a Run, for people to read.
pub fn actor_label(run: &Run) -> (label: String)
    ensures
        label@ == actor_name(*run),
{
    match &run.agent {
        Some(agent) => agent.clone(),
        None => if text::same(run.actor.as_str(), "human") {
            "Human".to_owned()
        } else if text::same(run.actor.as_str(), "tool") {
            "Tool".to_owned()
        } else if text::same(run.actor.as_str(), "mixed") {
            "Mixed".to_owned()
        } else {
            run.actor.clone()
        },
    }
}

/// The state of a Run, for people to read.
pub open spec fn status_name(status: Seq<char>) -> Seq<char> {
    if status == "active"@ {
        "Active"@
    } else if status == "completed"@ {
        "Completed"@
    } else if status == "failed"@ {
        "Failed"@
    } else if status == "aborted"@ {
        "Aborted"@
    } else {
        status
    }
}

/// The state of a Run, for people to read.
pub fn status_label<'a>(status: &'a str) -> (label: &'a str)
    ensures
        label@ == status_name(status@),
{
    if text::same(status, "active") {
        "Active"
    } else if text::same(status, "completed") {
        "Completed"
    } else if text::same(status, "failed") {
        "Failed"
    } else if text::same(status, "aborted") {
        "Aborted"
    } else {
        status
    }
}

/// A kind of change, for people to read.
pub open spec fn change_name(event_type: Seq<char>) -> Seq<char> {
    if event_type == "MODIFIED"@ {
        "Modified"@
    } else if event_type == "CREATED"@ {
        "Created"@
    } else if event_type == "DELETED"@ {
        "Deleted"@
    } else if event_type == "RENAMED"@ {
        "Renamed"@
    } else {
        event_type
    }
}

/// A kind of change, for people to read.
pub fn file_change_label<'a>(event_type: &'a str) -> (label: &'a str)
    ensures
        label@ == change_name(event_type@),
{
    if text::same(event_type, "MODIFIED") {
        "Modified"
    } else if text::same(event_type, "CREATED") {
        "Created"
    } else if text::same(event_type, "DELETED") {
        "Deleted"
    } else if text::same(event_type, "RENAMED") {
        "Renamed"
    } else {
        event_type
    }
}

/// How a Run has ended, as a heading.
pub open spec fn outcome_heading(status: Seq<char>) -> Seq<char> {
    if status == "completed"@ {
        "Run completed"@
    } else if status == "failed"@ {
        "Run failed"@
    } else if status == "aborted"@ {
        "Run aborted"@
    } else {
        "Run finished"@
    }
}

/// How a Run has ended, as a heading.
pub fn run_outcome_heading(status: &str) -> (heading: &'static str)
    ensures
        heading@ == outcome_heading(status@),
{
    if text::same(status, "completed") {
        "Run completed"
    } else if text::same(status, "failed") {
        "Run failed"
    } else if text::same(status, "aborted") {
        "Run aborted"
    } else {
        "Run finished"
    }
}

/// How long a Run has lasted, by the time now where it still runs.
pub open spec fn lasted(run: Run, now: i64) -> Seq<char> {
    let end = match run.ended_at {
        Some(at) => at,
        None => now,
    };
    duration::elapsed(clock::clamp(end - run.started_at))
}

/// How long a Run has lasted.
pub fn run_duration(run: &Run, now: i64) -> (out: String)
    ensures
        out@ == lasted(*run, now),
{
    let end = match run.ended_at {
        Some(at) => at,
        None => now,
    };
    duration::format_elapsed(clock::earlier(end, run.started_at))
}

// ── lists ───────────────────────────────────────────────────────────

/// A line on a Run in a list of Runs.
pub open spec fn run_row(run: Run, changes: int, now: i64) -> Seq<char> {
    text::padded("r_"@ + number::decimal(run.id as int), 9) + " "@ + text::padded(
        actor_name(run),
        14,
    ) + " "@ + text::padded(lasted(run, now), 10) + " "@ + text::padded(
        number::decimal(changes),
        8,
    ) + " "@ + status_name(run.status@)
}

/// A line on a Run in a list of Runs.
pub fn list_row(run: &Run, changes: usize, now: i64) -> (line: String)
    ensures
        line@ == run_row(*run, changes as int, now),
{
    let mut line = text::pad(run.public_id().as_str(), 9);
    line.append(" ");
    line.append(text::pad(actor_label(run).as_str(), 14).as_str());
    line.append(" ");
    line.append(text::pad(run_duration(run, now).as_str(), 10).as_str());
    line.append(" ");
    line.append(text::pad(number::count_text(changes).as_str(), 8).as_str());
    line.append(" ");
    line.append(status_label(run.status.as_str()));
    line
}

// ── history ─────────────────────────────────────────────────────────

/// A moment in the history of a Run: the change at which it was, its rank among
/// those at the same change, and what happened.
#[derive(Debug)]
pub struct Moment {
    pub event_id: i64,
    pub rank: i64,
    pub label: String,
}

/// What a moment is.
pub open spec fn moment_view(m: Moment) -> (i64, i64, Seq<char>) {
    (m.event_id, m.rank, m.label@)
}

/// What moments are.
pub open spec fn moments_view(list: Seq<Moment>) -> Seq<(i64, i64, Seq<char>)> {
    list.map_values(|m: Moment| moment_view(m))
}

/// The moment of a change.
pub open spec fn change_moment(e: FileEvent, root: Seq<char>) -> (i64, i64, Seq<char>) {
    (e.id, 1i64, change_name(e.event_type@) + " "@ + path::relative(e.path@, root))
}

/// The moments of checkpoints, for those that were saved at a change.
pub open spec fn checkpoint_moments(list: Seq<Checkpoint>) -> Seq<(i64, i64, Seq<char>)>
    decreases list.len(),
{
    if list.len() == 0 {
        Seq::empty()
    } else {
        let before = checkpoint_moments(list.drop_last());
        let c = list.last();
        match c.event_id {
            Some(id) => before.push(
                (
                    id,
                    2i64,
                    "Checkpoint "@ + c.name@ + " ("@ + ("cp_"@ + number::decimal(c.id as int))
                        + ")"@,
                ),
            ),
            None => before,
        }
    }
}

/// The moments of tasks: where each has started, and where it has ended.
pub open spec fn task_moments(list: Seq<RunIntent>) -> Seq<(i64, i64, Seq<char>)>
    decreases list.len(),
{
    if list.len() == 0 {
        Seq::empty()
    } else {
        let t = list.last();
        let id = "i_"@ + number::decimal(t.id as int);
        let before = task_moments(list.drop_last()).push(
            (t.start_event_id, 2i64, "Task started "@ + t.label@ + " ("@ + id + ")"@),
        );
        match t.end_event_id {
            Some(end) => before.push(
                (end, 3i64, "Task finished "@ + t.label@ + " ("@ + id + ")"@),
            ),
            None => before,
        }
    }
}

/// The moments of a Run, not yet in their order.
pub open spec fn run_moments(
    run: Run,
    root: Seq<char>,
    events: Seq<FileEvent>,
    checkpoints: Seq<Checkpoint>,
    tasks: Seq<RunIntent>,
) -> Seq<(i64, i64, Seq<char>)> {
    let all = seq![(run.start_event_id, 0i64, "Run started — "@ + actor_name(run))]
        + events.map_values(|e: FileEvent| change_moment(e, root)) + checkpoint_moments(checkpoints)
        + task_moments(tasks);
    match run.end_event_id {
        Some(id) => all.push((id, 4i64, "Run finished — "@ + status_name(run.status@))),
        None => all,
    }
}

/// The keys by which moments are ordered.
pub open spec fn moment_keys(list: Seq<(i64, i64, Seq<char>)>) -> Seq<(i64, i64)> {
    list.map_values(|m: (i64, i64, Seq<char>)| (m.0, m.1))
}

/// Whether moments are those of a Run, by the change at which each was.
pub open spec fn is_history(
    run: Run,
    root: Seq<char>,
    events: Seq<FileEvent>,
    checkpoints: Seq<Checkpoint>,
    tasks: Seq<RunIntent>,
    history: Seq<(i64, i64, Seq<char>)>,
) -> bool {
    let all = run_moments(run, root, events, checkpoints, tasks);
    exists|order: Seq<usize>|
        #[trigger] order::is_order(moment_keys(all), order) && history == order::arranged(all, order)
}

/// Adds a moment to a list.
fn add_moment(list: &mut Vec<Moment>, event_id: i64, rank: i64, label: String)
    ensures
        moments_view(final(list)@) == moments_view(old(list)@).push((event_id, rank, label@)),
{
    let ghost before = list@;
    let ghost said = label@;
    list.push(Moment { event_id, rank, label });
    proof {
        assert(moments_view(list@) =~= moments_view(before).push((event_id, rank, said)));
    }
}

/// The moments of a Run, by the change at which each was.
pub fn run_history(
    run: &Run,
    root: &str,
    events: &Vec<FileEvent>,
    checkpoints: &Vec<Checkpoint>,
    tasks: &Vec<RunIntent>,
) -> (history: Vec<Moment>)
    ensures
        is_history(
            *run,
            root@,
            events@,
            checkpoints@,
            tasks@,
            moments_view(history@),
        ),
{
    let mut list: Vec<Moment> = Vec::new();
    add_moment(
        &mut list,
        run.start_event_id,
        0,
        text::cat("Run started — ", actor_label(run).as_str()),
    );
    let ghost first = moments_view(list@);
    proof {
        assert(first =~= seq![(run.start_event_id, 0i64, "Run started — "@ + actor_name(*run))]);
    }
    let ghost said = |e: FileEvent| change_moment(e, root@);
    let mut i: usize = 0;
    proof {
        assert(first + events@.take(0).map_values(said) =~= first);
    }
    while i < events.len()
        invariant
            i <= events.len(),
            said == (|e: FileEvent| change_moment(e, root@)),
            moments_view(list@) == first + events@.take(i as int).map_values(said),
        decreases events.len() - i,
    {
        let rel = path::relative_path(events[i].path.as_str(), root);
        add_moment(
            &mut list,
            events[i].id,
            1,
            text::cat3(file_change_label(events[i].event_type.as_str()), " ", rel),
        );
        proof {
            assert(moments_view(list@) =~= first + events@.take(i + 1).map_values(said));
        }
        i += 1;
    }
    let ghost second = moments_view(list@);
    proof {
        assert(events@.take(i as int) =~= events@);
        assert(second + checkpoint_moments(checkpoints@.take(0)) =~= second);
    }
    let mut i: usize = 0;
    while i < checkpoints.len()
        invariant
            i <= checkpoints.len(),
            moments_view(list@) == second + checkpoint_moments(checkpoints@.take(i as int)),
        decreases checkpoints.len() - i,
    {
        proof {
            assert(checkpoints@.take(i + 1).drop_last() =~= checkpoints@.take(i as int));
        }
        let ghost earlier = checkpoint_moments(checkpoints@.take(i as int));
        if let Some(id) = checkpoints[i].event_id {
            let label = text::cat5(
                "Checkpoint ",
                checkpoints[i].name.as_str(),
                " (",
                checkpoints[i].public_id().as_str(),
                ")",
            );
            let ghost added = (id, 2i64, label@);
            add_moment(&mut list, id, 2, label);
            proof {
                assert((second + earlier).push(added) =~= second + earlier.push(added));
            }
        }
        i += 1;
    }
    let ghost third = moments_view(list@);
    proof {
        assert(checkpoints@.take(i as int) =~= checkpoints@);
        assert(third + task_moments(tasks@.take(0)) =~= third);
    }
    let mut i: usize = 0;
    while i < tasks.len()
        invariant
            i <= tasks.len(),
            moments_view(list@) == third + task_moments(tasks@.take(i as int)),
        decreases tasks.len() - i,
    {
        proof {
            assert(tasks@.take(i + 1).drop_last() =~= tasks@.take(i as int));
        }
        let ghost earlier = task_moments(tasks@.take(i as int));
        let id = tasks[i].public_id();
        let label = text::cat5("Task started ", tasks[i].label.as_str(), " (", id.as_str(), ")");
        let ghost started = (tasks@[i as int].start_event_id, 2i64, label@);
        add_moment(&mut list, tasks[i].start_event_id, 2, label);
        proof {
            assert((third + earlier).push(started) =~= third + earlier.push(started));
        }
        if let Some(end) = tasks[i].end_event_id {
            let label = text::cat5(
                "Task finished ",
                tasks[i].label.as_str(),
                " (",
                id.as_str(),
                ")",
            );
            let ghost ended = (end, 3i64, label@);
            add_moment(&mut list, end, 3, label);
            proof {
                assert((third + earlier.push(started)).push(ended) =~= third + earlier.push(
                    started,
                ).push(ended));
            }
        }
        i += 1;
    }
    proof {
        assert(tasks@.take(i as int) =~= tasks@);
    }
    if let Some(id) = run.end_event_id {
        add_moment(
            &mut list,
            id,
            4,
            text::cat("Run finished — ", status_label(run.status.as_str())),
        );
    }
    let ghost all = run_moments(*run, root@, events@, checkpoints@, tasks@);
    proof {
        assert(moments_view(list@) == all);
    }
    let mut keys: Vec<(i64, i64)> = Vec::new();
    let mut i: usize = 0;
    while i < list.len()
        invariant
            i <= list.len(),
            moments_view(list@) == all,
            keys@.len() == i,
            forall|k: int| 0 <= k < i ==> (#[trigger] keys@[k]) == (all[k].0, all[k].1),
        decreases list.len() - i,
    {
        proof {
            assert(all[i as int] == moment_view(list@[i as int]));
        }
        keys.push((list[i].event_id, list[i].rank));
        i += 1;
    }
    proof {
        assert(keys@ =~= moment_keys(all));
    }
    let order = order::order_of(&keys);
    let mut history: Vec<Moment> = Vec::new();
    let mut i: usize = 0;
    while i < order.len()
        invariant
            i <= order.len(),
            moments_view(list@) == all,
            all.len() == list@.len(),
            order::is_order(moment_keys(all), order@),
            history@.len() == i,
            forall|k: int|
                0 <= k < i ==> moment_view(#[trigger] history@[k]) == all[order@[k] as int],
        decreases order.len() - i,
    {
        let at: usize = order[i];
        proof {
            assert(order@[i as int] < moment_keys(all).len());
            assert(all[at as int] == moment_view(list@[at as int]));
        }
        history.push(
            Moment {
                event_id: list[at].event_id,
                rank: list[at].rank,
                label: list[at].label.clone(),
            },
        );
        i += 1;
    }
    proof {
        assert(moments_view(history@) =~= order::arranged(all, order@));
    }
    history
}

// ── one Run in full ─────────────────────────────────────────────────

/// The first lines on a Run.
pub open spec fn head_lines(
    run: Run,
    changes: int,
    started: Seq<char>,
    finished: Seq<char>,
    now: i64,
) -> Seq<Seq<char>> {
    let a = seq![
        BOLD@ + "Run "@ + ("r_"@ + number::decimal(run.id as int)) + RESET@ + " — "@ + run.name@,
        "Actor:       "@ + actor_name(run),
        "Status:      "@ + status_name(run.status@),
        "Started:     "@ + started,
    ];
    let b = if run.ended_at is Some {
        a.push("Finished:    "@ + finished)
    } else {
        a
    };
    let c = b.push("Duration:    "@ + lasted(run, now)).push(
        "File changes: "@ + number::decimal(changes),
    );
    let d = match run.command {
        Some(command) => c.push("Command:     "@ + command@),
        None => c,
    };
    match run.intent {
        Some(intent) => d.push("Note:        "@ + intent@),
        None => d,
    }
}

/// A line on a moment.
pub open spec fn moment_line(m: (i64, i64, Seq<char>)) -> Seq<char> {
    "  "@ + m.2 + " (change "@ + number::decimal(m.0 as int) + ")"@
}

/// A line on a checkpoint.
pub open spec fn checkpoint_line(c: Checkpoint) -> Seq<char> {
    "  "@ + text::padded("cp_"@ + number::decimal(c.id as int), 8) + " "@ + c.name@ + (
    match c.intent {
        Some(intent) => " — "@ + intent@,
        None => ""@,
    }) + (match c.event_id {
        Some(id) => " (change "@ + number::decimal(id as int) + ")"@,
        None => " (saved by time)"@,
    }) + RESET@
}

/// A line on a task.
pub open spec fn task_line(t: RunIntent) -> Seq<char> {
    "  "@ + text::padded("i_"@ + number::decimal(t.id as int), 8) + " "@ + t.label@ + " ("@
        + t.status@ + ")"@
}

/// A line on a group of changes.
pub open spec fn group_line(g: ChangeGroup) -> Seq<char> {
    "  "@ + text::padded(g.label@, 18) + " "@ + number::decimal(g.paths@.len() as int) + " files, "@
        + number::decimal(g.event_count as int) + " recorded changes, +"@ + number::decimal(
        g.inserted as int,
    ) + " -"@ + number::decimal(g.deleted as int)
}

/// A heading and lines below it, where there are any.
pub open spec fn section(heading: Seq<char>, lines: Seq<Seq<char>>) -> Seq<Seq<char>> {
    if lines.len() == 0 {
        Seq::empty()
    } else {
        seq![""@, BOLD@ + heading + RESET@] + lines
    }
}

/// All lines on a Run, from its history.
pub open spec fn report_lines(
    run: Run,
    changes: int,
    started: Seq<char>,
    finished: Seq<char>,
    now: i64,
    history: Seq<(i64, i64, Seq<char>)>,
    checkpoints: Seq<Checkpoint>,
    tasks: Seq<RunIntent>,
    groups: Seq<ChangeGroup>,
) -> Seq<Seq<char>> {
    head_lines(run, changes, started, finished, now) + section(
        "History"@,
        history.map_values(|m: (i64, i64, Seq<char>)| moment_line(m)),
    ) + section("Checkpoints"@, checkpoints.map_values(|c: Checkpoint| checkpoint_line(c))) + section(
        "Task boundaries"@,
        tasks.map_values(|t: RunIntent| task_line(t)),
    ) + section("File groups"@, groups.map_values(|g: ChangeGroup| group_line(g)))
}

/// A heading and lines below it, where there are any.
fn put_section(heading: &str, lines: Vec<String>) -> (out: Vec<String>)
    ensures
        text::views(out@) == section(heading@, text::views(lines@)),
{
    let mut out: Vec<String> = Vec::new();
    proof {
        assert(text::views(out@) =~= Seq::empty());
    }
    if lines.len() == 0 {
        return out;
    }
    text::add_line(&mut out, "".to_owned());
    text::add_line(&mut out, text::cat3(BOLD, heading, RESET));
    proof {
        assert(text::views(out@) =~= seq![""@, BOLD@ + heading@ + RESET@]);
    }
    text::add_lines(&mut out, lines);
    out
}

/// The first lines on a Run.
fn put_head(run: &Run, changes: usize, started: &str, finished: &str, now: i64) -> (lines: Vec<
    String,
>)
    ensures
        text::views(lines@) == head_lines(*run, changes as int, started@, finished@, now),
{
    let mut lines: Vec<String> = Vec::new();
    proof {
        assert(text::views(lines@) =~= Seq::empty());
    }
    let mut title = text::cat5(BOLD, "Run ", run.public_id().as_str(), RESET, " — ");
    title.append(run.name.as_str());
    text::add_line(&mut lines, title);
    text::add_line(&mut lines, text::cat("Actor:       ", actor_label(run).as_str()));
    text::add_line(&mut lines, text::cat("Status:      ", status_label(run.status.as_str())));
    text::add_line(&mut lines, text::cat("Started:     ", started));
    proof {
        assert(text::views(lines@) =~= seq![
            BOLD@ + "Run "@ + ("r_"@ + number::decimal(run.id as int)) + RESET@ + " — "@
                + run.name@,
            "Actor:       "@ + actor_name(*run),
            "Status:      "@ + status_name(run.status@),
            "Started:     "@ + started@,
        ]);
    }
    if run.ended_at.is_some() {
        text::add_line(&mut lines, text::cat("Finished:    ", finished));
    }
    text::add_line(&mut lines, text::cat("Duration:    ", run_duration(run, now).as_str()));
    text::add_line(
        &mut lines,
        text::cat("File changes: ", number::count_text(changes).as_str()),
    );
    if let Some(command) = &run.command {
        text::add_line(&mut lines, text::cat("Command:     ", command.as_str()));
    }
    if let Some(intent) = &run.intent {
        text::add_line(&mut lines, text::cat("Note:        ", intent.as_str()));
    }
    lines
}

/// A line on a checkpoint.
fn put_checkpoint(c: &Checkpoint) -> (line: String)
    ensures
        line@ == checkpoint_line(*c),
{
    let mut line = text::cat("  ", text::pad(c.public_id().as_str(), 8).as_str());
    line.append(" ");
    line.append(c.name.as_str());
    let note = match &c.intent {
        Some(intent) => text::cat(" — ", intent.as_str()),
        None => "".to_owned(),
    };
    line.append(note.as_str());
    let place = match c.event_id {
        Some(id) => text::cat3(" (change ", number::signed_text(id).as_str(), ")"),
        None => " (saved by time)".to_owned(),
    };
    line.append(place.as_str());
    line.append(RESET);
    line
}

/// A line on a group of changes.
fn put_group(g: &ChangeGroup) -> (line: String)
    ensures
        line@ == group_line(*g),
{
    let mut line = text::cat("  ", text::pad(g.label.as_str(), 18).as_str());
    line.append(" ");
    line.append(number::count_text(g.paths.len()).as_str());
    line.append(" files, ");
    line.append(number::count_text(g.event_count).as_str());
    line.append(" recorded changes, +");
    line.append(number::count_text(g.inserted).as_str());
    line.append(" -");
    line.append(number::count_text(g.deleted).as_str());
    line
}

/// The checkpoints of a Run.
pub open spec fn of_run(run_id: i64) -> spec_fn(Checkpoint) -> bool {
    |c: Checkpoint| c.run_id == Some(run_id)
}

/// The checkpoints of a Run among those of its project, in order.
pub fn checkpoints_of(run: &Run, all: &Vec<Checkpoint>) -> (list: Vec<Checkpoint>)
    ensures
        list@ == rows::retained(all@, of_run(run.id)),
{
    let id = run.id;
    let test = |c: &Checkpoint| -> (yes: bool)
        ensures yes == of_run(id)(*c)
    {
        match c.run_id {
            Some(run_id) => run_id == id,
            None => false,
        }
    };
    rows::retain(all, test, Ghost(of_run(id)))
}

/// All lines on a Run, with its start and end as texts and the time now.
pub fn cmd_run_show(
    run: &Run,
    root: &str,
    events: &Vec<FileEvent>,
    checkpoints: &Vec<Checkpoint>,
    tasks: &Vec<RunIntent>,
    groups: &Vec<ChangeGroup>,
    started: &str,
    finished: &str,
    now: i64,
) -> (lines: Vec<String>)
    ensures
        exists|history: Seq<(i64, i64, Seq<char>)>|
            {
                &&& #[trigger] is_history(*run, root@, events@, checkpoints@, tasks@, history)
                &&& text::views(lines@) == report_lines(
                    *run,
                    events@.len() as int,
                    started@,
                    finished@,
                    now,
                    history,
                    checkpoints@,
                    tasks@,
                    groups@,
                )
            },
{
    let history = run_history(run, root, events, checkpoints, tasks);
    let ghost moments = moments_view(history@);
    let mut lines = put_head(run, events.len(), started, finished, now);
    let said = |m: &Moment| -> (out: String)
        ensures out@ == moment_line(moment_view(*m))
    {
        text::cat5(
            "  ",
            m.label.as_str(),
            " (change ",
            number::signed_text(m.event_id).as_str(),
            ")",
        )
    };
    let part = text::lines_for(&history, said, Ghost(|m: Moment| moment_line(moment_view(m))));
    proof {
        assert(text::views(part@) =~= moments.map_values(
            |m: (i64, i64, Seq<char>)| moment_line(m),
        ));
    }
    text::add_lines(&mut lines, put_section("History", part));
    let said = |c: &Checkpoint| -> (out: String)
        ensures out@ == checkpoint_line(*c)
    { put_checkpoint(c) };
    let part = text::lines_for(checkpoints, said, Ghost(|c: Checkpoint| checkpoint_line(c)));
    text::add_lines(&mut lines, put_section("Checkpoints", part));
    let said = |t: &RunIntent| -> (out: String)
        ensures out@ == task_line(*t)
    {
        let mut line = text::cat("  ", text::pad(t.public_id().as_str(), 8).as_str());
        line.append(" ");
        line.append(t.label.as_str());
        line.append(" (");
        line.append(t.status.as_str());
        line.append(")");
        line
    };
    let part = text::lines_for(tasks, said, Ghost(|t: RunIntent| task_line(t)));
    text::add_lines(&mut lines, put_section("Task boundaries", part));
    let said = |g: &ChangeGroup| -> (out: String)
        ensures out@ == group_line(*g)
    { put_group(g) };
    let part = text::lines_for(groups, said, Ghost(|g: ChangeGroup| group_line(g)));
    text::add_lines(&mut lines, put_section("File groups", part));
    proof {
        assert(is_history(*run, root@, events@, checkpoints@, tasks@, moments));
    }
    lines
}

// ── the start and the end ───────────────────────────────────────────

/// What is said of a Run that has started below a root.
pub open spec fn started_lines(run: Run, root: Seq<char>) -> Seq<Seq<char>> {
    seq![
        GREEN@ + "Recording started for Run "@ + ("r_"@ + number::decimal(run.id as int)) + RESET@
            + " ("@ + actor_name(run) + ", "@ + run.name@ + ")."@,
        "Folder: "@ + root,
    ]
}

/// What is said of a Run that has started below a root.
pub fn print_started(run: &Run, root: &str) -> (lines: Vec<String>)
    ensures
        text::views(lines@) == started_lines(*run, root@),
{
    let mut lines: Vec<String> = Vec::new();
    let mut first = text::cat5(
        GREEN,
        "Recording started for Run ",
        run.public_id().as_str(),
        RESET,
        " (",
    );
    first.append(actor_label(run).as_str());
    first.append(", ");
    first.append(run.name.as_str());
    first.append(").");
    text::add_line(&mut lines, first);
    text::add_line(&mut lines, text::cat("Folder: ", root));
    proof {
        assert(text::views(lines@) =~= started_lines(*run, root@));
    }
    lines
}

/// The colour of an outcome.
pub open spec fn outcome_color(status: Seq<char>) -> Seq<char> {
    if status == "completed"@ {
        GREEN@
    } else if status == "failed"@ {
        RED@
    } else if status == "aborted"@ {
        YELLOW@
    } else {
        RESET@
    }
}

/// What is said of a Run that has ended.
pub open spec fn completed_lines(run: Run, now: i64) -> Seq<Seq<char>> {
    let id = "r_"@ + number::decimal(run.id as int);
    let first = seq![
        outcome_color(run.status@) + outcome_heading(run.status@) + RESET@ + " "@ + id + " ("@
            + lasted(run, now) + ")."@,
    ];
    let more = if run.status@ != "completed"@ {
        first.push("Inspect its recorded file changes with: undo run show "@ + id)
    } else {
        first
    };
    more.push(DIM@ + "Review it in the browser: undo ui "@ + id + RESET@)
}

/// What is said of a Run that has ended.
pub fn print_completed(run: &Run, now: i64) -> (lines: Vec<String>)
    ensures
        text::views(lines@) == completed_lines(*run, now),
{
    let status = run.status.as_str();
    let color = if text::same(status, "completed") {
        GREEN
    } else if text::same(status, "failed") {
        RED
    } else if text::same(status, "aborted") {
        YELLOW
    } else {
        RESET
    };
    let id = run.public_id();
    let mut lines: Vec<String> = Vec::new();
    let mut first = text::cat5(color, run_outcome_heading(status), RESET, " ", id.as_str());
    first.append(" (");
    first.append(run_duration(run, now).as_str());
    first.append(").");
    text::add_line(&mut lines, first);
    proof {
        assert(text::views(lines@) =~= seq![
            outcome_color(run.status@) + outcome_heading(run.status@) + RESET@ + " "@ + id@ + " ("@
                + lasted(*run, now) + ")."@,
        ]);
    }
    if !text::same(status, "completed") {
        text::add_line(
            &mut lines,
            text::cat("Inspect its recorded file changes with: undo run show ", id.as_str()),
        );
    }
    let mut last = text::cat3(DIM, "Review it in the browser: undo ui ", id.as_str());
    last.append(RESET);
    text::add_line(&mut lines, last);
    lines
}

// ── all Runs ────────────────────────────────────────────────────────

/// The lines on Runs, each with the number of its changes, or on how to begin
/// one with an agent.
pub open spec fn runs_lines(
    runs: Seq<Run>,
    changes: Seq<usize>,
    now: i64,
    usual: Agent,
) -> Seq<Seq<char>> {
    if runs.len() == 0 {
        seq!["No recorded Runs yet."@, "Start an agent with: undo run "@ + word_of(usual)]
    } else {
        seq![
            BOLD@ + "Recorded Runs"@ + RESET@,
            ""@,
            "ID        WHO            ELAPSED    CHANGES  STATUS"@,
        ] + Seq::new(runs.len(), |i: int| run_row(runs[i], changes[i] as int, now))
    }
}

/// The lines on Runs, each with the number of its changes.
pub fn cmd_runs(runs: &Vec<Run>, changes: &Vec<usize>, now: i64, usual: Agent) -> (lines: Vec<
    String,
>)
    requires
        changes@.len() == runs@.len(),
    ensures
        text::views(lines@) == runs_lines(runs@, changes@, now, usual),
{
    let mut lines: Vec<String> = Vec::new();
    if runs.len() == 0 {
        text::add_line(&mut lines, "No recorded Runs yet.".to_owned());
        text::add_line(&mut lines, text::cat("Start an agent with: undo run ", usual.as_str()));
        proof {
            assert(text::views(lines@) =~= runs_lines(runs@, changes@, now, usual));
        }
        return lines;
    }
    text::add_line(&mut lines, text::cat3(BOLD, "Recorded Runs", RESET));
    text::add_line(&mut lines, "".to_owned());
    text::add_line(&mut lines, "ID        WHO            ELAPSED    CHANGES  STATUS".to_owned());
    let ghost head = text::views(lines@);
    let ghost rest = Seq::new(runs@.len(), |i: int| run_row(runs@[i], changes@[i] as int, now));
    proof {
        assert(head =~= seq![
            BOLD@ + "Recorded Runs"@ + RESET@,
            ""@,
            "ID        WHO            ELAPSED    CHANGES  STATUS"@,
        ]);
        assert(head =~= head + rest.take(0));
    }
    let mut i: usize = 0;
    while i < runs.len()
        invariant
            i <= runs.len(),
            changes@.len() == runs@.len(),
            rest == Seq::new(runs@.len(), |i: int| run_row(runs@[i], changes@[i] as int, now)),
            text::views(lines@) == head + rest.take(i as int),
        decreases runs.len() - i,
    {
        text::add_line(&mut lines, list_row(&runs[i], changes[i], now));
        proof {
            assert(head + rest.take(i + 1) =~= (head + rest.take(i as int)).push(rest[i as int]));
        }
        i += 1;
    }
    proof {
        assert(rest.take(i as int) =~= rest);
    }
    lines
}

} // verus!
