//! What becomes of the events that an agent reports.
use vstd::prelude::*;

use crate::agent_events::{
    are_normalized, change_moved, event_processed, options_of, problem, reported_paths,
    reported_run, AgentEvent, Reply, Site,
};
use crate::db::claims::boundary_closed;
use crate::db::intents::{task_completed, task_started};
use crate::db::runs::{is_external, run_completed, NewRun};
use crate::db::{Claim, Tables};
use crate::error::Error;
use crate::laws::claiming::{
    lemma_closed_change_claims_what_it_announced, lemma_lookup_run, names_one,
};
use crate::laws::moments::names_file;
use crate::laws::recording::{
    has_name, is_newest, is_text, is_under_way, lemma_checkpoint_marks_the_newest_change,
    lemma_task_ends_at_the_newest_change, lemma_task_starts_at_the_newest_change,
};
use crate::models::{Checkpoint, Run, RunBoundary, RunIntent};
use crate::number;
use crate::path;
use crate::places;
use crate::places::Place;
use crate::rows;
use crate::runs::{run_begun, StartRunOptions};
use crate::text;

verus! {

// ── paths ───────────────────────────────────────────────────────────

/// Whether a reported path names one file of a project exactly: it says something, it
/// is no pattern, and it leads to a place in the project that is no folder.
pub open spec fn is_exact(
    disk: Seq<Place>,
    root: Seq<char>,
    project_root: Seq<char>,
    input: Seq<char>,
) -> bool {
    let said = text::trimmed(input);
    &&& said.len() > 0
    &&& forall|i: int|
        0 <= i < said.len() ==> #[trigger] said[i] != '*' && said[i] != '?' && said[i] != '['
            && said[i] != ']' && said[i] != '{' && said[i] != '}'
    &&& path::is_at_or_below(
        places::leads_to(disk, root, said).0,
        places::real_root(disk, project_root),
    )
    &&& !places::leads_to(disk, root, said).1
}

/// Where a reported path leads.
pub open spec fn place_of(disk: Seq<Place>, root: Seq<char>, input: Seq<char>) -> Seq<char> {
    places::leads_to(disk, root, text::trimmed(input)).0
}

/// Whether reported paths can be taken: each names one file exactly, and no two name
/// the same one.
pub open spec fn are_exact(
    disk: Seq<Place>,
    root: Seq<char>,
    project_root: Seq<char>,
    inputs: Seq<Seq<char>>,
) -> bool {
    &&& forall|i: int|
        0 <= i < inputs.len() ==> is_exact(disk, root, project_root, #[trigger] inputs[i])
    &&& forall|i: int, j: int|
        0 <= i < j < inputs.len() ==> place_of(disk, root, #[trigger] inputs[i]) != place_of(
            disk,
            root,
            #[trigger] inputs[j],
        )
}

/// Reported paths are taken one by one.
proof fn lemma_reported(
    disk: Seq<Place>,
    root: Seq<char>,
    project_root: Seq<char>,
    inputs: Seq<Seq<char>>,
)
    ensures
        reported_paths(disk, root, project_root, inputs) is Ok <==> are_exact(
            disk,
            root,
            project_root,
            inputs,
        ),
        reported_paths(disk, root, project_root, inputs) is Ok ==> {
            let list = reported_paths(disk, root, project_root, inputs)->Ok_0;
            &&& list.len() == inputs.len()
            &&& forall|i: int|
                0 <= i < inputs.len() ==> list[i] == place_of(disk, root, #[trigger] inputs[i])
        },
    decreases inputs.len(),
{
    if inputs.len() > 0 {
        let front = inputs.drop_last();
        let n = front.len() as int;
        lemma_reported(disk, root, project_root, front);
        let before = reported_paths(disk, root, project_root, front);
        assert(inputs[n] == inputs.last());
        assert forall|i: int| 0 <= i < n implies #[trigger] inputs[i] == front[i] by {}
        if are_exact(disk, root, project_root, inputs) {
            assert forall|i: int| 0 <= i < n implies is_exact(
                disk,
                root,
                project_root,
                #[trigger] front[i],
            ) by {
                assert(is_exact(disk, root, project_root, inputs[i]));
            }
            assert forall|i: int, j: int| 0 <= i < j < n implies place_of(
                disk,
                root,
                #[trigger] front[i],
            ) != place_of(disk, root, #[trigger] front[j]) by {
                assert(place_of(disk, root, inputs[i]) != place_of(disk, root, inputs[j]));
            }
            let list = before->Ok_0;
            if list.contains(place_of(disk, root, inputs[n])) {
                let k = choose|k: int|
                    0 <= k < list.len() && list[k] == place_of(disk, root, inputs[n]);
                assert(list[k] == place_of(disk, root, front[k]));
                assert(place_of(disk, root, inputs[k]) != place_of(disk, root, inputs[n]));
            }
            assert(is_exact(disk, root, project_root, inputs[n]));
        }
        if reported_paths(disk, root, project_root, inputs) is Ok {
            let list = before->Ok_0;
            let said = text::trimmed(inputs[n]);
            assert forall|i: int| 0 <= i < inputs.len() implies is_exact(
                disk,
                root,
                project_root,
                #[trigger] inputs[i],
            ) by {
                if i < n {
                    assert(is_exact(disk, root, project_root, front[i]));
                } else {
                    assert forall|j: int| 0 <= j < said.len() implies #[trigger] said[j] != '*'
                        && said[j] != '?' && said[j] != '[' && said[j] != ']' && said[j] != '{'
                        && said[j] != '}' by {
                        assert(!crate::agent_events::is_glob_char(said[j]));
                    }
                }
            }
            assert forall|i: int, j: int| 0 <= i < j < inputs.len() implies place_of(
                disk,
                root,
                #[trigger] inputs[i],
            ) != place_of(disk, root, #[trigger] inputs[j]) by {
                if j < n {
                    assert(place_of(disk, root, front[i]) != place_of(disk, root, front[j]));
                } else {
                    assert(list[i] == place_of(disk, root, front[i]));
                    assert(list.contains(list[i]));
                }
            }
            let whole = reported_paths(disk, root, project_root, inputs)->Ok_0;
            assert forall|i: int| 0 <= i < inputs.len() implies whole[i] == place_of(
                disk,
                root,
                #[trigger] inputs[i],
            ) by {
                if i < n {
                    assert(list[i] == place_of(disk, root, front[i]));
                }
            }
        }
    }
}

/// Reported paths are taken where there are at least one and at most two hundred and
/// fifty-six of them, each names one file of the project exactly, and no file is named
/// twice. What is taken is where they lead, all of them and nothing else.
pub proof fn lemma_reported_paths_are_exact(
    disk: Seq<Place>,
    root: Seq<char>,
    project_root: Seq<char>,
    inputs: Seq<Seq<char>>,
    result: Result<Vec<String>, Error>,
)
    requires
        are_normalized(disk, root, project_root, inputs, result),
    ensures
        result is Ok <==> 1 <= inputs.len() <= 256 && are_exact(disk, root, project_root, inputs),
        result is Ok ==> forall|p: Seq<char>| #[trigger]
            text::views(result->Ok_0@).contains(p) <==> exists|i: int|
                0 <= i < inputs.len() && p == place_of(disk, root, #[trigger] inputs[i]),
{
    lemma_reported(disk, root, project_root, inputs);
    if result is Ok {
        let list = reported_paths(disk, root, project_root, inputs)->Ok_0;
        assert forall|p: Seq<char>| #[trigger]
            text::views(result->Ok_0@).contains(p) <==> exists|i: int|
                0 <= i < inputs.len() && p == place_of(disk, root, #[trigger] inputs[i]) by {
            if list.contains(p) {
                let k = choose|k: int| 0 <= k < list.len() && list[k] == p;
                assert(list[k] == place_of(disk, root, inputs[k]));
            }
            if exists|i: int|
                0 <= i < inputs.len() && p == place_of(disk, root, #[trigger] inputs[i]) {
                let i = choose|i: int|
                    0 <= i < inputs.len() && p == place_of(disk, root, #[trigger] inputs[i]);
                assert(list[i] == p);
            }
        }
    }
}

// ── Runs ────────────────────────────────────────────────────────────

/// Whether an event is of a reported Run.
pub open spec fn is_event_of(event: AgentEvent, run: Run) -> bool {
    &&& event.version == 2
    &&& event.external_run_id matches Some(id) && run.external_id matches Some(own) && id@ == own@
    &&& run.attribution_mode@ == "reported"@
}

/// A reported Run is found by its external id.
pub proof fn lemma_reported_found(t: Tables, run: Run, event: AgentEvent)
    requires
        t.wf(),
        t.sessions.contains(run),
        is_event_of(event, run),
    ensures
        reported_run(t.sessions, run.project_id, event.external_run_id->0@)
            == Ok::<Run, Seq<char>>(run),
{
    let keep = is_external(run.project_id, event.external_run_id->0@);
    let at = choose|at: int| 0 <= at < t.sessions.len() && t.sessions[at] == run;
    assert(keep(run));
    assert forall|k: int| 0 <= k < at implies !keep(#[trigger] t.sessions[k]) by {
        assert(!crate::db::same_run(t.sessions[k], t.sessions[at]));
    }
    rows::lemma_lookup(t.sessions, keep, Some(at));
}

/// The words for events differ.
pub proof fn lemma_kinds_differ()
    ensures
        "run_started"@ != "change_started"@,
        "run_started"@ != "change_completed"@,
        "run_started"@ != "run_completed"@,
        "run_started"@ != "checkpoint"@,
        "run_started"@ != "intent_started"@,
        "run_started"@ != "intent_completed"@,
        "change_started"@ != "change_completed"@,
        "change_started"@ != "run_completed"@,
        "change_completed"@ != "run_completed"@,
        "checkpoint"@ != "change_started"@,
        "checkpoint"@ != "change_completed"@,
        "checkpoint"@ != "run_completed"@,
        "checkpoint"@ != "intent_started"@,
        "checkpoint"@ != "intent_completed"@,
        "intent_started"@ != "intent_completed"@,
        "intent_started"@ != "change_started"@,
        "intent_started"@ != "change_completed"@,
        "intent_started"@ != "run_completed"@,
        "intent_completed"@ != "change_started"@,
        "intent_completed"@ != "change_completed"@,
        "intent_completed"@ != "run_completed"@,
{
    reveal_strlit("change_started");
    reveal_strlit("change_completed");
    reveal_strlit("run_started");
    reveal_strlit("checkpoint");
    reveal_strlit("intent_started");
    reveal_strlit("intent_completed");
    reveal_strlit("run_completed");
    assert("change_started"@[0] == 'c' && "change_completed"@[0] == 'c');
    assert("intent_started"@[0] == 'i' && "intent_completed"@[0] == 'i');
    assert("run_started"@[0] == 'r' && "run_completed"@[0] == 'r');
    assert("checkpoint"@[0] == 'c');
    assert("change_started"@.len() == 14 && "change_completed"@.len() == 16);
    assert("intent_started"@.len() == 14 && "intent_completed"@.len() == 16);
    assert("run_started"@.len() == 11 && "run_completed"@.len() == 13);
    assert("checkpoint"@.len() == 10);
}

/// A `run_started` event of the second version begins a reported Run under the
/// external id that it gives, behind all changes of the project, where no Run has the
/// id yet. One of the first version begins a Run that has the changes of its time.
pub proof fn lemma_start_event_begins_a_run(
    before: Tables,
    after: Tables,
    event: AgentEvent,
    site: Site,
    disk: Seq<Place>,
    named_at: i64,
    now: i64,
    result: Result<(Option<i64>, Reply), Error>,
) -> (run: Run)
    requires
        before.wf(),
        event.event@ == "run_started"@,
        event.external_run_id is Some,
        event_processed(before, after, event, site, disk, named_at, now, result),
        result is Ok,
        forall|i: int|
            0 <= i < before.sessions.len() && (#[trigger] before.sessions[i]).project_id
                == site.project_id ==> !is_text(
                before.sessions[i].external_id,
                Some(event.external_run_id->0@),
            ),
    ensures
        after.sessions == before.sessions.push(run),
        after.events == before.events,
        after.claims == before.claims,
        run.project_id == site.project_id,
        run.external_id matches Some(id) && id@ == event.external_run_id->0@,
        run.ended_at is None,
        run.status@ == "active"@,
        run.started_at == now,
        event.version == 2 ==> run.attribution_mode@ == "reported"@,
        event.version == 1 ==> run.attribution_mode@ == "window"@,
        event.actor is Some ==> run.actor@ == event.actor->0@,
        event.actor is None ==> run.actor@ == "agent"@,
        event.name is Some && text::trimmed(event.name->0@).len() > 0 ==> run.name@
            == text::trimmed(event.name->0@),
        is_text(run.command, text::view_opt(event.command)),
        is_text(run.intent, text::view_opt(event.intent)),
        is_newest(before.events, site.project_id, run.start_event_id),
        result->Ok_0.0 == Some(run.id),
        result->Ok_0.1.run_id@ == "r_"@ + number::decimal(run.id as int),
{
    lemma_kinds_differ();
    let mode = crate::agent_events::mode_of(event.version);
    let (options, begun) = choose|options: StartRunOptions, run: Result<Run, Error>|
        {
            &&& #[trigger] options_of(event, options)
            &&& #[trigger] run_begun(
                before,
                after,
                site.project_id,
                options,
                mode,
                site.process,
                named_at,
                now,
                run,
            )
            &&& match run {
                Err(e) => crate::agent_events::fails_with(result, e),
                Ok(r) => crate::agent_events::answers(
                    result,
                    r,
                    (crate::agent_events::Answer {
                        status: Some(r.status@),
                        ..crate::agent_events::plain_answer(event, r)
                    }),
                ),
            }
        };
    let run = begun->Ok_0;
    let new = NewRun {
        name: crate::runs::name_of(options, named_at, site.process),
        kind: "run"@,
        attribution_mode: mode,
        actor: crate::runs::actor_of(options),
        agent: text::view_opt_str(options.agent),
        command: text::view_opt_str(options.command),
        intent: text::view_opt_str(options.intent),
        external_id: text::view_opt_str(options.external_id),
    };
    let id = event.external_run_id->0@;
    let keep = is_external(site.project_id, id);
    rows::lemma_lookup_kept(before.sessions, keep);
    if let Some(known) = rows::lookup(before.sessions, keep) {
        let k = choose|k: int| 0 <= k < before.sessions.len() && before.sessions[k] == known;
        assert(!is_text(before.sessions[k].external_id, Some(id)));
    }
    crate::db::events::lemma_max_id(before.events, site.project_id);
    assert(result->Ok_0.1@.run_id == "r_"@ + number::decimal(run.id as int));
    run
}

/// A `change_completed` event closes the open change that it names. The Run of the
/// event then claims every change to a file that the event names since the change was
/// opened, and no claim is lost.
pub proof fn lemma_completed_change_is_claimed(
    before: Tables,
    after: Tables,
    event: AgentEvent,
    site: Site,
    disk: Seq<Place>,
    named_at: i64,
    now: i64,
    run: Run,
    opened: RunBoundary,
    result: Result<(Option<i64>, Reply), Error>,
)
    requires
        before.wf(),
        event.event@ == "change_completed"@,
        before.sessions.contains(run),
        run.project_id == site.project_id,
        is_event_of(event, run),
        event.paths is Some,
        event.external_change_id is Some,
        before.boundaries.contains(opened),
        opened.run_id == run.id,
        opened.status@ == "open"@,
        opened.external_change_id@ == event.external_change_id->0@,
        event_processed(before, after, event, site, disk, named_at, now, result),
        result is Ok,
    ensures
        result->Ok_0.0 == Some(run.id),
        forall|i: int, j: int|
            #![trigger before.events[i], event.paths->0@[j]]
            0 <= i < before.events.len() && 0 <= j < event.paths->0@.len() && before.events[i].id
                > opened.start_event_id && names_file(
                before.events[i],
                run.project_id,
                place_of(disk, site.root@, event.paths->0@[j]@),
            ) ==> after.claims.contains(
                Claim { session_id: run.id, event_id: before.events[i].id },
            ),
        forall|c: Claim| before.claims.contains(c) ==> #[trigger] after.claims.contains(c),
        after.events == before.events,
{
    lemma_kinds_differ();
    lemma_reported_found(before, run, event);
    let inputs = text::views(event.paths->0@);
    let paths = choose|paths: Result<Vec<String>, Error>|
        {
            &&& #[trigger] are_normalized(disk, site.root@, site.project_root@, inputs, paths)
            &&& match paths {
                Err(e) => after == before && crate::agent_events::fails_with(result, e),
                Ok(list) => change_moved(
                    before,
                    after,
                    event,
                    run,
                    text::views(list@),
                    now,
                    result,
                ),
            }
        };
    let list = text::views(paths->Ok_0@);
    lemma_reported_paths_are_exact(disk, site.root@, site.project_root@, inputs, paths);
    let change = event.external_change_id->0@;
    assert(exists|moved: Result<RunBoundary, Error>|
        crate::agent_events::boundary_moved(
            false,
            before,
            after,
            run.id,
            change,
            list,
            now,
            moved,
        ) && moved is Ok && result->Ok_0.0 == Some(run.id));
    let moved = choose|moved: Result<RunBoundary, Error>|
        crate::agent_events::boundary_moved(
            false,
            before,
            after,
            run.id,
            change,
            list,
            now,
            moved,
        ) && moved is Ok;
    assert(boundary_closed(before, after, run.id, opened.external_change_id@, list, now, moved));
    lemma_closed_change_claims_what_it_announced(
        before,
        after,
        run,
        opened,
        list,
        now,
        moved,
        moved->Ok_0,
    );
    assert forall|i: int, j: int|
        #![trigger before.events[i], event.paths->0@[j]]
        0 <= i < before.events.len() && 0 <= j < event.paths->0@.len() && before.events[i].id
            > opened.start_event_id && names_file(
            before.events[i],
            run.project_id,
            place_of(disk, site.root@, event.paths->0@[j]@),
        ) implies after.claims.contains(
        Claim { session_id: run.id, event_id: before.events[i].id },
    ) by {
        assert(inputs[j] == event.paths->0@[j]@);
        let p = place_of(disk, site.root@, inputs[j]);
        assert(list.contains(p));
        let k = choose|k: int| 0 <= k < list.len() && list[k] == p;
        assert(names_file(before.events[i], run.project_id, list[k]));
        assert(names_one(before.events[i], run.project_id, list));
    }
}

/// A `checkpoint` event saves a checkpoint of the Run under the name that it gives; a
/// new one marks the newest change of the project.
pub proof fn lemma_checkpoint_event_saves_one(
    before: Tables,
    after: Tables,
    event: AgentEvent,
    site: Site,
    disk: Seq<Place>,
    named_at: i64,
    now: i64,
    run: Run,
    result: Result<(Option<i64>, Reply), Error>,
) -> (c: Checkpoint)
    requires
        before.wf(),
        event.event@ == "checkpoint"@,
        before.sessions.contains(run),
        run.project_id == site.project_id,
        is_event_of(event, run),
        event_processed(before, after, event, site, disk, named_at, now, result),
        result is Ok,
    ensures
        run.ended_at is None,
        event.name is Some,
        after.checkpoints.contains(c),
        c.run_id == Some(run.id),
        c.name@ == text::trimmed(event.name->0@),
        !before.checkpoints.contains(c) ==> c.event_id is Some && is_newest(
            before.events,
            run.project_id,
            c.event_id->0,
        ) && c.timestamp == now,
        result->Ok_0.0 == Some(run.id),
        result->Ok_0.1.checkpoint_id matches Some(id) && id@ == "cp_"@ + number::decimal(
            c.id as int,
        ),
{
    lemma_kinds_differ();
    lemma_reported_found(before, run, event);
    let name = text::trimmed(event.name->0@);
    assert(crate::agent_events::checkpoint_processed(
        before,
        after,
        event,
        site.project_id,
        run,
        now,
        result,
    ));
    let saved = choose|saved: Result<(Checkpoint, bool), Error>|
        {
            &&& #[trigger] crate::db::checkpoints::checkpoint_saved(
                before,
                after,
                site.project_id,
                Some(run.id),
                name,
                now,
                text::view_opt(event.intent),
                now,
                saved,
            )
            &&& match saved {
                Err(e) => crate::agent_events::fails_with(result, e),
                Ok(c) => crate::agent_events::answers(
                    result,
                    run,
                    (crate::agent_events::Answer {
                        checkpoint_id: Some("cp_"@ + number::decimal(c.0.id as int)),
                        created: Some(c.1),
                        ..crate::agent_events::plain_answer(event, run)
                    }),
                ),
            }
        };
    lemma_checkpoint_marks_the_newest_change(
        before,
        after,
        site.project_id,
        Some(run.id),
        name,
        now,
        text::view_opt(event.intent),
        now,
        saved,
    );
    let c = saved->Ok_0.0;
    assert(has_name(c, site.project_id, Some(run.id), name));
    assert(result->Ok_0.1@.checkpoint_id == Some("cp_"@ + number::decimal(c.id as int)));
    c
}

/// An `intent_started` event of an active Run that has no task under way begins one
/// under the name that the event gives; an `intent_completed` event ends the task that
/// is under way.
pub proof fn lemma_task_events_move_the_task(
    before: Tables,
    after: Tables,
    event: AgentEvent,
    site: Site,
    disk: Seq<Place>,
    named_at: i64,
    now: i64,
    run: Run,
    result: Result<(Option<i64>, Reply), Error>,
) -> (t: RunIntent)
    requires
        before.wf(),
        event.event@ == "intent_started"@ || event.event@ == "intent_completed"@,
        before.sessions.contains(run),
        run.project_id == site.project_id,
        is_event_of(event, run),
        before.last.intents < i64::MAX,
        event_processed(before, after, event, site, disk, named_at, now, result),
        result is Ok,
    ensures
        run.ended_at is None,
        result->Ok_0.0 == Some(run.id),
        event.event@ == "intent_started"@ ==> {
            &&& after.intents.contains(t)
            &&& is_under_way(t, run.id)
            &&& t.label@ == text::trimmed(event.intent->0@)
            &&& !before.intents.contains(t) ==> is_newest(
                before.events,
                run.project_id,
                t.start_event_id,
            )
        },
        event.event@ == "intent_completed"@ ==> forall|i: int|
            #![trigger before.intents[i]]
            0 <= i < before.intents.len() && is_under_way(before.intents[i], run.id) ==> {
                &&& after.intents[i] == t
                &&& t.label == before.intents[i].label
                &&& t.start_event_id == before.intents[i].start_event_id
                &&& t.ended_at == Some(now)
                &&& t.end_event_id is Some
                &&& is_newest(before.events, run.project_id, t.end_event_id->0)
            },
{
    lemma_kinds_differ();
    lemma_reported_found(before, run, event);
    assert(crate::agent_events::task_processed(before, after, event, run, now, result));
    let task = choose|task: Result<RunIntent, Error>|
        {
            &&& #[trigger] crate::agent_events::task_moved(before, after, event, run, now, task)
            &&& match task {
                Err(e) => crate::agent_events::fails_with(result, e),
                Ok(t) => crate::agent_events::answers(
                    result,
                    run,
                    (crate::agent_events::Answer {
                        intent_id: Some("i_"@ + number::decimal(t.id as int)),
                        intent: Some(t.label@),
                        ..crate::agent_events::plain_answer(event, run)
                    }),
                ),
            }
        };
    let t = task->Ok_0;
    if event.event@ == "intent_started"@ {
        let label = text::trimmed(event.intent->0@);
        assert(task_started(before, after, run.id, label, now, task));
        lemma_task_starts_at_the_newest_change(before, after, run, label, now, task);
        if exists|i: int|
            0 <= i < before.intents.len() && is_under_way(#[trigger] before.intents[i], run.id) {
            let i = choose|i: int|
                0 <= i < before.intents.len() && is_under_way(#[trigger] before.intents[i], run.id);
            assert(before.intents[i] == t);
            assert(after.intents[i] == t);
        } else {
            assert(after.intents[before.intents.len() as int] == t);
        }
    } else {
        let label = text::view_opt(event.intent);
        assert(task_completed(before, after, run.id, label, now, task));
        assert forall|i: int|
            #![trigger before.intents[i]]
            0 <= i < before.intents.len() && is_under_way(before.intents[i], run.id) implies {
            &&& after.intents[i] == t
            &&& t.label == before.intents[i].label
            &&& t.start_event_id == before.intents[i].start_event_id
            &&& t.ended_at == Some(now)
            &&& t.end_event_id is Some
            &&& is_newest(before.events, run.project_id, t.end_event_id->0)
        } by {
            lemma_task_ends_at_the_newest_change(before, after, run, i, label, now, task);
        }
    }
    t
}

/// A `run_completed` event ends the Run, with the outcome that it gives or as
/// completed, at the newest change of the project. One that has ended stays as it is.
pub proof fn lemma_completion_event_ends_the_run(
    before: Tables,
    after: Tables,
    event: AgentEvent,
    site: Site,
    disk: Seq<Place>,
    named_at: i64,
    now: i64,
    at: int,
    result: Result<(Option<i64>, Reply), Error>,
)
    requires
        before.wf(),
        event.event@ == "run_completed"@,
        0 <= at < before.sessions.len(),
        before.sessions[at].project_id == site.project_id,
        is_event_of(event, before.sessions[at]),
        event_processed(before, after, event, site, disk, named_at, now, result),
    ensures
        result is Ok,
        result->Ok_0.0 == Some(before.sessions[at].id),
        before.sessions[at].ended_at is Some ==> after == before,
        before.sessions[at].ended_at is None ==> {
            let r = after.sessions[at];
            &&& after.sessions.len() == before.sessions.len()
            &&& r.id == before.sessions[at].id
            &&& r.ended_at == Some(now)
            &&& r.status@ == if event.status is Some {
                event.status->0@
            } else {
                "completed"@
            }
            &&& r.end_event_id is Some
            &&& is_newest(before.events, r.project_id, r.end_event_id->0)
            &&& r.start_event_id == before.sessions[at].start_event_id
            &&& r.name == before.sessions[at].name
            &&& forall|i: int|
                0 <= i < before.sessions.len() && i != at ==> after.sessions[i]
                    == #[trigger] before.sessions[i]
            &&& forall|i: int|
                0 <= i < after.intents.len() ==> !is_under_way(
                    #[trigger] after.intents[i],
                    r.id,
                )
            &&& after.claims == before.claims
            &&& after.events == before.events
        },
{
    lemma_kinds_differ();
    let run = before.sessions[at];
    lemma_reported_found(before, run, event);
    lemma_lookup_run(before, run);
    crate::db::events::lemma_max_id(before.events, run.project_id);
    let ended = choose|r: Result<Run, Error>|
        {
            &&& #[trigger] crate::agent_events::run_finished(
                before,
                after,
                event,
                site.project_id,
                site.cwd@,
                now,
                r,
            )
            &&& match r {
                Err(e) => crate::agent_events::fails_with(result, e),
                Ok(r) => crate::agent_events::answers(
                    result,
                    r,
                    (crate::agent_events::Answer {
                        status: Some(r.status@),
                        ..crate::agent_events::plain_answer(event, r)
                    }),
                ),
            }
        };
    if run.ended_at is None {
        let status = crate::agent_events::outcome_of(event);
        assert(run_completed(before, after, run.id, status, now, ended));
        let r = ended->Ok_0;
        let j = choose|j: int|
            0 <= j < before.sessions.len() && before.sessions[j] == run && after.sessions
                == #[trigger] before.sessions.update(j, r);
        if j < at {
            assert(rows::Row::row_id(&before.sessions[j]) < rows::Row::row_id(&before.sessions[at]));
        } else if at < j {
            assert(rows::Row::row_id(&before.sessions[at]) < rows::Row::row_id(&before.sessions[j]));
        }
        lemma_tasks_end(before, after, run, ended->Ok_0.end_event_id->0, now);
    }
}

/// When a Run ends, no task of it is under way any longer.
proof fn lemma_tasks_end(before: Tables, after: Tables, run: Run, last: i64, now: i64)
    requires
        before.wf(),
        match crate::db::intents::active_intent(before.intents, run.id) {
            Some(task) => exists|ended: RunIntent|
                #[trigger] crate::db::intents::is_ended_intent(ended, task, last, now)
                    && crate::db::intents::intents_with_ended(
                    before.intents,
                    after.intents,
                    task,
                    ended,
                ),
            None => after.intents == before.intents,
        },
    ensures
        forall|i: int|
            0 <= i < after.intents.len() ==> !is_under_way(#[trigger] after.intents[i], run.id),
{
    let keep = crate::db::intents::active_in(run.id);
    rows::lemma_picked(before.intents, rows::Order::HighestId, keep);
    match crate::db::intents::active_intent(before.intents, run.id) {
        Some(task) => {
            let ended = choose|ended: RunIntent|
                #[trigger] crate::db::intents::is_ended_intent(ended, task, last, now)
                    && crate::db::intents::intents_with_ended(
                    before.intents,
                    after.intents,
                    task,
                    ended,
                );
            let j = choose|j: int|
                0 <= j < before.intents.len() && before.intents[j] == task && after.intents
                    == #[trigger] before.intents.update(j, ended);
            assert forall|i: int| 0 <= i < after.intents.len() implies !is_under_way(
                #[trigger] after.intents[i],
                run.id,
            ) by {
                if i < j {
                    assert(!crate::db::both_active(before.intents[i], before.intents[j]));
                } else if j < i {
                    assert(!crate::db::both_active(before.intents[j], before.intents[i]));
                }
            }
        },
        None => {
            assert forall|i: int| 0 <= i < after.intents.len() implies !is_under_way(
                #[trigger] after.intents[i],
                run.id,
            ) by {
                assert(!keep(before.intents[i]));
            }
        },
    }
}

// ── what is accepted ────────────────────────────────────────────────

/// An event on a change that is accepted is of the second version, names its Run and
/// its change, and names at least one and at most two hundred and fifty-six paths. An
/// event of the first version names neither a change nor paths. No other version and
/// no other event is accepted, and none without a key.
pub proof fn lemma_accepted_events_are_complete(event: AgentEvent)
    requires
        problem(event) is None,
    ensures
        event.version == 1 || event.version == 2,
        text::trimmed(event.idempotency_key@).len() > 0,
        event.event@ == "run_started"@ || event.event@ == "checkpoint"@ || event.event@
            == "intent_started"@ || event.event@ == "intent_completed"@ || event.event@
            == "run_completed"@ || event.event@ == "change_started"@ || event.event@
            == "change_completed"@,
        event.event@ == "change_started"@ || event.event@ == "change_completed"@ ==> {
            &&& event.version == 2
            &&& event.external_change_id matches Some(id) && text::trimmed(id@).len() > 0
            &&& event.paths matches Some(paths) && 1 <= paths@.len() <= 256
        },
        event.version == 2 ==> event.run_id is None && (event.external_run_id matches Some(id)
            && text::trimmed(id@).len() > 0),
        event.version == 1 ==> event.external_change_id is None && event.paths is None,
        event.event@ == "run_completed"@ && event.status is Some ==> event.status->0@
            == "completed"@ || event.status->0@ == "failed"@ || event.status->0@ == "aborted"@,
{
    lemma_kinds_differ();
}

} // verus!
