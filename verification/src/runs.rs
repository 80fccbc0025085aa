//! Runs: what one agent, tool or person does to a project, from start to end.
use vstd::prelude::*;
use vstd::string::*;

use crate::agent_hooks::agent_label;
use crate::cli::{label_of, word_of, Agent, AgentKind};
use crate::clock;
use crate::db::projects::is_covering;
use crate::db::runs::{
    active_of, public_id_list, public_ids, run_by_ref, run_completed, run_started, NewRun,
};
use crate::db::{Database, Tables};
use crate::error::Error;
use crate::models::{Run, WatchedProject};
use crate::number;
use crate::order;
use crate::path;
use crate::rows;
use crate::rows::Order;
use crate::text;

verus! {

/// How a command answers.
#[derive(Clone, Copy, Debug, PartialEq, Eq, Structural)]
pub enum Output {
    Text,
    Json,
    Silent,
}

/// What is known of a Run that is to start.
#[derive(Debug, Default)]
pub struct StartRunOptions<'a> {
    pub name: Option<&'a str>,
    pub actor: Option<&'a str>,
    pub agent: Option<&'a str>,
    pub command: Option<&'a str>,
    pub intent: Option<&'a str>,
    pub external_id: Option<&'a str>,
}

// ── starting ────────────────────────────────────────────────────────

/// A character of a generated name: a small letter, a digit or a dash.
pub open spec fn name_char(c: char) -> char {
    if text::is_alnum(c) {
        text::lower_char(c)
    } else {
        '-'
    }
}

/// A text without the dashes at its start.
pub open spec fn undashed_left(s: Seq<char>) -> Seq<char>
    decreases s.len(),
{
    if s.len() > 0 && s[0] == '-' {
        undashed_left(s.skip(1))
    } else {
        s
    }
}

/// A text without the dashes at its end.
pub open spec fn undashed_right(s: Seq<char>) -> Seq<char>
    decreases s.len(),
{
    if s.len() > 0 && s.last() == '-' {
        undashed_right(s.drop_last())
    } else {
        s
    }
}

/// Who acts, as the start of a name.
pub open spec fn name_start(actor: Seq<char>) -> Seq<char> {
    let slug = undashed_right(undashed_left(actor.map_values(|c: char| name_char(c))));
    if slug.len() == 0 {
        "run"@
    } else {
        slug
    }
}

/// The name of a Run that was given none: who acts, when, and in which process.
pub open spec fn run_name(actor: Seq<char>, now: i64, process: u32) -> Seq<char> {
    name_start(actor) + "-"@ + number::decimal(now as int) + "-"@ + number::decimal(process as int)
}

/// The name of a Run that was given none.
pub fn generated_run_name(actor: &str, now: i64, process: u32) -> (name: String)
    ensures
        name@ == run_name(actor@, now, process),
{
    let chars = text::chars_of(actor);
    let mut slug: Vec<char> = Vec::new();
    let mut i: usize = 0;
    while i < chars.len()
        invariant
            i <= chars.len(),
            chars@ == actor@,
            slug.len() == i,
            forall|k: int| 0 <= k < i ==> (#[trigger] slug@[k]) == name_char(actor@[k]),
        decreases chars.len() - i,
    {
        if text::alnum(chars[i]) {
            slug.push(text::lowered_char(chars[i]));
        } else {
            slug.push('-');
        }
        i += 1;
    }
    let ghost whole = actor@.map_values(|c: char| name_char(c));
    proof {
        assert(slug@ =~= whole);
        assert(whole.skip(0) =~= whole);
    }
    let mut from: usize = 0;
    while from < slug.len() && slug[from] == '-'
        invariant
            from <= slug.len(),
            slug@ == whole,
            undashed_left(whole.skip(from as int)) == undashed_left(whole),
        decreases slug.len() - from,
    {
        proof {
            assert(whole.skip(from as int).skip(1) =~= whole.skip(from + 1));
        }
        from += 1;
    }
    let ghost rest = whole.skip(from as int);
    let mut to: usize = slug.len();
    proof {
        assert(whole.subrange(from as int, to as int) =~= rest);
        assert(undashed_left(rest) == rest);
    }
    while to > from && slug[to - 1] == '-'
        invariant
            from <= to <= slug.len(),
            slug@ == whole,
            undashed_right(whole.subrange(from as int, to as int)) == undashed_right(rest),
        decreases to,
    {
        proof {
            assert(whole.subrange(from as int, to as int).drop_last() =~= whole.subrange(
                from as int,
                to - 1,
            ));
        }
        to -= 1;
    }
    let start = if from == to {
        "run".to_owned()
    } else {
        text::text_of(&slug, from, to)
    };
    text::cat5(
        start.as_str(),
        "-",
        number::signed_text(now).as_str(),
        "-",
        number::unsigned_text(process as u64).as_str(),
    )
}

/// The agent that an executable is known to be. What the first agent is called, the
/// caller says.
pub open spec fn agent_of(executable: Seq<char>, usual: Agent) -> Option<Seq<char>> {
    let name = text::lower(
        match path::file_name(executable) {
            Some(name) => name,
            None => executable,
        },
    );
    if usual.kind == AgentKind::Claude && (name == word_of(usual) || name == word_of(usual)
        + "-code"@) {
        Some(label_of(usual))
    } else if name == "opencode"@ {
        Some("OpenCode"@)
    } else if name == "codex"@ {
        Some("Codex"@)
    } else {
        None
    }
}

/// The agent that an executable is known to be. What the first agent is called, the
/// caller says.
pub fn infer_agent(executable: &str, usual: Agent) -> (agent: Option<String>)
    ensures
        text::view_opt(agent) == agent_of(executable@, usual),
{
    let base = match path::last_name(executable) {
        Some(name) => name,
        None => executable.to_owned(),
    };
    let name = text::lowercase(base.as_str());
    if usual.kind == AgentKind::Claude && (text::same(name.as_str(), usual.as_str())
        || text::same(name.as_str(), text::cat(usual.as_str(), "-code").as_str())) {
        Some(agent_label(usual).to_owned())
    } else if text::same(name.as_str(), "opencode") {
        Some("OpenCode".to_owned())
    } else if text::same(name.as_str(), "codex") {
        Some("Codex".to_owned())
    } else {
        None
    }
}

/// Who can act in a Run.
pub open spec fn is_actor(actor: Seq<char>) -> bool {
    actor == "human"@ || actor == "agent"@ || actor == "tool"@ || actor == "mixed"@
}

/// Tells whether somebody can act in a Run.
pub fn validate_actor(actor: &str) -> (result: Result<(), Error>)
    ensures
        result is Ok <==> is_actor(actor@),
        result matches Err(e) ==> e@ == "actor must be one of: human, agent, tool, mixed"@,
{
    if text::same(actor, "human") || text::same(actor, "agent") || text::same(actor, "tool")
        || text::same(actor, "mixed") {
        Ok(())
    } else {
        Err(Error::new("actor must be one of: human, agent, tool, mixed".to_owned()))
    }
}

/// How a Run can end.
pub open spec fn is_outcome(status: Seq<char>) -> bool {
    status == "completed"@ || status == "failed"@ || status == "aborted"@
}

/// Tells whether a Run can end so.
pub fn validate_completion_status(status: &str) -> (result: Result<(), Error>)
    ensures
        result is Ok <==> is_outcome(status@),
        result matches Err(e) ==> e@ == "Run status must be completed, failed, or aborted"@,
{
    if text::same(status, "completed") || text::same(status, "failed") || text::same(
        status,
        "aborted",
    ) {
        Ok(())
    } else {
        Err(Error::new("Run status must be completed, failed, or aborted".to_owned()))
    }
}

/// Who acts in a Run that is to start.
pub open spec fn actor_of(options: StartRunOptions) -> Seq<char> {
    match options.actor {
        Some(actor) => actor@,
        None => if options.agent is Some {
            "agent"@
        } else {
            "human"@
        },
    }
}

/// The name of a Run that is to start.
pub open spec fn name_of(options: StartRunOptions, named_at: i64, process: u32) -> Seq<char> {
    match options.name {
        Some(name) => if text::trimmed(name@).len() > 0 {
            text::trimmed(name@)
        } else {
            made_name(options, named_at, process)
        },
        None => made_name(options, named_at, process),
    }
}

/// The name of a Run that is to start and was given none.
pub open spec fn made_name(options: StartRunOptions, named_at: i64, process: u32) -> Seq<char> {
    run_name(
        match options.agent {
            Some(agent) => agent@,
            None => actor_of(options),
        },
        named_at,
        process,
    )
}

/// Starting a Run of a project, with a way in which changes are attributed to
/// it.
pub open spec fn run_begun(
    before: Tables,
    after: Tables,
    project_id: i64,
    options: StartRunOptions,
    mode: Seq<char>,
    process: u32,
    named_at: i64,
    now: i64,
    result: Result<Run, Error>,
) -> bool {
    if !is_actor(actor_of(options)) {
        after == before && (result matches Err(e) && e@
            == "actor must be one of: human, agent, tool, mixed"@)
    } else if mode == "reported"@ && options.external_id is None {
        after == before && (result matches Err(e) && e@
            == "a reported Run requires a stable external Run ID"@)
    } else {
        run_started(
            before,
            after,
            project_id,
            (NewRun {
                name: name_of(options, named_at, process),
                kind: "run"@,
                attribution_mode: mode,
                actor: actor_of(options),
                agent: text::view_opt_str(options.agent),
                command: text::view_opt_str(options.command),
                intent: text::view_opt_str(options.intent),
                external_id: text::view_opt_str(options.external_id),
            }),
            now,
            result,
        )
    }
}

/// Starts a Run of a project at a time.
pub fn start_run_with_mode(
    db: &mut Database,
    project_id: i64,
    options: &StartRunOptions,
    mode: &str,
    process: u32,
    named_at: i64,
    now: i64,
) -> (result: Result<Run, Error>)
    requires
        old(db)@.wf(),
    ensures
        final(db)@.wf(),
        run_begun(
            old(db)@,
            final(db)@,
            project_id,
            *options,
            mode@,
            process,
            named_at,
            now,
            result,
        ),
{
    let actor = match options.actor {
        Some(actor) => actor,
        None => if options.agent.is_some() {
            "agent"
        } else {
            "human"
        },
    };
    validate_actor(actor)?;
    let given = match options.name {
        Some(name) => {
            let name = text::trim(name);
            if name.unicode_len() > 0 {
                Some(name)
            } else {
                None
            }
        },
        None => None,
    };
    let name = match given {
        Some(name) => name.to_owned(),
        None => generated_run_name(
            match options.agent {
                Some(agent) => agent,
                None => actor,
            },
            named_at,
            process,
        ),
    };
    if text::same(mode, "reported") && options.external_id.is_none() {
        return Err(Error::new("a reported Run requires a stable external Run ID".to_owned()));
    }
    db.start_run_with_attribution(
        project_id,
        name.as_str(),
        "run",
        mode,
        actor,
        options.agent,
        options.command,
        options.intent,
        options.external_id,
        now,
    )
}

/// Starts a Run of a project now; the changes made while it runs belong to it.
pub fn cmd_run_start(db: &mut Database, project_id: i64, options: StartRunOptions, process: u32) -> (result:
    Result<Run, Error>)
    requires
        old(db)@.wf(),
    ensures
        final(db)@.wf(),
        exists|named_at: i64, now: i64|
            #[trigger] run_begun(
                old(db)@,
                final(db)@,
                project_id,
                options,
                "window"@,
                process,
                named_at,
                now,
                result,
            ),
{
    let named_at = clock::unix_now();
    let now = clock::unix_now();
    start_run_with_mode(db, project_id, &options, "window", process, named_at, now)
}

/// Starts a Run of a project now; the changes that it reports belong to it.
pub fn cmd_reported_run_start(
    db: &mut Database,
    project_id: i64,
    options: StartRunOptions,
    process: u32,
) -> (result: Result<Run, Error>)
    requires
        old(db)@.wf(),
    ensures
        final(db)@.wf(),
        exists|named_at: i64, now: i64|
            #[trigger] run_begun(
                old(db)@,
                final(db)@,
                project_id,
                options,
                "reported"@,
                process,
                named_at,
                now,
                result,
            ),
{
    let named_at = clock::unix_now();
    let now = clock::unix_now();
    start_run_with_mode(db, project_id, &options, "reported", process, named_at, now)
}

// ── finding ─────────────────────────────────────────────────────────

/// An id, and the ids of projects that are not yet in the list.
pub open spec fn with_ids(first: i64, projects: Seq<WatchedProject>) -> Seq<i64>
    decreases projects.len(),
{
    if projects.len() == 0 {
        seq![first]
    } else {
        let before = with_ids(first, projects.drop_last());
        if before.contains(projects.last().id) {
            before
        } else {
            before.push(projects.last().id)
        }
    }
}

/// The projects whose Runs a directory sees: the one that records it, then
/// every other whose root holds it, the closest first.
pub open spec fn is_context(
    projects: Seq<WatchedProject>,
    cwd: Seq<char>,
    resolved: i64,
    ids: Seq<i64>,
) -> bool {
    exists|covering: Seq<WatchedProject>|
        #[trigger] is_covering(projects, cwd, covering) && ids == with_ids(resolved, covering)
}

/// Whether a number is in a list.
fn has_id(ids: &Vec<i64>, id: i64) -> (yes: bool)
    ensures
        yes == ids@.contains(id),
{
    let mut i: usize = 0;
    while i < ids.len()
        invariant
            i <= ids.len(),
            forall|k: int| 0 <= k < i ==> ids@[k] != id,
        decreases ids.len() - i,
    {
        if ids[i] == id {
            assert(ids@[i as int] == id);
            return true;
        }
        i += 1;
    }
    false
}

/// The projects whose Runs a directory sees.
pub fn run_context_project_ids(db: &Database, cwd: &str, resolved_project_id: i64) -> (result:
    Result<Vec<i64>, Error>)
    requires
        db@.wf(),
    ensures
        result matches Ok(ids) && is_context(db@.projects, cwd@, resolved_project_id, ids@),
{
    let covering = db.list_projects_for_path(cwd)?;
    let mut ids: Vec<i64> = Vec::new();
    ids.push(resolved_project_id);
    let mut i: usize = 0;
    proof {
        assert(ids@ =~= with_ids(resolved_project_id, covering@.take(0)));
    }
    while i < covering.len()
        invariant
            i <= covering.len(),
            ids@ == with_ids(resolved_project_id, covering@.take(i as int)),
        decreases covering.len() - i,
    {
        proof {
            assert(covering@.take(i + 1).drop_last() =~= covering@.take(i as int));
        }
        if !has_id(&ids, covering[i].id) {
            ids.push(covering[i].id);
        }
        i += 1;
    }
    proof {
        assert(covering@.take(i as int) =~= covering@);
    }
    Ok(ids)
}

/// Whether a Run with an id is in a list.
pub open spec fn has_run_id(runs: Seq<Run>, id: i64) -> bool {
    exists|i: int| 0 <= i < runs.len() && (#[trigger] runs[i]).id == id
}

/// The Runs that a reference names in some projects, each once.
pub open spec fn runs_by_ref(sessions: Seq<Run>, ids: Seq<i64>, reference: Seq<char>) -> Seq<Run>
    decreases ids.len(),
{
    if ids.len() == 0 {
        Seq::empty()
    } else {
        let before = runs_by_ref(sessions, ids.drop_last(), reference);
        match run_by_ref(sessions, ids.last(), reference) {
            Some(run) => if has_run_id(before, run.id) {
                before
            } else {
                before.push(run)
            },
            None => before,
        }
    }
}

/// The one Run that a reference names in some projects. Several are never
/// guessed from.
pub open spec fn is_run_in_context(
    sessions: Seq<Run>,
    ids: Seq<i64>,
    reference: Seq<char>,
    result: Result<Option<Run>, Error>,
) -> bool {
    let found = runs_by_ref(sessions, ids, reference);
    if found.len() == 0 {
        result matches Ok(run) && run is None
    } else if found.len() == 1 {
        result matches Ok(run) && run == Some(found[0])
    } else {
        result matches Err(e) && e@ == "Run name '"@ + reference
            + "' is ambiguous across projects ("@ + text::joined(public_ids(found), ", "@)
            + "); use an r_<id> reference"@
    }
}

/// The Run that a reference names in some projects.
pub fn find_run_in_context(db: &Database, project_ids: &Vec<i64>, reference: &str) -> (result:
    Result<Option<Run>, Error>)
    ensures
        is_run_in_context(db@.sessions, project_ids@, reference@, result),
{
    let mut found: Vec<Run> = Vec::new();
    let mut i: usize = 0;
    while i < project_ids.len()
        invariant
            i <= project_ids.len(),
            found@ == runs_by_ref(db@.sessions, project_ids@.take(i as int), reference@),
        decreases project_ids.len() - i,
    {
        proof {
            assert(project_ids@.take(i + 1).drop_last() =~= project_ids@.take(i as int));
        }
        if let Some(run) = db.get_run_by_ref(project_ids[i], reference)? {
            let mut known = false;
            let mut k: usize = 0;
            while k < found.len()
                invariant
                    k <= found.len(),
                    known == exists|m: int| 0 <= m < k && (#[trigger] found@[m]).id == run.id,
                decreases found.len() - k,
            {
                if found[k].id == run.id {
                    known = true;
                }
                k += 1;
            }
            if !known {
                found.push(run);
            }
        }
        i += 1;
    }
    proof {
        assert(project_ids@.take(i as int) =~= project_ids@);
    }
    if found.len() == 0 {
        Ok(None)
    } else if found.len() == 1 {
        Ok(Some(found[0].clone()))
    } else {
        let ids = public_id_list(&found);
        Err(
            Error::new(
                text::cat5(
                    "Run name '",
                    reference,
                    "' is ambiguous across projects (",
                    text::join(&ids, ", ").as_str(),
                    "); use an r_<id> reference",
                ),
            ),
        )
    }
}

/// The active Runs of some projects, the newest of each first.
pub open spec fn active_runs(sessions: Seq<Run>, ids: Seq<i64>) -> Seq<Run>
    decreases ids.len(),
{
    if ids.len() == 0 {
        Seq::empty()
    } else {
        active_runs(sessions, ids.drop_last()) + rows::listed(
            sessions,
            Order::Newest,
            active_of(ids.last()),
        )
    }
}

/// Keys that put the latest start first.
pub open spec fn start_keys(runs: Seq<Run>) -> Seq<(i64, i64)> {
    runs.map_values(|r: Run| ((-1 - r.started_at) as i64, 0i64))
}

/// The one active Run of some projects. Several are never guessed from.
pub open spec fn is_active_in_context(
    sessions: Seq<Run>,
    ids: Seq<i64>,
    result: Result<Option<Run>, Error>,
) -> bool {
    let active = active_runs(sessions, ids);
    if active.len() == 0 {
        result matches Ok(run) && run is None
    } else if active.len() == 1 {
        result matches Ok(run) && run == Some(active[0])
    } else {
        exists|order: Seq<usize>|
            {
                &&& #[trigger] order::is_order(start_keys(active), order)
                &&& result matches Err(e) && e@
                    == "multiple Runs are active across this folder's project history ("@
                    + text::joined(public_ids(order::arranged(active, order)), ", "@)
                    + "); specify one with `undo run stop <RUN>`"@
            }
    }
}

/// The active Run of some projects.
fn active_run_of(db: &Database, ids: &Vec<i64>) -> (result: Result<Option<Run>, Error>)
    requires
        db@.wf(),
    ensures
        is_active_in_context(db@.sessions, ids@, result),
{
    let mut active: Vec<Run> = Vec::new();
    let mut i: usize = 0;
    while i < ids.len()
        invariant
            i <= ids.len(),
            db@.wf(),
            active@ == active_runs(db@.sessions, ids@.take(i as int)),
        decreases ids.len() - i,
    {
        let mut list = db.list_active_runs(ids[i])?;
        proof {
            assert(ids@.take(i + 1).drop_last() =~= ids@.take(i as int));
            rows::lemma_listed(db@.sessions, Order::Newest, active_of(ids@[i as int]), list@);
        }
        active.append(&mut list);
        i += 1;
    }
    proof {
        assert(ids@.take(i as int) =~= ids@);
    }
    if active.len() == 0 {
        return Ok(None);
    }
    if active.len() == 1 {
        return Ok(Some(active[0].clone()));
    }
    let mut keys: Vec<(i64, i64)> = Vec::new();
    let mut k: usize = 0;
    while k < active.len()
        invariant
            k <= active.len(),
            keys@.len() == k,
            forall|m: int|
                0 <= m < k ==> (#[trigger] keys@[m]) == ((-1 - active@[m].started_at) as i64, 0i64),
        decreases active.len() - k,
    {
        keys.push((-1 - active[k].started_at, 0));
        k += 1;
    }
    proof {
        assert(keys@ =~= start_keys(active@));
    }
    let order = order::order_of(&keys);
    let mut sorted: Vec<Run> = Vec::new();
    let mut k: usize = 0;
    while k < order.len()
        invariant
            k <= order.len(),
            order::is_order(start_keys(active@), order@),
            sorted@.len() == k,
            forall|m: int| 0 <= m < k ==> (#[trigger] sorted@[m]) == active@[order@[m] as int],
        decreases order.len() - k,
    {
        sorted.push(active[order[k]].clone());
        k += 1;
    }
    proof {
        assert(sorted@ =~= order::arranged(active@, order@));
    }
    let names = public_id_list(&sorted);
    let result = Err(
        Error::new(
            text::cat3(
                "multiple Runs are active across this folder's project history (",
                text::join(&names, ", ").as_str(),
                "); specify one with `undo run stop <RUN>`",
            ),
        ),
    );
    assert(order::is_order(start_keys(active@), order@));
    result
}

/// Whether a result is the Run that is meant in a directory: the one that a
/// reference names there, or the one that is active.
pub open spec fn is_meant_run(
    t: Tables,
    cwd: Seq<char>,
    resolved: i64,
    reference: Option<Seq<char>>,
    result: Result<Option<Run>, Error>,
) -> bool {
    exists|ids: Seq<i64>|
        {
            &&& #[trigger] is_context(t.projects, cwd, resolved, ids)
            &&& match reference {
                Some(name) => is_run_in_context(t.sessions, ids, name, result),
                None => is_active_in_context(t.sessions, ids, result),
            }
        }
}

/// The Run that is meant in a directory.
pub fn active_run_for_context(
    db: &Database,
    cwd: &str,
    resolved_project_id: i64,
    reference: Option<&str>,
) -> (result: Result<Option<Run>, Error>)
    requires
        db@.wf(),
    ensures
        is_meant_run(db@, cwd@, resolved_project_id, text::view_opt_str(reference), result),
{
    let ids = run_context_project_ids(db, cwd, resolved_project_id)?;
    assert(is_context(db@.projects, cwd@, resolved_project_id, ids@));
    match reference {
        Some(reference) => find_run_in_context(db, &ids, reference),
        None => active_run_of(db, &ids),
    }
}

/// The Runs of some projects.
pub open spec fn runs_in(ids: Seq<i64>) -> spec_fn(Run) -> bool {
    |r: Run| ids.contains(r.project_id)
}

/// The Runs that a directory sees, the newest first.
pub fn list_runs_for_context(db: &Database, recording_project: &WatchedProject, cwd: &str) -> (result:
    Result<Vec<Run>, Error>)
    requires
        db@.wf(),
    ensures
        result matches Ok(list) && exists|ids: Seq<i64>|
            {
                &&& #[trigger] is_context(db@.projects, cwd@, recording_project.id, ids)
                &&& rows::is_listing(db@.sessions, Order::Newest, runs_in(ids), list@)
            },
{
    let ids = run_context_project_ids(db, cwd, recording_project.id)?;
    let test = |r: &Run| -> (yes: bool)
        ensures yes == ids@.contains(r.project_id)
    { has_id(&ids, r.project_id) };
    let list = rows::listing(&db.sessions, Order::Newest, test, Ghost(runs_in(ids@)));
    assert(is_context(db@.projects, cwd@, recording_project.id, ids@));
    Ok(list)
}

// ── ending ──────────────────────────────────────────────────────────

/// Ending the Run that is meant in a directory.
pub open spec fn run_stopped(
    before: Tables,
    after: Tables,
    cwd: Seq<char>,
    resolved: i64,
    reference: Option<Seq<char>>,
    status: Seq<char>,
    now: i64,
    result: Result<Run, Error>,
) -> bool {
    if !is_outcome(status) {
        after == before && (result matches Err(e) && e@
            == "Run status must be completed, failed, or aborted"@)
    } else {
        exists|found: Result<Option<Run>, Error>|
            {
                &&& #[trigger] is_meant_run(before, cwd, resolved, reference, found)
                &&& match found {
                    Err(e) => after == before && (result matches Err(x) && x == e),
                    Ok(None) => after == before && (result matches Err(e) && e@ == match reference {
                        Some(name) => "Run '"@ + name + "' not found"@,
                        None => "No active Run."@,
                    }),
                    Ok(Some(run)) => run_completed(before, after, run.id, status, now, result),
                }
            }
    }
}

/// Ends the Run that is meant in a directory, at a time.
pub fn stop_run_at(
    db: &mut Database,
    cwd: &str,
    project_id: i64,
    reference: Option<&str>,
    status: &str,
    now: i64,
) -> (result: Result<Run, Error>)
    requires
        old(db)@.wf(),
    ensures
        final(db)@.wf(),
        run_stopped(
            old(db)@,
            final(db)@,
            cwd@,
            project_id,
            text::view_opt_str(reference),
            status@,
            now,
            result,
        ),
{
    let ghost before = db@;
    validate_completion_status(status)?;
    let found = active_run_for_context(db, cwd, project_id, reference);
    assert(is_meant_run(before, cwd@, project_id, text::view_opt_str(reference), found));
    match found {
        Err(e) => Err(e),
        Ok(None) => match reference {
            Some(name) => Err(Error::new(text::cat3("Run '", name, "' not found"))),
            None => Err(Error::new("No active Run.".to_owned())),
        },
        Ok(Some(run)) => db.complete_run_at(run.id, status, now),
    }
}

/// Ends the Run that is meant in a directory, now.
pub fn cmd_run_stop(
    db: &mut Database,
    cwd: &str,
    project_id: i64,
    reference: Option<&str>,
    status: &str,
) -> (result: Result<Run, Error>)
    requires
        old(db)@.wf(),
    ensures
        final(db)@.wf(),
        exists|now: i64|
            #[trigger] run_stopped(
                old(db)@,
                final(db)@,
                cwd@,
                project_id,
                text::view_opt_str(reference),
                status@,
                now,
                result,
            ),
{
    let now = clock::unix_now();
    stop_run_at(db, cwd, project_id, reference, status, now)
}

/// Ends a Run whose command could not be launched. The result is what kept it
/// from launching, and where the Run could not be ended that too.
pub open spec fn launch_failed(
    before: Tables,
    after: Tables,
    run_id: i64,
    launch_error: Seq<char>,
    now: i64,
    result: Result<i32, Error>,
) -> bool {
    exists|ended: Result<Run, Error>|
        {
            &&& #[trigger] run_completed(before, after, run_id, "failed"@, now, ended)
            &&& result matches Err(e) && e@ == match ended {
                Ok(_) => launch_error,
                Err(x) => {
                    let id = "r_"@ + number::decimal(run_id as int);
                    launch_error + "\nUndo also could not mark Run "@ + id + " as failed: "@ + x@
                        + "\nComplete it manually with: undo run stop "@ + id
                        + " --status failed"@
                },
            }
        }
}

/// Ends a Run whose command could not be launched.
pub fn complete_failed_launch(db: &mut Database, run: &Run, launch_error: Error) -> (result: Result<
    i32,
    Error,
>)
    requires
        old(db)@.wf(),
    ensures
        final(db)@.wf(),
        exists|now: i64|
            #[trigger] launch_failed(
                old(db)@,
                final(db)@,
                run.id,
                launch_error@,
                now,
                result,
            ),
{
    let now = clock::unix_now();
    let ended = db.complete_run_at(run.id, "failed", now);
    let ghost seen = ended;
    let id = run.public_id();
    let error = match ended {
        Ok(_) => launch_error,
        Err(e) => {
            let mut said = text::cat5(
                launch_error.message.as_str(),
                "\nUndo also could not mark Run ",
                id.as_str(),
                " as failed: ",
                e.message.as_str(),
            );
            said.append("\nComplete it manually with: undo run stop ");
            said.append(id.as_str());
            said.append(" --status failed");
            Error::new(said)
        },
    };
    let result = Err(error);
    assert(run_completed(old(db)@, db@, run.id, "failed"@, now, seen));
    assert(launch_failed(old(db)@, db@, run.id, launch_error@, now, result));
    result
}

// ── commands ────────────────────────────────────────────────────────

/// A command that is to run as a Run.
#[derive(Debug)]
pub struct RunPlan {
    pub executable: String,
    pub arguments: Vec<String>,
    pub agent: Option<String>,
    pub actor: String,
    pub command: String,
}

/// Whether a plan is that of a command, with an agent that was named or is
/// known by the executable.
pub open spec fn is_plan(
    plan: RunPlan,
    command: Seq<String>,
    agent_override: Option<Seq<char>>,
    usual: Agent,
) -> bool {
    &&& command.len() > 0
    &&& plan.executable@ == command[0]@
    &&& plan.arguments@ == command.skip(1)
    &&& text::view_opt(plan.agent) == match agent_override {
        Some(agent) => Some(agent),
        None => agent_of(command[0]@, usual),
    }
    &&& plan.actor@ == if plan.agent is Some {
        "agent"@
    } else {
        "tool"@
    }
    &&& plan.command@ == text::joined(text::views(command), " "@)
}

/// What a command is to run as.
pub fn cmd_run_command(command: &Vec<String>, agent_override: Option<&str>, usual: Agent) -> (result:
    Result<RunPlan, Error>)
    ensures
        match result {
            Ok(plan) => is_plan(plan, command@, text::view_opt_str(agent_override), usual),
            Err(e) => command@.len() == 0 && e@
                == "No command was provided.\nPass a command after `undo run`."@,
        },
{
    if command.len() == 0 {
        return Err(
            Error::new(
                "No command was provided.\nPass a command after `undo run`.".to_owned(),
            ),
        );
    }
    let agent = match agent_override {
        Some(agent) => Some(agent.to_owned()),
        None => infer_agent(command[0].as_str(), usual),
    };
    let actor = if agent.is_some() {
        "agent"
    } else {
        "tool"
    };
    Ok(
        RunPlan {
            executable: command[0].clone(),
            arguments: path::tail(command, 1),
            agent,
            actor: actor.to_owned(),
            command: text::join(command, " "),
        },
    )
}

/// A command without its first separator.
pub open spec fn without_separator(command: Seq<String>) -> Seq<String>
    decreases command.len(),
{
    if command.len() == 0 {
        command
    } else if command[0]@ == "--"@ {
        command.skip(1)
    } else {
        seq![command[0]] + without_separator(command.skip(1))
    }
}

/// Takes the first separator out of a command.
pub fn normalize_shorthand_command(command: &mut Vec<String>)
    ensures
        final(command)@ == without_separator(old(command)@),
{
    let ghost start = command@;
    let mut i: usize = 0;
    proof {
        assert(start.take(0) + without_separator(start.skip(0)) =~= without_separator(start)) by {
            assert(start.skip(0) =~= start);
        }
    }
    while i < command.len()
        invariant
            i <= command.len(),
            start == old(command)@,
            command@ == start,
            start.take(i as int) + without_separator(start.skip(i as int)) == without_separator(
                start,
            ),
        decreases command.len() - i,
    {
        if text::same(command[i].as_str(), "--") {
            let removed = command.remove(i);
            proof {
                assert(start.skip(i as int)[0]@ == "--"@);
                assert(without_separator(start.skip(i as int)) == start.skip(i as int).skip(1));
                assert(start.skip(i as int).skip(1) =~= start.skip(i + 1));
                assert(command@ =~= start.take(i as int) + start.skip(i + 1));
            }
            return;
        }
        proof {
            let rest = start.skip(i as int);
            assert(rest.skip(1) =~= start.skip(i + 1));
            assert(start.take(i as int) + (seq![rest[0]] + without_separator(rest.skip(1)))
                =~= start.take(i + 1) + without_separator(start.skip(i + 1)));
        }
        i += 1;
    }
    proof {
        assert(start.skip(i as int).len() == 0);
        assert(start.take(i as int) + start.skip(i as int) =~= start);
    }
}

/// What a command without options is to run as.
pub fn cmd_run_shorthand(command: Vec<String>, usual: Agent) -> (result: Result<RunPlan, Error>)
    ensures
        match result {
            Ok(plan) => is_plan(plan, without_separator(command@), None, usual),
            Err(e) => without_separator(command@).len() == 0 && e@
                == "No command was provided.\nPass a command after `undo run`."@,
        },
{
    let mut command = command;
    normalize_shorthand_command(&mut command);
    cmd_run_command(&command, None, usual)
}

/// How a Run ends and what is exited with, after its command has ended.
pub fn run_outcome(success: bool, code: Option<i32>) -> (outcome: (&'static str, i32))
    ensures
        outcome.0@ == if success {
            "completed"@
        } else {
            "failed"@
        },
        outcome.1 == match code {
            Some(code) => code,
            None => if success {
                0i32
            } else {
                1i32
            },
        },
{
    let fallback: i32 = if success {
        0
    } else {
        1
    };
    let exit = match code {
        Some(code) => code,
        None => fallback,
    };
    if success {
        ("completed", exit)
    } else {
        ("failed", exit)
    }
}

} // verus!
