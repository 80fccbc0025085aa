//! The commands on Runs under their earlier name.
use vstd::prelude::*;
use vstd::string::*;

use crate::ask::{group_line, print_group};
use crate::db::runs::{is_named, run_started, NewRun};
use crate::db::Database;
use crate::error::Error;
use crate::groups::{groups_view, ChangeGroup, GroupView};
use crate::models::Run;
use crate::number;
use crate::rows;
use crate::style::{BOLD, GREEN, RESET};
use crate::text;

verus! {

/// Starts a Run of a person now.
pub fn cmd_session_start(db: &mut Database, project_id: i64, name: &str) -> (result: Result<
    Run,
    Error,
>)
    requires
        old(db)@.wf(),
    ensures
        final(db)@.wf(),
        if text::trimmed(name@).len() == 0 {
            final(db)@ == old(db)@ && (result matches Err(e) && e@ == "Run name cannot be empty"@)
        } else {
            exists|now: i64|
                #[trigger] run_started(
                    old(db)@,
                    final(db)@,
                    project_id,
                    (NewRun {
                        name: text::trimmed(name@),
                        kind: "manual"@,
                        attribution_mode: "window"@,
                        actor: "human"@,
                        agent: None,
                        command: None,
                        intent: None,
                        external_id: None,
                    }),
                    now,
                    result,
                )
        },
{
    if text::blank(name) {
        return Err(Error::new("Run name cannot be empty".to_owned()));
    }
    db.start_session(project_id, text::trim(name), "manual")
}

/// The line on a Run that has started, at a time as the user reads it.
pub fn started_line(session: &Run, time: &str) -> (line: String)
    ensures
        line@ == GREEN@ + "Recording started for Run "@ + ("r_"@ + number::decimal(
            session.id as int,
        )) + RESET@ + " ("@ + session.name@ + ") at "@ + time@ + "."@,
{
    let mut line = text::cat5(
        GREEN,
        "Recording started for Run ",
        session.public_id().as_str(),
        RESET,
        " (",
    );
    line.append(session.name.as_str());
    line.append(") at ");
    line.append(time);
    line.append(".");
    line
}

/// The line on a Run that was asked to stop.
pub open spec fn stop_text(session: Option<Run>, changes: int) -> Seq<char> {
    match session {
        None => "No active Run."@,
        Some(r) => GREEN@ + "Run completed"@ + RESET@ + " "@ + ("r_"@ + number::decimal(
            r.id as int,
        )) + " ("@ + r.name@ + ", "@ + number::decimal(changes) + " "@ + (if changes == 1 {
            "file change"@
        } else {
            "file changes"@
        }) + ")."@,
    }
}

/// The line on a Run that was asked to stop.
pub fn cmd_session_stop(session: Option<&Run>, changes: usize) -> (line: String)
    ensures
        line@ == stop_text(
            match session {
                Some(r) => Some(*r),
                None => None,
            },
            changes as int,
        ),
{
    let r = match session {
        None => {
            return "No active Run.".to_owned();
        },
        Some(r) => r,
    };
    let mut line = text::cat5(GREEN, "Run completed", RESET, " ", r.public_id().as_str());
    line.append(" (");
    line.append(r.name.as_str());
    line.append(", ");
    line.append(number::count_text(changes).as_str());
    line.append(" ");
    line.append(
        if changes == 1 {
            "file change"
        } else {
            "file changes"
        },
    );
    line.append(").");
    line
}

/// The Run with a name.
pub fn session_named(db: &Database, project_id: i64, name: &str) -> (result: Result<Run, Error>)
    ensures
        match rows::lookup(db@.sessions, is_named(project_id, name@)) {
            Some(run) => result == Ok::<Run, Error>(run),
            None => result matches Err(e) && e@ == "Run '"@ + name@ + "' not found"@,
        },
{
    match db.get_session_by_name(project_id, name)? {
        Some(run) => Ok(run),
        None => Err(Error::new(text::cat3("Run '", name, "' not found"))),
    }
}

/// The lines on a Run and its groups of changes.
pub open spec fn session_lines(
    session: Run,
    started: Seq<char>,
    finished: Seq<char>,
    changes: int,
    groups: Seq<GroupView>,
) -> Seq<Seq<char>> {
    let a = seq![
        BOLD@ + "Run "@ + ("r_"@ + number::decimal(session.id as int)) + RESET@ + " — "@
            + session.name@,
        "Started: "@ + started,
    ];
    let b = if session.ended_at is Some {
        a.push("Finished: "@ + finished)
    } else {
        a
    };
    let c = b.push("File changes: "@ + number::decimal(changes)).push(""@);
    if groups.len() == 0 {
        c.push("No groups of file changes yet."@)
    } else {
        c.push(BOLD@ + "File groups"@ + RESET@) + groups.map_values(|g: GroupView| group_line(g))
    }
}

/// The lines on a Run and its groups of changes.
pub fn cmd_session_show(
    session: &Run,
    started: &str,
    finished: &str,
    changes: usize,
    groups: &Vec<ChangeGroup>,
) -> (lines: Vec<String>)
    ensures
        text::views(lines@) == session_lines(
            *session,
            started@,
            finished@,
            changes as int,
            groups_view(groups@),
        ),
{
    let mut lines: Vec<String> = Vec::new();
    let mut head = text::cat5(BOLD, "Run ", session.public_id().as_str(), RESET, " — ");
    head.append(session.name.as_str());
    text::add_line(&mut lines, head);
    text::add_line(&mut lines, text::cat("Started: ", started));
    proof {
        assert(text::views(lines@) =~= seq![
            BOLD@ + "Run "@ + ("r_"@ + number::decimal(session.id as int)) + RESET@ + " — "@
                + session.name@,
            "Started: "@ + started@,
        ]);
    }
    if session.ended_at.is_some() {
        text::add_line(&mut lines, text::cat("Finished: ", finished));
    }
    text::add_line(
        &mut lines,
        text::cat("File changes: ", number::count_text(changes).as_str()),
    );
    text::add_line(&mut lines, "".to_owned());
    if groups.len() == 0 {
        text::add_line(&mut lines, "No groups of file changes yet.".to_owned());
        return lines;
    }
    text::add_line(&mut lines, text::cat3(BOLD, "File groups", RESET));
    let said = |g: &ChangeGroup| -> (out: String)
        ensures out@ == group_line(g@)
    { print_group(g) };
    let part = text::lines_for(groups, said, Ghost(|g: ChangeGroup| group_line(g@)));
    proof {
        assert(text::views(part@) =~= groups_view(groups@).map_values(
            |g: GroupView| group_line(g),
        ));
    }
    text::add_lines(&mut lines, part);
    lines
}

} // verus!
