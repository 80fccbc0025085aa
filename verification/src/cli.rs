//! What can be asked for on the command line.
use vstd::prelude::*;
use vstd::string::*;

use crate::number;
use crate::number::Unsigned;
use crate::text;

verus! {

/// The agents whose hooks report what they change.
#[derive(Debug, Clone, Copy, PartialEq, Eq, Structural)]
pub enum AgentKind {
    Claude,
    Cursor,
    Codex,
}

/// An agent. Cursor and Codex go by names of their own; the first agent goes by
/// those that the program that uses this library gives.
#[derive(Debug, Clone, Copy)]
pub struct Agent<'a> {
    pub kind: AgentKind,
    /// The word for the first agent on the command line, which its own command
    /// goes by too.
    pub word: &'a str,
    /// The first agent's name for people to read.
    pub label: &'a str,
}

/// The word for an agent on the command line.
pub open spec fn word_of(agent: Agent) -> Seq<char> {
    match agent.kind {
        AgentKind::Claude => agent.word@,
        AgentKind::Cursor => "cursor"@,
        AgentKind::Codex => "codex"@,
    }
}

/// The name of an agent for people to read.
pub open spec fn label_of(agent: Agent) -> Seq<char> {
    match agent.kind {
        AgentKind::Claude => agent.label@,
        AgentKind::Cursor => "Cursor"@,
        AgentKind::Codex => "Codex"@,
    }
}

impl<'a> Agent<'a> {
    /// The word for the agent on the command line.
    pub fn as_str(self) -> (word: &'a str)
        ensures
            word@ == word_of(self),
    {
        match self.kind {
            AgentKind::Claude => self.word,
            AgentKind::Cursor => "cursor",
            AgentKind::Codex => "codex",
        }
    }
}

/// What is asked for.
#[derive(Debug)]
pub struct Cli {
    pub command: Command,
    /// Whether to say more.
    pub verbose: bool,
}

/// A command.
#[allow(inconsistent_fields)]
#[derive(Debug)]
pub enum Command {
    /// Start recording file changes in the current folder.
    Start {
        /// Whether to pass over the checks of ownership, file count and overlap.
        force: bool,
    },
    /// Show recent file changes.
    Timeline {
        limit: usize,
        since: Option<String>,
        bursts: bool,
        deleted: bool,
    },
    /// Show what changed recently.
    WhatChanged { duration: String },
    /// Compare a file with a saved version.
    Diff {
        path: String,
        duration: Option<String>,
        checkpoint: Option<String>,
        summary: bool,
        stat: bool,
    },
    /// Preview how restoring an earlier version would change files.
    Preview { path: String, duration: String },
    /// Restore a file or folder to an earlier version.
    Restore {
        path: Option<String>,
        duration: Option<String>,
        preview: bool,
        checkpoint: Option<String>,
        timestamp: Option<i64>,
        deleted: bool,
        yes: bool,
    },
    /// Save a named point in history.
    Checkpoint {
        name: String,
        intent: Option<String>,
        run: Option<String>,
        json: bool,
    },
    /// List saved checkpoints for the current folder.
    Checkpoints,
    /// List recently deleted files that can be recovered.
    Deleted { limit: usize },
    /// Recover a deleted file from its last captured contents.
    RestoreDeleted { path: String },
    /// Show a read-only emergency recovery summary.
    Panic { restore_before_latest_burst: bool, yes: bool },
    /// Record and inspect agent or command work.
    Run { command: RunCommand },
    /// List recorded work.
    Runs { json: bool },
    /// Apply an exact saved recovery plan.
    Apply { recovery: String },
    /// Accept one versioned agent lifecycle event as JSON.
    Event { json: Option<String> },
    /// The commands on Runs under their earlier name.
    Session { command: SessionCommand },
    /// The same as `Runs`.
    Sessions,
    /// Preview or apply recovery for a Run or group of file changes.
    Recover(RecoverArgs),
    /// Describe unwanted work and preview a recovery plan.
    Ask(AskArgs),
    /// Show recording health and storage use.
    Status,
    /// Stop recording file changes.
    Stop { all: bool },
    /// Delete old saved versions.
    Prune { keep: Option<String>, dry_run: bool },
    /// Update to the latest release.
    Update,
}

/// A command on Runs, under their earlier name.
#[derive(Debug)]
pub enum SessionCommand {
    /// Start a named Run.
    Start { name: String },
    /// Finish the active Run.
    Stop,
    /// Show one Run and its groups of file changes.
    Show { name: String },
}

/// A command on Runs.
#[allow(inconsistent_fields)]
#[derive(Debug)]
pub enum RunCommand {
    /// Start recording a Run without launching a command.
    Start {
        name: Option<String>,
        actor: Option<String>,
        agent: Option<String>,
        intent: Option<String>,
        external_id: Option<String>,
        json: bool,
    },
    /// Finish the active Run.
    Stop { reference: Option<String>, status: String, json: bool },
    /// Show one Run, its checkpoints, task markers, and file changes.
    Show { reference: String, json: bool },
    /// List recorded work.
    List { json: bool },
    /// Execute an arbitrary command inside a Run.
    Exec {
        agent: Option<String>,
        name: Option<String>,
        intent: Option<String>,
        command: Vec<String>,
    },
    /// Execute an unknown subcommand as the command of a Run.
    External(Vec<String>),
}

/// What a recovery is asked for with.
#[derive(Debug)]
pub struct RecoverArgs {
    /// The Run to recover from.
    pub run: String,
    /// The group of changes to recover, in place of the whole Run.
    pub group: Option<String>,
    /// Whether to preview without changing files.
    pub preview: bool,
    /// Whether files may be changed.
    pub yes: bool,
}

/// What unwanted work is described with.
#[derive(Debug)]
pub struct AskArgs {
    /// Either a request, or a Run followed by a request.
    pub input: Vec<String>,
    /// The Run; else it is the latest that has ended.
    pub run: Option<String>,
    /// Whether to apply the plan.
    pub apply: bool,
    /// Whether files may be changed.
    pub yes: bool,
}

/// The Run and the request that arguments give, or why they do not.
pub open spec fn asked(input: Seq<Seq<char>>, run: Option<Seq<char>>) -> Result<
    (Option<Seq<char>>, Seq<char>),
    Seq<char>,
> {
    if input.len() == 1 {
        Ok((run, input[0]))
    } else if input.len() == 2 {
        if run is None {
            Ok((Some(input[0]), input[1]))
        } else {
            Err("use either positional RUN_ID or --run, not both"@)
        }
    } else {
        Err("ask requires QUERY, optionally preceded by RUN_ID"@)
    }
}

impl AskArgs {
    /// The Run and the request.
    pub fn resolve(&self) -> (result: Result<(Option<&str>, &str), String>)
        ensures
            match asked(text::views(self.input@), text::view_opt(self.run)) {
                Ok(found) => result matches Ok(r) && text::view_opt_str(r.0) == found.0 && r.1@
                    == found.1,
                Err(said) => result matches Err(e) && e@ == said,
            },
    {
        if self.input.len() == 1 {
            let run = match &self.run {
                Some(run) => Some(run.as_str()),
                None => None,
            };
            assert(text::views(self.input@)[0] == self.input@[0]@);
            Ok((run, self.input[0].as_str()))
        } else if self.input.len() == 2 {
            assert(text::views(self.input@)[0] == self.input@[0]@);
            assert(text::views(self.input@)[1] == self.input@[1]@);
            if self.run.is_none() {
                Ok((Some(self.input[0].as_str()), self.input[1].as_str()))
            } else {
                Err("use either positional RUN_ID or --run, not both".to_owned())
            }
        } else {
            Err("ask requires QUERY, optionally preceded by RUN_ID".to_owned())
        }
    }
}

/// The positive number that a text gives, or why it gives none.
pub open spec fn positive(s: Seq<char>) -> Result<usize, Seq<char>> {
    match number::read_unsigned(s, usize::MAX as int) {
        Unsigned::Empty => Err("cannot parse integer from empty string"@),
        Unsigned::Invalid => Err("invalid digit found in string"@),
        Unsigned::TooLarge => Err("number too large to fit in target type"@),
        Unsigned::Is(n) => if n == 0 {
            Err("limit must be at least 1"@)
        } else {
            Ok(n as usize)
        },
    }
}

/// The positive number that a text gives.
pub fn parse_positive_usize(s: &str) -> (result: Result<usize, String>)
    ensures
        match positive(s@) {
            Ok(n) => result matches Ok(r) && r == n,
            Err(said) => result matches Err(e) && e@ == said,
        },
{
    match number::parse_unsigned(s, usize::MAX as u64) {
        Unsigned::Empty => Err("cannot parse integer from empty string".to_owned()),
        Unsigned::Invalid => Err("invalid digit found in string".to_owned()),
        Unsigned::TooLarge => Err("number too large to fit in target type".to_owned()),
        Unsigned::Is(n) => if n == 0 {
            Err("limit must be at least 1".to_owned())
        } else {
            Ok(n as usize)
        },
    }
}

} // verus!
