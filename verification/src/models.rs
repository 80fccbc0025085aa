//! The records that the history is made of.
use vstd::prelude::*;

use crate::number;
use crate::text;

verus! {

/// A folder whose changes are recorded.
#[derive(Debug)]
pub struct WatchedProject {
    pub id: i64,
    pub root_path: String,
    pub created_at: i64,
}

impl Clone for WatchedProject {
    fn clone(&self) -> (copy: Self)
        ensures
            copy == *self,
    {
        WatchedProject {
            id: self.id,
            root_path: self.root_path.clone(),
            created_at: self.created_at,
        }
    }
}

/// One recorded change of one file.
#[derive(Debug)]
pub struct FileEvent {
    pub id: i64,
    pub project_id: i64,
    pub timestamp: i64,
    pub path: String,
    pub event_type: String,
    pub current_hash: Option<String>,
    pub previous_hash: Option<String>,
    pub snapshot_path: Option<String>,
    pub old_path: Option<String>,
    pub file_size: Option<i64>,
}

impl Clone for FileEvent {
    fn clone(&self) -> (copy: Self)
        ensures
            copy == *self,
    {
        FileEvent {
            id: self.id,
            project_id: self.project_id,
            timestamp: self.timestamp,
            path: self.path.clone(),
            event_type: self.event_type.clone(),
            current_hash: text::clone_opt(&self.current_hash),
            previous_hash: text::clone_opt(&self.previous_hash),
            snapshot_path: text::clone_opt(&self.snapshot_path),
            old_path: text::clone_opt(&self.old_path),
            file_size: self.file_size,
        }
    }
}

/// The latest known state of one file.
#[derive(Debug)]
pub struct FileState {
    pub id: i64,
    pub project_id: i64,
    pub path: String,
    pub latest_hash: Option<String>,
    pub last_seen_at: i64,
    pub exists_now: bool,
    /// On-disk size in bytes when the hash was recorded; `None` where it was not.
    pub size: Option<i64>,
    /// Modification time in nanoseconds since the Unix epoch when the hash was
    /// recorded. Paired with `size` to short-circuit no-op modify events.
    pub mtime_nanos: Option<i64>,
}

impl Clone for FileState {
    fn clone(&self) -> (copy: Self)
        ensures
            copy == *self,
    {
        FileState {
            id: self.id,
            project_id: self.project_id,
            path: self.path.clone(),
            latest_hash: text::clone_opt(&self.latest_hash),
            last_seen_at: self.last_seen_at,
            exists_now: self.exists_now,
            size: self.size,
            mtime_nanos: self.mtime_nanos,
        }
    }
}

/// A named point in the history of a project.
#[derive(Debug)]
pub struct Checkpoint {
    pub id: i64,
    pub project_id: i64,
    pub run_id: Option<i64>,
    pub name: String,
    pub timestamp: i64,
    pub event_id: Option<i64>,
    pub intent: Option<String>,
    pub created_at: i64,
}

impl Clone for Checkpoint {
    fn clone(&self) -> (copy: Self)
        ensures
            copy == *self,
    {
        Checkpoint {
            id: self.id,
            project_id: self.project_id,
            run_id: self.run_id,
            name: self.name.clone(),
            timestamp: self.timestamp,
            event_id: self.event_id,
            intent: text::clone_opt(&self.intent),
            created_at: self.created_at,
        }
    }
}

impl Checkpoint {
    /// The name by which the record is referred to: `cp_` and its id.
    pub fn public_id(&self) -> (id: String)
        ensures
            id@ == "cp_"@ + number::decimal(self.id as int),
    {
        text::cat("cp_", number::signed_text(self.id).as_str())
    }
}

/// A bounded period of work.
#[derive(Debug)]
pub struct Run {
    pub id: i64,
    pub project_id: i64,
    pub name: String,
    pub kind: String,
    /// `window` for manual and wrapper Runs; `reported` when an integration
    /// explicitly claims exact file-change boundaries. Reported attribution is
    /// an integration claim, not forensic process provenance.
    pub attribution_mode: String,
    pub actor: String,
    pub agent: Option<String>,
    pub command: Option<String>,
    pub intent: Option<String>,
    pub external_id: Option<String>,
    pub status: String,
    pub started_at: i64,
    pub ended_at: Option<i64>,
    pub start_event_id: i64,
    pub end_event_id: Option<i64>,
    pub created_at: i64,
}

impl Clone for Run {
    fn clone(&self) -> (copy: Self)
        ensures
            copy == *self,
    {
        Run {
            id: self.id,
            project_id: self.project_id,
            name: self.name.clone(),
            kind: self.kind.clone(),
            attribution_mode: self.attribution_mode.clone(),
            actor: self.actor.clone(),
            agent: text::clone_opt(&self.agent),
            command: text::clone_opt(&self.command),
            intent: text::clone_opt(&self.intent),
            external_id: text::clone_opt(&self.external_id),
            status: self.status.clone(),
            started_at: self.started_at,
            ended_at: self.ended_at,
            start_event_id: self.start_event_id,
            end_event_id: self.end_event_id,
            created_at: self.created_at,
        }
    }
}

impl Run {
    /// The name by which the record is referred to: `r_` and its id.
    pub fn public_id(&self) -> (id: String)
        ensures
            id@ == "r_"@ + number::decimal(self.id as int),
    {
        text::cat("r_", number::signed_text(self.id).as_str())
    }

    /// Whether the Run has not ended.
    pub fn is_active(&self) -> (yes: bool)
        ensures
            yes == (self.ended_at is None),
    {
        self.ended_at.is_none()
    }

    /// Whether an integration reports the changes of the Run.
    pub fn is_reported(&self) -> (yes: bool)
        ensures
            yes == (self.attribution_mode@ == "reported"@),
    {
        text::same(self.attribution_mode.as_str(), "reported")
    }
}

/// Another name for a Run.
pub type Session = Run;

/// An exact-path change that an integration announced for a Run.
#[derive(Debug)]
pub struct RunBoundary {
    pub id: i64,
    pub run_id: i64,
    pub external_change_id: String,
    pub status: String,
    pub start_event_id: i64,
    pub end_event_id: Option<i64>,
    pub started_at: i64,
    pub ended_at: Option<i64>,
    pub created_at: i64,
    pub updated_at: i64,
}

impl Clone for RunBoundary {
    fn clone(&self) -> (copy: Self)
        ensures
            copy == *self,
    {
        RunBoundary {
            id: self.id,
            run_id: self.run_id,
            external_change_id: self.external_change_id.clone(),
            status: self.status.clone(),
            start_event_id: self.start_event_id,
            end_event_id: self.end_event_id,
            started_at: self.started_at,
            ended_at: self.ended_at,
            created_at: self.created_at,
            updated_at: self.updated_at,
        }
    }
}

/// A task inside a Run.
#[derive(Debug)]
pub struct RunIntent {
    pub id: i64,
    pub run_id: i64,
    pub label: String,
    pub status: String,
    pub start_event_id: i64,
    pub end_event_id: Option<i64>,
    pub started_at: i64,
    pub ended_at: Option<i64>,
}

impl Clone for RunIntent {
    fn clone(&self) -> (copy: Self)
        ensures
            copy == *self,
    {
        RunIntent {
            id: self.id,
            run_id: self.run_id,
            label: self.label.clone(),
            status: self.status.clone(),
            start_event_id: self.start_event_id,
            end_event_id: self.end_event_id,
            started_at: self.started_at,
            ended_at: self.ended_at,
        }
    }
}

impl RunIntent {
    /// The name by which the record is referred to: `i_` and its id.
    pub fn public_id(&self) -> (id: String)
        ensures
            id@ == "i_"@ + number::decimal(self.id as int),
    {
        text::cat("i_", number::signed_text(self.id).as_str())
    }
}

/// A saved recovery plan.
#[derive(Debug)]
pub struct Recovery {
    pub id: i64,
    pub project_id: i64,
    pub run_id: Option<i64>,
    pub request: String,
    pub kind: String,
    pub status: String,
    pub confidence: String,
    pub ambiguity: Option<String>,
    pub created_at: i64,
    pub expires_at: i64,
    pub applied_at: Option<i64>,
}

impl Clone for Recovery {
    fn clone(&self) -> (copy: Self)
        ensures
            copy == *self,
    {
        Recovery {
            id: self.id,
            project_id: self.project_id,
            run_id: self.run_id,
            request: self.request.clone(),
            kind: self.kind.clone(),
            status: self.status.clone(),
            confidence: self.confidence.clone(),
            ambiguity: text::clone_opt(&self.ambiguity),
            created_at: self.created_at,
            expires_at: self.expires_at,
            applied_at: self.applied_at,
        }
    }
}

impl Recovery {
    /// The name by which the record is referred to: `rec_` and its id.
    pub fn public_id(&self) -> (id: String)
        ensures
            id@ == "rec_"@ + number::decimal(self.id as int),
    {
        text::cat("rec_", number::signed_text(self.id).as_str())
    }
}

/// One file of a saved recovery plan.
#[derive(Debug)]
pub struct RecoveryEntry {
    pub recovery_id: i64,
    pub path: String,
    pub action: String,
    pub target_hash: Option<String>,
    pub source_timestamp: Option<i64>,
    pub expected_hash: Option<String>,
    pub expected_exists: bool,
}

impl Clone for RecoveryEntry {
    fn clone(&self) -> (copy: Self)
        ensures
            copy == *self,
    {
        RecoveryEntry {
            recovery_id: self.recovery_id,
            path: self.path.clone(),
            action: self.action.clone(),
            target_hash: text::clone_opt(&self.target_hash),
            source_timestamp: self.source_timestamp,
            expected_hash: text::clone_opt(&self.expected_hash),
            expected_exists: self.expected_exists,
        }
    }
}

} // verus!
