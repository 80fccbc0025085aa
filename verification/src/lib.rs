//! Undo: a record of every change to the files of a project, the Runs of the
//! agents that made them, and safe ways back.
pub mod activity;
pub mod agent_events;
pub mod agent_hooks;
pub mod agent_setup;
pub mod ask;
pub mod changes;
pub mod cli;
pub mod clock;
pub mod compare;
pub mod daemon;
pub mod db;
pub mod diff;
pub mod duration;
pub mod error;
pub mod exclude;
pub mod groups;
pub mod hex;
pub mod integrity;
pub mod intent_recovery;
pub mod json;
pub mod laws;
pub mod logging;
pub mod models;
pub mod number;
pub mod order;
pub mod path;
pub mod places;
pub mod recover;
pub mod recoveries;
pub mod recovery_apply;
pub mod replace;
pub mod restore;
pub mod restore_fs;
pub mod restore_report;
pub mod retention;
pub mod rows;
pub mod run_report;
pub mod runs;
pub mod sessions;
pub mod size;
pub mod sorted;
pub mod split;
pub mod style;
pub mod text;

pub use hex::to_hex;
pub use path::relative_path;
pub use places::{find_project, safe_resolve_path};
