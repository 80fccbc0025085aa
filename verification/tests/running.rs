//! Runs: how they are named, found, listed and ended.
use std::collections::BTreeSet;
use undo::agent_hooks::agent_label;
use undo::cli::{Agent, AgentKind};
use undo::db::Database;
use undo::error::Error;
use undo::run_report::{file_change_label, run_outcome_heading, status_label};
use undo::runs::{
    active_run_for_context, complete_failed_launch, generated_run_name, infer_agent,
    list_runs_for_context, normalize_shorthand_command,
};

/// The word for the usual agent, and its name for people to read.
fn usual_names() -> (String, String) {
    let name = format!("{:?}", AgentKind::Claude);
    (name.to_lowercase(), format!("{name} Code"))
}

/// With a parent project currently recording, `run list` includes Runs from
/// historical nested projects on the cwd path, but not sibling projects
/// under the same parent (#85).
#[test]
fn run_list_context_includes_nested_history_but_not_siblings() {
    let mut db = Database::open_in_memory().unwrap();
    let parent = db.get_or_create_project("/work").unwrap();
    let nested = db
        .get_or_create_project("/work/packages/app")
        .unwrap();
    let sibling = db
        .get_or_create_project("/work/packages/other")
        .unwrap();

    let parent_run = db
        .start_run(parent.id, "parent", "run", "human", None, None, None, None)
        .unwrap();
    let nested_run = db
        .start_run(nested.id, "nested", "run", "human", None, None, None, None)
        .unwrap();
    db.start_run(
        sibling.id, "sibling", "run", "human", None, None, None, None,
    )
    .unwrap();

    for resolved in [&parent, &nested] {
        let runs =
            list_runs_for_context(&db, resolved, "/work/packages/app/src/main.rs")
                .unwrap();
        let ids = runs.iter().map(|run| run.id).collect::<BTreeSet<_>>();
        assert_eq!(
            ids,
            BTreeSet::from([parent_run.id, nested_run.id]),
            "list output must not change when daemon topology flips"
        );
    }
}

/// Stopping without an explicit id finds the sole active Run anywhere on
/// the cwd's watched-project ancestor chain, regardless of which project
/// the current daemon resolves to (#88).
#[test]
fn active_run_context_survives_parent_nested_topology_flips() {
    let mut db = Database::open_in_memory().unwrap();
    let parent = db.get_or_create_project("/work").unwrap();
    let nested = db
        .get_or_create_project("/work/packages/app")
        .unwrap();
    let cwd = "/work/packages/app/src";

    let nested_run = db
        .start_run(nested.id, "nested", "run", "human", None, None, None, None)
        .unwrap();
    let found = active_run_for_context(&db, cwd, parent.id, None)
        .unwrap()
        .unwrap();
    assert_eq!(found.id, nested_run.id);
    db.complete_run(nested_run.id, "completed").unwrap();

    let parent_run = db
        .start_run(parent.id, "parent", "run", "human", None, None, None, None)
        .unwrap();
    let found = active_run_for_context(&db, cwd, nested.id, None)
        .unwrap()
        .unwrap();
    assert_eq!(found.id, parent_run.id);
}

/// If both parent and nested projects have active Runs, stop must never
/// guess. The error gives stable ids, and an explicit id selects only the
/// requested Run within the cwd context (#88).
#[test]
fn active_run_context_requires_id_when_multiple_runs_are_active() {
    let mut db = Database::open_in_memory().unwrap();
    let parent = db.get_or_create_project("/work").unwrap();
    let nested = db
        .get_or_create_project("/work/packages/app")
        .unwrap();
    let sibling = db
        .get_or_create_project("/work/packages/other")
        .unwrap();
    let cwd = "/work/packages/app/src";
    let parent_run = db
        .start_run(parent.id, "same", "run", "human", None, None, None, None)
        .unwrap();
    let nested_run = db
        .start_run(nested.id, "same", "run", "human", None, None, None, None)
        .unwrap();
    let sibling_run = db
        .start_run(
            sibling.id, "sibling", "run", "human", None, None, None, None,
        )
        .unwrap();

    let error = active_run_for_context(&db, cwd, parent.id, None)
        .unwrap_err()
        .to_string();
    assert!(error.contains(&parent_run.public_id()), "{error}");
    assert!(error.contains(&nested_run.public_id()), "{error}");

    let selected = active_run_for_context(&db, cwd, parent.id, Some(&nested_run.public_id()))
        .unwrap()
        .unwrap();
    assert_eq!(selected.id, nested_run.id);

    let name_error = active_run_for_context(&db, cwd, parent.id, Some("same"))
        .unwrap_err()
        .to_string();
    assert!(name_error.contains("ambiguous"), "{name_error}");
    assert!(
        active_run_for_context(&db, cwd, parent.id, Some(&sibling_run.public_id()))
            .unwrap()
            .is_none(),
        "state-changing lookup must not cross into a sibling project"
    );
}

#[test]
fn known_agent_commands_are_identified() {
    let (word, label) = usual_names();
    let usual = Agent {
        kind: AgentKind::Claude,
        word: &word,
        label: &label,
    };
    assert_eq!(
        infer_agent(&format!("/usr/local/bin/{word}"), usual).as_deref(),
        Some(label.as_str())
    );
    assert_eq!(infer_agent("opencode", usual).as_deref(), Some("OpenCode"));
    assert_eq!(infer_agent("codex", usual).as_deref(), Some("Codex"));
    assert_eq!(infer_agent("cargo", usual), None);
}

/// Cursor and Codex go by their own names, whatever names come with their kind.
#[test]
fn cursor_and_codex_have_names_of_their_own() {
    for (kind, word, label) in [
        (AgentKind::Cursor, "cursor", "Cursor"),
        (AgentKind::Codex, "codex", "Codex"),
    ] {
        let agent = Agent {
            kind,
            word: "other",
            label: "Other",
        };
        assert_eq!(agent.as_str(), word);
        assert_eq!(agent_label(agent), label);
        assert_eq!(infer_agent("other", agent), None);
        assert_eq!(infer_agent("codex", agent).as_deref(), Some("Codex"));
    }
    let usual = Agent {
        kind: AgentKind::Claude,
        word: "other",
        label: "Other",
    };
    assert_eq!(usual.as_str(), "other");
    assert_eq!(agent_label(usual), "Other");
    assert_eq!(infer_agent("other", usual).as_deref(), Some("Other"));
}

#[test]
fn generated_names_are_nonempty_and_agent_scoped() {
    let (word, label) = usual_names();
    assert!(generated_run_name(&label, 1_700_000_000, 42).starts_with(&format!("{word}-code-")));
}

#[test]
fn shorthand_removes_only_its_first_separator() {
    let mut command = vec![
        "cargo".to_string(),
        "--".to_string(),
        "test".to_string(),
        "--".to_string(),
        "--nocapture".to_string(),
    ];
    normalize_shorthand_command(&mut command);
    assert_eq!(command, vec!["cargo", "test", "--", "--nocapture"]);
}

#[test]
fn failed_launch_completion_clears_the_active_run() {
    let mut db = Database::open_in_memory().unwrap();
    let cwd = "/project";
    let project = db.get_or_create_project(cwd).unwrap();
    let run = db
        .start_run(
            project.id,
            "missing-command",
            "run",
            "tool",
            None,
            Some("definitely-not-an-executable"),
            None,
            None,
        )
        .unwrap();
    let run_id = run.id;
    let error = complete_failed_launch(
        &mut db,
        &run,
        Error::new("failed to launch 'definitely-not-an-executable'".to_string()),
    )
    .unwrap_err();

    assert_eq!(
        error.to_string(),
        "failed to launch 'definitely-not-an-executable'"
    );
    assert!(
        db
            .get_active_session(project.id)
            .unwrap()
            .is_none()
    );
    let completed = db.get_session_by_id(run_id).unwrap().unwrap();
    assert_eq!(completed.status, "failed");
    assert!(completed.ended_at.is_some());
}

#[test]
fn run_outcomes_match_the_stored_status() {
    assert_eq!(run_outcome_heading("completed"), "Run completed");
    assert_eq!(run_outcome_heading("failed"), "Run failed");
    assert_eq!(run_outcome_heading("aborted"), "Run aborted");
    assert_eq!(run_outcome_heading("active"), "Run finished");
}

#[test]
fn stored_status_and_event_values_are_humanized_only_for_display() {
    assert_eq!(status_label("active"), "Active");
    assert_eq!(status_label("failed"), "Failed");
    assert_eq!(file_change_label("MODIFIED"), "Modified");
    assert_eq!(file_change_label("CUSTOM"), "CUSTOM");
}
