//! What agents report.
use undo::agent_events::{
    required_checkpoint_name, required_intent, required_reported_run, request_hash, validate_event,
    AgentEvent,
};
use undo::db::Database;

fn event(event: &str) -> AgentEvent {
    AgentEvent {
        version: 1,
        event: event.to_string(),
        idempotency_key: "test-1".to_string(),
        run_id: None,
        name: None,
        actor: None,
        agent: None,
        command: None,
        intent: None,
        status: None,
        external_run_id: None,
        external_change_id: None,
        paths: None,
    }
}

#[test]
fn rejects_unknown_versions_and_events() {
    let mut wrong_version = event("run_started");
    wrong_version.version = 3;
    assert!(validate_event(&wrong_version).is_err());

    let unknown = event("file_changed");
    assert!(validate_event(&unknown).is_err());
}

#[test]
fn intent_started_requires_intent_text() {
    let missing = event("intent_started");
    assert!(required_intent(&missing).is_err());
}

#[test]
fn validation_rejects_oversized_run_reference() {
    let mut oversized = event("checkpoint");
    oversized.run_id = Some("r".repeat(201));
    let error = validate_event(&oversized).unwrap_err().to_string();
    assert_eq!(error, "run_id exceeds 200 UTF-8 bytes");
}

#[test]
fn string_limits_count_utf8_bytes() {
    let mut valid = event("run_started");
    valid.idempotency_key = "é".repeat(100);
    valid.name = Some("é".repeat(100));
    assert!(validate_event(&valid).is_ok());

    let mut oversized_key = event("run_started");
    oversized_key.idempotency_key = "é".repeat(101);
    assert_eq!(
        validate_event(&oversized_key).unwrap_err().to_string(),
        "idempotency_key must contain 1–200 UTF-8 bytes"
    );

    let mut oversized_name = event("run_started");
    oversized_name.name = Some("é".repeat(101));
    assert_eq!(
        validate_event(&oversized_name).unwrap_err().to_string(),
        "name exceeds 200 UTF-8 bytes"
    );
}

#[test]
fn checkpoint_requires_meaningful_name() {
    let mut checkpoint = event("checkpoint");
    checkpoint.name = Some("   ".to_string());
    assert!(required_checkpoint_name(&checkpoint).is_err());
    checkpoint.name = Some("tests pass".to_string());
    assert_eq!(required_checkpoint_name(&checkpoint).unwrap(), "tests pass");
}

#[test]
fn v2_requires_explicit_run_and_change_identity() {
    let mut started = event("run_started");
    started.version = 2;
    assert!(validate_event(&started).is_err());
    started.external_run_id = Some("conversation-1".to_string());
    assert!(validate_event(&started).is_ok());

    let mut change = event("change_started");
    change.version = 2;
    change.external_run_id = Some("conversation-1".to_string());
    assert!(validate_event(&change).is_err());
    change.external_change_id = Some("tool-1".to_string());
    change.paths = Some(vec!["src/main.rs".to_string()]);
    assert!(validate_event(&change).is_ok());
}

#[test]
fn canonical_request_hash_ignores_json_whitespace() {
    assert_eq!(
        request_hash(r#"{"version":2,"event":"run_started"}"#).unwrap(),
        request_hash("{ \"event\": \"run_started\", \"version\": 2 }").unwrap()
    );
}

#[test]
fn v2_resolution_uses_external_run_id_with_concurrent_runs() {
    let mut db = Database::open_in_memory().unwrap();
    let root = tempfile::tempdir().unwrap();
    let project = db
        .get_or_create_project(root.path().canonicalize().unwrap().to_str().unwrap())
        .unwrap();
    let first = db
        .start_reported_run(
            project.id,
            "first",
            "hook",
            "agent",
            Some("Cursor"),
            None,
            None,
            "cursor:first",
        )
        .unwrap();
    let second = db
        .start_reported_run(
            project.id,
            "second",
            "hook",
            "agent",
            Some("Codex"),
            None,
            None,
            "codex:second",
        )
        .unwrap();
    let mut event = event("checkpoint");
    event.version = 2;
    event.external_run_id = Some("cursor:first".to_string());

    assert_eq!(
        required_reported_run(&db, project.id, &event).unwrap().id,
        first.id
    );
    assert_ne!(first.id, second.id);
}
