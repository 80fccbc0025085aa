//! The recorded history: projects, events, Runs, checkpoints, recoveries.
use undo::cli::AgentKind;
use undo::db::Database;
use undo::models::{RecoveryEntry, Session, WatchedProject};

/// The word for the usual agent, and its name for people to read.
fn usual_names() -> (String, String) {
    let name = format!("{:?}", AgentKind::Claude);
    (name.to_lowercase(), format!("{name} Code"))
}

fn db() -> Database {
    Database::open_in_memory().expect("in-memory DB")
}

fn project(db: &mut Database) -> WatchedProject {
    db.get_or_create_project("/home/user/project")
        .expect("create project")
}

fn now() -> i64 {
    std::time::SystemTime::now()
        .duration_since(std::time::UNIX_EPOCH)
        .unwrap()
        .as_secs() as i64
}

/// One event ten days ago and one an hour ago.
fn seed_events(db: &mut Database, project_id: i64) {
    let now = now();
    for (at, path, hash) in [
        (now - 864_000, "/p/old.rs", "hash_old"),
        (now - 3600, "/p/new.rs", "hash_new"),
    ] {
        db.add_event(
            project_id,
            at,
            path,
            "MODIFIED",
            Some(hash),
            None,
            None,
            None,
            None,
        )
        .unwrap();
    }
}

/// Root path is persisted and returned correctly after project creation.
#[test]
fn create_project_stores_root_path() {
    let mut db = db();
    let p = project(&mut db);
    assert_eq!(p.root_path, "/home/user/project");
}

/// Calling get_or_create twice for the same root must return the same project ID.
#[test]
fn create_project_is_idempotent() {
    let mut db = db();
    let p1 = project(&mut db);
    let p2 = project(&mut db);
    assert_eq!(p1.id, p2.id);
}

/// An exact path match must find the project.
#[test]
fn find_project_exact_match() {
    let mut db = db();
    let created = project(&mut db);
    let found = db
        .find_project_for_path("/home/user/project")
        .unwrap()
        .unwrap();
    assert_eq!(found.id, created.id);
}

/// A path inside the watched root must resolve to that project.
#[test]
fn find_project_subdirectory_match() {
    let mut db = db();
    let created = project(&mut db);
    let found = db
        .find_project_for_path("/home/user/project/src/main.rs")
        .unwrap()
        .unwrap();
    assert_eq!(found.id, created.id);
}

/// A path with no parent project must return None rather than a wrong match.
#[test]
fn find_project_returns_none_for_unrelated_path() {
    let mut db = db();
    project(&mut db);
    let result = db
        .find_project_for_path("/other/entirely/different")
        .unwrap();
    assert!(result.is_none());
}

/// A path that shares a string prefix but is not a subdirectory must not match.
#[test]
fn find_project_no_false_positive_for_shared_string_prefix() {
    // "/home/user/project-evil" shares the string prefix "/home/user/project"
    // but is NOT a subdirectory of it — must not match.
    let mut db = db();
    project(&mut db);
    let result = db
        .find_project_for_path("/home/user/project-evil")
        .unwrap();
    assert!(result.is_none());
}

/// When two projects are nested, the deepest (most specific) match wins.
#[test]
fn find_project_returns_most_specific_nested_match() {
    let mut db = db();
    let parent = db.get_or_create_project("/a/b").unwrap();
    let child = db.get_or_create_project("/a/b/c").unwrap();
    let found = db
        .find_project_for_path("/a/b/c/src/main.rs")
        .unwrap()
        .unwrap();
    assert_eq!(found.id, child.id);
    assert_ne!(found.id, parent.id);
}

/// Inserting events increments the count returned by count_events.
#[test]
fn insert_events_and_count() {
    let mut db = db();
    let p = project(&mut db);
    db.insert_event(
        p.id,
        "/home/user/project/a.rs",
        "CREATED",
        Some("aaa"),
        None,
        None,
        None,
        Some(10),
    )
    .unwrap();
    db.insert_event(
        p.id,
        "/home/user/project/b.rs",
        "MODIFIED",
        Some("bbb"),
        Some("bbb0"),
        None,
        None,
        Some(20),
    )
    .unwrap();
    assert_eq!(db.count_events(p.id).unwrap(), 2);
}

#[test]
fn get_events_since_limited_returns_newest_events_within_window() {
    let mut db = db();
    let p = project(&mut db);
    for (path, timestamp) in [
        ("/home/user/project/outside-window.rs", 99),
        ("/home/user/project/first.rs", 100),
        ("/home/user/project/second.rs", 101),
        ("/home/user/project/third.rs", 102),
    ] {
        db.insert_event_at(p.id, path, "MODIFIED", timestamp)
            .unwrap();
    }

    let events = db.get_events_since_limited(p.id, 100, 2).unwrap();

    assert_eq!(events.len(), 2);
    assert_eq!(events[0].path, "/home/user/project/third.rs");
    assert_eq!(events[1].path, "/home/user/project/second.rs");
}

/// Same-second events must resolve deterministically to the newest inserted
/// row, otherwise preview and restore can disagree during rapid edits.
#[test]
fn get_event_at_time_breaks_timestamp_ties_by_id() {
    let mut db = db();
    let p = project(&mut db);
    let ts = now();
    for hash in ["first", "second"] {
        db.add_event(
            p.id,
            ts,
            "/home/user/project/a.rs",
            "MODIFIED",
            Some(hash),
            None,
            None,
            None,
            None,
        )
        .unwrap();
    }

    let event = db
        .get_event_at_time(p.id, "/home/user/project/a.rs", ts)
        .unwrap()
        .unwrap();
    assert_eq!(event.current_hash.as_deref(), Some("second"));
}

/// Deleted files with a previous hash are listed as recoverable in newest-first order.
#[test]
fn get_deleted_events_returns_recoverable_deletions() {
    let mut db = db();
    let p = project(&mut db);
    db.insert_event(
        p.id,
        "/home/user/project/gone.rs",
        "DELETED",
        None,
        Some("gone_hash"),
        None,
        None,
        None,
    )
    .unwrap();
    db.insert_event(
        p.id,
        "/home/user/project/bad.rs",
        "DELETED",
        None,
        None,
        None,
        None,
        None,
    )
    .unwrap();

    let deleted = db.get_deleted_events(p.id, 10).unwrap();
    assert_eq!(deleted.len(), 1);
    assert_eq!(deleted[0].path, "/home/user/project/gone.rs");
}

/// Repeating a checkpoint is idempotent: agent retries must never move a
/// recovery boundary forward.
#[test]
fn checkpoint_create_is_idempotent() {
    let mut db = db();
    let p = project(&mut db);
    db.create_checkpoint(p.id, "before refactor", 100).unwrap();
    db.create_checkpoint(p.id, "before refactor", 200).unwrap();

    let checkpoint = db
        .get_checkpoint(p.id, "before refactor")
        .unwrap()
        .expect("checkpoint exists");
    assert_eq!(checkpoint.timestamp, 100);

    let checkpoints = db.list_checkpoints(p.id).unwrap();
    assert_eq!(checkpoints.len(), 1);
    assert_eq!(checkpoints[0].name, "before refactor");
}

#[test]
fn checkpoint_names_can_repeat_across_runs() {
    let (_, label) = usual_names();
    let mut db = db();
    let p = project(&mut db);
    let first = db
        .start_run(
            p.id,
            "first",
            "run",
            "agent",
            Some(label.as_str()),
            None,
            None,
            None,
        )
        .unwrap();
    let (first_checkpoint, _) = db
        .save_checkpoint(p.id, Some(first.id), "validated", 100, None, now())
        .unwrap();
    db.complete_run(first.id, "completed").unwrap();

    let second = db
        .start_run(
            p.id,
            "second",
            "run",
            "agent",
            Some("Codex"),
            None,
            None,
            None,
        )
        .unwrap();
    let (second_checkpoint, _) = db
        .save_checkpoint(p.id, Some(second.id), "validated", 200, None, now())
        .unwrap();

    assert_ne!(first_checkpoint.id, second_checkpoint.id);
    assert_eq!(first_checkpoint.name, second_checkpoint.name);
    let error = db
        .get_checkpoint_by_ref(p.id, "validated")
        .unwrap_err()
        .to_string();
    assert!(error.contains("ambiguous"), "{error}");
    assert!(error.contains(&first_checkpoint.public_id()), "{error}");
    assert!(error.contains(&second_checkpoint.public_id()), "{error}");
    assert_eq!(
        db.get_checkpoint_by_ref(p.id, &second_checkpoint.public_id())
            .unwrap()
            .unwrap()
            .id,
        second_checkpoint.id
    );
}

/// Sessions are named windows over events: starting creates one active
/// window, stopping closes it, and list/show expose the same row.
#[test]
fn session_start_stop_list_and_show() {
    let mut db = db();
    let p = project(&mut db);

    let started = db.start_session(p.id, "agent-auth-work", "manual").unwrap();
    assert_eq!(started.name, "agent-auth-work");
    assert_eq!(started.kind, "manual");
    assert!(started.ended_at.is_none());

    let active = db.get_active_session(p.id).unwrap().unwrap();
    assert_eq!(active.id, started.id);

    let stopped = db.stop_active_session(p.id).unwrap().unwrap();
    assert_eq!(stopped.id, started.id);
    assert!(stopped.ended_at.is_some());
    assert!(db.get_active_session(p.id).unwrap().is_none());

    let by_name = db
        .get_session_by_name(p.id, "agent-auth-work")
        .unwrap()
        .unwrap();
    assert_eq!(by_name.id, started.id);

    let sessions = db.list_sessions(p.id).unwrap();
    assert_eq!(sessions.len(), 1);
    assert_eq!(sessions[0].name, "agent-auth-work");
}

#[test]
fn run_lifecycle_preserves_agent_identity_and_status() {
    let (word, label) = usual_names();
    let mut db = db();
    let p = project(&mut db);
    let started = db
        .start_run(
            p.id,
            "dashboard",
            "run",
            "agent",
            Some(label.as_str()),
            Some(word.as_str()),
            Some("Redesign dashboard"),
            Some("external-42"),
        )
        .unwrap();
    assert_eq!(started.public_id(), format!("r_{}", started.id));
    assert_eq!(started.actor, "agent");
    assert_eq!(started.agent.as_deref(), Some(label.as_str()));
    assert_eq!(started.status, "active");

    let completed = db.complete_run(started.id, "completed").unwrap();
    assert_eq!(completed.status, "completed");
    assert!(completed.ended_at.is_some());

    let retry = db
        .start_run(
            p.id,
            "ignored-retry-name",
            "run",
            "agent",
            Some(label.as_str()),
            None,
            None,
            Some("external-42"),
        )
        .unwrap();
    assert_eq!(retry.id, completed.id);
}

#[test]
fn missing_run_error_points_to_run_list() {
    let mut db = db();
    let error = db.complete_run(999, "completed").unwrap_err().to_string();

    assert!(error.contains("Run r_999 not found"), "{error}");
    assert!(error.contains("undo run list"), "{error}");
}

#[test]
fn intent_errors_explain_the_next_event() {
    let mut db = db();
    let p = project(&mut db);
    let run = db.start_session(p.id, "work", "manual").unwrap();
    db.start_run_intent_at(run.id, "first task", 0, 10).unwrap();

    let already_active = db
        .start_run_intent_at(run.id, "second task", 0, 11)
        .unwrap_err()
        .to_string();
    assert!(already_active.contains("already has an active intent"));
    assert!(already_active.contains("Complete it before starting another"));

    let wrong_intent = db
        .complete_run_intent_at(run.id, Some("second task"), 0, 12)
        .unwrap_err()
        .to_string();
    assert!(wrong_intent.contains("active intent 'first task'"));
    assert!(wrong_intent.contains("omit 'intent'"));

    db.complete_run_intent_at(run.id, None, 0, 13).unwrap();
    let no_active = db
        .complete_run_intent_at(run.id, None, 0, 14)
        .unwrap_err()
        .to_string();
    assert!(no_active.contains("Send intent_started before intent_completed"));
}

#[test]
fn run_completion_closes_active_intent_at_the_same_boundary() {
    let mut db = db();
    let p = project(&mut db);
    let run = db.start_session(p.id, "intent-boundary", "manual").unwrap();
    db.start_run_intent(run.id, "edit auth").unwrap();
    db.insert_event(
        p.id,
        "/home/user/project/src/auth.rs",
        "MODIFIED",
        Some("new_hash"),
        Some("old_hash"),
        None,
        None,
        Some(10),
    )
    .unwrap();

    let completed = db.complete_run(run.id, "completed").unwrap();
    let intents = db.list_run_intents(run.id).unwrap();

    assert_eq!(intents.len(), 1);
    assert_eq!(intents[0].end_event_id, completed.end_event_id);
    assert_eq!(intents[0].ended_at, completed.ended_at);
}

#[test]
fn checkpoint_now_captures_the_latest_committed_event() {
    let mut db = db();
    let p = project(&mut db);
    db.insert_event(
        p.id,
        "/home/user/project/src/checkpoint.rs",
        "MODIFIED",
        Some("new_hash"),
        None,
        None,
        None,
        Some(10),
    )
    .unwrap();

    let (checkpoint, created) = db
        .create_checkpoint_now(p.id, None, "latest", None)
        .unwrap();

    assert!(created);
    assert_eq!(checkpoint.event_id, Some(db.max_event_id(p.id).unwrap()));
}

#[test]
fn recovery_plan_and_entries_round_trip() {
    let mut db = db();
    let p = project(&mut db);
    let recovery = db
        .create_recovery(
            p.id,
            None,
            "remove auth",
            "intent",
            "explicit-intent",
            None,
            &vec![RecoveryEntry {
                recovery_id: 0,
                path: "/home/user/project/auth.rs".to_string(),
                action: "WRITE".to_string(),
                target_hash: Some("before".to_string()),
                source_timestamp: Some(10),
                expected_hash: Some("after".to_string()),
                expected_exists: true,
            }],
        )
        .unwrap();
    assert_eq!(recovery.status, "planned");
    let entries = db.get_recovery_entries(recovery.id).unwrap();
    assert_eq!(entries.len(), 1);
    assert_eq!(entries[0].expected_hash.as_deref(), Some("after"));

    db.mark_recovery_applied(recovery.id).unwrap();
    let applied = db
        .get_recovery_by_ref(p.id, &recovery.public_id())
        .unwrap()
        .unwrap();
    assert_eq!(applied.status, "applied");
}

/// A project can only have one active session; otherwise new events would be
/// ambiguously attributed.
#[test]
fn session_start_rejects_existing_active_session() {
    let mut db = db();
    let p = project(&mut db);

    db.start_session(p.id, "first", "manual").unwrap();
    let err = db.start_session(p.id, "second", "manual").unwrap_err();
    assert!(err.to_string().contains("already active"), "{}", err.to_string());
}

#[test]
fn two_reported_runs_can_be_active_and_singleton_lookup_is_ambiguous() {
    let (word, label) = usual_names();
    let mut db = db();
    let p = project(&mut db);
    let first = db
        .start_reported_run(
            p.id,
            "first",
            "hook",
            "agent",
            Some("Cursor"),
            None,
            None,
            "cursor:first",
        )
        .unwrap();
    let second = db
        .start_reported_run(
            p.id,
            "second",
            "hook",
            "agent",
            Some(label.as_str()),
            None,
            None,
            &format!("{word}:second"),
        )
        .unwrap();

    let active = db.list_active_runs(p.id).unwrap();
    assert_eq!(active.len(), 2);
    assert!(active.iter().all(Session::is_reported));
    let error = db.get_active_session(p.id).unwrap_err().to_string();
    assert!(error.contains("multiple Runs are active"), "{error}");
    assert!(error.contains(&first.public_id()), "{error}");
    assert!(error.contains(&second.public_id()), "{error}");
}

#[test]
fn window_and_reported_active_runs_cannot_mix() {
    let mut db = db();
    let p = project(&mut db);
    let reported = db
        .start_reported_run(
            p.id,
            "reported",
            "hook",
            "agent",
            Some("Cursor"),
            None,
            None,
            "cursor:reported",
        )
        .unwrap();
    assert!(db.start_session(p.id, "window", "manual").is_err());
    db.complete_run(reported.id, "completed").unwrap();

    db.start_session(p.id, "window", "manual").unwrap();
    let error = db
        .start_reported_run(
            p.id,
            "reported-two",
            "hook",
            "agent",
            Some("Codex"),
            None,
            None,
            "codex:reported",
        )
        .unwrap_err()
        .to_string();
    assert!(error.contains("window attribution"), "{error}");
}

#[test]
fn reported_run_without_claims_has_no_interval_fallback() {
    let mut db = db();
    let p = project(&mut db);
    let run = db
        .start_reported_run(
            p.id,
            "reported",
            "hook",
            "agent",
            Some("Cursor"),
            None,
            None,
            "cursor:zero",
        )
        .unwrap();
    let unclaimed = "/home/user/project/unclaimed.rs".to_string();
    db.open_run_boundary(run.id, "left-open", &vec![unclaimed.clone()])
        .unwrap();
    db.insert_event(
        p.id,
        &unclaimed,
        "MODIFIED",
        Some("new"),
        Some("old"),
        None,
        None,
        Some(1),
    )
    .unwrap();
    let completed = db.complete_run(run.id, "completed").unwrap();

    assert!(db.get_session_events(&completed).unwrap().is_empty());
    assert_eq!(db.count_run_claimed_events(run.id).unwrap(), 0);
    assert_eq!(
        db.get_run_boundary_by_external_id(run.id, "left-open")
            .unwrap()
            .unwrap()
            .status,
        "aborted"
    );
}

#[test]
fn overlapping_reported_claims_are_collision_and_disjoint_claims_are_exclusive() {
    let mut db = db();
    let p = project(&mut db);
    let first = db
        .start_reported_run(
            p.id,
            "first",
            "hook",
            "agent",
            Some("Cursor"),
            None,
            None,
            "cursor:collision",
        )
        .unwrap();
    let second = db
        .start_reported_run(
            p.id,
            "second",
            "hook",
            "agent",
            Some("Codex"),
            None,
            None,
            "codex:collision",
        )
        .unwrap();
    let shared = "/home/user/project/shared.rs".to_string();
    db.open_run_boundary(first.id, "first-shared", &vec![shared.clone()])
        .unwrap();
    db.open_run_boundary(second.id, "second-shared", &vec![shared.clone()])
        .unwrap();
    db.insert_event(
        p.id,
        &shared,
        "MODIFIED",
        Some("new"),
        Some("old"),
        None,
        None,
        Some(1),
    )
    .unwrap();
    db.close_run_boundary(first.id, "first-shared", &vec![shared.clone()])
        .unwrap();
    db.close_run_boundary(second.id, "second-shared", &vec![shared.clone()])
        .unwrap();
    let event_id = db.max_event_id(p.id).unwrap();
    assert_eq!(db.event_claim_count(event_id).unwrap(), 2);
    assert_eq!(
        db.classify_run_path_ownership(first.id, &shared).unwrap(),
        "collision"
    );

    let first_only = "/home/user/project/first.rs".to_string();
    let second_only = "/home/user/project/second.rs".to_string();
    db.open_run_boundary(first.id, "first-only", &vec![first_only.clone()])
        .unwrap();
    db.insert_event(
        p.id,
        &first_only,
        "MODIFIED",
        Some("new"),
        Some("old"),
        None,
        None,
        Some(1),
    )
    .unwrap();
    db.close_run_boundary(first.id, "first-only", &vec![first_only.clone()])
        .unwrap();
    db.open_run_boundary(second.id, "second-only", &vec![second_only.clone()])
        .unwrap();
    db.insert_event(
        p.id,
        &second_only,
        "MODIFIED",
        Some("new"),
        Some("old"),
        None,
        None,
        Some(1),
    )
    .unwrap();
    db.close_run_boundary(second.id, "second-only", &vec![second_only.clone()])
        .unwrap();

    assert_eq!(
        db.classify_run_path_ownership(first.id, &first_only)
            .unwrap(),
        "exclusive"
    );
    assert_eq!(
        db.classify_run_path_ownership(second.id, &second_only)
            .unwrap(),
        "exclusive"
    );
}

#[test]
fn reported_claim_matches_rename_old_path() {
    let mut db = db();
    let p = project(&mut db);
    let run = db
        .start_reported_run(
            p.id,
            "rename",
            "hook",
            "agent",
            Some("Cursor"),
            None,
            None,
            "cursor:rename",
        )
        .unwrap();
    let old = "/home/user/project/old.rs".to_string();
    let new = "/home/user/project/new.rs".to_string();
    db.open_run_boundary(run.id, "rename-tool", &vec![old.clone()])
        .unwrap();
    db.insert_event(
        p.id,
        &new,
        "RENAMED",
        Some("hash"),
        Some("hash"),
        None,
        Some(&old),
        Some(1),
    )
    .unwrap();
    db.close_run_boundary(run.id, "rename-tool", &vec![old.clone()])
        .unwrap();

    let events = db.get_session_events(&run).unwrap();
    assert_eq!(events.len(), 1);
    assert_eq!(events[0].old_path.as_deref(), Some(old.as_str()));
}

#[test]
fn integration_idempotency_rejects_hash_mismatch_and_replays_match() {
    let mut db = db();
    db.record_integration_response("key-1", "hash-a", None, "run_started", r#"{"ok":true}"#)
        .unwrap();
    assert_eq!(
        db.get_integration_response("key-1", "hash-a")
            .unwrap()
            .as_deref(),
        Some(r#"{"ok":true}"#)
    );
    let error = db
        .get_integration_response("key-1", "hash-b")
        .unwrap_err()
        .to_string();
    assert!(error.contains("different payload"), "{error}");
}

/// Stopping a session snapshots the events that landed inside its time
/// window into session_events, so later recovery can use stable membership.
#[test]
fn session_stop_links_events_in_window() {
    let mut db = db();
    let p = project(&mut db);
    let session = db.start_session(p.id, "agent-run", "manual").unwrap();
    db.insert_event(
        p.id,
        "/home/user/project/src/auth.rs",
        "MODIFIED",
        Some("auth_hash"),
        Some("old_auth_hash"),
        None,
        None,
        Some(10),
    )
    .unwrap();

    let stopped = db.stop_active_session(p.id).unwrap().unwrap();
    assert_eq!(stopped.id, session.id);

    let events = db.get_session_events(&stopped).unwrap();
    assert_eq!(events.len(), 1);
    assert_eq!(events[0].path, "/home/user/project/src/auth.rs");
}

/// Event-id anchors keep same-second baseline events out of the session. A
/// timestamp-only window would include both rows because all calls can land
/// inside one second.
#[test]
fn session_events_exclude_same_second_events_before_start() {
    let mut db = db();
    let p = project(&mut db);
    db.insert_event(
        p.id,
        "/home/user/project/src/baseline.rs",
        "MODIFIED",
        Some("baseline_hash"),
        None,
        None,
        None,
        Some(10),
    )
    .unwrap();
    let session = db.start_session(p.id, "agent-run", "manual").unwrap();
    assert!(session.start_event_id > 0);
    db.insert_event(
        p.id,
        "/home/user/project/src/agent.rs",
        "MODIFIED",
        Some("agent_hash"),
        Some("baseline_hash"),
        None,
        None,
        Some(10),
    )
    .unwrap();

    let stopped = db.stop_active_session(p.id).unwrap().unwrap();
    let paths = db
        .get_session_events(&stopped)
        .unwrap()
        .into_iter()
        .map(|event| event.path)
        .collect::<Vec<_>>();

    assert_eq!(paths, vec!["/home/user/project/src/agent.rs"]);
}

/// File state written with upsert must be readable back with the correct
/// hash, exists_now flag, and the size/mtime used to skip no-op modifications.
#[test]
fn upsert_and_retrieve_file_state() {
    let mut db = db();
    let p = project(&mut db);
    let path = "/home/user/project/main.rs";
    db.upsert_file_state(p.id, path, "deadbeef", true, 1234, Some(987_654_321))
        .unwrap();
    let state = db.get_file_state(p.id, path).unwrap().unwrap();
    assert_eq!(state.latest_hash, Some("deadbeef".to_string()));
    assert!(state.exists_now);
    assert_eq!(state.size, Some(1234));
    assert_eq!(state.mtime_nanos, Some(987_654_321));
}

/// Only events older than the cutoff timestamp are included in the count.
#[test]
fn count_events_before_counts_old_events() {
    let mut db = db();
    let p = project(&mut db);
    seed_events(&mut db, p.id);
    let now = now();
    let cutoff = now - 86400; // 1 day ago
    assert_eq!(db.count_events_before(p.id, cutoff).unwrap(), 1);
}

/// Events older than the cutoff are deleted; newer events are kept.
#[test]
fn delete_events_before_removes_old_events() {
    let mut db = db();
    let p = project(&mut db);
    seed_events(&mut db, p.id);
    let now = now();
    let cutoff = now - 86400;
    let deleted = db.delete_events_before(p.id, cutoff).unwrap();
    assert_eq!(deleted, 1);
    assert_eq!(db.count_events(p.id).unwrap(), 1);
}

/// All hashes referenced by current events are returned as live.
#[test]
fn get_live_hashes_returns_referenced_hashes() {
    let mut db = db();
    let p = project(&mut db);
    seed_events(&mut db, p.id);
    let hashes = db.get_live_hashes(p.id).unwrap();
    assert!(hashes.contains(&"hash_old".to_string()));
    assert!(hashes.contains(&"hash_new".to_string()));
    assert_eq!(hashes.len(), 2);
}

/// After pruning old events, their hashes are no longer live.
#[test]
fn get_live_hashes_after_prune_excludes_deleted() {
    let mut db = db();
    let p = project(&mut db);
    seed_events(&mut db, p.id);
    let now = now();
    db.delete_events_before(p.id, now - 86400).unwrap();
    let hashes = db.get_live_hashes(p.id).unwrap();
    assert!(!hashes.contains(&"hash_old".to_string()));
    assert!(hashes.contains(&"hash_new".to_string()));
}

/// A hash referenced only by file_state (the file's current on-disk content,
/// whose creating event has already been pruned) must still be considered live —
/// otherwise retention would orphan the only snapshot of an existing file.
#[test]
fn get_live_hashes_includes_file_state_latest_hash() {
    let mut db = db();
    let p = project(&mut db);
    // No events exist for this path; only file_state references the hash.
    db.upsert_file_state(p.id, "/p/extant.rs", "fs_only_hash", true, 0, None)
        .unwrap();
    let hashes = db.get_live_hashes(p.id).unwrap();
    assert!(
        hashes.contains(&"fs_only_hash".to_string()),
        "file_state.latest_hash must be considered live: {:?}",
        hashes
    );
}

/// A file_state row whose `exists_now = 0` must NOT pin its `latest_hash`
/// as live. `mark_deleted` only flips `exists_now` and leaves
/// `latest_hash` intact, so without the `exists_now = 1` filter every
/// file the user ever deletes anchors its snapshot forever and retention
/// can never reclaim that disk space — defeating the size cap.
///
/// This also separately verifies the orphan path: once the only event
/// referencing the hash is pruned and the file is marked deleted,
/// nothing pins the snapshot.
#[test]
fn get_live_hashes_excludes_deleted_file_state_rows() {
    let mut db = db();
    let p = project(&mut db);
    let path = "/p/old_and_gone.rs";

    // Track the file, then mark it deleted (mimicking `handle_delete`,
    // which leaves `latest_hash` populated).
    db.upsert_file_state(p.id, path, "ghost_hash", true, 0, None)
        .unwrap();
    db.mark_deleted(p.id, path).unwrap();
    let state = db.get_file_state(p.id, path).unwrap().unwrap();
    assert!(!state.exists_now, "test setup: file must be marked deleted");
    assert_eq!(
        state.latest_hash.as_deref(),
        Some("ghost_hash"),
        "test setup: latest_hash must persist past mark_deleted — only the flag changes"
    );

    // No events reference ghost_hash.
    let hashes = db.get_live_hashes(p.id).unwrap();
    assert!(
        !hashes.contains(&"ghost_hash".to_string()),
        "deleted file's latest_hash must not be live: {:?}",
        hashes
    );
}

/// A surviving DELETED event must keep its `previous_hash` (the file's last
/// captured content) alive, so a just-deleted file whose creating event has
/// aged out of retention is still recoverable. Without this pin the only
/// snapshot of the deleted file is orphaned and pruned immediately.
#[test]
fn get_live_hashes_pins_deleted_event_previous_hash() {
    let mut db = db();
    let p = project(&mut db);
    let path = "/home/user/project/gone.rs";

    // Simulate handle_delete: a DELETED event whose previous_hash is the
    // last known content, and no surviving non-DELETE event for the path.
    db.insert_event(
        p.id,
        path,
        "DELETED",
        None,
        Some("last_content_hash"),
        None,
        None,
        None,
    )
    .unwrap();

    let hashes = db.get_live_hashes(p.id).unwrap();
    assert!(
        hashes.contains(&"last_content_hash".to_string()),
        "a deleted file's last content must stay live while its DELETED \
         event survives: {:?}",
        hashes
    );
}

/// A surviving MODIFIED event's `previous_hash` can be the only reference to
/// content overwritten by a rename-overwrite event sequence on Linux. Keep it
/// live while the event itself remains inside the retention window.
#[test]
fn get_live_hashes_pins_modified_event_previous_hash() {
    let mut db = db();
    let p = project(&mut db);
    let path = "/home/user/project/modified.rs";

    db.insert_event(
        p.id,
        path,
        "MODIFIED",
        Some("new_content_hash"),
        Some("old_content_hash"),
        None,
        None,
        None,
    )
    .unwrap();

    let hashes = db.get_live_hashes(p.id).unwrap();
    assert!(
        hashes.contains(&"new_content_hash".to_string()),
        "current_hash from MODIFIED event must stay live: {:?}",
        hashes
    );
    assert!(
        hashes.contains(&"old_content_hash".to_string()),
        "previous_hash from surviving MODIFIED event must stay live: {:?}",
        hashes
    );
}

/// Once the event carrying a `previous_hash` ages out, that hash is no
/// longer pinned just because it used to be previous content.
#[test]
fn get_live_hashes_drops_previous_hash_after_event_prune() {
    let mut db = db();
    let p = project(&mut db);
    let path = "/home/user/project/modified.rs";

    db.insert_event(
        p.id,
        path,
        "MODIFIED",
        Some("new_content_hash"),
        Some("old_content_hash"),
        None,
        None,
        None,
    )
    .unwrap();
    db.delete_events_before(p.id, i64::MAX).unwrap();

    let hashes = db.get_live_hashes(p.id).unwrap();
    assert!(
        !hashes.contains(&"old_content_hash".to_string()),
        "previous_hash must not remain live after its event is pruned: {:?}",
        hashes
    );
}

/// Returns the most recent DELETED event so restore can fall back to its
/// previous_hash; returns None when the file was never deleted.
#[test]
fn get_latest_deleted_event_finds_deletion() {
    let mut db = db();
    let p = project(&mut db);
    let path = "/home/user/project/gone.rs";

    assert!(
        db.get_latest_deleted_event(p.id, path).unwrap().is_none(),
        "no deletion recorded yet"
    );

    db.insert_event(
        p.id,
        path,
        "DELETED",
        None,
        Some("prev_hash"),
        None,
        None,
        None,
    )
    .unwrap();

    let ev = db.get_latest_deleted_event(p.id, path).unwrap().unwrap();
    assert_eq!(ev.event_type, "DELETED");
    assert_eq!(ev.previous_hash.as_deref(), Some("prev_hash"));
}

/// All created project IDs appear in the returned list.
#[test]
fn get_all_project_ids_returns_existing_projects() {
    let mut db = db();
    let p1 = db.get_or_create_project("/a").unwrap();
    let p2 = db.get_or_create_project("/b").unwrap();
    let ids = db.get_all_project_ids().unwrap();
    assert!(ids.contains(&p1.id));
    assert!(ids.contains(&p2.id));
}

/// Returns the most recently timestamped event for the given path.
#[test]
fn get_latest_event_returns_most_recent() {
    let mut db = db();
    let p = project(&mut db);
    let path = "/home/user/project/foo.rs";
    // Insert two events for the same path via insert_event_at so we control ordering.
    let now = now();
    db.insert_event_at(p.id, path, "CREATED", now - 100)
        .unwrap();
    db.insert_event_at(p.id, path, "MODIFIED", now - 10)
        .unwrap();
    let event = db.get_latest_event(p.id, path).unwrap().unwrap();
    assert_eq!(event.event_type, "MODIFIED");
}

/// Events inserted in one transaction can share the same second-precision
/// timestamp. Tie-break by row id so the later insert is the latest event.
#[test]
fn get_latest_event_tie_breaks_same_timestamp_by_insert_order() {
    let mut db = db();
    let p = project(&mut db);
    let path = "/home/user/project/renamed_over.rs";

    db.insert_event(
        p.id,
        path,
        "DELETED",
        None,
        Some("overwritten_hash"),
        None,
        None,
        None,
    )
    .unwrap();
    db.insert_event(
        p.id,
        path,
        "RENAMED",
        Some("new_hash"),
        Some("source_hash"),
        None,
        Some("/home/user/project/source.rs"),
        None,
    )
    .unwrap();

    let event = db.get_latest_event(p.id, path).unwrap().unwrap();
    assert_eq!(event.event_type, "RENAMED");
    assert_eq!(event.current_hash.as_deref(), Some("new_hash"));
}

/// DELETED events are never returned as restorable; only non-delete events at or before the
/// given timestamp are considered.
#[test]
fn get_event_at_time_excludes_deleted_and_respects_cutoff() {
    let mut db = db();
    let p = project(&mut db);
    let path = "/home/user/project/bar.rs";
    let now = now();
    // Seed: CREATED long ago, MODIFIED in the middle, DELETED recently.
    db.insert_event_at(p.id, path, "CREATED", now - 300)
        .unwrap();
    db.insert_event_at(p.id, path, "MODIFIED", now - 200)
        .unwrap();
    db.insert_event_at(p.id, path, "DELETED", now - 100)
        .unwrap();

    // Querying at now-150 should return MODIFIED (newest non-DELETE at or before that point).
    let event = db
        .get_event_at_time(p.id, path, now - 150)
        .unwrap()
        .unwrap();
    assert_eq!(event.event_type, "MODIFIED");

    // Querying before any event returns None.
    let none = db.get_event_at_time(p.id, path, now - 1000).unwrap();
    assert!(none.is_none());
}

/// After mark_deleted the file's exists_now flag is false, signalling it is gone from disk.
#[test]
fn mark_deleted_sets_exists_now_false() {
    let mut db = db();
    let p = project(&mut db);
    let path = "/home/user/project/gone.rs";
    db.upsert_file_state(p.id, path, "abc123", true, 0, None)
        .unwrap();
    // Confirm it's alive before we delete it.
    assert!(db.get_file_state(p.id, path).unwrap().unwrap().exists_now);
    db.mark_deleted(p.id, path).unwrap();
    let state = db.get_file_state(p.id, path).unwrap().unwrap();
    assert!(!state.exists_now);
}

