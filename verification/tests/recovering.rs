//! Recoveries: what they are made from, what stops them, and what they do.
use undo::db::Database;
use undo::hex::hash_bytes;
use undo::intent_recovery::{
    create_intent_recovery, current_matches_stored, plan_inverse_intent_path, SavedCopy,
    StoredState,
};
use undo::models::{RecoveryEntry, WatchedProject};
use undo::places::{places_to_check, Place};
use undo::recoveries::{
    create_event_boundary_recovery_in, create_run_recovery_in, create_timestamp_recovery_in,
    ensure_reported_paths_recoverable,
};
use undo::recovery_apply::{
    apply_recovery_in, apply_recovery_paths_in, confidence_label, ensure_recovery_is_applicable,
    finish_apply, preflight_entries, recovery_entries_to_plan, ApplyStart,
};
use undo::restore::{
    plan_paths_restore_at_session_start, plan_restore, plan_restore_at_event_id, RestoreAction,
    RestoreKind,
};
use undo::restore_fs::{CappedRead, Leaf, ProjectPath, Spot};

const ROOT: &str = "/home/user/project";

fn setup() -> (Database, WatchedProject) {
    let mut db = Database::open_in_memory().unwrap();
    let project = db.get_or_create_project(ROOT).unwrap();
    (db, project)
}

fn at(relative: &str) -> String {
    format!("{ROOT}/{relative}")
}

fn now() -> i64 {
    chrono::Utc::now().timestamp()
}

/// A file that is there, with its contents.
fn file(relative: &str, content: &[u8]) -> Spot {
    Spot {
        relative: relative.to_string(),
        leaf: Leaf::File,
        read: CappedRead::Content(content.to_vec()),
    }
}

/// A path at which nothing is.
fn gone(relative: &str, leaf: Leaf) -> Spot {
    Spot {
        relative: relative.to_string(),
        leaf,
        read: CappedRead::Missing,
    }
}

/// The disk that holds the project's folder and some files of it.
fn disk(files: &[&str]) -> Vec<Place> {
    let mut places = vec![Place {
        path: ROOT.to_string(),
        canonical: ROOT.to_string(),
        directory: true,
    }];
    for relative in files {
        places.push(Place {
            path: at(relative),
            canonical: at(relative),
            directory: false,
        });
    }
    places
}

fn copy(content: &[u8]) -> SavedCopy {
    SavedCopy {
        hash: hash_bytes(content),
        content: Some(content.to_vec()),
        error: String::new(),
    }
}

fn changed(db: &mut Database, project: &WatchedProject, path: &str, kind: &str, after: Option<&str>, before: Option<&str>, old: Option<&str>) {
    db.insert_event(project.id, path, kind, after, before, None, old, Some(7))
        .unwrap();
}

fn removal(path: &str, expected: &[u8]) -> RecoveryEntry {
    RecoveryEntry {
        recovery_id: 0,
        path: path.to_string(),
        action: "DELETE".to_string(),
        target_hash: None,
        source_timestamp: None,
        expected_hash: Some(hash_bytes(expected)),
        expected_exists: true,
    }
}

#[test]
fn current_state_matches_present_and_absent_states() {
    assert!(current_matches_stored(
        true,
        &Some("abc".to_string()),
        &StoredState::Present {
            hash: "abc".to_string(),
            timestamp: 1,
        }
    ));
    assert!(current_matches_stored(false, &None, &StoredState::Absent));
    assert!(!current_matches_stored(false, &None, &StoredState::Unknown));
}

/// Takes one recorded change back in contents that have changed since.
fn taken_back(before: &[u8], after: &[u8], current: &[u8]) -> Result<Vec<u8>, String> {
    let (mut db, project) = setup();
    changed(&mut db, &project, &at("a.conf"), "MODIFIED", Some(&hash_bytes(after)), Some(&hash_bytes(before)), None);
    let target = ProjectPath::from_stored(ROOT, &at("a.conf")).unwrap();
    let end = db.max_event_id(project.id).unwrap();
    plan_inverse_intent_path(
        &db,
        project.id,
        &target,
        &at("a.conf"),
        0,
        end,
        &CappedRead::Content(current.to_vec()),
        &vec![copy(before), copy(after)],
    )
    .map(|step| step.expect("a step").keep.expect("new contents").1)
    .map_err(|error| error.to_string())
}

#[test]
fn inverse_patch_preserves_non_overlapping_later_changes() {
    let before = b"header\nauth = old\nfooter\n";
    let after = b"header\nauth = agent\nfooter\n";
    let current = b"header\nauth = agent\nfooter\ndashboard = kept\n";
    let result = taken_back(before, after, current).unwrap();
    assert_eq!(result, b"header\nauth = old\nfooter\ndashboard = kept\n");
}

#[test]
fn inverse_patch_rejects_overlapping_later_changes() {
    let before = b"auth = old\n";
    let after = b"auth = agent\n";
    let current = b"auth = human-followup\n";
    assert!(taken_back(before, after, current).is_err());
}

#[test]
fn intent_recovery_skips_file_already_reverted_to_before_state() {
    let (mut db, project) = setup();
    let before = b"setting = before\n";
    let after = b"setting = after\n";
    let path = at("config.txt");
    let start = db.max_event_id(project.id).unwrap();
    changed(&mut db, &project, &path, "MODIFIED", Some(&hash_bytes(after)), Some(&hash_bytes(before)), None);
    let end = db.max_event_id(project.id).unwrap();
    let target = ProjectPath::from_stored(ROOT, &path).unwrap();

    let entry = plan_inverse_intent_path(
        &db,
        project.id,
        &target,
        &path,
        start,
        end,
        &CappedRead::Content(before.to_vec()),
        &vec![copy(before), copy(after)],
    )
    .unwrap();

    assert!(entry.is_none(), "already-reverted file needs no recovery");
}

/// A finished task is taken back file by file.
#[test]
fn a_task_is_taken_back() {
    let (mut db, project) = setup();
    let run = db
        .start_run(project.id, "work", "run", "agent", None, None, None, None)
        .unwrap();
    db.start_run_intent(run.id, "auth").unwrap();
    changed(&mut db, &project, &at("auth.rs"), "MODIFIED", Some(&hash_bytes(b"new")), Some(&hash_bytes(b"old")), None);
    let task = db.complete_run_intent(run.id, None).unwrap();
    let run = db.complete_run(run.id, "completed").unwrap();
    let made = create_intent_recovery(
        &mut db,
        &project,
        &run,
        &task,
        "undo auth",
        &vec![file("auth.rs", b"new")],
        &vec![copy(b"old"), copy(b"new")],
        now(),
    )
    .unwrap();
    assert_eq!(made.recovery.confidence, "explicit-intent");
    let rows = db.get_recovery_entries(made.recovery.id).unwrap();
    assert_eq!(rows.len(), 1);
    assert_eq!(rows[0].target_hash, Some(hash_bytes(b"old")));
    assert_eq!(rows[0].expected_hash, Some(hash_bytes(b"new")));
}

#[test]
fn persisted_recovery_rejects_parent_components() {
    let project = WatchedProject {
        id: 1,
        root_path: "/project".to_string(),
        created_at: 0,
    };
    let entry = RecoveryEntry {
        recovery_id: 1,
        path: "/project/src/../../outside".to_string(),
        action: "DELETE".to_string(),
        target_hash: None,
        source_timestamp: None,
        expected_hash: None,
        expected_exists: false,
    };

    assert!(recovery_entries_to_plan(&project.root_path, &vec![entry], now()).is_err());
}

#[test]
fn confidence_values_are_humanized_only_for_display() {
    assert_eq!(
        confidence_label("explicit-intent"),
        "High — matched a completed task boundary"
    );
    assert_eq!(
        confidence_label("path-match"),
        "Medium — matched file and folder names"
    );
    assert_eq!(
        confidence_label("exact-paths"),
        "High — exact selected files"
    );
    assert_eq!(
        confidence_label("exact-timestamp"),
        "High — exact saved time"
    );
    assert_eq!(
        confidence_label("ambiguous"),
        "Needs review — changes overlap"
    );
    assert_eq!(confidence_label("future-value"), "future-value");
}

#[test]
fn reported_recovery_blocks_collision_and_interleaving() {
    let (mut db, project) = setup();
    let absolute = at("src/main.rs");
    let first = db
        .start_reported_run(project.id, "first", "hook", "agent", Some("Cursor"), None, None, "cursor:first-recovery")
        .unwrap();
    let second = db
        .start_reported_run(project.id, "second", "hook", "agent", Some("Codex"), None, None, "codex:second-recovery")
        .unwrap();
    let paths = vec![absolute.clone()];
    db.open_run_boundary(first.id, "first-change", &paths).unwrap();
    db.open_run_boundary(second.id, "second-change", &paths).unwrap();
    changed(&mut db, &project, &absolute, "MODIFIED", Some("new"), Some("old"), None);
    db.close_run_boundary(first.id, "first-change", &paths).unwrap();
    db.close_run_boundary(second.id, "second-change", &paths).unwrap();
    let there = disk(&["src/main.rs", "src/other.rs"]);
    let selected = vec!["src/main.rs".to_string()];
    let collision =
        ensure_reported_paths_recoverable(&db, &project, ROOT, &first, &selected, &there)
            .unwrap_err()
            .to_string();
    assert!(collision.contains("collision"), "{collision}");

    let other = at("src/other.rs");
    let paths = vec![other.clone()];
    db.open_run_boundary(first.id, "exclusive", &paths).unwrap();
    changed(&mut db, &project, &other, "MODIFIED", Some("run"), Some("old"), None);
    db.close_run_boundary(first.id, "exclusive", &paths).unwrap();
    let selected = vec!["src/other.rs".to_string()];
    assert!(
        ensure_reported_paths_recoverable(&db, &project, ROOT, &first, &selected, &there).is_ok()
    );
    changed(&mut db, &project, &other, "MODIFIED", Some("later"), Some("run"), None);
    let interleaved =
        ensure_reported_paths_recoverable(&db, &project, ROOT, &first, &selected, &there)
            .unwrap_err()
            .to_string();
    assert!(interleaved.contains("interleaved"), "{interleaved}");
}

#[test]
fn preflight_rejects_file_changed_after_preview() {
    let conflicts = preflight_entries(
        ROOT,
        &vec![removal(&at("auth.rs"), b"previewed")],
        &vec![file("auth.rs", b"changed later")],
        &Vec::new(),
    )
    .unwrap();
    assert_eq!(conflicts, vec!["auth.rs"]);
}

#[test]
fn selected_apply_uses_derived_plan_and_preserves_source() {
    let (mut db, project) = setup();
    let entries = vec![removal(&at("first.txt"), b"first"), removal(&at("second.txt"), b"second")];
    let source = db
        .create_recovery(project.id, None, "restore preview", "timestamp", "exact-timestamp", None, &entries)
        .unwrap();

    let selected = vec!["first.txt".to_string()];
    let derived =
        apply_recovery_paths_in(&mut db, &project, &source.public_id(), &selected, now()).unwrap();
    assert_ne!(derived, source.public_id());
    let spots = vec![file("first.txt", b"first"), file("second.txt", b"second")];
    let started =
        apply_recovery_in(&mut db, &project, &derived, &spots, &Vec::new(), now()).unwrap();
    let (recovery, plan) = match started {
        ApplyStart::Go(recovery, plan) => (recovery, plan),
        other => panic!("{other:?}"),
    };
    assert_eq!(plan.entries.len(), 1);
    assert_eq!(plan.entries[0].path.relative(), "first.txt");
    let outcome = finish_apply(&mut db, project.id, &recovery, 1, None, now()).unwrap();

    assert_eq!(outcome.files_changed, 1);
    assert_ne!(outcome.recovery.id, source.id);
    assert_eq!(outcome.recovery.status, "applied");
    let unchanged_source = db
        .get_recovery_by_ref(project.id, &source.public_id())
        .unwrap()
        .unwrap();
    assert_eq!(unchanged_source.status, "planned");
    assert_eq!(db.get_recovery_entries(outcome.recovery.id).unwrap().len(), 1);

    // Applied once, it is not applied again.
    assert!(matches!(
        apply_recovery_in(&mut db, &project, &derived, &spots, &Vec::new(), now()).unwrap(),
        ApplyStart::Already(told)
            if told.already_applied && told.files_changed == 0
                && told.recovery.id == outcome.recovery.id
    ));
}

#[test]
fn selected_apply_rejects_empty_and_unknown_paths() {
    let (mut db, project) = setup();
    let source = db
        .create_recovery(
            project.id,
            None,
            "restore preview",
            "timestamp",
            "exact-timestamp",
            None,
            &vec![removal(&at("kept.txt"), b"kept")],
        )
        .unwrap();

    let error =
        apply_recovery_paths_in(&mut db, &project, &source.public_id(), &Vec::new(), now())
            .unwrap_err();
    assert!(error.to_string().contains("select at least one file"));

    let unknown = vec!["unknown.txt".to_string()];
    let error = apply_recovery_paths_in(&mut db, &project, &source.public_id(), &unknown, now())
        .unwrap_err();
    assert!(error.to_string().contains("not part of this recovery plan"));
    let unchanged_source = db
        .get_recovery_by_ref(project.id, &source.public_id())
        .unwrap()
        .unwrap();
    assert_eq!(unchanged_source.status, "planned");
}

/// A file that changed since the preview stops the whole recovery, and is noted.
#[test]
fn a_stale_recovery_is_not_applied() {
    let (mut db, project) = setup();
    let made = db
        .create_recovery(project.id, None, "r", "timestamp", "exact-timestamp", None, &vec![removal(&at("a.txt"), b"seen")])
        .unwrap();
    let spots = vec![file("a.txt", b"other")];
    assert!(
        apply_recovery_in(&mut db, &project, &made.public_id(), &spots, &Vec::new(), now()).is_err()
    );
    let after = db
        .get_recovery_by_ref(project.id, &made.public_id())
        .unwrap()
        .unwrap();
    assert_eq!(after.status, "conflicted");
    assert!(ensure_recovery_is_applicable(&after, now()).is_err());
}

#[test]
fn a_recovery_lapses() {
    let (mut db, project) = setup();
    let made = db
        .create_recovery_at(project.id, None, "r", "timestamp", "exact-timestamp", None, &vec![removal(&at("a.txt"), b"seen")], 1000)
        .unwrap();
    assert!(ensure_recovery_is_applicable(&made, 1001).is_ok());
    assert!(ensure_recovery_is_applicable(&made, made.expires_at + 1).is_err());
}

#[test]
fn event_boundary_keeps_deleted_then_recreated_path_absent() {
    let (mut db, project) = setup();
    let path = at("recreated.rs");
    changed(&mut db, &project, &path, "CREATED", Some("old"), None, None);
    changed(&mut db, &project, &path, "DELETED", None, Some("old"), None);
    let deleted_boundary = db.max_event_id(project.id).unwrap();
    changed(&mut db, &project, &path, "CREATED", Some("new"), None, None);

    let spots = vec![file("recreated.rs", b"new incarnation")];
    let plan = plan_restore_at_event_id(
        &db,
        &project,
        ROOT,
        "recreated.rs",
        deleted_boundary,
        false,
        &disk(&["recreated.rs"]),
        &spots,
    )
    .unwrap();
    assert_eq!(plan.entries.len(), 1);
    assert!(matches!(
        plan.entries[0].action,
        RestoreAction::DeleteCreatedAfterTarget
    ));
}

/// A folder of an old name that leads out of the project stops the plan.
#[test]
fn directory_plan_validates_rename_old_path_from_database() {
    let (mut db, project) = setup();
    changed(&mut db, &project, &at("new.rs"), "RENAMED", Some("after"), Some("before"), Some(&at("linked/old.rs")));
    let spots = vec![gone("linked/old.rs", Leaf::ParentFailed), file("new.rs", b"x")];
    assert!(
        plan_restore(&db, &project, ROOT, ".", now() - 60, true, false, &disk(&[]), &spots).is_err()
    );
}

/// Checkpoint-style restore planning should write the exact source available
/// at the target timestamp for a tracked file.
#[test]
fn plan_restore_writes_exact_source_for_file_target() {
    let (mut db, project) = setup();
    changed(&mut db, &project, &at("tracked.rs"), "MODIFIED", Some("saved_hash"), None, None);

    let plan = plan_restore(
        &db,
        &project,
        ROOT,
        "tracked.rs",
        now() + 60,
        true,
        false,
        &disk(&["tracked.rs"]),
        &vec![file("tracked.rs", b"current")],
    )
    .unwrap();

    assert_eq!(plan.entries.len(), 1);
    assert_eq!(plan.entries[0].rel_path, "tracked.rs");
    match &plan.entries[0].action {
        RestoreAction::Write { source } => {
            assert_eq!(source.hash, "saved_hash");
            assert_eq!(source.kind, RestoreKind::Exact);
        }
        other => panic!("expected write action, got {other:?}"),
    }
}

/// A deleted directory has no filesystem type, so restore planning must
/// discover its tracked children instead of treating its path as a file.
#[test]
fn plan_restore_finds_files_in_deleted_directory() {
    let (mut db, project) = setup();
    let path = at("src/main.rs");
    changed(&mut db, &project, &path, "MODIFIED", Some("saved_hash"), None, None);
    let boundary_before_deletion = db.max_event_id(project.id).unwrap();
    changed(&mut db, &project, &path, "DELETED", None, Some("saved_hash"), None);

    let plan = plan_restore_at_event_id(
        &db,
        &project,
        ROOT,
        "src",
        boundary_before_deletion,
        false,
        &disk(&[]),
        &vec![gone("src/main.rs", Leaf::NoParent)],
    )
    .unwrap();

    assert_eq!(plan.entries.len(), 1);
    assert_eq!(plan.entries[0].rel_path, "src/main.rs");
    match &plan.entries[0].action {
        RestoreAction::Write { source } => {
            assert_eq!(source.hash, "saved_hash");
            assert_eq!(source.kind, RestoreKind::Exact);
        }
        other => panic!("expected write action, got {other:?}"),
    }
}

/// A directory rollback to before a generated file existed should plan a
/// delete, not resurrect that file via the single-file oldest fallback.
#[test]
fn plan_restore_deletes_files_created_after_target() {
    let (mut db, project) = setup();
    changed(&mut db, &project, &at("generated.rs"), "CREATED", Some("generated_hash"), None, None);

    let plan = plan_restore(
        &db,
        &project,
        ROOT,
        ".",
        now() - 60,
        true,
        false,
        &disk(&[]),
        &vec![file("generated.rs", b"agent output")],
    )
    .unwrap();

    assert_eq!(plan.entries.len(), 1);
    assert_eq!(plan.entries[0].rel_path, "generated.rs");
    assert!(matches!(
        plan.entries[0].action,
        RestoreAction::DeleteCreatedAfterTarget
    ));
}

/// Rolling back a cross-directory rename writes the original source path
/// and removes the destination, even if only the rename event remains.
#[test]
fn plan_directory_restore_reverses_cross_directory_rename() {
    let (mut db, project) = setup();
    let old_path = at("src/auth/login.rs");
    let new_path = at("src/billing/signin.rs");
    changed(&mut db, &project, &new_path, "RENAMED", Some("current_hash"), Some("source_hash"), Some(&old_path));

    let spots = vec![
        gone("src/auth/login.rs", Leaf::NoParent),
        file("src/billing/signin.rs", b"original content"),
    ];
    let plan =
        plan_restore(&db, &project, ROOT, ".", now() - 60, true, false, &disk(&[]), &spots).unwrap();
    let old_entry = plan
        .entries
        .iter()
        .find(|entry| entry.path.absolute(ROOT) == old_path)
        .expect("the rename source should be restored");
    let new_entry = plan
        .entries
        .iter()
        .find(|entry| entry.path.absolute(ROOT) == new_path)
        .expect("the rename destination should be removed");

    match &old_entry.action {
        RestoreAction::Write { source } => assert_eq!(source.hash, "source_hash"),
        other => panic!("expected source write, got {other:?}"),
    }
    assert!(matches!(
        new_entry.action,
        RestoreAction::DeleteCreatedAfterTarget
    ));
}

/// Session recovery uses the rename event itself when the source path's
/// older event has already aged out of retention.
#[test]
fn plan_session_restore_reverses_rename_with_pruned_source_history() {
    let (mut db, project) = setup();
    let old_path = at("src/auth/login.rs");
    let new_path = at("src/billing/signin.rs");
    db.start_session(project.id, "rename-run", "manual").unwrap();
    changed(&mut db, &project, &new_path, "RENAMED", Some("current_hash"), Some("source_hash"), Some(&old_path));
    let session = db.stop_active_session(project.id).unwrap().unwrap();

    let spots = vec![
        gone("src/auth/login.rs", Leaf::NoParent),
        file("src/billing/signin.rs", b"original content"),
    ];
    let plan = plan_paths_restore_at_session_start(
        &db,
        &project,
        ROOT,
        &vec![old_path.clone(), new_path.clone()],
        &session,
        &spots,
    )
    .unwrap();

    let old_entry = plan
        .entries
        .iter()
        .find(|entry| entry.path.absolute(ROOT) == old_path)
        .expect("the session should restore the rename source");
    let new_entry = plan
        .entries
        .iter()
        .find(|entry| entry.path.absolute(ROOT) == new_path)
        .expect("the session should remove the rename destination");
    match &old_entry.action {
        RestoreAction::Write { source } => assert_eq!(source.hash, "source_hash"),
        other => panic!("expected source write, got {other:?}"),
    }
    assert!(matches!(
        new_entry.action,
        RestoreAction::DeleteCreatedAfterTarget
    ));
}

/// Retention may remove the pre-session event while preserving its snapshot
/// through the first in-session modification's `previous_hash`. Recovery
/// must write that baseline instead of treating the existing file as new.
#[test]
fn plan_session_restore_uses_previous_hash_after_baseline_pruned() {
    let (mut db, project) = setup();
    let path = at("src/main.rs");
    db.start_session(project.id, "modify-run", "manual").unwrap();
    changed(&mut db, &project, &path, "MODIFIED", Some("during_hash"), Some("baseline_hash"), None);
    let session = db.stop_active_session(project.id).unwrap().unwrap();

    assert!(
        db.get_live_hashes(project.id)
            .unwrap()
            .contains(&"baseline_hash".to_string())
    );

    let plan = plan_paths_restore_at_session_start(
        &db,
        &project,
        ROOT,
        &vec![path],
        &session,
        &vec![file("src/main.rs", b"changed during session")],
    )
    .unwrap();

    assert_eq!(plan.entries.len(), 1);
    match &plan.entries[0].action {
        RestoreAction::Write { source } => assert_eq!(source.hash, "baseline_hash"),
        other => panic!("expected baseline write, got {other:?}"),
    }
}

/// Group recovery should only plan changes for the selected group's paths.
#[test]
fn plan_paths_restore_leaves_unselected_paths_alone() {
    let (mut db, project) = setup();
    let auth = at("src/auth/login.rs");
    let billing = at("src/billing/invoice.rs");
    let session = db.start_session(project.id, "agent-run", "manual").unwrap();
    changed(&mut db, &project, &auth, "MODIFIED", Some("auth_after"), Some("auth_before"), None);
    changed(&mut db, &project, &billing, "MODIFIED", Some("billing_after"), Some("billing_before"), None);

    let spots = vec![
        file("src/auth/login.rs", b"broken auth"),
        file("src/billing/invoice.rs", b"good billing"),
    ];
    let plan =
        plan_paths_restore_at_session_start(&db, &project, ROOT, &vec![auth], &session, &spots)
            .unwrap();

    assert_eq!(plan.entries.len(), 1);
    assert_eq!(plan.entries[0].rel_path, "src/auth/login.rs");
    assert!(
        !plan
            .entries
            .iter()
            .any(|entry| entry.path.absolute(ROOT) == billing)
    );
}

/// The three ways to make a recovery save what is on disk as what is expected.
#[test]
fn a_recovery_expects_what_was_previewed() {
    let (mut db, project) = setup();
    let path = at("a.rs");
    changed(&mut db, &project, &path, "CREATED", Some("h0"), None, None);
    let boundary = db.max_event_id(project.id).unwrap();
    let run = db
        .start_run(project.id, "work", "run", "agent", None, None, None, None)
        .unwrap();
    changed(&mut db, &project, &path, "MODIFIED", Some("h1"), Some("h0"), None);
    let run = db.complete_run(run.id, "completed").unwrap();
    let spots = vec![file("a.rs", b"now")];
    let there = disk(&["a.rs"]);
    let paths = vec![path.clone()];
    let by_run = create_run_recovery_in(
        &mut db, &project, ROOT, &run, &paths, "r", "group", "path-match", None, &there, &spots, now(),
    )
    .unwrap();
    let by_time = create_timestamp_recovery_in(
        &mut db, &project, ROOT, "a.rs", now() + 60, "r", "timestamp", false, &there, &spots, now(),
    )
    .unwrap();
    let by_event = create_event_boundary_recovery_in(
        &mut db, &project, ROOT, &paths, boundary, "r", "before-change", &spots, now(),
    )
    .unwrap();
    for (made, hash) in [(by_run, "h0"), (by_time, "h1"), (by_event, "h0")] {
        let rows = db.get_recovery_entries(made.id).unwrap();
        assert_eq!(rows.len(), 1);
        assert_eq!(rows[0].action, "WRITE");
        assert_eq!(rows[0].target_hash.as_deref(), Some(hash));
        assert_eq!(rows[0].expected_hash, Some(hash_bytes(b"now")));
    }
    assert!(places_to_check(ROOT, "a.rs", ROOT).contains(&path));
}
