//! Differences between versions, and which saved version is meant.
use undo::compare::{diff_selection, diff_selection_at_time, saved_hash_for_diff};
use undo::db::Database;
use undo::diff::{is_binary, render_bytes_for_diff};
use undo::models::FileEvent;

fn now() -> i64 {
    chrono::Utc::now().timestamp()
}

fn event(
    event_type: &str,
    current_hash: Option<&str>,
    previous_hash: Option<&str>,
) -> FileEvent {
    FileEvent {
        id: 1,
        project_id: 1,
        timestamp: 0,
        path: "/project/file.txt".to_string(),
        event_type: event_type.to_string(),
        current_hash: current_hash.map(str::to_string),
        previous_hash: previous_hash.map(str::to_string),
        snapshot_path: None,
        old_path: None,
        file_size: None,
    }
}

fn deleted_only_history() -> (Database, i64, String) {
    let mut db = Database::open_in_memory().unwrap();
    let project = db.get_or_create_project("/project").unwrap();
    let path = "/project/deleted.txt".to_string();
    db.insert_event(
        project.id,
        &path,
        "DELETED",
        None,
        Some("last_live_hash"),
        None,
        None,
        Some(10),
    )
    .unwrap();
    (db, project.id, path)
}

/// A NUL byte within the first 8 KiB marks content as binary.
#[test]
fn is_binary_detects_nul_byte() {
    assert!(is_binary(b"hello\x00world"));
}

/// Ordinary source text with no NUL bytes is not binary.
#[test]
fn is_binary_returns_false_for_plain_text() {
    assert!(!is_binary(b"fn main() {\n    println!(\"hello\");\n}\n"));
}

/// A NUL at position 8192 is outside the inspection window and must not trigger the binary flag.
#[test]
fn is_binary_ignores_nul_beyond_8192_bytes() {
    // A NUL at position 8192 (0-indexed) is outside the 8 KiB inspection
    // window, so the content should be treated as text.
    let mut data = vec![b'a'; 8193];
    data[8192] = 0;
    assert!(!is_binary(&data));
}

#[test]
fn invalid_utf8_bytes_render_as_distinct_lossless_text() {
    let old = b"\xe9l\xe8ve";
    let new = b"\xe9l\xe9ve";
    assert_ne!(old, new);

    let (old_text, new_text) = render_bytes_for_diff(old, new);

    assert_eq!(old_text, "\\xe9l\\xe8ve");
    assert_eq!(new_text, "\\xe9l\\xe9ve");
    assert_ne!(old_text, new_text);
}

#[test]
fn escaped_invalid_bytes_do_not_collide_with_literal_escape_text() {
    let invalid = b"\xff";
    let literal = b"\\xff";

    let (invalid_text, literal_text) = render_bytes_for_diff(invalid, literal);

    assert_eq!(invalid_text, "\\xff");
    assert_eq!(literal_text, "\\\\xff");
    assert_ne!(invalid_text, literal_text);
}

#[test]
fn valid_utf8_diff_rendering_is_unchanged() {
    let (old, new) = render_bytes_for_diff("élève".as_bytes(), "élève!".as_bytes());
    assert_eq!(old, "élève");
    assert_eq!(new, "élève!");
}

/// A deleted file's last known contents live in `previous_hash`. This is
/// what lets `undo diff` compare that content against a file recreated on
/// disk after the daemon recorded the deletion.
#[test]
fn deleted_event_uses_previous_hash_for_diff() {
    let e = event("DELETED", None, Some("last_live_hash"));
    assert_eq!(saved_hash_for_diff(&e), Some("last_live_hash"));
}

/// Normal events still diff from their current snapshot.
#[test]
fn non_deleted_event_uses_current_hash_for_diff() {
    let e = event("MODIFIED", Some("current_hash"), Some("older_hash"));
    assert_eq!(saved_hash_for_diff(&e), Some("current_hash"));
}

/// If a malformed deleted event has no previous hash, diff should report
/// that no saved version is available instead of guessing.
#[test]
fn deleted_event_without_previous_hash_has_no_saved_diff_source() {
    let e = event("DELETED", None, None);
    assert_eq!(saved_hash_for_diff(&e), None);
}

/// When retention leaves only the DELETED row, duration and checkpoint
/// queries must still resolve its pinned previous_hash (#92).
#[test]
fn time_based_diff_recovers_deleted_only_history() {
    let (mut db, project_id, path) = deleted_only_history();
    db.create_checkpoint_now(project_id, None, "after-delete", None)
        .unwrap();

    for (selection, deleted_fallback) in [
        (
            diff_selection(&db, project_id, &path, Some("1s"), None).unwrap(),
            false,
        ),
        (
            diff_selection(&db, project_id, &path, None, Some("after-delete")).unwrap(),
            true,
        ),
    ] {
        let selection = selection.expect("a saved version");
        assert_eq!(selection.hash, "last_live_hash");
        assert_eq!(selection.deleted_fallback, deleted_fallback);
    }
}

/// A deletion after the selected boundary carries the exact pre-deletion
/// content in previous_hash, even if every older event was pruned.
#[test]
fn diff_uses_first_later_deletion_to_reconstruct_pruned_boundary() {
    let (db, project_id, path) = deleted_only_history();
    let selection = diff_selection_at_time(&db, project_id, &path, 0)
        .unwrap()
        .unwrap();

    assert_eq!(selection.hash, "last_live_hash");
    assert!(
        !selection.deleted_fallback,
        "content immediately before a later deletion is an exact boundary source"
    );
}

/// Rename-away events describe absence after the rename and the old path's
/// previous content before it. Reusing restore's resolver preserves both
/// sides without an ad-hoc old_path filter in diff.
#[test]
fn time_based_diff_preserves_rename_boundaries() {
    let mut db = Database::open_in_memory().unwrap();
    let project = db.get_or_create_project("/project").unwrap();
    let old_path = "/project/old.txt";
    db.insert_event(
        project.id,
        "/project/new.txt",
        "RENAMED",
        Some("renamed_hash"),
        Some("old_path_hash"),
        None,
        Some(old_path),
        Some(10),
    )
    .unwrap();

    assert!(
        diff_selection_at_time(&db, project.id, old_path, now())
            .unwrap()
            .is_none(),
        "the old path is absent after rename-away"
    );
    assert_eq!(
        diff_selection_at_time(&db, project.id, old_path, 0)
            .unwrap()
            .map(|selection| selection.hash),
        Some("old_path_hash".to_string()),
        "the old path existed immediately before the rename"
    );
}
