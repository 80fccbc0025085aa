//! What going back to an earlier state does, and to which files.
use undo::db::Database;
use undo::path::within;
use undo::places::{places_to_check, Place};
use undo::restore::{
    plan_restore, resolve_exact_source_at_time, resolve_restore_source, resolve_restore_time,
    RestoreKind,
};
use undo::restore_fs::{backup_name, ProjectPath};

fn now() -> i64 {
    chrono::Utc::now().timestamp()
}

fn mem_db() -> (Database, i64) {
    let mut db = Database::open_in_memory().unwrap();
    let p = db.get_or_create_project("/proj").unwrap();
    (db, p.id)
}

/// What the disk says of some paths.
fn places(paths: &[String]) -> Vec<Place> {
    let mut found = Vec::new();
    for path in paths {
        let at = std::path::Path::new(path);
        if let Ok(canonical) = at.canonicalize() {
            found.push(Place {
                path: path.clone(),
                directory: canonical.is_dir(),
                canonical: canonical.to_str().unwrap().to_string(),
            });
        }
    }
    found
}

#[test]
fn absolute_timestamp_restore_target_is_stable() {
    let (db, pid) = mem_db();
    let (target, label) = resolve_restore_time(&db, pid, None, None, Some(1_713_200_000)).unwrap();

    assert_eq!(target, 1_713_200_000);
    assert_eq!(label, "Unix timestamp 1713200000");
}

/// A file deleted after its creating event aged out of retention must still
/// be recoverable from the DELETED event's previous_hash. This is the bug:
/// `get_event_at_time` and `get_oldest_event` both exclude DELETED rows, so
/// before the fix restore gave up with "No snapshots found" even though the
/// deletion was recent. The asserts below first prove both prior lookups
/// come up empty (the red condition), then prove the resolver recovers it.
#[test]
fn resolve_recovers_deleted_file_from_previous_hash() {
    let (mut db, pid) = mem_db();
    let path = "/proj/gone.rs";
    let now = now();

    // Only a DELETED event remains (creating/modify events already pruned).
    db.insert_event(
        pid,
        path,
        "DELETED",
        None,
        Some("last_hash"),
        None,
        None,
        None,
    )
    .unwrap();

    // Both pre-existing lookups return nothing — what the old code saw.
    assert!(db.get_event_at_time(pid, path, now).unwrap().is_none());
    assert!(db.get_oldest_event(pid, path).unwrap().is_none());

    // The resolver recovers the last contents via the deleted fallback.
    let src = resolve_restore_source(&db, pid, path, now)
        .unwrap()
        .expect("deleted file must be recoverable from previous_hash");
    assert_eq!(src.hash, "last_hash");
    assert_eq!(src.kind, RestoreKind::DeletedFallback);
}

/// When a normal snapshot exists at or before the target time, the resolver
/// returns it as an Exact match — the deleted-file fallback must not change
/// the happy path.
#[test]
fn resolve_prefers_exact_snapshot_over_fallbacks() {
    let (mut db, pid) = mem_db();
    let path = "/proj/live.rs";
    db.insert_event(
        pid,
        path,
        "MODIFIED",
        Some("good_hash"),
        None,
        None,
        None,
        None,
    )
    .unwrap();
    // Query with a comfortably-future target so the event (timestamped at
    // insert time) is unambiguously "at or before" it.
    let target = now() + 3600;

    let src = resolve_restore_source(&db, pid, path, target)
        .unwrap()
        .unwrap();
    assert_eq!(src.hash, "good_hash");
    assert_eq!(src.kind, RestoreKind::Exact);
}

/// A path with no events at all yields None so the caller can report that
/// nothing is recoverable.
#[test]
fn resolve_returns_none_when_nothing_recorded() {
    let (db, pid) = mem_db();
    let now = now();
    assert!(
        resolve_restore_source(&db, pid, "/proj/never.rs", now)
            .unwrap()
            .is_none()
    );
}

/// Project restore needs exact point-in-time semantics: a file created after
/// the target must be deleted, not restored via the single-file oldest fallback.
#[test]
fn exact_resolver_does_not_use_oldest_fallback() {
    let (mut db, pid) = mem_db();
    let path = "/proj/new.rs";
    db.insert_event(
        pid,
        path,
        "CREATED",
        Some("new_hash"),
        None,
        None,
        None,
        None,
    )
    .unwrap();
    let before_creation = now() - 3600;

    assert!(
        resolve_exact_source_at_time(&db, pid, path, before_creation)
            .unwrap()
            .is_none()
    );
    assert_eq!(
        resolve_restore_source(&db, pid, path, before_creation)
            .unwrap()
            .unwrap()
            .kind,
        RestoreKind::OldestFallback
    );
}

/// When older source-path history has been pruned, the first rename after
/// the target still carries the source contents in `previous_hash`.
#[test]
fn exact_resolver_recovers_rename_source_from_previous_hash() {
    let (mut db, pid) = mem_db();
    let old_path = "/proj/src/auth/login.rs";
    let new_path = "/proj/src/billing/signin.rs";
    let target_before_rename = now().saturating_sub(60);
    db.insert_event(
        pid,
        new_path,
        "RENAMED",
        Some("current_hash"),
        Some("source_hash"),
        None,
        Some(old_path),
        Some(16),
    )
    .unwrap();

    let source =
        resolve_exact_source_at_time(&db, pid, old_path, target_before_rename).unwrap();

    assert_eq!(source.unwrap().hash, "source_hash");
}

/// A later rename does not prove its source path existed at the target when
/// the first event after that target created the source path.
#[test]
fn exact_resolver_does_not_restore_path_created_after_target() {
    let (mut db, pid) = mem_db();
    let old_path = "/proj/src/generated.rs";
    let new_path = "/proj/archive/generated.rs";
    let target_before_creation = now().saturating_sub(60);
    db.insert_event(
        pid,
        old_path,
        "CREATED",
        Some("generated_hash"),
        None,
        None,
        None,
        Some(16),
    )
    .unwrap();
    db.insert_event(
        pid,
        new_path,
        "RENAMED",
        Some("generated_hash"),
        Some("generated_hash"),
        None,
        Some(old_path),
        Some(16),
    )
    .unwrap();

    assert!(
        resolve_exact_source_at_time(&db, pid, old_path, target_before_creation)
            .unwrap()
            .is_none()
    );
}

/// Scope checks must treat sibling string prefixes as outside the directory.
#[test]
fn path_in_scope_rejects_shared_prefix_siblings() {
    assert!(within("/proj/src/main.rs", "/proj/src"));
    assert!(within("/proj/src", "/proj/src"));
    assert!(!within("/proj/src-old/main.rs", "/proj/src"));
}

#[test]
fn directory_plan_rejects_parent_components_in_database_paths() {
    let tree = tempfile::tempdir().unwrap();
    let root = tree.path().canonicalize().unwrap();
    let root = root.to_str().unwrap();
    let event_path = format!("{}/scope/../../outside.txt", root);
    let mut db = Database::open_in_memory().unwrap();
    let project = db.get_or_create_project(root).unwrap();
    db.insert_event(
        project.id,
        &event_path,
        "CREATED",
        Some("after"),
        None,
        None,
        None,
        Some(1),
    )
    .unwrap();

    let target = now().saturating_sub(60);
    let disk = places(&places_to_check(root, ".", root));
    let spots = Vec::new();
    assert!(plan_restore(&db, &project, root, ".", target, true, false, &disk, &spots).is_err());
}

#[test]
fn project_path_rejects_escape_components_and_prefix_siblings() {
    let root = "/project";
    assert!(ProjectPath::from_absolute(root, "/project/src/main.rs").is_ok());
    assert!(ProjectPath::from_absolute(root, "/project-old/file").is_err());
    assert!(ProjectPath::from_absolute(root, "/outside/file").is_err());
    assert!(ProjectPath::from_relative("src/../../outside").is_err());
    assert!(ProjectPath::from_relative(".").is_err());
}

#[test]
fn backup_names_include_the_full_project_path() {
    let root = "/project";
    let first = ProjectPath::from_relative("pkg-a/config.json").unwrap();
    let second = ProjectPath::from_relative("pkg-b/config.json").unwrap();

    let first_name = backup_name(root, &first, 123, 0);
    let second_name = backup_name(root, &second, 123, 0);

    assert_ne!(first_name, second_name);
    assert!(first_name.starts_with("config.json_"));
}

/// Events of one file: their kind, the contents after and before, and the time.
fn record(db: &mut Database, pid: i64, events: &[(&str, Option<&str>, Option<&str>, i64)]) {
    for (kind, current, previous, at) in events {
        db.add_event(pid, *at, "/proj/a", kind, *current, *previous, None, None, None)
            .unwrap();
    }
}

fn source(db: &Database, pid: i64, at: i64) -> Option<(String, RestoreKind)> {
    resolve_restore_source(db, pid, "/proj/a", at)
        .unwrap()
        .map(|source| (source.hash, source.kind))
}

/// The newest version up to a time counts, though the file was deleted since.
#[test]
fn the_newest_version_before_a_deletion_is_exact() {
    let (mut db, pid) = mem_db();
    record(
        &mut db,
        pid,
        &[
            ("CREATED", Some("h1"), None, 10),
            ("MODIFIED", Some("h2"), Some("h1"), 20),
            ("DELETED", None, Some("h2"), 30),
        ],
    );
    assert_eq!(source(&db, pid, i64::MAX), Some(("h2".to_string(), RestoreKind::Exact)));
    assert_eq!(source(&db, pid, 15), Some(("h1".to_string(), RestoreKind::Exact)));
    assert_eq!(source(&db, pid, 5), Some(("h1".to_string(), RestoreKind::OldestFallback)));
}

/// A change without contents is no version.
#[test]
fn a_change_without_contents_is_passed_over() {
    let (mut db, pid) = mem_db();
    record(
        &mut db,
        pid,
        &[
            ("CREATED", None, None, 10),
            ("MODIFIED", Some("h2"), None, 20),
            ("MODIFIED", None, Some("h2"), 30),
        ],
    );
    assert_eq!(source(&db, pid, 40), Some(("h2".to_string(), RestoreKind::Exact)));
    assert_eq!(source(&db, pid, 5), Some(("h2".to_string(), RestoreKind::OldestFallback)));
}

/// Where older changes are gone, the first later change tells what was there.
#[test]
fn the_first_later_change_tells_what_was_there() {
    let (mut db, pid) = mem_db();
    record(&mut db, pid, &[("MODIFIED", Some("h2"), Some("h1"), 20)]);
    assert_eq!(source(&db, pid, 10), Some(("h1".to_string(), RestoreKind::Exact)));
}
