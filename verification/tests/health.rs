//! Whether the saved versions that the current files need are there.
use undo::db::Database;
use undo::integrity::{check, hashes_to_check, IntegrityReport, StoredVersion};

fn setup() -> (Database, i64) {
    let mut db = Database::open_in_memory().unwrap();
    let project = db.get_or_create_project("/proj").unwrap();
    (db, project.id)
}

fn saved(hash: &str, readable: bool) -> StoredVersion {
    StoredVersion {
        hash: hash.to_string(),
        readable,
    }
}

/// A store whose every referenced snapshot is present (and decodable) reports
/// clean, and counts each distinct hash exactly once.
#[test]
fn check_reports_clean_store() {
    let (mut db, pid) = setup();
    let store = vec![saved("h1", true), saved("h2", true)];
    db.upsert_file_state(pid, "/proj/a.rs", "h1", true, 5, None)
        .unwrap();
    db.upsert_file_state(pid, "/proj/b.rs", "h2", true, 4, None)
        .unwrap();
    // A third file sharing a.rs's content must not double-count the hash.
    db.upsert_file_state(pid, "/proj/c.rs", "h1", true, 5, None)
        .unwrap();

    let report = check(&db, pid, &store, true).unwrap();
    assert!(report.is_clean(), "{report:?}");
    assert_eq!(report.checked, 2, "two distinct hashes");
    let mut hashes = hashes_to_check(&db, pid);
    hashes.sort();
    assert_eq!(hashes, vec!["h1", "h2"]);
}

/// A current file whose backing snapshot is absent is counted as missing —
/// the power-loss symptom — and is caught even by the cheap (non-deep) check.
#[test]
fn check_detects_missing_snapshot() {
    let (mut db, pid) = setup();
    db.upsert_file_state(pid, "/proj/gone.rs", "absent_hash", true, 1, None)
        .unwrap();

    let report = check(&db, pid, &Vec::new(), false).unwrap();
    assert_eq!(report.checked, 1);
    assert_eq!(report.missing, 1);
    assert_eq!(report.corrupt, 0);
    assert!(!report.is_clean());
    assert_eq!(report.problems(), 1);
}

/// A garbage snapshot is there but cannot be read. The deep check flags it as
/// corrupt; the cheap check (existence only) does not.
#[test]
fn deep_check_detects_corrupt_snapshot_but_shallow_does_not() {
    let (mut db, pid) = setup();
    db.upsert_file_state(pid, "/proj/bad.rs", "corrupt_hash", true, 3, None)
        .unwrap();
    let store = vec![saved("corrupt_hash", false)];

    let shallow = check(&db, pid, &store, false).unwrap();
    assert_eq!(shallow.missing, 0, "file exists, so not missing");
    assert_eq!(shallow.corrupt, 0, "shallow check does not decompress");

    let deep = check(&db, pid, &store, true).unwrap();
    assert_eq!(deep.corrupt, 1, "deep check must catch the bad snapshot");
    assert!(!deep.is_clean());
}

/// Snapshots referenced only by *deleted* files are not part of the
/// current-state check — they're allowed to age out via retention, so a
/// missing one is not an integrity problem.
#[test]
fn check_ignores_deleted_file_state() {
    let (mut db, pid) = setup();
    db.upsert_file_state(pid, "/proj/old.rs", "deleted_hash", true, 1, None)
        .unwrap();
    db.mark_deleted(pid, "/proj/old.rs").unwrap();

    let report = check(&db, pid, &Vec::new(), true).unwrap();
    assert_eq!(report.checked, 0, "deleted files are not current state");
    assert!(report.is_clean());
}

/// The problems are counted whatever number of versions was looked at.
#[test]
fn problems_add_up_missing_and_corrupt_versions() {
    let report = IntegrityReport {
        checked: 0,
        missing: 2,
        corrupt: 3,
    };
    assert_eq!(report.problems(), 5);
    assert!(!report.is_clean());
}
