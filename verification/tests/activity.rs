//! Bursts of change and how they are shown.
use undo::activity::{detect_bursts, event_label, panic_restore_commands};
use undo::models::FileEvent;

fn event(id: i64, timestamp: i64, path: &str, event_type: &str) -> FileEvent {
    FileEvent {
        id,
        project_id: 1,
        timestamp,
        path: path.to_string(),
        event_type: event_type.to_string(),
        current_hash: None,
        previous_hash: None,
        snapshot_path: None,
        old_path: None,
        file_size: None,
    }
}

#[test]
fn detect_bursts_groups_rapid_many_file_changes() {
    let events = vec![
        event(1, 100, "/p/a.rs", "MODIFIED"),
        event(2, 101, "/p/b.rs", "MODIFIED"),
        event(3, 102, "/p/c.rs", "MODIFIED"),
        event(4, 103, "/p/d.rs", "MODIFIED"),
        event(5, 104, "/p/e.rs", "MODIFIED"),
    ];

    let bursts = detect_bursts(&events);
    assert_eq!(bursts.len(), 1);
    assert_eq!(bursts[0].path_count, 5);
    assert_eq!(bursts[0].event_count, 5);
}

#[test]
fn detect_bursts_splits_on_time_gap() {
    let events = vec![
        event(1, 100, "/p/a.rs", "MODIFIED"),
        event(2, 120, "/p/b.rs", "MODIFIED"),
        event(3, 121, "/p/c.rs", "MODIFIED"),
        event(4, 122, "/p/d.rs", "MODIFIED"),
        event(5, 123, "/p/e.rs", "MODIFIED"),
        event(6, 124, "/p/f.rs", "MODIFIED"),
    ];

    let bursts = detect_bursts(&events);
    assert_eq!(bursts.len(), 1);
    assert_eq!(bursts[0].start, 120);
}

#[test]
fn panic_commands_share_the_exact_restore_target() {
    let (preview, restore) = panic_restore_commands(999);

    assert_eq!(preview, "undo restore . --timestamp 999 --preview");
    assert_eq!(restore, "undo restore . --timestamp 999 --yes");
}

#[test]
fn event_labels_are_plain_language_without_changing_event_values() {
    assert_eq!(event_label("MODIFIED"), "Modified");
    assert_eq!(event_label("CREATED"), "Created");
    assert_eq!(event_label("DELETED"), "Deleted");
    assert_eq!(event_label("RENAMED"), "Renamed");
    assert_eq!(event_label("CUSTOM"), "CUSTOM");
}
