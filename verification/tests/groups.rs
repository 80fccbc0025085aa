//! How changes fall into groups.
use undo::groups::{build_groups, ChangeGroup};
use undo::models::{FileEvent, WatchedProject};

fn project() -> WatchedProject {
    WatchedProject {
        id: 1,
        root_path: "/repo".to_string(),
        created_at: 0,
    }
}

fn event(id: i64, path: &str) -> FileEvent {
    FileEvent {
        id,
        project_id: 1,
        timestamp: 100 + id,
        path: path.to_string(),
        event_type: "MODIFIED".to_string(),
        current_hash: None,
        previous_hash: None,
        snapshot_path: None,
        old_path: None,
        file_size: None,
    }
}

/// Groups events of which no contents are known.
fn groups_of(project: &WatchedProject, events: Vec<FileEvent>) -> Vec<ChangeGroup> {
    let stats = vec![(0, 0); events.len()];
    build_groups(&project.root_path, &events, &stats)
}

#[test]
fn groups_events_by_module_path() {
    let groups = groups_of(
        &project(),
        vec![
            event(1, "/repo/src/auth/login.rs"),
            event(2, "/repo/src/auth/session.rs"),
            event(3, "/repo/src/billing/invoice.rs"),
        ],
    );

    let ids = groups.iter().map(|g| g.id.as_str()).collect::<Vec<_>>();
    assert_eq!(ids, vec!["auth", "billing"]);
    assert_eq!(groups[0].label, "src/auth");
    assert_eq!(groups[1].label, "src/billing");
    assert_eq!(groups[0].paths.len(), 2);
}

#[test]
fn group_ids_are_stable_for_root_files() {
    let groups = groups_of(
        &project(),
        vec![event(1, "/repo/Cargo.toml"), event(2, "/repo/README.md")],
    );

    let ids = groups.iter().map(|g| g.id.as_str()).collect::<Vec<_>>();
    assert_eq!(ids, vec!["cargo", "readme"]);
    let labels = groups
        .iter()
        .map(|group| group.label.as_str())
        .collect::<Vec<_>>();
    assert_eq!(labels, vec!["Cargo.toml", "README.md"]);
}

/// Reverting a rename requires both names: write the source path as it
/// existed before the session and remove the destination created by it.
#[test]
fn renamed_events_include_old_path_in_group_paths() {
    let mut renamed = event(1, "/repo/src/billing/signin.rs");
    renamed.event_type = "RENAMED".to_string();
    renamed.old_path = Some("/repo/src/auth/login.rs".to_string());

    let groups = groups_of(&project(), vec![renamed]);

    assert_eq!(groups.len(), 1);
    assert_eq!(groups[0].id, "billing");
    assert_eq!(
        groups[0].paths,
        vec![
            "/repo/src/auth/login.rs".to_string(),
            "/repo/src/billing/signin.rs".to_string()
        ]
    );
}
