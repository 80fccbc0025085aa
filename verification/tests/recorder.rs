//! Recorders: who may record what, their marks, and what their logs say.
use undo::daemon::{
    check_directory_owner, check_no_overlap, check_not_root, is_recording, latest_process_error,
    log_offset, migrated_pid_file, parse_pid_file, pid_file_for_root, pid_state,
    system_uid_threshold, wait_for_recorder_start, LogCursor, Probe, Recorder, Starting,
};
use undo::logging::{is_full, rotated_path, shown_to_user, write_line, Level, MAX_LOG_BYTES};

/// A process that is not the one that asks.
const FOREIGN_PID: u32 = u32::MAX;

fn recording(root: &str) -> Vec<Recorder> {
    vec![Recorder {
        pid: 12,
        root: root.to_string(),
    }]
}

/// A root-owned watch target must be rejected.
#[test]
fn rejects_root_owned_directory() {
    let err = check_directory_owner("/usr", 0, system_uid_threshold(false)).unwrap_err();
    let msg = err.to_string();
    assert!(msg.contains("owned by root") || msg.contains("system account"));
}

/// UIDs below the platform's normal-user threshold identify system accounts.
#[test]
fn rejects_system_account_owned_directory() {
    for macos in [false, true] {
        let system_uid = system_uid_threshold(macos) - 1;
        let err =
            check_directory_owner("/system", system_uid, system_uid_threshold(macos)).unwrap_err();
        let msg = err.to_string();
        assert!(
            msg.contains("system account") && msg.contains(&system_uid.to_string()),
            "expected ownership rejection, got: {}",
            msg
        );
    }
}

#[test]
fn accepts_normal_user_uid_at_platform_threshold() {
    let threshold = system_uid_threshold(false);
    assert!(check_directory_owner("/home/user", threshold, threshold).is_ok());
}

/// Running as root is disallowed.
#[test]
fn check_not_root_passes_for_normal_user() {
    assert!(check_not_root(1000).is_ok());
    assert!(check_not_root(0).is_err());
}

/// Two different roots must map to distinct PID files so each daemon can be tracked independently.
#[test]
fn pid_files_are_unique_per_project() {
    let bt_dir = "/tmp/undo-test-pids";
    let a = pid_file_for_root(bt_dir, "/home/user/project-a");
    let b = pid_file_for_root(bt_dir, "/home/user/project-b");
    assert_ne!(a, b);
}

/// The same root must produce the same PID file path across multiple calls.
#[test]
fn pid_file_is_stable_for_same_root() {
    let bt_dir = "/tmp/undo-test-pids";
    let root = "/home/user/project";
    let first = pid_file_for_root(bt_dir, root);
    let second = pid_file_for_root(bt_dir, root);
    assert_eq!(first, second);
}

/// A mark in the old place goes to the place of its project.
#[test]
fn migrate_old_pid_creates_new_file() {
    let contents = "12345\n/home/user/project";
    assert_eq!(
        migrated_pid_file("/home/user/.undo", contents),
        Some(pid_file_for_root("/home/user/.undo", "/home/user/project"))
    );
    assert_eq!(migrated_pid_file("/home/user/.undo", "12345"), None);
}

/// Starting a watcher inside an already-watched tree would produce duplicate events.
#[test]
fn overlap_rejects_child_of_watched_dir() {
    let err = check_no_overlap(&recording("/foo"), "/foo/bar", FOREIGN_PID).unwrap_err();
    assert!(err.to_string().contains("overlaps"), "{}", err.to_string());
}

/// Starting a watcher that contains an existing watched subtree would cause double-recording.
#[test]
fn overlap_rejects_parent_of_watched_dir() {
    let err = check_no_overlap(&recording("/foo/bar"), "/foo", FOREIGN_PID).unwrap_err();
    assert!(err.to_string().contains("overlaps"), "{}", err.to_string());
}

/// The root of the disk contains every other folder.
#[test]
fn overlap_rejects_the_root_of_the_disk() {
    for (recorded, new) in [("/foo", "/"), ("/", "/foo"), ("/", "/")] {
        let err = check_no_overlap(&recording(recorded), new, FOREIGN_PID).unwrap_err();
        assert!(err.to_string().contains("overlaps"), "{}", err.to_string());
    }
}

/// Re-watching the exact same directory must be rejected.
#[test]
fn overlap_rejects_exact_same_dir() {
    let err = check_no_overlap(&recording("/foo/bar"), "/foo/bar", FOREIGN_PID).unwrap_err();
    assert!(err.to_string().contains("overlaps"), "{}", err.to_string());
}

/// Sibling directories have no overlap and must both be allowed.
#[test]
fn overlap_allows_sibling_directories() {
    assert!(check_no_overlap(&recording("/foo/bar"), "/foo/baz", FOREIGN_PID).is_ok());
}

/// A directory whose name starts with an existing root's name must not be falsely rejected.
#[test]
fn overlap_no_false_positive_for_shared_prefix() {
    assert!(check_no_overlap(&recording("/foo/bar"), "/foo/bar-extra", FOREIGN_PID).is_ok());
}

/// With no active daemons, any directory is a valid watch target.
#[test]
fn overlap_passes_when_no_daemons_running() {
    assert!(check_no_overlap(&Vec::new(), "/any/path", FOREIGN_PID).is_ok());
}

/// The process that asks holds its own mark already.
#[test]
fn overlap_excludes_calling_process() {
    assert!(check_no_overlap(&recording("/proj/self"), "/proj/self", 12).is_ok());
}

/// Only a mark that is held says that a recorder runs.
#[test]
fn a_mark_counts_only_while_it_is_held() {
    let mark = pid_file_for_root("/home/user/.undo", "/some/project");
    assert!(!is_recording("/home/user/.undo", "/some/project", &Vec::new()).unwrap());
    assert!(is_recording("/home/user/.undo", "/some/project", &vec![mark]).unwrap());
}

#[test]
fn a_mark_is_read_back() {
    let found = parse_pid_file(&pid_state(123, "/project", "ready")).unwrap();
    assert_eq!(found.pid, 123);
    assert_eq!(found.root, "/project");
    assert!(parse_pid_file("x\n/project").is_none());
    assert!(parse_pid_file("").is_none());
}

#[test]
fn startup_wait_surfaces_the_childs_logged_error_without_timing_out() {
    let probe = Probe {
        mark: None,
        exited: Some("exit status: 17".to_string()),
        log: Some(
            "2026-07-20T20:24:00.000 [999] ERROR unrelated failure\n\
             2026-07-20T20:24:00.001 [4242] ERROR Undo did not start: test rejection.\n\
             Use the reported reason.\n"
                .to_string(),
        ),
    };
    match wait_for_recorder_start(0, &probe, 4242, "/logs/undo.log") {
        Starting::Failed(error) => assert_eq!(
            error.to_string(),
            "Undo did not start: test rejection.\nUse the reported reason."
        ),
        other => panic!("{other:?}"),
    }
}

#[test]
fn startup_error_reader_resets_its_boundary_after_log_rotation() {
    let cursor = LogCursor {
        offset: 256,
        identity: Some((1, 10)),
    };
    assert_eq!(log_offset(cursor, (1, 10), 300), 256);
    assert_eq!(log_offset(cursor, (1, 11), 300), 0);
    assert_eq!(log_offset(cursor, (1, 10), 200), 0);
    let contents = format!(
        "2026-07-20T20:24:00.001 [42] ERROR current startup failure\n\
         2026-07-20T20:24:00.002 [999] INFO {}\n",
        "x".repeat(300)
    );
    assert_eq!(
        latest_process_error(&contents, 42).as_deref(),
        Some("current startup failure")
    );
    assert_eq!(latest_process_error(&contents, 43), None);
}

#[test]
fn recorder_readiness_wins_over_an_already_exited_child() {
    let probe = Probe {
        mark: Some("123\n/project\nready".to_string()),
        exited: Some("exit status: 1".to_string()),
        log: None,
    };
    assert!(matches!(
        wait_for_recorder_start(0, &probe, 123, "/logs/undo.log"),
        Starting::Ready
    ));
    let waiting = Probe {
        mark: Some("123\n/project\nstarting".to_string()),
        exited: None,
        log: None,
    };
    assert!(matches!(
        wait_for_recorder_start(0, &waiting, 123, "/logs/undo.log"),
        Starting::Wait
    ));
    assert!(matches!(
        wait_for_recorder_start(199, &waiting, 123, "/logs/undo.log"),
        Starting::Failed(_)
    ));
}

#[test]
fn write_line_includes_pid_and_level() {
    assert_eq!(
        write_line("2026-07-20T20:24:00.000", 42, Level::Warn, "low on room"),
        "2026-07-20T20:24:00.000 [42] WARN low on room"
    );
    assert_eq!(shown_to_user(Level::Info, "quiet"), None);
    assert!(!is_full(MAX_LOG_BYTES, MAX_LOG_BYTES));
    assert!(is_full(MAX_LOG_BYTES + 1, MAX_LOG_BYTES));
    assert_eq!(rotated_path("/logs/undo.log"), "/logs/undo.log.1");
}
