//! Questions to the history, and small decisions of the commands.
use undo::agent_events::{cmd_event, process_event, settle_event, AgentEvent, EventStep, Site};
use undo::compare::{cmd_diff, CurrentFile};
use undo::daemon::{
    active_daemons, cmd_stop, pid_file_for_root, pid_state, stop_all_daemons, Mark, StopRequest,
};
use undo::db::{Claim, Database};
use undo::logging::info;
use undo::models::Run;
use undo::restore::{resolve_exact_source_at_session_start, RestoreKind};
use undo::restore_report::{restore_deleted, RestoreStep};
use undo::retention::{
    files_left, removed_in_all, size_fits, Backstop, PrunePlan, PruneStats, StoredFile,
};
use undo::run_report::checkpoints_of;

const ROOT: &str = "/home/user/project";
const FILE: &str = "/home/user/project/a.rs";

fn history() -> (Database, i64) {
    let mut db = Database::open_in_memory().unwrap();
    let id = db.get_or_create_project(ROOT).unwrap().id;
    (db, id)
}

fn change(db: &mut Database, project: i64, at: i64, path: &str, hash: &str, before: Option<&str>) {
    let kind = if before.is_some() { "MODIFIED" } else { "CREATED" };
    db.add_event(
        project,
        at,
        path,
        kind,
        Some(hash),
        before,
        None,
        None,
        None,
    )
    .unwrap();
}

fn reported(db: &mut Database, project: i64, key: &str) -> Run {
    db.start_reported_run(project, key, "hook", "agent", None, None, None, key)
        .unwrap()
}

#[test]
fn a_new_history_is_sound_and_stray_claims_are_not() {
    let (mut db, id) = history();
    change(&mut db, id, 100, FILE, "h1", None);
    let run = reported(&mut db, id, "one");
    assert!(db.is_sound());
    db.claims.push(Claim {
        session_id: run.id,
        event_id: 99,
    });
    assert!(!db.is_sound());
}

#[test]
fn ids_that_do_not_grow_are_not_sound() {
    let (mut db, id) = history();
    change(&mut db, id, 100, FILE, "h1", None);
    change(&mut db, id, 101, FILE, "h2", Some("h1"));
    assert!(db.is_sound());
    db.events.swap(0, 1);
    assert!(!db.is_sound());
}

#[test]
fn time_bounds_are_those_of_one_project() {
    let (mut db, id) = history();
    assert_eq!(db.event_time_bounds(id).unwrap(), (None, None));
    let other = db.get_or_create_project("/home/user/other").unwrap().id;
    change(&mut db, id, 300, FILE, "h1", None);
    change(&mut db, id, 200, FILE, "h2", Some("h1"));
    change(&mut db, other, 900, "/home/user/other/b.rs", "h3", None);
    assert_eq!(db.event_time_bounds(id).unwrap(), (Some(200), Some(300)));
}

#[test]
fn a_session_knows_a_file_before_and_during_it() {
    let (mut db, id) = history();
    change(&mut db, id, 100, FILE, "h1", None);
    let run = db.start_session(id, "work", "manual").unwrap();
    assert!(db
        .get_first_path_event_in_session(&run, FILE)
        .unwrap()
        .is_none());
    let later = run.started_at + 1;
    change(&mut db, id, later, FILE, "h2", Some("h1"));
    change(&mut db, id, later, FILE, "h3", Some("h2"));
    let before = db.get_event_at_session_start(&run, FILE).unwrap().unwrap();
    assert_eq!(before.current_hash.as_deref(), Some("h1"));
    let first = db
        .get_first_path_event_in_session(&run, FILE)
        .unwrap()
        .unwrap();
    assert_eq!(first.current_hash.as_deref(), Some("h2"));
    assert!(db
        .get_event_at_session_start(&run, "/home/user/project/b.rs")
        .unwrap()
        .is_none());
}

#[test]
fn the_source_at_the_start_of_a_session_is_exact() {
    let (mut db, id) = history();
    change(&mut db, id, 100, FILE, "h1", None);
    let run = db.start_session(id, "work", "manual").unwrap();
    change(&mut db, id, 200, FILE, "h2", Some("h1"));
    let source = resolve_exact_source_at_session_start(&db, &run, FILE)
        .unwrap()
        .unwrap();
    assert_eq!((source.hash.as_str(), source.timestamp), ("h1", 100));
    assert_eq!(source.kind, RestoreKind::Exact);
    assert!(
        resolve_exact_source_at_session_start(&db, &run, "/home/user/project/b.rs")
            .unwrap()
            .is_none()
    );
}

#[test]
fn claims_are_counted_for_each_change() {
    let (mut db, id) = history();
    let first = reported(&mut db, id, "one");
    let second = reported(&mut db, id, "two");
    let paths = vec![FILE.to_string()];
    db.open_run_boundary(first.id, "c1", &paths).unwrap();
    db.open_run_boundary(second.id, "c2", &paths).unwrap();
    change(&mut db, id, 100, FILE, "h1", None);
    db.close_run_boundary(first.id, "c1", &paths).unwrap();
    assert_eq!(
        db.get_event_claim_counts(id, 1, 10).unwrap(),
        vec![(1, 1)]
    );
    db.close_run_boundary(second.id, "c2", &paths).unwrap();
    change(&mut db, id, 101, FILE, "h2", Some("h1"));
    assert_eq!(
        db.get_event_claim_counts(id, 1, 10).unwrap(),
        vec![(1, 2)]
    );
    assert_eq!(db.get_event_claim_counts(id, 2, 10).unwrap(), vec![]);
}

#[test]
fn an_aborted_change_claims_nothing() {
    let (mut db, id) = history();
    let run = reported(&mut db, id, "one");
    let paths = vec![FILE.to_string()];
    db.open_run_boundary(run.id, "c1", &paths).unwrap();
    change(&mut db, id, 100, FILE, "h1", None);
    let ended = db.abort_run_boundary(run.id, "c1").unwrap();
    assert_eq!(ended.status, "aborted");
    assert!(ended.ended_at.is_some());
    assert_eq!(db.count_run_claimed_events(run.id).unwrap(), 0);
    assert!(db.abort_run_boundary(run.id, "missing").is_err());
}

#[test]
fn the_latest_applied_recovery_is_known() {
    let (mut db, id) = history();
    assert_eq!(db.latest_applied_recovery_at(id).unwrap(), None);
    let none = Vec::new();
    let first = db
        .create_recovery_at(id, None, "a", "run", "exact-paths", None, &none, 100)
        .unwrap();
    let second = db
        .create_recovery_at(id, None, "b", "run", "exact-paths", None, &none, 100)
        .unwrap();
    db.mark_recovery_applied_at(second.id, 300).unwrap();
    db.mark_recovery_applied_at(first.id, 200).unwrap();
    assert_eq!(db.latest_applied_recovery_at(id).unwrap(), Some(300));
}

#[test]
fn all_file_states_of_a_project_are_given() {
    let (mut db, id) = history();
    let other = db.get_or_create_project("/home/user/other").unwrap().id;
    db.record_file_state(id, FILE, "h1", true, 5, Some(7), 100)
        .unwrap();
    db.record_file_state(other, "/home/user/other/b.rs", "h2", true, 6, None, 100)
        .unwrap();
    db.mark_deleted_at(id, FILE, 200).unwrap();
    let states = db.get_all_file_states(id).unwrap();
    assert_eq!(states.len(), 1);
    assert_eq!(states[0].path, FILE);
    assert!(!states[0].exists_now);
    assert_eq!(states[0].last_seen_at, 200);
}

/// The start of a Run, reported under a key.
fn started(key: &str) -> AgentEvent {
    AgentEvent {
        version: 1,
        event: "run_started".to_string(),
        idempotency_key: key.to_string(),
        run_id: None,
        name: Some("nightly".to_string()),
        actor: Some("agent".to_string()),
        agent: None,
        command: None,
        intent: None,
        status: None,
        external_run_id: None,
        external_change_id: None,
        paths: None,
    }
}

/// The same JSON under a key is answered once, other JSON is refused.
#[test]
fn a_request_is_answered_once() {
    let (mut db, _) = history();
    let event = started("key");
    let first = "{\"a\":1,\"b\":[2]}";
    let hash = match cmd_event(&db, first, &event).unwrap() {
        EventStep::Process(hash) => hash,
        other => panic!("{other:?}"),
    };
    assert_eq!(hash.len(), 64);
    settle_event(&mut db, &event, &hash, None, "answer").unwrap();
    assert!(matches!(
        cmd_event(&db, " { \"b\" : [2],\n \"a\" : 1 } ", &event).unwrap(),
        EventStep::Answered(answer) if answer == "answer"
    ));
    let refused = cmd_event(&db, "{\"a\":2,\"b\":[2]}", &event).unwrap_err();
    assert_eq!(
        refused.to_string(),
        "idempotency key 'key' was already used with a different payload"
    );
    assert!(settle_event(&mut db, &event, "other", None, "late").is_err());
    assert_eq!(db.integration.len(), 1);
    assert!(cmd_event(&db, "no json", &event).is_err());
    assert!(cmd_event(&db, first, &started("")).is_err());
}

#[test]
fn checkpoints_of_a_run_are_told_apart() {
    let (mut db, id) = history();
    let run = db.start_session(id, "work", "manual").unwrap();
    db.save_checkpoint(id, None, "loose", 100, None, 100).unwrap();
    db.save_checkpoint(id, Some(run.id), "mine", 100, None, 100)
        .unwrap();
    let found = checkpoints_of(&run, &db.list_checkpoints(id).unwrap());
    assert_eq!(found.len(), 1);
    assert_eq!(found[0].name, "mine");
}

fn stats() -> PruneStats {
    PruneStats {
        events_deleted: 1,
        snapshots_deleted: 2,
        backups_deleted: 3,
        bytes_freed: 4,
    }
}

#[test]
fn a_plan_leaves_the_files_that_it_does_not_name() {
    let plan = PrunePlan {
        stats: stats(),
        temps: vec!["t".to_string()],
        snapshots: vec!["s".to_string()],
        backups: vec!["b".to_string()],
    };
    let files = ["a", "t", "s", "z", "b"]
        .iter()
        .map(|path| StoredFile {
            path: path.to_string(),
            size: 1,
            modified: None,
        })
        .collect();
    let left: Vec<String> = files_left(&files, &plan)
        .into_iter()
        .map(|file| file.path)
        .collect();
    assert_eq!(left, vec!["a", "z"]);
}

#[test]
fn what_made_room_is_counted_too() {
    let made = Backstop {
        current: 0,
        removed: vec!["a".to_string(), "b".to_string()],
        bytes_freed: 10,
        warning: None,
    };
    assert_eq!(
        removed_in_all(stats(), &made),
        PruneStats {
            events_deleted: 1,
            snapshots_deleted: 4,
            backups_deleted: 3,
            bytes_freed: 14,
        }
    );
}

#[test]
fn an_event_is_processed_now() {
    let (mut db, id) = history();
    let event = started("key");
    let site = Site {
        project_id: id,
        project_root: ROOT,
        cwd: ROOT,
        root: ROOT,
        process: 4,
    };
    let (run, reply) = process_event(&mut db, &event, &site, &Vec::new()).unwrap();
    assert_eq!(run, Some(1));
    assert_eq!(reply.run_id, "r_1");
    assert_eq!(db.get_active_session(id).unwrap().unwrap().name, "nightly");
}

#[test]
fn an_info_line_says_its_level() {
    assert_eq!(info("12:00", 7, "hello"), "12:00 [7] INFO hello");
}

#[test]
fn sizes_are_added_only_while_they_fit() {
    let file = |size: u64| StoredFile {
        path: "f".to_string(),
        size,
        modified: None,
    };
    assert_eq!(size_fits(&vec![file(3), file(4)], 10), Some(3));
    assert_eq!(size_fits(&vec![file(3), file(4)], 7), Some(0));
    assert_eq!(size_fits(&vec![file(u64::MAX), file(1)], u64::MAX), None);
}

#[test]
fn only_held_marks_name_recorders() {
    let mark = |path: &str, held: bool| Mark {
        path: path.to_string(),
        contents: Some(pid_state(12, path, "ready")),
        held,
    };
    let mut marks = vec![
        mark("/d/pids/a.pid", true),
        mark("/d/pids/b.pid", false),
        mark("/d/pids/c.lock", true),
    ];
    marks.push(Mark {
        path: "/d/pids/e.pid".to_string(),
        contents: None,
        held: true,
    });
    let found = active_daemons(&marks);
    assert_eq!(found.len(), 1);
    assert_eq!((found[0].pid, found[0].root.as_str()), (12, "/d/pids/a.pid"));
}

#[test]
fn a_stop_is_about_one_folder_or_all() {
    let own = pid_file_for_root("/d", ROOT);
    let files = vec![
        "/d/pids/other.pid".to_string(),
        own.clone(),
        "/d/pids/note.txt".to_string(),
    ];
    assert!(matches!(
        cmd_stop("/d", ROOT, false, Some(&files)),
        StopRequest::Marks(marks) if marks == vec![own.clone()]
    ));
    assert!(matches!(
        cmd_stop("/d", ROOT, true, Some(&files)),
        StopRequest::Marks(marks) if marks == files[..2].to_vec()
    ));
    assert!(matches!(
        cmd_stop("/d", "/elsewhere", false, Some(&files)),
        StopRequest::Nobody(line) if line == "Undo is not recording file changes for this folder."
    ));
    assert!(matches!(
        cmd_stop("/d", ROOT, true, None),
        StopRequest::Nobody(line) if line == "Undo is not recording file changes in any folder."
    ));
    assert_eq!(
        stop_all_daemons(0).as_deref(),
        Some("Undo was not recording file changes in any folder.")
    );
    assert_eq!(stop_all_daemons(2), None);
}

#[test]
fn a_deleted_file_without_a_version_is_said_so() {
    assert!(matches!(
        restore_deleted(false, true),
        RestoreStep::Nothing(lines)
            if lines[0] == "No saved version is available for this deleted file."
    ));
    assert!(matches!(restore_deleted(true, true), RestoreStep::Show));
    assert!(matches!(restore_deleted(true, false), RestoreStep::Apply));
}

#[test]
fn a_comparison_without_a_saved_version_is_said_so() {
    assert_eq!(
        cmd_diff(None, false, &CurrentFile::Missing, "f", "f", 100, false, false),
        "No saved version matches this selection.\n"
    );
}

#[test]
fn context_lines_stand_round_a_change() {
    let saved = b"1\n2\n3\n4\n5\n6\n7\n8\n9\n".to_vec();
    let now = b"1\n2\n3\n4\nfive\n6\n7\n8\n9\n".to_vec();
    let shown = cmd_diff(
        Some(&saved),
        false,
        &CurrentFile::Content(now),
        "f",
        "f",
        100,
        false,
        false,
    );
    assert!(shown.contains(" 2\n 3\n 4\n"));
    assert!(shown.contains(" 6\n 7\n 8\n"));
    assert!(!shown.contains(" 1\n"));
    assert!(!shown.contains(" 9\n"));
}
