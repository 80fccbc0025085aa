//! What the commands answer, line by line.
use undo::activity::{
    checkpoint_notice, cmd_checkpoint_for, cmd_checkpoints, cmd_deleted, cmd_panic, cmd_timeline,
    LocalTime, PanicStep,
};
use undo::agent_hooks::{apply_hook, HookStep};
use undo::ask::{build_proposal, cmd_ask, print_proposal, AskStep};
use undo::changes::cmd_prune;
use undo::cli::{Agent, AgentKind};
use undo::daemon::{
    after_stop, cmd_start, cmd_status, integrity_notice, may_record, prune_notice,
    stop_one_daemon, Recorder, RecorderState, StartStep, Status, StopStep,
};
use undo::db::Database;
use undo::groups::build_groups;
use undo::integrity::IntegrityReport;
use undo::models::{FileEvent, Run};
use undo::places::Place;
use undo::recover::recover_before_change;
use undo::recovery_apply::{cmd_apply, print_recovery, print_recovery_end, AppliedRecovery};
use undo::replace::{delete_fault_text, write_fault_text, Fault};
use undo::restore::{
    cmd_restore, cmd_restore_deleted, plan_restore, RestoreKind, RestorePlan, RestoreRequest,
};
use undo::restore_fs::{CappedRead, Leaf, ProjectPath, Spot};
use undo::restore_report::{
    apply_restore_plan, check_plan, deleted_notice, fallback_notice, next_restore_step,
    print_restore_plan, written_notice, Preview, RestoreStep,
};
use undo::retention::{DiskUsage, PruneStats, RetentionConfig};
use undo::run_report::{print_completed, print_started};
use undo::runs::{cmd_reported_run_start, cmd_run_shorthand, cmd_run_start, cmd_run_stop, StartRunOptions};
use undo::sessions::{cmd_session_show, cmd_session_start, cmd_session_stop, started_line};
use undo::style::{BLUE, BOLD, DIM, GREEN, RED, RESET, YELLOW};

const ROOT: &str = "/repo";

fn setup() -> (Database, i64) {
    let mut db = Database::open_in_memory().unwrap();
    let project = db.get_or_create_project(ROOT).unwrap();
    (db, project.id)
}

fn usual() -> Agent<'static> {
    Agent {
        kind: AgentKind::Codex,
        word: "codex",
        label: "Codex",
    }
}

fn times() -> Vec<LocalTime> {
    vec![LocalTime {
        at: 100,
        text: "00:01".to_string(),
    }]
}

fn finished_run(db: &mut Database, pid: i64) -> Run {
    let run = db
        .start_run(pid, "nightly", "run", "agent", Some("Codex"), None, None, None)
        .unwrap();
    db.complete_run_at(run.id, "completed", run.started_at + 2).unwrap()
}

fn stats(events: u64) -> PruneStats {
    PruneStats {
        events_deleted: events,
        snapshots_deleted: 2,
        backups_deleted: 3,
        bytes_freed: 2048,
    }
}

#[test]
fn checkpoints_are_listed() {
    let (mut db, pid) = setup();
    assert_eq!(
        cmd_checkpoints(&db, pid, 100).unwrap(),
        vec!["No checkpoints yet.", "Create one with: undo checkpoint <name>"]
    );
    let (made, created) =
        cmd_checkpoint_for(&mut db, pid, " tests pass ", None, None, 40).unwrap();
    assert!(created);
    assert_eq!(
        checkpoint_notice(" tests pass ", &made, created),
        format!("{GREEN}Checkpoint saved:{RESET} tests pass (cp_1)")
    );
    assert_eq!(
        checkpoint_notice("tests pass", &made, false),
        "Checkpoint cp_1 already exists at this point; no changes made."
    );
    assert_eq!(
        cmd_checkpoint_for(&mut db, pid, "  ", None, None, 41).unwrap_err().to_string(),
        "A checkpoint needs a name."
    );
    let lines = cmd_checkpoints(&db, pid, 100).unwrap();
    assert_eq!(lines[0], format!("{BOLD}Checkpoints{RESET}"));
    assert_eq!(
        lines[2],
        format!("cp_1     {DIM}1 minute ago{RESET} tests pass (change 0)")
    );
}

#[test]
fn the_timeline_is_shown() {
    let (mut db, pid) = setup();
    assert_eq!(
        cmd_timeline(&db, pid, ROOT, 10, None, false, false, &times(), 100).unwrap(),
        vec!["No file changes recorded yet."]
    );
    db.add_event(pid, 100, "/repo/a.rs", "MODIFIED", Some("h"), None, None, None, None).unwrap();
    db.add_event(pid, 100, "/repo/c.rs", "RENAMED", Some("h"), Some("h"), None, Some("/repo/b.rs"), None)
        .unwrap();
    db.save_checkpoint(pid, None, "saved", 100, None, 100).unwrap();
    let lines = cmd_timeline(&db, pid, ROOT, 10, None, true, false, &times(), 100).unwrap();
    assert_eq!(
        lines,
        vec![
            format!("{BOLD}Recent file changes{RESET}"),
            String::new(),
            "No large groups of rapid file changes found.".to_string(),
            String::new(),
            format!("{DIM}00:01{RESET} {BLUE}Renamed{RESET} b.rs -> c.rs"),
            format!("{DIM}00:01{RESET} {YELLOW}Modified{RESET} a.rs"),
            String::new(),
            format!("{BOLD}Checkpoints{RESET}"),
            format!("{DIM}00:01{RESET} {BLUE}saved{RESET}"),
        ]
    );
    assert!(cmd_timeline(&db, pid, ROOT, 10, Some("x"), true, false, &times(), 100).is_err());
}

#[test]
fn deleted_files_are_listed() {
    let (mut db, pid) = setup();
    assert_eq!(
        cmd_deleted(&db, pid, ROOT, 5, 100).unwrap(),
        vec!["No recoverable deleted files found."]
    );
    db.add_event(pid, 40, "/repo/a.rs", "DELETED", None, Some("h"), None, None, None).unwrap();
    let lines = cmd_deleted(&db, pid, ROOT, 5, 100).unwrap();
    assert_eq!(lines[2], format!("{DIM}1 minute ago{RESET} a.rs"));
    assert_eq!(lines[4], "Restore one with: undo restore-deleted <path>");
}

#[test]
fn an_emergency_is_answered() {
    let (mut db, pid) = setup();
    assert!(cmd_panic(&db, pid, ROOT, true, false, &times(), 100).is_err());
    assert!(cmd_panic(&db, pid, ROOT, true, true, &times(), 100).is_err());
    for i in 0..5 {
        db.add_event(pid, 96 + i, &format!("/repo/{i}.rs"), "MODIFIED", Some("h"), None, None, None, None)
            .unwrap();
    }
    match cmd_panic(&db, pid, ROOT, true, true, &times(), 100).unwrap() {
        PanicStep::GoBack { target } => assert_eq!(target, 95),
        other => panic!("{other:?}"),
    }
    match cmd_panic(&db, pid, ROOT, false, false, &times(), 100).unwrap() {
        PanicStep::Tell(lines) => {
            assert_eq!(
                lines[2],
                format!("{YELLOW}Latest rapid change group{RESET}: 5 files, 5 changes, 0 deleted around 00:01")
            );
            assert_eq!(lines[3], "  Target timestamp: 95");
            assert_eq!(
                lines[lines.len() - 1],
                "Next: run the Preview command before using Restore."
            );
        }
        other => panic!("{other:?}"),
    }
}

#[test]
fn a_hook_is_carried_out() {
    let (mut db, pid) = setup();
    let paths = vec!["/repo/a.rs".to_string()];
    let open = HookStep::Open {
        change_id: "tool".to_string(),
        paths: paths.clone(),
    };
    let close = HookStep::Close {
        change_id: "tool".to_string(),
        paths,
    };
    apply_hook(&mut db, pid, "codex:1", usual(), &open, 10).unwrap();
    let run = db.get_run_by_external_id(pid, "codex:1").unwrap().unwrap();
    assert_eq!(run.name, "Codex session codex:1");
    apply_hook(&mut db, pid, "codex:1", usual(), &close, 20).unwrap();
    let change = db.get_run_boundary_by_external_id(run.id, "tool").unwrap().unwrap();
    assert_eq!(change.ended_at, Some(20));
    apply_hook(&mut db, pid, "codex:1", usual(), &HookStep::End, 30).unwrap();
    assert!(!db.get_session_by_id(run.id).unwrap().unwrap().is_active());
    apply_hook(&mut db, pid, "codex:2", usual(), &HookStep::End, 30).unwrap();
    apply_hook(&mut db, pid, "codex:2", usual(), &HookStep::Nothing, 30).unwrap();
    assert!(db.get_run_by_external_id(pid, "codex:2").unwrap().is_none());
}

#[test]
fn a_proposal_is_shown() {
    let (mut db, pid) = setup();
    let run = finished_run(&mut db, pid);
    match cmd_ask("undo auth", run, 0, &Vec::new(), ROOT, &Vec::new()).unwrap() {
        AskStep::Nothing(lines) => {
            assert_eq!(lines, vec!["Run r_1 has no recorded file changes."])
        }
        other => panic!("{other:?}"),
    }
    let run = db.get_session_by_id(1).unwrap().unwrap();
    let event = FileEvent {
        id: 1,
        project_id: pid,
        timestamp: 100,
        path: "/repo/src/auth/login.rs".to_string(),
        event_type: "MODIFIED".to_string(),
        current_hash: None,
        previous_hash: None,
        snapshot_path: None,
        old_path: None,
        file_size: None,
    };
    let groups = build_groups(ROOT, &vec![event], &vec![(1, 2)]);
    let lines = cmd_session_show(&run, "noon", "later", 1, &groups);
    assert_eq!(lines[0], format!("{BOLD}Run r_1{RESET} — nightly"));
    assert_eq!(
        lines[lines.len() - 1],
        format!("  src/auth — 1 files, 1 recorded changes, +1 -2 {DIM}(auth){RESET}")
    );
    let proposal = build_proposal("undo auth", run, ROOT, &groups).unwrap();
    let lines = print_proposal("undo auth", &proposal);
    assert_eq!(lines[1], "Run:     r_1 (nightly)");
    assert_eq!(lines[2], "Request: undo auth");
    assert_eq!(lines[4], format!("{YELLOW}Would undo{RESET}"));
    assert_eq!(lines[lines.len() - 1], "No files changed.");
    match cmd_ask("undo auth", proposal.session, 1, &Vec::new(), ROOT, &groups).unwrap() {
        AskStep::Files { paths, kind, confidence, lines: said, .. } => {
            assert_eq!(paths, vec!["/repo/src/auth/login.rs"]);
            assert_eq!(kind, "intent-fallback");
            assert_eq!(confidence, "path-match");
            assert_eq!(said, lines);
        }
        other => panic!("{other:?}"),
    }
    let run = db.get_session_by_id(1).unwrap().unwrap();
    match cmd_ask("undo payroll", run, 1, &Vec::new(), ROOT, &groups).unwrap() {
        AskStep::Nothing(lines) => assert_eq!(
            lines[lines.len() - 1],
            "No file changes matched your request.\nInspect this Run with: undo run show r_1"
        ),
        other => panic!("{other:?}"),
    }
}

/// A request that means a finished task takes that task back.
#[test]
fn a_task_is_meant_by_its_words() {
    let (mut db, pid) = setup();
    let run = db
        .start_run(pid, "nightly", "run", "agent", None, None, None, None)
        .unwrap();
    db.start_run_intent(run.id, "auth refactor").unwrap();
    db.complete_run_intent(run.id, None).unwrap();
    let run = db.complete_run(run.id, "completed").unwrap();
    let tasks = db.list_run_intents(run.id).unwrap();
    match cmd_ask("undo the auth refactor", run, 1, &tasks, ROOT, &Vec::new()).unwrap() {
        AskStep::Task { task, lines, .. } => {
            assert_eq!(task.label, "auth refactor");
            assert_eq!(lines[3], "Task:    auth refactor (i_1)");
        }
        other => panic!("{other:?}"),
    }
}

#[test]
fn a_recorder_begins_and_stops() {
    let here = vec![Recorder {
        pid: 9,
        root: "/repo/sub".to_string(),
    }];
    match cmd_start(false, ROOT, Some("9\n/repo\nready"), &here, 1).unwrap() {
        StartStep::Already(lines) => assert_eq!(lines[1], "Folder: /repo (recorder PID: 9)"),
        other => panic!("{other:?}"),
    }
    assert!(cmd_start(false, ROOT, None, &here, 1).is_err());
    match cmd_start(true, ROOT, None, &here, 1).unwrap() {
        StartStep::Begin(lines) => assert_eq!(lines[1], "Folder: /repo"),
        other => panic!("{other:?}"),
    }
    assert!(may_record(false, 0, ROOT, 1000, 1000).is_err());
    assert!(may_record(false, 1000, ROOT, 0, 1000).is_err());
    assert!(may_record(true, 0, ROOT, 0, 1000).is_ok());
    assert!(matches!(stop_one_daemon("9\n/repo", true).unwrap(), StopStep::Tell(9)));
    match stop_one_daemon("9\n/repo", false).unwrap() {
        StopStep::Stale(lines) => assert_eq!(lines[1], "Removed a stale recorder marker."),
        other => panic!("{other:?}"),
    }
    assert!(stop_one_daemon("?", true).is_err());
    assert_eq!(
        after_stop("9\n/repo", 9, false).unwrap(),
        vec!["Undo stopped recording file changes.", "Folder: /repo (recorder PID: 9)"]
    );
    assert!(after_stop("9\n/repo", 9, true).is_err());
}

#[test]
fn upkeep_is_reported() {
    assert_eq!(
        prune_notice(&stats(1)).unwrap(),
        "auto-prune: removed 1 events, 2 snapshots, 3 backups (freed 2.0 KB)"
    );
    assert_eq!(
        cmd_prune(&stats(1), 1024, true),
        vec![
            "Would delete 1 events, 2 saved copies, 3 backups.",
            "Freed 2.0 KB. Current storage: 1.0 KB.",
        ]
    );
    let clean = IntegrityReport {
        checked: 4,
        missing: 0,
        corrupt: 0,
    };
    assert_eq!(
        integrity_notice(&clean),
        (false, "integrity: 4 referenced snapshots present (existence check)".to_string())
    );
    let torn = IntegrityReport {
        checked: 4,
        missing: 1,
        corrupt: 1,
    };
    assert!(integrity_notice(&torn).0);
}

#[test]
fn the_status_is_shown() {
    assert_eq!(
        cmd_status(None),
        vec![
            format!("{BOLD}Undo recording status{RESET}"),
            String::new(),
            "Undo is not recording file changes for this folder.".to_string(),
            format!("Run {BOLD}undo start{RESET} to begin."),
        ]
    );
    let status = Status {
        root: ROOT.to_string(),
        recorder: RecorderState::Running("9\n/repo\nready".to_string()),
        db_path: "/d/database.db".to_string(),
        db_size: 1536,
        events: 12,
        snapshots: 3,
        health: IntegrityReport {
            checked: 4,
            missing: 1,
            corrupt: 1,
        },
        config: RetentionConfig::default(),
        usage: DiskUsage {
            total: 2048,
            snapshots: 512,
            backups: 0,
        },
        log_path: "/d/undo.log".to_string(),
    };
    let lines = cmd_status(Some(&status));
    assert_eq!(
        lines[2..],
        [
            "Folder:        /repo".to_string(),
            format!("Recording:     {GREEN}running{RESET} (PID 9)"),
            "Data index:    /d/database.db (1.5 KB)".to_string(),
            "File changes:  12".to_string(),
            "Saved versions: 3".to_string(),
            format!("History health: {RED}2 unreadable{RESET} (1 missing, 1 corrupt, of 4 checked)"),
            "Keep history:  7 days, 1.0 GB max".to_string(),
            "Storage:       2.0 KB (versions: 512 B, backups: 0 B, index: 1.5 KB)".to_string(),
            "Diagnostic log: /d/undo.log".to_string(),
        ]
    );
}

#[test]
fn a_restore_is_asked_for() {
    let (mut db, pid) = setup();
    db.save_checkpoint(pid, None, "saved", 70, None, 70).unwrap();
    assert!(cmd_restore(&db, pid, None, Some("1h"), None, None, false, 100).is_err());
    assert!(cmd_restore(&db, pid, None, None, None, None, true, 100).is_err());
    assert!(cmd_restore(&db, pid, Some("."), Some("1h"), None, None, true, 100).is_err());
    assert!(cmd_restore(&db, pid, Some("."), Some("1h"), Some("saved"), None, false, 100).is_err());
    assert!(cmd_restore(&db, pid, Some("."), None, Some("none"), None, false, 100).is_err());
    match cmd_restore(&db, pid, Some("."), Some("1m"), None, None, false, 100).unwrap() {
        RestoreRequest::AtTime(at, label) => {
            assert_eq!(at, 40);
            assert_eq!(label, "1m ago");
        }
        other => panic!("{other:?}"),
    }
    match cmd_restore(&db, pid, Some("."), None, Some("saved"), None, false, 100).unwrap() {
        RestoreRequest::AtEvent(at, label) => {
            assert_eq!(at, 0);
            assert_eq!(label, "checkpoint 'saved'");
        }
        other => panic!("{other:?}"),
    }
    assert!(matches!(
        cmd_restore(&db, pid, Some("a"), None, None, None, true, 100).unwrap(),
        RestoreRequest::Deleted
    ));
}

#[test]
fn a_restore_is_previewed_and_checked() {
    let (mut db, pid) = setup();
    let project = db.get_project_by_id(pid).unwrap().unwrap();
    db.add_event(pid, 40, "/repo/a.rs", "MODIFIED", Some("h"), None, None, None, None).unwrap();
    let disk = vec![
        Place {
            path: ROOT.to_string(),
            canonical: ROOT.to_string(),
            directory: true,
        },
        Place {
            path: "/repo/a.rs".to_string(),
            canonical: "/repo/a.rs".to_string(),
            directory: false,
        },
    ];
    let spot = |content: &[u8]| {
        vec![Spot {
            relative: "a.rs".to_string(),
            leaf: Leaf::File,
            read: CappedRead::Content(content.to_vec()),
        }]
    };
    let plan = plan_restore(&db, &project, ROOT, "a.rs", 50, true, false, &disk, &spot(b"now\n"))
        .unwrap();
    assert!(check_plan(&plan, &spot(b"now\n")).is_ok());
    assert!(apply_restore_plan(&plan, true).is_ok());
    assert!(matches!(next_restore_step(&plan, true, false).unwrap(), RestoreStep::Show));
    assert!(matches!(next_restore_step(&plan, false, false).unwrap(), RestoreStep::Apply));
    let empty = RestorePlan { entries: Vec::new() };
    match next_restore_step(&empty, true, false).unwrap() {
        RestoreStep::Nothing(lines) => {
            assert_eq!(lines[0], "No saved version matches this restore target.")
        }
        other => panic!("{other:?}"),
    }
    let previews = vec![Preview {
        current: CappedRead::Content(b"now\n".to_vec()),
        restored: b"then\n".to_vec(),
    }];
    let shown = print_restore_plan(&plan, "1m ago", &spot(b"now\n"), &previews, 100).unwrap();
    assert!(
        shown.starts_with(&format!(
            "{BOLD}Preview for 1m ago: 1 file change.{RESET}\nNo files changed.\nWould restore 1 file and delete 0 files.\n\n{GREEN}Would restore{RESET} a.rs to the version saved 1 minute ago.\n"
        )),
        "{shown}"
    );
    assert!(cmd_restore_deleted(&db, &project, ROOT, "a.rs", false, &disk).unwrap().is_none());
    assert!(cmd_restore_deleted(&db, &project, ROOT, "a.rs", true, &disk).is_err());
    db.add_event(pid, 60, "/repo/a.rs", "DELETED", None, Some("h"), None, None, None).unwrap();
    let back = cmd_restore_deleted(&db, &project, ROOT, "a.rs", false, &disk).unwrap().unwrap();
    assert_eq!(back.entries.len(), 1);
}

#[test]
fn what_a_restore_did_is_told() {
    assert_eq!(fallback_notice(RestoreKind::Exact, 40, 100), None);
    assert_eq!(
        fallback_notice(RestoreKind::OldestFallback, 40, 100).unwrap(),
        "No saved version that far back. Using the earliest one available (from 1 minute ago)."
    );
    assert!(
        fallback_notice(RestoreKind::DeletedFallback, 40, 100)
            .unwrap()
            .starts_with("File was deleted 1 minute ago")
    );
    assert_eq!(
        written_notice("a.rs", 40, 100, Some("/d/a.bak")),
        vec![
            format!("{GREEN}Restored{RESET} a.rs from the version saved 1 minute ago."),
            "Previous file saved at: /d/a.bak".to_string(),
        ]
    );
    assert_eq!(
        deleted_notice("a.rs", "/d/a.bak"),
        format!("{YELLOW}Deleted{RESET} a.rs and saved a backup to /d/a.bak.")
    );
    let target = ProjectPath::from_relative("src/a.rs").unwrap();
    assert_eq!(write_fault_text(Fault::Plain, &target, "t"), None);
    assert_eq!(
        write_fault_text(Fault::Backup, &target, "t").unwrap(),
        "the displaced file is preserved at 'src/t'"
    );
    assert_eq!(
        delete_fault_text(Fault::NotFile, &target, "t").unwrap(),
        "restore target 'src/a.rs' changed to a non-file before it could be deleted"
    );
}

#[test]
fn a_recovery_is_told_of() {
    let (mut db, pid) = setup();
    let made = db
        .create_recovery_at(pid, None, "undo auth", "group", "path-match", None, &Vec::new(), 100)
        .unwrap();
    let lines = print_recovery(&made, 2);
    assert_eq!(lines[0], format!("{BOLD}Saved recovery plan rec_1.{RESET}"));
    assert_eq!(lines[1], "Request:    undo auth");
    assert_eq!(lines[2], "Match:      Medium — matched file and folder names");
    assert_eq!(
        print_recovery_end(&made, 2),
        vec!["Apply this exact plan with: undo apply rec_1"]
    );
    assert_eq!(print_recovery_end(&made, 0)[0], "This plan would not change any files.");
    let mut outcome = AppliedRecovery {
        recovery: made,
        files_changed: 1,
        already_applied: false,
    };
    assert_eq!(
        cmd_apply(&outcome),
        format!("{GREEN}Changed 1 file using saved recovery plan rec_1.{RESET}")
    );
    outcome.already_applied = true;
    assert_eq!(
        cmd_apply(&outcome),
        format!("{GREEN}Saved recovery plan rec_1 was already applied; no files changed.{RESET}")
    );
    assert_eq!(
        recover_before_change(2, 7).unwrap(),
        (6, "2 files to before change 7".to_string())
    );
    assert!(recover_before_change(2, 0).is_err());
}

#[test]
fn runs_begin_and_end() {
    let (mut db, pid) = setup();
    let options = StartRunOptions {
        name: Some(" work "),
        ..StartRunOptions::default()
    };
    let run = cmd_run_start(&mut db, pid, options, 7).unwrap();
    assert_eq!(run.name, "work");
    assert_eq!(run.actor, "human");
    assert_eq!(
        print_started(&run, ROOT)[1],
        "Folder: /repo"
    );
    let run = cmd_run_stop(&mut db, ROOT, pid, None, "failed").unwrap();
    let lines = print_completed(&run, 0);
    assert!(lines[0].starts_with(&format!("{RED}Run failed{RESET} r_1 (")), "{lines:?}");
    assert!(cmd_run_stop(&mut db, ROOT, pid, None, "failed").is_err());
    let options = StartRunOptions {
        agent: Some("Codex"),
        external_id: Some("codex:1"),
        ..StartRunOptions::default()
    };
    let reported = cmd_reported_run_start(&mut db, pid, options, 7).unwrap();
    assert!(reported.is_reported());
    let plan =
        cmd_run_shorthand(vec!["codex".to_string(), "--".to_string(), "fix".to_string()], usual())
            .unwrap();
    assert_eq!(plan.arguments, vec!["fix"]);
}

#[test]
fn sessions_begin_and_end() {
    let (mut db, pid) = setup();
    assert!(cmd_session_start(&mut db, pid, " ").is_err());
    let session = cmd_session_start(&mut db, pid, " work ").unwrap();
    assert_eq!(
        started_line(&session, "00:00:01"),
        format!("{GREEN}Recording started for Run r_1{RESET} (work) at 00:00:01.")
    );
    assert_eq!(cmd_session_stop(None, 0), "No active Run.");
    assert_eq!(
        cmd_session_stop(Some(&session), 1),
        format!("{GREEN}Run completed{RESET} r_1 (work, 1 file change).")
    );
}
