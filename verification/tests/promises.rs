//! What holds of the library as a whole, on chosen values.
use undo::activity::{detect_bursts, format_local_time, parse_since, LocalTime};
use undo::agent_events::{
    check_request, normalize_reported_paths, process_event_at, request_hash, settle_event,
    validate_event, AgentEvent, Site,
};
use undo::ask::{build_proposal, match_explicit_intent, resolve_run};
use undo::changes::{change_report, cmd_what_changed, paths_ended_as};
use undo::cli::{parse_positive_usize, Agent, AgentKind, AskArgs};
use undo::compare::{cmd_diff, CurrentFile};
use undo::db::Database;
use undo::diff::{diff_stats, escape_bytes, print_unified_diff_with_labels, render_bytes_for_diff};
use undo::groups::{build_groups, diff_stats_for_event, slugify};
use undo::hex::{hash_bytes, short_hash};
use undo::models::FileEvent;
use undo::path::{normalize, relative_path};
use undo::places::Place;
use undo::recover::{cmd_recover, find_group, RecoverStep};
use undo::replace::{begin_delete, begin_write, next_delete, next_write, Came, Fault, Step};
use undo::restore::{resolve_state_at_time, BoundaryState};
use undo::restore_fs::{after_attempt, temporary_name, AfterAttempt, Attempt, ProjectPath};
use undo::retention::{
    disk_usage_breakdown, load_config, prune, size_backstop, total_disk_usage, ProjectStore,
    RawConfig, RetentionConfig, StoredFile,
};
use undo::run_report::{cmd_run_show, cmd_runs, run_duration};
use undo::runs::{cmd_run_command, run_outcome, validate_actor, validate_completion_status};
use undo::sessions::{cmd_session_stop, session_named};
use undo::size::{format_size, kilobytes};

fn usual() -> Agent<'static> {
    Agent {
        kind: AgentKind::Codex,
        word: "codex",
        label: "Codex",
    }
}

fn event(id: i64, timestamp: i64, path: &str, event_type: &str) -> FileEvent {
    FileEvent {
        id,
        project_id: 1,
        timestamp,
        path: path.to_string(),
        event_type: event_type.to_string(),
        current_hash: None,
        previous_hash: None,
        snapshot_path: None,
        old_path: None,
        file_size: None,
    }
}

fn setup() -> (Database, i64) {
    let mut db = Database::open_in_memory().unwrap();
    let project = db.get_or_create_project("/repo").unwrap();
    (db, project.id)
}

fn report(name: &str, key: &str) -> AgentEvent {
    AgentEvent {
        version: 2,
        event: name.to_string(),
        idempotency_key: key.to_string(),
        run_id: None,
        name: None,
        actor: None,
        agent: Some("Codex".to_string()),
        command: None,
        intent: None,
        status: None,
        external_run_id: Some("codex:1".to_string()),
        external_change_id: None,
        paths: None,
    }
}

fn site(project_id: i64) -> Site<'static> {
    Site {
        project_id,
        project_root: "/repo",
        cwd: "/repo",
        root: "/repo",
        process: 7,
    }
}

fn stored(path: &str, size: u64, modified: i64) -> StoredFile {
    StoredFile {
        path: path.to_string(),
        size,
        modified: Some(modified),
    }
}

// ── versions ────────────────────────────────────────────────────────

/// The version that was recorded last is the one that a time gives back,
/// whatever is recorded later.
#[test]
fn a_recorded_version_is_given_back() {
    let (mut db, pid) = setup();
    let path = "/repo/a.rs";
    db.add_event(pid, 100, path, "CREATED", Some("one"), None, None, None, None)
        .unwrap();
    for _ in 0..2 {
        match resolve_state_at_time(&db, pid, path, 150).unwrap() {
            BoundaryState::Present(source) => assert_eq!(source.hash, "one"),
            other => panic!("{other:?}"),
        }
        db.add_event(pid, 200, path, "MODIFIED", Some("two"), Some("one"), None, None, None)
            .unwrap();
    }
    db.add_event(pid, 300, path, "DELETED", None, Some("two"), None, None, None)
        .unwrap();
    assert!(matches!(
        resolve_state_at_time(&db, pid, path, 300).unwrap(),
        BoundaryState::Absent
    ));
}

// ── doing a thing twice ─────────────────────────────────────────────

#[test]
fn a_run_starts_once_for_its_outside_name() {
    let (mut db, pid) = setup();
    let start = |db: &mut Database, now| {
        db.start_run_with_attribution(pid, "a", "hook", "reported", "agent", None, None, None, Some("codex:1"), now)
            .unwrap()
    };
    let first = start(&mut db, 10);
    let again = start(&mut db, 20);
    assert_eq!(first.id, again.id);
    assert_eq!(again.started_at, 10);
}

#[test]
fn a_checkpoint_is_saved_once() {
    let (mut db, pid) = setup();
    let (first, created) = db.save_checkpoint(pid, None, "tests pass", 10, None, 10).unwrap();
    assert!(created);
    let (again, created) = db.save_checkpoint(pid, None, "tests pass", 99, None, 99).unwrap();
    assert!(!created);
    assert_eq!(first.id, again.id);
    assert_eq!(again.timestamp, 10);
}

#[test]
fn a_change_is_opened_and_closed_once() {
    let (mut db, pid) = setup();
    let run = db
        .start_reported_run(pid, "a", "hook", "agent", None, None, None, "codex:1")
        .unwrap();
    let paths = vec!["/repo/a.rs".to_string()];
    let first = db.open_run_boundary_at(run.id, "tool", &paths, 10).unwrap();
    let again = db.open_run_boundary_at(run.id, "tool", &paths, 20).unwrap();
    assert_eq!(first.id, again.id);
    let closed = db.close_run_boundary_at(run.id, "tool", &paths, 30).unwrap();
    let again = db.close_run_boundary_at(run.id, "tool", &paths, 40).unwrap();
    assert_eq!(closed.ended_at, Some(30));
    assert_eq!(again.ended_at, Some(30));
}

/// An event that is reported again begins nothing new, and is answered as before.
#[test]
fn an_event_is_answered_once() {
    let (mut db, pid) = setup();
    let started = report("run_started", "key-1");
    assert!(validate_event(&started).is_ok());
    let (run, reply) = process_event_at(&mut db, &started, &site(pid), &Vec::new(), 10, 10).unwrap();
    assert_eq!(reply.status.as_deref(), Some("active"));
    let (again, _) = process_event_at(&mut db, &started, &site(pid), &Vec::new(), 20, 20).unwrap();
    assert_eq!(run, again);
    let hash = request_hash("{\"event\":\"run_started\"}").unwrap();
    let said = settle_event(&mut db, &started, &hash, run, "{\"run\":1}").unwrap();
    let repeated = settle_event(&mut db, &started, &hash, run, "{\"run\":2}").unwrap();
    assert_eq!(said, "{\"run\":1}");
    assert_eq!(repeated, said);
    assert!(db.get_integration_response("key-1", "another request").is_err());
}

#[test]
fn a_run_ends_once() {
    let (mut db, pid) = setup();
    let run = db
        .start_run(pid, "a", "run", "human", None, None, None, None)
        .unwrap();
    db.complete_run_at(run.id, "completed", 50).unwrap();
    let again = db.complete_run_at(run.id, "failed", 60).unwrap();
    assert_eq!(again.status, "completed");
    assert_eq!(again.ended_at, Some(50));
}

/// While a Run owns all that changes, no reported one starts, nor the other way.
#[test]
fn the_two_ways_of_recording_are_kept_apart() {
    let (mut db, pid) = setup();
    let whole = db
        .start_run(pid, "a", "run", "human", None, None, None, None)
        .unwrap();
    assert!(
        db.start_reported_run(pid, "b", "hook", "agent", None, None, None, "codex:1")
            .is_err()
    );
    db.complete_run(whole.id, "completed").unwrap();
    db.start_reported_run(pid, "b", "hook", "agent", None, None, None, "codex:1")
        .unwrap();
    assert!(
        db.start_run(pid, "c", "run", "human", None, None, None, None)
            .is_err()
    );
}

// ── what is kept ────────────────────────────────────────────────────

fn config(days: u64) -> RetentionConfig {
    RetentionConfig {
        retention_days: days,
        max_size_mb: 1024,
        retention_secs_override: None,
    }
}

/// Pruning removes old changes and what only they needed; a dry run tells the
/// same and does nothing.
#[test]
fn pruning_keeps_what_is_recent_or_needed() {
    let (mut db, pid) = setup();
    let now = 10_000_000;
    db.add_event(pid, 100, "/repo/a.rs", "MODIFIED", Some("old"), None, None, None, None)
        .unwrap();
    db.add_event(pid, now - 10, "/repo/a.rs", "MODIFIED", Some("new"), Some("mid"), None, None, None)
        .unwrap();
    let snapshots = vec![
        stored("/d/snapshots/1/old.gz", 5, 1),
        stored("/d/snapshots/1/mid.gz", 7, 1),
        stored("/d/snapshots/1/new.gz", 11, 1),
    ];
    let backups = vec![
        stored("/d/backups/a.bak", 3, 100_000_000_000),
        stored("/d/backups/b.bak", 4, now * 1_000_000_000),
    ];
    let temps = vec![
        stored("/d/snapshots/1/deadbeef.gz.tmp.999.1", 17, now - 7200),
        stored("/d/snapshots/1/cafef00d.gz.tmp.1000.2", 9, now),
    ];
    let told = prune(&mut db, pid, &config(7), now, &temps, now - 3600, &snapshots, &backups, true)
        .unwrap();
    assert_eq!(told.stats.events_deleted, 1);
    assert_eq!(told.stats.snapshots_deleted, 1);
    assert_eq!(told.stats.backups_deleted, 1);
    assert_eq!(told.stats.bytes_freed, 17 + 5 + 3);
    assert_eq!(db.count_events(pid).unwrap(), 2);

    let plan = prune(&mut db, pid, &config(7), now, &temps, now - 3600, &snapshots, &backups, false)
        .unwrap();
    assert_eq!(db.count_events(pid).unwrap(), 1);
    assert_eq!(plan.temps, vec!["/d/snapshots/1/deadbeef.gz.tmp.999.1"]);
    assert_eq!(plan.snapshots, vec!["/d/snapshots/1/old.gz"]);
    assert_eq!(plan.backups, vec!["/d/backups/a.bak"]);
    assert_eq!(plan.stats, told.stats);
    assert_eq!(plan.snapshots, told.snapshots);
}

/// A cleanup whose files cannot be added up is refused, tried out or not, and
/// changes nothing.
#[test]
fn cleanup_that_cannot_be_counted_changes_nothing() {
    let now = 1_700_000_000;
    let (mut db, pid) = setup();
    db.add_event(pid, 100, "/repo/a.rs", "CREATED", Some("old"), None, None, None, None)
        .unwrap();
    let none = Vec::new();
    let snapshots = vec![
        stored("/d/snapshots/1/one.gz", u64::MAX, 1),
        stored("/d/snapshots/1/two.gz", 1, 1),
    ];
    for dry_run in [true, false] {
        let error = prune(&mut db, pid, &config(7), now, &none, now, &snapshots, &none, dry_run)
            .unwrap_err();
        assert_eq!(error.to_string(), "the files of Undo are too large to add up");
        assert_eq!(db.count_events(pid).unwrap(), 1);
    }
    let one = vec![stored("/d/snapshots/1/one.gz", u64::MAX, 1)];
    let plan = prune(&mut db, pid, &config(7), now, &none, now, &one, &none, false).unwrap();
    assert_eq!(plan.stats.bytes_freed, u64::MAX);
    assert_eq!(db.count_events(pid).unwrap(), 0);
}

/// Within the size that the store may have, no room is made.
#[test]
fn no_room_is_made_where_none_is_needed() {
    let (db, pid) = setup();
    let megabyte = 1024 * 1024;
    let stores = vec![ProjectStore {
        project_id: pid,
        files: vec![stored("/d/snapshots/1/loose.gz", megabyte, 2)],
    }];
    let mut small = config(7);
    small.max_size_mb = 1;
    let made = size_backstop(&db, &small, megabyte, &stores, 100).unwrap();
    assert!(made.removed.is_empty());
    assert_eq!(made.bytes_freed, 0);
    assert_eq!(made.current, megabyte);
    assert!(made.warning.is_none());
}

/// Where the store is over its size, versions that nothing needs go, oldest
/// first; the ones in use stay.
#[test]
fn making_room_spares_versions_in_use() {
    let (mut db, pid) = setup();
    db.upsert_file_state(pid, "/repo/a.rs", "live", true, 1, None)
        .unwrap();
    let megabyte = 1024 * 1024;
    let stores = vec![ProjectStore {
        project_id: pid,
        files: vec![
            stored("/d/snapshots/1/live.gz", megabyte, 1),
            stored("/d/snapshots/1/loose.gz", megabyte, 2),
        ],
    }];
    let mut small = config(7);
    small.max_size_mb = 1;
    let made = size_backstop(&db, &small, 2 * megabyte, &stores, 100).unwrap();
    assert_eq!(made.removed, vec!["/d/snapshots/1/loose.gz"]);
    assert_eq!(made.bytes_freed, megabyte);
    assert_eq!(made.current, megabyte);
    assert!(made.warning.is_none());
    let made = size_backstop(&db, &small, 5 * megabyte, &stores, 100).unwrap();
    assert!(made.warning.is_some());
}

#[test]
fn usage_is_told_by_place() {
    let files = vec![
        stored("/home/user/.undo/snapshots/1/a.gz", 100, 0),
        stored("/home/user/.undo/snapshots/1/b.gz", 50, 0),
        stored("/home/user/.undo/backups/f.bak", 30, 0),
        stored("/home/user/.undo/database.db", 7, 0),
    ];
    let usage = disk_usage_breakdown("/home/user/.undo", &files);
    assert_eq!(usage.snapshots, 150);
    assert_eq!(usage.backups, 30);
    assert_eq!(usage.total, 187);
    assert_eq!(total_disk_usage(&files), 187);
}

#[test]
fn a_project_overrides_settings() {
    let own = Some(RawConfig {
        retention_days: Some(30),
        max_size_mb: None,
    });
    let cfg = load_config(&None, &own);
    assert_eq!(cfg.retention_days, 30);
    assert_eq!(cfg.max_size_mb, 1024);
    let both = Some(RawConfig {
        retention_days: Some(14),
        max_size_mb: Some(512),
    });
    let cfg = load_config(&own, &both);
    assert_eq!(cfg.retention_days, 14);
    assert_eq!(cfg.max_size_mb, 512);
}

// ── replacing files ─────────────────────────────────────────────────

/// Whatever stands where a file is to be removed from the place beside it has
/// been saved before.
#[test]
fn nothing_is_removed_before_it_is_saved() {
    let steps = [
        Came::Done,
        Came::Failed,
        Came::Different,
        Came::Taken,
        Came::Gone,
    ];
    let mut ways = vec![(begin_write(true), false, false), (begin_delete(), false, true)];
    let mut seen = 0;
    while let Some((p, saved, removing)) = ways.pop() {
        seen += 1;
        assert!(seen < 10_000);
        if p.step == Step::RemoveBeside {
            assert!(saved);
        }
        if p.step == Step::Finished {
            continue;
        }
        for came in steps {
            let saved = saved || (p.step == Step::Backup && came == Came::Done);
            let next = if removing {
                next_delete(p, came)
            } else {
                next_write(p, came)
            };
            ways.push((next, saved, removing));
        }
    }
}

#[test]
fn a_file_that_appears_is_not_replaced() {
    let p = next_write(begin_write(false), Came::Done);
    assert_eq!(p.step, Step::Link);
    let p = next_write(p, Came::Taken);
    assert_eq!(p.fault, Some(Fault::Taken));
    assert_eq!(p.step, Step::Cleanup);
}

#[test]
fn two_attempts_have_two_names() {
    assert_ne!(
        temporary_name("a.rs", "write", 7, 100, 0),
        temporary_name("a.rs", "write", 7, 100, 1)
    );
    assert_eq!(after_attempt(0, Attempt::Exists), AfterAttempt::Again);
    assert_eq!(after_attempt(0, Attempt::Taken), AfterAttempt::Done);
    assert_eq!(after_attempt(0, Attempt::Failed), AfterAttempt::Fail);
}

#[test]
fn a_project_path_stays_inside() {
    let path = ProjectPath::from_relative("./src//main.rs").unwrap();
    assert_eq!(path.relative(), "src/main.rs");
    assert_eq!(path.absolute("/repo"), "/repo/src/main.rs");
    assert_eq!(path.parent(), "src");
    assert_eq!(path.file_name(), "main.rs");
    assert!(ProjectPath::from_relative("").is_err());
    assert!(ProjectPath::from_relative("/etc/passwd").is_err());
    assert!(ProjectPath::from_stored("/repo", "/repo/../etc").is_err());
}

// ── texts and numbers ───────────────────────────────────────────────

#[test]
fn sizes_agree_with_division() {
    for bytes in [0u64, 1, 1023, 1024, 1536, 1_048_575, 1_048_576, 123_456_789, 3_221_225_472] {
        let expected = if bytes < 1024 {
            format!("{bytes} B")
        } else if bytes < 1024 * 1024 {
            format!("{:.1} KB", bytes as f64 / 1024.0)
        } else if bytes < 1024 * 1024 * 1024 {
            format!("{:.1} MB", bytes as f64 / (1024.0 * 1024.0))
        } else {
            format!("{:.1} GB", bytes as f64 / (1024.0 * 1024.0 * 1024.0))
        };
        assert_eq!(format_size(bytes), expected);
        assert_eq!(kilobytes(bytes), format!("{:.1} KB", bytes as f64 / 1024.0));
    }
}

#[test]
fn a_hash_is_the_known_one() {
    assert_eq!(
        hash_bytes(b"abc"),
        "ba7816bf8f01cfea414140de5dae2223b00361a396177a9cb410ff61f20015ad"
    );
    assert!(hash_bytes(b"/repo").starts_with(&short_hash("/repo")));
}

/// Two contents are shown alike only where they are alike.
#[test]
fn rendered_contents_differ_where_contents_do() {
    assert_eq!(escape_bytes(b"a\\\n\x00"), "a\\\\\n\\x00");
    let (a, b) = render_bytes_for_diff(b"\xff", b"\\xff");
    assert_ne!(a, b);
}

#[test]
fn lines_are_counted_and_shown() {
    assert_eq!(diff_stats("a\nb\n", "a\nc\nd\n"), (2, 1));
    let shown = print_unified_diff_with_labels("a\nb\n", "a\nc\n", "f.rs", "saved", "current");
    assert!(shown.contains("-b"), "{shown}");
    assert!(shown.contains("+c"), "{shown}");
    assert!(shown.contains("f.rs"), "{shown}");
    assert_eq!(
        diff_stats_for_event("CREATED", &Some(b"x\n".to_vec()), &Some(b"y\nz\n".to_vec())),
        (2, 0)
    );
    assert_eq!(
        diff_stats_for_event("DELETED", &Some(b"x\n".to_vec()), &Some(b"y\n".to_vec())),
        (0, 1)
    );
}

#[test]
fn a_current_file_is_compared_with_a_saved_one() {
    let saved = b"a\n".to_vec();
    let same = cmd_diff(Some(&saved), false, &CurrentFile::Content(b"a\n".to_vec()), "f", "f", 100, false, false);
    let other = cmd_diff(Some(&saved), false, &CurrentFile::Content(b"b\n".to_vec()), "f", "f", 100, false, false);
    assert_ne!(same, other);
    assert!(other.contains("-a") && other.contains("+b"), "{other}");
}

#[test]
fn slugs_have_single_dashes() {
    assert_eq!(slugify("  Auth -- Flow!"), "auth-flow");
    assert_eq!(normalize("/a/b", "../c/./d"), "/a/c/d");
    assert_eq!(normalize("/a", &normalize("/a", "x/../y")), normalize("/a", "x/../y"));
    assert_eq!(relative_path("/repo-old/a", "/repo"), "/repo-old/a");
}

// ── requests ────────────────────────────────────────────────────────

#[test]
fn a_request_names_what_it_takes_back() {
    let root = "/repo";
    let events = vec![
        event(1, 101, "/repo/src/auth/login.rs", "MODIFIED"),
        event(2, 102, "/repo/src/billing/pay.rs", "CREATED"),
    ];
    let groups = build_groups(root, &events, &vec![(1, 2), (3, 4)]);
    assert_eq!(groups[1].inserted, 3);
    assert_eq!(groups[1].deleted, 4);
    let (mut db, pid) = setup();
    let run = db
        .start_run(pid, "a", "run", "human", None, None, None, None)
        .unwrap();
    assert!(resolve_run(&db, pid, None, usual()).is_err());
    assert!(resolve_run(&db, pid, Some("r_99"), usual()).is_err());
    let run = db.complete_run(run.id, "completed").unwrap();
    assert_eq!(resolve_run(&db, pid, None, usual()).unwrap().id, run.id);
    let proposal = build_proposal("undo billing", run, root, &groups).unwrap();
    assert_eq!(proposal.revert_groups.len(), 1);
    assert_eq!(proposal.revert_groups[0].id, "billing");
    let nothing = build_proposal("undo payroll zebra", proposal.session, root, &groups).unwrap();
    assert!(nothing.revert_groups.is_empty());
    assert_eq!(nothing.unmatched_terms, vec!["payroll", "zebra"]);
    assert_eq!(match_explicit_intent("undo auth", &Vec::new()), None);
}

#[test]
fn a_group_is_found_by_its_name() {
    let events = vec![event(1, 101, "/repo/src/auth/login.rs", "MODIFIED")];
    let groups = build_groups("/repo", &events, &vec![(0, 0)]);
    assert_eq!(find_group(&groups, "auth").unwrap(), 0);
    assert!(find_group(&groups, "none").is_err());
    let (mut db, pid) = setup();
    let run = db
        .start_run(pid, "a", "run", "human", None, None, None, None)
        .unwrap();
    let run = db.complete_run(run.id, "completed").unwrap();
    match cmd_recover(&run, 1, &groups, Some("auth"), &Vec::new()).unwrap() {
        RecoverStep::Files { paths, .. } => {
            assert_eq!(paths, vec!["/repo/src/auth/login.rs"])
        }
        other => panic!("{other:?}"),
    }
    assert!(matches!(
        cmd_recover(&run, 0, &Vec::new(), None, &Vec::new()).unwrap(),
        RecoverStep::Nothing(_)
    ));
}

#[test]
fn arguments_of_a_question_are_split() {
    let mut args = AskArgs {
        input: vec!["last".to_string(), "undo auth".to_string()],
        run: None,
        apply: false,
        yes: false,
    };
    assert_eq!(args.resolve(), Ok((Some("last"), "undo auth")));
    args.input = vec!["undo auth".to_string()];
    assert_eq!(args.resolve(), Ok((None, "undo auth")));
    assert_eq!(parse_positive_usize("12"), Ok(12));
    assert!(parse_positive_usize("0").is_err());
    assert!(parse_positive_usize("x").is_err());
}

#[test]
fn reported_path_validation_rejects_escape_glob_directory_and_duplicates() {
    let disk = vec![
        Place {
            path: "/repo".to_string(),
            canonical: "/repo".to_string(),
            directory: true,
        },
        Place {
            path: "/repo/src".to_string(),
            canonical: "/repo/src".to_string(),
            directory: true,
        },
    ];
    let check = |paths: &[&str]| {
        let paths: Vec<String> = paths.iter().map(|p| p.to_string()).collect();
        normalize_reported_paths("/repo", "/repo", &paths, &disk)
    };
    assert!(check(&["../escape.rs"]).is_err());
    assert!(check(&["src/*.rs"]).is_err());
    assert!(check(&["src"]).is_err());
    assert!(check(&["src/main.rs", "./src/main.rs"]).is_err());
    assert_eq!(check(&["src/main.rs"]).unwrap(), vec!["/repo/src/main.rs"]);
}

#[test]
fn a_request_that_is_no_json_is_refused() {
    assert!(check_request("  ", usual()).is_err());
    assert!(request_hash("{").is_err());
    assert!(check_request("{", usual()).is_ok());
}

// ── what is said ────────────────────────────────────────────────────

#[test]
fn bursts_stand_apart() {
    let mut events: Vec<FileEvent> = (0..5)
        .map(|i| event(i, 100 + i, &format!("/p/{i}"), "MODIFIED"))
        .collect();
    events.extend((5..10).map(|i| event(i, 200 + i, &format!("/p/{i}"), "DELETED")));
    let bursts = detect_bursts(&events);
    assert_eq!(bursts.len(), 2);
    assert!(bursts[0].end < bursts[1].start);
    assert_eq!(bursts[1].deleted_count, 5);
    assert_eq!(parse_since(Some("1m"), 100).unwrap(), Some(40));
    assert_eq!(parse_since(None, 100).unwrap(), None);
    assert!(parse_since(Some("soon"), 100).is_err());
    let times = vec![LocalTime {
        at: 100,
        text: "noon".to_string(),
    }];
    assert_eq!(format_local_time(&times, 100), "noon");
}

#[test]
fn a_path_is_told_of_once() {
    let events = vec![
        event(1, 100, "/repo/a.rs", "CREATED"),
        event(2, 101, "/repo/b.rs", "MODIFIED"),
    ];
    assert_eq!(paths_ended_as(&events, "CREATED"), vec!["/repo/a.rs"]);
    assert_eq!(paths_ended_as(&events, "MODIFIED"), vec!["/repo/b.rs"]);
    assert!(paths_ended_as(&events, "DELETED").is_empty());
    let lines = change_report(&events, "5m", "/repo");
    assert!(lines.iter().any(|l| l.contains("a.rs")), "{lines:?}");
    let (db, pid) = setup();
    assert!(cmd_what_changed(&db, pid, "/repo", "never", 100).is_err());
}

#[test]
fn runs_are_shown() {
    let (mut db, pid) = setup();
    let run = db
        .start_run(pid, "nightly", "run", "agent", Some("Codex"), None, None, None)
        .unwrap();
    let run = db.complete_run_at(run.id, "completed", run.started_at + 90).unwrap();
    assert_eq!(run_duration(&run, 0), "1 minute ago");
    let events = vec![event(1, 101, "/repo/src/auth/login.rs", "MODIFIED")];
    let none = Vec::new();
    let lines = cmd_run_show(&run, "/repo", &events, &none, &Vec::new(), &Vec::new(), "noon", "later", 0);
    assert!(lines.iter().any(|l| l.contains("auth/login.rs")), "{lines:?}");
    let lines = cmd_runs(&Vec::new(), &Vec::new(), 0, usual());
    assert_eq!(lines[1], "Start an agent with: undo run codex");
    assert!(cmd_session_stop(None, 0).contains("No active"));
    assert!(session_named(&db, pid, "unknown").is_err());
}

#[test]
fn a_command_runs_as_its_agent() {
    let command = vec!["/usr/bin/codex".to_string(), "fix".to_string()];
    let plan = cmd_run_command(&command, None, usual()).unwrap();
    assert_eq!(plan.agent.as_deref(), Some("Codex"));
    assert_eq!(plan.actor, "agent");
    assert_eq!(plan.command, "/usr/bin/codex fix");
    assert!(cmd_run_command(&Vec::new(), None, usual()).is_err());
    assert_eq!(run_outcome(true, Some(0)), ("completed", 0));
    assert_eq!(run_outcome(false, Some(3)), ("failed", 3));
    assert!(validate_actor("robot").is_err());
    assert!(validate_completion_status("active").is_err());
}
