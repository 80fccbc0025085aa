//! What an agent's hooks report, and how they are installed.
use undo::agent_hooks::{
    canonical_event, ensure_hook_run, extract_exact_paths, extract_normalized_paths,
    folder_to_check, handle_payload, is_mutating_tool, is_transitional_end, paths_to_check,
    require_payload, select_payload_root, stable_external_run_id, HookPayload, HookStep,
};
use undo::agent_setup::{
    ancestors, hook_command, hooked_events, merge_hooks, project_root_from, shell_quote, Found,
    HOOK_MARKER,
};
use undo::cli::{Agent, AgentKind};
use undo::db::Database;
use undo::json::{get_field, get_text, Field, Json};
use undo::places::{places_to_check, Place};

/// The word for an agent.
fn word(kind: AgentKind) -> String {
    format!("{kind:?}").to_lowercase()
}

/// An agent that goes by a word.
fn agent(kind: AgentKind, word: &str) -> Agent<'_> {
    Agent {
        kind,
        word,
        label: word,
    }
}

fn payload() -> HookPayload {
    HookPayload {
        cwd: None,
        workspace_roots: Vec::new(),
        session_id: None,
        conversation_id: None,
        hook_event_name: None,
        tool_name: None,
        tool_use_id: None,
        tool_input: None,
        reason: None,
    }
}

fn text(value: &str) -> Json {
    Json::Text(value.to_string())
}

fn object(fields: Vec<(&str, Json)>) -> Json {
    Json::Object(
        fields
            .into_iter()
            .map(|(name, value)| Field {
                name: name.to_string(),
                value,
            })
            .collect(),
    )
}

fn folder(path: &str) -> Place {
    Place {
        path: path.to_string(),
        canonical: path.to_string(),
        directory: true,
    }
}

/// What the disk says of some paths.
fn places(paths: &[String]) -> Vec<Place> {
    let mut found = Vec::new();
    for path in paths {
        if let Ok(canonical) = std::path::Path::new(path).canonicalize() {
            found.push(Place {
                path: path.clone(),
                directory: canonical.is_dir(),
                canonical: canonical.to_str().unwrap().to_string(),
            });
        }
    }
    found
}

/// A part of a value: names of fields, and positions in lists.
fn at<'a>(value: &'a Json, way: &[&str]) -> Option<&'a Json> {
    let mut here = value;
    for step in way {
        here = match here {
            Json::Object(fields) => get_field(fields, step)?,
            Json::List(items) => items.get(step.parse::<usize>().ok()?)?,
            _ => return None,
        };
    }
    Some(here)
}

fn said<'a>(value: &'a Json, way: &[&str]) -> Option<&'a str> {
    match at(value, way) {
        Some(Json::Text(s)) => Some(s),
        _ => None,
    }
}

fn command_count(value: &Json) -> usize {
    match value {
        Json::List(values) => values.iter().map(command_count).sum(),
        Json::Object(fields) => {
            let here =
                get_text(value, "command").map_or(0, |c| c.contains(HOOK_MARKER) as usize);
            here + fields.iter().map(|f| command_count(&f.value)).sum::<usize>()
        }
        _ => 0,
    }
}

#[test]
fn recognizes_agent_session_start_spellings_only() {
    for spelling in ["SessionStart", "sessionStart", "session_start"] {
        assert_eq!(
            canonical_event(Some(spelling)).as_deref(),
            Some("sessionstart")
        );
    }
    assert_eq!(
        canonical_event(Some("SessionEnd")).as_deref(),
        Some("sessionend")
    );
    assert_eq!(
        canonical_event(Some("PreToolUse")).as_deref(),
        Some("pretooluse")
    );
    assert!(canonical_event(None).is_none());
}

#[test]
fn workspace_root_precedes_payload_and_process_cwd() {
    let mut payload = payload();
    payload.cwd = Some("/home/payload-cwd".to_string());
    payload.workspace_roots = vec!["/home/workspace".to_string()];
    payload.hook_event_name = Some("SessionStart".to_string());
    let disk = vec![
        folder("/home/workspace"),
        folder("/home/payload-cwd"),
        folder("/home/process-cwd"),
    ];
    assert_eq!(
        select_payload_root(&payload, "/home/process-cwd", &disk).unwrap(),
        "/home/workspace"
    );
}

#[test]
fn invalid_workspace_root_falls_back_to_payload_cwd_then_process_cwd() {
    let mut payload = payload();
    payload.cwd = Some("/home/payload-cwd".to_string());
    payload.workspace_roots = vec!["/definitely/missing/undo-workspace".to_string()];
    let disk = vec![folder("/home/payload-cwd"), folder("/home/process-cwd")];
    assert_eq!(
        select_payload_root(&payload, "/home/process-cwd", &disk).unwrap(),
        "/home/payload-cwd"
    );

    payload.cwd = Some("/also/missing".to_string());
    assert_eq!(
        select_payload_root(&payload, "/home/process-cwd", &disk).unwrap(),
        "/home/process-cwd"
    );
    assert_eq!(
        select_payload_root(&payload, "/home/gone", &disk)
            .unwrap_err()
            .to_string(),
        "cannot resolve the hook process working directory"
    );
}

#[test]
fn workspace_file_uri_is_accepted() {
    let directory = tempfile::tempdir().unwrap();
    let uri = format!("file://{}", directory.path().display());
    let mut payload = payload();
    payload.workspace_roots = vec![uri.clone()];
    let disk = places(&[folder_to_check(&uri, "/").unwrap()]);
    assert_eq!(
        std::path::Path::new(&select_payload_root(&payload, "/", &disk).unwrap()),
        directory.path().canonicalize().unwrap()
    );
}

#[test]
fn stable_run_identity_prefers_conversation_and_namespaces_agent() {
    let mut payload = payload();
    payload.session_id = Some("session-1".to_string());
    payload.conversation_id = Some("conversation-2".to_string());
    assert_eq!(
        stable_external_run_id(agent(AgentKind::Cursor, "cursor"), &payload).as_deref(),
        Some("cursor:conversation-2")
    );
}

#[test]
fn extracts_only_explicit_mutating_paths_and_patch_headers() {
    let input = object(vec![
        ("file_path", text("src/main.rs")),
        ("command", text("touch hidden.rs")),
        (
            "patch",
            text("*** Begin Patch\n*** Update File: src/lib.rs\n@@\n-old\n+new\n*** Add File: docs/new.md\n*** End Patch"),
        ),
    ]);
    assert_eq!(
        extract_exact_paths(&input),
        vec![
            "docs/new.md".to_string(),
            "src/lib.rs".to_string(),
            "src/main.rs".to_string()
        ]
    );
}

#[test]
fn read_tools_never_open_change_boundaries() {
    assert!(!is_mutating_tool("Read"));
    assert!(!is_mutating_tool("Grep"));
    assert!(!is_mutating_tool("Shell"));
    assert!(is_mutating_tool("Write"));
    assert!(is_mutating_tool("NotebookEdit"));
    assert!(is_mutating_tool("apply_patch"));
}

#[test]
fn codex_apply_patch_command_yields_exact_paths() {
    let mut payload = payload();
    payload.session_id = Some("session".to_string());
    payload.hook_event_name = Some("PreToolUse".to_string());
    payload.tool_name = Some("apply_patch".to_string());
    payload.tool_use_id = Some("tool".to_string());
    payload.tool_input = Some(object(vec![(
        "command",
        text("*** Begin Patch\n*** Update File: src/main.rs\n@@\n-old\n+new\n*** End Patch"),
    )]));
    assert_eq!(paths_to_check(&payload), vec!["src/main.rs".to_string()]);
    let disk = vec![
        folder("/home/root"),
        Place {
            path: "/home/root/src/main.rs".to_string(),
            canonical: "/home/root/src/main.rs".to_string(),
            directory: false,
        },
    ];
    assert_eq!(
        extract_normalized_paths(&payload, "/home/root", "/home/root", &disk).unwrap(),
        vec!["/home/root/src/main.rs".to_string()]
    );
}

#[test]
fn arbitrary_shell_tools_never_claim_paths() {
    let root = tempfile::tempdir().unwrap();
    let root = root.path().to_str().unwrap();
    let mut payload = payload();
    payload.session_id = Some("session".to_string());
    payload.hook_event_name = Some("PreToolUse".to_string());
    payload.tool_name = Some("Shell".to_string());
    payload.tool_use_id = Some("tool".to_string());
    payload.tool_input = Some(object(vec![
        ("file_path", text("src/main.rs")),
        ("command", text("printf x > src/main.rs")),
    ]));
    let disk = places(&places_to_check(root, "src/main.rs", root));
    assert!(
        extract_normalized_paths(&payload, root, root, &disk)
            .unwrap()
            .is_empty()
    );
}

#[test]
fn an_empty_payload_is_refused() {
    assert!(require_payload(" \n").is_err());
    assert!(require_payload("{}").is_ok());
}

#[test]
fn a_tool_use_opens_and_closes_a_change() {
    let mut payload = payload();
    payload.tool_name = Some("Write".to_string());
    payload.tool_use_id = Some("tool-3".to_string());
    payload.tool_input = Some(object(vec![("file_path", text("src/new.rs"))]));
    let disk = vec![folder("/home/root"), folder("/home/root/src")];
    match handle_payload("pretooluse", &payload, "/home/root", "/home/root", &disk).unwrap() {
        HookStep::Open { change_id, paths } => {
            assert_eq!(change_id, "tool-3");
            assert_eq!(paths, vec!["/home/root/src/new.rs".to_string()]);
        }
        other => panic!("{other:?}"),
    }
    assert!(matches!(
        handle_payload("posttooluse", &payload, "/home/root", "/home/root", &disk).unwrap(),
        HookStep::Close { .. }
    ));
    assert!(matches!(
        handle_payload("sessionstart", &payload, "/home/root", "/home/root", &disk).unwrap(),
        HookStep::Begin
    ));
    assert!(is_transitional_end(Some("Resume")));
}

/// A hook that comes first for a session begins its Run; the next one finds it.
#[test]
fn a_hook_run_is_begun_once() {
    let mut db = Database::open_in_memory().unwrap();
    let project = db.get_or_create_project("/home/root").unwrap();
    let first = ensure_hook_run(&mut db, project.id, "cursor:one", agent(AgentKind::Cursor, "cursor"), 100).unwrap();
    let again = ensure_hook_run(&mut db, project.id, "cursor:one", agent(AgentKind::Cursor, "cursor"), 200).unwrap();
    assert_eq!(first.id, again.id);
    assert_eq!(again.started_at, 100);
    assert!(again.is_reported());
}

#[test]
fn creates_each_agents_expected_schema() {
    for kind in [AgentKind::Claude, AgentKind::Cursor, AgentKind::Codex] {
        let word = word(kind);
        let agent = agent(kind, &word);
        let config = merge_hooks(object(vec![]), agent, "/opt/Undo Tools/undo").unwrap();
        assert_eq!(command_count(&config), hooked_events(agent).len());
        assert!(matches!(at(&config, &["hooks"]), Some(Json::Object(_))));
        if kind == AgentKind::Cursor {
            assert!(matches!(at(&config, &["version"]), Some(Json::Number(n)) if n == "1"));
            assert!(said(&config, &["hooks", "sessionStart", "0", "command"]).is_some());
            assert_eq!(
                said(&config, &["hooks", "preToolUse", "0", "matcher"]),
                Some("Edit|Write|NotebookEdit|ApplyPatch")
            );
        } else {
            assert!(
                said(&config, &["hooks", "SessionStart", "0", "hooks", "0", "command"]).is_some()
            );
            assert!(said(&config, &["hooks", "PreToolUse", "0", "matcher"]).is_some());
        }
        if kind == AgentKind::Codex {
            assert!(at(&config, &["hooks", "PostToolUseFailure"]).is_none());
            assert!(at(&config, &["hooks", "SessionStart", "0", "matcher"]).is_none());
            assert_eq!(
                said(&config, &["hooks", "PreToolUse", "0", "matcher"]),
                Some("apply_patch|Edit|Write")
            );
        }
    }
}

#[test]
fn preserves_unrelated_config_and_hooks() {
    let command = |c: &str| object(vec![("type", text("command")), ("command", text(c))]);
    let config = object(vec![
        ("theme", text("dark")),
        (
            "hooks",
            object(vec![
                (
                    "SessionStart",
                    Json::List(vec![object(vec![
                        ("matcher", text("startup")),
                        ("hooks", Json::List(vec![command("printf existing")])),
                    ])]),
                ),
                (
                    "Notification",
                    Json::List(vec![object(vec![(
                        "hooks",
                        Json::List(vec![command("notify")]),
                    )])]),
                ),
            ]),
        ),
    ]);

    let config = merge_hooks(config, agent(AgentKind::Claude, &word(AgentKind::Claude)), "/usr/local/bin/undo").unwrap();
    assert_eq!(said(&config, &["theme"]), Some("dark"));
    assert_eq!(
        said(&config, &["hooks", "SessionStart", "0", "hooks", "0", "command"]),
        Some("printf existing")
    );
    assert_eq!(
        said(&config, &["hooks", "Notification", "0", "hooks", "0", "command"]),
        Some("notify")
    );
}

#[test]
fn repeated_install_is_idempotent_and_updates_undo_commands() {
    let config = object(vec![
        ("version", Json::Number("1".to_string())),
        (
            "hooks",
            object(vec![(
                "sessionStart",
                Json::List(vec![object(vec![(
                    "command",
                    text("UNDO_AGENT_HOOK=1 '/old/undo' _hook --agent cursor >/dev/null 2>&1 || true"),
                )])]),
            )]),
        ),
    ]);
    let first = merge_hooks(config, agent(AgentKind::Cursor, "cursor"), "/new/undo").unwrap();
    let shown = format!("{first:?}");
    let second = merge_hooks(first, agent(AgentKind::Cursor, "cursor"), "/new/undo").unwrap();
    assert_eq!(shown, format!("{second:?}"));
    assert_eq!(command_count(&second), hooked_events(agent(AgentKind::Cursor, "cursor")).len());
    assert!(
        said(&second, &["hooks", "sessionStart", "0", "command"])
            .unwrap()
            .contains("'/new/undo'")
    );
}

#[test]
fn an_incompatible_configuration_is_refused() {
    let wrong = object(vec![("hooks", object(vec![("SessionStart", text("wrong"))]))]);
    assert!(merge_hooks(wrong, agent(AgentKind::Claude, &word(AgentKind::Claude)), "/undo").is_err());
    assert!(merge_hooks(Json::Null, agent(AgentKind::Claude, &word(AgentKind::Claude)), "/undo").is_err());
}

#[test]
fn executable_is_safely_shell_quoted() {
    let word = word(AgentKind::Claude);
    let agent = agent(AgentKind::Claude, &word);
    let command = hook_command("/Applications/Undo's Tools/undo", agent).unwrap();
    assert_eq!(
        command,
        format!("UNDO_AGENT_HOOK=1 '/Applications/Undo'\"'\"'s Tools/undo' _hook --agent {word} >/dev/null 2>&1 || true")
    );
    assert!(hook_command("relative/undo", agent).is_err());
}

#[test]
fn a_word_is_quoted_for_the_shell() {
    assert_eq!(shell_quote("a b"), "'a b'");
    assert_eq!(shell_quote("it's"), "'it'\"'\"'s'");
    assert_eq!(shell_quote(""), "''");
}

#[test]
fn project_root_walks_to_git_marker_and_falls_back_to_start() {
    let nested = Found {
        path: "/work/repo/src/deep".to_string(),
        directory: true,
    };
    assert_eq!(
        ancestors("/work/repo/src/deep"),
        vec!["/work/repo/src/deep", "/work/repo/src", "/work/repo", "/work", "/"]
    );
    let marked = vec!["/work/repo".to_string()];
    assert_eq!(
        project_root_from("src/deep", Some(&nested), &marked).unwrap(),
        "/work/repo"
    );
    assert_eq!(
        project_root_from("src/deep", Some(&nested), &Vec::new()).unwrap(),
        "/work/repo/src/deep"
    );
    assert!(project_root_from("gone", None, &marked).is_err());
}

/// Hooks that are not ours stay in order, and exactly one of ours comes last.
#[test]
fn install_keeps_other_hooks_in_order_and_leaves_one_of_its_own() {
    let word = word(AgentKind::Codex);
    let agent = agent(AgentKind::Codex, &word);
    let hook = |command: &str| object(vec![("command", text(command))]);
    let own = format!("{HOOK_MARKER} '/old/undo' _hook --agent {word}");
    let config = object(vec![(
        "hooks",
        object(vec![(
            "SessionStart",
            Json::List(vec![
                object(vec![
                    ("matcher", text("startup")),
                    ("hooks", Json::List(vec![hook("one"), hook(&own), hook("two")])),
                ]),
                object(vec![("hooks", Json::List(vec![hook(&own)]))]),
                object(vec![("hooks", Json::List(vec![hook("three")]))]),
            ]),
        )]),
    )]);
    let config = merge_hooks(config, agent, "/new/undo").unwrap();
    let entries = match at(&config, &["hooks", "SessionStart"]) {
        Some(Json::List(entries)) => entries,
        other => panic!("{other:?}"),
    };
    assert_eq!(entries.len(), 3);
    assert_eq!(get_text(&entries[0], "matcher"), Some("startup"));
    let mut commands = Vec::new();
    for entry in entries {
        match at(entry, &["hooks"]) {
            Some(Json::List(hooks)) => {
                for hook in hooks {
                    commands.push(get_text(hook, "command").unwrap().to_string());
                }
            }
            other => panic!("{other:?}"),
        }
    }
    assert_eq!(
        commands,
        vec![
            "one".to_string(),
            "two".to_string(),
            "three".to_string(),
            hook_command("/new/undo", agent).unwrap(),
        ]
    );
}
