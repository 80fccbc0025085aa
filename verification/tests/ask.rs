//! What a request in plain words selects.
use undo::ask::{build_proposal, parse_intent};
use undo::groups::ChangeGroup;
use undo::models::{Run, WatchedProject};

fn project() -> WatchedProject {
    WatchedProject {
        id: 1,
        root_path: "/repo".to_string(),
        created_at: 0,
    }
}

fn run() -> Run {
    Run {
        id: 1,
        project_id: 1,
        name: "agent-auth-work".to_string(),
        kind: "manual".to_string(),
        attribution_mode: "window".to_string(),
        actor: "agent".to_string(),
        agent: Some("Test Agent".to_string()),
        command: None,
        intent: None,
        external_id: None,
        status: "completed".to_string(),
        started_at: 100,
        ended_at: Some(200),
        start_event_id: 10,
        end_event_id: Some(20),
        created_at: 100,
    }
}

fn group(id: &str, paths: &[&str]) -> ChangeGroup {
    ChangeGroup {
        id: id.to_string(),
        label: id
            .split('-')
            .map(|part| {
                let mut chars = part.chars();
                match chars.next() {
                    Some(first) => format!("{}{}", first.to_ascii_uppercase(), chars.as_str()),
                    None => String::new(),
                }
            })
            .collect::<Vec<_>>()
            .join(" "),
        paths: paths.iter().map(|path| path.to_string()).collect(),
        event_count: paths.len(),
        inserted: 0,
        deleted: 0,
    }
}

#[test]
fn intent_splits_revert_and_keep_terms() {
    let intent = parse_intent("undo the auth refactor but keep the security improvements");

    assert!(intent.revert_terms.contains(&"auth".to_string()));
    assert!(intent.keep_terms.contains(&"security".to_string()));
    assert!(!intent.revert_all);
}

#[test]
fn mentioning_session_does_not_expand_to_full_run_recovery() {
    let intent = parse_intent("remove the session storage work");
    assert!(!intent.revert_all);
    assert!(intent.revert_terms.contains(&"storage".to_string()));
}

/// Clause keywords inside hyphenated group ids are target words, not
/// instructions to preserve the rest of the query.
#[test]
fn intent_does_not_split_hyphenated_group_ids() {
    for (query, expected_term) in [
        ("revert keep-alive", "alive"),
        ("revert except-handler", "handler"),
        ("revert without-cache", "cache"),
    ] {
        let intent = parse_intent(query);
        assert!(
            intent.keep_terms.is_empty(),
            "{query:?} unexpectedly produced keep terms"
        );
        assert!(
            intent.revert_terms.contains(&expected_term.to_string()),
            "{query:?} did not preserve its target term"
        );
    }
}

/// Splitting the raw query must remain case-insensitive and retain the
/// concise comma-plus-keep syntax used in the CLI documentation.
#[test]
fn intent_splits_bare_keep_clause_case_insensitively() {
    let intent = parse_intent("undo auth, KEEP security");

    assert_eq!(intent.revert_terms, vec!["auth"]);
    assert_eq!(intent.keep_terms, vec!["security"]);
}

#[test]
fn proposal_reverts_matching_group_and_keeps_keep_group() {
    let groups = vec![
        group("auth", &["/repo/src/auth/login.rs"]),
        group("security", &["/repo/src/security/csrf.rs"]),
    ];

    let proposal = build_proposal(
        "undo the auth refactor but keep the security improvements",
        run(),
        &project().root_path,
        &groups,
    )
    .unwrap();

    assert_eq!(
        proposal
            .revert_groups
            .iter()
            .map(|g| g.id.as_str())
            .collect::<Vec<_>>(),
        vec!["auth"]
    );
    assert_eq!(
        proposal
            .keep_groups
            .iter()
            .map(|g| g.id.as_str())
            .collect::<Vec<_>>(),
        vec!["security"]
    );
}

/// Group ids should match whether users include or omit generated
/// punctuation such as the dash in `keep-alive`.
#[test]
fn proposal_matches_compact_group_id() {
    let groups = vec![group("keep-alive", &["/repo/src/keep-alive/ping.rs"])];

    for query in ["revert keep-alive", "revert keepalive"] {
        let proposal = build_proposal(query, run(), &project().root_path, &groups).unwrap();

        assert_eq!(
            proposal
                .revert_groups
                .iter()
                .map(|group| group.id.as_str())
                .collect::<Vec<_>>(),
            vec!["keep-alive"],
            "{query:?} did not select the requested group"
        );
        assert!(proposal.keep_groups.is_empty());
    }
}

#[test]
fn everything_except_keeps_matching_group() {
    let groups = vec![
        group("auth", &["/repo/src/auth/login.rs"]),
        group("bug-fixes", &["/repo/src/fixes/null.rs"]),
    ];

    let proposal = build_proposal(
        "revert everything the agent did in the last session except the bug fixes",
        run(),
        &project().root_path,
        &groups,
    )
    .unwrap();

    assert_eq!(
        proposal
            .keep_groups
            .iter()
            .map(|g| g.id.as_str())
            .collect::<Vec<_>>(),
        vec!["bug-fixes"]
    );
    assert_eq!(
        proposal
            .revert_groups
            .iter()
            .map(|g| g.id.as_str())
            .collect::<Vec<_>>(),
        vec!["auth"]
    );
}
