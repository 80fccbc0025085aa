//! Which files are left out of the history.
use undo::exclude::{apply_matcher, init, rule_text, should_ignore};

const ROOT: &str = "/home/user/project";

#[test]
fn git_directory_is_ignored() {
    let path = "/home/user/project/.git/config";
    assert!(should_ignore(path, ROOT, false, None));
}

#[test]
fn node_modules_is_ignored() {
    let path = "/home/user/project/node_modules/lodash/index.js";
    assert!(should_ignore(path, ROOT, false, None));
}

#[test]
fn target_directory_is_ignored() {
    let path = "/home/user/project/target/debug/undo";
    assert!(should_ignore(path, ROOT, false, None));
}

#[test]
fn regular_source_file_is_not_ignored() {
    let path = "/home/user/project/src/main.rs";
    assert!(!should_ignore(path, ROOT, false, None));
}

#[test]
fn undo_directory_is_ignored() {
    let path = "/home/user/project/.undo/database.db";
    assert!(should_ignore(path, ROOT, false, None));
}

#[test]
fn undoignore_patterns_are_respected() {
    let rules = init(ROOT, None, Some("*.log\ndata/\n"));
    assert_eq!(apply_matcher(&rules, "/home/user/project/app.log", ROOT, false), Some(true));
    assert_eq!(apply_matcher(&rules, "/home/user/project/data", ROOT, true), Some(true));
    assert_eq!(apply_matcher(&rules, "/home/user/project/src/main.rs", ROOT, false), None);
}

#[test]
fn gitignore_patterns_are_loaded() {
    let rules = init(ROOT, Some("*.tmp\n"), None);
    assert!(should_ignore("/home/user/project/scratch.tmp", ROOT, false, Some(&rules)));
    assert!(!should_ignore("/home/user/project/main.rs", ROOT, false, Some(&rules)));
}

#[test]
fn works_without_any_ignore_files() {
    let dir = tempfile::tempdir().unwrap();
    let root = dir.path().to_str().unwrap();
    let rules = init(root, None, None);
    let path = format!("{root}/anything.rs");
    assert!(!should_ignore(&path, root, false, Some(&rules)));
}

#[test]
fn negation_pattern_whitelists_builtin_ignored_dir() {
    let rules = init(ROOT, None, Some("!build/\n"));
    assert_eq!(apply_matcher(&rules, "/home/user/project/build", ROOT, true), Some(false));
    assert!(!should_ignore("/home/user/project/build", ROOT, true, Some(&rules)));
    assert!(should_ignore("/home/user/project/build", ROOT, true, None));
}

#[test]
fn negation_pattern_whitelists_builtin_ignored_file() {
    let rules = init(ROOT, None, Some("!.env\n"));
    assert_eq!(apply_matcher(&rules, "/home/user/project/.env", ROOT, false), Some(false));
    assert!(!should_ignore("/home/user/project/.env", ROOT, false, Some(&rules)));
    assert!(should_ignore("/home/user/project/.env", ROOT, false, None));
}

/// Two sets of rules do not see each other.
#[test]
fn rules_of_two_projects_are_apart() {
    let a = init("/work/a", None, Some("*.foo\n"));
    let b = init("/work/b", None, Some("*.bar\n"));
    assert!(should_ignore("/work/a/test.foo", "/work/a", false, Some(&a)));
    assert!(!should_ignore("/work/a/test.bar", "/work/a", false, Some(&a)));
    assert!(!should_ignore("/work/b/test.foo", "/work/b", false, Some(&b)));
    assert!(should_ignore("/work/b/test.bar", "/work/b", false, Some(&b)));
}

/// The rules before a line that is not UTF-8 hold; those behind it do not.
#[test]
fn rules_before_an_unreadable_line_hold() {
    assert_eq!(rule_text(&b"*.log\r\n\xc3\xa9\n".to_vec()), "*.log\r\n\u{e9}\n");
    assert_eq!(rule_text(&b"*.log".to_vec()), "*.log");
    assert_eq!(rule_text(&Vec::new()), "");
    assert_eq!(rule_text(&b"a\xff\n*.log\n".to_vec()), "");
    let text = rule_text(&b"*.log\n\na\xff\n*.tmp\n".to_vec());
    assert_eq!(text, "*.log\n\n");
    let rules = init(ROOT, Some(text.as_str()), None);
    assert_eq!(apply_matcher(&rules, "/home/user/project/a.log", ROOT, false), Some(true));
    assert_eq!(apply_matcher(&rules, "/home/user/project/a.tmp", ROOT, false), None);
}
