//! Paths, colours and hexadecimal text.
use undo::error::Error;
use undo::places::{places_to_check, safe_resolve_path, Place, Resolved};
use undo::style::{event_color, BLUE, GREEN, RED, YELLOW};
use undo::{relative_path, to_hex};

/// Resolves a path against the disk as it is.
fn resolve_in(root: &str, path: &str, project_root: &str) -> Result<Resolved, Error> {
    let mut disk = Vec::new();
    for at in places_to_check(root, path, project_root) {
        if let Ok(canonical) = std::path::Path::new(&at).canonicalize() {
            disk.push(Place {
                path: at,
                directory: canonical.is_dir(),
                canonical: canonical.to_str().unwrap().to_string(),
            });
        }
    }
    safe_resolve_path(root, path, project_root, &disk)
}

/// The project root and leading slash are stripped to yield a clean relative path.
#[test]
fn relative_path_strips_prefix_and_leading_slash() {
    assert_eq!(
        relative_path("/home/user/project/src/main.rs", "/home/user/project"),
        "src/main.rs"
    );
}

/// A path outside the project root is returned unchanged.
#[test]
fn relative_path_returns_original_when_no_prefix_match() {
    assert_eq!(
        relative_path("/other/file.rs", "/home/user/project"),
        "/other/file.rs"
    );
}

/// ../ components that escape the project root must be blocked to prevent path traversal.
#[test]
fn safe_resolve_path_rejects_traversal_outside_root() {
    let dir = tempfile::tempdir().unwrap();
    let root = dir.path().to_str().unwrap();
    // "../../etc/passwd" should escape the project root.
    let result = resolve_in(root, "../../etc/passwd", root);
    assert!(result.is_err(), "path traversal must be rejected");
    let msg = result.unwrap_err().to_string();
    assert!(msg.contains("outside the project root"), "got: {}", msg);
}

/// A well-formed subpath within the root is accepted and resolved correctly.
#[test]
fn safe_resolve_path_allows_valid_subpath() {
    let dir = tempfile::tempdir().unwrap();
    let root = dir.path().to_str().unwrap();
    // A simple nested path that stays within the root must succeed.
    let result = resolve_in(root, "src/main.rs", root);
    assert!(result.is_ok(), "valid subpath must be accepted");
    let resolved = result.unwrap();
    // Compare against the canonicalized root: on macOS the system tmpdir
    // is `/var/folders/...` which is a symlink to `/private/var/folders/...`.
    // The fix for non-existent parent-symlink escapes resolves the deepest
    // existing ancestor through `canonicalize()`, so the returned path is
    // in canonical form and must be checked against the canonical root.
    let canonical_root = dir.path().canonicalize().unwrap();
    assert!(
        std::path::Path::new(&resolved.path).starts_with(&canonical_root),
        "resolved {:?} must live under canonical root {:?}",
        resolved,
        canonical_root
    );
}

/// A non-existent ABSOLUTE path outside the project root must be rejected.
/// The previous normaliser dropped Component::RootDir, so "/etc/shadow"
/// was silently rewritten to "<cwd>/etc/shadow" — which sometimes lay
/// inside the project root and slipped past the bounds check.
#[test]
fn safe_resolve_path_rejects_nonexistent_absolute_path_outside_root() {
    let dir = tempfile::tempdir().unwrap();
    let root = dir.path().to_str().unwrap();
    // Use an absolute path that does not exist and lives well outside cwd.
    let target = "/nonexistent_absolute_path_outside/test_file.xyz";
    let result = resolve_in(root, target, root);
    assert!(
        result.is_err(),
        "absolute non-existent path outside root must be rejected, got: {:?}",
        result
    );
}

/// A non-existent absolute path *inside* the project root resolves correctly,
/// landing under the canonical root rather than being re-anchored under cwd.
/// (The old normaliser dropped `Component::RootDir` and produced
/// "<cwd>/<root>/<path>".) The path is now also canonicalized through any
/// ancestor symlinks (e.g. macOS `/var → /private/var`), so the
/// expectation is built from the canonical root.
#[test]
fn safe_resolve_path_normalises_nonexistent_absolute_path_inside_root() {
    let dir = tempfile::tempdir().unwrap();
    let root_path = dir.path();
    let root = root_path.to_str().unwrap();

    // Build an absolute path that's inside the root but doesn't exist on disk.
    let target_str = format!("{}/missing/child.rs", root);
    let resolved = resolve_in(root, &target_str, root)
        .expect("absolute path inside root must be accepted");

    let canonical_root = root_path.canonicalize().unwrap();
    let expected = canonical_root.join("missing").join("child.rs");
    assert_eq!(
        std::path::Path::new(&resolved.path), expected,
        "absolute non-existent path must land under the canonical root, \
         not be re-anchored under cwd"
    );
}

/// Every event type maps to the expected ANSI colour; unknown types produce no colour code.
#[test]
fn event_color_maps_all_known_types() {
    assert_eq!(event_color("MODIFIED"), YELLOW);
    assert_eq!(event_color("CREATED"), GREEN);
    assert_eq!(event_color("DELETED"), RED);
    assert_eq!(event_color("RENAMED"), BLUE);
    // Unknown types should return an empty string (no color).
    assert_eq!(event_color("UNKNOWN"), "");
}

/// to_hex produces lowercase, zero-padded, two-chars-per-byte output —
/// including a leading zero nibble, which is the easy thing to get wrong.
#[test]
fn to_hex_encodes_known_vectors() {
    assert_eq!(to_hex(&[]), "");
    assert_eq!(to_hex(&[0x00]), "00");
    assert_eq!(to_hex(&[0x0f]), "0f");
    assert_eq!(to_hex(&[0xff]), "ff");
    assert_eq!(to_hex(&[0x00, 0x0f, 0xa5, 0xff]), "000fa5ff");
}

/// to_hex must be byte-for-byte identical to the previous
/// `map(|b| format!("{:02x}", b)).collect()` idiom it replaced, across the
/// full 0..=255 byte range.
#[test]
fn to_hex_matches_format_reference() {
    let all: Vec<u8> = (0..=255).collect();
    let reference: String = all.iter().map(|b| format!("{:02x}", b)).collect();
    assert_eq!(to_hex(&all), reference);
    assert_eq!(to_hex(&all).len(), all.len() * 2);
}

/// Every path lies in the root of the disk.
#[test]
fn safe_resolve_path_allows_all_below_the_root_of_the_disk() {
    let found = resolve_in("/", "no-such-folder/file.rs", "/").unwrap();
    assert_eq!(found.path, "/no-such-folder/file.rs");
    assert!(!found.there);
}
