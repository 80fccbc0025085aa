//! What is kept, for how long, and how much room it takes.
use undo::db::Database;
use undo::retention::{
    disk_usage_breakdown, is_snapshot_temp, load_config, prune, RetentionConfig,
};
use undo::size::format_size;

/// With no store on disk yet, every bucket is zero (no panic on an empty
/// or freshly-created data dir).
#[test]
fn disk_usage_breakdown_empty_store_is_zero() {
    let usage = disk_usage_breakdown("/home/user/.undo", &Vec::new());
    assert_eq!(usage.total, 0);
    assert_eq!(usage.snapshots, 0);
    assert_eq!(usage.backups, 0);
}

/// The built-in defaults are 7 days retention and a 1 GiB size cap.
#[test]
fn default_config_values() {
    let cfg = RetentionConfig::default();
    assert_eq!(cfg.retention_days, 7);
    assert_eq!(cfg.max_size_mb, 1024);
}

/// When no config files are present, load_config returns the built-in defaults.
#[test]
fn load_config_without_files_returns_defaults() {
    let cfg = load_config(&None, &None);
    assert_eq!(cfg.retention_days, 7);
    assert_eq!(cfg.max_size_mb, 1024);
}

/// Values under 1 KiB are formatted with a B suffix.
#[test]
fn format_size_bytes() {
    assert_eq!(format_size(500), "500 B");
}

/// Values in the KiB range are formatted with a KB suffix.
#[test]
fn format_size_kilobytes() {
    assert_eq!(format_size(2048), "2.0 KB");
}

/// Values in the MiB range are formatted with an MB suffix.
#[test]
fn format_size_megabytes() {
    assert_eq!(format_size(5 * 1024 * 1024), "5.0 MB");
}

/// Values in the GiB range are formatted with a GB suffix.
#[test]
fn format_size_gigabytes() {
    assert_eq!(format_size(2 * 1024 * 1024 * 1024), "2.0 GB");
}

/// Without a seconds override, retention is derived from retention_days.
#[test]
fn retention_seconds_uses_days_when_no_override() {
    let cfg = RetentionConfig {
        retention_days: 7,
        max_size_mb: 1024,
        retention_secs_override: None,
    };
    assert_eq!(cfg.retention_seconds(), 7 * 86400);
}

/// A seconds override (used by `--keep`) takes precedence over retention_days
/// so sub-day windows like 12h or 30m are honoured exactly.
#[test]
fn retention_seconds_override_takes_precedence_over_days() {
    let cfg = RetentionConfig {
        retention_days: 7,
        max_size_mb: 1024,
        retention_secs_override: Some(12 * 3600),
    };
    assert_eq!(cfg.retention_seconds(), 12 * 3600);
}

/// Sub-minute overrides survive the round-trip — guards against any future
/// regression to a "round up to 1 day" implementation.
#[test]
fn retention_seconds_override_preserves_sub_day_precision() {
    let cfg = RetentionConfig {
        retention_days: 7,
        max_size_mb: 1024,
        retention_secs_override: Some(30),
    };
    assert_eq!(cfg.retention_seconds(), 30);
    assert_ne!(cfg.retention_seconds(), 86400);
}

/// The default cap converts to bytes without surprises.
#[test]
fn max_size_bytes_normal_value() {
    let cfg = RetentionConfig::default();
    assert_eq!(cfg.max_size_bytes(), 1024 * 1024 * 1024);
}

/// A very large `max_size_mb` from user config must not overflow when
/// converted to bytes. The previous `max_size_mb * 1024 * 1024` panics in
/// debug (crashing the auto-prune thread) and wraps to a tiny cap in
/// release (over-aggressive pruning). `max_size_bytes()` saturates instead.
/// (Red before the fix: `u64::MAX * 1024 * 1024` overflows.)
#[test]
fn max_size_bytes_saturates_instead_of_overflowing() {
    let cfg = RetentionConfig {
        retention_days: 7,
        max_size_mb: u64::MAX,
        retention_secs_override: None,
    };
    // Must not panic, and must clamp to the u64 ceiling rather than wrap.
    assert_eq!(cfg.max_size_bytes(), u64::MAX);
}

/// Demonstrates the hazard the fix removes: the naive multiplication that
/// `prune` and `cmd_status` previously used cannot represent the result.
#[test]
fn naive_max_size_multiplication_overflows() {
    assert!(
        u64::MAX
            .checked_mul(1024)
            .and_then(|v| v.checked_mul(1024))
            .is_none(),
        "max_size_mb * 1024 * 1024 overflows for large configs — \
         this is why max_size_bytes() must saturate"
    );
}

/// An enormous retention_days must not overflow the seconds conversion.
/// The bare `saturating_mul(86400) as i64` *wraps to a negative value* for
/// large day counts; `retention_seconds()` must instead clamp to a
/// non-negative window (`i64::MAX`) so the downstream `now - window` cutoff
/// can never land in the future. (Red before the `.min(i64::MAX as u64)`
/// clamp: `u64::MAX` days returns `-1`.)
#[test]
fn retention_seconds_saturates_for_huge_days() {
    for days in [u64::MAX, 1_000_000_000_000_000, 213_503_982_334_601] {
        let cfg = RetentionConfig {
            retention_days: days,
            max_size_mb: 1024,
            retention_secs_override: None,
        };
        let secs = cfg.retention_seconds();
        assert!(
            secs >= 0,
            "retention window must never be negative (got {secs} for {days} days) — \
             a negative window makes prune's cutoff land in the future"
        );
        assert_eq!(secs, i64::MAX, "an oversized window must clamp to i64::MAX");
    }
}

/// End-to-end guard for the data-loss footgun: with an enormous
/// `retention_days`, `prune` must KEEP recent events, not wipe them. Before
/// the fix, `retention_seconds()` wrapped negative and the cutoff landed in
/// the future, so `delete_events_before` removed every event on the next
/// (hourly) auto-prune.
#[test]
fn prune_with_huge_retention_days_keeps_recent_events() {
    let mut db = Database::open_in_memory().unwrap();
    let project = db.get_or_create_project("/proj").unwrap();
    // A brand-new event (timestamped "now") that must survive pruning.
    db.insert_event(
        project.id,
        "/proj/a.rs",
        "CREATED",
        Some("h"),
        None,
        None,
        None,
        None,
    )
    .unwrap();
    assert_eq!(db.count_events(project.id).unwrap(), 1);

    let cfg = RetentionConfig {
        retention_days: 1_000_000_000_000_000, // wraps negative without the clamp
        max_size_mb: 1024,
        retention_secs_override: None,
    };
    let now = chrono::Utc::now().timestamp();
    let none = Vec::new();
    prune(&mut db, project.id, &cfg, now, &none, now, &none, &none, false).unwrap();

    assert_eq!(
        db.count_events(project.id).unwrap(),
        1,
        "a huge retention window must keep everything, not delete it"
    );
}

/// `is_snapshot_temp` recognises the `<hash>.gz.tmp.<pid>.<seq>` form and
/// nothing else — a published `<hash>.gz` snapshot must never match.
#[test]
fn is_snapshot_temp_matches_only_temp_writes() {
    assert!(is_snapshot_temp("/s/1/deadbeef.gz.tmp.123.4"));
    assert!(!is_snapshot_temp("/s/1/deadbeef.gz"));
    assert!(!is_snapshot_temp("/s/1/deadbeef"));
}
