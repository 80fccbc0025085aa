//! How long history is kept and how much room it may take.
use vstd::prelude::*;
use vstd::string::*;

use crate::clock;
use crate::db::events::{earlier_than, events_pruned};
use crate::db::states::are_live;
use crate::db::{Database, Tables};
use crate::error::Error;
use crate::models::WatchedProject;
use crate::order;
use crate::path;
use crate::rows;
use crate::size;
use crate::size::size_text;
use crate::style::{RESET, YELLOW};
use crate::text;

verus! {

pub const DEFAULT_RETENTION_DAYS: u64 = 7;

pub const DEFAULT_MAX_SIZE_MB: u64 = 1024;

/// How old a file of an unfinished write must be before it counts as left over.
pub const STALE_TEMP_SECS: i64 = 3600;

// ── settings ────────────────────────────────────────────────────────

/// The settings of one file.
#[derive(Debug)]
pub struct RawConfig {
    pub retention_days: Option<u64>,
    pub max_size_mb: Option<u64>,
}

/// How long history is kept and how much room it may take.
#[derive(Clone, Copy, Debug)]
pub struct RetentionConfig {
    pub retention_days: u64,
    pub max_size_mb: u64,
    /// A length of time to the second, in place of the days.
    pub retention_secs_override: Option<u64>,
}

impl Default for RetentionConfig {
    fn default() -> (config: Self)
        ensures
            config == (RetentionConfig {
                retention_days: DEFAULT_RETENTION_DAYS,
                max_size_mb: DEFAULT_MAX_SIZE_MB,
                retention_secs_override: None,
            }),
    {
        RetentionConfig {
            retention_days: DEFAULT_RETENTION_DAYS,
            max_size_mb: DEFAULT_MAX_SIZE_MB,
            retention_secs_override: None,
        }
    }
}

/// How many seconds history is kept.
pub open spec fn window(config: RetentionConfig) -> int {
    let seconds = match config.retention_secs_override {
        Some(s) => s as int,
        None => config.retention_days * 86400,
    };
    if seconds > i64::MAX {
        i64::MAX as int
    } else {
        seconds
    }
}

/// How many bytes history may take.
pub open spec fn room(config: RetentionConfig) -> int {
    let bytes = config.max_size_mb * 1048576;
    if bytes > u64::MAX {
        u64::MAX as int
    } else {
        bytes
    }
}

impl RetentionConfig {
    /// How many seconds history is kept. A window too long to count is the
    /// longest that can be.
    pub fn retention_seconds(&self) -> (seconds: i64)
        ensures
            seconds == window(*self),
            seconds >= 0,
    {
        let ceiling: u64 = 9223372036854775807;
        let seconds: u64 = match self.retention_secs_override {
            Some(s) => s,
            None => match self.retention_days.checked_mul(86400) {
                Some(s) => s,
                None => u64::MAX,
            },
        };
        if seconds > ceiling {
            i64::MAX
        } else {
            seconds as i64
        }
    }

    /// How many bytes history may take. A room too large to count is the largest
    /// that can be.
    pub fn max_size_bytes(&self) -> (bytes: u64)
        ensures
            bytes == room(*self),
    {
        match self.max_size_mb.checked_mul(1048576) {
            Some(bytes) => bytes,
            None => u64::MAX,
        }
    }
}

/// Settings with those of a file over them.
pub open spec fn layered(config: RetentionConfig, raw: Option<RawConfig>) -> RetentionConfig {
    match raw {
        None => config,
        Some(r) => RetentionConfig {
            retention_days: match r.retention_days {
                Some(days) => days,
                None => config.retention_days,
            },
            max_size_mb: match r.max_size_mb {
                Some(mb) => mb,
                None => config.max_size_mb,
            },
            ..config
        },
    }
}

/// Settings with those of a file over them.
fn layer(config: RetentionConfig, raw: &Option<RawConfig>) -> (out: RetentionConfig)
    ensures
        out == layered(config, *raw),
{
    match raw {
        None => config,
        Some(r) => RetentionConfig {
            retention_days: match r.retention_days {
                Some(days) => days,
                None => config.retention_days,
            },
            max_size_mb: match r.max_size_mb {
                Some(mb) => mb,
                None => config.max_size_mb,
            },
            retention_secs_override: config.retention_secs_override,
        },
    }
}

/// The settings for a project: those of its own file over those of the user over
/// the ones that are built in. A file that is missing or wrong says nothing.
pub fn load_config(global: &Option<RawConfig>, project: &Option<RawConfig>) -> (config: RetentionConfig)
    ensures
        config == layered(
            layered(
                RetentionConfig {
                    retention_days: DEFAULT_RETENTION_DAYS,
                    max_size_mb: DEFAULT_MAX_SIZE_MB,
                    retention_secs_override: None,
                },
                *global,
            ),
            *project,
        ),
{
    let config = RetentionConfig::default();
    layer(layer(config, global), project)
}

/// The moment before which history is not kept.
pub open spec fn cutoff_at(config: RetentionConfig, now: i64) -> int {
    clock::clamp(now - window(config))
}

/// History is never cut off in the future, whatever the settings are.
pub proof fn lemma_cutoff_is_past(config: RetentionConfig, now: i64)
    ensures
        cutoff_at(config, now) <= now,
{
}

// ── files ───────────────────────────────────────────────────────────

/// A file of the store: its size and when it was changed, in nanoseconds, where
/// that is known.
#[derive(Debug)]
pub struct StoredFile {
    pub path: String,
    pub size: u64,
    pub modified: Option<i64>,
}

/// The paths of files.
pub open spec fn paths_of(files: Seq<StoredFile>) -> Seq<Seq<char>> {
    files.map_values(|f: StoredFile| f.path@)
}

/// The size of all files together.
pub open spec fn total_size(files: Seq<StoredFile>) -> int
    decreases files.len(),
{
    if files.len() == 0 {
        0
    } else {
        total_size(files.drop_last()) + files.last().size
    }
}

/// Whether a file is that of an unfinished write.
pub open spec fn is_temp(path: Seq<char>) -> bool {
    path::file_name(path) matches Some(name) && text::occurs(name, ".gz.tmp."@)
}

/// Whether a file is that of an unfinished write.
pub fn is_snapshot_temp(path: &str) -> (yes: bool)
    ensures
        yes == is_temp(path@),
{
    match path::last_name(path) {
        Some(name) => text::has(name.as_str(), ".gz.tmp."),
        None => false,
    }
}

/// The files that unfinished writes left over.
pub open spec fn is_stale_temp(cutoff: i64) -> spec_fn(StoredFile) -> bool {
    |f: StoredFile| is_temp(f.path@) && (f.modified matches Some(at) && at < cutoff)
}

/// What the contents in a file of the store are known by, where it holds any.
pub open spec fn held_hash(path: Seq<char>) -> Option<Seq<char>> {
    if path::extension(path) == Some("gz"@) {
        let name = path::file_name(path)->0;
        Some(name.take(path::last_at(name, '.')))
    } else {
        None
    }
}

/// What the contents in a file of the store are known by, where it holds any.
pub fn stored_hash(path: &str) -> (hash: Option<String>)
    ensures
        text::view_opt(hash) == held_hash(path@),
{
    if !text::is_text(&path::extension_of(path), "gz") {
        return None;
    }
    match path::last_name(path) {
        None => None,
        Some(name) => {
            let chars = text::chars_of(name.as_str());
            match path::rfind(&chars, '.') {
                Some(at) => {
                    proof {
                        path::lemma_last_at(name@, '.');
                        assert(chars@.subrange(0, at as int) =~= name@.take(at as int));
                    }
                    Some(text::text_of(&chars, 0, at))
                },
                None => None,
            }
        },
    }
}

/// The files of the store with contents that nothing needs any more.
pub open spec fn is_orphan(live: Seq<Seq<char>>) -> spec_fn(StoredFile) -> bool {
    |f: StoredFile| held_hash(f.path@) matches Some(hash) && !live.contains(hash)
}

/// The safety copies from before a time. One whose age is not known is kept.
pub open spec fn is_old_backup(cutoff: i64) -> spec_fn(StoredFile) -> bool {
    |f: StoredFile| f.modified matches Some(at) && 0 <= at && at as int / 1000000000 < cutoff
}

/// A part of the files is no larger than all.
proof fn lemma_retained_size(files: Seq<StoredFile>, keep: spec_fn(StoredFile) -> bool)
    ensures
        0 <= total_size(rows::retained(files, keep)) <= total_size(files),
    decreases files.len(),
{
    if files.len() > 0 {
        lemma_retained_size(files.drop_last(), keep);
        let part = rows::retained(files.drop_last(), keep);
        if keep(files.last()) {
            assert(part.push(files.last()).drop_last() =~= part);
        }
    }
}

/// The first files are no larger than all.
proof fn lemma_size_take(files: Seq<StoredFile>, n: int)
    requires
        0 <= n <= files.len(),
    ensures
        total_size(files.take(n)) <= total_size(files),
    decreases files.len() - n,
{
    if n < files.len() {
        lemma_size_take(files, n + 1);
        assert(files.take(n + 1).drop_last() =~= files.take(n));
    } else {
        assert(files.take(n) =~= files);
    }
}

/// The paths of the files that pass a test, and their size together, where that
/// can be counted.
fn select_files<F: Fn(&StoredFile) -> bool>(
    files: &Vec<StoredFile>,
    test: F,
    Ghost(keep): Ghost<spec_fn(StoredFile) -> bool>,
) -> (chosen: Option<(Vec<String>, u64)>)
    requires
        rows::tests(test, keep),
    ensures
        match chosen {
            Some(c) => {
                &&& text::views(c.0@) == paths_of(rows::retained(files@, keep))
                &&& c.1 == total_size(rows::retained(files@, keep))
            },
            None => total_size(rows::retained(files@, keep)) > u64::MAX,
        },
{
    let mut paths: Vec<String> = Vec::new();
    let mut bytes: u64 = 0;
    let mut i: usize = 0;
    proof {
        assert(text::views(paths@) =~= paths_of(rows::retained(files@.take(0), keep)));
    }
    while i < files.len()
        invariant
            i <= files.len(),
            rows::tests(test, keep),
            text::views(paths@) == paths_of(rows::retained(files@.take(i as int), keep)),
            bytes == total_size(rows::retained(files@.take(i as int), keep)),
        decreases files.len() - i,
    {
        let ghost t0 = rows::retained(files@.take(i as int), keep);
        proof {
            assert(files@.take(i + 1).drop_last() =~= files@.take(i as int));
            assert(files@.take(i + 1).last() == files@[i as int]);
        }
        if test(&files[i]) {
            proof {
                assert(t0.push(files@[i as int]).drop_last() =~= t0);
                assert(paths_of(t0.push(files@[i as int])) =~= paths_of(t0).push(
                    files@[i as int].path@,
                ));
            }
            text::add_line(&mut paths, files[i].path.clone());
            match bytes.checked_add(files[i].size) {
                Some(sum) => {
                    bytes = sum;
                },
                None => {
                    proof {
                        lemma_retained_take(files@, keep, i + 1);
                    }
                    return None;
                },
            }
        }
        i += 1;
    }
    proof {
        assert(files@.take(i as int) =~= files@);
    }
    Some((paths, bytes))
}

/// The size of the files that pass a test together.
fn size_where<F: Fn(&StoredFile) -> bool>(
    files: &Vec<StoredFile>,
    test: F,
    Ghost(keep): Ghost<spec_fn(StoredFile) -> bool>,
) -> (bytes: u64)
    requires
        rows::tests(test, keep),
        total_size(files@) <= u64::MAX,
    ensures
        bytes == total_size(rows::retained(files@, keep)),
{
    proof {
        lemma_retained_size(files@, keep);
    }
    match select_files(files, test, Ghost(keep)) {
        Some(chosen) => chosen.1,
        None => 0,
    }
}

/// What is kept of the first files is no larger than what is kept of all.
proof fn lemma_retained_take(files: Seq<StoredFile>, keep: spec_fn(StoredFile) -> bool, n: int)
    requires
        0 <= n <= files.len(),
    ensures
        total_size(rows::retained(files.take(n), keep)) <= total_size(rows::retained(files, keep)),
    decreases files.len() - n,
{
    if n < files.len() {
        lemma_retained_take(files, keep, n + 1);
        let next = files.take(n + 1);
        assert(next.drop_last() =~= files.take(n));
        let before = rows::retained(files.take(n), keep);
        assert(before.push(next.last()).drop_last() =~= before);
    } else {
        assert(files.take(n) =~= files);
    }
}

/// Whether the size of all files together can be counted.
pub fn size_fits(files: &Vec<StoredFile>, rest: u64) -> (left: Option<u64>)
    ensures
        match left {
            Some(n) => n == rest - total_size(files@),
            None => total_size(files@) > rest,
        },
{
    let mut left: u64 = rest;
    let mut i: usize = 0;
    while i < files.len()
        invariant
            i <= files.len(),
            left == rest - total_size(files@.take(i as int)),
        decreases files.len() - i,
    {
        proof {
            assert(files@.take(i + 1).drop_last() =~= files@.take(i as int));
            lemma_size_take(files@, i + 1);
        }
        if files[i].size > left {
            return None;
        }
        left = left - files[i].size;
        i += 1;
    }
    proof {
        assert(files@.take(i as int) =~= files@);
    }
    Some(left)
}

// ── pruning ─────────────────────────────────────────────────────────

/// What was removed.
#[derive(Clone, Copy, Debug, PartialEq, Eq, Structural)]
pub struct PruneStats {
    pub events_deleted: u64,
    pub snapshots_deleted: u64,
    pub backups_deleted: u64,
    pub bytes_freed: u64,
}

/// What is removed, and which files that takes.
#[derive(Debug)]
pub struct PrunePlan {
    pub stats: PruneStats,
    pub temps: Vec<String>,
    pub snapshots: Vec<String>,
    pub backups: Vec<String>,
}

/// What a cleanup takes: the changes, how many, and the files.
pub ghost struct Going {
    pub events: nat,
    pub temps: Seq<StoredFile>,
    pub snapshots: Seq<StoredFile>,
    pub backups: Seq<StoredFile>,
}

impl Going {
    /// How much room the files take.
    pub open spec fn bytes(self) -> int {
        total_size(self.temps) + total_size(self.snapshots) + total_size(self.backups)
    }
}

/// What a cleanup of a project takes at a time: events from before the cutoff, and
/// with them the contents that nothing needs once they are gone.
pub open spec fn going(
    before: Tables,
    project_id: i64,
    config: RetentionConfig,
    now: i64,
    temps: Seq<StoredFile>,
    temp_cutoff: i64,
    snapshots: Seq<StoredFile>,
    backups: Seq<StoredFile>,
    live: Seq<Seq<char>>,
) -> Going {
    let cutoff = cutoff_at(config, now) as i64;
    Going {
        events: rows::kept(before.events, earlier_than(project_id, cutoff)),
        temps: rows::retained(temps, is_stale_temp(temp_cutoff)),
        snapshots: rows::retained(snapshots, is_orphan(live)),
        backups: rows::retained(backups, is_old_backup(cutoff)),
    }
}

/// Whether a plan tells what goes.
pub open spec fn tells(plan: PrunePlan, goes: Going) -> bool {
    &&& plan.stats.events_deleted == goes.events
    &&& plan.stats.snapshots_deleted == goes.snapshots.len()
    &&& plan.stats.backups_deleted == goes.backups.len()
    &&& plan.stats.bytes_freed == goes.bytes()
    &&& text::views(plan.temps@) == paths_of(goes.temps)
    &&& text::views(plan.snapshots@) == paths_of(goes.snapshots)
    &&& text::views(plan.backups@) == paths_of(goes.backups)
}

/// What is said where the room of all that goes cannot be counted.
pub open spec fn uncountable_text() -> Seq<char> {
    "the files of Undo are too large to add up"@
}

/// Pruning a project at a time. What goes is the same whether the run is dry or
/// not; a dry run only tells.
pub open spec fn is_pruned(
    before: Tables,
    after: Tables,
    project_id: i64,
    config: RetentionConfig,
    now: i64,
    temps: Seq<StoredFile>,
    temp_cutoff: i64,
    snapshots: Seq<StoredFile>,
    backups: Seq<StoredFile>,
    dry_run: bool,
    result: Result<PrunePlan, Error>,
) -> bool {
    let rest = events_pruned(before, project_id, cutoff_at(config, now) as i64);
    exists|live: Seq<Seq<char>>|
        {
            let goes = going(
                before,
                project_id,
                config,
                now,
                temps,
                temp_cutoff,
                snapshots,
                backups,
                live,
            );
            &&& #[trigger] are_live(rest, project_id, now, live)
            &&& if goes.bytes() > u64::MAX {
                after == before && (result matches Err(e) && e@ == uncountable_text())
            } else {
                &&& after == if dry_run {
                    before
                } else {
                    rest
                }
                &&& result matches Ok(plan) && tells(plan, goes)
            }
        }
}

/// Prunes a project at a time: what is removed, and which files that takes.
pub fn prune(
    db: &mut Database,
    project_id: i64,
    config: &RetentionConfig,
    now: i64,
    temps: &Vec<StoredFile>,
    temp_cutoff: i64,
    snapshots: &Vec<StoredFile>,
    backups: &Vec<StoredFile>,
    dry_run: bool,
) -> (result: Result<PrunePlan, Error>)
    requires
        old(db)@.wf(),
    ensures
        final(db)@.wf(),
        is_pruned(
            old(db)@,
            final(db)@,
            project_id,
            *config,
            now,
            temps@,
            temp_cutoff,
            snapshots@,
            backups@,
            dry_run,
            result,
        ),
{
    let cutoff = clock::earlier(now, config.retention_seconds());
    let live = db.live_hashes_from(project_id, cutoff, now)?;
    let ghost hashes = text::views(live@);
    let ghost rest = events_pruned(old(db)@, project_id, cutoff_at(*config, now) as i64);
    let ghost goes = going(
        old(db)@,
        project_id,
        *config,
        now,
        temps@,
        temp_cutoff,
        snapshots@,
        backups@,
        hashes,
    );
    assert(are_live(rest, project_id, now, hashes));
    let test = |f: &StoredFile| -> (yes: bool)
        ensures yes == is_stale_temp(temp_cutoff)(*f)
    {
        is_snapshot_temp(f.path.as_str()) && match f.modified {
            Some(at) => at < temp_cutoff,
            None => false,
        }
    };
    let stale = select_files(temps, test, Ghost(is_stale_temp(temp_cutoff)));
    let test = |f: &StoredFile| -> (yes: bool)
        ensures yes == is_orphan(text::views(live@))(*f)
    {
        match stored_hash(f.path.as_str()) {
            Some(hash) => !text::contains(&live, hash.as_str()),
            None => false,
        }
    };
    let orphans = select_files(snapshots, test, Ghost(is_orphan(hashes)));
    let test = |f: &StoredFile| -> (yes: bool)
        ensures yes == is_old_backup(cutoff)(*f)
    {
        match f.modified {
            Some(at) => 0 <= at && at / 1000000000 < cutoff,
            None => false,
        }
    };
    let aged = select_files(backups, test, Ghost(is_old_backup(cutoff)));
    proof {
        lemma_size_nonnegative(goes.temps);
        lemma_size_nonnegative(goes.snapshots);
        lemma_size_nonnegative(goes.backups);
    }
    let (temps, snapshots, backups, bytes_freed) = match (stale, orphans, aged) {
        (Some(stale), Some(orphans), Some(aged)) => match stale.1.checked_add(orphans.1) {
            Some(sum) => match sum.checked_add(aged.1) {
                Some(sum) => (stale.0, orphans.0, aged.0, sum),
                None => {
                    return Err(uncountable());
                },
            },
            None => {
                return Err(uncountable());
            },
        },
        _ => {
            return Err(uncountable());
        },
    };
    let events_deleted = if dry_run {
        db.count_events_before(project_id, cutoff)?
    } else {
        db.delete_events_before(project_id, cutoff)?
    };
    proof {
        assert(text::views(snapshots@).len() == snapshots@.len());
        assert(text::views(backups@).len() == backups@.len());
        assert(paths_of(goes.snapshots).len() == goes.snapshots.len());
        assert(paths_of(goes.backups).len() == goes.backups.len());
    }
    Ok(
        PrunePlan {
            stats: PruneStats {
                events_deleted,
                snapshots_deleted: snapshots.len() as u64,
                backups_deleted: backups.len() as u64,
                bytes_freed,
            },
            temps,
            snapshots,
            backups,
        },
    )
}

/// What is said where the room of all that goes cannot be counted.
fn uncountable() -> (e: Error)
    ensures
        e@ == uncountable_text(),
{
    Error::new("the files of Undo are too large to add up".to_owned())
}

/// The files that a plan spares.
pub open spec fn is_spared(plan: PrunePlan) -> spec_fn(StoredFile) -> bool {
    |f: StoredFile|
        !text::views(plan.temps@).contains(f.path@) && !text::views(plan.snapshots@).contains(
            f.path@,
        ) && !text::views(plan.backups@).contains(f.path@)
}

/// The files that are left once a plan is carried out, in order.
pub fn files_left(files: &Vec<StoredFile>, plan: &PrunePlan) -> (left: Vec<StoredFile>)
    ensures
        left@ == rows::retained(files@, is_spared(*plan)),
{
    let mut left: Vec<StoredFile> = Vec::new();
    let mut i: usize = 0;
    proof {
        assert(left@ =~= rows::retained(files@.take(0), is_spared(*plan)));
    }
    while i < files.len()
        invariant
            i <= files.len(),
            left@ == rows::retained(files@.take(i as int), is_spared(*plan)),
        decreases files.len() - i,
    {
        let f = &files[i];
        proof {
            assert(files@.take(i + 1).drop_last() =~= files@.take(i as int));
            assert(files@.take(i + 1).last() == files@[i as int]);
        }
        let path = f.path.as_str();
        if !text::contains(&plan.temps, path) && !text::contains(&plan.snapshots, path)
            && !text::contains(&plan.backups, path) {
            left.push(StoredFile { path: f.path.clone(), size: f.size, modified: f.modified });
        }
        i += 1;
    }
    proof {
        assert(files@.take(i as int) =~= files@);
    }
    left
}

/// No file has less than no size.
proof fn lemma_size_nonnegative(files: Seq<StoredFile>)
    ensures
        total_size(files) >= 0,
    decreases files.len(),
{
    if files.len() > 0 {
        lemma_size_nonnegative(files.drop_last());
    }
}

// ── room ────────────────────────────────────────────────────────────

/// The stored contents of a project.
#[derive(Debug)]
pub struct ProjectStore {
    pub project_id: i64,
    pub files: Vec<StoredFile>,
}

/// How far room was made: what the store takes now, and which files went.
pub ghost struct Cut {
    pub current: int,
    pub removed: Seq<StoredFile>,
}

/// Making room with one file: it goes where the store takes too much and nothing
/// needs its contents.
pub open spec fn cut_file(cut: Cut, f: StoredFile, live: Seq<Seq<char>>, limit: int) -> Cut {
    if cut.current <= limit || !is_orphan(live)(f) {
        cut
    } else {
        Cut {
            current: if cut.current > f.size {
                cut.current - f.size
            } else {
                0
            },
            removed: cut.removed.push(f),
        }
    }
}

/// Making room with files, one after the other.
pub open spec fn cut_files(cut: Cut, files: Seq<StoredFile>, live: Seq<Seq<char>>, limit: int) -> Cut
    decreases files.len(),
{
    if files.len() == 0 {
        cut
    } else {
        cut_file(cut_files(cut, files.drop_last(), live, limit), files.last(), live, limit)
    }
}

/// When files were changed, as keys of their order.
pub open spec fn age_keys(files: Seq<StoredFile>) -> Seq<(i64, i64)> {
    files.map_values(
        |f: StoredFile|
            (match f.modified {
                Some(at) => at,
                None => 0i64,
            }, 0i64),
    )
}

/// Files from the oldest to the newest.
pub open spec fn by_age(files: Seq<StoredFile>) -> Seq<StoredFile> {
    order::arranged(files, order::order_by(age_keys(files)))
}

/// The place of the store of a project.
pub open spec fn store_of(stores: Seq<ProjectStore>, project_id: i64) -> Option<int>
    decreases stores.len(),
{
    if stores.len() == 0 {
        None
    } else if stores.last().project_id == project_id {
        Some(stores.len() - 1)
    } else {
        store_of(stores.drop_last(), project_id)
    }
}

/// Making room in the stores of projects, one after the other, each from its
/// oldest file on. Which contents are needed is given for each project.
pub open spec fn cut_stores(
    cut: Cut,
    ids: Seq<i64>,
    stores: Seq<ProjectStore>,
    live: spec_fn(i64) -> Seq<Seq<char>>,
    limit: int,
) -> Cut
    decreases ids.len(),
{
    if ids.len() == 0 {
        cut
    } else {
        let before = cut_stores(cut, ids.drop_last(), stores, live, limit);
        match store_of(stores, ids.last()) {
            None => before,
            Some(at) => cut_files(before, by_age(stores[at].files@), live(ids.last()), limit),
        }
    }
}

/// What room was made.
#[derive(Debug)]
pub struct Backstop {
    /// What the store takes now.
    pub current: u64,
    pub removed: Vec<String>,
    pub bytes_freed: u64,
    /// What is said where that is still too much.
    pub warning: Option<String>,
}

/// What is said where the store still takes too much.
pub open spec fn full_store_text(current: int, limit: int) -> Seq<char> {
    YELLOW@ + "warning:"@ + RESET@ + " Saved versions still needed: storage is "@ + size_text(
        current,
    ) + " (limit "@ + size_text(limit)
        + "). Undo kept the remaining versions because recorded file changes still reference them. Increase max_size_mb in .undorc or ~/.undo/config.toml to keep them without exceeding the limit."@
}

/// The ids of projects.
pub open spec fn project_ids(projects: Seq<WatchedProject>) -> Seq<i64> {
    projects.map_values(|p: WatchedProject| p.id)
}

/// The contents of a project that something needs.
pub open spec fn live_of(t: Tables, now: i64) -> spec_fn(i64) -> Seq<Seq<char>> {
    |id: i64| choose|live: Seq<Seq<char>>| are_live(t, id, now, live)
}

/// The size of all stores together.
pub open spec fn stores_size(stores: Seq<ProjectStore>) -> int
    decreases stores.len(),
{
    if stores.len() == 0 {
        0
    } else {
        stores_size(stores.drop_last()) + total_size(stores.last().files@)
    }
}

/// Whether room was made as far as it could be.
pub open spec fn is_backstop(
    t: Tables,
    config: RetentionConfig,
    usage: u64,
    stores: Seq<ProjectStore>,
    now: i64,
    out: Backstop,
) -> bool {
    let limit = room(config);
    let cut = cut_stores(
        Cut { current: usage as int, removed: Seq::empty() },
        project_ids(t.projects),
        stores,
        live_of(t, now),
        limit,
    );
    &&& forall|i: int|
        0 <= i < t.projects.len() ==> are_live(
            t,
            (#[trigger] t.projects[i]).id,
            now,
            live_of(t, now)(t.projects[i].id),
        )
    &&& out.current == cut.current
    &&& text::views(out.removed@) == paths_of(cut.removed)
    &&& out.bytes_freed == total_size(cut.removed)
    &&& text::view_opt(out.warning) == if cut.current > limit {
        Some(full_store_text(cut.current, limit))
    } else {
        None
    }
}

/// There is only one list of the contents that something needs.
proof fn lemma_live_of(t: Tables, now: i64, id: i64, live: Seq<Seq<char>>)
    requires
        are_live(t, id, now, live),
    ensures
        live == live_of(t, now)(id),
{
    let other = live_of(t, now)(id);
    assert(are_live(t, id, now, other));
    assert forall|hash: Seq<char>| live.contains(hash) <==> other.contains(hash) by {}
    crate::sorted::lemma_ascending_unique(live, other);
}

/// What goes from files is a part of them.
proof fn lemma_cut_size(cut: Cut, files: Seq<StoredFile>, live: Seq<Seq<char>>, limit: int)
    ensures
        total_size(cut_files(cut, files, live, limit).removed) <= total_size(cut.removed)
            + total_size(files),
        total_size(cut_files(cut, files, live, limit).removed) >= total_size(cut.removed),
    decreases files.len(),
{
    if files.len() > 0 {
        lemma_cut_size(cut, files.drop_last(), live, limit);
        let before = cut_files(cut, files.drop_last(), live, limit);
        assert(before.removed.push(files.last()).drop_last() =~= before.removed);
    }
}

/// The size of files is that of the same files in another order.
proof fn lemma_arranged_size(files: Seq<StoredFile>, places: Seq<usize>)
    requires
        files.len() <= usize::MAX,
        places.no_duplicates(),
        forall|i: int| 0 <= i < places.len() ==> (#[trigger] places[i]) < files.len(),
    ensures
        total_size(order::arranged(files, places)) <= total_size(files),
    decreases files.len(),
{
    let n = files.len() as int;
    if n == 0 {
        if places.len() > 0 {
            assert(places[0] < files.len());
        }
        assert(order::arranged(files, places) =~= Seq::empty());
    } else {
        let short = files.drop_last();
        let last = (n - 1) as usize;
        if places.contains(last) {
            let k = choose|k: int| 0 <= k < places.len() && places[k] == last;
            let rest = places.remove(k);
            assert forall|i: int| 0 <= i < rest.len() implies (#[trigger] rest[i]) < short.len() by {
                let j = if i < k { i } else { i + 1 };
                assert(rest[i] == places[j]);
                assert(places[j] != places[k]);
            }
            assert(rest.no_duplicates()) by {
                assert forall|i: int, j: int| 0 <= i < rest.len() && 0 <= j < rest.len() && i
                    != j implies rest[i] != rest[j] by {
                    let a = if i < k { i } else { i + 1 };
                    let b = if j < k { j } else { j + 1 };
                    assert(rest[i] == places[a] && rest[j] == places[b]);
                }
            }
            lemma_arranged_size(short, rest);
            assert(order::arranged(short, rest) =~= order::arranged(files, places).remove(k));
            lemma_size_remove(order::arranged(files, places), k);
        } else {
            assert forall|i: int| 0 <= i < places.len() implies (#[trigger] places[i])
                < short.len() by {
                assert(places[i] != last);
            }
            lemma_arranged_size(short, places);
            assert(order::arranged(short, places) =~= order::arranged(files, places));
        }
    }
}

/// The size of files without one of them.
proof fn lemma_size_remove(files: Seq<StoredFile>, k: int)
    requires
        0 <= k < files.len(),
    ensures
        total_size(files.remove(k)) == total_size(files) - files[k].size,
    decreases files.len(),
{
    if k == files.len() - 1 {
        assert(files.remove(k) =~= files.drop_last());
    } else {
        lemma_size_remove(files.drop_last(), k);
        assert(files.remove(k).drop_last() =~= files.drop_last().remove(k));
        assert(files.remove(k).last() == files.last());
    }
}

/// The files of one store are no larger than those of all.
proof fn lemma_store_size(stores: Seq<ProjectStore>, at: int)
    requires
        0 <= at < stores.len(),
    ensures
        0 <= total_size(stores[at].files@) <= stores_size(stores),
    decreases stores.len(),
{
    lemma_size_nonnegative(stores.last().files@);
    if at < stores.len() - 1 {
        lemma_store_size(stores.drop_last(), at);
        assert(stores.drop_last()[at] == stores[at]);
    } else {
        lemma_stores_nonnegative(stores.drop_last());
    }
}

/// No store has less than no size.
proof fn lemma_stores_nonnegative(stores: Seq<ProjectStore>)
    ensures
        stores_size(stores) >= 0,
    decreases stores.len(),
{
    if stores.len() > 0 {
        lemma_stores_nonnegative(stores.drop_last());
        lemma_size_nonnegative(stores.last().files@);
    }
}

/// The place of the store of a project.
fn find_store(stores: &Vec<ProjectStore>, project_id: i64) -> (at: Option<usize>)
    ensures
        match at {
            Some(i) => i < stores@.len() && store_of(stores@, project_id) == Some(i as int),
            None => store_of(stores@, project_id) is None,
        },
{
    let mut i: usize = stores.len();
    proof {
        assert(stores@.take(i as int) =~= stores@);
    }
    while i > 0
        invariant
            i <= stores.len(),
            store_of(stores@.take(i as int), project_id) == store_of(stores@, project_id),
        decreases i,
    {
        proof {
            assert(stores@.take(i as int).drop_last() =~= stores@.take(i - 1));
            assert(stores@.take(i as int).last() == stores@[i - 1]);
        }
        if stores[i - 1].project_id == project_id {
            return Some(i - 1);
        }
        i -= 1;
    }
    None
}

/// The places of files from the oldest to the newest.
fn age_order(files: &Vec<StoredFile>) -> (places: Vec<usize>)
    ensures
        places@ == order::order_by(age_keys(files@)),
        order::is_order(age_keys(files@), places@),
{
    let mut keys: Vec<(i64, i64)> = Vec::new();
    let mut i: usize = 0;
    while i < files.len()
        invariant
            i <= files.len(),
            keys@ == age_keys(files@.take(i as int)),
        decreases files.len() - i,
    {
        let at: i64 = match files[i].modified {
            Some(at) => at,
            None => 0,
        };
        keys.push((at, 0));
        proof {
            assert(keys@ =~= age_keys(files@.take(i + 1)));
        }
        i += 1;
    }
    proof {
        assert(files@.take(i as int) =~= files@);
    }
    let places = order::order_of(&keys);
    proof {
        order::lemma_order_by(age_keys(files@), places@);
    }
    places
}

/// Makes room in the store of one project.
fn cut_store(
    files: &Vec<StoredFile>,
    live: &Vec<String>,
    limit: u64,
    current: &mut u64,
    removed: &mut Vec<String>,
    bytes: &mut u64,
    Ghost(gone): Ghost<Seq<StoredFile>>,
) -> (now_gone: Ghost<Seq<StoredFile>>)
    requires
        text::views(old(removed)@) == paths_of(gone),
        *old(bytes) == total_size(gone),
        total_size(gone) + total_size(files@) <= u64::MAX,
    ensures
        ({
            let cut = cut_files(
                Cut { current: *old(current) as int, removed: gone },
                by_age(files@),
                text::views(live@),
                limit as int,
            );
            &&& *final(current) == cut.current
            &&& now_gone@ == cut.removed
            &&& text::views(final(removed)@) == paths_of(cut.removed)
            &&& *final(bytes) == total_size(cut.removed)
        }),
{
    let places = age_order(files);
    let ghost sorted = by_age(files@);
    let ghost hashes = text::views(live@);
    let ghost start = Cut { current: *current as int, removed: gone };
    let ghost mut cut = start;
    let mut i: usize = 0;
    proof {
        assert(sorted.take(0) =~= Seq::empty());
        lemma_order_distinct(age_keys(files@), places@);
        assert forall|k: int| 0 <= k < places@.len() implies (#[trigger] places@[k])
            < files@.len() by {
            assert(places@[k] < age_keys(files@).len());
        }
        assert(files.len() == files@.len());
        lemma_arranged_size(files@, places@);
    }
    while i < places.len()
        invariant
            i <= places.len(),
            sorted == by_age(files@),
            sorted == order::arranged(files@, places@),
            hashes == text::views(live@),
            order::is_order(age_keys(files@), places@),
            total_size(gone) + total_size(sorted) <= u64::MAX,
            start.removed == gone,
            cut == cut_files(start, sorted.take(i as int), hashes, limit as int),
            *current == cut.current,
            text::views(removed@) == paths_of(cut.removed),
            *bytes == total_size(cut.removed),
        decreases places.len() - i,
    {
        let at: usize = places[i];
        proof {
            assert(places@[i as int] < age_keys(files@).len());
            assert(sorted.take(i + 1).drop_last() =~= sorted.take(i as int));
            assert(sorted.take(i + 1).last() == files@[at as int]);
            lemma_cut_size(start, sorted.take(i + 1), hashes, limit as int);
            lemma_size_take(sorted, i + 1);
        }
        let spare = match stored_hash(files[at].path.as_str()) {
            Some(hash) => !text::contains(live, hash.as_str()),
            None => false,
        };
        if *current > limit && spare {
            let ghost more = cut.removed.push(files@[at as int]);
            proof {
                assert(more.drop_last() =~= cut.removed);
                assert(paths_of(more) =~= paths_of(cut.removed).push(files@[at as int].path@));
            }
            text::add_line(removed, files[at].path.clone());
            *bytes = *bytes + files[at].size;
            *current = if *current > files[at].size {
                *current - files[at].size
            } else {
                0
            };
        }
        proof {
            cut = cut_files(start, sorted.take(i + 1), hashes, limit as int);
        }
        i += 1;
    }
    proof {
        assert(sorted.take(i as int) =~= sorted);
    }
    Ghost(cut.removed)
}

/// No item has two places in an order.
proof fn lemma_order_distinct(keys: Seq<(i64, i64)>, places: Seq<usize>)
    requires
        order::is_order(keys, places),
    ensures
        places.no_duplicates(),
{
    assert forall|i: int, j: int| 0 <= i < places.len() && 0 <= j < places.len() && i
        != j implies places[i] != places[j] by {
        if i < j {
            assert(order::stands_before(keys, places[i] as int, places[j] as int));
        } else {
            assert(order::stands_before(keys, places[j] as int, places[i] as int));
        }
    }
}

/// The stores of different projects are different.
pub open spec fn ids_differ(ids: Seq<i64>) -> bool {
    forall|i: int, j: int| 0 <= i < j < ids.len() ==> ids[i] != ids[j]
}

/// What is removed is a part of the stores that were looked at.
proof fn lemma_cut_stores_size(
    start: Cut,
    ids: Seq<i64>,
    stores: Seq<ProjectStore>,
    live: spec_fn(i64) -> Seq<Seq<char>>,
    limit: int,
)
    requires
        ids_differ(ids),
    ensures
        total_size(cut_stores(start, ids, stores, live, limit).removed) <= total_size(start.removed)
            + seen_size(ids, stores),
    decreases ids.len(),
{
    if ids.len() > 0 {
        lemma_cut_stores_size(start, ids.drop_last(), stores, live, limit);
        let before = cut_stores(start, ids.drop_last(), stores, live, limit);
        if store_of(stores, ids.last()) is Some {
            let at = store_of(stores, ids.last())->0;
            let files = stores[at].files@;
            lemma_cut_size(before, by_age(files), live(ids.last()), limit);
            assert(stores[at].files.len() == files.len());
            lemma_by_age_size(files);
        }
    }
}

/// The size of the stores of some projects.
pub open spec fn seen_size(ids: Seq<i64>, stores: Seq<ProjectStore>) -> int
    decreases ids.len(),
{
    if ids.len() == 0 {
        0
    } else {
        seen_size(ids.drop_last(), stores) + match store_of(stores, ids.last()) {
            Some(at) => total_size(stores[at].files@),
            None => 0,
        }
    }
}

/// Ordering files by age does not make them larger.
proof fn lemma_by_age_size(files: Seq<StoredFile>)
    requires
        files.len() <= usize::MAX,
    ensures
        total_size(by_age(files)) <= total_size(files),
{
    let keys = age_keys(files);
    if exists|o: Seq<usize>| order::is_order(keys, o) {
        let places = order::order_by(keys);
        assert(order::is_order(keys, places));
        lemma_order_distinct(keys, places);
        lemma_arranged_size(files, places);
    } else {
        order::lemma_order_exists(keys);
    }
}

/// Makes room where the store takes too much, from the oldest contents on that
/// nothing needs, by what is found in the stores of the projects.
pub fn size_backstop(
    db: &Database,
    config: &RetentionConfig,
    usage: u64,
    stores: &Vec<ProjectStore>,
    now: i64,
) -> (result: Result<Backstop, Error>)
    requires
        db@.wf(),
        seen_size(project_ids(db@.projects), stores@) <= u64::MAX,
    ensures
        result matches Ok(out) && is_backstop(db@, *config, usage, stores@, now, out),
{
    let limit = config.max_size_bytes();
    let ids = db.get_all_project_ids()?;
    let ghost all = project_ids(db@.projects);
    let ghost start = Cut { current: usage as int, removed: Seq::empty() };
    let mut current: u64 = usage;
    let mut removed: Vec<String> = Vec::new();
    let mut bytes: u64 = 0;
    let mut i: usize = 0;
    let ghost mut gone = Seq::<StoredFile>::empty();
    proof {
        assert(ids@ =~= all);
        assert(text::views(removed@) =~= paths_of(gone));
        assert(all.take(0) =~= Seq::empty());
        assert(ids_differ(all)) by {
            assert forall|a: int, b: int| 0 <= a < b < all.len() implies all[a] != all[b] by {
                crate::db::lemma_project_ids_differ(db@, a, b);
            }
        }
    }
    while i < ids.len()
        invariant
            i <= ids.len(),
            ids@ == all,
            all == project_ids(db@.projects),
            ids_differ(all),
            limit == room(*config),
            start == (Cut { current: usage as int, removed: Seq::empty() }),
            seen_size(all, stores@) <= u64::MAX,
            forall|k: int|
                0 <= k < i ==> are_live(
                    db@,
                    (#[trigger] db@.projects[k]).id,
                    now,
                    live_of(db@, now)(db@.projects[k].id),
                ),
            ({
                let cut = cut_stores(
                    start,
                    all.take(i as int),
                    stores@,
                    live_of(db@, now),
                    limit as int,
                );
                &&& current == cut.current
                &&& gone == cut.removed
                &&& text::views(removed@) == paths_of(gone)
                &&& bytes == total_size(gone)
            }),
        decreases ids.len() - i,
    {
        proof {
            assert(all.take(i + 1).drop_last() =~= all.take(i as int));
            assert(all.take(i + 1).last() == all[i as int]);
            assert forall|a: int, b: int| 0 <= a < b < all.take(i as int).len() implies all.take(
                i as int,
            )[a] != all.take(i as int)[b] by {
                assert(all[a] != all[b]);
            }
            lemma_cut_stores_size(
                start,
                all.take(i as int),
                stores@,
                live_of(db@, now),
                limit as int,
            );
            lemma_seen_take(all, stores@, i + 1);
        }
        let live = db.live_hashes_at(ids[i], now)?;
        proof {
            lemma_live_of(db@, now, ids@[i as int], text::views(live@));
            assert(ids@[i as int] == db@.projects[i as int].id);
        }
        match find_store(stores, ids[i]) {
            None => {},
            Some(at) => {
                let more = cut_store(
                    &stores[at].files,
                    &live,
                    limit,
                    &mut current,
                    &mut removed,
                    &mut bytes,
                    Ghost(gone),
                );
                proof {
                    gone = more@;
                }
            },
        }
        i += 1;
    }
    proof {
        assert(all.take(i as int) =~= all);
    }
    let warning = if current > limit {
        let mut said = text::cat5(
            YELLOW,
            "warning:",
            RESET,
            " Saved versions still needed: storage is ",
            size::format_size(current).as_str(),
        );
        said.append(" (limit ");
        said.append(size::format_size(limit).as_str());
        said.append(
            "). Undo kept the remaining versions because recorded file changes still reference them. Increase max_size_mb in .undorc or ~/.undo/config.toml to keep them without exceeding the limit.",
        );
        Some(said)
    } else {
        None
    };
    Ok(Backstop { current, removed, bytes_freed: bytes, warning })
}

/// The stores of the first projects are no larger than those of all.
proof fn lemma_seen_take(ids: Seq<i64>, stores: Seq<ProjectStore>, n: int)
    requires
        0 <= n <= ids.len(),
    ensures
        seen_size(ids.take(n), stores) <= seen_size(ids, stores),
    decreases ids.len() - n,
{
    if n < ids.len() {
        lemma_seen_take(ids, stores, n + 1);
        assert(ids.take(n + 1).drop_last() =~= ids.take(n));
        match store_of(stores, ids[n]) {
            Some(at) => lemma_size_nonnegative(stores[at].files@),
            None => {},
        }
    } else {
        assert(ids.take(n) =~= ids);
    }
}

/// No contents go that something needs: every file that room is made with holds
/// contents outside the given list.
pub proof fn lemma_room_spares_live(cut: Cut, files: Seq<StoredFile>, live: Seq<Seq<char>>, limit: int)
    requires
        forall|i: int|
            0 <= i < cut.removed.len() ==> is_orphan(live)(#[trigger] cut.removed[i]),
    ensures
        forall|i: int|
            0 <= i < cut_files(cut, files, live, limit).removed.len() ==> is_orphan(live)(
                #[trigger] cut_files(cut, files, live, limit).removed[i],
            ),
    decreases files.len(),
{
    if files.len() > 0 {
        lemma_room_spares_live(cut, files.drop_last(), live, limit);
        let before = cut_files(cut, files.drop_last(), live, limit);
        let after = cut_files(cut, files, live, limit);
        assert forall|i: int| 0 <= i < after.removed.len() implies is_orphan(live)(
            #[trigger] after.removed[i],
        ) by {
            if i < before.removed.len() {
                assert(after.removed[i] == before.removed[i]);
            }
        }
    }
}

/// Nothing goes for room where there is enough.
proof fn lemma_room_enough(
    cut: Cut,
    ids: Seq<i64>,
    stores: Seq<ProjectStore>,
    live: spec_fn(i64) -> Seq<Seq<char>>,
    limit: int,
)
    requires
        cut.current <= limit,
    ensures
        cut_stores(cut, ids, stores, live, limit) == cut,
    decreases ids.len(),
{
    if ids.len() > 0 {
        lemma_room_enough(cut, ids.drop_last(), stores, live, limit);
        match store_of(stores, ids.last()) {
            None => {},
            Some(at) => lemma_files_spared(
                cut,
                by_age(stores[at].files@),
                live(ids.last()),
                limit,
            ),
        }
    }
}

/// No file goes for room where there is enough.
proof fn lemma_files_spared(cut: Cut, files: Seq<StoredFile>, live: Seq<Seq<char>>, limit: int)
    requires
        cut.current <= limit,
    ensures
        cut_files(cut, files, live, limit) == cut,
    decreases files.len(),
{
    if files.len() > 0 {
        lemma_files_spared(cut, files.drop_last(), live, limit);
    }
}

/// Where the store takes no more than it may, nothing goes to make room.
pub proof fn lemma_no_room_needed(
    t: Tables,
    config: RetentionConfig,
    usage: u64,
    stores: Seq<ProjectStore>,
    now: i64,
    out: Backstop,
)
    requires
        is_backstop(t, config, usage, stores, now, out),
        usage <= room(config),
    ensures
        out.current == usage,
        out.removed@.len() == 0,
        out.bytes_freed == 0,
        out.warning is None,
{
    let none = Seq::<StoredFile>::empty();
    lemma_room_enough(
        Cut { current: usage as int, removed: none },
        project_ids(t.projects),
        stores,
        live_of(t, now),
        room(config),
    );
    assert(paths_of(none).len() == 0);
    assert(text::views(out.removed@).len() == out.removed@.len());
}

// ── usage ───────────────────────────────────────────────────────────

/// What the parts of the store take.
#[derive(Clone, Copy, Debug, PartialEq, Eq, Structural)]
pub struct DiskUsage {
    pub total: u64,
    pub snapshots: u64,
    pub backups: u64,
}

impl Default for DiskUsage {
    fn default() -> (usage: Self)
        ensures
            usage == (DiskUsage { total: 0, snapshots: 0, backups: 0 }),
    {
        DiskUsage { total: 0, snapshots: 0, backups: 0 }
    }
}

/// The files below a directory.
pub open spec fn is_below(dir: Seq<char>) -> spec_fn(StoredFile) -> bool {
    |f: StoredFile| path::names_below(f.path@, dir) is Some
}

/// The files below one directory and not below another.
pub open spec fn is_below_only(dir: Seq<char>, other: Seq<char>) -> spec_fn(StoredFile) -> bool {
    |f: StoredFile|
        path::names_below(f.path@, other) is None && path::names_below(f.path@, dir) is Some
}

/// What the parts of the store at a directory take, from all its files.
pub fn disk_usage_breakdown(data_dir: &str, files: &Vec<StoredFile>) -> (usage: DiskUsage)
    requires
        total_size(files@) <= u64::MAX,
    ensures
        ({
            let snapshots = path::join_spec(data_dir@, "snapshots"@);
            let backups = path::join_spec(data_dir@, "backups"@);
            &&& usage.total == total_size(files@)
            &&& usage.snapshots == total_size(rows::retained(files@, is_below(snapshots)))
            &&& usage.backups == total_size(
                rows::retained(files@, is_below_only(backups, snapshots)),
            )
        }),
{
    let snapshots_root = path::join(data_dir, "snapshots");
    let backups_root = path::join(data_dir, "backups");
    let everything = |f: &StoredFile| -> (yes: bool)
        ensures yes == true
    { true };
    let total = size_where(files, everything, Ghost(|f: StoredFile| true));
    proof {
        lemma_retained_all(files@);
    }
    let test = |f: &StoredFile| -> (yes: bool)
        ensures yes == is_below(snapshots_root@)(*f)
    { path::below(f.path.as_str(), snapshots_root.as_str()).is_some() };
    let snapshots = size_where(files, test, Ghost(is_below(snapshots_root@)));
    let test = |f: &StoredFile| -> (yes: bool)
        ensures yes == is_below_only(backups_root@, snapshots_root@)(*f)
    {
        path::below(f.path.as_str(), snapshots_root.as_str()).is_none() && path::below(
            f.path.as_str(),
            backups_root.as_str(),
        ).is_some()
    };
    let backups = size_where(
        files,
        test,
        Ghost(is_below_only(backups_root@, snapshots_root@)),
    );
    DiskUsage { total, snapshots, backups }
}

/// A test that all pass keeps all.
proof fn lemma_retained_all(files: Seq<StoredFile>)
    ensures
        rows::retained(files, |f: StoredFile| true) == files,
    decreases files.len(),
{
    if files.len() > 0 {
        lemma_retained_all(files.drop_last());
        assert(files.drop_last().push(files.last()) =~= files);
    } else {
        assert(files =~= Seq::empty());
    }
}

/// What the store takes, from all its files.
pub fn total_disk_usage(files: &Vec<StoredFile>) -> (total: u64)
    requires
        total_size(files@) <= u64::MAX,
    ensures
        total == total_size(files@),
{
    let mut total: u64 = 0;
    let mut i: usize = 0;
    while i < files.len()
        invariant
            i <= files.len(),
            total_size(files@) <= u64::MAX,
            total == total_size(files@.take(i as int)),
        decreases files.len() - i,
    {
        proof {
            assert(files@.take(i + 1).drop_last() =~= files@.take(i as int));
            lemma_size_take(files@, i + 1);
        }
        total = total + files[i].size;
        i += 1;
    }
    proof {
        assert(files@.take(i as int) =~= files@);
    }
    total
}

/// What a cleanup removed in all, with what was removed to make room.
pub fn removed_in_all(stats: PruneStats, made: &Backstop) -> (all: PruneStats)
    requires
        stats.snapshots_deleted + made.removed@.len() <= u64::MAX,
        stats.bytes_freed + made.bytes_freed <= u64::MAX,
    ensures
        all.events_deleted == stats.events_deleted,
        all.snapshots_deleted == stats.snapshots_deleted + made.removed@.len(),
        all.backups_deleted == stats.backups_deleted,
        all.bytes_freed == stats.bytes_freed + made.bytes_freed,
{
    PruneStats {
        events_deleted: stats.events_deleted,
        snapshots_deleted: stats.snapshots_deleted + made.removed.len() as u64,
        backups_deleted: stats.backups_deleted,
        bytes_freed: stats.bytes_freed + made.bytes_freed,
    }
}

} // verus!
