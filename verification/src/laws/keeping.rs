//! What a cleanup keeps and what it takes.
use vstd::prelude::*;

use crate::db::events::{claims_on, earlier_than, surviving};
use crate::db::states::{are_live, is_live};
use crate::db::{Claim, Tables};
use crate::models::{FileEvent, FileState, Recovery, RecoveryEntry};
use crate::path;
use crate::retention::{
    cut_files, cut_stores, cutoff_at, held_hash, is_backstop, is_old_backup, is_orphan, is_pruned,
    is_stale_temp, layered, live_of, paths_of, project_ids, room, store_of, Backstop, Cut,
    ProjectStore, PrunePlan, RawConfig, RetentionConfig, StoredFile,
};
use crate::rows;
use crate::sorted;
use crate::text;

verus! {

// ── how long ────────────────────────────────────────────────────────

/// How many seconds history is kept.
pub open spec fn kept_seconds(config: RetentionConfig) -> int {
    match config.retention_secs_override {
        Some(s) => s as int,
        None => config.retention_days * 24 * 60 * 60,
    }
}

/// Whether history from a time is old: it is not within the time that is kept.
pub open spec fn is_old(config: RetentionConfig, now: i64, at: i64) -> bool {
    at < now - kept_seconds(config)
}

/// What is old is from before the cutoff.
proof fn lemma_is_old(config: RetentionConfig, now: i64, at: i64)
    requires
        now >= 0,
        kept_seconds(config) <= i64::MAX,
    ensures
        is_old(config, now, at) <==> at < cutoff_at(config, now),
{
    assert(config.retention_days * 86400 == config.retention_days * 24 * 60 * 60)
        by (nonlinear_arith);
}

/// The settings of a project go before those of the user, and those before what is
/// usual, each for itself. Changing one leaves the other as it is.
pub proof fn lemma_settings_in_layers(
    config: RetentionConfig,
    user: Option<RawConfig>,
    project: Option<RawConfig>,
)
    ensures
        ({
            let out = layered(layered(config, user), project);
            &&& out.retention_secs_override == config.retention_secs_override
            &&& project is Some && project->0.retention_days is Some ==> out.retention_days
                == project->0.retention_days->0
            &&& (project is None || project->0.retention_days is None) && user is Some
                && user->0.retention_days is Some ==> out.retention_days
                == user->0.retention_days->0
            &&& (project is None || project->0.retention_days is None) && (user is None
                || user->0.retention_days is None) ==> out.retention_days == config.retention_days
            &&& project is Some && project->0.max_size_mb is Some ==> out.max_size_mb
                == project->0.max_size_mb->0
            &&& (project is None || project->0.max_size_mb is None) && user is Some
                && user->0.max_size_mb is Some ==> out.max_size_mb == user->0.max_size_mb->0
            &&& (project is None || project->0.max_size_mb is None) && (user is None
                || user->0.max_size_mb is None) ==> out.max_size_mb == config.max_size_mb
        }),
{
}

// ── changes ─────────────────────────────────────────────────────────

/// A cleanup takes from a project exactly the changes that are older than the time
/// that is kept, and tells how many. Changes of other projects stay. A claim goes with
/// the change that it is on. Nothing else of the history is touched, and nothing at all
/// where the cleanup is only tried.
pub proof fn lemma_cleanup_takes_old_changes(
    before: Tables,
    after: Tables,
    project_id: i64,
    config: RetentionConfig,
    now: i64,
    temps: Seq<StoredFile>,
    temp_cutoff: i64,
    snapshots: Seq<StoredFile>,
    backups: Seq<StoredFile>,
    dry_run: bool,
    plan: PrunePlan,
)
    requires
        before.wf(),
        now >= 0,
        kept_seconds(config) <= i64::MAX,
        is_pruned(
            before,
            after,
            project_id,
            config,
            now,
            temps,
            temp_cutoff,
            snapshots,
            backups,
            dry_run,
            Ok(plan),
        ),
    ensures
        dry_run ==> after == before,
        !dry_run ==> {
            &&& forall|e: FileEvent| #[trigger]
                after.events.contains(e) <==> before.events.contains(e) && !(e.project_id
                    == project_id && is_old(config, now, e.timestamp))
            &&& plan.stats.events_deleted == before.events.len() - after.events.len()
            &&& forall|c: Claim| #[trigger]
                after.claims.contains(c) <==> before.claims.contains(c) && exists|i: int|
                    0 <= i < after.events.len() && (#[trigger] after.events[i]).id == c.event_id
            &&& after.states == before.states
            &&& after.projects == before.projects
            &&& after.sessions == before.sessions
            &&& after.checkpoints == before.checkpoints
            &&& after.recoveries == before.recoveries
            &&& after.entries == before.entries
        },
{
    let cutoff = cutoff_at(config, now) as i64;
    let keep = surviving(project_id, cutoff);
    rows::lemma_retained_contains(before.events, keep);
    let events = rows::retained(before.events, keep);
    rows::lemma_retained_contains(before.claims, claims_on(events));
    assert forall|e: FileEvent| #[trigger] keep(e) <==> !(e.project_id == project_id && is_old(
        config,
        now,
        e.timestamp,
    )) by {
        lemma_is_old(config, now, e.timestamp);
    }
    if !dry_run {
        assert forall|e: FileEvent| #[trigger] after.events.contains(e) <==> before.events.contains(
            e,
        ) && !(e.project_id == project_id && is_old(config, now, e.timestamp)) by {
            assert(keep(e) <==> !(e.project_id == project_id && is_old(
                config,
                now,
                e.timestamp,
            )));
        }
        lemma_split(before.events, project_id, cutoff);
    }
}

/// The changes that stay and those that go are all changes.
proof fn lemma_split(events: Seq<FileEvent>, project_id: i64, cutoff: i64)
    ensures
        rows::retained(events, surviving(project_id, cutoff)).len() + rows::kept(
            events,
            earlier_than(project_id, cutoff),
        ) == events.len(),
    decreases events.len(),
{
    if events.len() > 0 {
        lemma_split(events.drop_last(), project_id, cutoff);
    }
}

// ── saved versions ──────────────────────────────────────────────────

/// Whether a change needs a version: it left it, or replaced it.
pub open spec fn needs_version(e: FileEvent, hash: Seq<char>) -> bool {
    (e.current_hash matches Some(h) && h@ == hash) || (e.previous_hash matches Some(h) && h@
        == hash)
}

/// Whether the latest contents of a file that is there are a version.
pub open spec fn is_current(s: FileState, project_id: i64, hash: Seq<char>) -> bool {
    s.project_id == project_id && s.exists_now && (s.latest_hash matches Some(h) && h@ == hash)
}

/// Whether a plan that may still be carried out writes a version.
pub open spec fn will_write(
    r: Recovery,
    row: RecoveryEntry,
    project_id: i64,
    now: i64,
    hash: Seq<char>,
) -> bool {
    &&& r.id == row.recovery_id
    &&& r.project_id == project_id
    &&& r.status@ == "planned"@
    &&& now <= r.expires_at
    &&& row.target_hash matches Some(h) && h@ == hash
}

/// Whether something in the history of a project needs a version.
pub open spec fn is_needed(t: Tables, project_id: i64, now: i64, hash: Seq<char>) -> bool {
    ||| exists|i: int|
        0 <= i < t.events.len() && (#[trigger] t.events[i]).project_id == project_id
            && needs_version(t.events[i], hash)
    ||| exists|i: int| 0 <= i < t.states.len() && is_current(#[trigger] t.states[i], project_id, hash)
    ||| exists|i: int, j: int|
        0 <= i < t.recoveries.len() && 0 <= j < t.entries.len() && will_write(
            #[trigger] t.recoveries[i],
            #[trigger] t.entries[j],
            project_id,
            now,
            hash,
        )
}

/// A version is in use exactly where something needs it.
pub proof fn lemma_what_is_needed(t: Tables, project_id: i64, now: i64, hash: Seq<char>)
    ensures
        is_live(t, project_id, now, hash) <==> is_needed(t, project_id, now, hash),
{
    if is_live(t, project_id, now, hash) {
        if exists|i: int|
            0 <= i < t.events.len() && (#[trigger] t.events[i]).project_id == project_id
                && text::is_some_text(t.events[i].current_hash, hash) {
            let i = choose|i: int|
                0 <= i < t.events.len() && (#[trigger] t.events[i]).project_id == project_id
                    && text::is_some_text(t.events[i].current_hash, hash);
            assert(needs_version(t.events[i], hash));
        } else if exists|i: int|
            0 <= i < t.events.len() && (#[trigger] t.events[i]).project_id == project_id
                && text::is_some_text(t.events[i].previous_hash, hash) {
            let i = choose|i: int|
                0 <= i < t.events.len() && (#[trigger] t.events[i]).project_id == project_id
                    && text::is_some_text(t.events[i].previous_hash, hash);
            assert(needs_version(t.events[i], hash));
        } else if exists|i: int|
            0 <= i < t.states.len() && (#[trigger] t.states[i]).project_id == project_id
                && t.states[i].exists_now && text::is_some_text(t.states[i].latest_hash, hash) {
            let i = choose|i: int|
                0 <= i < t.states.len() && (#[trigger] t.states[i]).project_id == project_id
                    && t.states[i].exists_now && text::is_some_text(t.states[i].latest_hash, hash);
            assert(is_current(t.states[i], project_id, hash));
        } else {
            let (i, j) = choose|i: int, j: int|
                0 <= i < t.recoveries.len() && 0 <= j < t.entries.len()
                    && crate::db::states::plan_pins(
                    #[trigger] t.recoveries[i],
                    #[trigger] t.entries[j],
                    project_id,
                    now,
                ) && text::is_some_text(t.entries[j].target_hash, hash);
            assert(will_write(t.recoveries[i], t.entries[j], project_id, now, hash));
        }
    }
    if is_needed(t, project_id, now, hash) {
        if exists|i: int|
            0 <= i < t.events.len() && (#[trigger] t.events[i]).project_id == project_id
                && needs_version(t.events[i], hash) {
            let i = choose|i: int|
                0 <= i < t.events.len() && (#[trigger] t.events[i]).project_id == project_id
                    && needs_version(t.events[i], hash);
            assert(text::is_some_text(t.events[i].current_hash, hash) || text::is_some_text(
                t.events[i].previous_hash,
                hash,
            ));
        } else if exists|i: int|
            0 <= i < t.states.len() && is_current(#[trigger] t.states[i], project_id, hash) {
            let i = choose|i: int|
                0 <= i < t.states.len() && is_current(#[trigger] t.states[i], project_id, hash);
            assert(t.states[i].project_id == project_id);
        } else {
            let (i, j) = choose|i: int, j: int|
                0 <= i < t.recoveries.len() && 0 <= j < t.entries.len() && will_write(
                    #[trigger] t.recoveries[i],
                    #[trigger] t.entries[j],
                    project_id,
                    now,
                    hash,
                );
            assert(crate::db::states::plan_pins(
                t.recoveries[i],
                t.entries[j],
                project_id,
                now,
            ));
        }
    }
}

/// Whether a file of the store holds the contents that are known by a hash: it is
/// named by the hash.
pub open spec fn is_version_file(path: Seq<char>, hash: Seq<char>) -> bool {
    &&& hash.len() > 0
    &&& forall|i: int| 0 <= i < hash.len() ==> hash[i] != '/' && hash[i] != '.'
    &&& exists|folder: Seq<char>| #[trigger] is_in(path, folder, hash + ".gz"@)
}

/// Whether a path is that of a name in a folder.
pub open spec fn is_in(path: Seq<char>, folder: Seq<char>, name: Seq<char>) -> bool {
    folder.len() > 0 && path == if folder.last() == '/' {
        folder + name
    } else {
        folder + seq!['/'] + name
    }
}

/// A plain name in a folder is the name of the file.
proof fn lemma_name_in(path: Seq<char>, folder: Seq<char>, name: Seq<char>)
    requires
        path::is_plain(name),
        is_in(path, folder, name),
    ensures
        path::file_name(path) == Some(name),
{
    reveal_strlit("/");
    assert("/"@ =~= seq!['/']);
    assert(name[0] != '/');
    assert(path == path::join_spec(folder, name));
    path::lemma_join_names(folder, name);
    let one = seq![name];
    assert(path::all_plain(one));
    assert(path::path_of(false, one) == name) by {
        reveal_with_fuel(text::joined, 2);
        assert(one.drop_last() =~= Seq::empty());
        assert(text::joined(one, "/"@) =~= name);
    }
    path::lemma_path_keeps_names(false, one);
    assert(path::names(path) == path::names(folder) + one);
    assert(path::names(path).last() == name);
}

/// The dot of a name that is a hash and an ending is behind the hash.
proof fn lemma_dot(hash: Seq<char>)
    requires
        hash.len() > 0,
        forall|i: int| 0 <= i < hash.len() ==> hash[i] != '/' && hash[i] != '.',
    ensures
        path::is_plain(hash + ".gz"@),
        path::last_at(hash + ".gz"@, '.') == hash.len(),
        (hash + ".gz"@).skip(hash.len() as int + 1) == "gz"@,
        (hash + ".gz"@).take(hash.len() as int) == hash,
{
    reveal_strlit(".gz");
    reveal_strlit("gz");
    reveal_strlit(".");
    reveal_strlit("..");
    let end = ".gz"@;
    assert(end.len() == 3 && end[0] == '.' && end[1] == 'g' && end[2] == 'z');
    assert("gz"@ =~= seq!['g', 'z']);
    let n = hash.len() as int;
    let name = hash + end;
    assert(name[n] == '.' && name[n + 1] == 'g' && name[n + 2] == 'z');
    assert forall|i: int| 0 <= i < name.len() implies (#[trigger] name[i]) != '/' by {
        if i < n {
            assert(name[i] == hash[i]);
        } else {
            assert(i == n || i == n + 1 || i == n + 2);
        }
    }
    path::lemma_last_at(name, '.');
    assert(name.skip(n + 1) =~= "gz"@);
    assert(name.take(n) =~= hash);
    assert(name.len() > 2);
}

/// A file that is named by a hash holds what that hash stands for.
pub proof fn lemma_version_file(path: Seq<char>, hash: Seq<char>)
    requires
        is_version_file(path, hash),
    ensures
        held_hash(path) == Some(hash),
{
    let name = hash + ".gz"@;
    let folder = choose|folder: Seq<char>| #[trigger] is_in(path, folder, name);
    lemma_dot(hash);
    lemma_name_in(path, folder, name);
}

/// A cleanup takes a saved version exactly where nothing that stays needs it: no change
/// left or replaced it, no file that is there holds it, and no plan that may still be
/// carried out writes it.
pub proof fn lemma_cleanup_takes_unneeded_versions(
    before: Tables,
    after: Tables,
    project_id: i64,
    config: RetentionConfig,
    now: i64,
    temps: Seq<StoredFile>,
    temp_cutoff: i64,
    snapshots: Seq<StoredFile>,
    backups: Seq<StoredFile>,
    plan: PrunePlan,
    k: int,
    hash: Seq<char>,
)
    requires
        is_pruned(
            before,
            after,
            project_id,
            config,
            now,
            temps,
            temp_cutoff,
            snapshots,
            backups,
            false,
            Ok(plan),
        ),
        0 <= k < snapshots.len(),
        is_version_file(snapshots[k].path@, hash),
    ensures
        text::views(plan.snapshots@).contains(snapshots[k].path@) <==> !is_needed(
            after,
            project_id,
            now,
            hash,
        ),
{
    lemma_version_file(snapshots[k].path@, hash);
    lemma_what_is_needed(after, project_id, now, hash);
    let live = choose|live: Seq<Seq<char>>|
        {
            &&& #[trigger] are_live(after, project_id, now, live)
            &&& text::views(plan.snapshots@) == paths_of(rows::retained(snapshots, is_orphan(live)))
        };
    lemma_chosen(snapshots, is_orphan(live), snapshots[k].path@);
    assert(is_orphan(live)(snapshots[k]) <==> !is_needed(after, project_id, now, hash));
    if text::views(plan.snapshots@).contains(snapshots[k].path@) {
        let m = choose|m: int|
            0 <= m < snapshots.len() && (#[trigger] snapshots[m]).path@ == snapshots[k].path@
                && is_orphan(live)(snapshots[m]);
        assert(is_orphan(live)(snapshots[k]));
    } else {
        assert(!is_orphan(live)(snapshots[k]));
    }
}

/// A path is chosen where a file at it passes the test.
proof fn lemma_chosen(files: Seq<StoredFile>, keep: spec_fn(StoredFile) -> bool, path: Seq<char>)
    ensures
        paths_of(rows::retained(files, keep)).contains(path) <==> exists|m: int|
            0 <= m < files.len() && (#[trigger] files[m]).path@ == path && keep(files[m]),
{
    let list = rows::retained(files, keep);
    rows::lemma_retained_contains(files, keep);
    if paths_of(list).contains(path) {
        let i = choose|i: int| 0 <= i < paths_of(list).len() && paths_of(list)[i] == path;
        assert(list.contains(list[i]));
        let m = choose|m: int| 0 <= m < files.len() && files[m] == list[i];
        assert(files[m].path@ == path);
    }
    if exists|m: int| 0 <= m < files.len() && (#[trigger] files[m]).path@ == path && keep(files[m]) {
        let m = choose|m: int|
            0 <= m < files.len() && (#[trigger] files[m]).path@ == path && keep(files[m]);
        assert(files.contains(files[m]));
        assert(list.contains(files[m]));
        let i = choose|i: int| 0 <= i < list.len() && list[i] == files[m];
        assert(paths_of(list)[i] == path);
    }
}

/// Whether a file is what an unfinished write left: its name says so.
pub open spec fn is_left_over(path: Seq<char>) -> bool {
    path::file_name(path) matches Some(name) && exists|i: int|
        0 <= i <= name.len() - 8 && #[trigger] name.subrange(i, i + 8) == ".gz.tmp."@
}

/// A cleanup takes what unfinished writes left before a time, and the safety copies
/// that are older than the time that is kept. A file whose age is not known stays.
pub proof fn lemma_cleanup_takes_leftovers_and_old_copies(
    before: Tables,
    after: Tables,
    project_id: i64,
    config: RetentionConfig,
    now: i64,
    temps: Seq<StoredFile>,
    temp_cutoff: i64,
    snapshots: Seq<StoredFile>,
    backups: Seq<StoredFile>,
    dry_run: bool,
    plan: PrunePlan,
    path: Seq<char>,
)
    requires
        now >= 0,
        kept_seconds(config) <= i64::MAX,
        is_pruned(
            before,
            after,
            project_id,
            config,
            now,
            temps,
            temp_cutoff,
            snapshots,
            backups,
            dry_run,
            Ok(plan),
        ),
    ensures
        text::views(plan.temps@).contains(path) <==> exists|m: int|
            0 <= m < temps.len() && (#[trigger] temps[m]).path@ == path && is_left_over(path) && (
            temps[m].modified matches Some(at) && at < temp_cutoff),
        text::views(plan.backups@).contains(path) <==> exists|m: int|
            0 <= m < backups.len() && (#[trigger] backups[m]).path@ == path && (backups[m].modified
                matches Some(at) && at >= 0 && is_old(config, now, (at as int / 1_000_000_000) as i64)),
{
    reveal_strlit(".gz.tmp.");
    assert(".gz.tmp."@.len() == 8);
    let cutoff = cutoff_at(config, now) as i64;
    lemma_chosen(temps, is_stale_temp(temp_cutoff), path);
    lemma_chosen(backups, is_old_backup(cutoff), path);
    assert forall|f: StoredFile| #[trigger] is_stale_temp(temp_cutoff)(f) <==> is_left_over(f.path@)
        && (f.modified matches Some(at) && at < temp_cutoff) by {
        if let Some(name) = path::file_name(f.path@) {
            if text::occurs(name, ".gz.tmp."@) {
                let i = choose|i: int| text::occurs_at(name, ".gz.tmp."@, i);
                assert(name.subrange(i, i + 8) == ".gz.tmp."@);
            }
            if is_left_over(f.path@) {
                let i = choose|i: int|
                    0 <= i <= name.len() - 8 && #[trigger] name.subrange(i, i + 8) == ".gz.tmp."@;
                assert(text::occurs_at(name, ".gz.tmp."@, i));
            }
        }
    }
    assert forall|f: StoredFile| #[trigger] is_old_backup(cutoff)(f) <==> (f.modified matches Some(
        at,
    ) && at >= 0 && is_old(config, now, (at as int / 1_000_000_000) as i64)) by {
        if let Some(at) = f.modified {
            lemma_is_old(config, now, (at as int / 1_000_000_000) as i64);
        }
    }
    if text::views(plan.temps@).contains(path) {
        let m = choose|m: int|
            0 <= m < temps.len() && (#[trigger] temps[m]).path@ == path && is_stale_temp(
                temp_cutoff,
            )(temps[m]);
        assert(temps[m].path@ == path);
    } else if exists|m: int|
        0 <= m < temps.len() && (#[trigger] temps[m]).path@ == path && is_left_over(path) && (
        temps[m].modified matches Some(at) && at < temp_cutoff) {
        let m = choose|m: int|
            0 <= m < temps.len() && (#[trigger] temps[m]).path@ == path && is_left_over(path) && (
            temps[m].modified matches Some(at) && at < temp_cutoff);
        assert(is_stale_temp(temp_cutoff)(temps[m]));
    }
    if text::views(plan.backups@).contains(path) {
        let m = choose|m: int|
            0 <= m < backups.len() && (#[trigger] backups[m]).path@ == path && is_old_backup(
                cutoff,
            )(backups[m]);
        assert(backups[m].path@ == path);
    } else if exists|m: int|
        0 <= m < backups.len() && (#[trigger] backups[m]).path@ == path && (backups[m].modified
            matches Some(at) && at >= 0 && is_old(
            config,
            now,
            (at as int / 1_000_000_000) as i64,
        )) {
        let m = choose|m: int|
            0 <= m < backups.len() && (#[trigger] backups[m]).path@ == path && (backups[m].modified
                matches Some(at) && at >= 0 && is_old(
                config,
                now,
                (at as int / 1_000_000_000) as i64,
            ));
        assert(is_old_backup(cutoff)(backups[m]));
    }
}

/// Whether contents of the store are named for a version that nothing needs.
pub open spec fn is_unneeded(t: Tables, project_id: i64, now: i64, path: Seq<char>) -> bool {
    held_hash(path) matches Some(hash) && !is_needed(t, project_id, now, hash)
}

// ── making room ─────────────────────────────────────────────────────

/// Making room with files takes only those that nothing needs, and all of them where
/// there still is not enough; and it takes none once there is.
proof fn lemma_cut(cut: Cut, files: Seq<StoredFile>, live: Seq<Seq<char>>, limit: int)
    ensures
        forall|f: StoredFile| #[trigger]
            cut_files(cut, files, live, limit).removed.contains(f) ==> cut.removed.contains(f) || (
            files.contains(f) && is_orphan(live)(f)),
        forall|f: StoredFile| #[trigger]
            cut.removed.contains(f) ==> cut_files(cut, files, live, limit).removed.contains(f),
        cut_files(cut, files, live, limit).current > limit ==> forall|f: StoredFile| #[trigger]
            files.contains(f) && is_orphan(live)(f) ==> cut_files(
                cut,
                files,
                live,
                limit,
            ).removed.contains(f),
        cut.current <= limit ==> cut_files(cut, files, live, limit) == cut,
        cut_files(cut, files, live, limit).current <= cut.current || cut.current < 0,
    decreases files.len(),
{
    if files.len() > 0 {
        let front = files.drop_last();
        let n = files.len() - 1;
        lemma_cut(cut, front, live, limit);
        let before = cut_files(cut, front, live, limit);
        let after = cut_files(cut, files, live, limit);
        let last = files.last();
        assert forall|f: StoredFile| #[trigger] after.removed.contains(f) <==> before.removed.contains(
            f,
        ) || (before.current > limit && is_orphan(live)(last) && f == last) by {
            crate::laws::restoring::lemma_pushed(before.removed, last, f);
        }
        assert forall|f: StoredFile| #[trigger] files.contains(f) <==> front.contains(f) || f
            == last by {
            crate::laws::restoring::lemma_pushed(front, last, f);
            assert(front.push(last) =~= files);
        }
    }
}

/// Whether a file is in the store of a project, and is named for a version that
/// nothing in that project needs.
pub open spec fn is_spare(
    t: Tables,
    stores: Seq<ProjectStore>,
    now: i64,
    id: i64,
    f: StoredFile,
) -> bool {
    store_of(stores, id) matches Some(at) && stores[at].files@.contains(f) && is_unneeded(
        t,
        id,
        now,
        f.path@,
    )
}

/// Whether a path is that of a file that no project needs where it is stored.
pub open spec fn is_spare_path(
    t: Tables,
    stores: Seq<ProjectStore>,
    now: i64,
    path: Seq<char>,
) -> bool {
    exists|f: StoredFile, i: int|
        0 <= i < t.projects.len() && f.path@ == path && #[trigger] is_spare(
            t,
            stores,
            now,
            t.projects[i].id,
            f,
        )
}

/// Making room in the stores of projects takes only what nothing needs, and all of it
/// where there still is not enough.
proof fn lemma_cut_stores(
    t: Tables,
    cut: Cut,
    ids: Seq<i64>,
    stores: Seq<ProjectStore>,
    now: i64,
    limit: int,
)
    requires
        forall|id: i64| #[trigger] ids.contains(id) ==> are_live(t, id, now, live_of(t, now)(id)),
        forall|at: int| 0 <= at < stores.len() ==> (#[trigger] stores[at]).files@.len() <= usize::MAX,
    ensures
        forall|f: StoredFile| #[trigger]
            cut_stores(cut, ids, stores, live_of(t, now), limit).removed.contains(f)
                ==> cut.removed.contains(f) || exists|id: i64| #[trigger]
                ids.contains(id) && is_spare(t, stores, now, id, f),
        cut_stores(cut, ids, stores, live_of(t, now), limit).current > limit ==> forall|
            f: StoredFile,
            id: i64,
        |
            ids.contains(id) && #[trigger] is_spare(t, stores, now, id, f) ==> cut_stores(
                cut,
                ids,
                stores,
                live_of(t, now),
                limit,
            ).removed.contains(f),
        cut.current <= limit ==> cut_stores(cut, ids, stores, live_of(t, now), limit) == cut,
    decreases ids.len(),
{
    if ids.len() > 0 {
        let front = ids.drop_last();
        let last = ids.last();
        assert forall|id: i64| #[trigger] ids.contains(id) <==> front.contains(id) || id == last by {
            crate::laws::restoring::lemma_pushed(front, last, id);
            assert(front.push(last) =~= ids);
        }
        assert forall|id: i64| #[trigger] front.contains(id) implies are_live(
            t,
            id,
            now,
            live_of(t, now)(id),
        ) by {
            assert(ids.contains(id));
        }
        lemma_cut_stores(t, cut, front, stores, now, limit);
        let before = cut_stores(cut, front, stores, live_of(t, now), limit);
        let after = cut_stores(cut, ids, stores, live_of(t, now), limit);
        let live = live_of(t, now)(last);
        assert(ids.contains(last));
        assert forall|f: StoredFile| #[trigger] is_orphan(live)(f) <==> is_unneeded(
            t,
            last,
            now,
            f.path@,
        ) by {
            if let Some(hash) = held_hash(f.path@) {
                lemma_what_is_needed(t, last, now, hash);
                assert(live.contains(hash) <==> is_live(t, last, now, hash));
            }
        }
        if let Some(at) = store_of(stores, last) {
            lemma_store_of(stores, last);
            let files = stores[at].files@;
            lemma_by_age(files);
            let sorted = crate::retention::by_age(files);
            lemma_cut(before, sorted, live, limit);
            assert(after == cut_files(before, sorted, live, limit));
            assert forall|f: StoredFile| #[trigger] after.removed.contains(
                f,
            ) implies cut.removed.contains(f) || exists|id: i64| #[trigger]
                ids.contains(id) && is_spare(t, stores, now, id, f) by {
                if before.removed.contains(f) {
                    if !cut.removed.contains(f) {
                        let id = choose|id: i64| #[trigger]
                            front.contains(id) && is_spare(t, stores, now, id, f);
                        assert(ids.contains(id));
                    }
                } else {
                    assert(sorted.contains(f));
                    assert(is_spare(t, stores, now, last, f));
                }
            }
            if after.current > limit {
                assert(before.current > limit) by {
                    if before.current <= limit {
                        assert(after == before);
                    }
                }
                assert forall|f: StoredFile, id: i64|
                    ids.contains(id) && #[trigger] is_spare(
                        t,
                        stores,
                        now,
                        id,
                        f,
                    ) implies after.removed.contains(f) by {
                    if id == last {
                        assert(sorted.contains(f));
                        assert(is_orphan(live)(f));
                    } else {
                        assert(front.contains(id));
                        assert(before.removed.contains(f));
                    }
                }
            }
        } else {
            assert forall|f: StoredFile| #[trigger] after.removed.contains(
                f,
            ) implies cut.removed.contains(f) || exists|id: i64| #[trigger]
                ids.contains(id) && is_spare(t, stores, now, id, f) by {
                if !cut.removed.contains(f) {
                    let id = choose|id: i64| #[trigger]
                        front.contains(id) && is_spare(t, stores, now, id, f);
                    assert(ids.contains(id));
                }
            }
        }
    }
}

/// The store of a project is one of the stores.
proof fn lemma_store_of(stores: Seq<ProjectStore>, id: i64)
    ensures
        store_of(stores, id) matches Some(at) ==> 0 <= at < stores.len() && stores[at].project_id
            == id,
    decreases stores.len(),
{
    if stores.len() > 0 {
        lemma_store_of(stores.drop_last(), id);
    }
}

/// Files in the order of their age are the same files.
proof fn lemma_by_age(files: Seq<StoredFile>)
    requires
        files.len() <= usize::MAX,
    ensures
        forall|f: StoredFile| #[trigger]
            crate::retention::by_age(files).contains(f) <==> files.contains(f),
{
    let keys = crate::retention::age_keys(files);
    crate::order::lemma_order_exists(keys);
    let order = choose|order: Seq<usize>| crate::order::is_order(keys, order);
    crate::order::lemma_order_by(keys, order);
    let sorted = crate::retention::by_age(files);
    assert forall|f: StoredFile| #[trigger] sorted.contains(f) <==> files.contains(f) by {
        if sorted.contains(f) {
            let i = choose|i: int| 0 <= i < sorted.len() && sorted[i] == f;
            assert(order[i] < keys.len());
            assert(files[order[i] as int] == f);
        }
        if files.contains(f) {
            let k = choose|k: int| 0 <= k < files.len() && files[k] == f;
            assert(order.contains(k as usize));
            let i = choose|i: int| 0 <= i < order.len() && order[i] == k as usize;
            assert(sorted[i] == f);
        }
    }
}

/// Making room never takes a version that is needed. Where the store still takes more
/// than it may, everything that is not needed has gone; where it took no more than it
/// may, nothing goes. What the store may take is the size that is set, in megabytes.
pub proof fn lemma_room_is_made_with_what_is_not_needed(
    t: Tables,
    config: RetentionConfig,
    usage: u64,
    stores: Seq<ProjectStore>,
    now: i64,
    out: Backstop,
)
    requires
        is_backstop(t, config, usage, stores, now, out),
        forall|at: int| 0 <= at < stores.len() ==> (#[trigger] stores[at]).files@.len() <= usize::MAX,
    ensures
        forall|k: int|
            0 <= k < out.removed@.len() ==> is_spare_path(
                t,
                stores,
                now,
                (#[trigger] out.removed@[k])@,
            ),
        config.max_size_mb * 1024 * 1024 <= u64::MAX && out.current > config.max_size_mb * 1024
            * 1024 ==> forall|f: StoredFile, i: int|
            0 <= i < t.projects.len() && #[trigger] is_spare(
                t,
                stores,
                now,
                t.projects[i].id,
                f,
            ) ==> text::views(out.removed@).contains(f.path@),
        config.max_size_mb * 1024 * 1024 <= u64::MAX && usage <= config.max_size_mb * 1024 * 1024
            ==> out.removed@.len() == 0 && out.current == usage && out.warning is None,
{
    let ids = project_ids(t.projects);
    let start = Cut { current: usage as int, removed: Seq::empty() };
    let limit = room(config);
    assert(config.max_size_mb * 1048576 == config.max_size_mb * 1024 * 1024) by (nonlinear_arith);
    assert forall|id: i64| #[trigger] ids.contains(id) implies are_live(
        t,
        id,
        now,
        live_of(t, now)(id),
    ) by {
        let i = choose|i: int| 0 <= i < ids.len() && ids[i] == id;
        assert(t.projects[i].id == id);
    }
    lemma_cut_stores(t, start, ids, stores, now, limit);
    let cut = cut_stores(start, ids, stores, live_of(t, now), limit);
    assert(text::views(out.removed@).len() == out.removed@.len());
    assert forall|k: int| 0 <= k < out.removed@.len() implies is_spare_path(
        t,
        stores,
        now,
        (#[trigger] out.removed@[k])@,
    ) by {
        assert(text::views(out.removed@)[k] == out.removed@[k]@);
        let f = cut.removed[k];
        assert(paths_of(cut.removed)[k] == f.path@);
        assert(cut.removed.contains(f));
        let id = choose|id: i64| #[trigger]
            ids.contains(id) && is_spare(t, stores, now, id, f);
        let i = choose|i: int| 0 <= i < ids.len() && ids[i] == id;
        assert(is_spare(t, stores, now, t.projects[i].id, f));
    }
    if out.current > limit {
        assert forall|f: StoredFile, i: int|
            0 <= i < t.projects.len() && #[trigger] is_spare(
                t,
                stores,
                now,
                t.projects[i].id,
                f,
            ) implies text::views(out.removed@).contains(f.path@) by {
            assert(ids[i] == t.projects[i].id);
            assert(ids.contains(ids[i]));
            assert(cut.removed.contains(f));
            let k = choose|k: int| 0 <= k < cut.removed.len() && cut.removed[k] == f;
            assert(paths_of(cut.removed)[k] == f.path@);
        }
    }
}

} // verus!
