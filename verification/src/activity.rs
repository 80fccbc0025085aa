//! What happened in a project, and how an emergency is met.
use vstd::prelude::*;
use vstd::string::*;

use crate::clock;
use crate::compare::{quote, quoted};
use crate::db::checkpoints::checkpoints_of;
use crate::db::events::{deletes, is_deletion, of_project, recoverable_deletions, since};
use crate::db::Database;
use crate::duration;
use crate::error::Error;
use crate::models::{Checkpoint, FileEvent};
use crate::number;
use crate::order;
use crate::path;
use crate::rows;
use crate::rows::Order;
use crate::run_report::{change_name, file_change_label};
use crate::style::{color_of, event_color};
use crate::style::{BLUE, BOLD, DIM, GREEN, RESET, YELLOW};
use crate::text;

verus! {

/// The longest pause within a burst, in seconds.
pub const BURST_GAP_SECS: i64 = 10;

/// The changes that make a burst.
pub const BURST_MIN_EVENTS: usize = 8;

/// The files that make a burst.
pub const BURST_MIN_PATHS: usize = 5;

/// The deletions that make a burst.
pub const BURST_MIN_DELETES: usize = 2;

/// How far back an emergency looks, in seconds.
pub const PANIC_WINDOW_SECS: i64 = 86400;

// ── bursts ──────────────────────────────────────────────────────────

/// Many changes in a short time.
#[derive(Debug, Clone, Copy)]
pub struct Burst {
    pub start: i64,
    pub end: i64,
    pub event_count: usize,
    pub path_count: usize,
    pub deleted_count: usize,
}

/// What changes are ordered by.
pub open spec fn event_keys(events: Seq<FileEvent>) -> Seq<(i64, i64)> {
    events.map_values(|e: FileEvent| (e.timestamp, e.id))
}

/// Changes in order, cut where more than the longest pause lies between two.
pub open spec fn rapid_groups(events: Seq<FileEvent>) -> Seq<Seq<FileEvent>>
    decreases events.len(),
{
    if events.len() == 0 {
        Seq::empty()
    } else {
        let before = rapid_groups(events.drop_last());
        if events.len() == 1 || events.last().timestamp - events[events.len() - 2].timestamp
            > BURST_GAP_SECS {
            before.push(seq![events.last()])
        } else {
            before.drop_last().push(before.last().push(events.last()))
        }
    }
}

/// Whether a change is to a file that one of some changes is to.
pub open spec fn touched(events: Seq<FileEvent>, path: Seq<char>) -> bool {
    exists|i: int| 0 <= i < events.len() && (#[trigger] events[i]).path@ == path
}

/// How many files changes are to.
pub open spec fn path_count(events: Seq<FileEvent>) -> nat
    decreases events.len(),
{
    if events.len() == 0 {
        0
    } else {
        path_count(events.drop_last()) + if touched(events.drop_last(), events.last().path@) {
            0nat
        } else {
            1nat
        }
    }
}

/// How many changes are deletions.
pub open spec fn deletion_count(events: Seq<FileEvent>) -> nat {
    rows::kept(events, |e: FileEvent| is_deletion(e))
}

/// Whether changes without a pause are a burst: they are many, or to many files,
/// or some are deletions.
pub open spec fn is_burst(group: Seq<FileEvent>) -> bool {
    group.len() >= BURST_MIN_EVENTS || path_count(group) >= BURST_MIN_PATHS || deletion_count(group)
        >= BURST_MIN_DELETES
}

/// The burst that changes without a pause make.
pub open spec fn burst_of(group: Seq<FileEvent>) -> Burst {
    Burst {
        start: group[0].timestamp,
        end: group.last().timestamp,
        event_count: group.len() as usize,
        path_count: path_count(group) as usize,
        deleted_count: deletion_count(group) as usize,
    }
}

/// The bursts among groups of changes.
pub open spec fn bursts_of(groups: Seq<Seq<FileEvent>>) -> Seq<Burst>
    decreases groups.len(),
{
    if groups.len() == 0 {
        Seq::empty()
    } else if is_burst(groups.last()) {
        bursts_of(groups.drop_last()).push(burst_of(groups.last()))
    } else {
        bursts_of(groups.drop_last())
    }
}

/// Whether bursts are those of changes in any order.
pub open spec fn are_bursts(events: Seq<FileEvent>, bursts: Seq<Burst>) -> bool {
    exists|places: Seq<usize>|
        #[trigger] order::is_order(event_keys(events), places) && bursts == bursts_of(
            rapid_groups(order::arranged(events, places)),
        )
}

/// Counts never pass the number of changes.
proof fn lemma_counts(events: Seq<FileEvent>)
    ensures
        path_count(events) <= events.len(),
        deletion_count(events) <= events.len(),
    decreases events.len(),
{
    rows::lemma_kept_bound(events, |e: FileEvent| is_deletion(e));
    if events.len() > 0 {
        lemma_counts(events.drop_last());
    }
}

/// Whether some change is to a file.
fn is_touched(events: &Vec<FileEvent>, n: usize, path: &str) -> (yes: bool)
    requires
        n <= events.len(),
    ensures
        yes == touched(events@.take(n as int), path@),
{
    let ghost part = events@.take(n as int);
    let mut i: usize = 0;
    while i < n
        invariant
            i <= n <= events.len(),
            part == events@.take(n as int),
            forall|k: int| 0 <= k < i ==> (#[trigger] part[k]).path@ != path@,
        decreases n - i,
    {
        assert(part[i as int] == events@[i as int]);
        if text::same(events[i].path.as_str(), path) {
            return true;
        }
        i += 1;
    }
    false
}

/// How many files changes are to.
fn count_paths(events: &Vec<FileEvent>) -> (count: usize)
    ensures
        count == path_count(events@),
{
    let mut count: usize = 0;
    let mut i: usize = 0;
    while i < events.len()
        invariant
            i <= events.len(),
            count == path_count(events@.take(i as int)),
            count <= i,
        decreases events.len() - i,
    {
        proof {
            assert(events@.take(i + 1).drop_last() =~= events@.take(i as int));
        }
        if !is_touched(events, i, events[i].path.as_str()) {
            count += 1;
        }
        i += 1;
    }
    proof {
        assert(events@.take(i as int) =~= events@);
    }
    count
}

/// Adds the burst that changes without a pause make, where they make one.
pub fn maybe_push_burst(bursts: &mut Vec<Burst>, group: &Vec<FileEvent>)
    ensures
        final(bursts)@ == if group@.len() > 0 && is_burst(group@) {
            old(bursts)@.push(burst_of(group@))
        } else {
            old(bursts)@
        },
{
    if group.len() == 0 {
        return;
    }
    let paths = count_paths(group);
    let test = |e: &FileEvent| -> (yes: bool)
        ensures yes == is_deletion(*e)
    { deletes(e) };
    let deleted = rows::count_rows(group, test, Ghost(|e: FileEvent| is_deletion(e)));
    if group.len() >= BURST_MIN_EVENTS || paths >= BURST_MIN_PATHS || deleted >= BURST_MIN_DELETES {
        bursts.push(
            Burst {
                start: group[0].timestamp,
                end: group[group.len() - 1].timestamp,
                event_count: group.len(),
                path_count: paths,
                deleted_count: deleted,
            },
        );
    }
}

/// No group is empty, and the last ends with the last change.
proof fn lemma_rapid_groups(events: Seq<FileEvent>)
    requires
        events.len() > 0,
    ensures
        rapid_groups(events).len() > 0,
        rapid_groups(events).last().len() > 0,
        rapid_groups(events).last().last() == events.last(),
    decreases events.len(),
{
    if events.len() > 1 {
        lemma_rapid_groups(events.drop_last());
    }
}

/// The bursts of changes in order.
fn bursts_in(events: &Vec<FileEvent>) -> (bursts: Vec<Burst>)
    ensures
        bursts@ == bursts_of(rapid_groups(events@)),
{
    let mut bursts: Vec<Burst> = Vec::new();
    let mut group: Vec<FileEvent> = Vec::new();
    let mut i: usize = 0;
    while i < events.len()
        invariant
            i <= events.len(),
            i == 0 ==> group@.len() == 0 && bursts@.len() == 0,
            i > 0 ==> group@ == rapid_groups(events@.take(i as int)).last() && bursts@
                == bursts_of(rapid_groups(events@.take(i as int)).drop_last()),
        decreases events.len() - i,
    {
        proof {
            assert(events@.take(i + 1).drop_last() =~= events@.take(i as int));
            if i > 0 {
                lemma_rapid_groups(events@.take(i as int));
            }
        }
        let ghost before = rapid_groups(events@.take(i as int));
        if i > 0 && clock::earlier(events[i].timestamp, events[i - 1].timestamp) > BURST_GAP_SECS {
            maybe_push_burst(&mut bursts, &group);
            proof {
                assert(bursts@ == bursts_of(before));
            }
            group = Vec::new();
        }
        group.push(events[i].clone());
        proof {
            let now = rapid_groups(events@.take(i + 1));
            let shown = events@.take(i + 1);
            assert(shown.last() == events@[i as int]);
            if i > 0 {
                assert(shown[shown.len() - 2] == events@[i - 1]);
                if shown.last().timestamp - shown[shown.len() - 2].timestamp > BURST_GAP_SECS {
                    assert(now.drop_last() =~= before);
                    assert(group@ =~= seq![events@[i as int]]);
                } else {
                    assert(now.drop_last() =~= before.drop_last());
                }
            } else {
                assert(before =~= Seq::<Seq<FileEvent>>::empty());
                assert(now.drop_last() =~= Seq::<Seq<FileEvent>>::empty());
                assert(group@ =~= seq![events@[i as int]]);
                assert(bursts@ =~= bursts_of(now.drop_last()));
            }
        }
        i += 1;
    }
    proof {
        assert(events@.take(i as int) =~= events@);
        if events@.len() > 0 {
            lemma_rapid_groups(events@);
        }
    }
    maybe_push_burst(&mut bursts, &group);
    proof {
        assert(events@.len() == 0 ==> bursts@ =~= Seq::empty());
    }
    bursts
}

/// The bursts among changes.
pub fn detect_bursts(events: &Vec<FileEvent>) -> (bursts: Vec<Burst>)
    ensures
        are_bursts(events@, bursts@),
{
    let mut keys: Vec<(i64, i64)> = Vec::new();
    let mut i: usize = 0;
    while i < events.len()
        invariant
            i <= events.len(),
            keys@ =~= event_keys(events@.take(i as int)),
        decreases events.len() - i,
    {
        proof {
            assert(events@.take(i + 1) =~= events@.take(i as int).push(events@[i as int]));
        }
        keys.push((events[i].timestamp, events[i].id));
        i += 1;
    }
    proof {
        assert(events@.take(i as int) =~= events@);
        assert(keys@ == event_keys(events@));
    }
    let places = order::order_of(&keys);
    let mut sorted: Vec<FileEvent> = Vec::new();
    let mut k: usize = 0;
    while k < places.len()
        invariant
            k <= places.len(),
            forall|a: int| 0 <= a < places@.len() ==> (#[trigger] places@[a]) < events@.len(),
            sorted@ =~= order::arranged(events@, places@.take(k as int)),
        decreases places.len() - k,
    {
        proof {
            assert(places@.take(k + 1) =~= places@.take(k as int).push(places@[k as int]));
            assert(places@[k as int] < events@.len());
        }
        sorted.push(events[places[k]].clone());
        k += 1;
    }
    proof {
        assert(places@.take(k as int) =~= places@);
        assert(order::is_order(event_keys(events@), places@));
    }
    bursts_in(&sorted)
}

/// Whether every group has no pause within, and one behind each but the last.
pub open spec fn are_apart(groups: Seq<Seq<FileEvent>>) -> bool {
    &&& forall|g: int| 0 <= g < groups.len() ==> (#[trigger] groups[g]).len() > 0
    &&& forall|g: int, i: int|
        0 <= g < groups.len() && 0 <= i < groups[g].len() - 1 ==> #[trigger] pause(groups[g], i)
            <= BURST_GAP_SECS
    &&& forall|g: int|
        0 <= g < groups.len() - 1 ==> #[trigger] gap(groups, g) > BURST_GAP_SECS
}

/// The seconds behind a change in a group.
pub open spec fn pause(group: Seq<FileEvent>, i: int) -> int {
    group[i + 1].timestamp - group[i].timestamp
}

/// The seconds behind a group.
pub open spec fn gap(groups: Seq<Seq<FileEvent>>, g: int) -> int {
    groups[g + 1][0].timestamp - groups[g].last().timestamp
}

/// Every change is in one group, in order, with no pause within a group and one
/// between two.
pub proof fn lemma_groups_are_apart(events: Seq<FileEvent>)
    ensures
        rapid_groups(events).flatten() == events,
        are_apart(rapid_groups(events)),
    decreases events.len(),
{
    let all = rapid_groups(events);
    if events.len() > 0 {
        let before = rapid_groups(events.drop_last());
        lemma_groups_are_apart(events.drop_last());
        lemma_rapid_groups(events);
        let last = events.last();
        assert(events =~= events.drop_last().push(last));
        if events.len() == 1 || last.timestamp - events[events.len() - 2].timestamp
            > BURST_GAP_SECS {
            before.lemma_flatten_push(seq![last]);
            assert(before.flatten() + seq![last] =~= events);
            if events.len() > 1 {
                lemma_rapid_groups(events.drop_last());
                assert(before.last().last() == events[events.len() - 2]);
            }
            assert forall|g: int| 0 <= g < all.len() - 1 implies #[trigger] gap(all, g)
                > BURST_GAP_SECS by {
                if g + 1 < before.len() {
                    assert(gap(before, g) > BURST_GAP_SECS);
                }
            }
            assert forall|g: int, i: int|
                0 <= g < all.len() && 0 <= i < all[g].len() - 1 implies #[trigger] pause(
                all[g],
                i,
            ) <= BURST_GAP_SECS by {
                assert(pause(before[g], i) <= BURST_GAP_SECS);
            }
        } else {
            lemma_rapid_groups(events.drop_last());
            let front = before.drop_last();
            let tail = before.last();
            assert(before =~= front.push(tail));
            front.lemma_flatten_push(tail);
            front.lemma_flatten_push(tail.push(last));
            assert(front.flatten() + tail.push(last) =~= (front.flatten() + tail).push(last));
            assert forall|g: int, i: int|
                0 <= g < all.len() && 0 <= i < all[g].len() - 1 implies #[trigger] pause(
                all[g],
                i,
            ) <= BURST_GAP_SECS by {
                if g < front.len() || i < tail.len() - 1 {
                    assert(pause(before[g], i) <= BURST_GAP_SECS);
                } else {
                    assert(tail.last() == events[events.len() - 2]);
                }
            }
            assert forall|g: int| 0 <= g < all.len() - 1 implies #[trigger] gap(all, g)
                > BURST_GAP_SECS by {
                assert(gap(before, g) > BURST_GAP_SECS);
            }
        }
    } else {
        assert(all.flatten() =~= events);
    }
}

/// Whether a place is that of the burst that ended last.
pub open spec fn is_latest(bursts: Seq<Burst>, found: Option<int>) -> bool {
    match found {
        Some(i) => {
            &&& 0 <= i < bursts.len()
            &&& forall|k: int| 0 <= k < bursts.len() ==> (#[trigger] bursts[k]).end <= bursts[i].end
            &&& forall|k: int| i < k < bursts.len() ==> (#[trigger] bursts[k]).end < bursts[i].end
        },
        None => bursts.len() == 0,
    }
}

/// The place of the burst that ended last.
pub fn latest_burst(bursts: &Vec<Burst>) -> (found: Option<usize>)
    ensures
        is_latest(
            bursts@,
            match found {
                Some(i) => Some(i as int),
                None => None,
            },
        ),
{
    if bursts.len() == 0 {
        return None;
    }
    let mut best: usize = 0;
    let mut i: usize = 1;
    while i < bursts.len()
        invariant
            best < i <= bursts.len(),
            forall|k: int| 0 <= k < i ==> (#[trigger] bursts@[k]).end <= bursts@[best as int].end,
            forall|k: int| best < k < i ==> (#[trigger] bursts@[k]).end < bursts@[best as int].end,
        decreases bursts.len() - i,
    {
        if bursts[i].end >= bursts[best].end {
            best = i;
        }
        i += 1;
    }
    Some(best)
}

// ── times ───────────────────────────────────────────────────────────

/// How a moment reads where the user is.
#[derive(Debug)]
pub struct LocalTime {
    pub at: i64,
    pub text: String,
}

/// How a moment reads, as far as it is known.
pub open spec fn shown_time(times: Seq<LocalTime>, at: i64) -> Seq<char> {
    match rows::lookup(times, |t: LocalTime| t.at == at) {
        Some(t) => t.text@,
        None => "??:??"@,
    }
}

/// How a moment reads, as far as it is known.
pub fn format_local_time(times: &Vec<LocalTime>, timestamp: i64) -> (out: String)
    ensures
        out@ == shown_time(times@, timestamp),
{
    let ghost keep = |t: LocalTime| t.at == timestamp;
    let test = |t: &LocalTime| -> (yes: bool)
        ensures yes == (t.at == timestamp)
    { t.at == timestamp };
    let at = rows::position(times, test, Ghost(keep));
    proof {
        rows::lemma_lookup(
            times@,
            keep,
            match at {
                Some(i) => Some(i as int),
                None => None,
            },
        );
        assert(keep =~= (|t: LocalTime| t.at == timestamp));
    }
    match at {
        Some(i) => times[i].text.clone(),
        None => "??:??".to_owned(),
    }
}

/// How long ago a moment was.
pub open spec fn age(now: i64, at: i64) -> Seq<char> {
    duration::elapsed(clock::clamp(now - at))
}

/// How long ago a moment was.
fn age_text(now: i64, at: i64) -> (out: String)
    ensures
        out@ == age(now, at),
{
    duration::format_elapsed(clock::earlier(now, at))
}

/// Whether a result is the moment that an age names.
pub open spec fn is_since(
    since: Option<Seq<char>>,
    now: i64,
    result: Result<Option<i64>, Error>,
) -> bool {
    match since {
        None => result matches Ok(from) && from is None,
        Some(s) => match duration::duration_of(s) {
            Ok(seconds) => result matches Ok(Some(from)) && from == clock::clamp(now - seconds),
            Err(said) => result matches Err(e) && e@ == said,
        },
    }
}

/// The moment that an age names.
pub fn parse_since(since: Option<&str>, now: i64) -> (result: Result<Option<i64>, Error>)
    ensures
        is_since(text::view_opt_str(since), now, result),
{
    match since {
        None => Ok(None),
        Some(s) => match duration::parse_duration(s) {
            Ok(seconds) => Ok(Some(clock::earlier(now, seconds))),
            Err(e) => Err(e),
        },
    }
}

// ── checkpoints ─────────────────────────────────────────────────────

/// Whether a checkpoint is saved as asked for: in the Run that is named, else in
/// the only active one.
pub open spec fn checkpoint_asked(
    before: crate::db::Tables,
    after: crate::db::Tables,
    project_id: i64,
    name: Seq<char>,
    intent: Option<Seq<char>>,
    run_reference: Option<Seq<char>>,
    now: i64,
    result: Result<(Checkpoint, bool), Error>,
) -> bool {
    if text::trimmed(name).len() == 0 {
        after == before && (result matches Err(e) && e@ == "A checkpoint needs a name."@)
    } else {
        exists|run: Result<Option<i64>, Error>|
            {
                &&& #[trigger] is_checkpoint_run(before, project_id, run_reference, run)
                &&& match run {
                    Err(e) => after == before && (result matches Err(x) && x == e),
                    Ok(run_id) => crate::db::checkpoints::checkpoint_saved(
                        before,
                        after,
                        project_id,
                        run_id,
                        text::trimmed(name),
                        now,
                        intent,
                        now,
                        result,
                    ),
                }
            }
    }
}

/// Whether a result is the Run that a checkpoint belongs to.
pub open spec fn is_checkpoint_run(
    t: crate::db::Tables,
    project_id: i64,
    run_reference: Option<Seq<char>>,
    run: Result<Option<i64>, Error>,
) -> bool {
    match run_reference {
        Some(reference) => match crate::db::runs::run_by_ref(t.sessions, project_id, reference) {
            Some(r) => run == Ok::<Option<i64>, Error>(Some(r.id)),
            None => run matches Err(e) && e@ == "Run '"@ + reference + "' not found"@,
        },
        None => exists|active: Result<Option<crate::models::Run>, Error>|
            {
                &&& #[trigger] crate::db::runs::is_active_session(t.sessions, project_id, active)
                &&& match active {
                    Ok(Some(r)) => run == Ok::<Option<i64>, Error>(Some(r.id)),
                    Ok(None) => run == Ok::<Option<i64>, Error>(None),
                    Err(e) => run == Err::<Option<i64>, Error>(e),
                }
            },
    }
}

/// The Run that a checkpoint belongs to.
fn checkpoint_run(db: &Database, project_id: i64, run_reference: Option<&str>) -> (run: Result<
    Option<i64>,
    Error,
>)
    requires
        db@.wf(),
    ensures
        is_checkpoint_run(db@, project_id, text::view_opt_str(run_reference), run),
{
    match run_reference {
        Some(reference) => match db.get_run_by_ref(project_id, reference)? {
            Some(run) => Ok(Some(run.id)),
            None => Err(Error::new(text::cat3("Run '", reference, "' not found"))),
        },
        None => {
            let active = db.get_active_session(project_id);
            assert(crate::db::runs::is_active_session(db@.sessions, project_id, active));
            match active {
                Ok(Some(run)) => Ok(Some(run.id)),
                Ok(None) => Ok(None),
                Err(e) => Err(e),
            }
        },
    }
}

/// Saves a checkpoint at a moment.
pub fn cmd_checkpoint_for(
    db: &mut Database,
    project_id: i64,
    name: &str,
    intent: Option<&str>,
    run_reference: Option<&str>,
    now: i64,
) -> (result: Result<(Checkpoint, bool), Error>)
    requires
        old(db)@.wf(),
    ensures
        final(db)@.wf(),
        checkpoint_asked(
            old(db)@,
            final(db)@,
            project_id,
            name@,
            text::view_opt_str(intent),
            text::view_opt_str(run_reference),
            now,
            result,
        ),
{
    if text::blank(name) {
        return Err(Error::new("A checkpoint needs a name.".to_owned()));
    }
    let name = text::trim(name);
    let run = checkpoint_run(db, project_id, run_reference);
    assert(is_checkpoint_run(old(db)@, project_id, text::view_opt_str(run_reference), run));
    match run {
        Err(e) => Err(e),
        Ok(run_id) => db.save_checkpoint(project_id, run_id, name, now, intent, now),
    }
}

/// What is said of a checkpoint that was asked for.
pub open spec fn saved_text(name: Seq<char>, checkpoint: Checkpoint, created: bool) -> Seq<char> {
    let id = "cp_"@ + number::decimal(checkpoint.id as int);
    if created {
        GREEN@ + "Checkpoint saved:"@ + RESET@ + " "@ + name + " ("@ + id + ")"@
    } else {
        "Checkpoint "@ + id + " already exists at this point; no changes made."@
    }
}

/// What is said of a checkpoint that was asked for.
pub fn checkpoint_notice(name: &str, checkpoint: &Checkpoint, created: bool) -> (line: String)
    ensures
        line@ == saved_text(text::trimmed(name@), *checkpoint, created),
{
    let id = checkpoint.public_id();
    if created {
        let mut line = text::cat5(GREEN, "Checkpoint saved:", RESET, " ", text::trim(name));
        line.append(" (");
        line.append(id.as_str());
        line.append(")");
        line
    } else {
        text::cat3("Checkpoint ", id.as_str(), " already exists at this point; no changes made.")
    }
}

/// A line on a checkpoint.
pub open spec fn checkpoint_row(c: Checkpoint, now: i64) -> Seq<char> {
    text::padded("cp_"@ + number::decimal(c.id as int), 8) + " "@ + DIM@ + age(now, c.timestamp)
        + RESET@ + " "@ + c.name@ + (match c.run_id {
        Some(id) => " (Run r_"@ + number::decimal(id as int) + ")"@,
        None => ""@,
    }) + (match c.event_id {
        Some(id) => " (change "@ + number::decimal(id as int) + ")"@,
        None => " (saved by time)"@,
    })
}

/// A line on a checkpoint.
fn row_of(c: &Checkpoint, now: i64) -> (line: String)
    ensures
        line@ == checkpoint_row(*c, now),
{
    let id = c.public_id();
    let mut line = text::pad(id.as_str(), 8);
    line.append(" ");
    line.append(DIM);
    line.append(age_text(now, c.timestamp).as_str());
    line.append(RESET);
    line.append(" ");
    line.append(c.name.as_str());
    match c.run_id {
        Some(id) => {
            let part = text::cat3(" (Run r_", number::signed_text(id).as_str(), ")");
            line.append(part.as_str());
        },
        None => line.append(""),
    }
    match c.event_id {
        Some(id) => {
            let part = text::cat3(" (change ", number::signed_text(id).as_str(), ")");
            line.append(part.as_str());
        },
        None => line.append(" (saved by time)"),
    }
    line
}

/// The lines on the checkpoints of a project.
pub open spec fn checkpoints_report(list: Seq<Checkpoint>, now: i64) -> Seq<Seq<char>> {
    if list.len() == 0 {
        seq!["No checkpoints yet."@, "Create one with: undo checkpoint <name>"@]
    } else {
        seq![BOLD@ + "Checkpoints"@ + RESET@, ""@] + list.map_values(
            |c: Checkpoint| checkpoint_row(c, now),
        )
    }
}

/// The lines on the checkpoints of a project.
pub fn cmd_checkpoints(db: &Database, project_id: i64, now: i64) -> (result: Result<
    Vec<String>,
    Error,
>)
    requires
        db@.wf(),
    ensures
        result matches Ok(lines) && text::views(lines@) == checkpoints_report(
            rows::listed(db@.checkpoints, Order::Newest, checkpoints_of(project_id)),
            now,
        ),
{
    let list = db.list_checkpoints(project_id)?;
    proof {
        rows::lemma_listed(
            db@.checkpoints,
            Order::Newest,
            checkpoints_of(project_id),
            list@,
        );
    }
    let mut lines: Vec<String> = Vec::new();
    if list.len() == 0 {
        text::add_line(&mut lines, "No checkpoints yet.".to_owned());
        text::add_line(&mut lines, "Create one with: undo checkpoint <name>".to_owned());
        proof {
            assert(text::views(lines@) =~= checkpoints_report(list@, now));
        }
        return Ok(lines);
    }
    text::add_line(&mut lines, text::cat3(BOLD, "Checkpoints", RESET));
    text::add_line(&mut lines, "".to_owned());
    proof {
        assert(text::views(lines@) =~= seq![BOLD@ + "Checkpoints"@ + RESET@, ""@]);
    }
    let said = |c: &Checkpoint| -> (out: String)
        ensures out@ == checkpoint_row(*c, now)
    { row_of(c, now) };
    text::add_lines(
        &mut lines,
        text::lines_for(&list, said, Ghost(|c: Checkpoint| checkpoint_row(c, now))),
    );
    Ok(lines)
}

/// The checkpoints of a project from a moment on.
pub open spec fn recent_checkpoints(project_id: i64, from: Option<i64>) -> spec_fn(
    Checkpoint,
) -> bool {
    |c: Checkpoint|
        c.project_id == project_id && match from {
            Some(at) => c.timestamp >= at,
            None => true,
        }
}

/// The checkpoints of a project from a moment on, the newest first.
pub fn filtered_checkpoints(db: &Database, project_id: i64, from: Option<i64>) -> (result: Result<
    Vec<Checkpoint>,
    Error,
>)
    requires
        db@.wf(),
    ensures
        result matches Ok(list) && list@ == rows::listed(
            db@.checkpoints,
            Order::Newest,
            recent_checkpoints(project_id, from),
        ),
{
    let test = |c: &Checkpoint| -> (yes: bool)
        ensures
            yes == (c.project_id == project_id && match from {
                Some(at) => c.timestamp >= at,
                None => true,
            })
    {
        c.project_id == project_id && match from {
            Some(at) => c.timestamp >= at,
            None => true,
        }
    };
    Ok(
        rows::listing(
            &db.checkpoints,
            Order::Newest,
            test,
            Ghost(recent_checkpoints(project_id, from)),
        ),
    )
}

// ── what happened ───────────────────────────────────────────────────

/// A line on a change.
pub open spec fn event_row(e: FileEvent, root: Seq<char>, times: Seq<LocalTime>) -> Seq<char> {
    let head = DIM@ + shown_time(times, e.timestamp) + RESET@ + " "@ + color_of(e.event_type@)
        + change_name(e.event_type@) + RESET@ + " "@;
    let to = path::relative(e.path@, root);
    if e.event_type@ == "RENAMED"@ {
        head + path::relative(
            match e.old_path {
                Some(from) => from@,
                None => "?"@,
            },
            root,
        ) + " -> "@ + to
    } else {
        head + to
    }
}

/// The word for a kind of change.
pub fn event_label<'a>(event_type: &'a str) -> (label: &'a str)
    ensures
        label@ == change_name(event_type@),
{
    file_change_label(event_type)
}

/// A line on a change.
pub fn print_event(e: &FileEvent, root: &str, times: &Vec<LocalTime>) -> (line: String)
    ensures
        line@ == event_row(*e, root@, times@),
{
    let mut line = text::cat3(DIM, format_local_time(times, e.timestamp).as_str(), RESET);
    line.append(" ");
    line.append(event_color(e.event_type.as_str()));
    line.append(event_label(e.event_type.as_str()));
    line.append(RESET);
    line.append(" ");
    if text::same(e.event_type.as_str(), "RENAMED") {
        let from = match &e.old_path {
            Some(from) => from.as_str(),
            None => "?",
        };
        line.append(path::relative_path(from, root));
        line.append(" -> ");
    }
    line.append(path::relative_path(e.path.as_str(), root));
    line
}

/// A line on a burst.
pub open spec fn burst_row(b: Burst, times: Seq<LocalTime>) -> Seq<char> {
    "  "@ + DIM@ + shown_time(times, b.end) + RESET@ + " "@ + number::decimal(b.path_count as int)
        + " files, "@ + number::decimal(b.event_count as int) + " changes, "@ + number::decimal(
        b.deleted_count as int,
    ) + " deleted"@
}

/// The lines on bursts, the last first.
pub open spec fn burst_lines(bursts: Seq<Burst>, times: Seq<LocalTime>) -> Seq<Seq<char>> {
    if bursts.len() == 0 {
        seq![""@, "No large groups of rapid file changes found."@]
    } else {
        seq![""@, BOLD@ + "Rapid file changes"@ + RESET@] + bursts.reverse().map_values(
            |b: Burst| burst_row(b, times),
        )
    }
}

/// A line on a burst.
fn burst_line(b: &Burst, times: &Vec<LocalTime>) -> (line: String)
    ensures
        line@ == burst_row(*b, times@),
{
    let mut line = text::cat("  ", DIM);
    line.append(format_local_time(times, b.end).as_str());
    line.append(RESET);
    line.append(" ");
    line.append(number::count_text(b.path_count).as_str());
    line.append(" files, ");
    line.append(number::count_text(b.event_count).as_str());
    line.append(" changes, ");
    line.append(number::count_text(b.deleted_count).as_str());
    line.append(" deleted");
    line
}

/// The lines on bursts, the last first.
pub fn print_bursts(bursts: &Vec<Burst>, times: &Vec<LocalTime>) -> (lines: Vec<String>)
    ensures
        text::views(lines@) == burst_lines(bursts@, times@),
{
    let mut lines: Vec<String> = Vec::new();
    text::add_line(&mut lines, "".to_owned());
    if bursts.len() == 0 {
        text::add_line(&mut lines, "No large groups of rapid file changes found.".to_owned());
        proof {
            assert(text::views(lines@) =~= burst_lines(bursts@, times@));
        }
        return lines;
    }
    text::add_line(&mut lines, text::cat3(BOLD, "Rapid file changes", RESET));
    let ghost head = text::views(lines@);
    proof {
        assert(head =~= seq![""@, BOLD@ + "Rapid file changes"@ + RESET@]);
    }
    let ghost turned = bursts@.reverse();
    let ghost rest = turned.map_values(|b: Burst| burst_row(b, times@));
    let mut i: usize = bursts.len();
    proof {
        assert(text::views(lines@) =~= head + rest.take(0));
    }
    while i > 0
        invariant
            i <= bursts.len(),
            turned == bursts@.reverse(),
            rest == turned.map_values(|b: Burst| burst_row(b, times@)),
            text::views(lines@) == head + rest.take(bursts@.len() - i),
        decreases i,
    {
        i -= 1;
        text::add_line(&mut lines, burst_line(&bursts[i], times));
        proof {
            let n = bursts@.len() - i;
            assert(rest[n - 1] == burst_row(bursts@[i as int], times@));
            assert(head + rest.take(n) =~= (head + rest.take(n - 1)).push(rest[n - 1]));
        }
    }
    proof {
        assert(rest.take(bursts@.len() as int) =~= rest);
    }
    lines
}

/// The first items of a list, at most some.
pub open spec fn first_few<T>(list: Seq<T>, limit: int) -> Seq<T> {
    list.take(
        if limit < list.len() {
            limit
        } else {
            list.len() as int
        },
    )
}

/// A line on a checkpoint among changes.
pub open spec fn mark_row(c: Checkpoint, times: Seq<LocalTime>) -> Seq<char> {
    DIM@ + shown_time(times, c.timestamp) + RESET@ + " "@ + BLUE@ + c.name@ + RESET@
}

/// A line on a checkpoint among changes.
pub fn print_checkpoint(c: &Checkpoint, times: &Vec<LocalTime>) -> (line: String)
    ensures
        line@ == mark_row(*c, times@),
{
    let mut line = text::cat3(DIM, format_local_time(times, c.timestamp).as_str(), RESET);
    line.append(" ");
    line.append(BLUE);
    line.append(c.name.as_str());
    line.append(RESET);
    line
}

/// At most some of the first checkpoints.
fn first_checkpoints(list: &Vec<Checkpoint>, limit: usize) -> (part: Vec<Checkpoint>)
    ensures
        part@ == first_few(list@, limit as int),
{
    let mut part: Vec<Checkpoint> = Vec::new();
    let mut i: usize = 0;
    while i < list.len() && i < limit
        invariant
            i <= list.len(),
            i <= limit,
            part@ =~= list@.take(i as int),
        decreases list.len() - i,
    {
        part.push(list[i].clone());
        i += 1;
    }
    part
}

/// Whether changes are those that a timeline shows.
pub open spec fn are_shown(
    events: Seq<FileEvent>,
    project_id: i64,
    limit: int,
    from: Option<i64>,
    deleted_only: bool,
    list: Seq<FileEvent>,
) -> bool {
    exists|all: Seq<FileEvent>|
        {
            &&& #[trigger] rows::is_limited(
                events,
                Order::Newest,
                shown_changes(project_id, from),
                limit,
                all,
            )
            &&& list == if deleted_only {
                rows::retained(all, |e: FileEvent| is_deletion(e))
            } else {
                all
            }
        }
}

/// The changes of a project from a moment on.
pub open spec fn shown_changes(project_id: i64, from: Option<i64>) -> spec_fn(FileEvent) -> bool {
    match from {
        Some(at) => since(project_id, at),
        None => of_project(project_id),
    }
}

/// The changes that a timeline shows.
fn changes_shown(
    db: &Database,
    project_id: i64,
    limit: usize,
    from: Option<i64>,
    deleted_only: bool,
) -> (result: Result<Vec<FileEvent>, Error>)
    requires
        db@.wf(),
    ensures
        result matches Ok(list) && are_shown(
            db@.events,
            project_id,
            limit as int,
            from,
            deleted_only,
            list@,
        ),
{
    let all = match from {
        Some(at) => db.get_events_since_limited(project_id, at, limit)?,
        None => db.get_timeline(project_id, limit)?,
    };
    assert(rows::is_limited(
        db@.events,
        Order::Newest,
        shown_changes(project_id, from),
        limit as int,
        all@,
    ));
    if deleted_only {
        let test = |e: &FileEvent| -> (yes: bool)
            ensures yes == is_deletion(*e)
        { deletes(e) };
        return Ok(rows::retain(&all, test, Ghost(|e: FileEvent| is_deletion(e))));
    }
    Ok(all)
}

/// The lines of a timeline.
pub open spec fn timeline_lines(
    root: Seq<char>,
    events: Seq<FileEvent>,
    bursts: Seq<Burst>,
    show_bursts: bool,
    checkpoints: Seq<Checkpoint>,
    times: Seq<LocalTime>,
) -> Seq<Seq<char>> {
    if events.len() == 0 {
        seq!["No file changes recorded yet."@]
    } else {
        let a = seq![BOLD@ + "Recent file changes"@ + RESET@];
        let b = if show_bursts {
            a + burst_lines(bursts, times)
        } else {
            a
        };
        let c = b.push(""@) + events.map_values(|e: FileEvent| event_row(e, root, times));
        if checkpoints.len() == 0 {
            c
        } else {
            c.push(""@).push(BOLD@ + "Checkpoints"@ + RESET@) + first_few(
                checkpoints,
                5,
            ).map_values(|k: Checkpoint| mark_row(k, times))
        }
    }
}

/// The lines of a timeline.
pub fn timeline_report(
    root: &str,
    events: &Vec<FileEvent>,
    bursts: &Vec<Burst>,
    show_bursts: bool,
    checkpoints: &Vec<Checkpoint>,
    times: &Vec<LocalTime>,
) -> (lines: Vec<String>)
    ensures
        text::views(lines@) == timeline_lines(
            root@,
            events@,
            bursts@,
            show_bursts,
            checkpoints@,
            times@,
        ),
{
    let mut lines: Vec<String> = Vec::new();
    if events.len() == 0 {
        text::add_line(&mut lines, "No file changes recorded yet.".to_owned());
        proof {
            assert(text::views(lines@) =~= seq!["No file changes recorded yet."@]);
        }
        return lines;
    }
    text::add_line(&mut lines, text::cat3(BOLD, "Recent file changes", RESET));
    proof {
        assert(text::views(lines@) =~= seq![BOLD@ + "Recent file changes"@ + RESET@]);
    }
    if show_bursts {
        text::add_lines(&mut lines, print_bursts(bursts, times));
    }
    text::add_line(&mut lines, "".to_owned());
    let said = |e: &FileEvent| -> (out: String)
        ensures out@ == event_row(*e, root@, times@)
    { print_event(e, root, times) };
    text::add_lines(
        &mut lines,
        text::lines_for(events, said, Ghost(|e: FileEvent| event_row(e, root@, times@))),
    );
    if checkpoints.len() > 0 {
        text::add_line(&mut lines, "".to_owned());
        text::add_line(&mut lines, text::cat3(BOLD, "Checkpoints", RESET));
        let part = first_checkpoints(checkpoints, 5);
        let marked = |c: &Checkpoint| -> (out: String)
            ensures out@ == mark_row(*c, times@)
        { print_checkpoint(c, times) };
        text::add_lines(
            &mut lines,
            text::lines_for(&part, marked, Ghost(|k: Checkpoint| mark_row(k, times@))),
        );
    }
    lines
}

/// Whether lines are a timeline of a project.
pub open spec fn is_timeline(
    t: crate::db::Tables,
    project_id: i64,
    root: Seq<char>,
    limit: int,
    from: Option<i64>,
    show_bursts: bool,
    deleted_only: bool,
    times: Seq<LocalTime>,
    lines: Seq<Seq<char>>,
) -> bool {
    exists|events: Seq<FileEvent>, bursts: Seq<Burst>|
        {
            &&& #[trigger] are_shown(t.events, project_id, limit, from, deleted_only, events)
            &&& #[trigger] are_bursts(events, bursts)
            &&& lines == timeline_lines(
                root,
                events,
                bursts,
                show_bursts,
                if deleted_only {
                    Seq::empty()
                } else {
                    rows::listed(
                        t.checkpoints,
                        Order::Newest,
                        recent_checkpoints(project_id, from),
                    )
                },
                times,
            )
        }
}

/// The lines of a timeline of a project.
pub fn cmd_timeline(
    db: &Database,
    project_id: i64,
    root: &str,
    limit: usize,
    since: Option<&str>,
    show_bursts: bool,
    deleted_only: bool,
    times: &Vec<LocalTime>,
    now: i64,
) -> (result: Result<Vec<String>, Error>)
    requires
        db@.wf(),
    ensures
        exists|from: Result<Option<i64>, Error>|
            #[trigger] is_since(text::view_opt_str(since), now, from) && match from {
                Err(e) => result == Err::<Vec<String>, Error>(e),
                Ok(at) => result matches Ok(lines) && is_timeline(
                    db@,
                    project_id,
                    root@,
                    limit as int,
                    at,
                    show_bursts,
                    deleted_only,
                    times@,
                    text::views(lines@),
                ),
            },
{
    let from = parse_since(since, now);
    assert(is_since(text::view_opt_str(since), now, from));
    let at = match from {
        Err(e) => {
            return Err(e);
        },
        Ok(at) => at,
    };
    let events = changes_shown(db, project_id, limit, at, deleted_only)?;
    assert(are_shown(db@.events, project_id, limit as int, at, deleted_only, events@));
    let bursts = detect_bursts(&events);
    assert(are_bursts(events@, bursts@));
    let checkpoints = if deleted_only {
        Vec::new()
    } else {
        filtered_checkpoints(db, project_id, at)?
    };
    let lines = timeline_report(root, &events, &bursts, show_bursts, &checkpoints, times);
    assert(is_timeline(
        db@,
        project_id,
        root@,
        limit as int,
        at,
        show_bursts,
        deleted_only,
        times@,
        text::views(lines@),
    ));
    Ok(lines)
}

// ── deleted files ───────────────────────────────────────────────────

/// A line on a deleted file.
pub open spec fn deleted_row(e: FileEvent, root: Seq<char>, now: i64) -> Seq<char> {
    DIM@ + age(now, e.timestamp) + RESET@ + " "@ + path::relative(e.path@, root)
}

/// A line on a deleted file.
fn deleted_line(e: &FileEvent, root: &str, now: i64) -> (line: String)
    ensures
        line@ == deleted_row(*e, root@, now),
{
    text::cat5(
        DIM,
        age_text(now, e.timestamp).as_str(),
        RESET,
        " ",
        path::relative_path(e.path.as_str(), root),
    )
}

/// The lines on deleted files.
pub open spec fn deleted_lines(events: Seq<FileEvent>, root: Seq<char>, now: i64) -> Seq<
    Seq<char>,
> {
    if events.len() == 0 {
        seq!["No recoverable deleted files found."@]
    } else {
        (seq![BOLD@ + "Recoverable deleted files"@ + RESET@, ""@] + events.map_values(
            |e: FileEvent| deleted_row(e, root, now),
        )).push(""@).push("Restore one with: undo restore-deleted <path>"@)
    }
}

/// The lines on the files of a project that were deleted and can be recovered.
pub fn cmd_deleted(db: &Database, project_id: i64, root: &str, limit: usize, now: i64) -> (result:
    Result<Vec<String>, Error>)
    requires
        db@.wf(),
    ensures
        result matches Ok(lines) && exists|events: Seq<FileEvent>|
            #[trigger] rows::is_limited(
                db@.events,
                Order::Newest,
                recoverable_deletions(project_id),
                limit as int,
                events,
            ) && text::views(lines@) == deleted_lines(events, root@, now),
{
    let events = db.get_deleted_events(project_id, limit)?;
    assert(rows::is_limited(
        db@.events,
        Order::Newest,
        recoverable_deletions(project_id),
        limit as int,
        events@,
    ));
    let mut lines: Vec<String> = Vec::new();
    if events.len() == 0 {
        text::add_line(&mut lines, "No recoverable deleted files found.".to_owned());
        proof {
            assert(text::views(lines@) =~= deleted_lines(events@, root@, now));
        }
        return Ok(lines);
    }
    text::add_line(&mut lines, text::cat3(BOLD, "Recoverable deleted files", RESET));
    text::add_line(&mut lines, "".to_owned());
    proof {
        assert(text::views(lines@) =~= seq![
            BOLD@ + "Recoverable deleted files"@ + RESET@,
            ""@,
        ]);
    }
    let said = |e: &FileEvent| -> (out: String)
        ensures out@ == deleted_row(*e, root@, now)
    { deleted_line(e, root, now) };
    text::add_lines(
        &mut lines,
        text::lines_for(&events, said, Ghost(|e: FileEvent| deleted_row(e, root@, now))),
    );
    text::add_line(&mut lines, "".to_owned());
    text::add_line(&mut lines, "Restore one with: undo restore-deleted <path>".to_owned());
    Ok(lines)
}

// ── emergencies ─────────────────────────────────────────────────────

/// The commands that look at and take the way back to a moment.
pub open spec fn way_back(target: i64) -> (Seq<char>, Seq<char>) {
    let head = "undo restore . --timestamp "@ + number::decimal(target as int);
    (head + " --preview"@, head + " --yes"@)
}

/// The commands that look at and take the way back to a moment.
pub fn panic_restore_commands(target: i64) -> (commands: (String, String))
    ensures
        (commands.0@, commands.1@) == way_back(target),
{
    let at = number::signed_text(target);
    (
        text::cat3("undo restore . --timestamp ", at.as_str(), " --preview"),
        text::cat3("undo restore . --timestamp ", at.as_str(), " --yes"),
    )
}

/// The moment before a burst.
pub open spec fn before_burst(b: Burst) -> i64 {
    clock::clamp(b.start - 1) as i64
}

/// A line on a checkpoint to go back to.
pub open spec fn refuge_row(c: Checkpoint, now: i64) -> Seq<char> {
    "  "@ + DIM@ + age(now, c.timestamp) + RESET@ + " restore with: undo restore --checkpoint "@
        + quoted(c.name@) + " . --yes"@
}

/// A line on a checkpoint to go back to.
fn refuge_line(c: &Checkpoint, now: i64) -> (line: String)
    ensures
        line@ == refuge_row(*c, now),
{
    let mut line = text::cat("  ", DIM);
    line.append(age_text(now, c.timestamp).as_str());
    line.append(RESET);
    line.append(" restore with: undo restore --checkpoint ");
    line.append(quote(c.name.as_str()).as_str());
    line.append(" . --yes");
    line
}

/// The lines on the latest burst.
pub open spec fn latest_lines(latest: Option<Burst>, times: Seq<LocalTime>) -> Seq<Seq<char>> {
    match latest {
        None => seq!["No large group of recent file changes was found."@],
        Some(b) => seq![
            YELLOW@ + "Latest rapid change group"@ + RESET@ + ": "@ + number::decimal(
                b.path_count as int,
            ) + " files, "@ + number::decimal(b.event_count as int) + " changes, "@
                + number::decimal(b.deleted_count as int) + " deleted around "@ + shown_time(
                times,
                b.end,
            ),
            "  Target timestamp: "@ + number::decimal(before_burst(b) as int),
            "  Preview: "@ + way_back(before_burst(b)).0,
            "  Restore: "@ + way_back(before_burst(b)).1,
        ],
    }
}

/// The lines on what an emergency can be met with.
pub open spec fn panic_lines(
    latest: Option<Burst>,
    deleted: Seq<FileEvent>,
    checkpoints: Seq<Checkpoint>,
    root: Seq<char>,
    times: Seq<LocalTime>,
    now: i64,
) -> Seq<Seq<char>> {
    let a = seq![BOLD@ + "Emergency recovery options"@ + RESET@, ""@] + latest_lines(
        latest,
        times,
    );
    let b = if deleted.len() == 0 {
        a
    } else {
        (a.push(""@).push(BOLD@ + "Recently deleted"@ + RESET@) + deleted.map_values(
            |e: FileEvent| "  "@ + deleted_row(e, root, now),
        )).push("  Restore one with: undo restore-deleted <path>"@)
    };
    let c = if checkpoints.len() == 0 {
        b
    } else {
        b.push(""@).push(BOLD@ + "Recent checkpoints"@ + RESET@) + first_few(
            checkpoints,
            5,
        ).map_values(|k: Checkpoint| refuge_row(k, now))
    };
    c.push(""@).push(
        "Emergency recovery uses timing, not task ownership. Prefer a Run or checkpoint when available."@,
    ).push("Next: run the Preview command before using Restore."@)
}

/// The lines on the latest burst.
fn latest_report(latest: Option<Burst>, times: &Vec<LocalTime>) -> (lines: Vec<String>)
    ensures
        text::views(lines@) == latest_lines(latest, times@),
{
    let mut lines: Vec<String> = Vec::new();
    match latest {
        None => {
            text::add_line(
                &mut lines,
                "No large group of recent file changes was found.".to_owned(),
            );
        },
        Some(b) => {
            let mut line = text::cat3(YELLOW, "Latest rapid change group", RESET);
            line.append(": ");
            line.append(number::count_text(b.path_count).as_str());
            line.append(" files, ");
            line.append(number::count_text(b.event_count).as_str());
            line.append(" changes, ");
            line.append(number::count_text(b.deleted_count).as_str());
            line.append(" deleted around ");
            line.append(format_local_time(times, b.end).as_str());
            text::add_line(&mut lines, line);
            let target = clock::earlier(b.start, 1);
            let commands = panic_restore_commands(target);
            text::add_line(
                &mut lines,
                text::cat("  Target timestamp: ", number::signed_text(target).as_str()),
            );
            text::add_line(&mut lines, text::cat("  Preview: ", commands.0.as_str()));
            text::add_line(&mut lines, text::cat("  Restore: ", commands.1.as_str()));
        },
    }
    proof {
        assert(text::views(lines@) =~= latest_lines(latest, times@));
    }
    lines
}

/// The lines on what an emergency can be met with.
pub fn panic_report(
    latest: Option<Burst>,
    deleted: &Vec<FileEvent>,
    checkpoints: &Vec<Checkpoint>,
    root: &str,
    times: &Vec<LocalTime>,
    now: i64,
) -> (lines: Vec<String>)
    ensures
        text::views(lines@) == panic_lines(latest, deleted@, checkpoints@, root@, times@, now),
{
    let mut lines: Vec<String> = Vec::new();
    text::add_line(&mut lines, text::cat3(BOLD, "Emergency recovery options", RESET));
    text::add_line(&mut lines, "".to_owned());
    proof {
        assert(text::views(lines@) =~= seq![
            BOLD@ + "Emergency recovery options"@ + RESET@,
            ""@,
        ]);
    }
    text::add_lines(&mut lines, latest_report(latest, times));
    if deleted.len() > 0 {
        text::add_line(&mut lines, "".to_owned());
        text::add_line(&mut lines, text::cat3(BOLD, "Recently deleted", RESET));
        let said = |e: &FileEvent| -> (out: String)
            ensures out@ == "  "@ + deleted_row(*e, root@, now)
        { text::cat("  ", deleted_line(e, root, now).as_str()) };
        text::add_lines(
            &mut lines,
            text::lines_for(
                deleted,
                said,
                Ghost(|e: FileEvent| "  "@ + deleted_row(e, root@, now)),
            ),
        );
        text::add_line(&mut lines, "  Restore one with: undo restore-deleted <path>".to_owned());
    }
    if checkpoints.len() > 0 {
        text::add_line(&mut lines, "".to_owned());
        text::add_line(&mut lines, text::cat3(BOLD, "Recent checkpoints", RESET));
        let part = first_checkpoints(checkpoints, 5);
        let said = |c: &Checkpoint| -> (out: String)
            ensures out@ == refuge_row(*c, now)
        { refuge_line(c, now) };
        text::add_lines(
            &mut lines,
            text::lines_for(&part, said, Ghost(|k: Checkpoint| refuge_row(k, now))),
        );
    }
    text::add_line(&mut lines, "".to_owned());
    text::add_line(
        &mut lines,
        "Emergency recovery uses timing, not task ownership. Prefer a Run or checkpoint when available.".to_owned(),
    );
    text::add_line(&mut lines, "Next: run the Preview command before using Restore.".to_owned());
    lines
}

/// How an emergency is met.
#[derive(Debug)]
pub enum PanicStep {
    /// By going back to a moment.
    GoBack { target: i64 },
    /// By telling what there is to go back to.
    Tell(Vec<String>),
}

/// Whether a burst is the latest of a project in the time that an emergency looks
/// back on.
pub open spec fn is_latest_burst(
    events: Seq<FileEvent>,
    project_id: i64,
    now: i64,
    latest: Option<Burst>,
) -> bool {
    exists|bursts: Seq<Burst>, found: Option<int>|
        {
            &&& #[trigger] are_bursts(
                rows::listed(
                    events,
                    Order::Newest,
                    since(project_id, clock::clamp(now - PANIC_WINDOW_SECS) as i64),
                ),
                bursts,
            )
            &&& #[trigger] is_latest(bursts, found)
            &&& latest == match found {
                Some(i) => Some(bursts[i]),
                None => None,
            }
        }
}

/// The latest burst of a project in the time that an emergency looks back on.
fn recent_burst(db: &Database, project_id: i64, now: i64) -> (result: Result<Option<Burst>, Error>)
    requires
        db@.wf(),
    ensures
        result matches Ok(latest) && is_latest_burst(db@.events, project_id, now, latest),
{
    let from = clock::earlier(now, PANIC_WINDOW_SECS);
    let events = db.get_events_since(project_id, from)?;
    proof {
        rows::lemma_listed(db@.events, Order::Newest, since(project_id, from), events@);
    }
    let bursts = detect_bursts(&events);
    assert(from == clock::clamp(now - PANIC_WINDOW_SECS) as i64);
    assert(are_bursts(events@, bursts@));
    let found = latest_burst(&bursts);
    let ghost at = match found {
        Some(i) => Some(i as int),
        None => None,
    };
    assert(is_latest(bursts@, at));
    let latest = match found {
        Some(i) => Some(bursts[i]),
        None => None,
    };
    assert(is_latest_burst(db@.events, project_id, now, latest));
    Ok(latest)
}

/// Whether a result is how an emergency is met.
pub open spec fn is_panic_step(
    t: crate::db::Tables,
    project_id: i64,
    root: Seq<char>,
    go_back: bool,
    latest: Option<Burst>,
    times: Seq<LocalTime>,
    now: i64,
    result: Result<PanicStep, Error>,
) -> bool {
    if go_back {
        match latest {
            Some(b) => result matches Ok(PanicStep::GoBack { target }) && target == before_burst(b),
            None => result matches Err(e) && e@
                == "No recent group of rapid file changes was found."@,
        }
    } else {
        result matches Ok(PanicStep::Tell(lines)) && exists|deleted: Seq<FileEvent>|
            #[trigger] rows::is_limited(
                t.events,
                Order::Newest,
                recoverable_deletions(project_id),
                5,
                deleted,
            ) && text::views(lines@) == panic_lines(
                latest,
                deleted,
                rows::listed(t.checkpoints, Order::Newest, checkpoints_of(project_id)),
                root,
                times,
                now,
            )
    }
}

/// How an emergency is met: by going back to before the latest burst, with
/// permission, or by telling what there is to go back to.
pub fn cmd_panic(
    db: &Database,
    project_id: i64,
    root: &str,
    restore_before_latest_burst: bool,
    yes: bool,
    times: &Vec<LocalTime>,
    now: i64,
) -> (result: Result<PanicStep, Error>)
    requires
        db@.wf(),
    ensures
        if restore_before_latest_burst && !yes {
            result matches Err(e) && e@
                == "No files changed: the emergency restore requires --yes.\nRerun with --yes to give Undo permission to change files."@
        } else {
            exists|latest: Option<Burst>|
                #[trigger] is_latest_burst(db@.events, project_id, now, latest) && is_panic_step(
                    db@,
                    project_id,
                    root@,
                    restore_before_latest_burst,
                    latest,
                    times@,
                    now,
                    result,
                )
        },
{
    if restore_before_latest_burst && !yes {
        return Err(
            Error::new(
                "No files changed: the emergency restore requires --yes.\nRerun with --yes to give Undo permission to change files.".to_owned(),
            ),
        );
    }
    let latest = recent_burst(db, project_id, now)?;
    assert(is_latest_burst(db@.events, project_id, now, latest));
    if restore_before_latest_burst {
        return match latest {
            Some(b) => Ok(PanicStep::GoBack { target: clock::earlier(b.start, 1) }),
            None => Err(Error::new("No recent group of rapid file changes was found.".to_owned())),
        };
    }
    let deleted = db.get_deleted_events(project_id, 5)?;
    assert(rows::is_limited(
        db@.events,
        Order::Newest,
        recoverable_deletions(project_id),
        5,
        deleted@,
    ));
    let checkpoints = db.list_checkpoints(project_id)?;
    proof {
        rows::lemma_listed(
            db@.checkpoints,
            Order::Newest,
            checkpoints_of(project_id),
            checkpoints@,
        );
    }
    Ok(PanicStep::Tell(panic_report(latest, &deleted, &checkpoints, root, times, now)))
}

} // verus!
