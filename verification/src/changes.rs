//! What changed lately, and what a cleanup removed.
use vstd::prelude::*;
use vstd::string::*;

use crate::clock;
use crate::db::events::since;
use crate::db::Database;
use crate::duration;
use crate::error::Error;
use crate::models::FileEvent;
use crate::number;
use crate::path;
use crate::retention::PruneStats;
use crate::rows;
use crate::rows::Order;
use crate::size;
use crate::sorted;
use crate::style::{color_of, event_color, BOLD, RESET};
use crate::text;

verus! {

/// Whether a change is the first of a list to its file.
pub open spec fn is_latest_at(events: Seq<FileEvent>, i: int) -> bool {
    0 <= i < events.len() && forall|k: int|
        0 <= k < i ==> (#[trigger] events[k]).path@ != events[i].path@
}

/// Whether the latest change to a file is of a kind. The newest change comes
/// first.
pub open spec fn ends_as(events: Seq<FileEvent>, path: Seq<char>, kind: Seq<char>) -> bool {
    exists|i: int|
        #[trigger] is_latest_at(events, i) && events[i].path@ == path && events[i].event_type@
            == kind
}

/// Whether a list holds the files whose latest change is of a kind, in order.
pub open spec fn are_ended_as(
    events: Seq<FileEvent>,
    kind: Seq<char>,
    list: Seq<Seq<char>>,
) -> bool {
    sorted::ascending(list) && forall|p: Seq<char>|
        #[trigger] list.contains(p) <==> ends_as(events, p, kind)
}

/// Whether no change before one is to its file.
fn first_for_path(events: &Vec<FileEvent>, i: usize) -> (yes: bool)
    requires
        i < events.len(),
    ensures
        yes == is_latest_at(events@, i as int),
{
    let mut k: usize = 0;
    while k < i
        invariant
            k <= i < events.len(),
            forall|m: int| 0 <= m < k ==> (#[trigger] events@[m]).path@ != events@[i as int].path@,
        decreases i - k,
    {
        if text::same(events[k].path.as_str(), events[i].path.as_str()) {
            return false;
        }
        k += 1;
    }
    true
}

/// The files whose latest change is of a kind, in order.
pub fn paths_ended_as(events: &Vec<FileEvent>, kind: &str) -> (list: Vec<String>)
    ensures
        are_ended_as(events@, kind@, text::views(list@)),
{
    let mut list: Vec<String> = Vec::new();
    let mut i: usize = 0;
    proof {
        assert(text::views(list@) =~= Seq::empty());
    }
    while i < events.len()
        invariant
            i <= events.len(),
            sorted::in_order(list@),
            forall|p: Seq<char>|
                #[trigger] text::views(list@).contains(p) <==> exists|k: int|
                    k < i && #[trigger] is_latest_at(events@, k) && events@[k].path@ == p
                        && events@[k].event_type@ == kind@,
        decreases events.len() - i,
    {
        let ghost before = text::views(list@);
        let fits = first_for_path(events, i) && text::same(events[i].event_type.as_str(), kind);
        if fits {
            let new = sorted::insert(&mut list, events[i].path.clone());
        }
        proof {
            assert forall|p: Seq<char>|
                #[trigger] text::views(list@).contains(p) <==> exists|k: int|
                    k < i + 1 && #[trigger] is_latest_at(events@, k) && events@[k].path@ == p
                        && events@[k].event_type@ == kind@ by {
                assert(before.contains(p) <==> exists|k: int|
                    k < i && #[trigger] is_latest_at(events@, k) && events@[k].path@ == p
                        && events@[k].event_type@ == kind@);
                if before.contains(p) {
                    let k = choose|k: int|
                        k < i && #[trigger] is_latest_at(events@, k) && events@[k].path@ == p
                            && events@[k].event_type@ == kind@;
                    assert(k < i + 1 && is_latest_at(events@, k));
                }
                if fits && p == events@[i as int].path@ {
                    assert(is_latest_at(events@, i as int));
                }
            }
        }
        i += 1;
    }
    proof {
        assert forall|p: Seq<char>| #[trigger] text::views(list@).contains(p) <==> ends_as(
            events@,
            p,
            kind@,
        ) by {
            if ends_as(events@, p, kind@) {
                let k = choose|k: int|
                    #[trigger] is_latest_at(events@, k) && events@[k].path@ == p
                        && events@[k].event_type@ == kind@;
                assert(k < i && is_latest_at(events@, k));
            }
        }
    }
    list
}

/// The lines on files whose latest change is of a kind.
pub open spec fn kind_lines(kind: Seq<char>, list: Seq<Seq<char>>, root: Seq<char>) -> Seq<
    Seq<char>,
> {
    if list.len() == 0 {
        Seq::empty()
    } else {
        (seq![color_of(kind) + kind + RESET@] + list.map_values(
            |p: Seq<char>| "  - "@ + path::relative(p, root),
        )).push(""@)
    }
}

/// Whether lines are those on files whose latest change is of a kind.
pub open spec fn are_kind_lines(
    events: Seq<FileEvent>,
    kind: Seq<char>,
    root: Seq<char>,
    lines: Seq<Seq<char>>,
) -> bool {
    exists|list: Seq<Seq<char>>|
        #[trigger] are_ended_as(events, kind, list) && lines == kind_lines(kind, list, root)
}

/// The lines on files whose latest change is of a kind.
fn lines_on(events: &Vec<FileEvent>, kind: &str, root: &str) -> (lines: Vec<String>)
    ensures
        are_kind_lines(events@, kind@, root@, text::views(lines@)),
{
    let list = paths_ended_as(events, kind);
    assert(are_ended_as(events@, kind@, text::views(list@)));
    let mut lines: Vec<String> = Vec::new();
    assert(text::views(list@).len() == list@.len());
    if list.len() == 0 {
        proof {
            assert(text::views(lines@) =~= Seq::empty());
        }
        return lines;
    }
    text::add_line(&mut lines, text::cat3(event_color(kind), kind, RESET));
    proof {
        assert(text::views(lines@) =~= seq![color_of(kind@) + kind@ + RESET@]);
    }
    let said = |p: &String| -> (out: String)
        ensures out@ == "  - "@ + path::relative(p@, root@)
    { text::cat("  - ", path::relative_path(p.as_str(), root)) };
    let part = text::lines_for(&list, said, Ghost(|p: String| "  - "@ + path::relative(p@, root@)));
    proof {
        assert(text::views(part@) =~= text::views(list@).map_values(
            |p: Seq<char>| "  - "@ + path::relative(p, root@),
        ));
    }
    text::add_lines(&mut lines, part);
    text::add_line(&mut lines, "".to_owned());
    lines
}

/// Whether lines tell what changed lately.
pub open spec fn are_change_lines(
    events: Seq<FileEvent>,
    duration: Seq<char>,
    root: Seq<char>,
    lines: Seq<Seq<char>>,
) -> bool {
    if events.len() == 0 {
        lines == seq!["No changes in the last "@ + duration + "."@]
    } else {
        exists|m: Seq<Seq<char>>, c: Seq<Seq<char>>, d: Seq<Seq<char>>, r: Seq<Seq<char>>|
            {
                &&& #[trigger] are_kind_lines(events, "MODIFIED"@, root, m)
                &&& #[trigger] are_kind_lines(events, "CREATED"@, root, c)
                &&& #[trigger] are_kind_lines(events, "DELETED"@, root, d)
                &&& #[trigger] are_kind_lines(events, "RENAMED"@, root, r)
                &&& lines == seq![BOLD@ + "Changes in last "@ + duration + RESET@, ""@] + m + c + d
                    + r
            }
    }
}

/// The lines on what changed lately, the changes given with the newest first.
pub fn change_report(events: &Vec<FileEvent>, duration: &str, root: &str) -> (lines: Vec<String>)
    ensures
        are_change_lines(events@, duration@, root@, text::views(lines@)),
{
    let mut lines: Vec<String> = Vec::new();
    if events.len() == 0 {
        text::add_line(&mut lines, text::cat3("No changes in the last ", duration, "."));
        proof {
            assert(text::views(lines@) =~= seq!["No changes in the last "@ + duration@ + "."@]);
        }
        return lines;
    }
    let mut head = text::cat3(BOLD, "Changes in last ", duration);
    head.append(RESET);
    text::add_line(&mut lines, head);
    text::add_line(&mut lines, "".to_owned());
    proof {
        assert(text::views(lines@) =~= seq![
            BOLD@ + "Changes in last "@ + duration@ + RESET@,
            ""@,
        ]);
    }
    let modified = lines_on(events, "MODIFIED", root);
    let created = lines_on(events, "CREATED", root);
    let deleted = lines_on(events, "DELETED", root);
    let renamed = lines_on(events, "RENAMED", root);
    assert(are_kind_lines(events@, "MODIFIED"@, root@, text::views(modified@)));
    assert(are_kind_lines(events@, "CREATED"@, root@, text::views(created@)));
    assert(are_kind_lines(events@, "DELETED"@, root@, text::views(deleted@)));
    assert(are_kind_lines(events@, "RENAMED"@, root@, text::views(renamed@)));
    text::add_lines(&mut lines, modified);
    text::add_lines(&mut lines, created);
    text::add_lines(&mut lines, deleted);
    text::add_lines(&mut lines, renamed);
    lines
}

/// The lines on what changed in a project lately.
pub fn cmd_what_changed(
    db: &Database,
    project_id: i64,
    root: &str,
    duration: &str,
    now: i64,
) -> (result: Result<Vec<String>, Error>)
    requires
        db@.wf(),
    ensures
        match duration::duration_of(duration@) {
            Err(said) => result matches Err(e) && e@ == said,
            Ok(seconds) => result matches Ok(lines) && are_change_lines(
                rows::listed(
                    db@.events,
                    Order::Newest,
                    since(project_id, clock::clamp(now - seconds) as i64),
                ),
                duration@,
                root@,
                text::views(lines@),
            ),
        },
{
    let seconds = match duration::parse_duration(duration) {
        Err(e) => {
            return Err(e);
        },
        Ok(seconds) => seconds,
    };
    let from = clock::earlier(now, seconds);
    let events = db.get_events_since(project_id, from)?;
    proof {
        assert(from == clock::clamp(now - seconds) as i64);
        rows::lemma_listed(db@.events, Order::Newest, since(project_id, from), events@);
    }
    Ok(change_report(&events, duration, root))
}

/// Every file that changed is told of under one kind, that of its latest change.
pub proof fn lemma_one_kind(
    events: Seq<FileEvent>,
    path: Seq<char>,
    a: Seq<char>,
    b: Seq<char>,
)
    requires
        ends_as(events, path, a),
        ends_as(events, path, b),
    ensures
        a == b,
{
    let i = choose|i: int|
        #[trigger] is_latest_at(events, i) && events[i].path@ == path && events[i].event_type@ == a;
    let k = choose|k: int|
        #[trigger] is_latest_at(events, k) && events[k].path@ == path && events[k].event_type@ == b;
    if i < k {
        assert(events[i].path@ != events[k].path@);
    } else if k < i {
        assert(events[k].path@ != events[i].path@);
    }
}

// ── cleanups ────────────────────────────────────────────────────────

/// The lines on what a cleanup removed, or would remove.
pub open spec fn cleanup_lines(stats: PruneStats, usage: int, dry_run: bool) -> Seq<Seq<char>> {
    seq![
        (if dry_run {
            "Would delete"@
        } else {
            "Deleted"@
        }) + " "@ + number::decimal(stats.events_deleted as int) + " events, "@ + number::decimal(
            stats.snapshots_deleted as int,
        ) + " saved copies, "@ + number::decimal(stats.backups_deleted as int) + " backups."@,
        "Freed "@ + size::size_text(stats.bytes_freed as int) + ". Current storage: "@
            + size::size_text(usage) + "."@,
    ]
}

/// The lines on what a cleanup removed, or would remove.
pub fn cmd_prune(stats: &PruneStats, usage: u64, dry_run: bool) -> (lines: Vec<String>)
    ensures
        text::views(lines@) == cleanup_lines(*stats, usage as int, dry_run),
{
    let mut lines: Vec<String> = Vec::new();
    let word = if dry_run {
        "Would delete"
    } else {
        "Deleted"
    };
    let mut line = text::cat3(word, " ", number::unsigned_text(stats.events_deleted).as_str());
    line.append(" events, ");
    line.append(number::unsigned_text(stats.snapshots_deleted).as_str());
    line.append(" saved copies, ");
    line.append(number::unsigned_text(stats.backups_deleted).as_str());
    line.append(" backups.");
    text::add_line(&mut lines, line);
    text::add_line(
        &mut lines,
        text::cat5(
            "Freed ",
            size::format_size(stats.bytes_freed).as_str(),
            ". Current storage: ",
            size::format_size(usage).as_str(),
            ".",
        ),
    );
    proof {
        assert(text::views(lines@) =~= cleanup_lines(*stats, usage as int, dry_run));
    }
    lines
}

} // verus!
