//! Which changes belong together: bursts of them, and the parts of a project.
use vstd::prelude::*;

use crate::activity::{
    are_bursts, burst_of, bursts_of, deletion_count, event_keys, is_burst, path_count, rapid_groups,
    touched, Burst,
};
use crate::changes::{are_ended_as, is_latest_at};
use crate::db::events::is_deletion;
use crate::groups::{
    are_groups, dashed, group_ids, group_of, in_group, is_group, label_of, named_paths, slug,
    ChangeGroup,
};
use crate::models::FileEvent;
use crate::order;
use crate::path;
use crate::rows;
use crate::sorted;
use crate::split;
use crate::split::Break;
use crate::text;

verus! {

// ── bursts ──────────────────────────────────────────────────────────

/// Whether changes from one place to another follow each other with no pause of more
/// than ten seconds between them.
pub open spec fn is_rapid(events: Seq<FileEvent>, i: int, j: int) -> bool {
    &&& 0 <= i <= j < events.len()
    &&& forall|k: int| i < k <= j ==> (#[trigger] events[k]).timestamp - events[k - 1].timestamp <= 10
}

/// Whether such changes have a longer pause before them and after them, or nothing.
pub open spec fn is_stretch(events: Seq<FileEvent>, i: int, j: int) -> bool {
    &&& is_rapid(events, i, j)
    &&& i > 0 ==> events[i].timestamp - events[i - 1].timestamp > 10
    &&& j + 1 < events.len() ==> events[j + 1].timestamp - events[j].timestamp > 10
}

/// The files that changes are to.
pub open spec fn files_of(events: Seq<FileEvent>) -> Set<Seq<char>> {
    events.map_values(|e: FileEvent| e.path@).to_set()
}

/// The changes that removed a file.
pub open spec fn removals(events: Seq<FileEvent>) -> Seq<FileEvent> {
    events.filter(|e: FileEvent| e.event_type@ == "DELETED"@)
}

/// Whether a burst is made by changes: it runs from the first to the last, and tells
/// how many there are, to how many files, and how many of them removed one.
pub open spec fn is_made_by(burst: Burst, group: Seq<FileEvent>) -> bool {
    &&& group.len() > 0
    &&& burst.start == group[0].timestamp
    &&& burst.end == group[group.len() - 1].timestamp
    &&& burst.event_count == group.len()
    &&& burst.path_count == files_of(group).len()
    &&& burst.deleted_count == removals(group).len()
}

/// Whether changes are worth telling of: eight or more, or to five or more files, or
/// with two or more that removed one.
pub open spec fn is_notable(group: Seq<FileEvent>) -> bool {
    group.len() >= 8 || files_of(group).len() >= 5 || removals(group).len() >= 2
}

/// The counts of a group are those of its files and removals.
proof fn lemma_counts(events: Seq<FileEvent>)
    ensures
        files_of(events).finite(),
        path_count(events) == files_of(events).len(),
        deletion_count(events) == removals(events).len(),
        path_count(events) <= events.len(),
        deletion_count(events) <= events.len(),
    decreases events.len(),
{
    reveal(Seq::filter);
    let name = |e: FileEvent| e.path@;
    let paths = events.map_values(name);
    if events.len() == 0 {
        assert(files_of(events) =~= Set::empty());
    } else {
        let front = events.drop_last();
        lemma_counts(front);
        let before = front.map_values(name);
        let last = events.last().path@;
        assert(paths =~= before.push(last));
        assert(files_of(events) =~= files_of(front).insert(last)) by {
            assert forall|p: Seq<char>| files_of(events).contains(p) <==> files_of(front).insert(
                last,
            ).contains(p) by {
                if paths.contains(p) {
                    let k = choose|k: int| 0 <= k < paths.len() && paths[k] == p;
                    if k < before.len() {
                        assert(before[k] == p);
                    }
                }
                if before.contains(p) {
                    let k = choose|k: int| 0 <= k < before.len() && before[k] == p;
                    assert(paths[k] == p);
                }
                if p == last {
                    assert(paths[before.len() as int] == p);
                }
            }
        }
        assert(touched(front, last) <==> files_of(front).contains(last)) by {
            if touched(front, last) {
                let k = choose|k: int| 0 <= k < front.len() && (#[trigger] front[k]).path@ == last;
                assert(before[k] == last);
            }
            if before.contains(last) {
                let k = choose|k: int| 0 <= k < before.len() && before[k] == last;
                assert(front[k].path@ == last);
            }
        }
        assert(rows::kept(front, |e: FileEvent| is_deletion(e)) == deletion_count(front));
    }
}

/// Whether changes are cut into groups at places: at each longer pause, and nowhere
/// else.
spec fn is_cut(events: Seq<FileEvent>, groups: Seq<Seq<FileEvent>>, cuts: Seq<int>) -> bool {
    &&& cuts.len() == groups.len() + 1
    &&& cuts[0] == 0
    &&& cuts[groups.len() as int] == events.len()
    &&& forall|g: int| 0 <= g < groups.len() ==> has_cut(events, #[trigger] groups[g], cuts, g)
    &&& forall|a: int, b: int| 0 <= a < b < cuts.len() ==> #[trigger] cuts[a] < #[trigger] cuts[b]
}

/// Whether a group is what lies between two places.
spec fn has_cut(events: Seq<FileEvent>, group: Seq<FileEvent>, cuts: Seq<int>, g: int) -> bool {
    &&& group == events.subrange(cuts[g], cuts[g + 1])
    &&& is_stretch(events, cuts[g], cuts[g + 1] - 1)
}

/// Changes are cut off where the longer pauses lie.
proof fn lemma_cuts(events: Seq<FileEvent>) -> (cuts: Seq<int>)
    ensures
        is_cut(events, rapid_groups(events), cuts),
    decreases events.len(),
{
    let groups = rapid_groups(events);
    if events.len() == 0 {
        seq![0int]
    } else {
        let front = events.drop_last();
        let n = front.len() as int;
        let before = rapid_groups(front);
        let m = before.len() as int;
        let earlier = lemma_cuts(front);
        let last = events.last();
        if n == 0 || last.timestamp - events[n - 1].timestamp > 10 {
            let cuts = earlier.push(n + 1);
            assert(events.subrange(n, n + 1) =~= seq![last]);
            assert forall|g: int| 0 <= g < groups.len() implies has_cut(
                events,
                #[trigger] groups[g],
                cuts,
                g,
            ) by {
                if g < m {
                    assert(has_cut(front, before[g], earlier, g));
                    assert(cuts[g] == earlier[g] && cuts[g + 1] == earlier[g + 1]);
                    assert(front.subrange(cuts[g], cuts[g + 1]) =~= events.subrange(
                        cuts[g],
                        cuts[g + 1],
                    ));
                    lemma_longer(events, cuts[g], cuts[g + 1] - 1);
                } else {
                    assert(cuts[g] == n && cuts[g + 1] == n + 1);
                }
            }
            cuts
        } else {
            assert(m > 0) by {
                if m == 0 {
                    assert(earlier[0] == earlier[m]);
                }
            }
            let cuts = earlier.update(m, n + 1);
            assert(has_cut(front, before[m - 1], earlier, m - 1));
            assert forall|g: int| 0 <= g < groups.len() implies has_cut(
                events,
                #[trigger] groups[g],
                cuts,
                g,
            ) by {
                if g < m - 1 {
                    assert(has_cut(front, before[g], earlier, g));
                    assert(cuts[g] == earlier[g] && cuts[g + 1] == earlier[g + 1]);
                    assert(earlier[g + 1] < earlier[m]);
                    assert(front.subrange(cuts[g], cuts[g + 1]) =~= events.subrange(
                        cuts[g],
                        cuts[g + 1],
                    ));
                    lemma_longer(events, cuts[g], cuts[g + 1] - 1);
                } else {
                    let i = earlier[m - 1];
                    assert(cuts[g] == i && cuts[g + 1] == n + 1);
                    assert(front.subrange(i, n).push(last) =~= events.subrange(i, n + 1));
                    assert forall|k: int| i < k <= n implies (#[trigger] events[k]).timestamp
                        - events[k - 1].timestamp <= 10 by {
                        if k < n {
                            assert(front[k].timestamp - front[k - 1].timestamp <= 10);
                        }
                    }
                    if i > 0 {
                        assert(front[i].timestamp - front[i - 1].timestamp > 10);
                    }
                }
            }
            cuts
        }
    }
}

/// A stretch stays one where a change follows behind it, or behind a longer pause.
proof fn lemma_longer(events: Seq<FileEvent>, i: int, j: int)
    requires
        events.len() > 0,
        is_stretch(events.drop_last(), i, j),
        j == events.len() - 2 ==> events.last().timestamp - events[j].timestamp > 10,
    ensures
        is_stretch(events, i, j),
{
    let front = events.drop_last();
    assert forall|k: int| i < k <= j implies (#[trigger] events[k]).timestamp - events[k
        - 1].timestamp <= 10 by {
        assert(front[k].timestamp - front[k - 1].timestamp <= 10);
    }
    if i > 0 {
        assert(front[i].timestamp - front[i - 1].timestamp > 10);
    }
    if j + 1 < front.len() {
        assert(front[j + 1].timestamp - front[j].timestamp > 10);
    }
}

/// Each place lies between two cuts.
proof fn lemma_between(cuts: Seq<int>, at: int) -> (g: int)
    requires
        cuts.len() > 1,
        cuts[0] <= at < cuts[cuts.len() - 1],
    ensures
        0 <= g < cuts.len() - 1,
        cuts[g] <= at < cuts[g + 1],
    decreases cuts.len(),
{
    let m = cuts.len() - 2;
    if cuts[m] <= at {
        m
    } else {
        let g = lemma_between(cuts.drop_last(), at);
        assert(cuts.drop_last()[g] == cuts[g] && cuts.drop_last()[g + 1] == cuts[g + 1]);
        g
    }
}

/// The bursts are those of the groups that are worth telling of, in their order.
proof fn lemma_picks(groups: Seq<Seq<FileEvent>>) -> (picks: Seq<int>)
    requires
        forall|g: int|
            0 <= g < groups.len() ==> 0 < (#[trigger] groups[g]).len() <= usize::MAX,
    ensures
        picks.len() == bursts_of(groups).len(),
        forall|b: int|
            0 <= b < picks.len() ==> 0 <= #[trigger] picks[b] < groups.len() && is_made_by(
                bursts_of(groups)[b],
                groups[picks[b]],
            ) && is_notable(groups[picks[b]]),
        forall|a: int, b: int|
            0 <= a < b < picks.len() ==> #[trigger] picks[a] < #[trigger] picks[b],
        forall|g: int|
            0 <= g < groups.len() && is_notable(#[trigger] groups[g]) ==> picks.contains(g),
    decreases groups.len(),
{
    if groups.len() == 0 {
        Seq::empty()
    } else {
        let front = groups.drop_last();
        let n = front.len() as int;
        assert forall|g: int| 0 <= g < front.len() implies 0 < (#[trigger] front[g]).len()
            <= usize::MAX by {
            assert(front[g] == groups[g]);
        }
        let before = lemma_picks(front);
        let last = groups.last();
        assert(groups[n] == last);
        lemma_counts(last);
        assert(is_burst(last) <==> is_notable(last));
        let picks = if is_burst(last) {
            before.push(n)
        } else {
            before
        };
        assert forall|b: int| 0 <= b < picks.len() implies 0 <= #[trigger] picks[b] < groups.len()
            && is_made_by(bursts_of(groups)[b], groups[picks[b]]) && is_notable(
            groups[picks[b]],
        ) by {
            if b < before.len() {
                assert(picks[b] == before[b]);
                assert(front[before[b]] == groups[before[b]]);
                assert(bursts_of(groups)[b] == bursts_of(front)[b]);
            } else {
                assert(bursts_of(groups)[b] == burst_of(last));
            }
        }
        assert forall|g: int|
            0 <= g < groups.len() && is_notable(#[trigger] groups[g]) implies picks.contains(g) by {
            if g < n {
                assert(front[g] == groups[g]);
                let b = choose|b: int| 0 <= b < before.len() && before[b] == g;
                assert(picks[b] == g);
            } else {
                assert(picks[before.len() as int] == n);
            }
        }
        picks
    }
}

/// Whether a list holds changes by their times, and by their ids within one time.
pub open spec fn is_by_time(list: Seq<FileEvent>) -> bool {
    forall|i: int, j: int|
        0 <= i < j < list.len() ==> (#[trigger] list[i]).timestamp < (
        #[trigger] list[j]).timestamp || (list[i].timestamp == list[j].timestamp && list[i].id
            <= list[j].id)
}

/// Whether changes are told as a burst.
pub open spec fn is_told(bursts: Seq<Burst>, group: Seq<FileEvent>) -> bool {
    exists|b: int| 0 <= b < bursts.len() && is_made_by(#[trigger] bursts[b], group)
}

/// Whether a burst tells of a stretch that is worth telling of.
pub open spec fn tells(burst: Burst, list: Seq<FileEvent>) -> bool {
    exists|i: int, j: int| #[trigger]
        is_stretch(list, i, j) && is_notable(list.subrange(i, j + 1)) && is_made_by(
            burst,
            list.subrange(i, j + 1),
        )
}

/// Each stretch of changes without a longer pause that is worth telling of is told as a
/// burst, whatever the order in which the changes are given. No other burst is told,
/// and one lies behind the other.
pub proof fn lemma_bursts_are_the_notable_stretches(
    events: Seq<FileEvent>,
    bursts: Seq<Burst>,
) -> (list: Seq<FileEvent>)
    requires
        are_bursts(events, bursts),
        events.len() <= usize::MAX,
    ensures
        is_by_time(list),
        forall|e: FileEvent| #[trigger] list.contains(e) <==> events.contains(e),
        forall|i: int, j: int| #[trigger]
            is_stretch(list, i, j) && is_notable(list.subrange(i, j + 1)) ==> is_told(
                bursts,
                list.subrange(i, j + 1),
            ),
        forall|b: int| 0 <= b < bursts.len() ==> tells(#[trigger] bursts[b], list),
        forall|a: int, b: int|
            0 <= a < b < bursts.len() ==> (#[trigger] bursts[a]).end + 10 < (
            #[trigger] bursts[b]).start,
{
    let places = choose|places: Seq<usize>|
        #[trigger] order::is_order(event_keys(events), places) && bursts == bursts_of(
            rapid_groups(order::arranged(events, places)),
        );
    let list = order::arranged(events, places);
    lemma_arranged_by_time(events, places);
    lemma_order_len(event_keys(events), places);
    lemma_told(list);
    list
}

/// Of changes by their times, the stretches that are worth telling of are told.
proof fn lemma_told(list: Seq<FileEvent>)
    requires
        is_by_time(list),
        list.len() <= usize::MAX,
    ensures
        forall|i: int, j: int| #[trigger]
            is_stretch(list, i, j) && is_notable(list.subrange(i, j + 1)) ==> is_told(
                bursts_of(rapid_groups(list)),
                list.subrange(i, j + 1),
            ),
        forall|b: int|
            0 <= b < bursts_of(rapid_groups(list)).len() ==> tells(
                #[trigger] bursts_of(rapid_groups(list))[b],
                list,
            ),
        forall|a: int, b: int|
            0 <= a < b < bursts_of(rapid_groups(list)).len() ==> (#[trigger] bursts_of(
                rapid_groups(list),
            )[a]).end + 10 < (#[trigger] bursts_of(rapid_groups(list))[b]).start,
{
    let groups = rapid_groups(list);
    let bursts = bursts_of(groups);
    let cuts = lemma_cuts(list);
    assert forall|g: int| 0 <= g < groups.len() implies 0 < (#[trigger] groups[g]).len()
        <= usize::MAX by {
        assert(has_cut(list, groups[g], cuts, g));
    }
    let picks = lemma_picks(groups);
    assert forall|i: int, j: int| #[trigger]
        is_stretch(list, i, j) && is_notable(list.subrange(i, j + 1)) implies is_told(
        bursts,
        list.subrange(i, j + 1),
    ) by {
        let g = lemma_group_of_stretch(list, cuts, i, j);
        assert(picks.contains(g));
        let b = choose|b: int| 0 <= b < picks.len() && picks[b] == g;
        assert(is_made_by(bursts[b], list.subrange(i, j + 1)));
    }
    assert forall|b: int| 0 <= b < bursts.len() implies tells(#[trigger] bursts[b], list) by {
        let g = picks[b];
        assert(has_cut(list, groups[g], cuts, g));
        assert(is_stretch(list, cuts[g], cuts[g + 1] - 1));
    }
    assert forall|a: int, b: int| 0 <= a < b < bursts.len() implies (#[trigger] bursts[a]).end
        + 10 < (#[trigger] bursts[b]).start by {
        assert(picks[a] < picks[b]);
        lemma_groups_apart(list, cuts, picks[a], picks[b]);
    }
}

/// Changes that are arranged stand by their times, all of them and no others.
proof fn lemma_arranged_by_time(events: Seq<FileEvent>, places: Seq<usize>)
    requires
        order::is_order(event_keys(events), places),
        events.len() <= usize::MAX,
    ensures
        is_by_time(order::arranged(events, places)),
        forall|e: FileEvent| #[trigger]
            order::arranged(events, places).contains(e) <==> events.contains(e),
{
    let keys = event_keys(events);
    let list = order::arranged(events, places);
    assert forall|i: int, j: int| 0 <= i < j < list.len() implies (#[trigger] list[i]).timestamp < (
    #[trigger] list[j]).timestamp || (list[i].timestamp == list[j].timestamp && list[i].id
        <= list[j].id) by {
        assert(order::stands_before(keys, places[i] as int, places[j] as int));
        assert(keys[places[i] as int] == (list[i].timestamp, list[i].id));
        assert(keys[places[j] as int] == (list[j].timestamp, list[j].id));
    }
    assert forall|e: FileEvent| #[trigger] list.contains(e) <==> events.contains(e) by {
        if list.contains(e) {
            let k = choose|k: int| 0 <= k < list.len() && list[k] == e;
            assert(events[places[k] as int] == e);
        }
        if events.contains(e) {
            let k = choose|k: int| 0 <= k < events.len() && events[k] == e;
            assert(places.contains(k as usize));
            let j = choose|j: int| 0 <= j < places.len() && places[j] == k as usize;
            assert(list[j] == e);
        }
    }
}

/// A stretch is one of the groups.
proof fn lemma_group_of_stretch(list: Seq<FileEvent>, cuts: Seq<int>, i: int, j: int) -> (g: int)
    requires
        is_cut(list, rapid_groups(list), cuts),
        is_stretch(list, i, j),
    ensures
        0 <= g < rapid_groups(list).len(),
        rapid_groups(list)[g] == list.subrange(i, j + 1),
{
    let groups = rapid_groups(list);
    let g = lemma_between(cuts, i);
    assert(has_cut(list, groups[g], cuts, g));
    lemma_same_stretch(list, i, j, cuts[g], cuts[g + 1] - 1);
    g
}

/// More than the longest pause lies between two groups.
proof fn lemma_groups_apart(list: Seq<FileEvent>, cuts: Seq<int>, g: int, h: int)
    requires
        is_by_time(list),
        is_cut(list, rapid_groups(list), cuts),
        0 <= g < h < rapid_groups(list).len(),
    ensures
        rapid_groups(list)[g][rapid_groups(list)[g].len() - 1].timestamp + 10 < rapid_groups(
            list,
        )[h][0].timestamp,
{
    let groups = rapid_groups(list);
    assert(has_cut(list, groups[g], cuts, g));
    assert(has_cut(list, groups[h], cuts, h));
    let e = cuts[g + 1];
    assert(e <= cuts[h]);
    assert(list[e].timestamp - list[e - 1].timestamp > 10);
    if e < cuts[h] {
        assert(list[e].timestamp <= list[cuts[h]].timestamp);
    }
    assert(groups[g][groups[g].len() - 1] == list[e - 1]);
    assert(groups[h][0] == list[cuts[h]]);
}

/// Two stretches that share a place are one.
proof fn lemma_same_stretch(list: Seq<FileEvent>, i: int, j: int, a: int, b: int)
    requires
        is_stretch(list, i, j),
        is_stretch(list, a, b),
        a <= i <= b,
    ensures
        i == a,
        j == b,
{
    if a < i {
        assert(list[i].timestamp - list[i - 1].timestamp <= 10);
    }
    if j < b {
        assert(list[j + 1].timestamp - list[j + 1 - 1].timestamp <= 10);
    } else if b < j {
        assert(list[b + 1].timestamp - list[b + 1 - 1].timestamp <= 10);
    }
}

/// An order has a place for each item and no more.
proof fn lemma_order_len(keys: Seq<(i64, i64)>, places: Seq<usize>)
    requires
        order::is_order(keys, places),
        keys.len() <= usize::MAX,
    ensures
        places.len() <= keys.len(),
{
    assert(places.no_duplicates()) by {
        assert forall|i: int, j: int|
            0 <= i < places.len() && 0 <= j < places.len() && i != j implies places[i]
            != places[j] by {
            if i < j {
                assert(order::stands_before(keys, places[i] as int, places[j] as int));
            } else {
                assert(order::stands_before(keys, places[j] as int, places[i] as int));
            }
        }
    }
    let at = places.map_values(|k: usize| k as int);
    assert(at.no_duplicates());
    assert forall|i: int| 0 <= i < at.len() implies 0 <= #[trigger] at[i] < keys.len() by {
        assert(places[i] < keys.len());
    }
    lemma_few(at, keys.len());
}

/// Numbers below a bound that all differ are no more than the bound.
proof fn lemma_few(list: Seq<int>, n: nat)
    requires
        list.no_duplicates(),
        forall|i: int| 0 <= i < list.len() ==> 0 <= #[trigger] list[i] < n,
    ensures
        list.len() <= n,
{
    let range = vstd::set_lib::set_int_range(0, n as int);
    vstd::set_lib::lemma_int_range(0, n as int);
    list.unique_seq_to_set();
    assert(list.to_set().subset_of(range)) by {
        assert forall|x: int| list.to_set().contains(x) implies range.contains(x) by {
            let k = choose|k: int| 0 <= k < list.len() && list[k] == x;
            assert(0 <= list[k] < n);
        }
    }
    vstd::set_lib::lemma_len_subset(list.to_set(), range);
}

// ── parts of a project ──────────────────────────────────────────────

/// Whether a name holds no slash and is not empty.
pub open spec fn is_name(name: Seq<char>) -> bool {
    name.len() > 0 && forall|i: int| 0 <= i < name.len() ==> #[trigger] name[i] != '/'
}

/// Whether a folder only holds the parts of a project.
pub open spec fn holds_parts(name: Seq<char>) -> bool {
    name == "src"@ || name == "app"@ || name == "lib"@ || name == "crates"@ || name == "packages"@
        || name == "components"@
}

/// The words of a path are its first name and those behind it.
proof fn lemma_words(first: Seq<char>, rest: Seq<char>)
    requires
        is_name(first),
    ensures
        split::words(first + "/"@ + rest, Break::Slash) == seq![first] + split::words(
            rest,
            Break::Slash,
        ),
        split::words(first, Break::Slash) == seq![first],
{
    reveal_strlit("/");
    assert("/"@ =~= seq!['/']);
    assert(split::breaks(Break::Slash, '/'));
    assert forall|i: int| 0 <= i < first.len() implies !split::breaks(
        Break::Slash,
        #[trigger] first[i],
    ) by {
        assert(first[i] != '/');
    }
    split::lemma_pieces_single(first, Break::Slash);
    split::lemma_pieces_join(first, '/', rest, Break::Slash);
    split::lemma_filled_join(seq![first], split::pieces(rest, Break::Slash));
    assert(split::filled(seq![first]) =~= seq![first]) by {
        split::lemma_filled_all(seq![first]);
    }
}

/// The files of one folder of a project belong together, whatever lies below it; so do
/// those of one folder in a folder that only holds the parts. The group of such a
/// folder is named after it and not after the one that holds it.
pub proof fn lemma_files_of_a_part_belong_together(
    holder: Seq<char>,
    part: Seq<char>,
    one: Seq<char>,
    other: Seq<char>,
)
    requires
        is_name(holder),
        is_name(part),
        holds_parts(holder),
        !holds_parts(part),
    ensures
        group_of(part + "/"@ + one) == group_of(part + "/"@ + other),
        group_of(part + "/"@ + one) == group_of(part),
        label_of(part + "/"@ + one) == part,
        group_of(holder + "/"@ + (part + "/"@ + one)) == group_of(part + "/"@ + other),
        label_of(holder + "/"@ + (part + "/"@ + one)) == holder + "/"@ + part,
{
    lemma_words(part, one);
    lemma_words(part, other);
    lemma_words(holder, part + "/"@ + one);
    let a = split::words(part + "/"@ + one, Break::Slash);
    let b = split::words(part + "/"@ + other, Break::Slash);
    let c = split::words(holder + "/"@ + (part + "/"@ + one), Break::Slash);
    assert(a[0] == part && b[0] == part);
    assert(c[0] == holder && c[1] == part);
}

/// A group name is the same in capitals and in small letters, and one that is made of
/// small letters and digits stands for itself.
pub proof fn lemma_group_names(s: Seq<char>)
    requires
        s.len() > 0,
        forall|i: int|
            0 <= i < s.len() ==> 'a' <= #[trigger] s[i] <= 'z' || '0' <= s[i] <= '9',
    ensures
        slug(s) == s,
        slug(s.map_values(|c: char| raised(c))) == s,
{
    lemma_dashed_plain(s, s);
    let up = s.map_values(|c: char| raised(c));
    lemma_dashed_plain(up, s);
    assert(s.last() == s[s.len() - 1]);
}

/// A small letter as a capital.
pub open spec fn raised(c: char) -> char {
    if 'a' <= c <= 'z' {
        ((c as u32) - 32) as char
    } else {
        c
    }
}

/// Letters and digits are kept, as small ones.
proof fn lemma_dashed_plain(up: Seq<char>, s: Seq<char>)
    requires
        up.len() == s.len(),
        forall|i: int|
            0 <= i < s.len() ==> ('a' <= #[trigger] s[i] <= 'z' || '0' <= s[i] <= '9') && (up[i]
                == s[i] || up[i] == raised(s[i])),
    ensures
        dashed(up) == s,
    decreases s.len(),
{
    if s.len() > 0 {
        let a = up.drop_last();
        let b = s.drop_last();
        assert forall|i: int| 0 <= i < b.len() implies ('a' <= #[trigger] b[i] <= 'z' || '0'
            <= b[i] <= '9') && (a[i] == b[i] || a[i] == raised(b[i])) by {
            assert(b[i] == s[i]);
            assert(a[i] == up[i]);
        }
        lemma_dashed_plain(a, b);
        let n = s.len() - 1;
        let c = s[n];
        assert(up.last() == c || up.last() == raised(c));
        assert(b.push(c) =~= s);
    }
}

/// How many changes groups have in all.
pub open spec fn total_changes(groups: Seq<ChangeGroup>) -> int
    decreases groups.len(),
{
    if groups.len() == 0 {
        0
    } else {
        total_changes(groups.drop_last()) + groups.last().event_count
    }
}

/// Whether a change names a path.
pub open spec fn is_named_by(e: FileEvent, p: Seq<char>) -> bool {
    e.path@ == p || (e.old_path matches Some(o) && o@ == p)
}

/// The paths that changes name are theirs.
proof fn lemma_named(events: Seq<FileEvent>, p: Seq<char>)
    ensures
        named_paths(events).contains(p) <==> exists|i: int|
            0 <= i < events.len() && is_named_by(#[trigger] events[i], p),
    decreases events.len(),
{
    if events.len() > 0 {
        let front = events.drop_last();
        let e = events.last();
        lemma_named(front, p);
        let before = named_paths(front).push(e.path@);
        let all = named_paths(events);
        let n = front.len() as int;
        if all.contains(p) {
            let k = choose|k: int| 0 <= k < all.len() && all[k] == p;
            if k < named_paths(front).len() {
                assert(named_paths(front)[k] == p);
                let i = choose|i: int| 0 <= i < front.len() && is_named_by(#[trigger] front[i], p);
                assert(is_named_by(events[i], p));
            } else {
                assert(is_named_by(events[n], p));
            }
        }
        if exists|i: int| 0 <= i < events.len() && is_named_by(#[trigger] events[i], p) {
            let i = choose|i: int| 0 <= i < events.len() && is_named_by(#[trigger] events[i], p);
            if i < n {
                assert(is_named_by(front[i], p));
                let k = choose|k: int|
                    0 <= k < named_paths(front).len() && named_paths(front)[k] == p;
                assert(all[k] == p);
            } else if e.path@ == p {
                assert(all[named_paths(front).len() as int] == p);
            } else {
                assert(all[before.len() as int] == p);
            }
        }
    }
}

/// Every change is in one group, and the groups have no more changes than there are. The
/// group of a change has every path that the change names, and a group has no path that
/// none of its changes names.
pub proof fn lemma_every_change_is_in_one_group(
    root: Seq<char>,
    events: Seq<FileEvent>,
    stats: Seq<(usize, usize)>,
    groups: Seq<ChangeGroup>,
    e: FileEvent,
)
    requires
        are_groups(root, events, stats, groups),
        events.contains(e),
    ensures
        forall|i: int, j: int|
            0 <= i < j < groups.len() ==> (#[trigger] groups[i]).id@ != (#[trigger] groups[j]).id@,
        exists|g: int|
            {
                &&& 0 <= g < groups.len()
                &&& (#[trigger] groups[g]).id@ == group_of(path::relative(e.path@, root))
                &&& text::views(groups[g].paths@).contains(e.path@)
                &&& e.old_path is Some ==> text::views(groups[g].paths@).contains(e.old_path->0@)
            },
        forall|g: int, p: Seq<char>|
            #![trigger groups[g], is_path_of(groups[g], p)]
            0 <= g < groups.len() && is_path_of(groups[g], p) ==> exists|i: int|
                0 <= i < events.len() && is_named_by(#[trigger] events[i], p) && group_of(
                    path::relative(events[i].path@, root),
                ) == groups[g].id@,
        total_changes(groups) == events.len(),
{
    let ids = choose|ids: Seq<Seq<char>>|
        {
            &&& #[trigger] sorted::is_sorted_set(group_ids(root, events), ids)
            &&& ids.len() == groups.len()
            &&& forall|i: int|
                0 <= i < groups.len() ==> is_group(root, events, stats, ids[i], #[trigger] groups[i])
        };
    lemma_ids_differ(ids);
    assert forall|i: int, j: int| 0 <= i < j < groups.len() implies (#[trigger] groups[i]).id@ != (
    #[trigger] groups[j]).id@ by {
        assert(is_group(root, events, stats, ids[i], groups[i]));
        assert(is_group(root, events, stats, ids[j], groups[j]));
    }
    let all = group_ids(root, events);
    let k = choose|k: int| 0 <= k < events.len() && events[k] == e;
    let id = group_of(path::relative(e.path@, root));
    assert(all[k] == id);
    assert(ids.contains(id));
    let g = choose|g: int| 0 <= g < ids.len() && ids[g] == id;
    let own = rows::retained(events, in_group(root, id));
    rows::lemma_retained_contains(events, in_group(root, id));
    assert(own.contains(e));
    let m = choose|m: int| 0 <= m < own.len() && own[m] == e;
    assert(is_group(root, events, stats, ids[g], groups[g]));
    assert(is_named_by(own[m], e.path@));
    lemma_named(own, e.path@);
    if e.old_path is Some {
        assert(is_named_by(own[m], e.old_path->0@));
        lemma_named(own, e.old_path->0@);
    }
    assert forall|g: int, p: Seq<char>|
        #![trigger groups[g], is_path_of(groups[g], p)]
        0 <= g < groups.len() && is_path_of(groups[g], p) implies exists|i: int|
        0 <= i < events.len() && is_named_by(#[trigger] events[i], p) && group_of(
            path::relative(events[i].path@, root),
        ) == groups[g].id@ by {
        assert(is_group(root, events, stats, ids[g], groups[g]));
        let own = rows::retained(events, in_group(root, ids[g]));
        lemma_named(own, p);
        rows::lemma_retained_contains(events, in_group(root, ids[g]));
        let m = choose|m: int| 0 <= m < own.len() && is_named_by(#[trigger] own[m], p);
        assert(own.contains(own[m]));
        let i = choose|i: int| 0 <= i < events.len() && events[i] == own[m];
        assert(is_named_by(events[i], p));
    }
    lemma_total(root, events, stats, groups, ids);
    assert forall|i: int| 0 <= i < events.len() implies ids.contains(
        #[trigger] group_of(path::relative(events[i].path@, root)),
    ) by {
        assert(all[i] == group_of(path::relative(events[i].path@, root)));
    }
    lemma_shares(root, events, ids);
}

/// Whether a path is one of a group.
pub open spec fn is_path_of(group: ChangeGroup, p: Seq<char>) -> bool {
    text::views(group.paths@).contains(p)
}

/// Texts in ascending order differ.
proof fn lemma_ids_differ(ids: Seq<Seq<char>>)
    requires
        sorted::ascending(ids),
    ensures
        ids.no_duplicates(),
{
    assert forall|i: int, j: int| 0 <= i < ids.len() && 0 <= j < ids.len() && i != j implies ids[i]
        != ids[j] by {
        if i < j {
            assert(sorted::less(ids[i], ids[j]));
        } else {
            assert(sorted::less(ids[j], ids[i]));
        }
        sorted::lemma_less_irreflexive(ids[i]);
    }
}

/// How many changes have one of some group names.
spec fn shares(root: Seq<char>, events: Seq<FileEvent>, ids: Seq<Seq<char>>) -> int
    decreases ids.len(),
{
    if ids.len() == 0 {
        0
    } else {
        shares(root, events, ids.drop_last()) + rows::retained(
            events,
            in_group(root, ids.last()),
        ).len()
    }
}

/// The groups have the changes with their names.
proof fn lemma_total(
    root: Seq<char>,
    events: Seq<FileEvent>,
    stats: Seq<(usize, usize)>,
    groups: Seq<ChangeGroup>,
    ids: Seq<Seq<char>>,
)
    requires
        ids.len() == groups.len(),
        forall|i: int|
            0 <= i < groups.len() ==> is_group(root, events, stats, ids[i], #[trigger] groups[i]),
    ensures
        total_changes(groups) == shares(root, events, ids),
    decreases groups.len(),
{
    if groups.len() > 0 {
        let a = groups.drop_last();
        let b = ids.drop_last();
        assert forall|i: int| 0 <= i < a.len() implies is_group(
            root,
            events,
            stats,
            b[i],
            #[trigger] a[i],
        ) by {
            assert(a[i] == groups[i] && b[i] == ids[i]);
        }
        lemma_total(root, events, stats, a, b);
        let n = a.len() as int;
        assert(is_group(root, events, stats, ids[n], groups[n]));
    }
}

/// Each change has one of the names, and only one.
proof fn lemma_shares(root: Seq<char>, events: Seq<FileEvent>, ids: Seq<Seq<char>>)
    requires
        ids.no_duplicates(),
        forall|i: int|
            0 <= i < events.len() ==> ids.contains(
                #[trigger] group_of(path::relative(events[i].path@, root)),
            ),
    ensures
        shares(root, events, ids) == events.len(),
    decreases events.len(),
{
    if events.len() == 0 {
        lemma_no_shares(root, events, ids);
    } else {
        let front = events.drop_last();
        let n = front.len() as int;
        assert forall|i: int| 0 <= i < front.len() implies ids.contains(
            #[trigger] group_of(path::relative(front[i].path@, root)),
        ) by {
            assert(front[i] == events[i]);
        }
        lemma_shares(root, front, ids);
        assert(events[n] == events.last());
        assert(ids.contains(group_of(path::relative(events[n].path@, root))));
        lemma_one_more(root, events, ids);
    }
}

/// Without changes there is none with a name.
proof fn lemma_no_shares(root: Seq<char>, events: Seq<FileEvent>, ids: Seq<Seq<char>>)
    requires
        events.len() == 0,
    ensures
        shares(root, events, ids) == 0,
    decreases ids.len(),
{
    if ids.len() > 0 {
        lemma_no_shares(root, events, ids.drop_last());
    }
}

/// One change more is one more where its name is among the names.
proof fn lemma_one_more(root: Seq<char>, events: Seq<FileEvent>, ids: Seq<Seq<char>>)
    requires
        ids.no_duplicates(),
        events.len() > 0,
    ensures
        shares(root, events, ids) == shares(root, events.drop_last(), ids) + if ids.contains(
            group_of(path::relative(events.last().path@, root)),
        ) {
            1int
        } else {
            0
        },
    decreases ids.len(),
{
    if ids.len() > 0 {
        let front = ids.drop_last();
        let id = group_of(path::relative(events.last().path@, root));
        lemma_one_more(root, events, front);
        if ids.contains(id) {
            let k = choose|k: int| 0 <= k < ids.len() && ids[k] == id;
            if k < front.len() {
                assert(front[k] == id);
            } else if front.contains(id) {
                let m = choose|m: int| 0 <= m < front.len() && front[m] == id;
                assert(ids[m] == ids[k]);
            }
        }
        if front.contains(id) {
            let m = choose|m: int| 0 <= m < front.len() && front[m] == id;
            assert(ids[m] == id);
            assert(ids[m] != ids[ids.len() - 1]);
        }
    }
}

// ── what changed last ───────────────────────────────────────────────

/// A file is told under the kind of its newest change, and under no other kind; the
/// changes come with the newest first.
pub proof fn lemma_file_is_told_by_its_newest_change(
    events: Seq<FileEvent>,
    i: int,
    kind: Seq<char>,
    list: Seq<Seq<char>>,
)
    requires
        are_ended_as(events, kind, list),
        0 <= i < events.len(),
        forall|k: int| 0 <= k < i ==> (#[trigger] events[k]).path@ != events[i].path@,
    ensures
        list.contains(events[i].path@) <==> events[i].event_type@ == kind,
{
    assert(is_latest_at(events, i));
    let p = events[i].path@;
    if list.contains(p) {
        let j = choose|j: int|
            #[trigger] is_latest_at(events, j) && events[j].path@ == p && events[j].event_type@
                == kind;
        if j < i {
            assert(events[j].path@ != p);
        } else if i < j {
            assert(events[i].path@ != events[j].path@);
        }
    }
}

} // verus!
