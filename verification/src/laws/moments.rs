//! What the history says of a file at a moment, read off the changes one by one.
use vstd::prelude::*;

use crate::db::events::{touches, touching_after, touching_beyond, touching_until, touching_upto};
use crate::intent_recovery::{stored_at, StoredView};
use crate::models::FileEvent;
use crate::restore::{state_at_id, state_at_time, RestoreKind, SourceView, StateView};
use crate::rows;
use crate::rows::Order;

verus! {

/// A moment in the history of a project.
pub ghost enum Moment {
    /// A time, with all that happened at it.
    Time(i64),
    /// Right after a change.
    Event(i64),
}

impl Moment {
    /// Whether a change had happened.
    pub open spec fn has(self, e: FileEvent) -> bool {
        match self {
            Moment::Time(time) => e.timestamp <= time,
            Moment::Event(id) => e.id <= id,
        }
    }

    /// Whether one change came after another: by their times and then by their
    /// ids, or by their ids alone.
    pub open spec fn follows(self, a: FileEvent, b: FileEvent) -> bool {
        match self {
            Moment::Time(_) => a.timestamp > b.timestamp || (a.timestamp == b.timestamp && a.id
                > b.id),
            Moment::Event(_) => a.id > b.id,
        }
    }
}

/// Whether a change moved a file away from a path, or to it from itself.
pub open spec fn moved_from(e: FileEvent, path: Seq<char>) -> bool {
    e.old_path matches Some(p) && p@ == path
}

/// Whether a change of a project names a path.
pub open spec fn names_file(e: FileEvent, project_id: i64, path: Seq<char>) -> bool {
    e.project_id == project_id && (e.path@ == path || moved_from(e, path))
}

/// Whether a change is the last one to a file up to a moment.
pub open spec fn is_last(
    events: Seq<FileEvent>,
    project_id: i64,
    path: Seq<char>,
    moment: Moment,
    e: FileEvent,
) -> bool {
    &&& events.contains(e)
    &&& names_file(e, project_id, path)
    &&& moment.has(e)
    &&& forall|i: int|
        0 <= i < events.len() && names_file(#[trigger] events[i], project_id, path) && moment.has(
            events[i],
        ) ==> events[i] == e || moment.follows(e, events[i])
}

/// Whether a change is the first one to a file after a moment.
pub open spec fn is_next(
    events: Seq<FileEvent>,
    project_id: i64,
    path: Seq<char>,
    moment: Moment,
    e: FileEvent,
) -> bool {
    &&& events.contains(e)
    &&& names_file(e, project_id, path)
    &&& !moment.has(e)
    &&& forall|i: int|
        0 <= i < events.len() && names_file(#[trigger] events[i], project_id, path) && !moment.has(
            events[i],
        ) ==> events[i] == e || moment.follows(events[i], e)
}

/// Whether no change to a file had happened at a moment.
pub open spec fn is_fresh(
    events: Seq<FileEvent>,
    project_id: i64,
    path: Seq<char>,
    moment: Moment,
) -> bool {
    forall|i: int|
        0 <= i < events.len() && names_file(#[trigger] events[i], project_id, path)
            ==> !moment.has(events[i])
}

/// Whether a change left no file at a path that it names.
pub open spec fn leaves_nothing(e: FileEvent, path: Seq<char>) -> bool {
    e.path@ != path || e.event_type@ == "DELETED"@
}

/// Whether there was a file at a path before a change.
pub open spec fn finds_file(e: FileEvent, path: Seq<char>) -> bool {
    moved_from(e, path) || (e.path@ == path && (e.event_type@ == "MODIFIED"@ || e.event_type@
        == "DELETED"@))
}

/// Whether a file had contents at a moment that are known by a hash: its last
/// change up to then left them, or no change had touched it and its next one found
/// them. The time is that of the change that tells.
pub open spec fn held(
    events: Seq<FileEvent>,
    project_id: i64,
    path: Seq<char>,
    moment: Moment,
    hash: Seq<char>,
    at: i64,
) -> bool {
    ||| exists|e: FileEvent|
        {
            &&& #[trigger] is_last(events, project_id, path, moment, e)
            &&& !leaves_nothing(e, path)
            &&& e.current_hash matches Some(h) && h@ == hash
            &&& e.timestamp == at
        }
    ||| is_fresh(events, project_id, path, moment) && exists|e: FileEvent|
        {
            &&& #[trigger] is_next(events, project_id, path, moment, e)
            &&& finds_file(e, path)
            &&& e.previous_hash matches Some(h) && h@ == hash
            &&& e.timestamp == at
        }
}

/// Whether nothing is known of what a file held at a moment.
pub open spec fn held_nothing(
    events: Seq<FileEvent>,
    project_id: i64,
    path: Seq<char>,
    moment: Moment,
) -> bool {
    forall|hash: Seq<char>, at: i64| !#[trigger] held(events, project_id, path, moment, hash, at)
}

/// Whether the last change to a file up to a moment left nothing there.
pub open spec fn was_removed(
    events: Seq<FileEvent>,
    project_id: i64,
    path: Seq<char>,
    moment: Moment,
) -> bool {
    exists|e: FileEvent|
        #[trigger] is_last(events, project_id, path, moment, e) && leaves_nothing(e, path)
}

/// Whether a file was not there yet at a moment: no change had touched it, and the
/// next one found nothing.
pub open spec fn was_not_made(
    events: Seq<FileEvent>,
    project_id: i64,
    path: Seq<char>,
    moment: Moment,
) -> bool {
    is_fresh(events, project_id, path, moment) && exists|e: FileEvent|
        #[trigger] is_next(events, project_id, path, moment, e) && !finds_file(e, path)
}

/// Whether no change had touched a file at a moment, and a later one does.
pub open spec fn comes_later(
    events: Seq<FileEvent>,
    project_id: i64,
    path: Seq<char>,
    moment: Moment,
) -> bool {
    is_fresh(events, project_id, path, moment) && exists|e: FileEvent| #[trigger]
        is_next(events, project_id, path, moment, e)
}

/// The order in which the last change up to a moment comes first.
spec fn back(moment: Moment) -> Order {
    match moment {
        Moment::Time(_) => Order::Newest,
        Moment::Event(_) => Order::HighestId,
    }
}

/// The order in which the first change after a moment comes first.
spec fn forth(moment: Moment) -> Order {
    match moment {
        Moment::Time(_) => Order::Oldest,
        Moment::Event(_) => Order::LowestId,
    }
}

/// The changes to a file up to a moment.
spec fn passed(project_id: i64, path: Seq<char>, moment: Moment) -> spec_fn(FileEvent) -> bool {
    match moment {
        Moment::Time(time) => touching_until(project_id, path, time),
        Moment::Event(id) => touching_upto(project_id, path, id),
    }
}

/// The changes to a file after a moment.
spec fn ahead(project_id: i64, path: Seq<char>, moment: Moment) -> spec_fn(FileEvent) -> bool {
    match moment {
        Moment::Time(time) => touching_after(project_id, path, time),
        Moment::Event(id) => touching_beyond(project_id, path, id),
    }
}

/// The last and the next change are the first ones of the listings to which they
/// belong.
proof fn lemma_neighbours(events: Seq<FileEvent>, project_id: i64, path: Seq<char>, moment: Moment)
    requires
        rows::ids_grow(events),
    ensures
        match rows::pick(events, back(moment), passed(project_id, path, moment)) {
            Some(e) => is_last(events, project_id, path, moment, e) && !is_fresh(
                events,
                project_id,
                path,
                moment,
            ),
            None => is_fresh(events, project_id, path, moment),
        },
        match rows::pick(events, forth(moment), ahead(project_id, path, moment)) {
            Some(e) => is_next(events, project_id, path, moment, e),
            None => forall|i: int|
                0 <= i < events.len() && names_file(#[trigger] events[i], project_id, path)
                    ==> moment.has(events[i]),
        },
        forall|e: FileEvent| #[trigger]
            is_last(events, project_id, path, moment, e) ==> rows::pick(
                events,
                back(moment),
                passed(project_id, path, moment),
            ) == Some(e),
        forall|e: FileEvent| #[trigger]
            is_next(events, project_id, path, moment, e) ==> rows::pick(
                events,
                forth(moment),
                ahead(project_id, path, moment),
            ) == Some(e),
{
    let before = passed(project_id, path, moment);
    let after = ahead(project_id, path, moment);
    assert forall|e: FileEvent| #[trigger] before(e) <==> names_file(e, project_id, path)
        && moment.has(e) by {
        assert(touches(e, path) <==> e.path@ == path || moved_from(e, path));
    }
    assert forall|e: FileEvent| #[trigger] after(e) <==> names_file(e, project_id, path)
        && !moment.has(e) by {
        assert(touches(e, path) <==> e.path@ == path || moved_from(e, path));
    }
    rows::lemma_picked(events, back(moment), before);
    rows::lemma_picked(events, forth(moment), after);
    let last = rows::pick(events, back(moment), before);
    let next = rows::pick(events, forth(moment), after);
    if let Some(e) = last {
        assert(is_last(events, project_id, path, moment, e));
        let k = choose|k: int| 0 <= k < events.len() && events[k] == e;
        assert(names_file(events[k], project_id, path));
    } else {
        assert forall|i: int|
            0 <= i < events.len() && names_file(#[trigger] events[i], project_id, path) implies
            !moment.has(events[i]) by {
            assert(!before(events[i]));
        }
    }
    if let Some(e) = next {
        assert(is_next(events, project_id, path, moment, e));
    } else {
        assert forall|i: int|
            0 <= i < events.len() && names_file(#[trigger] events[i], project_id, path) implies
            moment.has(events[i]) by {
            assert(!after(events[i]));
        }
    }
    assert forall|e: FileEvent| #[trigger]
        is_last(events, project_id, path, moment, e) implies last == Some(e) by {
        assert(rows::is_first(events, back(moment), before, Some(e)));
        rows::lemma_pick(events, back(moment), before, Some(e));
    }
    assert forall|e: FileEvent| #[trigger]
        is_next(events, project_id, path, moment, e) implies next == Some(e) by {
        assert(rows::is_first(events, forth(moment), after, Some(e)));
        rows::lemma_pick(events, forth(moment), after, Some(e));
    }
}

/// Whether a state is what the history says of a file at a moment.
pub open spec fn is_told(
    events: Seq<FileEvent>,
    project_id: i64,
    path: Seq<char>,
    moment: Moment,
    state: StateView,
) -> bool {
    &&& forall|hash: Seq<char>, at: i64| #[trigger]
        held(events, project_id, path, moment, hash, at) <==> state == StateView::Present(
            SourceView { hash, timestamp: at, kind: RestoreKind::Exact },
        )
    &&& state is Absent <==> was_removed(events, project_id, path, moment) || (comes_later(
        events,
        project_id,
        path,
        moment,
    ) && held_nothing(events, project_id, path, moment))
    &&& state is Present ==> !held_nothing(events, project_id, path, moment)
}

/// What a file held at a time is what the changes up to then left, else what the
/// first one after it found.
pub proof fn lemma_state_at_time(events: Seq<FileEvent>, project_id: i64, path: Seq<char>, time: i64)
    requires
        rows::ids_grow(events),
    ensures
        is_told(
            events,
            project_id,
            path,
            Moment::Time(time),
            state_at_time(events, project_id, path, time),
        ),
{
    lemma_told(events, project_id, path, Moment::Time(time));
}

/// What a file held right after a change is what that one or an earlier one left,
/// else what the first one after it found.
pub proof fn lemma_state_at_event(
    events: Seq<FileEvent>,
    project_id: i64,
    path: Seq<char>,
    event_id: i64,
)
    requires
        rows::ids_grow(events),
    ensures
        is_told(
            events,
            project_id,
            path,
            Moment::Event(event_id),
            state_at_id(events, project_id, path, event_id),
        ),
{
    lemma_told(events, project_id, path, Moment::Event(event_id));
}

/// The state of a file at a moment.
spec fn state_at(events: Seq<FileEvent>, project_id: i64, path: Seq<char>, moment: Moment) -> StateView {
    match moment {
        Moment::Time(time) => state_at_time(events, project_id, path, time),
        Moment::Event(id) => state_at_id(events, project_id, path, id),
    }
}

/// The state of a file at a moment is what the history says of it.
proof fn lemma_told(events: Seq<FileEvent>, project_id: i64, path: Seq<char>, moment: Moment)
    requires
        rows::ids_grow(events),
    ensures
        is_told(events, project_id, path, moment, state_at(events, project_id, path, moment)),
{
    lemma_neighbours(events, project_id, path, moment);
    let state = state_at(events, project_id, path, moment);
    let last = rows::pick(events, back(moment), passed(project_id, path, moment));
    let next = rows::pick(events, forth(moment), ahead(project_id, path, moment));
    if let StateView::Present(s) = state {
        assert(held(events, project_id, path, moment, s.hash, s.timestamp));
    }
}

/// Whether a recorded state is what the history says of a file at a moment.
pub open spec fn is_kept(
    events: Seq<FileEvent>,
    project_id: i64,
    path: Seq<char>,
    moment: Moment,
    state: StoredView,
) -> bool {
    &&& forall|hash: Seq<char>, at: i64| #[trigger]
        held(events, project_id, path, moment, hash, at) <==> state == StoredView::Present(hash, at)
    &&& state is Absent <==> was_removed(events, project_id, path, moment) || was_not_made(
        events,
        project_id,
        path,
        moment,
    )
    &&& state is Present ==> !held_nothing(events, project_id, path, moment)
}

/// The recorded state of a file right after a change is what that one or an earlier
/// one left, else what the first one after it found.
pub proof fn lemma_stored_state(
    events: Seq<FileEvent>,
    project_id: i64,
    path: Seq<char>,
    event_id: i64,
)
    requires
        rows::ids_grow(events),
    ensures
        is_kept(
            events,
            project_id,
            path,
            Moment::Event(event_id),
            stored_at(events, project_id, path, event_id),
        ),
{
    let moment = Moment::Event(event_id);
    lemma_neighbours(events, project_id, path, moment);
    let state = stored_at(events, project_id, path, event_id);
    if let StoredView::Present(hash, at) = state {
        assert(held(events, project_id, path, moment, hash, at));
    }
}

} // verus!
