//! What is saved of a preview, and what carrying it out does.
use vstd::prelude::*;

use crate::db::recoveries::{are_entries, is_recovery, recovery_created};
use crate::db::Tables;
use crate::error::Error;
use crate::hex;
use crate::intent_recovery::{saved_at, SavedCopy};
use crate::laws::restoring::{is_free, is_spot, is_unlisted, lemma_found, lemma_spot};
use crate::models::{Recovery, RecoveryEntry, WatchedProject};
use crate::recoveries::{plan_persisted, row_for, row_view, rows_for, rows_view, RowView};
use crate::recovery_apply::{apply_begun, changed_files, plan_of, recovery_name, ApplyStart};
use crate::restore::{entries_view, ActionView, EntryView};
use crate::restore_fs::{confined_below, is_confined, read_at, CappedRead, Spot};
use crate::restore_report::current_state;
use crate::rows;
use crate::text;

verus! {

// ── the state of a file ─────────────────────────────────────────────

/// Whether a file is found in a state: whether it is there, and what its contents are
/// known by.
pub open spec fn stands_as(spots: Seq<Spot>, target: Seq<char>, state: (bool, Option<Seq<char>>)) -> bool {
    if is_unlisted(spots, target) {
        state == (false, None::<Seq<char>>)
    } else {
        exists|i: int| #[trigger]
            is_spot(spots, target, i) && match spots[i].read {
                CappedRead::Missing => state == (false, None::<Seq<char>>),
                CappedRead::Content(bytes) => state == (true, Some(hex::content_hash(bytes@))),
                _ => false,
            }
    }
}

/// A state is told exactly where a file is found in it.
pub proof fn lemma_stands_as(spots: Seq<Spot>, target: Seq<char>)
    ensures
        forall|state: (bool, Option<Seq<char>>)| #[trigger]
            stands_as(spots, target, state) <==> current_state(read_at(spots, target), target)
                == Ok::<(bool, Option<Seq<char>>), Seq<char>>(state),
{
    lemma_spot(spots, target);
    if let Some(i) = crate::restore_fs::spot_at(spots, target) {
        assert(!is_unlisted(spots, target)) by {
            assert(spots[i].relative@ == target);
        }
        assert forall|state: (bool, Option<Seq<char>>)| #[trigger]
            stands_as(spots, target, state) implies current_state(read_at(spots, target), target)
            == Ok::<(bool, Option<Seq<char>>), Seq<char>>(state) by {
            let k = choose|k: int| #[trigger]
                is_spot(spots, target, k) && match spots[k].read {
                    CappedRead::Missing => state == (false, None::<Seq<char>>),
                    CappedRead::Content(bytes) => state == (
                        true,
                        Some(hex::content_hash(bytes@)),
                    ),
                    _ => false,
                };
            assert(k == i);
        }
    }
}

// ── what is saved ───────────────────────────────────────────────────

/// Whether an entry would change a file in a state: it writes contents that are not
/// there, or takes away a file that is.
pub open spec fn would_change(action: ActionView, state: (bool, Option<Seq<char>>)) -> bool {
    match action {
        ActionView::Write(source) => !(state.0 && state.1 == Some(source.hash)),
        ActionView::Delete => state.0,
    }
}

/// Whether a path is a file of a folder.
pub open spec fn is_file_of(path: Seq<char>, root: Seq<char>, rel: Seq<char>) -> bool {
    path == if root.last() == '/' {
        root + rel
    } else {
        root + seq!['/'] + rel
    }
}

/// Whether a row says what an entry does to a file in a state.
pub open spec fn says(
    row: RowView,
    root: Seq<char>,
    e: EntryView,
    state: (bool, Option<Seq<char>>),
) -> bool {
    &&& is_file_of(row.path, root, e.path)
    &&& row.expected_exists == state.0
    &&& row.expected_hash == state.1
    &&& match e.action {
        ActionView::Write(source) => {
            &&& row.action == "WRITE"@
            &&& row.target_hash == Some(source.hash)
            &&& row.source_timestamp == Some(source.timestamp)
        },
        ActionView::Delete => {
            &&& row.action == "DELETE"@
            &&& row.target_hash is None
            &&& row.source_timestamp is None
        },
    }
}

/// Whether a row is for an entry that would change its file as it is found.
pub open spec fn is_row_for(row: RowView, root: Seq<char>, e: EntryView, spots: Seq<Spot>) -> bool {
    exists|state: (bool, Option<Seq<char>>)| #[trigger]
        stands_as(spots, e.path, state) && would_change(e.action, state) && says(
            row,
            root,
            e,
            state,
        )
}

/// A path below a root is spelled with one slash.
proof fn lemma_is_file_of(root: Seq<char>, rel: Seq<char>)
    requires
        root.len() > 0,
        is_confined(rel),
    ensures
        is_file_of(crate::path::join_spec(root, rel), root, rel),
{
    reveal_strlit("/");
    assert("/"@ =~= seq!['/']);
    crate::path::lemma_path_keeps_names(false, crate::path::names(rel));
}

/// What is saved for one entry.
proof fn lemma_row_for(root: Seq<char>, e: EntryView, spots: Seq<Spot>, state: (bool, Option<Seq<char>>))
    requires
        root.len() > 0,
        is_confined(e.path),
        stands_as(spots, e.path, state),
    ensures
        match row_for(root, e, state) {
            Some(row) => is_row_for(row, root, e, spots) && says(row, root, e, state),
            None => !would_change(e.action, state),
        },
{
    lemma_is_file_of(root, e.path);
}

/// What is saved for some entries.
proof fn lemma_rows_for(root: Seq<char>, entries: Seq<EntryView>, spots: Seq<Spot>, i: int)
    requires
        root.len() > 0,
        forall|k: int| 0 <= k < entries.len() ==> is_confined((#[trigger] entries[k]).path),
        rows_for(root, entries, spots) is Ok,
        0 <= i < entries.len(),
    ensures
        exists|state: (bool, Option<Seq<char>>)| #[trigger]
            stands_as(spots, entries[i].path, state) && (entries[i].expected is Some
                ==> entries[i].expected->0 == state) && (would_change(entries[i].action, state)
                ==> exists|k: int|
                0 <= k < rows_for(root, entries, spots)->Ok_0.len() && says(
                    #[trigger] rows_for(root, entries, spots)->Ok_0[k],
                    root,
                    entries[i],
                    state,
                )),
    decreases entries.len(),
{
    let front = entries.drop_last();
    let n = entries.len() - 1;
    let before = rows_for(root, front, spots)->Ok_0;
    let after = rows_for(root, entries, spots)->Ok_0;
    if i < n {
        assert forall|k: int| 0 <= k < front.len() implies is_confined(
            (#[trigger] front[k]).path,
        ) by {
            assert(front[k] == entries[k]);
        }
        lemma_rows_for(root, front, spots, i);
        assert(front[i] == entries[i]);
        let state = choose|state: (bool, Option<Seq<char>>)| #[trigger]
            stands_as(spots, front[i].path, state) && (front[i].expected is Some
                ==> front[i].expected->0 == state) && (would_change(front[i].action, state)
                ==> exists|k: int|
                0 <= k < before.len() && says(#[trigger] before[k], root, front[i], state));
        if would_change(front[i].action, state) {
            let k = choose|k: int|
                0 <= k < before.len() && says(#[trigger] before[k], root, front[i], state);
            assert(after[k] == before[k]);
            assert(says(after[k], root, entries[i], state));
        }
        assert(stands_as(spots, entries[i].path, state));
    } else {
        let e = entries[n];
        assert(is_confined(entries[n].path));
        lemma_stands_as(spots, e.path);
        let state = current_state(read_at(spots, e.path), e.path)->Ok_0;
        assert(stands_as(spots, e.path, state));
        lemma_row_for(root, e, spots, state);
        if would_change(e.action, state) {
            assert(says(after[before.len() as int], root, e, state));
        }
    }
}

/// Every row is saved for an entry.
proof fn lemma_row_has_entry(root: Seq<char>, entries: Seq<EntryView>, spots: Seq<Spot>, k: int) -> (i:
    int)
    requires
        root.len() > 0,
        forall|k: int| 0 <= k < entries.len() ==> is_confined((#[trigger] entries[k]).path),
        rows_for(root, entries, spots) is Ok,
        0 <= k < rows_for(root, entries, spots)->Ok_0.len(),
    ensures
        0 <= i < entries.len(),
        is_row_for(rows_for(root, entries, spots)->Ok_0[k], root, entries[i], spots),
    decreases entries.len(),
{
    let front = entries.drop_last();
    let n = entries.len() - 1;
    let before = rows_for(root, front, spots)->Ok_0;
    let after = rows_for(root, entries, spots)->Ok_0;
    if k < before.len() {
        assert forall|k: int| 0 <= k < front.len() implies is_confined(
            (#[trigger] front[k]).path,
        ) by {
            assert(front[k] == entries[k]);
        }
        let i = lemma_row_has_entry(root, front, spots, k);
        assert(front[i] == entries[i]);
        assert(after[k] == before[k]);
        i
    } else {
        let e = entries[n];
        assert(is_confined(entries[n].path));
        lemma_stands_as(spots, e.path);
        let state = current_state(read_at(spots, e.path), e.path)->Ok_0;
        assert(stands_as(spots, e.path, state));
        lemma_row_for(root, e, spots, state);
        n
    }
}

/// What is saved of a preview. Every entry that would change its file as it is found
/// has a row that says what it does and how the file was found. An entry is left out
/// only where the file is already as the entry would leave it: it is there with the
/// contents to be written, or is to be taken away and is not there. There are no other
/// rows, and the rows of other plans stay. The plan may be carried out for a day.
pub proof fn lemma_preview_is_saved(
    before: Tables,
    after: Tables,
    project: WatchedProject,
    run_id: Option<i64>,
    request: Seq<char>,
    kind: Seq<char>,
    confidence: Seq<char>,
    ambiguity: Option<Seq<char>>,
    entries: Seq<EntryView>,
    spots: Seq<Spot>,
    now: i64,
    recovery: Recovery,
)
    requires
        before.wf(),
        project.root_path@.len() > 0,
        forall|i: int| 0 <= i < entries.len() ==> is_confined((#[trigger] entries[i]).path),
        plan_persisted(
            before,
            after,
            project,
            run_id,
            request,
            kind,
            confidence,
            ambiguity,
            entries,
            spots,
            now,
            Ok(recovery),
        ),
    ensures
        forall|i: int|
            0 <= i < entries.len() ==> has_its_row(
                after.entries,
                recovery.id,
                project.root_path@,
                #[trigger] entries[i],
                spots,
            ),
        forall|m: int|
            0 <= m < after.entries.len() && (#[trigger] after.entries[m]).recovery_id == recovery.id
                ==> exists|i: int|
                0 <= i < entries.len() && is_row_for(
                    row_view(after.entries[m]),
                    project.root_path@,
                    #[trigger] entries[i],
                    spots,
                ),
        forall|m: int|
            0 <= m < before.entries.len() ==> after.entries.contains(#[trigger] before.entries[m])
                && before.entries[m].recovery_id != recovery.id,
        after.recoveries == before.recoveries.push(recovery),
        recovery.status@ == "planned"@,
        recovery.project_id == project.id,
        recovery.run_id == run_id,
        recovery.request@ == request,
        recovery.kind@ == kind,
        recovery.confidence@ == confidence,
        text::view_opt(recovery.ambiguity) == ambiguity,
        recovery.created_at == now,
        recovery.applied_at is None,
        now <= i64::MAX - 86_400 ==> recovery.expires_at == now + 86_400,
        after.events == before.events,
        after.claims == before.claims,
        after.sessions == before.sessions,
{
    let root = project.root_path@;
    let views = rows_for(root, entries, spots)->Ok_0;
    let list = choose|list: Seq<RecoveryEntry>|
        {
            &&& rows_view(list) == views
            &&& #[trigger] recovery_created(
                before,
                after,
                project.id,
                run_id,
                request,
                kind,
                confidence,
                ambiguity,
                list,
                now,
                Ok(recovery),
            )
        };
    let own = crate::db::recoveries::owned_entries(list, recovery.id);
    let n = before.entries.len() as int;
    assert(after.entries == before.entries + own);
    assert forall|i: int| 0 <= i < entries.len() implies has_its_row(
        after.entries,
        recovery.id,
        root,
        #[trigger] entries[i],
        spots,
    ) by {
        let e = entries[i];
        lemma_rows_for(root, entries, spots, i);
        let state = choose|state: (bool, Option<Seq<char>>)| #[trigger]
            stands_as(spots, e.path, state) && (e.expected is Some ==> e.expected->0 == state) && (
            would_change(e.action, state) ==> exists|k: int|
                0 <= k < views.len() && says(#[trigger] views[k], root, e, state));
        if would_change(e.action, state) {
            let k = choose|k: int| 0 <= k < views.len() && says(#[trigger] views[k], root, e, state);
            assert(after.entries[n + k] == own[k]);
            assert(row_view(own[k]) == row_view(list[k]));
            assert(row_view(list[k]) == views[k]);
        }
        assert(stands_as(spots, e.path, state));
    }
    assert forall|m: int|
        0 <= m < after.entries.len() && (#[trigger] after.entries[m]).recovery_id
            == recovery.id implies exists|i: int|
        0 <= i < entries.len() && is_row_for(
            row_view(after.entries[m]),
            root,
            #[trigger] entries[i],
            spots,
        ) by {
        if m < n {
            assert(before.entries[m].recovery_id <= before.last.recoveries);
        }
        let k = m - n;
        assert(after.entries[m] == own[k]);
        assert(row_view(own[k]) == row_view(list[k]));
        assert(row_view(list[k]) == views[k]);
        let i = lemma_row_has_entry(root, entries, spots, k);
        assert(is_row_for(row_view(after.entries[m]), root, entries[i], spots));
    }
    assert forall|m: int| 0 <= m < before.entries.len() implies after.entries.contains(
        #[trigger] before.entries[m],
    ) && before.entries[m].recovery_id != recovery.id by {
        assert(after.entries[m] == before.entries[m]);
        assert(before.entries[m].recovery_id <= before.last.recoveries);
    }
}

/// Whether an entry has its row in a plan: its file is found in a state, in the one
/// that the entry expects where it expects one; and where the entry would change it,
/// a row of the plan says so.
pub open spec fn has_its_row(
    stored: Seq<RecoveryEntry>,
    recovery_id: i64,
    root: Seq<char>,
    e: EntryView,
    spots: Seq<Spot>,
) -> bool {
    exists|state: (bool, Option<Seq<char>>)|
        {
            &&& #[trigger] stands_as(spots, e.path, state)
            &&& e.expected is Some ==> e.expected->0 == state
            &&& would_change(e.action, state) ==> exists|m: int|
                0 <= m < stored.len() && (#[trigger] stored[m]).recovery_id == recovery_id && says(
                    row_view(stored[m]),
                    root,
                    e,
                    state,
                )
        }
}

// ── carrying a plan out ─────────────────────────────────────────────

/// Whether a file is found as a row says that it was.
pub open spec fn is_as_found(row: RecoveryEntry, target: Seq<char>, spots: Seq<Spot>) -> bool {
    stands_as(spots, target, (row.expected_exists, text::view_opt(row.expected_hash)))
}

/// Whether an entry does what a row says.
pub open spec fn does(e: EntryView, row: RecoveryEntry, target: Seq<char>) -> bool {
    &&& e.path == target
    &&& e.expected == Some((row.expected_exists, text::view_opt(row.expected_hash)))
    &&& match e.action {
        ActionView::Write(source) => row.action@ == "WRITE"@ && (row.target_hash matches Some(hash)
            && hash@ == source.hash) && (row.source_timestamp is Some ==> row.source_timestamp->0
            == source.timestamp),
        ActionView::Delete => row.action@ == "DELETE"@,
    }
}

/// Where nothing is wrong with the files of a plan, each is as it was found, and what
/// is to be written there can be had.
proof fn lemma_unchanged(
    root: Seq<char>,
    stored: Seq<RecoveryEntry>,
    spots: Seq<Spot>,
    copies: Seq<SavedCopy>,
    k: int,
)
    requires
        changed_files(root, stored, spots, copies) == Ok::<Seq<Seq<char>>, Seq<char>>(Seq::empty()),
        0 <= k < stored.len(),
    ensures
        confined_below(root, stored[k].path@) matches Ok(target) && is_as_found(
            stored[k],
            target,
            spots,
        ) && (stored[k].target_hash is Some ==> has_copy(copies, stored[k].target_hash->0@)),
    decreases stored.len(),
{
    let front = stored.drop_last();
    let n = stored.len() - 1;
    assert(changed_files(root, front, spots, copies) is Ok);
    let before = changed_files(root, front, spots, copies)->Ok_0;
    assert(before.len() == 0) by {
        if before.len() > 0 {
            let after = changed_files(root, stored, spots, copies)->Ok_0;
            assert(after.len() >= before.len());
        }
    }
    assert(before =~= Seq::empty());
    if k < n {
        assert(front[k] == stored[k]);
        lemma_unchanged(root, front, spots, copies, k);
    } else {
        let target = confined_below(root, stored[k].path@)->Ok_0;
        lemma_stands_as(spots, target);
        if let Some(hash) = stored[k].target_hash {
            lemma_saved_at(copies, hash@);
        }
    }
}

/// What is done for the rows of a plan.
proof fn lemma_done(root: Seq<char>, stored: Seq<RecoveryEntry>, now: i64, k: int)
    requires
        plan_of(root, stored, now) is Ok,
        0 <= k < stored.len(),
    ensures
        plan_of(root, stored, now)->Ok_0.len() == stored.len(),
        confined_below(root, stored[k].path@) matches Ok(target) && does(
            plan_of(root, stored, now)->Ok_0[k],
            stored[k],
            target,
        ),
    decreases stored.len(),
{
    let front = stored.drop_last();
    let n = stored.len() - 1;
    let before = plan_of(root, front, now)->Ok_0;
    let after = plan_of(root, stored, now)->Ok_0;
    if n > 0 {
        lemma_done(root, front, now, 0);
    }
    if k < n {
        lemma_done(root, front, now, k);
        assert(front[k] == stored[k]);
        assert(after[k] == before[k]);
    }
}

/// The number of entries is that of the rows.
proof fn lemma_done_len(root: Seq<char>, stored: Seq<RecoveryEntry>, now: i64)
    requires
        plan_of(root, stored, now) is Ok,
    ensures
        plan_of(root, stored, now)->Ok_0.len() == stored.len(),
{
    if stored.len() > 0 {
        lemma_done(root, stored, now, 0);
    }
}

/// A saved plan is carried out only as it was saved, and only on files that are as
/// they were found. It must be planned, not be expired, and nothing may be unclear
/// about it. Every row of it is carried out on a file that is in the state that the
/// row expects, with contents that can be had; and nothing else is done.
pub proof fn lemma_apply_is_safe(
    before: Tables,
    after: Tables,
    project: WatchedProject,
    reference: Seq<char>,
    spots: Seq<Spot>,
    copies: Seq<SavedCopy>,
    now: i64,
    recovery: Recovery,
    plan: crate::restore::RestorePlan,
)
    requires
        apply_begun(
            before,
            after,
            project,
            reference,
            spots,
            copies,
            now,
            Ok(ApplyStart::Go(recovery, plan)),
        ),
    ensures
        after == before,
        before.recoveries.contains(recovery),
        recovery.project_id == project.id,
        recovery.status@ == "planned"@,
        now <= recovery.expires_at,
        recovery.ambiguity is None,
        forall|m: int|
            0 <= m < before.entries.len() && (#[trigger] before.entries[m]).recovery_id
                == recovery.id ==> is_carried_out(
                project.root_path@,
                before.entries[m],
                spots,
                copies,
                entries_view(plan.entries@),
            ),
        forall|k: int|
            0 <= k < entries_view(plan.entries@).len() ==> exists|m: int, target: Seq<char>|
                0 <= m < before.entries.len() && before.entries[m].recovery_id == recovery.id
                    && confined_below(project.root_path@, before.entries[m].path@) == Ok::<
                    Seq<char>,
                    Seq<char>,
                >(target) && does(
                    #[trigger] entries_view(plan.entries@)[k],
                    #[trigger] before.entries[m],
                    #[trigger] same_file(target),
                ),
{
    let root = project.root_path@;
    if let Some(id) = crate::db::public_id_of(reference, "rec_"@) {
        rows::lemma_lookup_kept(before.recoveries, is_recovery(id as i64));
    }
    let stored = choose|stored: Seq<RecoveryEntry>|
        {
            &&& #[trigger] are_entries(before.entries, recovery.id, stored)
            &&& crate::recovery_apply::plan_checked(
                before,
                after,
                root,
                recovery,
                stored,
                spots,
                copies,
                now,
                Ok(ApplyStart::Go(recovery, plan)),
            )
        };
    assert(changed_files(root, stored, spots, copies)->Ok_0 =~= Seq::empty());
    let entries = entries_view(plan.entries@);
    lemma_done_len(root, stored, now);
    assert forall|m: int|
        0 <= m < before.entries.len() && (#[trigger] before.entries[m]).recovery_id
            == recovery.id implies is_carried_out(root, before.entries[m], spots, copies, entries) by {
        assert(stored.contains(before.entries[m]));
        let k = choose|k: int| 0 <= k < stored.len() && stored[k] == before.entries[m];
        lemma_unchanged(root, stored, spots, copies, k);
        lemma_done(root, stored, now, k);
        let target = confined_below(root, stored[k].path@)->Ok_0;
        assert(does(entries[k], stored[k], target));
    }
    assert forall|k: int| 0 <= k < entries.len() implies exists|m: int, target: Seq<char>|
        0 <= m < before.entries.len() && before.entries[m].recovery_id == recovery.id
            && confined_below(root, before.entries[m].path@) == Ok::<Seq<char>, Seq<char>>(target)
            && does(
            #[trigger] entries[k],
            #[trigger] before.entries[m],
            #[trigger] same_file(target),
        ) by {
        lemma_done(root, stored, now, k);
        assert(before.entries.contains(stored[k]));
        let m = choose|m: int| 0 <= m < before.entries.len() && before.entries[m] == stored[k];
        let target = confined_below(root, stored[k].path@)->Ok_0;
        assert(does(entries[k], before.entries[m], same_file(target)));
    }
}

/// The file itself.
pub open spec fn same_file(target: Seq<char>) -> Seq<char> {
    target
}

/// Whether a row is carried out by one of some entries, on a file that is as it was
/// found, with contents that can be had.
pub open spec fn is_carried_out(
    root: Seq<char>,
    row: RecoveryEntry,
    spots: Seq<Spot>,
    copies: Seq<SavedCopy>,
    entries: Seq<EntryView>,
) -> bool {
    &&& confined_below(root, row.path@) matches Ok(target)
    &&& is_as_found(row, target, spots)
    &&& row.target_hash is Some ==> has_copy(copies, row.target_hash->0@)
    &&& exists|k: int| 0 <= k < entries.len() && does(#[trigger] entries[k], row, target)
}

/// Whether the last copy listed under a hash has contents.
pub open spec fn has_copy(copies: Seq<SavedCopy>, hash: Seq<char>) -> bool {
    exists|i: int|
        {
            &&& 0 <= i < copies.len()
            &&& (#[trigger] copies[i]).hash@ == hash
            &&& copies[i].content is Some
            &&& forall|j: int| i < j < copies.len() ==> (#[trigger] copies[j]).hash@ != hash
        }
}

/// Contents that are had under a hash are those of the last copy listed under it.
pub proof fn lemma_saved_at(copies: Seq<SavedCopy>, hash: Seq<char>)
    ensures
        saved_at(copies, hash) is Ok <==> has_copy(copies, hash),
        forall|i: int|
            0 <= i < copies.len() && (#[trigger] copies[i]).hash@ == hash && copies[i].content
                is Some && (forall|j: int|
                i < j < copies.len() ==> (#[trigger] copies[j]).hash@ != hash) ==> saved_at(
                copies,
                hash,
            ) == Ok::<Seq<u8>, Seq<char>>(copies[i].content->0@),
    decreases copies.len(),
{
    if copies.len() > 0 {
        let front = copies.drop_last();
        let n = copies.len() - 1;
        lemma_saved_at(front, hash);
        if copies.last().hash@ == hash {
            assert(copies[n].hash@ == hash);
        } else {
            if has_copy(front, hash) {
                let i = choose|i: int|
                    {
                        &&& 0 <= i < front.len()
                        &&& (#[trigger] front[i]).hash@ == hash
                        &&& front[i].content is Some
                        &&& forall|j: int|
                            i < j < front.len() ==> (#[trigger] front[j]).hash@ != hash
                    };
                assert(copies[i] == front[i]);
                assert forall|j: int| i < j < copies.len() implies (#[trigger] copies[j]).hash@
                    != hash by {
                    if j < n {
                        assert(front[j] == copies[j]);
                    }
                }
            }
            assert forall|i: int|
                0 <= i < copies.len() && (#[trigger] copies[i]).hash@ == hash && copies[i].content
                    is Some && (forall|j: int|
                    i < j < copies.len() ==> (#[trigger] copies[j]).hash@ != hash) implies saved_at(
                copies,
                hash,
            ) == Ok::<Seq<u8>, Seq<char>>(copies[i].content->0@) && has_copy(front, hash) by {
                assert(i < n);
                assert(front[i] == copies[i]);
                assert forall|j: int| i < j < front.len() implies (#[trigger] front[j]).hash@
                    != hash by {
                    assert(front[j] == copies[j]);
                }
            }
        }
    }
}

/// Whether a row can be carried out: a file can be put at its path, its state is
/// known, and what is to be written there is named and can be had.
pub open spec fn can_be_done(
    root: Seq<char>,
    row: RecoveryEntry,
    spots: Seq<Spot>,
    copies: Seq<SavedCopy>,
) -> bool {
    &&& confined_below(root, row.path@) matches Ok(target)
    &&& is_free(spots, target)
    &&& exists|state: (bool, Option<Seq<char>>)| #[trigger] stands_as(spots, target, state)
    &&& row.target_hash is Some ==> has_copy(copies, row.target_hash->0@)
    &&& (row.action@ == "WRITE"@ && row.target_hash is Some) || row.action@ == "DELETE"@
}

/// Where the rows of a plan can be carried out, files count as changed exactly where
/// one is not as it was found.
proof fn lemma_changed(
    root: Seq<char>,
    stored: Seq<RecoveryEntry>,
    spots: Seq<Spot>,
    copies: Seq<SavedCopy>,
    now: i64,
)
    requires
        forall|k: int|
            0 <= k < stored.len() ==> can_be_done(root, #[trigger] stored[k], spots, copies),
    ensures
        plan_of(root, stored, now) is Ok,
        changed_files(root, stored, spots, copies) is Ok,
        changed_files(root, stored, spots, copies)->Ok_0.len() == 0 <==> forall|k: int|
            0 <= k < stored.len() ==> is_row_as_found(root, #[trigger] stored[k], spots),
    decreases stored.len(),
{
    reveal_strlit("WRITE");
    reveal_strlit("DELETE");
    assert("WRITE"@[0] != "DELETE"@[0]);
    if stored.len() > 0 {
        let front = stored.drop_last();
        let n = stored.len() - 1;
        assert forall|k: int| 0 <= k < front.len() implies can_be_done(
            root,
            #[trigger] front[k],
            spots,
            copies,
        ) by {
            assert(front[k] == stored[k]);
        }
        lemma_changed(root, front, spots, copies, now);
        let row = stored[n];
        assert(can_be_done(root, stored[n], spots, copies));
        let target = confined_below(root, row.path@)->Ok_0;
        lemma_found(spots, target);
        lemma_stands_as(spots, target);
        if let Some(hash) = row.target_hash {
            lemma_saved_at(copies, hash@);
        }
        let state = choose|state: (bool, Option<Seq<char>>)| #[trigger]
            stands_as(spots, target, state);
        assert(stands_as(spots, target, state));
        let before = changed_files(root, front, spots, copies)->Ok_0;
        let after = changed_files(root, stored, spots, copies)->Ok_0;
        if forall|k: int|
            0 <= k < stored.len() ==> is_row_as_found(root, #[trigger] stored[k], spots) {
            assert forall|k: int| 0 <= k < front.len() implies is_row_as_found(
                root,
                #[trigger] front[k],
                spots,
            ) by {
                assert(front[k] == stored[k]);
            }
            assert(is_row_as_found(root, stored[n], spots));
        }
        if after.len() == 0 {
            assert forall|k: int| 0 <= k < stored.len() implies is_row_as_found(
                root,
                #[trigger] stored[k],
                spots,
            ) by {
                if k < n {
                    assert(front[k] == stored[k]);
                }
            }
        }
    }
}

/// Whether the file of a row is found as the row says that it was.
pub open spec fn is_row_as_found(root: Seq<char>, row: RecoveryEntry, spots: Seq<Spot>) -> bool {
    confined_below(root, row.path@) matches Ok(target) && is_as_found(row, target, spots)
}

/// A planned recovery goes ahead where it is asked for by its name, in time, with
/// nothing unclear about it, and every file is as it was found. Where a file is not,
/// nothing is done and the plan is given up for good.
pub proof fn lemma_apply_goes_ahead(
    before: Tables,
    after: Tables,
    project: WatchedProject,
    recovery: Recovery,
    spots: Seq<Spot>,
    copies: Seq<SavedCopy>,
    now: i64,
    result: Result<ApplyStart, Error>,
)
    requires
        before.wf(),
        before.recoveries.contains(recovery),
        recovery.project_id == project.id,
        recovery.status@ == "planned"@,
        now <= recovery.expires_at,
        recovery.ambiguity is None,
        forall|m: int|
            0 <= m < before.entries.len() && (#[trigger] before.entries[m]).recovery_id
                == recovery.id ==> can_be_done(
                project.root_path@,
                before.entries[m],
                spots,
                copies,
            ),
        apply_begun(
            before,
            after,
            project,
            recovery_name(recovery),
            spots,
            copies,
            now,
            result,
        ),
    ensures
        (forall|m: int|
            0 <= m < before.entries.len() && (#[trigger] before.entries[m]).recovery_id
                == recovery.id ==> is_row_as_found(
                project.root_path@,
                before.entries[m],
                spots,
            )) ==> (result matches Ok(ApplyStart::Go(r, _)) && r == recovery),
        (exists|m: int|
            0 <= m < before.entries.len() && (#[trigger] before.entries[m]).recovery_id
                == recovery.id && !is_row_as_found(
                project.root_path@,
                before.entries[m],
                spots,
            )) ==> result is Err && exists|k: int|
            0 <= k < after.recoveries.len() && (#[trigger] after.recoveries[k]).id == recovery.id
                && after.recoveries[k].status@ == "conflicted"@,
        after.entries == before.entries,
        after.events == before.events,
{
    let root = project.root_path@;
    reveal_strlit("planned");
    reveal_strlit("applied");
    assert("planned"@[0] != "applied"@[0]);
    crate::db::lemma_public_id_names_its_id("rec_"@, recovery.id);
    let at = choose|at: int| 0 <= at < before.recoveries.len() && before.recoveries[at] == recovery;
    assert forall|k: int| 0 <= k < at implies !is_recovery(recovery.id)(
        #[trigger] before.recoveries[k],
    ) by {
        assert(rows::Row::row_id(&before.recoveries[k]) < rows::Row::row_id(
            &before.recoveries[at],
        ));
    }
    rows::lemma_lookup(before.recoveries, is_recovery(recovery.id), Some(at));
    let stored = choose|stored: Seq<RecoveryEntry>|
        {
            &&& #[trigger] are_entries(before.entries, recovery.id, stored)
            &&& crate::recovery_apply::plan_checked(
                before,
                after,
                root,
                recovery,
                stored,
                spots,
                copies,
                now,
                result,
            )
        };
    assert forall|k: int| 0 <= k < stored.len() implies can_be_done(
        root,
        #[trigger] stored[k],
        spots,
        copies,
    ) by {
        assert(before.entries.contains(stored[k]));
        let m = choose|m: int| 0 <= m < before.entries.len() && before.entries[m] == stored[k];
        assert(before.entries[m].recovery_id == recovery.id);
    }
    lemma_changed(root, stored, spots, copies, now);
    if exists|m: int|
        0 <= m < before.entries.len() && (#[trigger] before.entries[m]).recovery_id == recovery.id
            && !is_row_as_found(root, before.entries[m], spots) {
        let m = choose|m: int|
            0 <= m < before.entries.len() && (#[trigger] before.entries[m]).recovery_id
                == recovery.id && !is_row_as_found(root, before.entries[m], spots);
        assert(stored.contains(before.entries[m]));
        let k = choose|k: int| 0 <= k < stored.len() && stored[k] == before.entries[m];
        assert(!is_row_as_found(root, stored[k], spots));
        assert(after.recoveries[at].id == recovery.id);
    } else {
        assert forall|k: int| 0 <= k < stored.len() implies is_row_as_found(
            root,
            #[trigger] stored[k],
            spots,
        ) by {
            assert(before.entries.contains(stored[k]));
            let m = choose|m: int| 0 <= m < before.entries.len() && before.entries[m] == stored[k];
            assert(before.entries[m].recovery_id == recovery.id);
        }
    }
}

} // verus!
