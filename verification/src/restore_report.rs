//! What is shown of a restore plan, and what is checked before one is carried
//! out.
use vstd::prelude::*;
use vstd::string::*;

use crate::clock;
use crate::diff;
use crate::duration;
use crate::error::Error;
use crate::hex;
use crate::number;
use crate::restore::{
    entries_view, ActionView, EntryView, RestoreAction, RestoreKind, RestorePlan,
    RestorePlanEntry, SourceView,
};
use crate::restore_fs;
use crate::restore_fs::{leaf_at, leaf_problem, read_at, CappedRead, Spot};
use crate::style::{BOLD, GREEN, RED, RESET, YELLOW};
use crate::text;

verus! {

// ── checks ──────────────────────────────────────────────────────────

/// The state of a file: whether it is there, and what its contents are known
/// by. Else why that cannot be told.
pub open spec fn current_state(read: CappedRead, path: Seq<char>) -> Result<
    (bool, Option<Seq<char>>),
    Seq<char>,
> {
    match read {
        CappedRead::Missing => Ok((false, None)),
        CappedRead::TooLarge => Err(path + " exceeds Undo's snapshot limit"@),
        CappedRead::Content(content) => Ok((true, Some(hex::content_hash(content@)))),
        CappedRead::Failed(said) => Err(said@),
    }
}

/// The state of a file.
pub fn state_of(read: &CappedRead, path: &str) -> (result: Result<(bool, Option<String>), Error>)
    ensures
        match current_state(*read, path@) {
            Ok(state) => result matches Ok(r) && r.0 == state.0 && text::view_opt(r.1) == state.1,
            Err(said) => result matches Err(e) && e@ == said,
        },
{
    match read {
        CappedRead::Missing => Ok((false, None)),
        CappedRead::TooLarge => Err(
            Error::new(text::cat(path, " exceeds Undo's snapshot limit")),
        ),
        CappedRead::Content(content) => Ok((true, Some(hex::hash_bytes(content.as_slice())))),
        CappedRead::Failed(said) => Err(Error::new(said.clone())),
    }
}

/// What keeps an entry from being carried out on what is there, if anything
/// does.
pub open spec fn state_problem(entry: EntryView, read: CappedRead) -> Option<Seq<char>> {
    match entry.expected {
        None => None,
        Some(expected) => match current_state(read, entry.rel_path) {
            Err(said) => Some(said),
            Ok(state) => if state == expected {
                None
            } else {
                Some(
                    "Restore stopped because "@ + entry.rel_path
                        + " changed after the recovery plan was created."@,
                )
            },
        },
    }
}

/// Tells whether an entry can be carried out on what is there.
pub fn ensure_expected_state(entry: &RestorePlanEntry, read: &CappedRead) -> (result: Result<
    (),
    Error,
>)
    ensures
        match state_problem(entry@, *read) {
            None => result is Ok,
            Some(said) => result matches Err(e) && e@ == said,
        },
{
    let expected = match &entry.expected_current {
        None => {
            return Ok(());
        },
        Some(expected) => expected,
    };
    match state_of(read, entry.rel_path.as_str()) {
        Err(e) => Err(e),
        Ok((there, hash)) => if there != expected.exists || !text::same_opt(
            &hash,
            &expected.hash,
        ) {
            Err(
                Error::new(
                    text::cat3(
                        "Restore stopped because ",
                        entry.rel_path.as_str(),
                        " changed after the recovery plan was created.",
                    ),
                ),
            )
        } else {
            Ok(())
        },
    }
}

/// What keeps a plan from being carried out, if anything does: the first entry
/// whose file cannot be put back or is not as expected.
pub open spec fn plan_problem(entries: Seq<EntryView>, spots: Seq<Spot>) -> Option<Seq<char>>
    decreases entries.len(),
{
    if entries.len() == 0 {
        None
    } else {
        match plan_problem(entries.drop_last(), spots) {
            Some(said) => Some(said),
            None => {
                let e = entries.last();
                match leaf_problem(leaf_at(spots, e.path), e.path) {
                    Some(said) => Some(said),
                    None => state_problem(e, read_at(spots, e.path)),
                }
            },
        }
    }
}

/// A problem with the first entries is one with all.
proof fn lemma_plan_problem(entries: Seq<EntryView>, spots: Seq<Spot>, n: int)
    requires
        0 <= n <= entries.len(),
        plan_problem(entries.take(n), spots) is Some,
    ensures
        plan_problem(entries, spots) == plan_problem(entries.take(n), spots),
    decreases entries.len() - n,
{
    if n < entries.len() {
        assert(entries.take(n + 1).drop_last() =~= entries.take(n));
        lemma_plan_problem(entries, spots, n + 1);
    } else {
        assert(entries.take(n) =~= entries);
    }
}

/// Tells whether a plan can be carried out on what is found, before the first
/// file is changed.
pub fn check_plan(plan: &RestorePlan, spots: &Vec<Spot>) -> (result: Result<(), Error>)
    ensures
        match plan_problem(entries_view(plan.entries@), spots@) {
            None => result is Ok,
            Some(said) => result matches Err(e) && e@ == said,
        },
{
    let ghost all = entries_view(plan.entries@);
    let none = CappedRead::Missing;
    let mut i: usize = 0;
    proof {
        assert(all.take(0) =~= Seq::empty());
    }
    while i < plan.entries.len()
        invariant
            i <= plan.entries.len(),
            all == entries_view(plan.entries@),
            none is Missing,
            plan_problem(all.take(i as int), spots@) is None,
        decreases plan.entries.len() - i,
    {
        let entry = &plan.entries[i];
        proof {
            assert(all.take(i + 1).drop_last() =~= all.take(i as int));
            assert(all.take(i + 1).last() == plan.entries@[i as int]@);
        }
        let leaf = restore_fs::find_leaf(spots, entry.path.relative());
        let read = match restore_fs::find_spot(spots, entry.path.relative()) {
            Some(k) => &spots[k].read,
            None => &none,
        };
        assert(*read == read_at(spots@, entry.path@));
        match restore_fs::validate(&entry.path, leaf) {
            Err(e) => {
                proof {
                    lemma_plan_problem(all, spots@, i + 1);
                }
                return Err(e);
            },
            Ok(_) => {},
        }
        match ensure_expected_state(entry, read) {
            Err(e) => {
                proof {
                    lemma_plan_problem(all, spots@, i + 1);
                }
                return Err(e);
            },
            Ok(_) => {},
        }
        i += 1;
    }
    proof {
        assert(all.take(i as int) =~= all);
    }
    Ok(())
}

/// What is said where a plan changes several files and nobody agreed.
pub open spec fn consent_text(n: int) -> Seq<char> {
    "No files changed: this restore would change "@ + number::decimal(n)
        + " files.\nPreview first, then rerun with --yes to give Undo permission to change them."@
}

/// Tells whether a plan may be carried out: one that changes several files needs
/// somebody to agree.
pub fn apply_restore_plan(plan: &RestorePlan, yes: bool) -> (result: Result<(), Error>)
    ensures
        if plan.entries@.len() > 1 && !yes {
            result matches Err(e) && e@ == consent_text(plan.entries@.len() as int)
        } else {
            result is Ok
        },
{
    if plan.entries.len() > 1 && !yes {
        return Err(
            Error::new(
                text::cat3(
                    "No files changed: this restore would change ",
                    number::count_text(plan.entries.len()).as_str(),
                    " files.\nPreview first, then rerun with --yes to give Undo permission to change them.",
                ),
            ),
        );
    }
    Ok(())
}

/// How a restore goes on once its plan is made.
#[derive(Debug)]
pub enum RestoreStep {
    /// There is nothing to restore, and what is said of it.
    Nothing(Vec<String>),
    /// The plan is shown.
    Show,
    /// The plan is carried out.
    Apply,
}

/// What is said where a plan has nothing in it.
pub open spec fn nothing_lines() -> Seq<Seq<char>> {
    seq![
        "No saved version matches this restore target."@,
        "For a deleted file, try: undo restore-deleted <path>"@,
    ]
}

/// How a restore goes on once its plan is made: a plan for several files is
/// carried out only with consent.
pub fn next_restore_step(plan: &RestorePlan, preview: bool, yes: bool) -> (result: Result<
    RestoreStep,
    Error,
>)
    ensures
        if plan.entries@.len() == 0 {
            result matches Ok(RestoreStep::Nothing(lines)) && text::views(lines@) == nothing_lines()
        } else if preview {
            result matches Ok(RestoreStep::Show)
        } else if plan.entries@.len() > 1 && !yes {
            result matches Err(e) && e@ == consent_text(plan.entries@.len() as int)
        } else {
            result matches Ok(RestoreStep::Apply)
        },
{
    if plan.entries.len() == 0 {
        let mut lines: Vec<String> = Vec::new();
        text::add_line(&mut lines, "No saved version matches this restore target.".to_owned());
        text::add_line(
            &mut lines,
            "For a deleted file, try: undo restore-deleted <path>".to_owned(),
        );
        proof {
            assert(text::views(lines@) =~= nothing_lines());
        }
        return Ok(RestoreStep::Nothing(lines));
    }
    if preview {
        return Ok(RestoreStep::Show);
    }
    apply_restore_plan(plan, yes)?;
    Ok(RestoreStep::Apply)
}

/// What is said where a deleted file has no saved version.
pub open spec fn no_deleted_lines() -> Seq<Seq<char>> {
    seq![
        "No saved version is available for this deleted file."@,
        "List recoverable files with: undo deleted"@,
    ]
}

/// How the restore of a deleted file goes on, by whether there is a plan for it.
pub fn restore_deleted(planned: bool, preview: bool) -> (step: RestoreStep)
    ensures
        if !planned {
            step matches RestoreStep::Nothing(lines) && text::views(lines@) == no_deleted_lines()
        } else if preview {
            step is Show
        } else {
            step is Apply
        },
{
    if !planned {
        let mut lines: Vec<String> = Vec::new();
        text::add_line(
            &mut lines,
            "No saved version is available for this deleted file.".to_owned(),
        );
        text::add_line(&mut lines, "List recoverable files with: undo deleted".to_owned());
        proof {
            assert(text::views(lines@) =~= no_deleted_lines());
        }
        return RestoreStep::Nothing(lines);
    }
    if preview {
        RestoreStep::Show
    } else {
        RestoreStep::Apply
    }
}

// ── preview ─────────────────────────────────────────────────────────

/// What is known of the file of an entry: what is there, and what would be.
#[derive(Debug)]
pub struct Preview {
    pub current: CappedRead,
    pub restored: Vec<u8>,
}

/// How an entry would change its file.
pub open spec fn change_text(entry: EntryView, preview: Preview) -> Result<Seq<char>, Seq<char>> {
    match preview.current {
        CappedRead::Failed(said) => Err(said@),
        CappedRead::TooLarge => Ok("  Current file is too large to preview.\n"@),
        CappedRead::Missing => Ok(
            match entry.action {
                ActionView::Write(_) => "  File does not exist now; restore would recreate it.\n"@,
                ActionView::Delete => "  File is already absent.\n"@,
            },
        ),
        CappedRead::Content(current) => Ok(
            match entry.action {
                ActionView::Write(_) => diff::bytes_diff(
                    current@,
                    preview.restored@,
                    entry.rel_path,
                    "current"@,
                    "restored"@,
                ),
                ActionView::Delete => diff::bytes_diff(
                    current@,
                    Seq::empty(),
                    entry.rel_path,
                    "current"@,
                    "deleted"@,
                ),
            },
        ),
    }
}

/// What an entry would do.
pub open spec fn entry_text(entry: EntryView, now: i64) -> Seq<char> {
    match entry.action {
        ActionView::Write(source) => GREEN@ + "Would restore"@ + RESET@ + " "@ + entry.rel_path
            + " to the version saved "@ + duration::elapsed(clock::clamp(now - source.timestamp))
            + ".\n"@,
        ActionView::Delete => RED@ + "Would delete"@ + RESET@ + " "@ + entry.rel_path
            + " because it was created after the target time.\n"@,
    }
}

/// What the entries of a plan would do.
pub open spec fn entries_text(entries: Seq<EntryView>, previews: Seq<Preview>, now: i64) -> Result<
    Seq<char>,
    Seq<char>,
>
    decreases entries.len(),
{
    if entries.len() == 0 || previews.len() != entries.len() {
        Ok(Seq::empty())
    } else {
        match entries_text(entries.drop_last(), previews.drop_last(), now) {
            Err(e) => Err(e),
            Ok(before) => match change_text(entries.last(), previews.last()) {
                Err(e) => Err(e),
                Ok(change) => Ok(before + entry_text(entries.last(), now) + change + "\n"@),
            },
        }
    }
}

/// How many entries write a file.
pub open spec fn write_count(entries: Seq<EntryView>) -> nat
    decreases entries.len(),
{
    if entries.len() == 0 {
        0
    } else {
        write_count(entries.drop_last()) + if entries.last().action is Write {
            1nat
        } else {
            0nat
        }
    }
}

/// One word or another, by a number.
pub open spec fn by_number(n: int, one: Seq<char>, more: Seq<char>) -> Seq<char> {
    if n == 1 {
        one
    } else {
        more
    }
}

/// The first lines of a preview.
pub open spec fn preview_head(label: Seq<char>, n: int, writes: int) -> Seq<char> {
    BOLD@ + "Preview for "@ + label + ": "@ + number::decimal(n) + " "@ + by_number(
        n,
        "file change"@,
        "file changes"@,
    ) + "."@ + RESET@ + "\nNo files changed.\nWould restore "@ + number::decimal(writes) + " "@
        + by_number(writes, "file"@, "files"@) + " and delete "@ + number::decimal(n - writes)
        + " "@ + by_number(n - writes, "file"@, "files"@) + ".\n\n"@
}

/// What keeps a plan from being shown, if anything does.
pub open spec fn leaf_problems(entries: Seq<EntryView>, spots: Seq<Spot>) -> Option<Seq<char>>
    decreases entries.len(),
{
    if entries.len() == 0 {
        None
    } else {
        match leaf_problems(entries.drop_last(), spots) {
            Some(said) => Some(said),
            None => leaf_problem(leaf_at(spots, entries.last().path), entries.last().path),
        }
    }
}

/// Whether a result is what a plan would do, for people to read.
pub open spec fn is_preview(
    entries: Seq<EntryView>,
    label: Seq<char>,
    spots: Seq<Spot>,
    previews: Seq<Preview>,
    now: i64,
    result: Result<String, Error>,
) -> bool {
    match leaf_problems(entries, spots) {
        Some(said) => result matches Err(e) && e@ == said,
        None => match entries_text(entries, previews, now) {
            Err(said) => result matches Err(e) && e@ == said,
            Ok(body) => result matches Ok(out) && out@ == preview_head(
                label,
                entries.len() as int,
                write_count(entries) as int,
            ) + body,
        },
    }
}

/// A problem with the first files is one with all.
proof fn lemma_leaf_problems(entries: Seq<EntryView>, spots: Seq<Spot>, n: int)
    requires
        0 <= n <= entries.len(),
        leaf_problems(entries.take(n), spots) is Some,
    ensures
        leaf_problems(entries, spots) == leaf_problems(entries.take(n), spots),
    decreases entries.len() - n,
{
    if n < entries.len() {
        assert(entries.take(n + 1).drop_last() =~= entries.take(n));
        lemma_leaf_problems(entries, spots, n + 1);
    } else {
        assert(entries.take(n) =~= entries);
    }
}

/// An error with the first entries is one with all.
proof fn lemma_entries_text(entries: Seq<EntryView>, previews: Seq<Preview>, now: i64, n: int)
    requires
        0 <= n <= entries.len(),
        previews.len() == entries.len(),
        entries_text(entries.take(n), previews.take(n), now) is Err,
    ensures
        entries_text(entries, previews, now) == entries_text(
            entries.take(n),
            previews.take(n),
            now,
        ),
    decreases entries.len() - n,
{
    if n < entries.len() {
        assert(entries.take(n + 1).drop_last() =~= entries.take(n));
        assert(previews.take(n + 1).drop_last() =~= previews.take(n));
        lemma_entries_text(entries, previews, now, n + 1);
    } else {
        assert(entries.take(n) =~= entries);
        assert(previews.take(n) =~= previews);
    }
}

/// How an entry would change its file.
fn show_change(entry: &RestorePlanEntry, preview: &Preview) -> (result: Result<String, Error>)
    ensures
        match change_text(entry@, *preview) {
            Ok(change) => result matches Ok(out) && out@ == change,
            Err(said) => result matches Err(e) && e@ == said,
        },
{
    let write = match &entry.action {
        RestoreAction::Write { source } => true,
        RestoreAction::DeleteCreatedAfterTarget => false,
    };
    match &preview.current {
        CappedRead::Failed(said) => Err(Error::new(said.clone())),
        CappedRead::TooLarge => Ok("  Current file is too large to preview.\n".to_owned()),
        CappedRead::Missing => if write {
            Ok("  File does not exist now; restore would recreate it.\n".to_owned())
        } else {
            Ok("  File is already absent.\n".to_owned())
        },
        CappedRead::Content(current) => if write {
            Ok(
                diff::print_bytes_diff(
                    current.as_slice(),
                    preview.restored.as_slice(),
                    entry.rel_path.as_str(),
                    "current",
                    "restored",
                ),
            )
        } else {
            let empty: Vec<u8> = Vec::new();
            proof {
                assert(empty@ =~= Seq::<u8>::empty());
            }
            Ok(
                diff::print_bytes_diff(
                    current.as_slice(),
                    empty.as_slice(),
                    entry.rel_path.as_str(),
                    "current",
                    "deleted",
                ),
            )
        },
    }
}

/// What an entry would do.
fn show_entry(entry: &RestorePlanEntry, now: i64) -> (out: String)
    ensures
        out@ == entry_text(entry@, now),
{
    match &entry.action {
        RestoreAction::Write { source } => {
            let mut out = text::cat5(GREEN, "Would restore", RESET, " ", entry.rel_path.as_str());
            out.append(" to the version saved ");
            out.append(
                duration::format_elapsed(clock::earlier(now, source.timestamp)).as_str(),
            );
            out.append(".\n");
            out
        },
        RestoreAction::DeleteCreatedAfterTarget => {
            let mut out = text::cat5(RED, "Would delete", RESET, " ", entry.rel_path.as_str());
            out.append(" because it was created after the target time.\n");
            out
        },
    }
}

/// One word or another, by a number.
fn pick_word(n: usize, one: &'static str, more: &'static str) -> (word: &'static str)
    ensures
        word@ == by_number(n as int, one@, more@),
{
    if n == 1 {
        one
    } else {
        more
    }
}

/// What a plan would do, for people to read, by what is found at its files.
pub fn print_restore_plan(
    plan: &RestorePlan,
    label: &str,
    spots: &Vec<Spot>,
    previews: &Vec<Preview>,
    now: i64,
) -> (result: Result<String, Error>)
    requires
        previews@.len() == plan.entries@.len(),
    ensures
        is_preview(entries_view(plan.entries@), label@, spots@, previews@, now, result),
{
    let ghost all = entries_view(plan.entries@);
    let n: usize = plan.entries.len();
    let mut writes: usize = 0;
    let mut i: usize = 0;
    proof {
        assert(all.take(0) =~= Seq::empty());
    }
    while i < n
        invariant
            i <= n == plan.entries.len(),
            all == entries_view(plan.entries@),
            writes <= i,
            writes == write_count(all.take(i as int)),
            leaf_problems(all.take(i as int), spots@) is None,
        decreases n - i,
    {
        let entry = &plan.entries[i];
        proof {
            assert(all.take(i + 1).drop_last() =~= all.take(i as int));
            assert(all.take(i + 1).last() == plan.entries@[i as int]@);
        }
        let leaf = restore_fs::find_leaf(spots, entry.path.relative());
        match restore_fs::validate(&entry.path, leaf) {
            Err(e) => {
                proof {
                    lemma_leaf_problems(all, spots@, i + 1);
                }
                return Err(e);
            },
            Ok(_) => {},
        }
        match &entry.action {
            RestoreAction::Write { source } => {
                writes += 1;
            },
            RestoreAction::DeleteCreatedAfterTarget => {},
        }
        i += 1;
    }
    proof {
        assert(all.take(n as int) =~= all);
    }
    let deletes: usize = n - writes;
    let mut out = text::cat5(
        BOLD,
        "Preview for ",
        label,
        ": ",
        number::count_text(n).as_str(),
    );
    out.append(" ");
    out.append(pick_word(n, "file change", "file changes"));
    out.append(".");
    out.append(RESET);
    out.append("\nNo files changed.\nWould restore ");
    out.append(number::count_text(writes).as_str());
    out.append(" ");
    out.append(pick_word(writes, "file", "files"));
    out.append(" and delete ");
    out.append(number::count_text(deletes).as_str());
    out.append(" ");
    out.append(pick_word(deletes, "file", "files"));
    out.append(".\n\n");
    let mut body = String::new();
    let mut i: usize = 0;
    proof {
        assert(all.take(0) =~= Seq::empty());
        assert(body@ =~= Seq::empty());
    }
    while i < n
        invariant
            i <= n == plan.entries.len(),
            previews@.len() == n,
            all == entries_view(plan.entries@),
            leaf_problems(all, spots@) is None,
            entries_text(all.take(i as int), previews@.take(i as int), now) == Ok::<
                Seq<char>,
                Seq<char>,
            >(body@),
        decreases n - i,
    {
        proof {
            assert(all.take(i + 1).drop_last() =~= all.take(i as int));
            assert(all.take(i + 1).last() == plan.entries@[i as int]@);
            assert(previews@.take(i + 1).drop_last() =~= previews@.take(i as int));
            assert(previews@.take(i + 1).last() == previews@[i as int]);
        }
        let change = match show_change(&plan.entries[i], &previews[i]) {
            Err(e) => {
                proof {
                    lemma_entries_text(all, previews@, now, i + 1);
                }
                return Err(e);
            },
            Ok(change) => change,
        };
        body.append(show_entry(&plan.entries[i], now).as_str());
        body.append(change.as_str());
        body.append("\n");
        i += 1;
    }
    proof {
        assert(all.take(n as int) =~= all);
        assert(previews@.take(n as int) =~= previews@);
    }
    out.append(body.as_str());
    Ok(out)
}

// ── carrying out ────────────────────────────────────────────────────

/// What is said before a version is written that is not the one asked for.
pub open spec fn fallback_text(source: SourceView, now: i64) -> Option<Seq<char>> {
    let age = duration::elapsed(clock::clamp(now - source.timestamp));
    match source.kind {
        RestoreKind::Exact => None,
        RestoreKind::OldestFallback => Some(
            "No saved version that far back. Using the earliest one available (from "@ + age
                + ")."@,
        ),
        RestoreKind::DeletedFallback => Some(
            "File was deleted "@ + age + " — restoring its last recorded contents."@,
        ),
    }
}

/// What is said before a version is written that is not the one asked for.
pub fn fallback_notice(kind: RestoreKind, timestamp: i64, now: i64) -> (said: Option<String>)
    ensures
        forall|hash: Seq<char>|
            text::view_opt(said) == #[trigger] fallback_text(
                SourceView { hash, timestamp, kind },
                now,
            ),
{
    let age = duration::format_elapsed(clock::earlier(now, timestamp));
    match kind {
        RestoreKind::Exact => None,
        RestoreKind::OldestFallback => Some(
            text::cat3(
                "No saved version that far back. Using the earliest one available (from ",
                age.as_str(),
                ").",
            ),
        ),
        RestoreKind::DeletedFallback => Some(
            text::cat3(
                "File was deleted ",
                age.as_str(),
                " — restoring its last recorded contents.",
            ),
        ),
    }
}

/// What is said of a file that was restored, and of what it held before.
pub open spec fn written_lines(
    rel_path: Seq<char>,
    timestamp: i64,
    now: i64,
    backup: Option<Seq<char>>,
) -> Seq<Seq<char>> {
    let first = GREEN@ + "Restored"@ + RESET@ + " "@ + rel_path + " from the version saved "@
        + duration::elapsed(clock::clamp(now - timestamp)) + "."@;
    match backup {
        Some(path) => seq![first, "Previous file saved at: "@ + path],
        None => seq![first],
    }
}

/// What is said of a file that was restored, and of what it held before.
pub fn written_notice(rel_path: &str, timestamp: i64, now: i64, backup: Option<&str>) -> (lines: Vec<
    String,
>)
    ensures
        text::views(lines@) == written_lines(
            rel_path@,
            timestamp,
            now,
            text::view_opt_str(backup),
        ),
{
    let mut said = text::cat5(GREEN, "Restored", RESET, " ", rel_path);
    said.append(" from the version saved ");
    said.append(duration::format_elapsed(clock::earlier(now, timestamp)).as_str());
    said.append(".");
    let mut lines: Vec<String> = Vec::new();
    text::add_line(&mut lines, said);
    if let Some(path) = backup {
        text::add_line(&mut lines, text::cat("Previous file saved at: ", path));
    }
    proof {
        assert(text::views(lines@) =~= written_lines(
            rel_path@,
            timestamp,
            now,
            text::view_opt_str(backup),
        ));
    }
    lines
}

/// What is said of a file that was removed.
pub fn deleted_notice(rel_path: &str, backup: &str) -> (said: String)
    ensures
        said@ == YELLOW@ + "Deleted"@ + RESET@ + " "@ + rel_path@ + " and saved a backup to "@
            + backup@ + "."@,
{
    let mut said = text::cat5(YELLOW, "Deleted", RESET, " ", rel_path);
    said.append(" and saved a backup to ");
    said.append(backup);
    said.append(".");
    said
}

} // verus!
