//! Comparing a file with a version of it that was saved.
use vstd::prelude::*;
use vstd::string::*;

use crate::clock;
use crate::db::checkpoints::is_checkpoint_by_ref;
use crate::db::events::{at_path, is_deletion};
use crate::db::{Database, Tables};
use crate::diff;
use crate::duration;
use crate::error::Error;
use crate::models::{Checkpoint, FileEvent};
use crate::number;
use crate::restore;
use crate::restore::{best_source, RestoreKind};
use crate::rows;
use crate::rows::Order;
use crate::split;
use crate::style::{BOLD, RESET};
use crate::text;

verus! {

// ── which version ───────────────────────────────────────────────────

/// A saved version to compare with.
#[derive(Debug)]
pub struct DiffSelection {
    pub hash: String,
    pub deleted_fallback: bool,
}

/// A saved version to compare with: what it is known by, and whether it is the
/// last one of a deleted file.
pub open spec fn selection_view(s: Option<DiffSelection>) -> Option<(Seq<char>, bool)> {
    match s {
        Some(d) => Some((d.hash@, d.deleted_fallback)),
        None => None,
    }
}

/// What the version of a change is known by: for a deletion that before it.
pub open spec fn saved_hash(e: FileEvent) -> Option<Seq<char>> {
    if is_deletion(e) {
        text::view_opt(e.previous_hash)
    } else {
        text::view_opt(e.current_hash)
    }
}

/// What the version of a change is known by.
pub fn saved_hash_for_diff<'a>(event: &'a FileEvent) -> (hash: Option<&'a str>)
    ensures
        text::view_opt_str(hash) == saved_hash(*event),
{
    let hash = if text::same(event.event_type.as_str(), "DELETED") {
        &event.previous_hash
    } else {
        &event.current_hash
    };
    match hash {
        Some(h) => Some(h.as_str()),
        None => None,
    }
}

/// The version of a change to compare with.
pub open spec fn selection_of(e: FileEvent) -> Option<(Seq<char>, bool)> {
    match saved_hash(e) {
        Some(hash) => Some((hash, is_deletion(e))),
        None => None,
    }
}

/// The version of a change to compare with.
pub fn diff_selection_from_event(event: &FileEvent) -> (selection: Option<DiffSelection>)
    ensures
        selection_view(selection) == selection_of(*event),
{
    let deleted_fallback = text::same(event.event_type.as_str(), "DELETED");
    match saved_hash_for_diff(event) {
        Some(hash) => Some(DiffSelection { hash: hash.to_owned(), deleted_fallback }),
        None => None,
    }
}

/// The version at a time to compare with.
pub open spec fn selection_at(events: Seq<FileEvent>, project_id: i64, path: Seq<char>, time: i64) -> Option<
    (Seq<char>, bool),
> {
    match best_source(events, project_id, path, time) {
        Some(s) => Some((s.hash, s.kind == RestoreKind::DeletedFallback)),
        None => None,
    }
}

/// The version at a time to compare with.
pub fn diff_selection_at_time(db: &Database, project_id: i64, path: &str, target_time: i64) -> (result:
    Result<Option<DiffSelection>, Error>)
    requires
        db@.wf(),
    ensures
        result matches Ok(selection) && selection_view(selection) == selection_at(
            db@.events,
            project_id,
            path@,
            target_time,
        ),
{
    match restore::resolve_restore_source(db, project_id, path, target_time)? {
        Some(source) => {
            let deleted_fallback = source.kind == RestoreKind::DeletedFallback;
            Ok(Some(DiffSelection { hash: source.hash, deleted_fallback }))
        },
        None => Ok(None),
    }
}

/// Whether a result is the version to compare with: that of a time so long ago,
/// that of a checkpoint, or else the newest.
pub open spec fn is_selection(
    t: Tables,
    project_id: i64,
    path: Seq<char>,
    duration: Option<Seq<char>>,
    checkpoint: Option<Seq<char>>,
    now: i64,
    result: Result<Option<DiffSelection>, Error>,
) -> bool {
    if duration is Some && checkpoint is Some {
        result matches Err(e) && e@ == "use either a duration or --checkpoint, not both"@
    } else if duration is Some {
        match duration::duration_of(duration->0) {
            Err(said) => result matches Err(e) && e@ == said,
            Ok(seconds) => result matches Ok(s) && selection_view(s) == selection_at(
                t.events,
                project_id,
                path,
                clock::clamp(now - seconds) as i64,
            ),
        }
    } else if checkpoint is Some {
        exists|found: Result<Option<Checkpoint>, Error>|
            {
                &&& #[trigger] is_checkpoint_by_ref(t, project_id, checkpoint->0, found)
                &&& match found {
                    Err(e) => result matches Err(x) && x == e,
                    Ok(None) => result matches Err(e) && e@ == "checkpoint '"@ + checkpoint->0
                        + "' not found"@,
                    Ok(Some(c)) => result matches Ok(s) && selection_view(s) == selection_at(
                        t.events,
                        project_id,
                        path,
                        c.timestamp,
                    ),
                }
            }
    } else {
        result matches Ok(s) && selection_view(s) == match rows::pick(
            t.events,
            Order::Newest,
            at_path(project_id, path),
        ) {
            Some(e) => selection_of(e),
            None => None,
        }
    }
}

/// The version to compare with, at a time.
pub fn diff_selection_now(
    db: &Database,
    project_id: i64,
    path: &str,
    duration: Option<&str>,
    checkpoint: Option<&str>,
    now: i64,
) -> (result: Result<Option<DiffSelection>, Error>)
    requires
        db@.wf(),
    ensures
        is_selection(
            db@,
            project_id,
            path@,
            text::view_opt_str(duration),
            text::view_opt_str(checkpoint),
            now,
            result,
        ),
{
    if duration.is_some() && checkpoint.is_some() {
        return Err(
            Error::new("use either a duration or --checkpoint, not both".to_owned()),
        );
    }
    if let Some(duration) = duration {
        return match duration::parse_duration(duration) {
            Err(e) => Err(e),
            Ok(seconds) => diff_selection_at_time(
                db,
                project_id,
                path,
                clock::earlier(now, seconds),
            ),
        };
    }
    if let Some(name) = checkpoint {
        let found = db.get_checkpoint_by_ref(project_id, name);
        let ghost seen = found;
        assert(text::view_opt_str(checkpoint)->0 == name@);
        assert(is_checkpoint_by_ref(
            db@,
            project_id,
            text::view_opt_str(checkpoint)->0,
            seen,
        ));
        return match found {
            Err(e) => Err(e),
            Ok(None) => Err(Error::new(text::cat3("checkpoint '", name, "' not found"))),
            Ok(Some(c)) => diff_selection_at_time(db, project_id, path, c.timestamp),
        };
    }
    let newest = db.get_latest_event(project_id, path)?;
    proof {
        rows::lemma_pick(db@.events, Order::Newest, at_path(project_id, path@), newest);
    }
    match newest {
        Some(event) => Ok(diff_selection_from_event(&event)),
        None => Ok(None),
    }
}

/// The version to compare with now.
pub fn diff_selection(
    db: &Database,
    project_id: i64,
    path: &str,
    duration: Option<&str>,
    checkpoint: Option<&str>,
) -> (result: Result<Option<DiffSelection>, Error>)
    requires
        db@.wf(),
    ensures
        exists|now: i64|
            #[trigger] is_selection(
                db@,
                project_id,
                path@,
                text::view_opt_str(duration),
                text::view_opt_str(checkpoint),
                now,
                result,
            ),
{
    let now = clock::unix_now();
    diff_selection_now(db, project_id, path, duration, checkpoint, now)
}

// ── what is shown ───────────────────────────────────────────────────

/// A text in quotes, with what cannot stand in them escaped.
pub uninterp spec fn quoted(s: Seq<char>) -> Seq<char>;

/// A text in quotes, as std's `Debug` for `str` writes it. The result depends on
/// the text alone; how each character is escaped is left unsaid.
#[verifier::external_body]
pub(crate) fn quote(s: &str) -> (out: String)
    ensures
        out@ == quoted(s@),
{
    format!("{:?}", s)
}

/// The file as it is now.
#[derive(Debug)]
pub enum CurrentFile {
    Missing,
    TooLarge,
    Content(Vec<u8>),
}

/// Lines with a space before each.
pub open spec fn indented(lines: Seq<Seq<char>>) -> Seq<char>
    decreases lines.len(),
{
    if lines.len() == 0 {
        Seq::empty()
    } else {
        indented(lines.drop_last()) + " "@ + lines.last() + "\n"@
    }
}

/// The difference that is shown, from the lines of two texts.
pub open spec fn difference(
    old_text: Seq<char>,
    new_text: Seq<char>,
    rel: Seq<char>,
    summary: bool,
    stat: bool,
) -> Seq<char> {
    let signs = diff::line_diff(old_text, new_text);
    let head = if summary || stat {
        diff::stats_line(
            rel,
            diff::sign_count(signs, '+') as int,
            diff::sign_count(signs, '-') as int,
        ) + "\n"@
    } else {
        Seq::empty()
    };
    if summary {
        head
    } else {
        head + diff::shown_diff(
            diff::line_groups(old_text, new_text, diff::CONTEXT_LINES),
            rel,
            "selected saved"@,
            "current"@,
        )
    }
}

/// What is shown of a saved version and the file as it is now.
pub open spec fn comparison(
    saved: Seq<u8>,
    deleted_fallback: bool,
    current: CurrentFile,
    path_str: Seq<char>,
    rel: Seq<char>,
    limit: int,
    summary: bool,
    stat: bool,
) -> Seq<char> {
    if diff::binary(saved) {
        "The selected saved version is binary, so a text comparison is not available.\n"@
    } else {
        match current {
            CurrentFile::Missing => if deleted_fallback {
                "This file is deleted. Recover it with:\n  "@ + BOLD@ + "undo restore-deleted "@
                    + quoted(path_str) + RESET@ + "\n"@
            } else {
                "The current file is missing. Showing the selected saved version.\n\n"@ + indented(
                    split::lines(diff::rendered(saved)),
                )
            },
            CurrentFile::TooLarge => "Current file is larger than "@ + number::decimal(limit)
                + " bytes, so Undo will not compare it.\n"@,
            CurrentFile::Content(now) => if diff::binary(now@) {
                "The current file is binary, so a text comparison is not available.\n"@
            } else if saved == now@ {
                "The current file matches the selected saved version.\n"@
            } else {
                let pair = diff::rendered_pair(saved, now@);
                difference(pair.0, pair.1, rel, summary, stat)
            },
        }
    }
}

/// Lines with a space before each.
fn indent(lines: &Vec<String>) -> (out: String)
    ensures
        out@ == indented(text::views(lines@)),
{
    let ghost all = text::views(lines@);
    let mut out = String::new();
    let mut i: usize = 0;
    proof {
        assert(all.take(0) =~= Seq::empty());
    }
    while i < lines.len()
        invariant
            i <= lines.len(),
            all == text::views(lines@),
            out@ == indented(all.take(i as int)),
        decreases lines.len() - i,
    {
        proof {
            assert(all.take(i + 1).drop_last() =~= all.take(i as int));
            assert(all.take(i + 1).last() == lines@[i as int]@);
        }
        out.append(" ");
        out.append(lines[i].as_str());
        out.append("\n");
        i += 1;
    }
    proof {
        assert(all.take(i as int) =~= all);
    }
    out
}

/// What is shown of the saved version that was selected, where there is one, and
/// the file as it is now.
pub fn cmd_diff(
    saved: Option<&Vec<u8>>,
    deleted_fallback: bool,
    current: &CurrentFile,
    path_str: &str,
    rel: &str,
    limit: usize,
    summary: bool,
    stat: bool,
) -> (out: String)
    ensures
        out@ == match saved {
            Some(saved) => comparison(
                saved@,
                deleted_fallback,
                *current,
                path_str@,
                rel@,
                limit as int,
                summary,
                stat,
            ),
            None => "No saved version matches this selection.\n"@,
        },
{
    let saved = match saved {
        Some(saved) => saved,
        None => {
            return "No saved version matches this selection.\n".to_owned();
        },
    };
    if diff::is_binary(saved.as_slice()) {
        return "The selected saved version is binary, so a text comparison is not available.\n".to_owned();
    }
    match current {
        CurrentFile::Missing => {
            if deleted_fallback {
                let mut out = text::cat5(
                    "This file is deleted. Recover it with:\n  ",
                    BOLD,
                    "undo restore-deleted ",
                    quote(path_str).as_str(),
                    RESET,
                );
                out.append("\n");
                return out;
            }
            let shown = diff::render_bytes(saved.as_slice());
            let lines = split::split_lines(shown.as_str());
            text::cat(
                "The current file is missing. Showing the selected saved version.\n\n",
                indent(&lines).as_str(),
            )
        },
        CurrentFile::TooLarge => text::cat3(
            "Current file is larger than ",
            number::count_text(limit).as_str(),
            " bytes, so Undo will not compare it.\n",
        ),
        CurrentFile::Content(now) => {
            if diff::is_binary(now.as_slice()) {
                return "The current file is binary, so a text comparison is not available.\n".to_owned();
            }
            if diff::same_bytes(saved.as_slice(), now.as_slice()) {
                return "The current file matches the selected saved version.\n".to_owned();
            }
            let (old_text, new_text) = diff::render_bytes_for_diff(
                saved.as_slice(),
                now.as_slice(),
            );
            let mut out = String::new();
            proof {
                assert(out@ =~= Seq::empty());
            }
            if summary || stat {
                out = diff::print_diff_stats(old_text.as_str(), new_text.as_str(), rel);
                out.append("\n");
            }
            if !summary {
                let body = diff::print_unified_diff_with_labels(
                    old_text.as_str(),
                    new_text.as_str(),
                    rel,
                    "selected saved",
                    "current",
                );
                out.append(body.as_str());
            }
            out
        },
    }
}

} // verus!
