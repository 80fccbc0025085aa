//! Choosing what of a Run is recovered.
use vstd::prelude::*;
use vstd::string::*;

use crate::ask::{group_line, print_group};
use crate::error::Error;
use crate::groups::{all_group_paths, group_paths, groups_view, ChangeGroup, GroupView};
use crate::models::Run;
use crate::number;
use crate::sorted;
use crate::style::{BOLD, RESET};
use crate::text;

verus! {

/// Tells that a recovery may not change files without permission, where it is no
/// preview.
pub fn check_permission(preview: bool, yes: bool) -> (result: Result<(), Error>)
    ensures
        if !preview && !yes {
            result matches Err(e) && e@
                == "No files changed: recovery requires --yes.\nPreview first, then rerun with --yes to give Undo permission to change files."@
        } else {
            result is Ok
        },
{
    if !preview && !yes {
        return Err(
            Error::new(
                "No files changed: recovery requires --yes.\nPreview first, then rerun with --yes to give Undo permission to change files.".to_owned(),
            ),
        );
    }
    Ok(())
}

// ── groups ──────────────────────────────────────────────────────────

/// The ids of groups.
pub open spec fn group_ids(groups: Seq<ChangeGroup>) -> Seq<Seq<char>> {
    groups.map_values(|g: ChangeGroup| g.id@)
}

/// Whether a result is the place of the group that is asked for.
pub open spec fn is_group(
    groups: Seq<ChangeGroup>,
    requested: Seq<char>,
    result: Result<usize, Error>,
) -> bool {
    let wanted = text::lower(text::trimmed(requested));
    if wanted.len() == 0 {
        result matches Err(e) && e@ == "group id cannot be empty"@
    } else if group_ids(groups).contains(wanted) {
        result matches Ok(at) && at < groups.len() && groups[at as int].id@ == wanted && forall|
            k: int,
        |
            0 <= k < at ==> (#[trigger] groups[k]).id@ != wanted
    } else {
        result matches Err(e) && e@ == "group '"@ + wanted + "' not found. Available groups: "@
            + text::joined(group_ids(groups), ", "@)
    }
}

/// The ids of groups.
fn ids_of(groups: &Vec<ChangeGroup>) -> (ids: Vec<String>)
    ensures
        text::views(ids@) == group_ids(groups@),
{
    let said = |g: &ChangeGroup| -> (out: String)
        ensures out@ == g.id@
    { g.id.clone() };
    text::lines_for(groups, said, Ghost(|g: ChangeGroup| g.id@))
}

/// The place of the group that is asked for.
pub fn find_group(groups: &Vec<ChangeGroup>, requested: &str) -> (result: Result<usize, Error>)
    ensures
        is_group(groups@, requested@, result),
{
    let wanted = text::lowercase(text::trim(requested));
    if wanted.as_str().unicode_len() == 0 {
        return Err(Error::new("group id cannot be empty".to_owned()));
    }
    let mut i: usize = 0;
    while i < groups.len()
        invariant
            i <= groups.len(),
            forall|k: int| 0 <= k < i ==> (#[trigger] groups@[k]).id@ != wanted@,
            wanted@ == text::lower(text::trimmed(requested@)),
            wanted@.len() > 0,
        decreases groups.len() - i,
    {
        if text::same(groups[i].id.as_str(), wanted.as_str()) {
            assert(group_ids(groups@)[i as int] == wanted@);
            return Ok(i);
        }
        i += 1;
    }
    proof {
        if group_ids(groups@).contains(wanted@) {
            let k = choose|k: int|
                0 <= k < group_ids(groups@).len() && group_ids(groups@)[k] == wanted@;
            assert(groups@[k].id@ == wanted@);
        }
    }
    let ids = ids_of(groups);
    let mut said = text::cat3("group '", wanted.as_str(), "' not found. Available groups: ");
    said.append(text::join(&ids, ", ").as_str());
    Err(Error::new(said))
}

/// The lines on the groups of a Run.
pub open spec fn summary_lines(groups: Seq<GroupView>) -> Seq<Seq<char>> {
    (seq![BOLD@ + "File groups in this Run"@ + RESET@] + groups.map_values(
        |g: GroupView| group_line(g),
    )).push(""@)
}

/// The lines on the groups of a Run.
pub fn print_group_summary(groups: &Vec<ChangeGroup>) -> (lines: Vec<String>)
    ensures
        text::views(lines@) == summary_lines(groups_view(groups@)),
{
    let mut lines: Vec<String> = Vec::new();
    text::add_line(&mut lines, text::cat3(BOLD, "File groups in this Run", RESET));
    proof {
        assert(text::views(lines@) =~= seq![BOLD@ + "File groups in this Run"@ + RESET@]);
    }
    let said = |g: &ChangeGroup| -> (out: String)
        ensures out@ == group_line(g@)
    { print_group(g) };
    let part = text::lines_for(groups, said, Ghost(|g: ChangeGroup| group_line(g@)));
    proof {
        assert(text::views(part@) =~= groups_view(groups@).map_values(
            |g: GroupView| group_line(g),
        ));
    }
    text::add_lines(&mut lines, part);
    text::add_line(&mut lines, "".to_owned());
    lines
}

// ── what is recovered ───────────────────────────────────────────────

/// What of a Run is recovered.
#[derive(Debug)]
pub enum RecoverStep {
    /// Nothing, and why.
    Nothing(String),
    /// Some files.
    Files {
        /// The lines that are shown before.
        lines: Vec<String>,
        request: String,
        paths: Vec<String>,
        kind: String,
    },
}

/// Whether a result is what of a Run is recovered: the files that are named, a
/// group, or all.
pub open spec fn is_recover_step(
    session: Run,
    changes: int,
    groups: Seq<ChangeGroup>,
    group: Option<Seq<char>>,
    selected: Seq<Seq<char>>,
    result: Result<RecoverStep, Error>,
) -> bool {
    let id = "r_"@ + number::decimal(session.id as int);
    let head = "session '"@ + session.name@ + "'"@;
    if changes == 0 {
        result matches Ok(RecoverStep::Nothing(said)) && said@ == "Run "@ + id
            + " has no recorded file changes."@
    } else if groups.len() == 0 {
        result matches Ok(RecoverStep::Nothing(said)) && said@ == "Run "@ + id
            + " has no recoverable groups of file changes."@
    } else if selected.len() > 0 {
        result matches Ok(RecoverStep::Files { lines, request, paths, kind }) && lines@.len() == 0
            && request@ == head + " selected files ("@ + number::decimal(selected.len() as int)
            + ")"@ && text::views(paths@) == selected && kind@ == "files"@
    } else {
        match group {
            Some(wanted) => is_group_recovery(session, groups, wanted, result),
            None => result matches Ok(RecoverStep::Files { lines, request, paths, kind })
                && text::views(lines@) == summary_lines(groups_view(groups)) && request@ == head
                && sorted::is_sorted_set(group_paths(groups), text::views(paths@)) && kind@
                == "run"@,
        }
    }
}

/// Whether a result is the recovery of the group that is asked for.
pub open spec fn is_group_recovery(
    session: Run,
    groups: Seq<ChangeGroup>,
    wanted: Seq<char>,
    result: Result<RecoverStep, Error>,
) -> bool {
    exists|at: Result<usize, Error>|
        #[trigger] is_group(groups, wanted, at) && is_group_step(session, groups, at, result)
}

/// Whether a result is the recovery of the group at a place.
pub open spec fn is_group_step(
    session: Run,
    groups: Seq<ChangeGroup>,
    at: Result<usize, Error>,
    result: Result<RecoverStep, Error>,
) -> bool {
    match at {
        Err(e) => result == Err::<RecoverStep, Error>(e),
        Ok(i) => result matches Ok(RecoverStep::Files { lines, request, paths, kind })
            && text::views(lines@) == summary_lines(groups_view(groups)) && request@ == "session '"@
            + session.name@ + "'"@ + " group '"@ + groups[i as int].id@ + "'"@ && text::views(
            paths@,
        ) == text::views(groups[i as int].paths@) && kind@ == "group"@,
    }
}

/// What of a Run is recovered.
pub fn cmd_recover(
    session: &Run,
    changes: usize,
    groups: &Vec<ChangeGroup>,
    group: Option<&str>,
    selected: &Vec<String>,
) -> (result: Result<RecoverStep, Error>)
    ensures
        is_recover_step(
            *session,
            changes as int,
            groups@,
            text::view_opt_str(group),
            text::views(selected@),
            result,
        ),
{
    if changes == 0 {
        return Ok(
            RecoverStep::Nothing(
                text::cat3("Run ", session.public_id().as_str(), " has no recorded file changes."),
            ),
        );
    }
    if groups.len() == 0 {
        return Ok(
            RecoverStep::Nothing(
                text::cat3(
                    "Run ",
                    session.public_id().as_str(),
                    " has no recoverable groups of file changes.",
                ),
            ),
        );
    }
    let mut request = text::cat3("session '", session.name.as_str(), "'");
    assert(text::views(selected@).len() == selected@.len());
    if selected.len() > 0 {
        request.append(" selected files (");
        request.append(number::count_text(selected.len()).as_str());
        request.append(")");
        return Ok(
            RecoverStep::Files {
                lines: Vec::new(),
                request,
                paths: text::clone_all(selected),
                kind: "files".to_owned(),
            },
        );
    }
    let lines = print_group_summary(groups);
    let wanted = match group {
        Some(wanted) => wanted,
        None => {
            let paths = all_group_paths(groups);
            return Ok(RecoverStep::Files { lines, request, paths, kind: "run".to_owned() });
        },
    };
    let at = find_group(groups, wanted);
    let ghost seen = at;
    assert(is_group(groups@, wanted@, seen));
    match at {
        Err(e) => {
            let result = Err(e);
            assert(is_group_step(*session, groups@, seen, result));
            assert(is_group_recovery(*session, groups@, wanted@, result));
            result
        },
        Ok(i) => {
            request.append(" group '");
            request.append(groups[i].id.as_str());
            request.append("'");
            let paths = text::clone_all(&groups[i].paths);
            let result = Ok(RecoverStep::Files { lines, request, paths, kind: "group".to_owned() });
            assert(is_group_step(*session, groups@, seen, result));
            assert(is_group_recovery(*session, groups@, wanted@, result));
            result
        },
    }
}

/// The last change that stays, and the request, where files go back to before a
/// change.
pub fn recover_before_change(paths: usize, change_id: i64) -> (result: Result<(i64, String), Error>)
    ensures
        if change_id <= 0 {
            result matches Err(e) && e@
                == "change id must be positive; `undo run show <RUN>` and `undo timeline` list recorded change ids"@
        } else {
            result matches Ok(r) && r.0 == change_id - 1 && r.1@ == number::decimal(paths as int)
                + " "@ + (if paths == 1 {
                "file"@
            } else {
                "files"@
            }) + " to before change "@ + number::decimal(change_id as int)
        },
{
    if change_id <= 0 {
        return Err(
            Error::new(
                "change id must be positive; `undo run show <RUN>` and `undo timeline` list recorded change ids".to_owned(),
            ),
        );
    }
    let word = if paths == 1 {
        "file"
    } else {
        "files"
    };
    Ok(
        (
            change_id - 1,
            text::cat5(
                number::count_text(paths).as_str(),
                " ",
                word,
                " to before change ",
                number::signed_text(change_id).as_str(),
            ),
        ),
    )
}

} // verus!
