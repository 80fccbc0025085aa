//! What the hooks of an agent report.
use vstd::prelude::*;
use vstd::string::*;

use crate::agent_events::{glob, is_glob};
use crate::ask::{compact, compacted};
use crate::cli::{label_of, word_of, Agent, AgentKind};
use crate::db::claims::{boundary_closed, boundary_opened, is_change};
use crate::db::runs::{is_external, run_completed, run_started, NewRun};
use crate::db::{Database, Tables};
use crate::error::Error;
use crate::json;
use crate::json::{fields_view, items_view, member, text_member, Json, JsonView};
use crate::models::{Run, RunBoundary};
use crate::number;
use crate::path;
use crate::places;
use crate::places::Place;
use crate::rows;
use crate::sorted;
use crate::split;
use crate::text;

verus! {

/// What a hook is called with.
#[derive(Debug)]
pub struct HookPayload {
    pub cwd: Option<String>,
    pub workspace_roots: Vec<String>,
    pub session_id: Option<String>,
    pub conversation_id: Option<String>,
    pub hook_event_name: Option<String>,
    pub tool_name: Option<String>,
    pub tool_use_id: Option<String>,
    pub tool_input: Option<Json>,
    pub reason: Option<String>,
}

/// Tells that a hook was called with nothing.
pub fn require_payload(input: &str) -> (result: Result<(), Error>)
    ensures
        if text::trimmed(input@).len() == 0 {
            result matches Err(e) && e@ == "agent hook requires one JSON payload on stdin"@
        } else {
            result is Ok
        },
{
    if text::blank(input) {
        return Err(Error::new("agent hook requires one JSON payload on stdin".to_owned()));
    }
    Ok(())
}

// ── what is reported ────────────────────────────────────────────────

/// The events that are acted on.
pub open spec fn is_known_event(name: Seq<char>) -> bool {
    ||| name == "sessionstart"@
    ||| name == "sessionend"@
    ||| name == "pretooluse"@
    ||| name == "posttooluse"@
    ||| name == "posttoolusefailure"@
}

/// The event that a hook reports, however it is spelled.
pub open spec fn event_of(name: Option<Seq<char>>) -> Option<Seq<char>> {
    match name {
        Some(n) => if is_known_event(compacted(n)) {
            Some(compacted(n))
        } else {
            None
        },
        None => None,
    }
}

/// The event that a hook reports, however it is spelled.
pub fn canonical_event(event: Option<&str>) -> (name: Option<String>)
    ensures
        text::view_opt(name) == event_of(text::view_opt_str(event)),
{
    match event {
        Some(event) => {
            let name = compact(event);
            if text::same(name.as_str(), "sessionstart") || text::same(name.as_str(), "sessionend")
                || text::same(name.as_str(), "pretooluse") || text::same(
                name.as_str(),
                "posttooluse",
            ) || text::same(name.as_str(), "posttoolusefailure") {
                Some(name)
            } else {
                None
            }
        },
        None => None,
    }
}

/// The Run that a hook belongs to, as the agent knows it.
pub open spec fn external_run(
    agent: Agent,
    conversation_id: Option<Seq<char>>,
    session_id: Option<Seq<char>>,
) -> Option<Seq<char>> {
    let given = if conversation_id is Some {
        conversation_id
    } else {
        session_id
    };
    match given {
        Some(id) => if text::trimmed(id).len() > 0 {
            Some(word_of(agent) + ":"@ + text::trimmed(id))
        } else {
            None
        },
        None => None,
    }
}

/// The Run that a hook belongs to, as the agent knows it.
pub fn stable_external_run_id(agent: Agent, payload: &HookPayload) -> (id: Option<String>)
    ensures
        text::view_opt(id) == external_run(
            agent,
            text::view_opt(payload.conversation_id),
            text::view_opt(payload.session_id),
        ),
{
    let given = match &payload.conversation_id {
        Some(id) => Some(id.as_str()),
        None => match &payload.session_id {
            Some(id) => Some(id.as_str()),
            None => None,
        },
    };
    match given {
        Some(id) => if text::blank(id) {
            None
        } else {
            Some(text::cat3(agent.as_str(), ":", text::trim(id)))
        },
        None => None,
    }
}

/// The name of an agent for people to read.
pub fn agent_label<'a>(agent: Agent<'a>) -> (label: &'a str)
    ensures
        label@ == label_of(agent),
{
    match agent.kind {
        AgentKind::Claude => agent.label,
        AgentKind::Cursor => "Cursor",
        AgentKind::Codex => "Codex",
    }
}

/// Whether a session ends only to go on.
pub open spec fn goes_on(reason: Option<Seq<char>>) -> bool {
    reason matches Some(r) && (text::occurs(text::lower(r), "resume"@) || text::occurs(
        text::lower(r),
        "compact"@,
    ) || text::occurs(text::lower(r), "continue"@))
}

/// Whether a session ends only to go on.
pub fn is_transitional_end(reason: Option<&str>) -> (yes: bool)
    ensures
        yes == goes_on(text::view_opt_str(reason)),
{
    match reason {
        Some(reason) => {
            let low = text::lowercase(reason);
            text::has(low.as_str(), "resume") || text::has(low.as_str(), "compact") || text::has(
                low.as_str(),
                "continue",
            )
        },
        None => false,
    }
}

// ── where it is reported from ───────────────────────────────────────

/// The path that a folder is looked for at.
pub open spec fn folder_path(value: Seq<char>, process_cwd: Seq<char>) -> Option<Seq<char>> {
    let plain = match text::stripped(text::trimmed(value), "file://"@) {
        Some(rest) => rest,
        None => text::trimmed(value),
    };
    if plain.len() == 0 {
        None
    } else {
        Some(path::join_spec(process_cwd, plain))
    }
}

/// The path that a folder is looked for at.
pub fn folder_to_check(value: &str, process_cwd: &str) -> (at: Option<String>)
    ensures
        text::view_opt(at) == folder_path(value@, process_cwd@),
{
    let short = text::trim(value);
    let plain = match text::strip(short, "file://") {
        Some(rest) => rest,
        None => short,
    };
    if plain.unicode_len() == 0 {
        None
    } else {
        Some(path::join(process_cwd, plain))
    }
}

/// The folder that a value names, where there is one.
pub open spec fn folder_at(value: Seq<char>, process_cwd: Seq<char>, disk: Seq<Place>) -> Option<
    Seq<char>,
> {
    match folder_path(value, process_cwd) {
        Some(at) => match places::known(disk, at) {
            Some(place) => if place.directory {
                Some(place.canonical@)
            } else {
                None
            },
            None => None,
        },
        None => None,
    }
}

/// The folder that a value names, where there is one.
pub fn usable_directory(value: &str, process_cwd: &str, disk: &Vec<Place>) -> (found: Option<String>)
    ensures
        text::view_opt(found) == folder_at(value@, process_cwd@, disk@),
{
    match folder_to_check(value, process_cwd) {
        Some(at) => match places::find_place(disk, at.as_str()) {
            Some(i) => if disk[i].directory {
                Some(disk[i].canonical.clone())
            } else {
                None
            },
            None => None,
        },
        None => None,
    }
}

/// The first folder that one of some values names.
pub open spec fn first_folder(
    values: Seq<Seq<char>>,
    process_cwd: Seq<char>,
    disk: Seq<Place>,
) -> Option<Seq<char>>
    decreases values.len(),
{
    if values.len() == 0 {
        None
    } else {
        match first_folder(values.drop_last(), process_cwd, disk) {
            Some(found) => Some(found),
            None => folder_at(values.last(), process_cwd, disk),
        }
    }
}

/// A folder that the first of values name is what they name.
proof fn lemma_first_folder(
    values: Seq<Seq<char>>,
    process_cwd: Seq<char>,
    disk: Seq<Place>,
    n: int,
)
    requires
        0 <= n <= values.len(),
        first_folder(values.take(n), process_cwd, disk) is Some,
    ensures
        first_folder(values, process_cwd, disk) == first_folder(values.take(n), process_cwd, disk),
    decreases values.len(),
{
    if n < values.len() {
        assert(values.drop_last().take(n) =~= values.take(n));
        lemma_first_folder(values.drop_last(), process_cwd, disk, n);
    } else {
        assert(values.take(n) =~= values);
    }
}

/// The folder that a hook reports from: the first of its workspace that is
/// there, else its own, else that of the process.
pub open spec fn payload_root(
    payload: HookPayload,
    process_cwd: Seq<char>,
    disk: Seq<Place>,
) -> Result<Seq<char>, Seq<char>> {
    match first_folder(text::views(payload.workspace_roots@), process_cwd, disk) {
        Some(found) => Ok(found),
        None => {
            let own = match payload.cwd {
                Some(cwd) => folder_at(cwd@, process_cwd, disk),
                None => None,
            };
            match own {
                Some(found) => Ok(found),
                None => match places::known(disk, process_cwd) {
                    Some(place) => Ok(place.canonical@),
                    None => Err("cannot resolve the hook process working directory"@),
                },
            }
        },
    }
}

/// The folder that a hook reports from.
pub fn select_payload_root(payload: &HookPayload, process_cwd: &str, disk: &Vec<Place>) -> (result:
    Result<String, Error>)
    ensures
        match payload_root(*payload, process_cwd@, disk@) {
            Ok(root) => result matches Ok(r) && r@ == root,
            Err(said) => result matches Err(e) && e@ == said,
        },
{
    let ghost all = text::views(payload.workspace_roots@);
    let mut i: usize = 0;
    while i < payload.workspace_roots.len()
        invariant
            i <= payload.workspace_roots.len(),
            all == text::views(payload.workspace_roots@),
            first_folder(all.take(i as int), process_cwd@, disk@) is None,
        decreases payload.workspace_roots.len() - i,
    {
        proof {
            assert(all.take(i + 1).drop_last() =~= all.take(i as int));
            assert(all.take(i + 1).last() == payload.workspace_roots@[i as int]@);
        }
        match usable_directory(payload.workspace_roots[i].as_str(), process_cwd, disk) {
            Some(found) => {
                proof {
                    lemma_first_folder(all, process_cwd@, disk@, i + 1);
                }
                return Ok(found);
            },
            None => {},
        }
        i += 1;
    }
    proof {
        assert(all.take(i as int) =~= all);
    }
    if let Some(cwd) = &payload.cwd {
        if let Some(found) = usable_directory(cwd.as_str(), process_cwd, disk) {
            return Ok(found);
        }
    }
    match places::find_place(disk, process_cwd) {
        Some(i) => Ok(disk[i].canonical.clone()),
        None => Err(Error::new("cannot resolve the hook process working directory".to_owned())),
    }
}

// ── the files of a tool ─────────────────────────────────────────────

/// The name of a tool without marks, in small letters.
pub open spec fn tool_word(name: Seq<char>) -> Seq<char>
    decreases name.len(),
{
    if name.len() == 0 {
        Seq::empty()
    } else if name.last() == '_' || name.last() == '-' {
        tool_word(name.drop_last())
    } else {
        tool_word(name.drop_last()).push(text::lower_char(name.last()))
    }
}

/// The name of a tool without marks, in small letters.
fn plain_tool(name: &str) -> (word: String)
    ensures
        word@ == tool_word(name@),
{
    let chars = text::chars_of(name);
    let mut kept: Vec<char> = Vec::new();
    let mut i: usize = 0;
    while i < chars.len()
        invariant
            i <= chars.len(),
            chars@ == name@,
            kept@ == tool_word(name@.take(i as int)),
        decreases chars.len() - i,
    {
        proof {
            assert(name@.take(i + 1).drop_last() =~= name@.take(i as int));
        }
        if !(chars[i] == '_' || chars[i] == '-') {
            kept.push(text::lowered_char(chars[i]));
        }
        i += 1;
    }
    proof {
        assert(name@.take(i as int) =~= name@);
    }
    text::text_from(&kept)
}

/// Whether a tool changes files.
pub open spec fn is_writer(name: Seq<char>) -> bool {
    let word = tool_word(name);
    ||| text::occurs(word, "write"@)
    ||| text::occurs(word, "edit"@)
    ||| text::occurs(word, "applypatch"@)
    ||| text::occurs(word, "delete"@)
    ||| text::occurs(word, "rename"@)
    ||| text::occurs(word, "movefile"@)
    ||| text::occurs(word, "createfile"@)
}

/// Whether a tool changes files.
pub fn is_mutating_tool(tool_name: &str) -> (yes: bool)
    ensures
        yes == is_writer(tool_name@),
{
    let word = plain_tool(tool_name);
    let w = word.as_str();
    text::has(w, "write") || text::has(w, "edit") || text::has(w, "applypatch") || text::has(
        w,
        "delete",
    ) || text::has(w, "rename") || text::has(w, "movefile") || text::has(w, "createfile")
}

/// Whether what follows a header names a file: one, or two with an arrow between
/// them.
pub open spec fn rest_names(rest: Seq<char>, name: Seq<char>) -> bool {
    name.len() > 0 && match text::sides(rest, " -> "@) {
        Some(parts) => name == text::trimmed(parts.0) || name == text::trimmed(parts.1),
        None => name == text::trimmed(rest),
    }
}

/// Whether a line with a header names a file.
pub open spec fn header_names(line: Seq<char>, header: Seq<char>, name: Seq<char>) -> bool {
    text::stripped(line, header) matches Some(rest) && rest_names(rest, name)
}

/// Whether a line of a patch names a file.
pub open spec fn line_names(line: Seq<char>, name: Seq<char>) -> bool {
    ||| header_names(text::trimmed(line), "*** Add File: "@, name)
    ||| header_names(text::trimmed(line), "*** Update File: "@, name)
    ||| header_names(text::trimmed(line), "*** Delete File: "@, name)
    ||| header_names(text::trimmed(line), "*** Move to: "@, name)
}

/// Whether a patch names a file.
pub open spec fn patch_names(patch: Seq<char>, name: Seq<char>) -> bool {
    lines_name(split::lines(patch), name)
}

/// Whether lines of a patch name a file.
pub open spec fn lines_name(lines: Seq<Seq<char>>, name: Seq<char>) -> bool {
    exists|i: int| 0 <= i < lines.len() && line_names(#[trigger] lines[i], name)
}

/// Adds a name to a set, where it is one.
fn note(paths: &mut Vec<String>, name: &str)
    requires
        sorted::in_order(old(paths)@),
    ensures
        sorted::in_order(final(paths)@),
        forall|t: Seq<char>|
            #[trigger] text::views(final(paths)@).contains(t) <==> text::views(
                old(paths)@,
            ).contains(t) || (t.len() > 0 && t == name@),
{
    if name.unicode_len() > 0 {
        let new = sorted::insert(paths, name.to_owned());
    }
}

/// Adds the files that a line with a header names to a set.
fn note_header(paths: &mut Vec<String>, line: &str, header: &str)
    requires
        sorted::in_order(old(paths)@),
    ensures
        sorted::in_order(final(paths)@),
        forall|t: Seq<char>|
            #[trigger] text::views(final(paths)@).contains(t) <==> text::views(
                old(paths)@,
            ).contains(t) || header_names(line@, header@, t),
{
    let rest = match text::strip(line, header) {
        None => {
            return ;
        },
        Some(rest) => rest,
    };
    let ghost before = text::views(paths@);
    match text::split_once(rest, " -> ") {
        Some((source, target)) => {
            note(paths, text::trim(source));
            let ghost middle = text::views(paths@);
            note(paths, text::trim(target));
            proof {
                assert forall|t: Seq<char>|
                    #[trigger] text::views(paths@).contains(t) <==> before.contains(t)
                        || header_names(line@, header@, t) by {
                    assert(middle.contains(t) <==> before.contains(t) || (t.len() > 0 && t
                        == text::trimmed(source@)));
                }
            }
        },
        None => note(paths, text::trim(rest)),
    }
}

/// Adds the files that a line of a patch names to a set.
fn note_line(paths: &mut Vec<String>, line: &str)
    requires
        sorted::in_order(old(paths)@),
    ensures
        sorted::in_order(final(paths)@),
        forall|t: Seq<char>|
            #[trigger] text::views(final(paths)@).contains(t) <==> text::views(
                old(paths)@,
            ).contains(t) || line_names(line@, t),
{
    let short = text::trim(line);
    let ghost a = text::views(paths@);
    note_header(paths, short, "*** Add File: ");
    let ghost b = text::views(paths@);
    note_header(paths, short, "*** Update File: ");
    let ghost c = text::views(paths@);
    note_header(paths, short, "*** Delete File: ");
    let ghost d = text::views(paths@);
    note_header(paths, short, "*** Move to: ");
    proof {
        assert forall|t: Seq<char>| #[trigger] text::views(paths@).contains(t) <==> a.contains(t)
            || line_names(line@, t) by {
            assert(b.contains(t) <==> a.contains(t) || header_names(
                short@,
                "*** Add File: "@,
                t,
            ));
            assert(c.contains(t) <==> b.contains(t) || header_names(
                short@,
                "*** Update File: "@,
                t,
            ));
            assert(d.contains(t) <==> c.contains(t) || header_names(
                short@,
                "*** Delete File: "@,
                t,
            ));
        }
    }
}

/// Adds the files that a patch names to a set.
pub fn extract_apply_patch_paths(patch: &str, paths: &mut Vec<String>)
    requires
        sorted::in_order(old(paths)@),
    ensures
        sorted::in_order(final(paths)@),
        forall|t: Seq<char>|
            #[trigger] text::views(final(paths)@).contains(t) <==> text::views(
                old(paths)@,
            ).contains(t) || patch_names(patch@, t),
{
    let lines = split::split_lines(patch);
    let ghost all = text::views(lines@);
    let ghost before = text::views(paths@);
    let mut i: usize = 0;
    while i < lines.len()
        invariant
            i <= lines.len(),
            all == text::views(lines@),
            all == split::lines(patch@),
            before == text::views(old(paths)@),
            sorted::in_order(paths@),
            forall|t: Seq<char>|
                #[trigger] text::views(paths@).contains(t) <==> before.contains(t) || lines_name(
                    all.take(i as int),
                    t,
                ),
        decreases lines.len() - i,
    {
        let ghost middle = text::views(paths@);
        note_line(paths, lines[i].as_str());
        proof {
            let t0 = all.take(i as int);
            let t1 = all.take(i + 1);
            assert(t1[i as int] == lines@[i as int]@);
            assert forall|t: Seq<char>|
                #[trigger] text::views(paths@).contains(t) <==> before.contains(t) || lines_name(
                    t1,
                    t,
                ) by {
                assert(middle.contains(t) <==> before.contains(t) || lines_name(t0, t));
                if lines_name(t0, t) {
                    let k = choose|k: int| 0 <= k < t0.len() && line_names(#[trigger] t0[k], t);
                    assert(t1[k] == t0[k]);
                }
                if lines_name(t1, t) && !line_names(t1[i as int], t) {
                    let k = choose|k: int| 0 <= k < t1.len() && line_names(#[trigger] t1[k], t);
                    assert(t0[k] == t1[k]);
                }
            }
        }
        i += 1;
    }
    proof {
        assert(all.take(i as int) =~= all);
    }
}

/// The fields of a tool's input that hold paths.
pub open spec fn path_keys() -> Seq<Seq<char>> {
    seq![
        "file_path"@,
        "path"@,
        "target_path"@,
        "target_file"@,
        "target_notebook"@,
        "source_path"@,
        "destination_path"@,
        "old_path"@,
        "new_path"@,
    ]
}

/// The fields of a tool's input that hold patches.
pub open spec fn patch_keys() -> Seq<Seq<char>> {
    seq!["patch"@, "input"@, "patch_text"@]
}

/// The fields of a tool's input that hold paths.
fn path_key_list() -> (keys: Vec<String>)
    ensures
        text::views(keys@) == path_keys(),
{
    let mut keys: Vec<String> = Vec::new();
    text::add_line(&mut keys, "file_path".to_owned());
    text::add_line(&mut keys, "path".to_owned());
    text::add_line(&mut keys, "target_path".to_owned());
    text::add_line(&mut keys, "target_file".to_owned());
    text::add_line(&mut keys, "target_notebook".to_owned());
    text::add_line(&mut keys, "source_path".to_owned());
    text::add_line(&mut keys, "destination_path".to_owned());
    text::add_line(&mut keys, "old_path".to_owned());
    text::add_line(&mut keys, "new_path".to_owned());
    proof {
        assert(text::views(keys@) =~= path_keys());
    }
    keys
}

/// The fields of a tool's input that hold patches.
fn patch_key_list() -> (keys: Vec<String>)
    ensures
        text::views(keys@) == patch_keys(),
{
    let mut keys: Vec<String> = Vec::new();
    text::add_line(&mut keys, "patch".to_owned());
    text::add_line(&mut keys, "input".to_owned());
    text::add_line(&mut keys, "patch_text".to_owned());
    proof {
        assert(text::views(keys@) =~= patch_keys());
    }
    keys
}

/// Whether a value is a path or a list with it.
pub open spec fn value_names(value: Option<JsonView>, name: Seq<char>) -> bool {
    match value {
        Some(JsonView::Text(path)) => path == name,
        Some(JsonView::List(items)) => items.contains(JsonView::Text(name)),
        _ => false,
    }
}

/// Whether a field among some holds a path.
pub open spec fn keys_name(
    fields: Seq<(Seq<char>, JsonView)>,
    keys: Seq<Seq<char>>,
    name: Seq<char>,
) -> bool {
    exists|k: int| 0 <= k < keys.len() && value_names(member(fields, #[trigger] keys[k]), name)
}

/// Whether a value is a patch that names a file.
pub open spec fn value_patches(value: Option<JsonView>, name: Seq<char>) -> bool {
    value matches Some(JsonView::Text(patch)) && patch_names(patch, name)
}

/// Whether a field among some holds a patch that names a file.
pub open spec fn keys_patch(
    fields: Seq<(Seq<char>, JsonView)>,
    keys: Seq<Seq<char>>,
    name: Seq<char>,
) -> bool {
    exists|k: int| 0 <= k < keys.len() && value_patches(member(fields, #[trigger] keys[k]), name)
}

/// Whether the input of a tool names a file.
pub open spec fn input_names(input: JsonView, name: Seq<char>) -> bool {
    match input {
        JsonView::Text(patch) => patch_names(patch, name),
        JsonView::Object(fields) => keys_name(fields, path_keys(), name) || keys_patch(
            fields,
            patch_keys(),
            name,
        ),
        _ => false,
    }
}

/// Adds the texts of a list to a set.
fn note_items(paths: &mut Vec<String>, items: &Vec<Json>)
    requires
        sorted::in_order(old(paths)@),
    ensures
        sorted::in_order(final(paths)@),
        forall|t: Seq<char>|
            #[trigger] text::views(final(paths)@).contains(t) <==> text::views(
                old(paths)@,
            ).contains(t) || items_view(items@).contains(JsonView::Text(t)),
{
    let ghost all = items_view(items@);
    let ghost before = text::views(paths@);
    let mut i: usize = 0;
    while i < items.len()
        invariant
            i <= items.len(),
            all == items_view(items@),
            before == text::views(old(paths)@),
            sorted::in_order(paths@),
            forall|t: Seq<char>|
                #[trigger] text::views(paths@).contains(t) <==> before.contains(t) || all.take(
                    i as int,
                ).contains(JsonView::Text(t)),
        decreases items.len() - i,
    {
        let ghost middle = text::views(paths@);
        match &items[i] {
            Json::Text(path) => {
                let new = sorted::insert(paths, path.clone());
            },
            _ => {},
        }
        proof {
            let t0 = all.take(i as int);
            let t1 = all.take(i + 1);
            let item = items@[i as int]@;
            assert(t1[i as int] == item);
            assert forall|t: Seq<char>|
                #[trigger] text::views(paths@).contains(t) <==> before.contains(t) || t1.contains(
                    JsonView::Text(t),
                ) by {
                let v = JsonView::Text(t);
                assert(middle.contains(t) <==> before.contains(t) || t0.contains(v));
                if t0.contains(v) {
                    let k = choose|k: int| 0 <= k < t0.len() && t0[k] == v;
                    assert(t1[k] == v);
                }
                if t1.contains(v) && item != v {
                    let k = choose|k: int| 0 <= k < t1.len() && t1[k] == v;
                    assert(t0[k] == v);
                }
            }
        }
        i += 1;
    }
    proof {
        assert(all.take(i as int) =~= all);
    }
}

/// Adds the paths that a field holds to a set.
fn note_value(paths: &mut Vec<String>, value: Option<&Json>)
    requires
        sorted::in_order(old(paths)@),
    ensures
        sorted::in_order(final(paths)@),
        forall|t: Seq<char>|
            #[trigger] text::views(final(paths)@).contains(t) <==> text::views(
                old(paths)@,
            ).contains(t) || value_names(
                match value {
                    Some(v) => Some(v@),
                    None => None,
                },
                t,
            ),
{
    match value {
        Some(Json::Text(path)) => {
            let new = sorted::insert(paths, path.clone());
        },
        Some(Json::List(items)) => {
            proof {
                json::lemma_list(*items);
            }
            note_items(paths, items);
        },
        _ => {},
    }
}

/// Adds the paths and the files of patches that fields hold to a set.
fn note_fields(paths: &mut Vec<String>, fields: &Vec<json::Field>)
    requires
        sorted::in_order(old(paths)@),
    ensures
        sorted::in_order(final(paths)@),
        forall|t: Seq<char>|
            #[trigger] text::views(final(paths)@).contains(t) <==> text::views(
                old(paths)@,
            ).contains(t) || keys_name(fields_view(fields@), path_keys(), t) || keys_patch(
                fields_view(fields@),
                patch_keys(),
                t,
            ),
{
    let ghost before = text::views(paths@);
    let ghost all = fields_view(fields@);
    let keys = path_key_list();
    let ghost names = text::views(keys@);
    let mut i: usize = 0;
    while i < keys.len()
        invariant
            i <= keys.len(),
            names == text::views(keys@),
            all == fields_view(fields@),
            before == text::views(old(paths)@),
            sorted::in_order(paths@),
            forall|t: Seq<char>|
                #[trigger] text::views(paths@).contains(t) <==> before.contains(t) || keys_name(
                    all,
                    names.take(i as int),
                    t,
                ),
        decreases keys.len() - i,
    {
        let ghost middle = text::views(paths@);
        let value = json::get_field(fields, keys[i].as_str());
        note_value(paths, value);
        proof {
            let t0 = names.take(i as int);
            let t1 = names.take(i + 1);
            assert(t1[i as int] == keys@[i as int]@);
            assert forall|t: Seq<char>|
                #[trigger] text::views(paths@).contains(t) <==> before.contains(t) || keys_name(
                    all,
                    t1,
                    t,
                ) by {
                assert(middle.contains(t) <==> before.contains(t) || keys_name(all, t0, t));
                if keys_name(all, t0, t) {
                    let k = choose|k: int|
                        0 <= k < t0.len() && value_names(member(all, #[trigger] t0[k]), t);
                    assert(t1[k] == t0[k]);
                }
                if keys_name(all, t1, t) && !value_names(member(all, t1[i as int]), t) {
                    let k = choose|k: int|
                        0 <= k < t1.len() && value_names(member(all, #[trigger] t1[k]), t);
                    assert(t0[k] == t1[k]);
                }
            }
        }
        i += 1;
    }
    proof {
        assert(names.take(i as int) =~= names);
    }
    let ghost found = text::views(paths@);
    let keys = patch_key_list();
    let ghost names = text::views(keys@);
    let mut i: usize = 0;
    while i < keys.len()
        invariant
            i <= keys.len(),
            names == text::views(keys@),
            all == fields_view(fields@),
            sorted::in_order(paths@),
            forall|t: Seq<char>|
                #[trigger] text::views(paths@).contains(t) <==> found.contains(t) || keys_patch(
                    all,
                    names.take(i as int),
                    t,
                ),
        decreases keys.len() - i,
    {
        let ghost middle = text::views(paths@);
        match json::get_field(fields, keys[i].as_str()) {
            Some(Json::Text(patch)) => extract_apply_patch_paths(patch.as_str(), paths),
            _ => {},
        }
        proof {
            let t0 = names.take(i as int);
            let t1 = names.take(i + 1);
            assert(t1[i as int] == keys@[i as int]@);
            assert forall|t: Seq<char>|
                #[trigger] text::views(paths@).contains(t) <==> found.contains(t) || keys_patch(
                    all,
                    t1,
                    t,
                ) by {
                assert(middle.contains(t) <==> found.contains(t) || keys_patch(all, t0, t));
                if keys_patch(all, t0, t) {
                    let k = choose|k: int|
                        0 <= k < t0.len() && value_patches(member(all, #[trigger] t0[k]), t);
                    assert(t1[k] == t0[k]);
                }
                if keys_patch(all, t1, t) && !value_patches(member(all, t1[i as int]), t) {
                    let k = choose|k: int|
                        0 <= k < t1.len() && value_patches(member(all, #[trigger] t1[k]), t);
                    assert(t0[k] == t1[k]);
                }
            }
        }
        i += 1;
    }
    proof {
        assert(names.take(i as int) =~= names);
        assert forall|t: Seq<char>|
            #[trigger] text::views(paths@).contains(t) <==> before.contains(t) || keys_name(
                all,
                path_keys(),
                t,
            ) || keys_patch(all, patch_keys(), t) by {
            assert(found.contains(t) <==> before.contains(t) || keys_name(all, path_keys(), t));
        }
    }
}

/// Whether a list holds the files that the input of a tool names, in order.
pub open spec fn are_exact_paths(input: JsonView, list: Seq<Seq<char>>) -> bool {
    sorted::ascending(list) && forall|t: Seq<char>|
        #[trigger] list.contains(t) <==> input_names(input, t)
}

/// The files that the input of a tool names.
pub fn extract_exact_paths(input: &Json) -> (paths: Vec<String>)
    ensures
        are_exact_paths(input@, text::views(paths@)),
{
    let mut paths: Vec<String> = Vec::new();
    proof {
        assert(text::views(paths@) =~= Seq::empty());
    }
    match input {
        Json::Text(patch) => extract_apply_patch_paths(patch.as_str(), &mut paths),
        Json::Object(fields) => {
            proof {
                json::lemma_object(*fields);
            }
            note_fields(&mut paths, fields);
        },
        _ => {},
    }
    paths
}

/// Whether a list holds the files that a patch names, in order.
pub open spec fn are_patch_paths(patch: Seq<char>, list: Seq<Seq<char>>) -> bool {
    sorted::ascending(list) && forall|t: Seq<char>|
        #[trigger] list.contains(t) <==> patch_names(patch, t)
}

/// Whether paths are those that a tool is called on: those that its input names,
/// and those of the patch that it runs as a command.
pub open spec fn are_candidates(tool: Seq<char>, input: JsonView, list: Seq<Seq<char>>) -> bool {
    exists|named: Seq<Seq<char>>, patched: Seq<Seq<char>>|
        {
            &&& #[trigger] are_exact_paths(input, named)
            &&& #[trigger] are_command_paths(tool, input, patched)
            &&& list == named + patched
        }
}

/// Whether paths are those of the patch that a tool runs as a command.
pub open spec fn are_command_paths(tool: Seq<char>, input: JsonView, list: Seq<Seq<char>>) -> bool {
    if text::occurs(tool_word(tool), "applypatch"@) {
        match text_member(input, "command"@) {
            Some(patch) => are_patch_paths(patch, list),
            None => list.len() == 0,
        }
    } else {
        list.len() == 0
    }
}

/// The paths that a tool is called on.
fn candidate_paths(tool: &str, input: &Json) -> (list: Vec<String>)
    ensures
        are_candidates(tool@, input@, text::views(list@)),
{
    let mut list = extract_exact_paths(input);
    let ghost named = text::views(list@);
    let mut patched: Vec<String> = Vec::new();
    proof {
        assert(text::views(patched@) =~= Seq::empty());
    }
    if text::has(plain_tool(tool).as_str(), "applypatch") {
        match json::get_text(input, "command") {
            Some(patch) => extract_apply_patch_paths(patch, &mut patched),
            None => {},
        }
    }
    proof {
        assert(text::views(patched@).len() == patched@.len());
        assert(are_command_paths(tool@, input@, text::views(patched@)));
        assert(are_exact_paths(input@, named));
    }
    text::add_lines(&mut list, patched);
    list
}

/// The files that paths lead to, in the order of the paths. Patterns and folders
/// are passed over; a path that leads out of the project is refused.
pub open spec fn led_to(
    disk: Seq<Place>,
    root: Seq<char>,
    project_root: Seq<char>,
    list: Seq<Seq<char>>,
) -> Result<Seq<Seq<char>>, Seq<char>>
    decreases list.len(),
{
    if list.len() == 0 {
        Ok(Seq::empty())
    } else {
        match led_to(disk, root, project_root, list.drop_last()) {
            Err(said) => Err(said),
            Ok(before) => {
                let input = text::trimmed(list.last());
                let place = places::leads_to(disk, root, input);
                if input.len() == 0 || is_glob(input) {
                    Ok(before)
                } else if !path::is_at_or_below(place.0, places::real_root(disk, project_root)) {
                    Err(places::outside_text(input, project_root))
                } else if place.1 {
                    Ok(before)
                } else {
                    Ok(before.push(place.0))
                }
            },
        }
    }
}

/// An error on the first of paths is that of all.
proof fn lemma_led_error(
    disk: Seq<Place>,
    root: Seq<char>,
    project_root: Seq<char>,
    list: Seq<Seq<char>>,
    n: int,
)
    requires
        0 <= n <= list.len(),
        led_to(disk, root, project_root, list.take(n)) is Err,
    ensures
        led_to(disk, root, project_root, list) == led_to(disk, root, project_root, list.take(n)),
    decreases list.len(),
{
    if n < list.len() {
        assert(list.drop_last().take(n) =~= list.take(n));
        lemma_led_error(disk, root, project_root, list.drop_last(), n);
    } else {
        assert(list.take(n) =~= list);
    }
}

/// Whether a result holds the files that paths lead to, each once.
pub open spec fn are_led_to(
    disk: Seq<Place>,
    root: Seq<char>,
    project_root: Seq<char>,
    list: Seq<Seq<char>>,
    result: Result<Vec<String>, Error>,
) -> bool {
    match led_to(disk, root, project_root, list) {
        Ok(files) => result matches Ok(kept) && sorted::is_sorted_set(files, text::views(kept@)),
        Err(said) => result matches Err(e) && e@ == said,
    }
}

/// The files that paths lead to, each once.
fn lead(list: &Vec<String>, root: &str, project_root: &str, disk: &Vec<Place>) -> (result: Result<
    Vec<String>,
    Error,
>)
    ensures
        are_led_to(disk@, root@, project_root@, text::views(list@), result),
{
    let ghost all = text::views(list@);
    let ghost mut files = Seq::<Seq<char>>::empty();
    let mut kept: Vec<String> = Vec::new();
    let mut i: usize = 0;
    proof {
        assert(text::views(kept@) =~= files);
        assert(all.take(0) =~= Seq::empty());
    }
    while i < list.len()
        invariant
            i <= list.len(),
            all == text::views(list@),
            sorted::in_order(kept@),
            sorted::is_sorted_set(files, text::views(kept@)),
            led_to(disk@, root@, project_root@, all.take(i as int)) == Ok::<
                Seq<Seq<char>>,
                Seq<char>,
            >(files),
        decreases list.len() - i,
    {
        proof {
            assert(all.take(i + 1).drop_last() =~= all.take(i as int));
            assert(all.take(i + 1).last() == list@[i as int]@);
        }
        let input = text::trim(list[i].as_str());
        if input.unicode_len() > 0 && !glob(input) {
            match places::safe_resolve_path(root, input, project_root, disk) {
                Err(e) => {
                    proof {
                        lemma_led_error(disk@, root@, project_root@, all, i + 1);
                    }
                    return Err(e);
                },
                Ok(place) => if !place.directory {
                    let ghost found = place.path@;
                    let ghost before = text::views(kept@);
                    let new = sorted::insert(&mut kept, place.path);
                    proof {
                        let more = files.push(found);
                        assert forall|t: Seq<char>|
                            text::views(kept@).contains(t) <==> more.contains(t) by {
                            assert(before.contains(t) <==> files.contains(t));
                            if files.contains(t) {
                                let k = choose|k: int| 0 <= k < files.len() && files[k] == t;
                                assert(more[k] == t);
                            }
                            assert(more[files.len() as int] == found);
                            if more.contains(t) && t != found {
                                let k = choose|k: int| 0 <= k < more.len() && more[k] == t;
                                assert(files[k] == t);
                            }
                        }
                        files = more;
                    }
                },
            }
        }
        i += 1;
    }
    proof {
        assert(all.take(i as int) =~= all);
    }
    Ok(kept)
}

/// Whether a result holds the files that a hook reports.
pub open spec fn are_reported(
    payload: HookPayload,
    root: Seq<char>,
    project_root: Seq<char>,
    disk: Seq<Place>,
    result: Result<Vec<String>, Error>,
) -> bool {
    match (payload.tool_name, payload.tool_input) {
        (Some(tool), Some(input)) => if is_writer(tool@) {
            exists|list: Seq<Seq<char>>|
                #[trigger] are_candidates(tool@, input@, list) && are_led_to(
                    disk,
                    root,
                    project_root,
                    list,
                    result,
                )
        } else {
            result matches Ok(kept) && kept@.len() == 0
        },
        _ => result matches Ok(kept) && kept@.len() == 0,
    }
}

/// The files that a hook reports: none where its tool does not change files.
pub fn extract_normalized_paths(
    payload: &HookPayload,
    root: &str,
    project_root: &str,
    disk: &Vec<Place>,
) -> (result: Result<Vec<String>, Error>)
    ensures
        are_reported(*payload, root@, project_root@, disk@, result),
{
    let tool = match &payload.tool_name {
        None => {
            return Ok(Vec::new());
        },
        Some(tool) => tool.as_str(),
    };
    if !is_mutating_tool(tool) {
        return Ok(Vec::new());
    }
    let input = match &payload.tool_input {
        None => {
            return Ok(Vec::new());
        },
        Some(input) => input,
    };
    let list = candidate_paths(tool, input);
    assert(are_candidates(tool@, input@, text::views(list@)));
    lead(&list, root, project_root, disk)
}

/// The paths that a tool of a hook is called on, for the disk to be asked.
pub fn paths_to_check(payload: &HookPayload) -> (list: Vec<String>)
    ensures
        match (payload.tool_name, payload.tool_input) {
            (Some(tool), Some(input)) => if is_writer(tool@) {
                are_candidates(tool@, input@, text::views(list@))
            } else {
                list@.len() == 0
            },
            _ => list@.len() == 0,
        },
{
    match (&payload.tool_name, &payload.tool_input) {
        (Some(tool), Some(input)) => if is_mutating_tool(tool.as_str()) {
            candidate_paths(tool.as_str(), input)
        } else {
            Vec::new()
        },
        _ => Vec::new(),
    }
}

// ── what is done ────────────────────────────────────────────────────

/// What a hook asks for.
#[derive(Debug)]
pub enum HookStep {
    Nothing,
    /// The Run begins.
    Begin,
    /// The Run ends.
    End,
    /// A change begins.
    Open { change_id: String, paths: Vec<String> },
    /// A change ends.
    Close { change_id: String, paths: Vec<String> },
}

/// Whether a result is what a hook on a tool asks for.
pub open spec fn is_tool_step(
    opening: bool,
    payload: HookPayload,
    root: Seq<char>,
    project_root: Seq<char>,
    disk: Seq<Place>,
    result: Result<HookStep, Error>,
) -> bool {
    match payload.tool_use_id {
        None => result matches Ok(HookStep::Nothing),
        Some(id) => exists|files: Result<Vec<String>, Error>|
            {
                &&& #[trigger] are_reported(payload, root, project_root, disk, files)
                &&& match files {
                    Err(e) => result == Err::<HookStep, Error>(e),
                    Ok(list) => if list@.len() == 0 {
                        result matches Ok(HookStep::Nothing)
                    } else if opening {
                        result matches Ok(HookStep::Open { change_id, paths }) && change_id@ == id@
                            && paths == list
                    } else {
                        result matches Ok(HookStep::Close { change_id, paths }) && change_id@ == id@
                            && paths == list
                    },
                }
            },
    }
}

/// Whether a result is what a hook asks for.
pub open spec fn is_hook_step(
    event: Seq<char>,
    payload: HookPayload,
    root: Seq<char>,
    project_root: Seq<char>,
    disk: Seq<Place>,
    result: Result<HookStep, Error>,
) -> bool {
    if event == "sessionstart"@ {
        result matches Ok(HookStep::Begin)
    } else if event == "sessionend"@ {
        if goes_on(text::view_opt(payload.reason)) {
            result matches Ok(HookStep::Nothing)
        } else {
            result matches Ok(HookStep::End)
        }
    } else if event == "pretooluse"@ {
        is_tool_step(true, payload, root, project_root, disk, result)
    } else if event == "posttooluse"@ || event == "posttoolusefailure"@ {
        is_tool_step(false, payload, root, project_root, disk, result)
    } else {
        result matches Ok(HookStep::Nothing)
    }
}

/// What a hook on a tool asks for.
fn tool_step(
    opening: bool,
    payload: &HookPayload,
    root: &str,
    project_root: &str,
    disk: &Vec<Place>,
) -> (result: Result<HookStep, Error>)
    ensures
        is_tool_step(opening, *payload, root@, project_root@, disk@, result),
{
    let change_id = match &payload.tool_use_id {
        None => {
            return Ok(HookStep::Nothing);
        },
        Some(id) => id.clone(),
    };
    let files = extract_normalized_paths(payload, root, project_root, disk);
    let ghost seen = files;
    assert(are_reported(*payload, root@, project_root@, disk@, seen));
    match files {
        Err(e) => Err(e),
        Ok(paths) => if paths.len() == 0 {
            Ok(HookStep::Nothing)
        } else if opening {
            Ok(HookStep::Open { change_id, paths })
        } else {
            Ok(HookStep::Close { change_id, paths })
        },
    }
}

/// What a hook asks for.
pub fn handle_payload(
    event: &str,
    payload: &HookPayload,
    root: &str,
    project_root: &str,
    disk: &Vec<Place>,
) -> (result: Result<HookStep, Error>)
    ensures
        is_hook_step(event@, *payload, root@, project_root@, disk@, result),
{
    if text::same(event, "sessionstart") {
        Ok(HookStep::Begin)
    } else if text::same(event, "sessionend") {
        let reason = match &payload.reason {
            Some(reason) => Some(reason.as_str()),
            None => None,
        };
        if is_transitional_end(reason) {
            Ok(HookStep::Nothing)
        } else {
            Ok(HookStep::End)
        }
    } else if text::same(event, "pretooluse") {
        tool_step(true, payload, root, project_root, disk)
    } else if text::same(event, "posttooluse") || text::same(event, "posttoolusefailure") {
        tool_step(false, payload, root, project_root, disk)
    } else {
        Ok(HookStep::Nothing)
    }
}

/// What is said of a Run that has ended.
pub open spec fn ended_text(run: Run) -> Seq<char> {
    "reported hook Run "@ + ("r_"@ + number::decimal(run.id as int)) + " is already complete"@
}

/// Whether a result is the active Run of a hook.
pub open spec fn is_hook_run(
    sessions: Seq<Run>,
    project_id: i64,
    external_run_id: Seq<char>,
    result: Result<Run, Error>,
) -> bool {
    match rows::lookup(sessions, is_external(project_id, external_run_id)) {
        None => result matches Err(e) && e@ == "reported hook Run '"@ + external_run_id
            + "' not found"@,
        Some(run) => if run.ended_at is None {
            result == Ok::<Run, Error>(run)
        } else {
            result matches Err(e) && e@ == ended_text(run)
        },
    }
}

/// The active Run of a hook.
pub fn required_hook_run(db: &Database, project_id: i64, external_run_id: &str) -> (result: Result<
    Run,
    Error,
>)
    ensures
        is_hook_run(db@.sessions, project_id, external_run_id@, result),
{
    match db.get_run_by_external_id(project_id, external_run_id)? {
        None => Err(
            Error::new(text::cat3("reported hook Run '", external_run_id, "' not found")),
        ),
        Some(run) => if run.is_active() {
            Ok(run)
        } else {
            Err(
                Error::new(
                    text::cat3(
                        "reported hook Run ",
                        run.public_id().as_str(),
                        " is already complete",
                    ),
                ),
            )
        },
    }
}

/// Whether the Run of a hook is there afterwards: the active one, else a new
/// one.
pub open spec fn hook_run_ensured(
    before: Tables,
    after: Tables,
    project_id: i64,
    external_run_id: Seq<char>,
    agent: Agent,
    now: i64,
    result: Result<Run, Error>,
) -> bool {
    match rows::lookup(before.sessions, is_external(project_id, external_run_id)) {
        Some(run) => after == before && if run.ended_at is None {
            result == Ok::<Run, Error>(run)
        } else {
            result matches Err(e) && e@ == ended_text(run)
        },
        None => run_started(
            before,
            after,
            project_id,
            (NewRun {
                name: label_of(agent) + " session "@ + external_run_id,
                kind: "hook"@,
                attribution_mode: "reported"@,
                actor: "agent"@,
                agent: Some(label_of(agent)),
                command: None,
                intent: None,
                external_id: Some(external_run_id),
            }),
            now,
            result,
        ),
    }
}

/// The Run of a hook: the active one, else a new one.
pub fn ensure_hook_run(
    db: &mut Database,
    project_id: i64,
    external_run_id: &str,
    agent: Agent,
    now: i64,
) -> (result: Result<Run, Error>)
    requires
        old(db)@.wf(),
    ensures
        final(db)@.wf(),
        hook_run_ensured(
            old(db)@,
            final(db)@,
            project_id,
            external_run_id@,
            agent,
            now,
            result,
        ),
{
    if let Some(run) = db.get_run_by_external_id(project_id, external_run_id)? {
        if run.is_active() {
            return Ok(run);
        }
        return Err(
            Error::new(
                text::cat3(
                    "reported hook Run ",
                    run.public_id().as_str(),
                    " is already complete",
                ),
            ),
        );
    }
    let name = text::cat3(agent_label(agent), " session ", external_run_id);
    db.start_run_with_attribution(
        project_id,
        name.as_str(),
        "hook",
        "reported",
        "agent",
        Some(agent_label(agent)),
        None,
        None,
        Some(external_run_id),
        now,
    )
}

/// Whether an outcome is a result without its value.
pub open spec fn is_outcome<T>(from: Result<T, Error>, result: Result<(), Error>) -> bool {
    match from {
        Ok(_) => result is Ok,
        Err(e) => result == Err::<(), Error>(e),
    }
}

/// Whether a hook was acted on.
pub open spec fn hook_applied(
    before: Tables,
    after: Tables,
    project_id: i64,
    external_run_id: Seq<char>,
    agent: Agent,
    step: HookStep,
    now: i64,
    result: Result<(), Error>,
) -> bool {
    match step {
        HookStep::Nothing => after == before && result is Ok,
        HookStep::Begin => exists|run: Result<Run, Error>|
            #[trigger] hook_run_ensured(
                before,
                after,
                project_id,
                external_run_id,
                agent,
                now,
                run,
            ) && is_outcome(run, result),
        HookStep::End => match rows::lookup(
            before.sessions,
            is_external(project_id, external_run_id),
        ) {
            Some(run) => if run.ended_at is None {
                exists|done: Result<Run, Error>|
                    #[trigger] run_completed(before, after, run.id, "completed"@, now, done)
                        && is_outcome(done, result)
            } else {
                after == before && result is Ok
            },
            None => after == before && result is Ok,
        },
        HookStep::Open { change_id, paths } => exists|middle: Tables, run: Result<Run, Error>|
            #[trigger] hook_run_ensured(
                before,
                middle,
                project_id,
                external_run_id,
                agent,
                now,
                run,
            ) && change_opened(middle, after, run, change_id@, text::views(paths@), now, result),
        HookStep::Close { change_id, paths } => exists|run: Result<Run, Error>|
            #[trigger] is_hook_run(before.sessions, project_id, external_run_id, run)
                && change_closed(before, after, run, change_id@, text::views(paths@), now, result),
    }
}

/// Whether a change of a Run begins, where there is the Run.
pub open spec fn change_opened(
    before: Tables,
    after: Tables,
    run: Result<Run, Error>,
    change_id: Seq<char>,
    paths: Seq<Seq<char>>,
    now: i64,
    result: Result<(), Error>,
) -> bool {
    match run {
        Err(e) => after == before && result == Err::<(), Error>(e),
        Ok(r) => exists|b: Result<RunBoundary, Error>|
            #[trigger] boundary_opened(before, after, r.id, change_id, paths, now, b)
                && is_outcome(b, result),
    }
}

/// Whether a change of a Run ends, where there are the Run and the change.
pub open spec fn change_closed(
    before: Tables,
    after: Tables,
    run: Result<Run, Error>,
    change_id: Seq<char>,
    paths: Seq<Seq<char>>,
    now: i64,
    result: Result<(), Error>,
) -> bool {
    match run {
        Err(e) => after == before && result == Err::<(), Error>(e),
        Ok(r) => if rows::lookup(before.boundaries, is_change(r.id, change_id)) is None {
            after == before && result is Ok
        } else {
            exists|b: Result<RunBoundary, Error>|
                #[trigger] boundary_closed(before, after, r.id, change_id, paths, now, b)
                    && is_outcome(b, result)
        },
    }
}

/// A result without its value.
fn outcome<T>(from: Result<T, Error>) -> (result: Result<(), Error>)
    ensures
        is_outcome(from, result),
{
    match from {
        Ok(_) => Ok(()),
        Err(e) => Err(e),
    }
}

/// Acts on a hook.
pub fn apply_hook(
    db: &mut Database,
    project_id: i64,
    external_run_id: &str,
    agent: Agent,
    step: &HookStep,
    now: i64,
) -> (result: Result<(), Error>)
    requires
        old(db)@.wf(),
    ensures
        final(db)@.wf(),
        hook_applied(
            old(db)@,
            final(db)@,
            project_id,
            external_run_id@,
            agent,
            *step,
            now,
            result,
        ),
{
    let ghost before = db@;
    match step {
        HookStep::Nothing => Ok(()),
        HookStep::Begin => {
            let run = ensure_hook_run(db, project_id, external_run_id, agent, now);
            assert(hook_run_ensured(
                before,
                db@,
                project_id,
                external_run_id@,
                agent,
                now,
                run,
            ));
            outcome(run)
        },
        HookStep::End => match db.get_run_by_external_id(project_id, external_run_id)? {
            Some(run) => if run.is_active() {
                let done = db.complete_run_at(run.id, "completed", now);
                assert(run_completed(before, db@, run.id, "completed"@, now, done));
                outcome(done)
            } else {
                Ok(())
            },
            None => Ok(()),
        },
        HookStep::Open { change_id, paths } => {
            let run = ensure_hook_run(db, project_id, external_run_id, agent, now);
            let ghost middle = db@;
            let ghost seen = run;
            assert(hook_run_ensured(
                before,
                middle,
                project_id,
                external_run_id@,
                agent,
                now,
                seen,
            ));
            match run {
                Err(e) => Err(e),
                Ok(run) => {
                    let b = db.open_run_boundary_at(run.id, change_id.as_str(), paths, now);
                    assert(boundary_opened(
                        middle,
                        db@,
                        run.id,
                        change_id@,
                        text::views(paths@),
                        now,
                        b,
                    ));
                    let result = outcome(b);
                    assert(change_opened(
                        middle,
                        db@,
                        seen,
                        change_id@,
                        text::views(paths@),
                        now,
                        result,
                    ));
                    result
                },
            }
        },
        HookStep::Close { change_id, paths } => {
            let run = required_hook_run(db, project_id, external_run_id);
            let ghost seen = run;
            assert(is_hook_run(before.sessions, project_id, external_run_id@, seen));
            match run {
                Err(e) => Err(e),
                Ok(run) => match db.get_run_boundary_by_external_id(run.id, change_id.as_str())? {
                    None => Ok(()),
                    Some(_) => {
                        let b = db.close_run_boundary_at(run.id, change_id.as_str(), paths, now);
                        assert(boundary_closed(
                            before,
                            db@,
                            run.id,
                            change_id@,
                            text::views(paths@),
                            now,
                            b,
                        ));
                        outcome(b)
                    },
                },
            }
        },
    }
}

} // verus!
