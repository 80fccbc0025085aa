//! What becomes of the hooks that an agent calls.
use vstd::prelude::*;

use crate::agent_events::is_glob;
use crate::agent_hooks::{
    are_candidates, are_exact_paths, are_reported, header_names, hook_applied, input_names,
    is_hook_step, is_writer, keys_name, keys_patch, led_to, line_names, lines_name, patch_names,
    tool_word, value_names, HookPayload, HookStep,
};
use crate::cli::Agent;
use crate::db::claims::{boundary_closed, is_change};
use crate::db::runs::is_external;
use crate::db::{Claim, Tables};
use crate::error::Error;
use crate::json::{member, JsonView};
use crate::laws::claiming::{
    lemma_closed_change_claims_what_it_announced, lemma_lookup_run, names_one,
};
use crate::laws::recording::is_newest;
use crate::laws::reporting::{is_exact, place_of};
use crate::models::{Run, RunBoundary};
use crate::path;
use crate::places;
use crate::places::Place;
use crate::rows;
use crate::split;
use crate::text;

verus! {

// ── the files of a tool ─────────────────────────────────────────────

/// A tool changes files where its name, whatever its case and its dashes, holds one of
/// the words for it; no other tool does.
pub proof fn lemma_tools_that_change_files(name: Seq<char>)
    ensures
        is_writer(name) <==> text::occurs(tool_word(name), "write"@) || text::occurs(
            tool_word(name),
            "edit"@,
        ) || text::occurs(tool_word(name), "delete"@) || text::occurs(tool_word(name), "rename"@)
            || text::occurs(tool_word(name), "applypatch"@) || text::occurs(
            tool_word(name),
            "movefile"@,
        ) || text::occurs(tool_word(name), "createfile"@),
        forall|i: int|
            0 <= i < tool_word(name).len() ==> #[trigger] tool_word(name)[i] != '_' && tool_word(
                name,
            )[i] != '-' && !('A' <= tool_word(name)[i] <= 'Z'),
        (forall|i: int|
            0 <= i < name.len() ==> #[trigger] name[i] != '_' && name[i] != '-' && !('A' <= name[i]
                <= 'Z')) ==> tool_word(name) == name,
{
    lemma_tool_word(name);
}

/// The word of a tool has no marks and no capitals.
proof fn lemma_tool_word(name: Seq<char>)
    ensures
        forall|i: int|
            0 <= i < tool_word(name).len() ==> #[trigger] tool_word(name)[i] != '_' && tool_word(
                name,
            )[i] != '-' && !('A' <= tool_word(name)[i] <= 'Z'),
        (forall|i: int|
            0 <= i < name.len() ==> #[trigger] name[i] != '_' && name[i] != '-' && !('A' <= name[i]
                <= 'Z')) ==> tool_word(name) == name,
    decreases name.len(),
{
    if name.len() > 0 {
        let front = name.drop_last();
        lemma_tool_word(front);
        let n = front.len() as int;
        assert(name[n] == name.last());
        let c = name.last();
        if 'A' <= c <= 'Z' {
            assert('a' <= text::lower_char(c) <= 'z');
        }
        assert forall|i: int| 0 <= i < tool_word(name).len() implies #[trigger] tool_word(name)[i]
            != '_' && tool_word(name)[i] != '-' && !('A' <= tool_word(name)[i] <= 'Z') by {
            if i < tool_word(front).len() {
                assert(tool_word(name)[i] == tool_word(front)[i]);
            } else {
                assert(tool_word(name)[i] == text::lower_char(c));
            }
        }
        if forall|i: int|
            0 <= i < name.len() ==> #[trigger] name[i] != '_' && name[i] != '-' && !('A' <= name[i]
                <= 'Z') {
            assert forall|i: int| 0 <= i < front.len() implies #[trigger] front[i] != '_'
                && front[i] != '-' && !('A' <= front[i] <= 'Z') by {
                assert(front[i] == name[i]);
            }
            assert(name[n] != '_' && name[n] != '-' && !('A' <= name[n] <= 'Z'));
            assert(front.push(name.last()) =~= name);
        }
    } else {
        assert(tool_word(name) =~= name);
    }
}

/// Whether a value is a path, or a list with it.
pub open spec fn has_path(value: Option<JsonView>, name: Seq<char>) -> bool {
    match value {
        Some(JsonView::Text(p)) => p == name,
        Some(JsonView::List(items)) => exists|i: int|
            0 <= i < items.len() && #[trigger] items[i] == JsonView::Text(name),
        _ => false,
    }
}

/// Whether a field of a tool's input holds a path.
pub open spec fn has_path_field(fields: Seq<(Seq<char>, JsonView)>, name: Seq<char>) -> bool {
    ||| has_path(member(fields, "file_path"@), name)
    ||| has_path(member(fields, "path"@), name)
    ||| has_path(member(fields, "target_path"@), name)
    ||| has_path(member(fields, "target_file"@), name)
    ||| has_path(member(fields, "target_notebook"@), name)
    ||| has_path(member(fields, "source_path"@), name)
    ||| has_path(member(fields, "destination_path"@), name)
    ||| has_path(member(fields, "old_path"@), name)
    ||| has_path(member(fields, "new_path"@), name)
}

/// Whether a value is a patch that names a file.
pub open spec fn has_patch(value: Option<JsonView>, name: Seq<char>) -> bool {
    value matches Some(JsonView::Text(patch)) && patch_names(patch, name)
}

/// Whether a field of a tool's input holds a patch that names a file.
pub open spec fn has_patch_field(fields: Seq<(Seq<char>, JsonView)>, name: Seq<char>) -> bool {
    ||| has_patch(member(fields, "patch"@), name)
    ||| has_patch(member(fields, "input"@), name)
    ||| has_patch(member(fields, "patch_text"@), name)
}

/// The input of a tool names the files that its fields for paths hold, and those that
/// its patches name.
pub proof fn lemma_input_names_its_files(
    fields: Seq<(Seq<char>, JsonView)>,
    list: Seq<Seq<char>>,
    name: Seq<char>,
)
    requires
        are_exact_paths(JsonView::Object(fields), list),
    ensures
        list.contains(name) <==> has_path_field(fields, name) || has_patch_field(fields, name),
{
    let keys = crate::agent_hooks::path_keys();
    let patches = crate::agent_hooks::patch_keys();
    assert(keys[0] == "file_path"@ && keys[1] == "path"@ && keys[2] == "target_path"@);
    assert(keys[3] == "target_file"@ && keys[4] == "target_notebook"@ && keys[5]
        == "source_path"@);
    assert(keys[6] == "destination_path"@ && keys[7] == "old_path"@ && keys[8] == "new_path"@);
    assert(keys.len() == 9);
    assert(patches[0] == "patch"@ && patches[1] == "input"@ && patches[2] == "patch_text"@);
    assert(patches.len() == 3);
    assert forall|v: Option<JsonView>| #[trigger] value_names(v, name) <==> has_path(v, name) by {
        if let Some(JsonView::List(items)) = v {
            if items.contains(JsonView::Text(name)) {
                let i = choose|i: int| 0 <= i < items.len() && items[i] == JsonView::Text(name);
                assert(items[i] == JsonView::Text(name));
            }
        }
    }
    if keys_name(fields, keys, name) {
        let k = choose|k: int|
            0 <= k < keys.len() && value_names(member(fields, #[trigger] keys[k]), name);
        assert(has_path(member(fields, keys[k]), name));
    }
    if has_path_field(fields, name) {
        assert(exists|k: int| 0 <= k < keys.len() && has_path(member(fields, #[trigger] keys[k]), name)) by {
            if has_path(member(fields, keys[0]), name) {
            } else if has_path(member(fields, keys[1]), name) {
            } else if has_path(member(fields, keys[2]), name) {
            } else if has_path(member(fields, keys[3]), name) {
            } else if has_path(member(fields, keys[4]), name) {
            } else if has_path(member(fields, keys[5]), name) {
            } else if has_path(member(fields, keys[6]), name) {
            } else if has_path(member(fields, keys[7]), name) {
            } else {
                assert(has_path(member(fields, keys[8]), name));
            }
        }
        let k = choose|k: int| 0 <= k < keys.len() && has_path(member(fields, #[trigger] keys[k]), name);
        assert(value_names(member(fields, keys[k]), name));
    }
    if keys_patch(fields, patches, name) {
        let k = choose|k: int|
            0 <= k < patches.len() && crate::agent_hooks::value_patches(
                member(fields, #[trigger] patches[k]),
                name,
            );
        assert(has_patch(member(fields, patches[k]), name));
    }
    if has_patch_field(fields, name) {
        if has_patch(member(fields, patches[0]), name) {
            assert(crate::agent_hooks::value_patches(member(fields, patches[0]), name));
        } else if has_patch(member(fields, patches[1]), name) {
            assert(crate::agent_hooks::value_patches(member(fields, patches[1]), name));
        } else {
            assert(crate::agent_hooks::value_patches(member(fields, patches[2]), name));
        }
    }
    assert(input_names(JsonView::Object(fields), name) <==> list.contains(name));
}

/// A patch that has a line for a file that it adds, updates, deletes or moves to names
/// that file.
pub proof fn lemma_patch_names_its_files(patch: Seq<char>, at: int, name: Seq<char>)
    requires
        name.len() > 0,
        !text::is_white(name[0]),
        !text::is_white(name.last()),
        !text::occurs(name, " -> "@),
        0 <= at < split::lines(patch).len(),
        split::lines(patch)[at] == "*** Add File: "@ + name || split::lines(patch)[at]
            == "*** Update File: "@ + name || split::lines(patch)[at] == "*** Delete File: "@
            + name || split::lines(patch)[at] == "*** Move to: "@ + name,
    ensures
        patch_names(patch, name),
{
    reveal_strlit("*** Add File: ");
    reveal_strlit("*** Update File: ");
    reveal_strlit("*** Delete File: ");
    reveal_strlit("*** Move to: ");
    reveal_strlit(" -> ");
    let line = split::lines(patch)[at];
    assert(line[0] == '*' && line.last() == name.last());
    lemma_trimmed(line);
    lemma_trimmed(name);
    lemma_no_sides(name, " -> "@);
    if line == "*** Add File: "@ + name {
        lemma_header(line, "*** Add File: "@, name);
    } else if line == "*** Update File: "@ + name {
        lemma_header(line, "*** Update File: "@, name);
    } else if line == "*** Delete File: "@ + name {
        lemma_header(line, "*** Delete File: "@, name);
    } else {
        lemma_header(line, "*** Move to: "@, name);
    }
    assert(line_names(split::lines(patch)[at], name));
    assert(lines_name(split::lines(patch), name));
}

/// A line that is a header and a name names it.
proof fn lemma_header(line: Seq<char>, header: Seq<char>, name: Seq<char>)
    requires
        line == header + name,
        name.len() > 0,
        text::trimmed(name) == name,
        text::sides(name, " -> "@) is None,
    ensures
        header_names(line, header, name),
{
    assert(header.is_prefix_of(line)) by {
        assert(line.subrange(0, header.len() as int) =~= header);
    }
    assert(line.skip(header.len() as int) =~= name);
}

/// A text that neither begins nor ends with white space is trimmed.
proof fn lemma_trimmed(s: Seq<char>)
    requires
        s.len() > 0,
        !text::is_white(s[0]),
        !text::is_white(s.last()),
    ensures
        text::trimmed(s) == s,
{
    assert(text::trim_left(s) == s);
    assert(text::trim_right(s) == s);
}

/// A text in which a mark does not stand has no sides of it.
proof fn lemma_no_sides(s: Seq<char>, mark: Seq<char>)
    requires
        !text::occurs(s, mark),
    ensures
        text::sides(s, mark) is None,
    decreases s.len(),
{
    if mark.is_prefix_of(s) {
        assert(s.subrange(0, mark.len() as int) =~= mark);
        assert(text::occurs_at(s, mark, 0));
    }
    if s.len() > 0 {
        let rest = s.skip(1);
        if text::occurs(rest, mark) {
            let i = choose|i: int| text::occurs_at(rest, mark, i);
            assert(s.subrange(i + 1, i + 1 + mark.len()) =~= rest.subrange(i, i + mark.len()));
            assert(text::occurs_at(s, mark, i + 1));
        }
        lemma_no_sides(rest, mark);
    }
}

/// Whether a path that a tool is called on is passed over: it says nothing, or it is a
/// pattern.
pub open spec fn is_vague(input: Seq<char>) -> bool {
    let said = text::trimmed(input);
    said.len() == 0 || exists|i: int|
        0 <= i < said.len() && (#[trigger] said[i] == '*' || said[i] == '?' || said[i] == '['
            || said[i] == ']' || said[i] == '{' || said[i] == '}')
}

/// A path is passed over where it is a pattern.
proof fn lemma_vague(input: Seq<char>)
    ensures
        is_vague(input) <==> text::trimmed(input).len() == 0 || is_glob(text::trimmed(input)),
{
    let said = text::trimmed(input);
    if is_glob(said) {
        let i = choose|i: int|
            0 <= i < said.len() && crate::agent_events::is_glob_char(#[trigger] said[i]);
        assert(said[i] == said[i]);
    }
    if said.len() > 0 && is_vague(input) {
        let i = choose|i: int|
            0 <= i < said.len() && (#[trigger] said[i] == '*' || said[i] == '?' || said[i] == '['
                || said[i] == ']' || said[i] == '{' || said[i] == '}');
        assert(crate::agent_events::is_glob_char(said[i]));
    }
}

/// Whether a path leads out of a project.
pub open spec fn leads_out(
    disk: Seq<Place>,
    root: Seq<char>,
    project_root: Seq<char>,
    input: Seq<char>,
) -> bool {
    !path::is_at_or_below(place_of(disk, root, input), places::real_root(disk, project_root))
}

/// Paths are led to files one by one.
proof fn lemma_led(
    disk: Seq<Place>,
    root: Seq<char>,
    project_root: Seq<char>,
    list: Seq<Seq<char>>,
)
    ensures
        led_to(disk, root, project_root, list) is Err <==> exists|i: int|
            0 <= i < list.len() && !is_vague(#[trigger] list[i]) && leads_out(
                disk,
                root,
                project_root,
                list[i],
            ),
        led_to(disk, root, project_root, list) is Ok ==> forall|f: Seq<char>| #[trigger]
            led_to(disk, root, project_root, list)->Ok_0.contains(f) <==> exists|i: int|
                0 <= i < list.len() && is_exact(disk, root, project_root, #[trigger] list[i]) && f
                    == place_of(disk, root, list[i]),
    decreases list.len(),
{
    if list.len() > 0 {
        let front = list.drop_last();
        let n = front.len() as int;
        lemma_led(disk, root, project_root, front);
        assert(list[n] == list.last());
        assert forall|i: int| 0 <= i < n implies #[trigger] list[i] == front[i] by {}
        lemma_vague(list[n]);
        lemma_exact(disk, root, project_root, list[n]);
        let before = led_to(disk, root, project_root, front);
        let now = led_to(disk, root, project_root, list);
        if before is Err {
            let i = choose|i: int|
                0 <= i < front.len() && !is_vague(#[trigger] front[i]) && leads_out(
                    disk,
                    root,
                    project_root,
                    front[i],
                );
            assert(!is_vague(list[i]));
        } else if now is Ok {
            assert forall|i: int| 0 <= i < list.len() && !is_vague(#[trigger] list[i]) implies !leads_out(
                disk,
                root,
                project_root,
                list[i],
            ) by {
                if i < n {
                    assert(!is_vague(front[i]));
                }
            }
            let files = now->Ok_0;
            let earlier = before->Ok_0;
            assert forall|f: Seq<char>| #[trigger] files.contains(f) <==> exists|i: int|
                0 <= i < list.len() && is_exact(disk, root, project_root, #[trigger] list[i]) && f
                    == place_of(disk, root, list[i]) by {
                if files.contains(f) {
                    let k = choose|k: int| 0 <= k < files.len() && files[k] == f;
                    if k < earlier.len() {
                        assert(earlier[k] == f);
                        assert(earlier.contains(f));
                        let i = choose|i: int|
                            0 <= i < front.len() && is_exact(
                                disk,
                                root,
                                project_root,
                                #[trigger] front[i],
                            ) && f == place_of(disk, root, front[i]);
                        assert(is_exact(disk, root, project_root, list[i]));
                    } else {
                        assert(is_exact(disk, root, project_root, list[n]));
                    }
                }
                if exists|i: int|
                    0 <= i < list.len() && is_exact(disk, root, project_root, #[trigger] list[i])
                        && f == place_of(disk, root, list[i]) {
                    let i = choose|i: int|
                        0 <= i < list.len() && is_exact(disk, root, project_root, #[trigger] list[i])
                            && f == place_of(disk, root, list[i]);
                    if i < n {
                        assert(is_exact(disk, root, project_root, front[i]));
                        assert(earlier.contains(f));
                        let k = choose|k: int| 0 <= k < earlier.len() && earlier[k] == f;
                        assert(files[k] == f);
                    } else {
                        assert(files[earlier.len() as int] == f);
                    }
                }
            }
        } else {
            assert(!is_vague(list[n]) && leads_out(disk, root, project_root, list[n]));
        }
    }
}

/// A path names a file exactly where it is not passed over, stays in the project and
/// leads to no folder.
proof fn lemma_exact(disk: Seq<Place>, root: Seq<char>, project_root: Seq<char>, input: Seq<char>)
    ensures
        is_exact(disk, root, project_root, input) <==> !is_vague(input) && !leads_out(
            disk,
            root,
            project_root,
            input,
        ) && !places::leads_to(disk, root, text::trimmed(input)).1,
{
    let said = text::trimmed(input);
    if !is_vague(input) {
        assert forall|i: int| 0 <= i < said.len() implies #[trigger] said[i] != '*' && said[i]
            != '?' && said[i] != '[' && said[i] != ']' && said[i] != '{' && said[i] != '}' by {}
    }
    if is_exact(disk, root, project_root, input) && is_vague(input) {
        let i = choose|i: int|
            0 <= i < said.len() && (#[trigger] said[i] == '*' || said[i] == '?' || said[i] == '['
                || said[i] == ']' || said[i] == '{' || said[i] == '}');
        assert(said[i] != '*');
    }
}

/// A hook of a tool that changes files reports each file that the tool's input names
/// exactly, by where it is; a path that leads out of the project is refused. A hook of
/// any other tool reports nothing.
pub proof fn lemma_hook_reports_the_files_of_its_tool(
    payload: HookPayload,
    fields: Seq<(Seq<char>, JsonView)>,
    root: Seq<char>,
    project_root: Seq<char>,
    disk: Seq<Place>,
    name: Seq<char>,
    result: Result<Vec<String>, Error>,
)
    requires
        are_reported(payload, root, project_root, disk, result),
        payload.tool_name is Some,
        payload.tool_input is Some,
        payload.tool_input->0@ == JsonView::Object(fields),
        has_path_field(fields, name) || has_patch_field(fields, name),
    ensures
        is_writer(payload.tool_name->0@) && is_exact(disk, root, project_root, name) && result is Ok
            ==> text::views(result->Ok_0@).contains(place_of(disk, root, name)),
        is_writer(payload.tool_name->0@) && !is_vague(name) && leads_out(
            disk,
            root,
            project_root,
            name,
        ) ==> result is Err,
        !is_writer(payload.tool_name->0@) ==> result is Ok && result->Ok_0@.len() == 0,
{
    let tool = payload.tool_name->0@;
    if is_writer(tool) {
        let list = choose|list: Seq<Seq<char>>|
            #[trigger] are_candidates(tool, JsonView::Object(fields), list)
                && crate::agent_hooks::are_led_to(disk, root, project_root, list, result);
        lemma_candidate(tool, fields, list, name);
        lemma_led(disk, root, project_root, list);
        let k = choose|k: int| 0 <= k < list.len() && list[k] == name;
        assert(list[k] == name);
        if !is_vague(name) && leads_out(disk, root, project_root, name) {
            assert(!is_vague(list[k]) && leads_out(disk, root, project_root, list[k]));
        }
        if is_exact(disk, root, project_root, name) && result is Ok {
            let files = led_to(disk, root, project_root, list)->Ok_0;
            assert(is_exact(disk, root, project_root, list[k]));
            assert(files.contains(place_of(disk, root, list[k])));
        }
    }
}

/// What the input of a tool names is what the tool is called on.
proof fn lemma_candidate(
    tool: Seq<char>,
    fields: Seq<(Seq<char>, JsonView)>,
    list: Seq<Seq<char>>,
    name: Seq<char>,
)
    requires
        are_candidates(tool, JsonView::Object(fields), list),
        has_path_field(fields, name) || has_patch_field(fields, name),
    ensures
        list.contains(name),
{
    let (named, patched) = choose|named: Seq<Seq<char>>, patched: Seq<Seq<char>>|
        {
            &&& #[trigger] are_exact_paths(JsonView::Object(fields), named)
            &&& #[trigger] crate::agent_hooks::are_command_paths(
                tool,
                JsonView::Object(fields),
                patched,
            )
            &&& list == named + patched
        };
    lemma_input_names_its_files(fields, named, name);
    let k = choose|k: int| 0 <= k < named.len() && named[k] == name;
    assert(list[k] == name);
}

/// Whether a tool's input is a patch that names a file, or the command of a tool that
/// applies patches is one.
pub open spec fn runs_patch(tool: Seq<char>, input: JsonView, name: Seq<char>) -> bool {
    ||| input matches JsonView::Text(patch) && patch_names(patch, name)
    ||| text::occurs(tool_word(tool), "applypatch"@) && (input matches JsonView::Object(fields)
        && has_patch(member(fields, "command"@), name))
}

/// A hook of a tool that applies a patch reports each file that the patch names exactly,
/// whether the patch is the whole input or the command; one that leads out of the project
/// is refused.
pub proof fn lemma_hook_reports_the_files_of_a_patch(
    payload: HookPayload,
    root: Seq<char>,
    project_root: Seq<char>,
    disk: Seq<Place>,
    name: Seq<char>,
    result: Result<Vec<String>, Error>,
)
    requires
        are_reported(payload, root, project_root, disk, result),
        payload.tool_name is Some,
        payload.tool_input is Some,
        is_writer(payload.tool_name->0@),
        runs_patch(payload.tool_name->0@, payload.tool_input->0@, name),
    ensures
        is_exact(disk, root, project_root, name) && result is Ok ==> text::views(
            result->Ok_0@,
        ).contains(place_of(disk, root, name)),
        !is_vague(name) && leads_out(disk, root, project_root, name) ==> result is Err,
{
    let tool = payload.tool_name->0@;
    let input = payload.tool_input->0@;
    let list = choose|list: Seq<Seq<char>>|
        #[trigger] are_candidates(tool, input, list) && crate::agent_hooks::are_led_to(
            disk,
            root,
            project_root,
            list,
            result,
        );
    let (named, patched) = choose|named: Seq<Seq<char>>, patched: Seq<Seq<char>>|
        {
            &&& #[trigger] are_exact_paths(input, named)
            &&& #[trigger] crate::agent_hooks::are_command_paths(tool, input, patched)
            &&& list == named + patched
        };
    if input matches JsonView::Text(patch) && patch_names(patch, name) {
        assert(input_names(input, name));
        assert(named.contains(name));
        let k = choose|k: int| 0 <= k < named.len() && named[k] == name;
        assert(list[k] == name);
    } else {
        assert(patched.contains(name));
        let k = choose|k: int| 0 <= k < patched.len() && patched[k] == name;
        assert(list[named.len() + k] == name);
    }
    assert(list.contains(name));
    lemma_led(disk, root, project_root, list);
    let k = choose|k: int| 0 <= k < list.len() && list[k] == name;
    if !is_vague(name) && leads_out(disk, root, project_root, name) {
        assert(!is_vague(list[k]) && leads_out(disk, root, project_root, list[k]));
    }
    if is_exact(disk, root, project_root, name) && result is Ok {
        let files = led_to(disk, root, project_root, list)->Ok_0;
        assert(is_exact(disk, root, project_root, list[k]));
        assert(files.contains(place_of(disk, root, list[k])));
    }
}

// ── steps ───────────────────────────────────────────────────────────

/// A session that starts begins its Run, and one that ends ends it, unless it only ends
/// to be resumed, compacted or continued. A tool that is about to change files opens a
/// change on them, and one that has done so closes it, under the id of its use.
pub proof fn lemma_what_a_hook_asks_for(
    event: Seq<char>,
    payload: HookPayload,
    root: Seq<char>,
    project_root: Seq<char>,
    disk: Seq<Place>,
    result: Result<HookStep, Error>,
)
    requires
        is_hook_step(event, payload, root, project_root, disk, result),
    ensures
        event == "sessionstart"@ ==> result == Ok::<HookStep, Error>(HookStep::Begin),
        event == "sessionend"@ && payload.reason is None ==> result == Ok::<HookStep, Error>(
            HookStep::End,
        ),
        event == "sessionend"@ && payload.reason is Some && text::occurs(
            text::lower(payload.reason->0@),
            "resume"@,
        ) ==> result == Ok::<HookStep, Error>(HookStep::Nothing),
        event == "sessionend"@ && payload.reason is Some && text::occurs(
            text::lower(payload.reason->0@),
            "compact"@,
        ) ==> result == Ok::<HookStep, Error>(HookStep::Nothing),
        event == "sessionend"@ && payload.reason is Some && text::occurs(
            text::lower(payload.reason->0@),
            "continue"@,
        ) ==> result == Ok::<HookStep, Error>(HookStep::Nothing),
        event == "sessionend"@ && payload.reason is Some && !text::occurs(
            text::lower(payload.reason->0@),
            "resume"@,
        ) && !text::occurs(text::lower(payload.reason->0@), "compact"@) && !text::occurs(
            text::lower(payload.reason->0@),
            "continue"@,
        ) ==> result == Ok::<HookStep, Error>(HookStep::End),
        (event == "pretooluse"@ || event == "posttooluse"@ || event == "posttoolusefailure"@) && (
        payload.tool_use_id is None || payload.tool_name is None || payload.tool_input is None
            || !is_writer(payload.tool_name->0@)) ==> result == Ok::<HookStep, Error>(
            HookStep::Nothing,
        ),
        event == "pretooluse"@ && result is Ok ==> result->Ok_0 is Open || result->Ok_0 is Nothing,
        event == "posttooluse"@ || event == "posttoolusefailure"@ ==> (result is Ok
            ==> result->Ok_0 is Close || result->Ok_0 is Nothing),
        result matches Ok(HookStep::Open { change_id, paths }) ==> payload.tool_use_id is Some
            && change_id@ == payload.tool_use_id->0@ && paths@.len() > 0 && are_reported(
            payload,
            root,
            project_root,
            disk,
            Ok(paths),
        ),
        result matches Ok(HookStep::Close { change_id, paths }) ==> payload.tool_use_id is Some
            && change_id@ == payload.tool_use_id->0@ && paths@.len() > 0 && are_reported(
            payload,
            root,
            project_root,
            disk,
            Ok(paths),
        ),
{
    reveal_strlit("sessionstart");
    reveal_strlit("sessionend");
    reveal_strlit("pretooluse");
    reveal_strlit("posttooluse");
    reveal_strlit("posttoolusefailure");
    assert("sessionstart"@.len() == 12 && "sessionend"@.len() == 10);
    assert("sessionend"@[0] == 's' && "pretooluse"@[0] == 'p' && "pretooluse"@[1] == 'r');
    assert("pretooluse"@.len() == 10 && "posttooluse"@.len() == 11);
    assert("posttoolusefailure"@.len() == 18);
}

/// Whether a Run of a project has an external id.
pub open spec fn is_known_as(run: Run, project_id: i64, external_run_id: Seq<char>) -> bool {
    run.project_id == project_id && (run.external_id matches Some(id) && id@ == external_run_id)
}

/// A Run with an external id is looked up by it.
pub proof fn lemma_known(t: Tables, run: Run, external_run_id: Seq<char>)
    requires
        t.wf(),
        t.sessions.contains(run),
        is_known_as(run, run.project_id, external_run_id),
    ensures
        rows::lookup(t.sessions, is_external(run.project_id, external_run_id)) == Some(run),
{
    let keep = is_external(run.project_id, external_run_id);
    let at = choose|at: int| 0 <= at < t.sessions.len() && t.sessions[at] == run;
    assert(keep(run));
    assert forall|k: int| 0 <= k < at implies !keep(#[trigger] t.sessions[k]) by {
        assert(!crate::db::same_run(t.sessions[k], t.sessions[at]));
    }
    rows::lemma_lookup(t.sessions, keep, Some(at));
}

/// Where the Run of a hook is there, beginning it again changes nothing. Else it is
/// begun as a reported Run of the agent, behind all changes of the project.
pub proof fn lemma_hook_begins_its_run_once(
    before: Tables,
    after: Tables,
    project_id: i64,
    external_run_id: Seq<char>,
    agent: Agent,
    now: i64,
    result: Result<(), Error>,
)
    requires
        before.wf(),
        hook_applied(
            before,
            after,
            project_id,
            external_run_id,
            agent,
            HookStep::Begin,
            now,
            result,
        ),
    ensures
        forall|i: int|
            0 <= i < before.sessions.len() && is_known_as(
                #[trigger] before.sessions[i],
                project_id,
                external_run_id,
            ) ==> after == before && (result is Ok <==> before.sessions[i].ended_at is None),
        (forall|i: int|
            0 <= i < before.sessions.len() ==> !is_known_as(
                #[trigger] before.sessions[i],
                project_id,
                external_run_id,
            )) && result is Ok ==> {
            let run = after.sessions[before.sessions.len() as int];
            &&& after.sessions.len() == before.sessions.len() + 1
            &&& is_known_as(run, project_id, external_run_id)
            &&& run.ended_at is None
            &&& run.attribution_mode@ == "reported"@
            &&& run.actor@ == "agent"@
            &&& run.kind@ == "hook"@
            &&& is_newest(before.events, project_id, run.start_event_id)
            &&& after.events == before.events
        },
{
    let keep = is_external(project_id, external_run_id);
    rows::lemma_lookup_kept(before.sessions, keep);
    crate::db::events::lemma_max_id(before.events, project_id);
    assert forall|i: int|
        0 <= i < before.sessions.len() && is_known_as(
            #[trigger] before.sessions[i],
            project_id,
            external_run_id,
        ) implies rows::lookup(before.sessions, keep) == Some(before.sessions[i]) by {
        lemma_known(before, before.sessions[i], external_run_id);
    }
    if let Some(run) = rows::lookup(before.sessions, keep) {
        let k = choose|k: int| 0 <= k < before.sessions.len() && before.sessions[k] == run;
        assert(is_known_as(before.sessions[k], project_id, external_run_id));
    }
}

/// When a hook closes an open change, its Run claims every change since then to a file
/// that the hook reports.
pub proof fn lemma_hook_edit_is_claimed(
    before: Tables,
    after: Tables,
    run: Run,
    external_run_id: Seq<char>,
    agent: Agent,
    opened: RunBoundary,
    change_id: String,
    paths: Vec<String>,
    now: i64,
    result: Result<(), Error>,
)
    requires
        before.wf(),
        before.sessions.contains(run),
        is_known_as(run, run.project_id, external_run_id),
        before.boundaries.contains(opened),
        opened.run_id == run.id,
        opened.status@ == "open"@,
        opened.external_change_id@ == change_id@,
        hook_applied(
            before,
            after,
            run.project_id,
            external_run_id,
            agent,
            HookStep::Close { change_id, paths },
            now,
            result,
        ),
        result is Ok,
    ensures
        run.ended_at is None,
        forall|i: int|
            0 <= i < before.events.len() && (#[trigger] before.events[i]).id
                > opened.start_event_id && names_one(
                before.events[i],
                run.project_id,
                text::views(paths@),
            ) ==> after.claims.contains(
                Claim { session_id: run.id, event_id: before.events[i].id },
            ),
        forall|c: Claim| before.claims.contains(c) ==> #[trigger] after.claims.contains(c),
        after.events == before.events,
{
    lemma_known(before, run, external_run_id);
    lemma_lookup_run(before, run);
    let list = text::views(paths@);
    let keep = is_change(run.id, change_id@);
    rows::lemma_lookup_kept(before.boundaries, keep);
    let k = choose|k: int| 0 <= k < before.boundaries.len() && before.boundaries[k] == opened;
    assert(keep(before.boundaries[k]));
    let found = choose|r: Result<Run, Error>|
        #[trigger] crate::agent_hooks::is_hook_run(
            before.sessions,
            run.project_id,
            external_run_id,
            r,
        ) && crate::agent_hooks::change_closed(before, after, r, change_id@, list, now, result);
    let b = choose|b: Result<RunBoundary, Error>|
        #[trigger] boundary_closed(before, after, run.id, change_id@, list, now, b)
            && crate::agent_hooks::is_outcome(b, result);
    lemma_closed_change_claims_what_it_announced(
        before,
        after,
        run,
        opened,
        list,
        now,
        b,
        b->Ok_0,
    );
}

} // verus!
