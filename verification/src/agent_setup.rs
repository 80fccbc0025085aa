//! Installing the hooks that report what an agent changes.
use vstd::prelude::*;
use vstd::string::*;

use crate::cli::{word_of, Agent, AgentKind};
use crate::error::Error;
use crate::json;
use crate::json::{fields_view, items_view, member, text_member, with_member};
use crate::json::{Field, Json, JsonView};
use crate::path;
use crate::rows;
use crate::text;

verus! {

/// What marks a command as a hook of this program.
pub const HOOK_MARKER: &'static str = "UNDO_AGENT_HOOK=1";

/// How an agent writes its hooks down.
#[derive(Debug, Clone, Copy, PartialEq, Eq, Structural)]
pub enum HookSchema {
    /// In groups of commands.
    Nested,
    /// As commands.
    Direct,
}

/// How an agent writes its hooks down.
pub open spec fn schema_of(agent: Agent) -> HookSchema {
    match agent.kind {
        AgentKind::Cursor => HookSchema::Direct,
        _ => HookSchema::Nested,
    }
}

/// The events of an agent that are hooked.
pub open spec fn events_of(agent: Agent) -> Seq<Seq<char>> {
    match agent.kind {
        AgentKind::Claude => seq![
            "SessionStart"@,
            "SessionEnd"@,
            "PreToolUse"@,
            "PostToolUse"@,
            "PostToolUseFailure"@,
        ],
        AgentKind::Cursor => seq![
            "sessionStart"@,
            "sessionEnd"@,
            "preToolUse"@,
            "postToolUse"@,
            "postToolUseFailure"@,
        ],
        AgentKind::Codex => seq!["SessionStart"@, "SessionEnd"@, "PreToolUse"@, "PostToolUse"@],
    }
}

/// The events of an agent that are hooked.
pub fn hooked_events(agent: Agent) -> (events: Vec<String>)
    ensures
        text::views(events@) == events_of(agent),
{
    let mut events: Vec<String> = Vec::new();
    match agent.kind {
        AgentKind::Claude => {
            text::add_line(&mut events, "SessionStart".to_owned());
            text::add_line(&mut events, "SessionEnd".to_owned());
            text::add_line(&mut events, "PreToolUse".to_owned());
            text::add_line(&mut events, "PostToolUse".to_owned());
            text::add_line(&mut events, "PostToolUseFailure".to_owned());
        },
        AgentKind::Cursor => {
            text::add_line(&mut events, "sessionStart".to_owned());
            text::add_line(&mut events, "sessionEnd".to_owned());
            text::add_line(&mut events, "preToolUse".to_owned());
            text::add_line(&mut events, "postToolUse".to_owned());
            text::add_line(&mut events, "postToolUseFailure".to_owned());
        },
        AgentKind::Codex => {
            text::add_line(&mut events, "SessionStart".to_owned());
            text::add_line(&mut events, "SessionEnd".to_owned());
            text::add_line(&mut events, "PreToolUse".to_owned());
            text::add_line(&mut events, "PostToolUse".to_owned());
        },
    }
    proof {
        assert(text::views(events@) =~= events_of(agent));
    }
    events
}

// ── the command of a hook ───────────────────────────────────────────

/// A text with each single quote closed, quoted and opened again.
pub open spec fn requoted(s: Seq<char>) -> Seq<char>
    decreases s.len(),
{
    if s.len() == 0 {
        Seq::empty()
    } else if s.last() == '\'' {
        requoted(s.drop_last()) + "'\"'\"'"@
    } else {
        requoted(s.drop_last()).push(s.last())
    }
}

/// A text as one word for a shell.
pub open spec fn shell_word(s: Seq<char>) -> Seq<char> {
    "'"@ + requoted(s) + "'"@
}

/// A text as one word for a shell.
pub fn shell_quote(value: &str) -> (word: String)
    ensures
        word@ == shell_word(value@),
{
    let chars = text::chars_of(value);
    let mut out: Vec<char> = Vec::new();
    let inner = text::chars_of("'\"'\"'");
    let mut i: usize = 0;
    while i < chars.len()
        invariant
            i <= chars.len(),
            chars@ == value@,
            inner@ == "'\"'\"'"@,
            out@ == requoted(value@.take(i as int)),
        decreases chars.len() - i,
    {
        proof {
            assert(value@.take(i + 1).drop_last() =~= value@.take(i as int));
        }
        if chars[i] == '\'' {
            let ghost before = out@;
            let mut k: usize = 0;
            while k < inner.len()
                invariant
                    k <= inner.len(),
                    out@ =~= before + inner@.take(k as int),
                decreases inner.len() - k,
            {
                out.push(inner[k]);
                k += 1;
            }
            proof {
                assert(inner@.take(k as int) =~= inner@);
            }
        } else {
            out.push(chars[i]);
        }
        i += 1;
    }
    proof {
        assert(value@.take(i as int) =~= value@);
    }
    text::cat3("'", text::text_from(&out).as_str(), "'")
}

/// The command of a hook, or why there is none.
pub open spec fn command_of(executable: Seq<char>, agent: Agent) -> Result<Seq<char>, Seq<char>> {
    if !path::is_absolute(executable) {
        Err("Undo executable path must be absolute"@)
    } else {
        Ok(
            HOOK_MARKER@ + " "@ + shell_word(executable) + " _hook --agent "@ + word_of(agent)
                + " >/dev/null 2>&1 || true"@,
        )
    }
}

/// The command of a hook.
pub fn hook_command(executable: &str, agent: Agent) -> (result: Result<String, Error>)
    ensures
        match command_of(executable@, agent) {
            Ok(command) => result matches Ok(c) && c@ == command,
            Err(said) => result matches Err(e) && e@ == said,
        },
{
    if !path::absolute(executable) {
        return Err(Error::new("Undo executable path must be absolute".to_owned()));
    }
    let mut command = text::cat3(HOOK_MARKER, " ", shell_quote(executable).as_str());
    command.append(" _hook --agent ");
    command.append(agent.as_str());
    command.append(" >/dev/null 2>&1 || true");
    Ok(command)
}

/// The tools on which an event is hooked.
pub open spec fn matcher_of(agent: Agent, event: Seq<char>) -> Option<Seq<char>> {
    if !text::occurs(text::lower(event), "tooluse"@) {
        None
    } else if agent.kind == AgentKind::Codex {
        Some("apply_patch|Edit|Write"@)
    } else {
        Some("Edit|Write|NotebookEdit|ApplyPatch"@)
    }
}

/// The tools on which an event is hooked.
pub fn tool_matcher(agent: Agent, event: &str) -> (matcher: Option<&'static str>)
    ensures
        text::view_opt_str(matcher) == matcher_of(agent, event@),
{
    let normalized = text::lowercase(event);
    if !text::has(normalized.as_str(), "tooluse") {
        return None;
    }
    match agent.kind {
        AgentKind::Codex => Some("apply_patch|Edit|Write"),
        _ => Some("Edit|Write|NotebookEdit|ApplyPatch"),
    }
}

// ── hooks in a configuration ────────────────────────────────────────

/// What is wrong with a hook.
pub open spec fn hook_problem(hook: JsonView) -> Option<Seq<char>> {
    match hook {
        JsonView::Object(fields) => match member(fields, "command"@) {
            Some(JsonView::Text(_)) => None,
            Some(_) => Some("a hook 'command' must be a string"@),
            None => None,
        },
        _ => Some("command hook entries must be objects"@),
    }
}

/// Tells what is wrong with a hook.
pub fn validate_command_hook(hook: &Json) -> (result: Result<(), Error>)
    ensures
        match hook_problem(hook@) {
            Some(said) => result matches Err(e) && e@ == said,
            None => result is Ok,
        },
{
    match hook {
        Json::Object(fields) => {
            proof {
                json::lemma_object(*fields);
            }
            match json::get_field(fields, "command") {
                Some(value) => match value {
                    Json::Text(_) => Ok(()),
                    _ => Err(Error::new("a hook 'command' must be a string".to_owned())),
                },
                None => Ok(()),
            }
        },
        _ => Err(Error::new("command hook entries must be objects".to_owned())),
    }
}

/// Whether a hook is one that this program installed for an agent.
pub open spec fn is_own(hook: JsonView, agent: Agent) -> bool {
    text_member(hook, "command"@) matches Some(command) && (text::occurs(command, HOOK_MARKER@)
        || text::occurs(command, "_hook --agent "@ + word_of(agent)))
}

/// Whether a hook is one that this program installed for an agent.
pub fn is_undo_hook(hook: &Json, agent: Agent) -> (yes: bool)
    ensures
        yes == is_own(hook@, agent),
{
    match json::get_text(hook, "command") {
        Some(command) => text::has(command, HOOK_MARKER) || text::has(
            command,
            text::cat("_hook --agent ", agent.as_str()).as_str(),
        ),
        None => false,
    }
}

/// The first thing that is wrong with hooks.
pub open spec fn hooks_problem(hooks: Seq<JsonView>) -> Option<Seq<char>>
    decreases hooks.len(),
{
    if hooks.len() == 0 {
        None
    } else {
        match hooks_problem(hooks.drop_last()) {
            Some(said) => Some(said),
            None => hook_problem(hooks.last()),
        }
    }
}

/// What is wrong with the first of hooks is wrong with them.
proof fn lemma_hooks_problem(hooks: Seq<JsonView>, n: int)
    requires
        0 <= n <= hooks.len(),
        hooks_problem(hooks.take(n)) is Some,
    ensures
        hooks_problem(hooks) == hooks_problem(hooks.take(n)),
    decreases hooks.len(),
{
    if n < hooks.len() {
        assert(hooks.drop_last().take(n) =~= hooks.take(n));
        lemma_hooks_problem(hooks.drop_last(), n);
    } else {
        assert(hooks.take(n) =~= hooks);
    }
}

/// Tells the first thing that is wrong with hooks.
fn validate_hooks(hooks: &Vec<Json>) -> (result: Result<(), Error>)
    ensures
        match hooks_problem(items_view(hooks@)) {
            Some(said) => result matches Err(e) && e@ == said,
            None => result is Ok,
        },
{
    let ghost all = items_view(hooks@);
    let mut i: usize = 0;
    while i < hooks.len()
        invariant
            i <= hooks.len(),
            all == items_view(hooks@),
            hooks_problem(all.take(i as int)) is None,
        decreases hooks.len() - i,
    {
        proof {
            assert(all.take(i + 1).drop_last() =~= all.take(i as int));
            assert(all.take(i + 1).last() == hooks@[i as int]@);
        }
        match validate_command_hook(&hooks[i]) {
            Err(e) => {
                proof {
                    lemma_hooks_problem(all, i + 1);
                }
                return Err(e);
            },
            Ok(_) => {},
        }
        i += 1;
    }
    proof {
        assert(all.take(i as int) =~= all);
    }
    Ok(())
}

/// The hooks that this program did not install.
pub open spec fn foreign(agent: Agent) -> spec_fn(JsonView) -> bool {
    |hook: JsonView| !is_own(hook, agent)
}

/// The hooks that this program did not install, in order.
fn drop_own(hooks: Vec<Json>, agent: Agent) -> (rest: Vec<Json>)
    ensures
        items_view(rest@) == rows::retained(items_view(hooks@), foreign(agent)),
{
    let ghost all = items_view(hooks@);
    let mut left = hooks;
    let mut rest: Vec<Json> = Vec::new();
    let ghost mut n: int = 0;
    proof {
        assert(items_view(rest@) =~= rows::retained(all.take(0), foreign(agent)));
        assert(items_view(left@) =~= all.skip(0));
    }
    while left.len() > 0
        invariant
            0 <= n <= all.len(),
            items_view(left@) == all.skip(n),
            items_view(rest@) == rows::retained(all.take(n), foreign(agent)),
        decreases left.len(),
    {
        let ghost before = left@;
        let hook = left.remove(0);
        proof {
            assert(items_view(before).len() == before.len());
            assert(all.skip(n).len() == all.len() - n);
            assert(items_view(before)[0] == hook@);
            assert(all.skip(n)[0] == all[n]);
            assert(all.take(n + 1).drop_last() =~= all.take(n));
            assert(all.take(n + 1).last() == hook@);
            assert(left@ =~= before.skip(1));
            assert(items_view(left@) =~= items_view(before).skip(1));
            assert(all.skip(n).skip(1) =~= all.skip(n + 1));
            n = n + 1;
        }
        if !is_undo_hook(&hook, agent) {
            let ghost earlier = rest@;
            let ghost shown = hook@;
            rest.push(hook);
            proof {
                assert(items_view(rest@) =~= items_view(earlier).push(shown));
            }
        }
    }
    proof {
        assert(items_view(left@).len() == left@.len());
        assert(n == all.len());
        assert(all.take(n) =~= all);
    }
    rest
}

/// What is left of a group of hooks without this program's own: nothing, where
/// only those were in it.
pub open spec fn group_left(entry: JsonView, agent: Agent) -> Result<Option<JsonView>, Seq<char>> {
    match entry {
        JsonView::Object(group) => match member(group, "hooks"@) {
            Some(JsonView::List(hooks)) => match hooks_problem(hooks) {
                Some(said) => Err(said),
                None => {
                    let rest = rows::retained(hooks, foreign(agent));
                    if rest.len() != hooks.len() && rest.len() == 0 {
                        Ok(None)
                    } else {
                        Ok(
                            Some(
                                JsonView::Object(with_member(group, "hooks"@, JsonView::List(rest))),
                            ),
                        )
                    }
                },
            },
            _ => Err("nested hook entries must contain a 'hooks' array"@),
        },
        _ => Err("nested hook entries must be objects"@),
    }
}

/// What is left of a group of hooks without this program's own.
fn rest_of_group(entry: Json, agent: Agent) -> (result: Result<Option<Json>, Error>)
    ensures
        match group_left(entry@, agent) {
            Ok(Some(left)) => result matches Ok(Some(j)) && j@ == left,
            Ok(None) => result matches Ok(None),
            Err(said) => result matches Err(e) && e@ == said,
        },
{
    match entry {
        Json::Object(fields) => {
            proof {
                json::lemma_object(fields);
            }
            let mut group = fields;
            let ghost before = fields_view(group@);
            match json::take_field(&mut group, "hooks") {
                Some(Json::List(hooks)) => {
                    proof {
                        json::lemma_list(hooks);
                    }
                    match validate_hooks(&hooks) {
                        Err(e) => {
                            return Err(e);
                        },
                        Ok(_) => {},
                    }
                    let count = hooks.len();
                    let rest = drop_own(hooks, agent);
                    proof {
                        assert(items_view(rest@).len() == rest@.len());
                        assert(items_view(hooks@).len() == count);
                    }
                    if rest.len() != count && rest.len() == 0 {
                        return Ok(None);
                    }
                    proof {
                        json::lemma_list(rest);
                        json::lemma_with_member_again(
                            before,
                            "hooks"@,
                            JsonView::Null,
                            (Json::List(rest))@,
                        );
                    }
                    json::set_field(&mut group, "hooks", Json::List(rest));
                    proof {
                        json::lemma_object(group);
                    }
                    Ok(Some(Json::Object(group)))
                },
                _ => Err(Error::new("nested hook entries must contain a 'hooks' array".to_owned())),
            }
        },
        _ => Err(Error::new("nested hook entries must be objects".to_owned())),
    }
}

/// What is left of groups of hooks without this program's own.
pub open spec fn groups_left(entries: Seq<JsonView>, agent: Agent) -> Result<
    Seq<JsonView>,
    Seq<char>,
>
    decreases entries.len(),
{
    if entries.len() == 0 {
        Ok(Seq::empty())
    } else {
        match groups_left(entries.drop_last(), agent) {
            Err(said) => Err(said),
            Ok(list) => match group_left(entries.last(), agent) {
                Err(said) => Err(said),
                Ok(None) => Ok(list),
                Ok(Some(left)) => Ok(list.push(left)),
            },
        }
    }
}

/// An error in the first of groups is theirs.
proof fn lemma_groups_error(entries: Seq<JsonView>, agent: Agent, n: int)
    requires
        0 <= n <= entries.len(),
        groups_left(entries.take(n), agent) is Err,
    ensures
        groups_left(entries, agent) == groups_left(entries.take(n), agent),
    decreases entries.len(),
{
    if n < entries.len() {
        assert(entries.drop_last().take(n) =~= entries.take(n));
        lemma_groups_error(entries.drop_last(), agent, n);
    } else {
        assert(entries.take(n) =~= entries);
    }
}

/// What is left of groups of hooks without this program's own.
fn rest_of_groups(entries: Vec<Json>, agent: Agent) -> (result: Result<Vec<Json>, Error>)
    ensures
        match groups_left(items_view(entries@), agent) {
            Ok(left) => result matches Ok(list) && items_view(list@) == left,
            Err(said) => result matches Err(e) && e@ == said,
        },
{
    let ghost all = items_view(entries@);
    let mut queue = entries;
    let mut list: Vec<Json> = Vec::new();
    let ghost mut n: int = 0;
    proof {
        assert(all.take(0) =~= Seq::empty());
        assert(items_view(list@) =~= Seq::empty());
        assert(items_view(queue@) =~= all.skip(0));
    }
    while queue.len() > 0
        invariant
            0 <= n <= all.len(),
            all == items_view(entries@),
            items_view(queue@) == all.skip(n),
            groups_left(all.take(n), agent) == Ok::<Seq<JsonView>, Seq<char>>(items_view(list@)),
        decreases queue.len(),
    {
        let ghost before = queue@;
        let entry = queue.remove(0);
        proof {
            assert(items_view(before).len() == before.len());
            assert(all.skip(n).len() == all.len() - n);
            assert(items_view(before)[0] == entry@);
            assert(all.skip(n)[0] == all[n]);
            assert(all.take(n + 1).drop_last() =~= all.take(n));
            assert(all.take(n + 1).last() == entry@);
            assert(queue@ =~= before.skip(1));
            assert(items_view(queue@) =~= items_view(before).skip(1));
            assert(all.skip(n).skip(1) =~= all.skip(n + 1));
            n = n + 1;
        }
        match rest_of_group(entry, agent) {
            Err(e) => {
                proof {
                    lemma_groups_error(all, agent, n);
                }
                return Err(e);
            },
            Ok(None) => {},
            Ok(Some(left)) => {
                let ghost earlier = list@;
                let ghost shown = left@;
                list.push(left);
                proof {
                    assert(items_view(list@) =~= items_view(earlier).push(shown));
                }
            },
        }
    }
    proof {
        assert(items_view(queue@).len() == queue@.len());
        assert(n == all.len());
        assert(all.take(n) =~= all);
    }
    Ok(list)
}

/// Adds the tools of an event to what is installed for it.
pub open spec fn with_matcher(
    fields: Seq<(Seq<char>, JsonView)>,
    agent: Agent,
    event: Seq<char>,
) -> JsonView {
    match matcher_of(agent, event) {
        Some(m) => JsonView::Object(fields.push(("matcher"@, JsonView::Text(m)))),
        None => JsonView::Object(fields),
    }
}

/// The group of hooks that is installed for an event.
pub open spec fn own_group(agent: Agent, event: Seq<char>, command: Seq<char>) -> JsonView {
    let hook = JsonView::Object(
        seq![("type"@, JsonView::Text("command"@)), ("command"@, JsonView::Text(command))],
    );
    with_matcher(seq![("hooks"@, JsonView::List(seq![hook]))], agent, event)
}

/// The hook that is installed for an event.
pub open spec fn own_hook(agent: Agent, event: Seq<char>, command: Seq<char>) -> JsonView {
    with_matcher(seq![("command"@, JsonView::Text(command))], agent, event)
}

/// The hooks of an event with this program's own: what was there of it goes, and
/// one comes last.
pub open spec fn entries_merged(
    entries: Seq<JsonView>,
    agent: Agent,
    event: Seq<char>,
    command: Seq<char>,
) -> Result<Seq<JsonView>, Seq<char>> {
    match schema_of(agent) {
        HookSchema::Nested => match groups_left(entries, agent) {
            Ok(list) => Ok(list.push(own_group(agent, event, command))),
            Err(said) => Err(said),
        },
        HookSchema::Direct => match hooks_problem(entries) {
            Some(said) => Err(said),
            None => Ok(
                rows::retained(entries, foreign(agent)).push(own_hook(agent, event, command)),
            ),
        },
    }
}

/// An object of texts and the tools of an event.
fn object_with_matcher(fields: Vec<Field>, agent: Agent, event: &str) -> (object: Json)
    ensures
        object@ == with_matcher(fields_view(fields@), agent, event@),
{
    let mut fields = fields;
    let ghost before = fields_view(fields@);
    match tool_matcher(agent, event) {
        Some(m) => {
            fields.push(Field { name: "matcher".to_owned(), value: Json::Text(m.to_owned()) });
            proof {
                assert(fields_view(fields@) =~= before.push(
                    ("matcher"@, JsonView::Text(m@)),
                ));
            }
        },
        None => {},
    }
    proof {
        json::lemma_object(fields);
    }
    Json::Object(fields)
}

/// The hooks of an event with this program's own, for groups of hooks.
pub fn merge_nested_event(entries: Vec<Json>, agent: Agent, event: &str, command: &str) -> (result:
    Result<Vec<Json>, Error>)
    ensures
        match groups_left(items_view(entries@), agent) {
            Ok(left) => result matches Ok(list) && items_view(list@) == left.push(
                own_group(agent, event@, command@),
            ),
            Err(said) => result matches Err(e) && e@ == said,
        },
{
    let mut list = rest_of_groups(entries, agent)?;
    let mut fields: Vec<Field> = Vec::new();
    fields.push(Field { name: "type".to_owned(), value: Json::Text("command".to_owned()) });
    fields.push(Field { name: "command".to_owned(), value: Json::Text(command.to_owned()) });
    proof {
        json::lemma_object(fields);
        assert(fields_view(fields@) =~= seq![
            ("type"@, JsonView::Text("command"@)),
            ("command"@, JsonView::Text(command@)),
        ]);
    }
    let hook = Json::Object(fields);
    let ghost shown = hook@;
    let mut hooks: Vec<Json> = Vec::new();
    hooks.push(hook);
    proof {
        json::lemma_list(hooks);
        assert(items_view(hooks@) =~= seq![shown]);
    }
    let list_value = Json::List(hooks);
    let ghost listed = list_value@;
    let mut group: Vec<Field> = Vec::new();
    group.push(Field { name: "hooks".to_owned(), value: list_value });
    proof {
        assert(fields_view(group@) =~= seq![("hooks"@, listed)]);
    }
    let own = object_with_matcher(group, agent, event);
    let ghost earlier = items_view(list@);
    let ghost added = own@;
    list.push(own);
    proof {
        assert(items_view(list@) =~= earlier.push(added));
    }
    Ok(list)
}

/// The hooks of an event with this program's own, for single hooks.
pub fn merge_direct_event(entries: Vec<Json>, agent: Agent, event: &str, command: &str) -> (result:
    Result<Vec<Json>, Error>)
    ensures
        match hooks_problem(items_view(entries@)) {
            Some(said) => result matches Err(e) && e@ == said,
            None => result matches Ok(list) && items_view(list@) == rows::retained(
                items_view(entries@),
                foreign(agent),
            ).push(own_hook(agent, event@, command@)),
        },
{
    validate_hooks(&entries)?;
    let mut list = drop_own(entries, agent);
    let mut fields: Vec<Field> = Vec::new();
    fields.push(Field { name: "command".to_owned(), value: Json::Text(command.to_owned()) });
    proof {
        assert(fields_view(fields@) =~= seq![("command"@, JsonView::Text(command@))]);
    }
    let own = object_with_matcher(fields, agent, event);
    let ghost earlier = items_view(list@);
    let ghost added = own@;
    list.push(own);
    proof {
        assert(items_view(list@) =~= earlier.push(added));
    }
    Ok(list)
}

/// The hooks of a configuration with this program's own for some events.
pub open spec fn events_merged(
    hooks: Seq<(Seq<char>, JsonView)>,
    agent: Agent,
    events: Seq<Seq<char>>,
    command: Seq<char>,
) -> Result<Seq<(Seq<char>, JsonView)>, Seq<char>>
    decreases events.len(),
{
    if events.len() == 0 {
        Ok(hooks)
    } else {
        match events_merged(hooks, agent, events.drop_last(), command) {
            Err(said) => Err(said),
            Ok(before) => event_merged(before, agent, events.last(), command),
        }
    }
}

/// The hooks of a configuration with this program's own for an event.
pub open spec fn event_merged(
    hooks: Seq<(Seq<char>, JsonView)>,
    agent: Agent,
    event: Seq<char>,
    command: Seq<char>,
) -> Result<Seq<(Seq<char>, JsonView)>, Seq<char>> {
    let entries = match member(hooks, event) {
        Some(JsonView::List(entries)) => Ok(entries),
        Some(_) => Err("hook event '"@ + event + "' must be an array"@),
        None => Ok(Seq::empty()),
    };
    match entries {
        Err(said) => Err(said),
        Ok(entries) => match entries_merged(entries, agent, event, command) {
            Err(said) => Err(said),
            Ok(list) => Ok(with_member(hooks, event, JsonView::List(list))),
        },
    }
}

/// The fields of a configuration with the version that an agent asks for.
pub open spec fn versioned(root: Seq<(Seq<char>, JsonView)>, agent: Agent) -> Result<
    Seq<(Seq<char>, JsonView)>,
    Seq<char>,
> {
    if agent.kind != AgentKind::Cursor {
        Ok(root)
    } else {
        match member(root, "version"@) {
            Some(JsonView::Number(n)) => if n == "1"@ {
                Ok(root)
            } else {
                Err("Cursor hook version must be 1"@)
            },
            Some(_) => Err("Cursor hook version must be 1"@),
            None => Ok(with_member(root, "version"@, JsonView::Number("1"@))),
        }
    }
}

/// The hooks of a configuration, where it can have some.
pub open spec fn hooks_of(root: Seq<(Seq<char>, JsonView)>) -> Result<
    Seq<(Seq<char>, JsonView)>,
    Seq<char>,
> {
    match member(root, "hooks"@) {
        Some(JsonView::Object(hooks)) => Ok(hooks),
        Some(_) => Err("'hooks' must be an object"@),
        None => Ok(Seq::empty()),
    }
}

/// A configuration with this program's hooks, or why it cannot have them.
pub open spec fn merged(config: JsonView, agent: Agent, executable: Seq<char>) -> Result<
    JsonView,
    Seq<char>,
> {
    match config {
        JsonView::Object(fields) => match versioned(fields, agent) {
            Err(said) => Err(said),
            Ok(root) => match hooks_of(root) {
                Err(said) => Err(said),
                Ok(hooks) => match command_of(executable, agent) {
                    Err(said) => Err(said),
                    Ok(command) => match events_merged(hooks, agent, events_of(agent), command) {
                        Err(said) => Err(said),
                        Ok(all) => Ok(
                            JsonView::Object(with_member(root, "hooks"@, JsonView::Object(all))),
                        ),
                    },
                },
            },
        },
        _ => Err("the top-level JSON value must be an object"@),
    }
}

/// An error on the first of events is that of all.
proof fn lemma_events_error(
    hooks: Seq<(Seq<char>, JsonView)>,
    agent: Agent,
    events: Seq<Seq<char>>,
    command: Seq<char>,
    n: int,
)
    requires
        0 <= n <= events.len(),
        events_merged(hooks, agent, events.take(n), command) is Err,
    ensures
        events_merged(hooks, agent, events, command) == events_merged(
            hooks,
            agent,
            events.take(n),
            command,
        ),
    decreases events.len(),
{
    if n < events.len() {
        assert(events.drop_last().take(n) =~= events.take(n));
        lemma_events_error(hooks, agent, events.drop_last(), command, n);
    } else {
        assert(events.take(n) =~= events);
    }
}

/// The hooks of a configuration with this program's own for an event.
fn merge_event(hooks: Vec<Field>, agent: Agent, event: &str, command: &str) -> (result: Result<
    Vec<Field>,
    Error,
>)
    ensures
        match event_merged(fields_view(hooks@), agent, event@, command@) {
            Ok(after) => result matches Ok(list) && fields_view(list@) == after,
            Err(said) => result matches Err(e) && e@ == said,
        },
{
    let ghost before = fields_view(hooks@);
    let mut hooks = hooks;
    let ghost mut entries: Seq<JsonView> = Seq::empty();
    let own = match json::take_field(&mut hooks, event) {
        Some(Json::List(list)) => {
            proof {
                json::lemma_list(list);
                entries = items_view(list@);
            }
            list
        },
        Some(_) => {
            return Err(Error::new(text::cat3("hook event '", event, "' must be an array")));
        },
        None => {
            let list: Vec<Json> = Vec::new();
            proof {
                assert(items_view(list@) =~= Seq::empty());
            }
            list
        },
    };
    assert(items_view(own@) == entries);
    let list = match agent.kind {
        AgentKind::Cursor => merge_direct_event(own, agent, event, command)?,
        _ => merge_nested_event(own, agent, event, command)?,
    };
    proof {
        json::lemma_list(list);
        json::lemma_with_member_again(before, event@, JsonView::Null, (Json::List(list))@);
    }
    json::set_field(&mut hooks, event, Json::List(list));
    Ok(hooks)
}

/// Gives the version that an agent asks for.
fn give_version(root: &mut Vec<Field>, agent: Agent) -> (result: Result<(), Error>)
    ensures
        match versioned(fields_view(old(root)@), agent) {
            Ok(after) => result is Ok && fields_view(final(root)@) == after,
            Err(said) => result matches Err(e) && e@ == said,
        },
{
    if agent.kind != AgentKind::Cursor {
        return Ok(());
    }
    match json::get_field(root, "version") {
        Some(value) => {
            match value {
                Json::Number(n) => {
                    if text::same(n.as_str(), "1") {
                        return Ok(());
                    }
                },
                _ => {},
            }
            Err(Error::new("Cursor hook version must be 1".to_owned()))
        },
        None => {
            json::set_field(root, "version", Json::Number("1".to_owned()));
            Ok(())
        },
    }
}

/// A configuration with this program's hooks.
pub fn merge_hooks(config: Json, agent: Agent, executable: &str) -> (result: Result<Json, Error>)
    ensures
        match merged(config@, agent, executable@) {
            Ok(after) => result matches Ok(j) && j@ == after,
            Err(said) => result matches Err(e) && e@ == said,
        },
{
    let mut root = match config {
        Json::Object(fields) => {
            proof {
                json::lemma_object(fields);
            }
            fields
        },
        _ => {
            return Err(Error::new("the top-level JSON value must be an object".to_owned()));
        },
    };
    give_version(&mut root, agent)?;
    let ghost rooted = fields_view(root@);
    let mut hooks: Vec<Field> = match json::take_field(&mut root, "hooks") {
        Some(Json::Object(hooks)) => {
            proof {
                json::lemma_object(hooks);
            }
            hooks
        },
        Some(_) => {
            return Err(Error::new("'hooks' must be an object".to_owned()));
        },
        None => {
            let list: Vec<Field> = Vec::new();
            proof {
                assert(fields_view(list@) =~= Seq::empty());
            }
            list
        },
    };
    let ghost start = fields_view(hooks@);
    let command = hook_command(executable, agent)?;
    let events = hooked_events(agent);
    let ghost all = events_of(agent);
    let mut i: usize = 0;
    proof {
        assert(all.take(0) =~= Seq::empty());
    }
    while i < events.len()
        invariant
            i <= events.len(),
            all == text::views(events@),
            events_merged(start, agent, all.take(i as int), command@) == Ok::<
                Seq<(Seq<char>, JsonView)>,
                Seq<char>,
            >(fields_view(hooks@)),
            hooks_of(rooted) == Ok::<Seq<(Seq<char>, JsonView)>, Seq<char>>(start),
            command_of(executable@, agent) == Ok::<Seq<char>, Seq<char>>(command@),
            all == events_of(agent),
            config@ is Object,
            versioned(config@->Object_0, agent) == Ok::<Seq<(Seq<char>, JsonView)>, Seq<char>>(
                rooted,
            ),
        decreases events.len() - i,
    {
        proof {
            assert(all.take(i + 1).drop_last() =~= all.take(i as int));
            assert(all.take(i + 1).last() == events@[i as int]@);
        }
        hooks =
        match merge_event(hooks, agent, events[i].as_str(), command.as_str()) {
            Ok(after) => after,
            Err(e) => {
                proof {
                    lemma_events_error(start, agent, all, command@, i + 1);
                }
                return Err(e);
            },
        };
        i += 1;
    }
    proof {
        assert(all.take(i as int) =~= all);
        json::lemma_object(hooks);
        json::lemma_with_member_again(rooted, "hooks"@, JsonView::Null, (Json::Object(hooks))@);
    }
    json::set_field(&mut root, "hooks", Json::Object(hooks));
    proof {
        json::lemma_object(root);
    }
    Ok(Json::Object(root))
}

// ── laws ────────────────────────────────────────────────────────────

/// What was kept once is kept.
proof fn lemma_retained_again<T>(rows: Seq<T>, keep: spec_fn(T) -> bool)
    ensures
        rows::retained(rows::retained(rows, keep), keep) == rows::retained(rows, keep),
{
    let kept = rows::retained(rows, keep);
    rows::lemma_retained_contains(rows, keep);
    assert forall|i: int| 0 <= i < kept.len() implies keep(#[trigger] kept[i]) by {
        assert(kept.contains(kept[i]));
    }
    rows::lemma_retained_all(kept, keep);
}

/// Nothing is wrong with some of hooks where nothing is wrong with all.
proof fn lemma_problem_free(hooks: Seq<JsonView>, keep: spec_fn(JsonView) -> bool)
    requires
        hooks_problem(hooks) is None,
    ensures
        hooks_problem(rows::retained(hooks, keep)) is None,
    decreases hooks.len(),
{
    if hooks.len() > 0 {
        lemma_problem_free(hooks.drop_last(), keep);
        let before = rows::retained(hooks.drop_last(), keep);
        if keep(hooks.last()) {
            assert(before.push(hooks.last()).drop_last() =~= before);
        }
    }
}

/// The command of this program's hook is known as its own.
proof fn lemma_command_is_own(executable: Seq<char>, agent: Agent)
    requires
        command_of(executable, agent) is Ok,
    ensures
        text::occurs(command_of(executable, agent)->Ok_0, HOOK_MARKER@),
{
    let command = command_of(executable, agent)->Ok_0;
    assert(command.subrange(0, HOOK_MARKER@.len() as int) =~= HOOK_MARKER@);
    assert(text::occurs_at(command, HOOK_MARKER@, 0));
}

/// What this program installs for an event is known as its own.
proof fn lemma_own(agent: Agent, event: Seq<char>, command: Seq<char>)
    requires
        text::occurs(command, HOOK_MARKER@),
    ensures
        is_own(own_hook(agent, event, command), agent),
        hook_problem(own_hook(agent, event, command)) is None,
        group_left(own_group(agent, event, command), agent) == Ok::<Option<JsonView>, Seq<char>>(
            None,
        ),
{
    reveal_strlit("type");
    reveal_strlit("command");
    let own = own_hook(agent, event, command);
    json::lemma_place_is(own->Object_0, "command"@, 0);
    let hook = JsonView::Object(
        seq![("type"@, JsonView::Text("command"@)), ("command"@, JsonView::Text(command))],
    );
    assert("type"@ != "command"@) by {
        assert("type"@.len() == 4);
        assert("command"@.len() == 7);
    }
    json::lemma_place_is(hook->Object_0, "command"@, 1);
    assert(is_own(hook, agent));
    let group = own_group(agent, event, command);
    json::lemma_place_is(group->Object_0, "hooks"@, 0);
    let hooks = seq![hook];
    assert(hooks.drop_last() =~= Seq::empty());
    reveal_with_fuel(hooks_problem, 2);
    reveal_with_fuel(rows::retained, 2);
    assert(hooks_problem(hooks) is None);
    assert(rows::retained(hooks, foreign(agent)) =~= Seq::empty());
}

/// What is left of a group is left of that.
proof fn lemma_group_again(entry: JsonView, agent: Agent)
    requires
        group_left(entry, agent) matches Ok(Some(_)),
    ensures
        group_left(group_left(entry, agent)->Ok_0->Some_0, agent) == group_left(entry, agent),
{
    let group = entry->Object_0;
    let hooks = member(group, "hooks"@)->Some_0->List_0;
    let rest = rows::retained(hooks, foreign(agent));
    let after = with_member(group, "hooks"@, JsonView::List(rest));
    json::lemma_with_member(group, "hooks"@, JsonView::List(rest));
    lemma_problem_free(hooks, foreign(agent));
    lemma_retained_again(hooks, foreign(agent));
    json::lemma_with_same_member(after, "hooks"@);
}

/// What is left of groups is left of that.
proof fn lemma_groups_again(entries: Seq<JsonView>, agent: Agent)
    requires
        groups_left(entries, agent) is Ok,
    ensures
        groups_left(groups_left(entries, agent)->Ok_0, agent) == groups_left(entries, agent),
    decreases entries.len(),
{
    if entries.len() > 0 {
        lemma_groups_again(entries.drop_last(), agent);
        let before = groups_left(entries.drop_last(), agent)->Ok_0;
        match group_left(entries.last(), agent) {
            Ok(Some(left)) => {
                lemma_group_again(entries.last(), agent);
                assert(before.push(left).drop_last() =~= before);
            },
            _ => {},
        }
    }
}

/// To install the hooks of an event a second time changes nothing.
proof fn lemma_entries_again(
    entries: Seq<JsonView>,
    agent: Agent,
    event: Seq<char>,
    command: Seq<char>,
)
    requires
        text::occurs(command, HOOK_MARKER@),
        entries_merged(entries, agent, event, command) is Ok,
    ensures
        entries_merged(entries_merged(entries, agent, event, command)->Ok_0, agent, event, command)
            == entries_merged(entries, agent, event, command),
{
    lemma_own(agent, event, command);
    match schema_of(agent) {
        HookSchema::Nested => {
            lemma_groups_again(entries, agent);
            let list = groups_left(entries, agent)->Ok_0;
            let own = own_group(agent, event, command);
            assert(list.push(own).drop_last() =~= list);
        },
        HookSchema::Direct => {
            lemma_problem_free(entries, foreign(agent));
            lemma_retained_again(entries, foreign(agent));
            let list = rows::retained(entries, foreign(agent));
            let own = own_hook(agent, event, command);
            assert(list.push(own).drop_last() =~= list);
        },
    }
}

/// Whether the hooks of an event are as this program would leave them.
pub open spec fn is_settled(
    hooks: Seq<(Seq<char>, JsonView)>,
    agent: Agent,
    event: Seq<char>,
    command: Seq<char>,
) -> bool {
    member(hooks, event) matches Some(JsonView::List(entries)) && entries_merged(
        entries,
        agent,
        event,
        command,
    ) == Ok::<Seq<JsonView>, Seq<char>>(entries)
}

/// Installing leaves the hooks of the events settled, and those of other events
/// as they were.
proof fn lemma_events_settled(
    hooks: Seq<(Seq<char>, JsonView)>,
    agent: Agent,
    events: Seq<Seq<char>>,
    command: Seq<char>,
)
    requires
        text::occurs(command, HOOK_MARKER@),
        events_merged(hooks, agent, events, command) is Ok,
    ensures
        forall|i: int|
            0 <= i < events.len() ==> is_settled(
                events_merged(hooks, agent, events, command)->Ok_0,
                agent,
                #[trigger] events[i],
                command,
            ),
        forall|other: Seq<char>|
            !events.contains(other) ==> #[trigger] member(
                events_merged(hooks, agent, events, command)->Ok_0,
                other,
            ) == member(hooks, other),
    decreases events.len(),
{
    if events.len() > 0 {
        let front = events.drop_last();
        let event = events.last();
        lemma_events_settled(hooks, agent, front, command);
        let before = events_merged(hooks, agent, front, command)->Ok_0;
        let after = events_merged(hooks, agent, events, command)->Ok_0;
        let entries = match member(before, event) {
            Some(JsonView::List(entries)) => entries,
            _ => Seq::empty(),
        };
        let list = entries_merged(entries, agent, event, command)->Ok_0;
        lemma_entries_again(entries, agent, event, command);
        json::lemma_with_member(before, event, JsonView::List(list));
        assert(after == with_member(before, event, JsonView::List(list)));
        assert forall|i: int| 0 <= i < events.len() implies is_settled(
            after,
            agent,
            #[trigger] events[i],
            command,
        ) by {
            if events[i] != event {
                assert(front[i] == events[i]);
                assert(member(after, events[i]) == member(before, events[i]));
            }
        }
        assert forall|other: Seq<char>| !events.contains(other) implies #[trigger] member(
            after,
            other,
        ) == member(hooks, other) by {
            assert(events[events.len() - 1] == event);
            assert(other != event);
            assert(!front.contains(other)) by {
                if front.contains(other) {
                    let k = choose|k: int| 0 <= k < front.len() && front[k] == other;
                    assert(events[k] == other);
                }
            }
            assert(member(after, other) == member(before, other));
        }
    }
}

/// Installing changes nothing where all is settled.
proof fn lemma_settled_stays(
    hooks: Seq<(Seq<char>, JsonView)>,
    agent: Agent,
    events: Seq<Seq<char>>,
    command: Seq<char>,
)
    requires
        forall|i: int|
            0 <= i < events.len() ==> is_settled(hooks, agent, #[trigger] events[i], command),
    ensures
        events_merged(hooks, agent, events, command) == Ok::<
            Seq<(Seq<char>, JsonView)>,
            Seq<char>,
        >(hooks),
    decreases events.len(),
{
    if events.len() > 0 {
        let front = events.drop_last();
        assert forall|i: int| 0 <= i < front.len() implies is_settled(
            hooks,
            agent,
            #[trigger] front[i],
            command,
        ) by {
            assert(front[i] == events[i]);
        }
        lemma_settled_stays(hooks, agent, front, command);
        assert(is_settled(hooks, agent, events[events.len() - 1], command));
        json::lemma_with_same_member(hooks, events.last());
    }
}

/// To install the hooks a second time changes nothing.
pub proof fn lemma_merge_idempotent(config: JsonView, agent: Agent, executable: Seq<char>)
    requires
        merged(config, agent, executable) is Ok,
    ensures
        merged(merged(config, agent, executable)->Ok_0, agent, executable) == merged(
            config,
            agent,
            executable,
        ),
{
    reveal_strlit("hooks");
    reveal_strlit("version");
    assert("hooks"@.len() != "version"@.len());
    let root = versioned(config->Object_0, agent)->Ok_0;
    let hooks = hooks_of(root)->Ok_0;
    let command = command_of(executable, agent)->Ok_0;
    let events = events_of(agent);
    let all = events_merged(hooks, agent, events, command)->Ok_0;
    let after = with_member(root, "hooks"@, JsonView::Object(all));
    lemma_command_is_own(executable, agent);
    lemma_events_settled(hooks, agent, events, command);
    lemma_settled_stays(all, agent, events, command);
    json::lemma_with_member(config->Object_0, "version"@, JsonView::Number("1"@));
    json::lemma_with_member(root, "hooks"@, JsonView::Object(all));
    assert(member(after, "version"@) == member(root, "version"@));
    json::lemma_with_same_member(after, "hooks"@);
}

/// Whether an entry among the hooks of an event has nothing of this program in
/// it.
pub open spec fn is_unrelated(entry: JsonView, agent: Agent) -> bool {
    match schema_of(agent) {
        HookSchema::Nested => entry matches JsonView::Object(group) && (member(group, "hooks"@)
            matches Some(JsonView::List(hooks)) && forall|i: int|
            0 <= i < hooks.len() ==> !is_own(#[trigger] hooks[i], agent)),
        HookSchema::Direct => !is_own(entry, agent),
    }
}

/// Groups of hooks with nothing of this program stay.
proof fn lemma_groups_kept(entries: Seq<JsonView>, agent: Agent, entry: JsonView)
    requires
        schema_of(agent) == HookSchema::Nested,
        groups_left(entries, agent) is Ok,
        entries.contains(entry),
        is_unrelated(entry, agent),
    ensures
        groups_left(entries, agent)->Ok_0.contains(entry),
    decreases entries.len(),
{
    let k = choose|k: int| 0 <= k < entries.len() && entries[k] == entry;
    let before = groups_left(entries.drop_last(), agent)->Ok_0;
    let after = groups_left(entries, agent)->Ok_0;
    if k == entries.len() - 1 {
        let group = entry->Object_0;
        let hooks = member(group, "hooks"@)->Some_0->List_0;
        rows::lemma_retained_all(hooks, foreign(agent));
        json::lemma_with_same_member(group, "hooks"@);
        assert(group_left(entry, agent) == Ok::<Option<JsonView>, Seq<char>>(Some(entry)));
        assert(after.last() == entry);
    } else {
        assert(entries.drop_last()[k] == entry);
        lemma_groups_kept(entries.drop_last(), agent, entry);
        let m = choose|m: int| 0 <= m < before.len() && before[m] == entry;
        assert(after[m] == entry);
    }
}

/// Installing the hooks leaves the rest of a configuration as it was: its other
/// fields, the hooks of other events, and, of the events that are hooked, the
/// entries with nothing of this program in them.
pub proof fn lemma_merge_keeps_others(
    config: JsonView,
    agent: Agent,
    executable: Seq<char>,
    event: Seq<char>,
    entry: JsonView,
)
    requires
        merged(config, agent, executable) is Ok,
    ensures
        config is Object,
        merged(config, agent, executable)->Ok_0 is Object,
        forall|name: Seq<char>|
            name != "hooks"@ && (name != "version"@ || member(config->Object_0, name) is Some)
                ==> #[trigger] member(merged(config, agent, executable)->Ok_0->Object_0, name)
                == member(config->Object_0, name),
        hooks_of(config->Object_0) is Ok,
        hooks_of(merged(config, agent, executable)->Ok_0->Object_0) is Ok,
        !events_of(agent).contains(event) ==> member(
            hooks_of(merged(config, agent, executable)->Ok_0->Object_0)->Ok_0,
            event,
        ) == member(hooks_of(config->Object_0)->Ok_0, event),
        (member(hooks_of(config->Object_0)->Ok_0, event) matches Some(JsonView::List(entries))
            && entries.contains(entry) && is_unrelated(entry, agent)) ==> (member(
            hooks_of(merged(config, agent, executable)->Ok_0->Object_0)->Ok_0,
            event,
        ) matches Some(JsonView::List(entries)) && entries.contains(entry)),
{
    reveal_strlit("hooks");
    reveal_strlit("version");
    assert("hooks"@.len() != "version"@.len());
    let fields = config->Object_0;
    let root = versioned(fields, agent)->Ok_0;
    let hooks = hooks_of(root)->Ok_0;
    let command = command_of(executable, agent)->Ok_0;
    let events = events_of(agent);
    let all = events_merged(hooks, agent, events, command)->Ok_0;
    let after = with_member(root, "hooks"@, JsonView::Object(all));
    lemma_command_is_own(executable, agent);
    lemma_events_settled(hooks, agent, events, command);
    json::lemma_with_member(fields, "version"@, JsonView::Number("1"@));
    json::lemma_with_member(root, "hooks"@, JsonView::Object(all));
    assert(member(root, "hooks"@) == member(fields, "hooks"@));
    assert(hooks_of(fields) == hooks_of(root));
    assert forall|name: Seq<char>|
        name != "hooks"@ && (name != "version"@ || member(
            fields,
            name,
        ) is Some) implies #[trigger] member(after, name) == member(fields, name) by {
        assert(member(after, name) == member(root, name));
    }
    lemma_entry_kept(hooks, agent, events, command, event, entry);
}

/// What is kept of two lists is what is kept of each.
proof fn lemma_retained_both<T>(a: Seq<T>, b: Seq<T>, keep: spec_fn(T) -> bool)
    ensures
        rows::retained(a + b, keep) == rows::retained(a, keep) + rows::retained(b, keep),
    decreases b.len(),
{
    if b.len() == 0 {
        assert(a + b =~= a);
        assert(rows::retained(a, keep) + rows::retained(b, keep) =~= rows::retained(a, keep));
    } else {
        let front = b.drop_last();
        lemma_retained_both(a, front, keep);
        assert((a + b).drop_last() =~= a + front);
        assert((a + b).last() == b.last());
        if keep(b.last()) {
            assert(rows::retained(a, keep) + rows::retained(front, keep).push(b.last()) =~= (
            rows::retained(a, keep) + rows::retained(front, keep)).push(b.last()));
        }
    }
}

/// The hooks in a group.
pub open spec fn group_hooks(entry: JsonView) -> Seq<JsonView> {
    match entry {
        JsonView::Object(group) => match member(group, "hooks"@) {
            Some(JsonView::List(hooks)) => hooks,
            _ => Seq::empty(),
        },
        _ => Seq::empty(),
    }
}

/// The hooks in groups, one group after the other.
pub open spec fn grouped_hooks(entries: Seq<JsonView>) -> Seq<JsonView>
    decreases entries.len(),
{
    if entries.len() == 0 {
        Seq::empty()
    } else {
        grouped_hooks(entries.drop_last()) + group_hooks(entries.last())
    }
}

/// The hooks among the entries of an event, in order.
pub open spec fn hooks_among(entries: Seq<JsonView>, agent: Agent) -> Seq<JsonView> {
    match schema_of(agent) {
        HookSchema::Nested => grouped_hooks(entries),
        HookSchema::Direct => entries,
    }
}

/// The entries of an event.
pub open spec fn entries_at(hooks: Seq<(Seq<char>, JsonView)>, event: Seq<char>) -> Seq<JsonView> {
    match member(hooks, event) {
        Some(JsonView::List(entries)) => entries,
        _ => Seq::empty(),
    }
}

/// The entry that is installed for an event.
pub open spec fn own_entry(agent: Agent, event: Seq<char>, command: Seq<char>) -> JsonView {
    match schema_of(agent) {
        HookSchema::Nested => own_group(agent, event, command),
        HookSchema::Direct => own_hook(agent, event, command),
    }
}

/// The only hook in the entry that is installed for an event.
pub open spec fn installed_hook(agent: Agent, event: Seq<char>, command: Seq<char>) -> JsonView {
    match schema_of(agent) {
        HookSchema::Nested => JsonView::Object(
            seq![("type"@, JsonView::Text("command"@)), ("command"@, JsonView::Text(command))],
        ),
        HookSchema::Direct => own_hook(agent, event, command),
    }
}

/// What is left of a group has the other fields of the group.
pub proof fn lemma_group_keeps_fields(entry: JsonView, agent: Agent, name: Seq<char>)
    requires
        group_left(entry, agent) matches Ok(Some(_)),
        name != "hooks"@,
    ensures
        group_left(entry, agent)->Ok_0->Some_0 matches JsonView::Object(left) && member(left, name)
            == member(entry->Object_0, name),
{
    let group = entry->Object_0;
    let hooks = member(group, "hooks"@)->Some_0->List_0;
    let rest = rows::retained(hooks, foreign(agent));
    json::lemma_with_member(group, "hooks"@, JsonView::List(rest));
}

/// The hooks in what is left of groups are those that this program did not
/// install, in order.
proof fn lemma_groups_left_hooks(entries: Seq<JsonView>, agent: Agent)
    requires
        groups_left(entries, agent) is Ok,
    ensures
        grouped_hooks(groups_left(entries, agent)->Ok_0) == rows::retained(
            grouped_hooks(entries),
            foreign(agent),
        ),
    decreases entries.len(),
{
    if entries.len() == 0 {
        assert(grouped_hooks(entries) =~= Seq::empty());
        assert(groups_left(entries, agent)->Ok_0 =~= Seq::empty());
    } else {
        let front = entries.drop_last();
        let entry = entries.last();
        lemma_groups_left_hooks(front, agent);
        let before = groups_left(front, agent)->Ok_0;
        let hooks = group_hooks(entry);
        let rest = rows::retained(hooks, foreign(agent));
        lemma_retained_both(grouped_hooks(front), hooks, foreign(agent));
        match group_left(entry, agent) {
            Ok(Some(left)) => {
                json::lemma_with_member(entry->Object_0, "hooks"@, JsonView::List(rest));
                assert(group_hooks(left) == rest);
                assert(before.push(left).drop_last() =~= before);
            },
            _ => {
                assert(grouped_hooks(before) + rest =~= grouped_hooks(before));
            },
        }
    }
}

/// The hooks of an event after installing: those that this program did not
/// install, in order, and its own last.
proof fn lemma_entries_hooks(
    entries: Seq<JsonView>,
    agent: Agent,
    event: Seq<char>,
    command: Seq<char>,
)
    requires
        entries_merged(entries, agent, event, command) is Ok,
    ensures
        hooks_among(entries_merged(entries, agent, event, command)->Ok_0, agent) == rows::retained(
            hooks_among(entries, agent),
            foreign(agent),
        ).push(installed_hook(agent, event, command)),
{
    match schema_of(agent) {
        HookSchema::Nested => {
            lemma_groups_left_hooks(entries, agent);
            let list = groups_left(entries, agent)->Ok_0;
            let own = own_group(agent, event, command);
            let hook = installed_hook(agent, event, command);
            json::lemma_place_is(own->Object_0, "hooks"@, 0);
            assert(group_hooks(own) == seq![hook]);
            assert(list.push(own).drop_last() =~= list);
            assert(grouped_hooks(list) + seq![hook] =~= grouped_hooks(list).push(hook));
        },
        HookSchema::Direct => {},
    }
}

/// The entries of an event after installing are merged from those before.
proof fn lemma_events_entries(
    hooks: Seq<(Seq<char>, JsonView)>,
    agent: Agent,
    events: Seq<Seq<char>>,
    command: Seq<char>,
    event: Seq<char>,
)
    requires
        text::occurs(command, HOOK_MARKER@),
        events_merged(hooks, agent, events, command) is Ok,
        events.contains(event),
    ensures
        member(events_merged(hooks, agent, events, command)->Ok_0, event) matches Some(
            JsonView::List(list),
        ) && entries_merged(entries_at(hooks, event), agent, event, command) == Ok::<
            Seq<JsonView>,
            Seq<char>,
        >(list),
    decreases events.len(),
{
    let front = events.drop_last();
    let last = events.last();
    let before = events_merged(hooks, agent, front, command)->Ok_0;
    let entries = entries_at(before, last);
    let list = entries_merged(entries, agent, last, command)->Ok_0;
    json::lemma_with_member(before, last, JsonView::List(list));
    if front.contains(event) {
        lemma_events_entries(hooks, agent, front, command, event);
        if event == last {
            lemma_entries_again(entries_at(hooks, event), agent, event, command);
        }
    } else {
        let k = choose|k: int| 0 <= k < events.len() && events[k] == event;
        if k < events.len() - 1 {
            assert(front[k] == event);
        }
        lemma_events_settled(hooks, agent, front, command);
        assert(member(before, event) == member(hooks, event));
    }
}

/// Installing leaves each hooked event with exactly one hook of this program, in
/// the last entry, which runs the executable; before it stand all the hooks that
/// were not this program's, unchanged and in order, in entries that are what was
/// left of the entries before.
pub proof fn lemma_merge_installs_one(
    config: JsonView,
    agent: Agent,
    executable: Seq<char>,
    event: Seq<char>,
)
    requires
        merged(config, agent, executable) is Ok,
        events_of(agent).contains(event),
    ensures
        ({
            let command = command_of(executable, agent)->Ok_0;
            let earlier = entries_at(hooks_of(config->Object_0)->Ok_0, event);
            let entries = entries_at(
                hooks_of(merged(config, agent, executable)->Ok_0->Object_0)->Ok_0,
                event,
            );
            let hooks = hooks_among(entries, agent);
            let hook = installed_hook(agent, event, command);
            &&& command_of(executable, agent) is Ok
            &&& entries.len() > 0
            &&& entries.last() == own_entry(agent, event, command)
            &&& hooks_among(seq![entries.last()], agent) == seq![hook]
            &&& hooks == rows::retained(hooks_among(earlier, agent), foreign(agent)).push(hook)
            &&& text_member(hook, "command"@) == Some(command)
            &&& forall|i: int|
                0 <= i < hooks.len() ==> (is_own(#[trigger] hooks[i], agent) <==> i == hooks.len()
                    - 1)
            &&& match schema_of(agent) {
                HookSchema::Nested => groups_left(earlier, agent) == Ok::<
                    Seq<JsonView>,
                    Seq<char>,
                >(entries.drop_last()),
                HookSchema::Direct => entries.drop_last() == rows::retained(
                    earlier,
                    foreign(agent),
                ),
            }
        }),
{
    reveal_strlit("hooks");
    reveal_strlit("version");
    reveal_strlit("type");
    reveal_strlit("command");
    assert("hooks"@.len() != "version"@.len());
    assert("type"@.len() != "command"@.len());
    let fields = config->Object_0;
    let root = versioned(fields, agent)->Ok_0;
    let before = hooks_of(root)->Ok_0;
    let command = command_of(executable, agent)->Ok_0;
    let events = events_of(agent);
    let all = events_merged(before, agent, events, command)->Ok_0;
    lemma_command_is_own(executable, agent);
    json::lemma_with_member(fields, "version"@, JsonView::Number("1"@));
    json::lemma_with_member(root, "hooks"@, JsonView::Object(all));
    assert(hooks_of(fields) == hooks_of(root));
    lemma_events_entries(before, agent, events, command, event);
    let earlier = entries_at(before, event);
    let entries = entries_at(all, event);
    lemma_entries_hooks(earlier, agent, event, command);
    lemma_own(agent, event, command);
    let own = own_entry(agent, event, command);
    let hook = installed_hook(agent, event, command);
    let kept = rows::retained(hooks_among(earlier, agent), foreign(agent));
    match schema_of(agent) {
        HookSchema::Nested => {
            json::lemma_place_is(own->Object_0, "hooks"@, 0);
            json::lemma_place_is(hook->Object_0, "command"@, 1);
            assert(seq![own].drop_last() =~= Seq::empty());
            reveal_with_fuel(grouped_hooks, 2);
            assert(grouped_hooks(seq![own]) =~= seq![hook]);
            assert(entries.drop_last() =~= groups_left(earlier, agent)->Ok_0);
        },
        HookSchema::Direct => {
            json::lemma_place_is(hook->Object_0, "command"@, 0);
            assert(entries.drop_last() =~= kept);
        },
    }
    assert(is_own(hook, agent));
    rows::lemma_retained_contains(hooks_among(earlier, agent), foreign(agent));
    let hooks = hooks_among(entries, agent);
    assert forall|i: int| 0 <= i < hooks.len() implies (is_own(#[trigger] hooks[i], agent) <==> i
        == hooks.len() - 1) by {
        if i < kept.len() {
            assert(hooks[i] == kept[i]);
            assert(kept.contains(kept[i]));
            assert(foreign(agent)(kept[i]));
        }
    }
}

/// An entry with nothing of this program in it stays.
proof fn lemma_entry_kept(
    hooks: Seq<(Seq<char>, JsonView)>,
    agent: Agent,
    events: Seq<Seq<char>>,
    command: Seq<char>,
    event: Seq<char>,
    entry: JsonView,
)
    requires
        events_merged(hooks, agent, events, command) is Ok,
    ensures
        (member(hooks, event) matches Some(JsonView::List(entries)) && entries.contains(entry)
            && is_unrelated(entry, agent)) ==> (member(
            events_merged(hooks, agent, events, command)->Ok_0,
            event,
        ) matches Some(JsonView::List(entries)) && entries.contains(entry)),
    decreases events.len(),
{
    if events.len() > 0 {
        let front = events.drop_last();
        lemma_entry_kept(hooks, agent, front, command, event, entry);
        let before = events_merged(hooks, agent, front, command)->Ok_0;
        let last = events.last();
        let entries = match member(before, last) {
            Some(JsonView::List(entries)) => entries,
            _ => Seq::empty(),
        };
        let list = entries_merged(entries, agent, last, command)->Ok_0;
        json::lemma_with_member(before, last, JsonView::List(list));
        if event == last && entries.contains(entry) && is_unrelated(entry, agent) {
            let kept = match schema_of(agent) {
                HookSchema::Nested => groups_left(entries, agent)->Ok_0,
                HookSchema::Direct => rows::retained(entries, foreign(agent)),
            };
            match schema_of(agent) {
                HookSchema::Nested => lemma_groups_kept(entries, agent, entry),
                HookSchema::Direct => rows::lemma_retained_contains(entries, foreign(agent)),
            }
            assert(kept.contains(entry));
            let k = choose|k: int| 0 <= k < kept.len() && kept[k] == entry;
            assert(list[k] == entry);
        }
    }
}

// ── the folder of a project ─────────────────────────────────────────

/// The nearest of a folder and those above it that holds a repository, else the
/// folder.
pub open spec fn nearest(names: Seq<Seq<char>>, count: int, marked: Seq<Seq<char>>) -> Seq<char>
    decreases count,
{
    let here = path::path_of(true, names.take(count));
    if marked.contains(here) {
        here
    } else if count <= 0 {
        path::path_of(true, names)
    } else {
        nearest(names, count - 1, marked)
    }
}

/// Where something is found on disk.
#[derive(Debug)]
pub struct Found {
    /// Its path with every link followed.
    pub path: String,
    pub directory: bool,
}

/// The folder of the project that a path is in, or why there is none.
pub open spec fn project_root(
    start: Seq<char>,
    found: Option<(Seq<char>, bool)>,
    marked: Seq<Seq<char>>,
) -> Result<Seq<char>, Seq<char>> {
    match found {
        None => Err("cannot resolve project folder "@ + start),
        Some(at) => {
            let names = path::names(at.0);
            if at.1 {
                Ok(nearest(names, names.len() as int, marked))
            } else if names.len() == 0 {
                Err("project path has no parent"@)
            } else {
                Ok(nearest(names.drop_last(), names.len() - 1, marked))
            }
        },
    }
}

/// The nearest of a folder and those above it that holds a repository, else the
/// folder.
fn nearest_marked(names: &Vec<String>, marked: &Vec<String>) -> (root: String)
    ensures
        root@ == nearest(text::views(names@), names@.len() as int, text::views(marked@)),
{
    let ghost all = text::views(names@);
    let mut part = text::clone_all(names);
    let whole = path::build(true, names);
    proof {
        assert(all.take(names@.len() as int) =~= all);
    }
    loop
        invariant
            part@.len() <= names@.len(),
            all == text::views(names@),
            whole@ == path::path_of(true, all),
            text::views(part@) == all.take(part@.len() as int),
            nearest(all, part@.len() as int, text::views(marked@)) == nearest(
                all,
                names@.len() as int,
                text::views(marked@),
            ),
        decreases part@.len(),
    {
        let here = path::build(true, &part);
        if text::contains(marked, here.as_str()) {
            return here;
        }
        if part.len() == 0 {
            return whole;
        }
        let ghost before = part@;
        let last = part.pop();
        proof {
            assert(part@ =~= before.drop_last());
            assert(text::views(part@) =~= all.take(part@.len() as int));
        }
    }
}

/// The folder of the project that a path is in: the nearest at or above it that
/// holds a repository, among those that are marked.
pub fn project_root_from(start: &str, found: Option<&Found>, marked: &Vec<String>) -> (result:
    Result<String, Error>)
    ensures
        match project_root(
            start@,
            match found {
                Some(f) => Some((f.path@, f.directory)),
                None => None,
            },
            text::views(marked@),
        ) {
            Ok(root) => result matches Ok(r) && r@ == root,
            Err(said) => result matches Err(e) && e@ == said,
        },
{
    let at = match found {
        None => {
            return Err(Error::new(text::cat("cannot resolve project folder ", start)));
        },
        Some(at) => at,
    };
    let mut names = path::path_names(at.path.as_str());
    let ghost all = text::views(names@);
    proof {
        assert(all.len() == names@.len());
    }
    if !at.directory {
        if names.len() == 0 {
            return Err(Error::new("project path has no parent".to_owned()));
        }
        let ghost before = names@;
        let last = names.pop();
        proof {
            assert(names@ =~= before.drop_last());
            assert(text::views(names@) =~= all.drop_last());
        }
    }
    Ok(nearest_marked(&names, marked))
}

/// The folders that are looked at for a repository: a folder and those above it.
pub open spec fn folders_above(names: Seq<Seq<char>>, count: int) -> Seq<Seq<char>>
    decreases count,
{
    let here = path::path_of(true, names.take(count));
    if count <= 0 {
        seq![here]
    } else {
        seq![here] + folders_above(names, count - 1)
    }
}

/// The folders that are looked at for a repository: a folder and those above it.
pub fn ancestors(folder: &str) -> (list: Vec<String>)
    ensures
        text::views(list@) == folders_above(
            path::names(folder@),
            path::names(folder@).len() as int,
        ),
{
    let mut part = path::path_names(folder);
    let ghost all = path::names(folder@);
    let mut list: Vec<String> = Vec::new();
    proof {
        assert(all.len() == part@.len());
        assert(all.take(part@.len() as int) =~= all);
        assert(text::views(list@) + folders_above(all, all.len() as int) =~= folders_above(
            all,
            all.len() as int,
        ));
    }
    loop
        invariant
            part@.len() <= all.len(),
            all == path::names(folder@),
            text::views(part@) == all.take(part@.len() as int),
            text::views(list@) + folders_above(all, part@.len() as int) == folders_above(
                all,
                all.len() as int,
            ),
        decreases part@.len(),
    {
        let here = path::build(true, &part);
        let ghost shown = here@;
        let ghost earlier = text::views(list@);
        text::add_line(&mut list, here);
        if part.len() == 0 {
            proof {
                assert(text::views(list@) =~= earlier + seq![shown]);
            }
            return list;
        }
        let ghost before = part@;
        let last = part.pop();
        proof {
            assert(part@ =~= before.drop_last());
            assert(text::views(part@) =~= all.take(part@.len() as int));
            assert(text::views(list@) + folders_above(all, part@.len() as int) =~= earlier + (
            seq![shown] + folders_above(all, part@.len() as int)));
        }
    }
}

} // verus!
