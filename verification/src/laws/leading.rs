//! Where paths lead, which of them can be announced, and what is counted on the way.
use vstd::prelude::*;

use crate::cli::{Agent, AgentKind};
use crate::db::claims::paths_checked;
use crate::db::projects::is_project;
use crate::db::Tables;
use crate::diff::sign_count;
use crate::groups::{in_group, is_group, label_of, line_total, stem, ChangeGroup};
use crate::models::{FileEvent, Run, WatchedProject};
use crate::path;
use crate::path::{is_absolute, join_spec, names, path_of, resolved};
use crate::places::{deepest, known, leads_to, path_with, Place};
use crate::restore::EntryView;
use crate::restore_fs::confined_below;
use crate::restore_report::write_count;
use crate::rows;
use crate::rows::Row;
use crate::runs::{is_plan, without_separator, RunPlan};

verus! {

// ── names ───────────────────────────────────────────────────────────

/// The step to the parent folder takes away the name before it, whatever comes before and
/// behind; a list of names without such a step stays as it is.
pub proof fn lemma_parent_takes_a_name_away(
    before: Seq<Seq<char>>,
    name: Seq<char>,
    behind: Seq<Seq<char>>,
)
    requires
        name != ".."@,
    ensures
        resolved(before + seq![name, ".."@] + behind) == resolved(before + behind),
        !before.contains(".."@) ==> resolved(before) == before,
    decreases behind.len(),
{
    lemma_resolved_same(before);
    if behind.len() == 0 {
        let step = before + seq![name, ".."@];
        assert(before + seq![name, ".."@] + behind =~= step);
        assert(before + behind =~= before);
        assert(step.drop_last() =~= before.push(name));
        assert(before.push(name).drop_last() =~= before);
        assert(resolved(before.push(name)) == resolved(before).push(name));
        assert(resolved(before).push(name).drop_last() =~= resolved(before));
    } else {
        let shorter = behind.drop_last();
        lemma_parent_takes_a_name_away(before, name, shorter);
        assert((before + seq![name, ".."@] + behind).drop_last() =~= before + seq![name, ".."@]
            + shorter);
        assert((before + behind).drop_last() =~= before + shorter);
    }
}

/// Names without a step to the parent stay.
proof fn lemma_resolved_same(list: Seq<Seq<char>>)
    ensures
        !list.contains(".."@) ==> resolved(list) == list,
    decreases list.len(),
{
    if list.len() > 0 && !list.contains(".."@) {
        let front = list.drop_last();
        if front.contains(".."@) {
            let k = choose|k: int| 0 <= k < front.len() && front[k] == ".."@;
            assert(list[k] == ".."@);
        }
        lemma_resolved_same(front);
        assert(list[list.len() - 1] == list.last());
        assert(front.push(list.last()) =~= list);
    } else if list.len() == 0 {
        assert(resolved(list) =~= list);
    }
}

// ── where a path leads ──────────────────────────────────────────────

/// A path that is there leads to where it really is.
pub proof fn lemma_path_leads_where_it_is(
    disk: Seq<Place>,
    cwd: Seq<char>,
    path: Seq<char>,
    at: int,
)
    requires
        0 <= at < disk.len(),
        disk[at].path@ == join_spec(cwd, path),
        forall|k: int| 0 <= k < at ==> (#[trigger] disk[k]).path@ != join_spec(cwd, path),
    ensures
        leads_to(disk, cwd, path) == (disk[at].canonical@, disk[at].directory),
{
    lemma_known(disk, join_spec(cwd, path), at);
}

/// What is known of a path is what the first place with it says.
proof fn lemma_known(disk: Seq<Place>, path: Seq<char>, at: int)
    requires
        0 <= at < disk.len(),
        disk[at].path@ == path,
        forall|k: int| 0 <= k < at ==> (#[trigger] disk[k]).path@ != path,
    ensures
        known(disk, path) == Some(disk[at]),
    decreases disk.len(),
{
    if at > 0 {
        assert(disk[0].path@ != path);
        let rest = disk.skip(1);
        assert forall|k: int| 0 <= k < at - 1 implies (#[trigger] rest[k]).path@ != path by {
            assert(rest[k] == disk[k + 1]);
        }
        assert(rest[at - 1] == disk[at]);
        lemma_known(rest, path, at - 1);
    }
}

/// A file that is not there yet leads to its own name in the folder that it would be in,
/// by where that folder really is, and to no folder.
pub proof fn lemma_missing_file_leads_into_its_folder(
    disk: Seq<Place>,
    cwd: Seq<char>,
    path: Seq<char>,
    folder: Place,
)
    requires
        is_absolute(join_spec(cwd, path)),
        names(join_spec(cwd, path)).len() > 0,
        !names(join_spec(cwd, path)).contains(".."@),
        known(disk, join_spec(cwd, path)) is None,
        known(disk, path_of(true, names(join_spec(cwd, path)))) is None,
        known(disk, path_of(true, names(join_spec(cwd, path)).drop_last())) == Some(folder),
    ensures
        leads_to(disk, cwd, path) == (
            join_spec(folder.canonical@, names(join_spec(cwd, path)).last()),
            false,
        ),
{
    let whole = join_spec(cwd, path);
    let list = names(whole);
    lemma_resolved_same(list);
    let front = list.drop_last();
    let k = front.len() as int;
    reveal_strlit("/");
    assert(path_of(true, front).len() > 0);
    assert(deepest(disk, true, front) == Some(k));
    assert(deepest(disk, true, list) == Some(k));
    assert(list.take(k) =~= front);
    assert(list.skip(k) =~= seq![list.last()]);
    let one = seq![list.last()];
    assert(one.drop_last() =~= Seq::<Seq<char>>::empty());
    assert(path_with(folder.canonical@, one.drop_last()) == folder.canonical@);
    assert(path_with(folder.canonical@, one) == join_spec(folder.canonical@, list.last()));
}

/// A stored path is a file of a project where it lies below the folder of the project, by
/// its names, and no name is a step to the parent folder.
pub proof fn lemma_stored_paths_stay_in_the_project(root: Seq<char>, path: Seq<char>)
    requires
        root.len() > 0,
    ensures
        confined_below(root, path) is Ok <==> (path::names_below(path, root) matches Some(list)
            && list.len() > 0 && !list.contains(".."@)),
        confined_below(root, path) matches Ok(target) ==> target == path_of(
            false,
            path::names_below(path, root)->0,
        ),
{
}

// ── paths that are announced ────────────────────────────────────────

/// Paths can be announced for a Run where there is at least one, none twice, and each is
/// absolute, without steps, and in the folder of the project of the Run.
pub proof fn lemma_which_paths_can_be_announced(
    t: Tables,
    run: Run,
    project: WatchedProject,
    paths: Seq<Seq<char>>,
    result: Result<Seq<Seq<char>>, Seq<char>>,
)
    requires
        t.wf(),
        t.projects.contains(project),
        run.project_id == project.id,
        paths_checked(t, run, paths, result),
    ensures
        result is Ok <==> paths.len() > 0 && paths.no_duplicates() && forall|i: int|
            0 <= i < paths.len() ==> is_absolute(#[trigger] paths[i]) && !path::has_parent(paths[i])
                && path::names_below(paths[i], project.root_path@) is Some,
        result is Ok ==> forall|p: Seq<char>| #[trigger]
            result->Ok_0.contains(p) <==> paths.contains(p),
{
    let keep = is_project(project.id);
    let at = choose|at: int| 0 <= at < t.projects.len() && t.projects[at] == project;
    assert forall|k: int| 0 <= k < at implies !keep(#[trigger] t.projects[k]) by {
        assert(t.projects[k].row_id() < t.projects[at].row_id());
    }
    rows::lemma_lookup(t.projects, keep, Some(at));
    let root = project.root_path@;
    if exists|i: int|
        0 <= i < paths.len() && !crate::db::claims::is_claimable(#[trigger] paths[i], root) {
        let i = choose|i: int|
            0 <= i < paths.len() && !crate::db::claims::is_claimable(#[trigger] paths[i], root);
        assert(!(is_absolute(paths[i]) && !path::has_parent(paths[i]) && path::names_below(
            paths[i],
            root,
        ) is Some));
    } else {
        assert forall|i: int| 0 <= i < paths.len() implies is_absolute(#[trigger] paths[i])
            && !path::has_parent(paths[i]) && path::names_below(paths[i], root) is Some by {
            assert(crate::db::claims::is_claimable(paths[i], root));
        }
    }
}

// ── counts ──────────────────────────────────────────────────────────

/// The signs of a comparison are counted one by one.
pub proof fn lemma_signs_are_counted(signs: Seq<char>, sign: char)
    ensures
        sign_count(signs, sign) == signs.filter(|c: char| c == sign).len(),
    decreases signs.len(),
{
    reveal(Seq::filter);
    if signs.len() > 0 {
        lemma_signs_are_counted(signs.drop_last(), sign);
    }
}

/// The files that a plan writes are counted one by one.
pub proof fn lemma_writes_are_counted(entries: Seq<EntryView>)
    ensures
        write_count(entries) == entries.filter(|e: EntryView| e.action is Write).len(),
    decreases entries.len(),
{
    reveal(Seq::filter);
    if entries.len() > 0 {
        lemma_writes_are_counted(entries.drop_last());
    }
}

/// How many lines the changes of a group have added, or removed.
pub open spec fn lines_of(
    events: Seq<FileEvent>,
    stats: Seq<(usize, usize)>,
    mine: spec_fn(FileEvent) -> bool,
    added: bool,
) -> Seq<int> {
    Seq::new(
        events.len(),
        |i: int|
            if !mine(events[i]) {
                0int
            } else if added {
                stats[i].0 as int
            } else {
                stats[i].1 as int
            },
    )
}

/// The lines of a group are added up change by change.
proof fn lemma_lines(
    events: Seq<FileEvent>,
    stats: Seq<(usize, usize)>,
    mine: spec_fn(FileEvent) -> bool,
    added: bool,
)
    requires
        stats.len() == events.len(),
    ensures
        line_total(events, stats, mine, added) == lines_of(events, stats, mine, added).fold_left(
            0int,
            |sum: int, n: int| sum + n,
        ),
    decreases events.len(),
{
    let list = lines_of(events, stats, mine, added);
    let plus = |sum: int, n: int| sum + n;
    if events.len() > 0 {
        let a = events.drop_last();
        let b = stats.drop_last();
        lemma_lines(a, b, mine, added);
        assert(lines_of(a, b, mine, added) =~= list.drop_last());
        assert(list.last() == if !mine(events.last()) {
            0int
        } else if added {
            stats.last().0 as int
        } else {
            stats.last().1 as int
        });
    }
}

/// A group tells how many lines its own changes have added and removed in all, each change
/// by its own count, and no others.
pub proof fn lemma_lines_of_a_group_are_added_up(
    root: Seq<char>,
    events: Seq<FileEvent>,
    stats: Seq<(usize, usize)>,
    id: Seq<char>,
    group: ChangeGroup,
)
    requires
        stats.len() == events.len(),
        is_group(root, events, stats, id, group),
    ensures
        group.inserted == lines_of(events, stats, in_group(root, id), true).fold_left(
            0int,
            |sum: int, n: int| sum + n,
        ),
        group.deleted == lines_of(events, stats, in_group(root, id), false).fold_left(
            0int,
            |sum: int, n: int| sum + n,
        ),
{
    lemma_lines(events, stats, in_group(root, id), true);
    lemma_lines(events, stats, in_group(root, id), false);
}


// ── names of files ──────────────────────────────────────────────────

/// A path below a folder is told without the folder; any other path is told whole.
pub proof fn lemma_paths_are_told_from_the_folder(root: Seq<char>, rest: Seq<char>, other: Seq<char>)
    requires
        !(root + "/"@).is_prefix_of(other),
    ensures
        path::relative(root + "/"@ + rest, root) == rest,
        path::relative(other, root) == other,
{
    let lead = root + "/"@;
    let whole = lead + rest;
    assert(lead.is_prefix_of(whole)) by {
        assert(whole.subrange(0, lead.len() as int) =~= lead);
    }
    assert(whole.skip(lead.len() as int) =~= rest);
}

/// The part of a name behind its last dot does not count for its group, and a name
/// without a dot counts whole.
pub proof fn lemma_ending_does_not_count(name: Seq<char>, ending: Seq<char>)
    requires
        forall|i: int| 0 <= i < ending.len() ==> #[trigger] ending[i] != '.',
    ensures
        stem(name + seq!['.'] + ending) == name,
        stem(ending) == ending,
{
    let whole = name + seq!['.'] + ending;
    let at = path::last_at(whole, '.');
    path::lemma_last_at(whole, '.');
    let n = name.len() as int;
    assert(whole[n] == '.');
    if at > n {
        assert(whole[at] == ending[at - n - 1]);
    }
    assert(at == n);
    assert(whole.take(n) =~= name);
    path::lemma_last_at(ending, '.');
    let other = path::last_at(ending, '.');
    if other >= 0 {
        assert(ending[other] == '.');
    }
}

/// A group is called as the files of one of its changes are, by the first such name in
/// their order.
pub proof fn lemma_label_of_a_group(
    root: Seq<char>,
    events: Seq<FileEvent>,
    stats: Seq<(usize, usize)>,
    id: Seq<char>,
    group: ChangeGroup,
    e: FileEvent,
)
    requires
        is_group(root, events, stats, id, group),
        events.contains(e),
        in_group(root, id)(e),
    ensures
        !crate::sorted::less(label_of(path::relative(e.path@, root)), group.label@),
        exists|i: int|
            0 <= i < events.len() && in_group(root, id)(#[trigger] events[i]) && group.label@
                == label_of(path::relative(events[i].path@, root)),
{
    let keep = in_group(root, id);
    let own = rows::retained(events, keep);
    rows::lemma_retained_contains(events, keep);
    let labels = crate::groups::group_labels(root, own);
    let k = choose|k: int| 0 <= k < own.len() && own[k] == e;
    assert(own.contains(e));
    assert(labels[k] == label_of(path::relative(e.path@, root)));
    let m = choose|m: int| 0 <= m < labels.len() && labels[m] == group.label@;
    assert(own.contains(own[m]));
    let i = choose|i: int| 0 <= i < events.len() && events[i] == own[m];
    assert(keep(events[i]));
}


/// The extension of a file is what stands behind the last dot of its name, where
/// something stands before the dot.
pub proof fn lemma_extension_of_a_file(whole: Seq<char>, name: Seq<char>, ending: Seq<char>)
    requires
        names(whole).len() > 0,
        names(whole).last() == name + seq!['.'] + ending,
        name.len() > 0,
        name + seq!['.'] + ending != ".."@,
        forall|i: int| 0 <= i < ending.len() ==> #[trigger] ending[i] != '.',
    ensures
        path::extension(whole) == Some(ending),
{
    let last = names(whole).last();
    let at = path::last_at(last, '.');
    path::lemma_last_at(last, '.');
    let n = name.len() as int;
    assert(last[n] == '.');
    if at > n {
        assert(last[at] == ending[at - n - 1]);
    }
    assert(at == n);
    assert(last.skip(n + 1) =~= ending);
}

// ── commands ────────────────────────────────────────────────────────

/// Whether no word of a command is the separator.
pub open spec fn has_no_separator(words: Seq<String>) -> bool {
    forall|i: int| 0 <= i < words.len() ==> (#[trigger] words[i])@ != "--"@
}

/// The first separator is taken out of a command, and only that; a command without one
/// stays.
pub proof fn lemma_first_separator_goes(before: Seq<String>, mark: String, behind: Seq<String>)
    requires
        has_no_separator(before),
        mark@ == "--"@,
    ensures
        without_separator(before + seq![mark] + behind) == before + behind,
        without_separator(before) == before,
    decreases before.len(),
{
    if before.len() == 0 {
        let whole = before + seq![mark] + behind;
        assert(whole[0] == mark);
        assert(whole.skip(1) =~= behind);
        assert(before + behind =~= behind);
    } else {
        let rest = before.skip(1);
        let whole = before + seq![mark] + behind;
        assert forall|i: int| 0 <= i < rest.len() implies (#[trigger] rest[i])@ != "--"@ by {
            assert(rest[i] == before[i + 1]);
        }
        lemma_first_separator_goes(rest, mark, behind);
        assert(before[0]@ != "--"@);
        assert(whole[0] == before[0]);
        assert(whole.skip(1) =~= rest + seq![mark] + behind);
        assert(seq![before[0]] + (rest + behind) =~= before + behind);
        assert(seq![before[0]] + rest =~= before);
    }
}

/// A command runs as its first word with the others as its arguments, in their order. It
/// acts as an agent where one is named or known by the first word, else as a tool.
pub proof fn lemma_how_a_command_runs(
    plan: RunPlan,
    first: String,
    arguments: Seq<String>,
    agent: Option<Seq<char>>,
    usual: Agent,
)
    requires
        is_plan(plan, seq![first] + arguments, agent, usual),
    ensures
        plan.executable@ == first@,
        plan.arguments@ == arguments,
        agent is Some ==> (plan.agent matches Some(a) && a@ == agent->0),
        plan.agent is Some ==> plan.actor@ == "agent"@,
        plan.agent is None ==> plan.actor@ == "tool"@,
        agent is None && path::file_name(first@) == Some("codex"@) && usual.kind == AgentKind::Codex
            ==> (plan.agent matches Some(a) && a@ == "Codex"@),
{
    assert((seq![first] + arguments).skip(1) =~= arguments);
    reveal_strlit("codex");
    reveal_strlit("opencode");
    assert(crate::text::lower("codex"@) =~= "codex"@);
    assert("codex"@.len() == 5 && "opencode"@.len() == 8);
}

} // verus!
