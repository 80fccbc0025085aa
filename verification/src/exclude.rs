//! Which files are not recorded.
use ignore::gitignore::{Gitignore, GitignoreBuilder};
use ignore::Match;
use vstd::prelude::*;
use vstd::slice::slice_subrange;
use vstd::string::*;
use vstd::utf8::{decode_utf8, valid_utf8};

use crate::diff;
use crate::path;
use crate::split;
use crate::text;

verus! {

// ── what is never recorded ──────────────────────────────────────────

/// The names of files and folders that are not recorded.
pub open spec fn is_ignored_name(name: Seq<char>) -> bool {
    ||| name == ".git"@
    ||| name == "node_modules"@
    ||| name == "target"@
    ||| name == ".next"@
    ||| name == "dist"@
    ||| name == "build"@
    ||| name == ".DS_Store"@
    ||| name == "__pycache__"@
    ||| name == ".idea"@
    ||| name == ".vscode"@
    ||| name == ".backtrack"@
    ||| name == ".undo"@
    ||| name == ".env"@
    ||| name == ".env.local"@
    ||| name == ".env.production"@
    ||| name == ".ssh"@
}

/// The extensions of files that are not recorded.
pub open spec fn is_ignored_extension(ext: Seq<char>) -> bool {
    ||| ext == "pem"@
    ||| ext == "key"@
    ||| ext == "p12"@
    ||| ext == "pfx"@
    ||| ext == "keystore"@
}

/// Whether a name is one that is not recorded.
fn ignored_name(name: &str) -> (yes: bool)
    ensures
        yes == is_ignored_name(name@),
{
    text::same(name, ".git") || text::same(name, "node_modules") || text::same(name, "target")
        || text::same(name, ".next") || text::same(name, "dist") || text::same(name, "build")
        || text::same(name, ".DS_Store") || text::same(name, "__pycache__") || text::same(
        name,
        ".idea",
    ) || text::same(name, ".vscode") || text::same(name, ".backtrack") || text::same(name, ".undo")
        || text::same(name, ".env") || text::same(name, ".env.local") || text::same(
        name,
        ".env.production",
    ) || text::same(name, ".ssh")
}

/// Whether an extension is one that is not recorded.
fn ignored_extension(ext: &str) -> (yes: bool)
    ensures
        yes == is_ignored_extension(ext@),
{
    text::same(ext, "pem") || text::same(ext, "key") || text::same(ext, "p12") || text::same(
        ext,
        "pfx",
    ) || text::same(ext, "keystore")
}

/// The names of a path below the folder of a project; those of the whole path
/// where it is not below.
pub open spec fn names_in_project(path: Seq<char>, root: Seq<char>) -> Seq<Seq<char>> {
    match path::names_below(path, root) {
        Some(list) => list,
        None => path::names(path),
    }
}

/// Whether some name among names is not recorded.
pub open spec fn has_ignored_name(list: Seq<Seq<char>>) -> bool {
    exists|i: int| 0 <= i < list.len() && is_ignored_name(#[trigger] list[i])
}

/// Whether a file is never recorded, by a name on its path or its extension.
pub open spec fn is_builtin(path: Seq<char>, root: Seq<char>) -> bool {
    has_ignored_name(names_in_project(path, root)) || (path::extension(path) matches Some(ext)
        && is_ignored_extension(ext))
}

/// The names of a path below the folder of a project.
fn project_names(path: &str, project_root: &str) -> (list: Vec<String>)
    ensures
        text::views(list@) == names_in_project(path@, project_root@),
{
    match path::below(path, project_root) {
        Some(list) => list,
        None => path::path_names(path),
    }
}

/// Whether a file is never recorded, by a name on its path or its extension.
pub fn matches_builtin(path: &str, project_root: &str) -> (yes: bool)
    ensures
        yes == is_builtin(path@, project_root@),
{
    let list = project_names(path, project_root);
    let ghost all = text::views(list@);
    let mut i: usize = 0;
    while i < list.len()
        invariant
            i <= list.len(),
            all == text::views(list@),
            forall|k: int| 0 <= k < i ==> !is_ignored_name(#[trigger] all[k]),
            all == names_in_project(path@, project_root@),
        decreases list.len() - i,
    {
        assert(all[i as int] == list@[i as int]@);
        if ignored_name(list[i].as_str()) {
            return true;
        }
        i += 1;
    }
    match path::extension_of(path) {
        Some(ext) => ignored_extension(ext.as_str()),
        None => false,
    }
}

// ── the rules of a project ──────────────────────────────────────────

/// Rules that are being collected.
#[verifier::external_type_specification]
#[verifier::external_body]
pub struct ExGitignoreBuilder(GitignoreBuilder);

/// Rules that files are held to.
#[verifier::external_type_specification]
#[verifier::external_body]
pub struct ExGitignore(Gitignore);

/// The lines that were collected, in order.
pub uninterp spec fn collected(builder: GitignoreBuilder) -> Seq<Seq<char>>;

/// The folder that collected lines are about.
pub uninterp spec fn collected_for(builder: GitignoreBuilder) -> Seq<char>;

/// The lines that files are held to, in order.
pub uninterp spec fn rules_in(rules: Gitignore) -> Seq<Seq<char>>;

/// The folder that rules are about.
pub uninterp spec fn rules_for(rules: Gitignore) -> Seq<char>;

/// What rules say of a path below a folder, for a folder or a file: that it is
/// left out, that it is kept, or nothing.
pub uninterp spec fn said_of(
    root: Seq<char>,
    lines: Seq<Seq<char>>,
    path: Seq<char>,
    directory: bool,
) -> Option<bool>;

/// An empty collection of rules for a folder, from `GitignoreBuilder::new` of
/// ignore.
#[verifier::external_body]
fn new_rules(root: &str) -> (builder: GitignoreBuilder)
    ensures
        collected(builder) == Seq::<Seq<char>>::empty(),
        collected_for(builder) == root@,
{
    GitignoreBuilder::new(root)
}

/// Adds a line to a collection of rules, with `GitignoreBuilder::add_line` of
/// ignore. What the line means is left unsaid; one that means nothing is passed
/// over.
#[verifier::external_body]
fn collect(builder: &mut GitignoreBuilder, line: &str)
    ensures
        collected(*final(builder)) == collected(*old(builder)).push(line@),
        collected_for(*final(builder)) == collected_for(*old(builder)),
{
    let _ = builder.add_line(None, line);
}

/// The rules that were collected, from `GitignoreBuilder::build` of ignore; none
/// of them binds where they cannot be made into one matcher.
#[verifier::external_body]
fn finish_rules(builder: &GitignoreBuilder) -> (rules: Gitignore)
    ensures
        rules_in(rules) == collected(*builder),
        rules_for(rules) == collected_for(*builder),
{
    builder.build().unwrap_or_else(|_| Gitignore::empty())
}

/// What rules say of a path, from `Gitignore::matched` of ignore. It depends on
/// the folder, the lines, the path and whether that is a folder, and rules
/// without lines say nothing; what a line matches is left unsaid.
#[verifier::external_body]
fn matched(rules: &Gitignore, path: &str, is_dir: bool) -> (said: Option<bool>)
    ensures
        said == said_of(rules_for(*rules), rules_in(*rules), path@, is_dir),
        rules_in(*rules).len() == 0 ==> said is None,
{
    match rules.matched(path, is_dir) {
        Match::None => None,
        Match::Ignore(_) => Some(true),
        Match::Whitelist(_) => Some(false),
    }
}

/// A text without the marks of its byte order before it.
pub open spec fn unmarked(s: Seq<char>) -> Seq<char>
    decreases s.len(),
{
    if s.len() > 0 && s[0] == '\u{feff}' {
        unmarked(s.skip(1))
    } else {
        s
    }
}

/// The lines of a file of rules.
pub open spec fn file_lines(contents: Option<Seq<char>>) -> Seq<Seq<char>> {
    match contents {
        Some(s) => {
            let lines = split::lines(s);
            if lines.len() > 0 {
                lines.update(0, unmarked(lines[0]))
            } else {
                lines
            }
        },
        None => Seq::empty(),
    }
}

/// A text without the marks of its byte order before it.
fn unmark(s: &str) -> (rest: String)
    ensures
        rest@ == unmarked(s@),
{
    let chars = text::chars_of(s);
    let mut i: usize = 0;
    proof {
        assert(s@.skip(0) =~= s@);
    }
    while i < chars.len() && chars[i] == '\u{feff}'
        invariant
            i <= chars.len(),
            chars@ == s@,
            unmarked(s@) == unmarked(s@.skip(i as int)),
        decreases chars.len() - i,
    {
        proof {
            assert(s@.skip(i as int).skip(1) =~= s@.skip(i + 1));
        }
        i += 1;
    }
    proof {
        assert(s@.subrange(i as int, s@.len() as int) =~= s@.skip(i as int));
    }
    text::text_of(&chars, i, chars.len())
}

/// Adds the lines of a file to a collection of rules.
fn collect_file(builder: &mut GitignoreBuilder, contents: Option<&str>)
    ensures
        collected(*final(builder)) == collected(*old(builder)) + file_lines(
            text::view_opt_str(contents),
        ),
        collected_for(*final(builder)) == collected_for(*old(builder)),
{
    let ghost before = collected(*builder);
    let contents = match contents {
        None => {
            proof {
                assert(before + Seq::<Seq<char>>::empty() =~= before);
            }
            return ;
        },
        Some(contents) => contents,
    };
    let lines = split::split_lines(contents);
    let ghost all = file_lines(Some(contents@));
    let ghost given = text::views(lines@);
    proof {
        assert(all.len() == given.len());
        assert(before + all.take(0) =~= before);
    }
    let mut i: usize = 0;
    while i < lines.len()
        invariant
            i <= lines.len(),
            given == text::views(lines@),
            given == split::lines(contents@),
            all == file_lines(Some(contents@)),
            all.len() == given.len(),
            collected(*builder) == before + all.take(i as int),
            collected_for(*builder) == collected_for(*old(builder)),
        decreases lines.len() - i,
    {
        assert(given[i as int] == lines@[i as int]@);
        if i == 0 {
            let first = unmark(lines[i].as_str());
            collect(builder, first.as_str());
        } else {
            collect(builder, lines[i].as_str());
        }
        proof {
            assert(before + all.take(i + 1) =~= (before + all.take(i as int)).push(all[i as int]));
        }
        i += 1;
    }
    proof {
        assert(all.take(i as int) =~= all);
    }
}

/// Where the first line of some bytes ends, with its line feed.
pub open spec fn line_end(bytes: Seq<u8>) -> nat
    decreases bytes.len(),
{
    if bytes.len() == 0 {
        0
    } else if bytes[0] == 0xa {
        1
    } else {
        1 + line_end(bytes.skip(1))
    }
}

/// A line has a byte or more, and ends within the bytes.
pub proof fn lemma_line_end(bytes: Seq<u8>)
    requires
        bytes.len() > 0,
    ensures
        1 <= line_end(bytes) <= bytes.len(),
    decreases bytes.len(),
{
    if bytes.len() > 1 {
        lemma_line_end(bytes.skip(1));
    } else {
        assert(line_end(bytes.skip(1)) == 0);
    }
}

/// The lines before the first one that is not UTF-8, as text.
pub open spec fn readable(bytes: Seq<u8>) -> Seq<char>
    decreases bytes.len(),
{
    let end = line_end(bytes) as int;
    if bytes.len() == 0 || !valid_utf8(bytes.take(end)) {
        Seq::empty()
    } else {
        proof {
            lemma_line_end(bytes);
        }
        decode_utf8(bytes.take(end)) + readable(bytes.skip(end))
    }
}

/// The index behind the line of some bytes that begins at an index.
fn end_of_line(bytes: &Vec<u8>, from: usize) -> (end: usize)
    requires
        from <= bytes.len(),
    ensures
        from <= end <= bytes.len(),
        end == from + line_end(bytes@.skip(from as int)),
{
    let mut end: usize = from;
    while end < bytes.len()
        invariant
            from <= end <= bytes.len(),
            line_end(bytes@.skip(from as int)) == end - from + line_end(bytes@.skip(end as int)),
        decreases bytes.len() - end,
    {
        proof {
            assert(bytes@.skip(end as int).skip(1) =~= bytes@.skip(end + 1));
        }
        if bytes[end] == 0xa {
            return end + 1;
        }
        end += 1;
    }
    end
}

/// The text of a rule file: its lines up to the first one that is not UTF-8.
pub fn rule_text(bytes: &Vec<u8>) -> (text: String)
    ensures
        text@ == readable(bytes@),
{
    let mut text = String::new();
    let mut i: usize = 0;
    proof {
        reveal_strlit("");
        assert(bytes@.skip(0) =~= bytes@);
        assert(text@ + readable(bytes@) =~= readable(bytes@));
    }
    while i < bytes.len()
        invariant
            i <= bytes.len(),
            text@ + readable(bytes@.skip(i as int)) == readable(bytes@),
        decreases bytes.len() - i,
    {
        let ghost rest = bytes@.skip(i as int);
        let end = end_of_line(bytes, i);
        proof {
            lemma_line_end(rest);
            assert(bytes@.subrange(i as int, end as int) =~= rest.take(line_end(rest) as int));
            assert(rest.skip(line_end(rest) as int) =~= bytes@.skip(end as int));
        }
        match diff::utf8_text(slice_subrange(bytes.as_slice(), i, end)) {
            None => {
                proof {
                    assert(text@ + Seq::<char>::empty() =~= text@);
                }
                return text;
            },
            Some(line) => {
                let ghost before = text@;
                text.append(line.as_str());
                proof {
                    assert(before + (line@ + readable(bytes@.skip(end as int))) =~= text@
                        + readable(bytes@.skip(end as int)));
                }
            },
        }
        i = end;
    }
    proof {
        assert(text@ + Seq::<char>::empty() =~= text@);
    }
    text
}

/// The rules of a project, from its `.gitignore` and its `.undoignore`. Those of
/// the second come last.
pub fn init(project_root: &str, gitignore: Option<&str>, undoignore: Option<&str>) -> (rules:
    Gitignore)
    ensures
        rules_for(rules) == project_root@,
        rules_in(rules) == file_lines(text::view_opt_str(gitignore)) + file_lines(
            text::view_opt_str(undoignore),
        ),
{
    let mut builder = new_rules(project_root);
    collect_file(&mut builder, gitignore);
    proof {
        assert(collected(builder) =~= file_lines(text::view_opt_str(gitignore)));
    }
    collect_file(&mut builder, undoignore);
    finish_rules(&builder)
}

/// The part of a path below the folder of a project.
pub open spec fn part_in_project(path: Seq<char>, root: Seq<char>) -> Seq<char> {
    match path::names_below(path, root) {
        Some(list) => text::joined(list, "/"@),
        None => path,
    }
}

/// The part of a path below the folder of a project.
fn project_part(path: &str, project_root: &str) -> (part: String)
    ensures
        part@ == part_in_project(path@, project_root@),
{
    match path::below(path, project_root) {
        Some(list) => text::join(&list, "/"),
        None => path.to_owned(),
    }
}

/// What the rules of a project say of a path.
pub fn apply_matcher(rules: &Gitignore, path: &str, project_root: &str, is_dir: bool) -> (said:
    Option<bool>)
    ensures
        said == said_of(
            rules_for(*rules),
            rules_in(*rules),
            part_in_project(path@, project_root@),
            is_dir,
        ),
        rules_in(*rules).len() == 0 ==> said is None,
{
    let part = project_part(path, project_root);
    matched(rules, part.as_str(), is_dir)
}

/// Whether a path is left out, by what the rules of its project say of it: they
/// decide where they say something.
pub fn is_left_out(said: Option<bool>, path: &str, project_root: &str) -> (yes: bool)
    ensures
        yes == match said {
            Some(out) => out,
            None => is_builtin(path@, project_root@),
        },
{
    match said {
        Some(out) => out,
        None => matches_builtin(path, project_root),
    }
}

/// Whether a path is not recorded. The rules of its project come before those
/// that hold for all.
pub fn should_ignore(path: &str, project_root: &str, is_dir: bool, rules: Option<&Gitignore>) -> (yes:
    bool)
    ensures
        yes == match rules {
            Some(r) => match said_of(
                rules_for(*r),
                rules_in(*r),
                part_in_project(path@, project_root@),
                is_dir,
            ) {
                Some(out) => out,
                None => is_builtin(path@, project_root@),
            },
            None => is_builtin(path@, project_root@),
        },
{
    let said = match rules {
        Some(r) => apply_matcher(r, path, project_root, is_dir),
        None => None,
    };
    is_left_out(said, path, project_root)
}

} // verus!
