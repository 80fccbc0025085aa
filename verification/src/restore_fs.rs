//! Files of a project that are put back: which they are, what is found there,
//! and the steps in which one is replaced or removed so that nothing is lost.
use vstd::prelude::*;
use vstd::string::*;
use vstd::utf8::encode_utf8;

use crate::error::Error;
use crate::hex;
use crate::number;
use crate::path;
use crate::path::{all_plain, has_parent, names, names_below, path_of};
use crate::text;

verus! {

// ── which file ──────────────────────────────────────────────────────

/// A file of a project by its path below the root, which is made of plain names
/// alone and so cannot lead out of it.
#[derive(Debug)]
pub struct ProjectPath {
    relative: String,
}

/// Whether a text is a path of plain names, at least one.
pub open spec fn is_confined(s: Seq<char>) -> bool {
    &&& names(s).len() > 0
    &&& all_plain(names(s))
    &&& s == path_of(false, names(s))
}

/// A path below a root as plain names, else what is wrong with it.
pub open spec fn confined(absolute: bool, list: Seq<Seq<char>>) -> Result<Seq<char>, Seq<char>> {
    if absolute || list.contains(".."@) {
        Err(
            "restore target '"@ + path_of(absolute, list)
                + "' is not a confined project-relative path"@,
        )
    } else if list.len() == 0 {
        Err("restore target must name a file inside the project"@)
    } else {
        Ok(path_of(false, list))
    }
}

/// The file of a project at an absolute path, else what is wrong with it.
pub open spec fn confined_below(root: Seq<char>, path: Seq<char>) -> Result<Seq<char>, Seq<char>> {
    match names_below(path, root) {
        None => Err(
            "restore target '"@ + path + "' is outside the project root '"@ + root + "'"@,
        ),
        Some(list) => confined(root.len() == 0 && path::is_absolute(path), list),
    }
}

impl View for ProjectPath {
    type V = Seq<char>;

    closed spec fn view(&self) -> Seq<char> {
        self.relative@
    }
}

/// Names without the parent folder make a confined path.
proof fn lemma_confined(list: Seq<Seq<char>>, whole: Seq<char>)
    requires
        list.len() > 0,
        !list.contains(".."@),
        forall|i: int| 0 <= i < list.len() ==> names(whole).contains(#[trigger] list[i]),
    ensures
        is_confined(path_of(false, list)),
        names(path_of(false, list)) == list,
{
    path::lemma_names_plain(whole);
    assert forall|i: int| 0 <= i < list.len() implies path::is_plain(#[trigger] list[i]) by {
        assert(names(whole).contains(list[i]));
        let k = choose|k: int| 0 <= k < names(whole).len() && names(whole)[k] == list[i];
        assert(list.contains(list[i]));
        assert(names(whole)[k] == ".."@ || path::is_plain(names(whole)[k]));
    }
    path::lemma_path_keeps_names(false, list);
}

/// The file of a project at a path is named by plain names.
pub proof fn lemma_confined_below(root: Seq<char>, path: Seq<char>)
    requires
        confined_below(root, path) is Ok,
    ensures
        is_confined(confined_below(root, path)->Ok_0),
{
    let list = names_below(path, root)->0;
    assert forall|i: int| 0 <= i < list.len() implies names(path).contains(#[trigger] list[i]) by {
        let skip = names(path).len() - list.len();
        assert(names(path)[skip + i] == list[i]);
    }
    lemma_confined(list, path);
}

impl ProjectPath {
    #[verifier::type_invariant]
    spec fn inv(self) -> bool {
        is_confined(self.relative@)
    }

    /// The file that names lead to.
    fn from_names(rooted: bool, list: &Vec<String>, Ghost(whole): Ghost<Seq<char>>) -> (result: Result<
        ProjectPath,
        Error,
    >)
        requires
            forall|i: int|
                0 <= i < list@.len() ==> names(whole).contains(#[trigger] text::views(list@)[i]),
        ensures
            match confined(rooted, text::views(list@)) {
                Ok(path) => result matches Ok(p) && p@ == path,
                Err(said) => result matches Err(e) && e@ == said,
            },
    {
        if rooted || text::contains(list, "..") {
            return Err(
                Error::new(
                    text::cat3(
                        "restore target '",
                        path::build(rooted, list).as_str(),
                        "' is not a confined project-relative path",
                    ),
                ),
            );
        }
        if list.len() == 0 {
            return Err(
                Error::new("restore target must name a file inside the project".to_owned()),
            );
        }
        proof {
            lemma_confined(text::views(list@), whole);
        }
        Ok(ProjectPath { relative: path::build(false, list) })
    }

    /// The file at a path below the root.
    pub fn from_relative(path: &str) -> (result: Result<ProjectPath, Error>)
        ensures
            match confined(path::is_absolute(path@), names(path@)) {
                Ok(p) => result matches Ok(r) && r@ == p,
                Err(said) => result matches Err(e) && e@ == said,
            },
    {
        let list = path::path_names(path);
        proof {
            assert forall|i: int| 0 <= i < list@.len() implies names(path@).contains(
                #[trigger] text::views(list@)[i],
            ) by {
                assert(names(path@)[i] == text::views(list@)[i]);
            }
        }
        Self::from_names(path::absolute(path), &list, Ghost(path@))
    }

    /// The file at an absolute path.
    pub fn from_absolute(project_root: &str, path: &str) -> (result: Result<ProjectPath, Error>)
        ensures
            match confined_below(project_root@, path@) {
                Ok(p) => result matches Ok(r) && r@ == p,
                Err(said) => result matches Err(e) && e@ == said,
            },
    {
        match path::below(path, project_root) {
            None => Err(
                Error::new(
                    text::cat5(
                        "restore target '",
                        path,
                        "' is outside the project root '",
                        project_root,
                        "'",
                    ),
                ),
            ),
            Some(list) => {
                let rooted = project_root.unicode_len() == 0 && path::absolute(path);
                proof {
                    let all = names(path@);
                    let n = names(project_root@).len() as int;
                    assert forall|i: int| 0 <= i < list@.len() implies all.contains(
                        #[trigger] text::views(list@)[i],
                    ) by {
                        if text::views(list@) == all {
                            assert(all[i] == text::views(list@)[i]);
                        } else {
                            assert(all[n + i] == text::views(list@)[i]);
                        }
                    }
                }
                Self::from_names(rooted, &list, Ghost(path@))
            },
        }
    }

    /// The file at a path that was stored.
    pub fn from_stored(project_root: &str, path: &str) -> (result: Result<ProjectPath, Error>)
        ensures
            match confined_below(project_root@, path@) {
                Ok(p) => result matches Ok(r) && r@ == p,
                Err(said) => result matches Err(e) && e@ == said,
            },
    {
        Self::from_absolute(project_root, path)
    }

    /// The path below the root.
    pub fn relative(&self) -> (path: &str)
        ensures
            path@ == self@,
    {
        self.relative.as_str()
    }

    /// The path below the root, to show.
    pub fn display(&self) -> (path: String)
        ensures
            path@ == self@,
    {
        self.relative.clone()
    }

    /// The absolute path in a project.
    pub fn absolute(&self, project_root: &str) -> (path: String)
        ensures
            path@ == path::join_spec(project_root@, self@),
    {
        path::join(project_root, self.relative.as_str())
    }

    /// A copy.
    pub fn duplicate(&self) -> (copy: ProjectPath)
        ensures
            copy@ == self@,
    {
        proof {
            use_type_invariant(self);
        }
        ProjectPath { relative: self.relative.clone() }
    }

    /// The folder that holds the file, below the root.
    pub fn parent(&self) -> (path: String)
        ensures
            path@ == path_of(false, names(self@).drop_last()),
    {
        proof {
            use_type_invariant(self);
        }
        let mut list = path::path_names(self.relative.as_str());
        let ghost all = text::views(list@);
        let last = list.pop();
        proof {
            assert(text::views(list@) =~= all.drop_last());
        }
        path::build(false, &list)
    }

    /// The name of the file.
    pub fn file_name(&self) -> (name: String)
        ensures
            name@ == names(self@).last(),
    {
        proof {
            use_type_invariant(self);
        }
        let list = path::path_names(self.relative.as_str());
        proof {
            assert(text::views(list@)[list@.len() - 1] == list@[list@.len() - 1]@);
        }
        list[list.len() - 1].clone()
    }
}

/// A path below a root stays below it: it has no way up, and it is not empty.
pub proof fn lemma_project_path_stays_inside(root: Seq<char>, path: Seq<char>)
    requires
        confined_below(root, path) is Ok,
    ensures
        is_confined(confined_below(root, path)->Ok_0),
        !has_parent(confined_below(root, path)->Ok_0),
        !path::is_absolute(confined_below(root, path)->Ok_0),
{
    let list = names_below(path, root)->0;
    let all = names(path);
    assert forall|i: int| 0 <= i < list.len() implies all.contains(#[trigger] list[i]) by {
        if list == all {
            assert(all[i] == list[i]);
        } else {
            assert(all[names(root).len() + i] == list[i]);
        }
    }
    lemma_confined(list, path);
    path::lemma_names_plain(path);
    assert forall|i: int| 0 <= i < list.len() implies path::is_plain(#[trigger] list[i]) by {
        assert(all.contains(list[i]));
        let k = choose|k: int| 0 <= k < all.len() && all[k] == list[i];
        assert(list.contains(list[i]));
        assert(all[k] == ".."@ || path::is_plain(all[k]));
    }
    path::lemma_path_keeps_names(false, list);
}

// ── what is there ───────────────────────────────────────────────────

/// What is found at the place of a file.
#[derive(Clone, Copy, Debug, PartialEq, Eq, Structural)]
pub enum Leaf {
    /// The folder that would hold it does not exist.
    NoParent,
    /// The folder that would hold it cannot be opened.
    ParentFailed,
    /// Nothing.
    Missing,
    Symlink,
    Directory,
    /// Neither a file nor a folder nor a link.
    Other,
    File,
    /// It cannot be looked at.
    Failed,
}

/// What was read of a file, up to a limit.
#[derive(Debug)]
pub enum CappedRead {
    Missing,
    TooLarge,
    Content(Vec<u8>),
    /// It could not be read, and why.
    Failed(String),
}

/// What is found at a file of the project.
#[derive(Debug)]
pub struct Spot {
    pub relative: String,
    pub leaf: Leaf,
    pub read: CappedRead,
}

/// The place of a path in a list of what is found, where it is in it.
pub open spec fn spot_at(spots: Seq<Spot>, path: Seq<char>) -> Option<int>
    decreases spots.len(),
{
    if spots.len() == 0 {
        None
    } else if spots.last().relative@ == path {
        Some(spots.len() - 1)
    } else {
        spot_at(spots.drop_last(), path)
    }
}

/// What is found at a path: nothing where it is not in the list.
pub open spec fn leaf_at(spots: Seq<Spot>, path: Seq<char>) -> Leaf {
    match spot_at(spots, path) {
        Some(i) => spots[i].leaf,
        None => Leaf::Missing,
    }
}

/// What is read at a path: nothing where it is not in the list.
pub open spec fn read_at(spots: Seq<Spot>, path: Seq<char>) -> CappedRead {
    match spot_at(spots, path) {
        Some(i) => spots[i].read,
        None => CappedRead::Missing,
    }
}

/// The place of a path in a list of what is found.
pub fn find_spot(spots: &Vec<Spot>, path: &str) -> (at: Option<usize>)
    ensures
        match at {
            Some(i) => i < spots@.len() && spot_at(spots@, path@) == Some(i as int),
            None => spot_at(spots@, path@) is None,
        },
{
    let mut i: usize = spots.len();
    proof {
        assert(spots@.take(i as int) =~= spots@);
    }
    while i > 0
        invariant
            i <= spots.len(),
            spot_at(spots@.take(i as int), path@) == spot_at(spots@, path@),
        decreases i,
    {
        proof {
            assert(spots@.take(i as int).drop_last() =~= spots@.take(i - 1));
            assert(spots@.take(i as int).last() == spots@[i - 1]);
        }
        if text::same(spots[i - 1].relative.as_str(), path) {
            return Some(i - 1);
        }
        i -= 1;
    }
    None
}

/// What is found at a path.
pub fn find_leaf(spots: &Vec<Spot>, path: &str) -> (leaf: Leaf)
    ensures
        leaf == leaf_at(spots@, path@),
{
    match find_spot(spots, path) {
        Some(i) => spots[i].leaf,
        None => Leaf::Missing,
    }
}

/// What keeps a file from being put back, if anything does.
pub open spec fn leaf_problem(leaf: Leaf, path: Seq<char>) -> Option<Seq<char>> {
    match leaf {
        Leaf::Symlink => Some("refusing to restore through symlink '"@ + path + "'"@),
        Leaf::Directory => Some("restore target '"@ + path + "' is a directory"@),
        Leaf::Other => Some("restore target '"@ + path + "' is not a regular file"@),
        Leaf::ParentFailed => Some("open parent for restore target '"@ + path + "'"@),
        Leaf::Failed => Some("validate restore target '"@ + path + "'"@),
        Leaf::NoParent => None,
        Leaf::Missing => None,
        Leaf::File => None,
    }
}

/// Tells whether a file can be put back where something is found.
pub fn validate(target: &ProjectPath, leaf: Leaf) -> (result: Result<(), Error>)
    ensures
        match leaf_problem(leaf, target@) {
            None => result is Ok,
            Some(said) => result matches Err(e) && e@ == said,
        },
{
    let path = target.relative();
    match leaf {
        Leaf::Symlink => Err(
            Error::new(text::cat3("refusing to restore through symlink '", path, "'")),
        ),
        Leaf::Directory => Err(
            Error::new(text::cat3("restore target '", path, "' is a directory")),
        ),
        Leaf::Other => Err(
            Error::new(text::cat3("restore target '", path, "' is not a regular file")),
        ),
        Leaf::ParentFailed => Err(
            Error::new(text::cat3("open parent for restore target '", path, "'")),
        ),
        Leaf::Failed => Err(Error::new(text::cat3("validate restore target '", path, "'"))),
        Leaf::NoParent => Ok(()),
        Leaf::Missing => Ok(()),
        Leaf::File => Ok(()),
    }
}

/// Whether a file is there, else what keeps from telling.
pub open spec fn leaf_exists(leaf: Leaf, path: Seq<char>) -> Result<bool, Seq<char>> {
    match leaf {
        Leaf::Symlink => Err("refusing to restore through symlink '"@ + path + "'"@),
        Leaf::ParentFailed => Err("open parent for restore target '"@ + path + "'"@),
        Leaf::Failed => Err("inspect restore target '"@ + path + "'"@),
        Leaf::File => Ok(true),
        Leaf::NoParent => Ok(false),
        Leaf::Missing => Ok(false),
        Leaf::Directory => Ok(false),
        Leaf::Other => Ok(false),
    }
}

/// Whether a file is there.
pub fn file_exists(target: &ProjectPath, leaf: Leaf) -> (result: Result<bool, Error>)
    ensures
        match leaf_exists(leaf, target@) {
            Ok(there) => result matches Ok(x) && x == there,
            Err(said) => result matches Err(e) && e@ == said,
        },
{
    let path = target.relative();
    match leaf {
        Leaf::Symlink => Err(
            Error::new(text::cat3("refusing to restore through symlink '", path, "'")),
        ),
        Leaf::ParentFailed => Err(
            Error::new(text::cat3("open parent for restore target '", path, "'")),
        ),
        Leaf::Failed => Err(Error::new(text::cat3("inspect restore target '", path, "'"))),
        Leaf::File => Ok(true),
        Leaf::NoParent => Ok(false),
        Leaf::Missing => Ok(false),
        Leaf::Directory => Ok(false),
        Leaf::Other => Ok(false),
    }
}

/// What counts as read of a file with a size, from its first bytes: a file over
/// the limit is too large, whether its size says so or what was read.
pub fn capped(size: u64, content: Vec<u8>, limit: usize) -> (read: CappedRead)
    ensures
        if size > limit || content@.len() > limit {
            read is TooLarge
        } else {
            read matches CappedRead::Content(c) && c@ == content@
        },
{
    if size > limit as u64 || content.len() > limit {
        CappedRead::TooLarge
    } else {
        CappedRead::Content(content)
    }
}

// ── names of files on the way ───────────────────────────────────────

/// How often another name is tried.
pub const MAX_ATTEMPTS: usize = 1000;

/// The name of the safety copy of a file.
pub open spec fn backup_name_spec(root: Seq<char>, target: Seq<char>, timestamp: u128, attempt: usize) -> Seq<
    char,
> {
    names(target).last() + "_"@ + hex::short_name(path::join_spec(root, target)) + "_"@
        + number::decimal(timestamp as int) + (if attempt == 0 {
        ""@
    } else {
        "."@ + number::decimal(attempt as int)
    }) + ".bak"@
}

/// The name of the safety copy of a file of a project.
pub fn backup_name(project_root: &str, target: &ProjectPath, timestamp: u128, attempt: usize) -> (name:
    String)
    ensures
        name@ == backup_name_spec(project_root@, target@, timestamp, attempt),
{
    let absolute = target.absolute(project_root);
    let mut name = text::cat5(
        target.file_name().as_str(),
        "_",
        hex::short_hash(absolute.as_str()).as_str(),
        "_",
        number::wide_text(timestamp).as_str(),
    );
    let retry = if attempt == 0 {
        "".to_owned()
    } else {
        text::cat(".", number::count_text(attempt).as_str())
    };
    name.append(retry.as_str());
    name.append(".bak");
    name
}

/// The name of a file beside another that is there only for a while.
pub open spec fn temporary_name_spec(
    name: Seq<char>,
    role: Seq<char>,
    process: u32,
    timestamp: u128,
    attempt: usize,
) -> Seq<char> {
    name + ".undo."@ + role + "."@ + number::decimal(process as int) + "_"@ + number::decimal(
        timestamp as int,
    ) + "."@ + number::decimal(attempt as int)
}

/// The name of a file beside another that is there only for a while.
pub fn temporary_name(name: &str, role: &str, process: u32, timestamp: u128, attempt: usize) -> (out:
    String)
    ensures
        out@ == temporary_name_spec(name@, role@, process, timestamp, attempt),
{
    let mut out = text::cat5(
        name,
        ".undo.",
        role,
        ".",
        number::unsigned_text(process as u64).as_str(),
    );
    out.append("_");
    out.append(number::wide_text(timestamp).as_str());
    out.append(".");
    out.append(number::count_text(attempt).as_str());
    out
}

/// The names of two attempts differ.
pub proof fn lemma_temporary_names_differ(
    name: Seq<char>,
    role: Seq<char>,
    process: u32,
    timestamp: u128,
    a: usize,
    b: usize,
)
    requires
        temporary_name_spec(name, role, process, timestamp, a) == temporary_name_spec(
            name,
            role,
            process,
            timestamp,
            b,
        ),
    ensures
        a == b,
{
    let head = name + ".undo."@ + role + "."@ + number::decimal(process as int) + "_"@
        + number::decimal(timestamp as int) + "."@;
    let x = head + number::decimal(a as int);
    let y = head + number::decimal(b as int);
    assert(x.skip(head.len() as int) =~= number::decimal(a as int));
    assert(y.skip(head.len() as int) =~= number::decimal(b as int));
    number::lemma_decimal_injective(a as int, b as int);
}

/// What came of trying to take a name.
#[derive(Clone, Copy, Debug, PartialEq, Eq, Structural)]
pub enum Attempt {
    Taken,
    Exists,
    Missing,
    Failed,
}

/// What follows.
#[derive(Clone, Copy, Debug, PartialEq, Eq, Structural)]
pub enum AfterAttempt {
    /// The name is had.
    Done,
    /// The next name is tried.
    Again,
    /// What was to be moved is gone.
    Gone,
    /// It fails for another reason.
    Fail,
    /// No name is left to try.
    GiveUp,
}

/// What follows an attempt to take a name, by its number: a name that exists is
/// passed over, until all have been tried.
pub fn after_attempt(attempt: usize, came: Attempt) -> (next: AfterAttempt)
    ensures
        next == match came {
            Attempt::Taken => AfterAttempt::Done,
            Attempt::Missing => AfterAttempt::Gone,
            Attempt::Failed => AfterAttempt::Fail,
            Attempt::Exists => if attempt + 1 < MAX_ATTEMPTS {
                AfterAttempt::Again
            } else {
                AfterAttempt::GiveUp
            },
        },
{
    match came {
        Attempt::Taken => AfterAttempt::Done,
        Attempt::Missing => AfterAttempt::Gone,
        Attempt::Failed => AfterAttempt::Fail,
        Attempt::Exists => if attempt < MAX_ATTEMPTS - 1 {
            AfterAttempt::Again
        } else {
            AfterAttempt::GiveUp
        },
    }
}

} // verus!
