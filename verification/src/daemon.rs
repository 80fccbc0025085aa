//! Recording: who records which folder, how a recorder starts and stops, and how
//! it is.
use vstd::prelude::*;
use vstd::string::*;
use vstd::utf8::encode_utf8;

use crate::error::Error;
use crate::hex;
use crate::integrity::IntegrityReport;
use crate::number;
use crate::number::Unsigned;
use crate::path;
use crate::retention::{room, DiskUsage, PruneStats, RetentionConfig};
use crate::size;
use crate::split;
use crate::split::Break;
use crate::style::{BOLD, GREEN, RED, RESET, YELLOW};
use crate::text;

verus! {

// ── the mark of a recorder ──────────────────────────────────────────

/// Where the mark of the recorder of a folder is in the data folder.
pub open spec fn mark_path(bt_dir: Seq<char>, root: Seq<char>) -> Seq<char> {
    path::join_spec(path::join_spec(bt_dir, "pids"@), hex::short_name(root) + ".pid"@)
}

/// Where the mark of the recorder of a folder is in the data folder.
pub fn pid_file_for_root(bt_dir: &str, root: &str) -> (path: String)
    ensures
        path@ == mark_path(bt_dir@, root@),
{
    let name = text::cat(hex::short_hash(root).as_str(), ".pid");
    path::join(path::join(bt_dir, "pids").as_str(), name.as_str())
}

/// Whether a folder is being recorded: its mark is among those that a recorder
/// holds.
pub fn is_recording(bt_dir: &str, root: &str, held: &Vec<String>) -> (result: Result<bool, Error>)
    ensures
        result matches Ok(yes) && yes == text::views(held@).contains(mark_path(bt_dir@, root@)),
{
    let mark = pid_file_for_root(bt_dir, root);
    Ok(text::contains(held, mark.as_str()))
}

/// What a recorder writes into its mark.
pub open spec fn mark_text(pid: u32, root: Seq<char>, state: Seq<char>) -> Seq<char> {
    number::decimal(pid as int) + "\n"@ + root + "\n"@ + state
}

/// What a recorder writes into its mark.
pub fn pid_state(pid: u32, root: &str, state: &str) -> (contents: String)
    ensures
        contents@ == mark_text(pid, root@, state@),
{
    text::cat5(number::unsigned_text(pid as u64).as_str(), "\n", root, "\n", state)
}

/// A line of a text, from the first on.
pub open spec fn line_of(s: Seq<char>, n: int) -> Option<Seq<char>> {
    if n < split::lines(s).len() {
        Some(split::lines(s)[n])
    } else {
        None
    }
}

/// A line of a text, from the first on.
fn nth_line(s: &str, n: usize) -> (line: Option<String>)
    ensures
        text::view_opt(line) == line_of(s@, n as int),
{
    let lines = split::split_lines(s);
    assert(split::lines(s@).len() == lines@.len());
    if n < lines.len() {
        assert(text::views(lines@)[n as int] == lines@[n as int]@);
        Some(lines[n].clone())
    } else {
        None
    }
}

/// A line of a text, or a word in its place.
fn line_or(s: &str, n: usize, other: &str) -> (line: String)
    ensures
        line@ == match line_of(s@, n as int) {
            Some(l) => l,
            None => other@,
        },
{
    match nth_line(s, n) {
        Some(line) => line,
        None => other.to_owned(),
    }
}

/// The number of a process that a text gives.
pub open spec fn process_of(s: Seq<char>) -> Option<u32> {
    match number::read_unsigned(s, u32::MAX as int) {
        Unsigned::Is(n) => Some(n as u32),
        _ => None,
    }
}

/// The number of a process that a text gives.
fn parse_pid(s: &str) -> (pid: Option<u32>)
    ensures
        pid == process_of(s@),
{
    match number::parse_unsigned(s, u32::MAX as u64) {
        Unsigned::Is(n) => Some(n as u32),
        _ => None,
    }
}

/// A recorder and the folder that it records.
#[derive(Debug)]
pub struct Recorder {
    pub pid: u32,
    pub root: String,
}

/// The recorder that a mark names.
pub open spec fn recorder_of(contents: Seq<char>) -> Option<(u32, Seq<char>)> {
    match (line_of(contents, 0), line_of(contents, 1)) {
        (Some(first), Some(root)) => match process_of(first) {
            Some(pid) => Some((pid, root)),
            None => None,
        },
        _ => None,
    }
}

/// The recorder that a mark names.
pub fn parse_pid_file(contents: &str) -> (found: Option<Recorder>)
    ensures
        match found {
            Some(r) => recorder_of(contents@) == Some((r.pid, r.root@)),
            None => recorder_of(contents@) is None,
        },
{
    match (nth_line(contents, 0), nth_line(contents, 1)) {
        (Some(first), Some(root)) => match parse_pid(first.as_str()) {
            Some(pid) => Some(Recorder { pid, root }),
            None => None,
        },
        _ => None,
    }
}

/// A file in the folder of marks: where it is, what it says where it can be read,
/// and whether a recorder holds it.
#[derive(Debug)]
pub struct Mark {
    pub path: String,
    pub contents: Option<String>,
    pub held: bool,
}

/// Whether a file is a mark, by its name.
pub open spec fn is_mark_name(path: Seq<char>) -> bool {
    path::extension(path) == Some("pid"@)
}

/// Whether a file is a mark, by its name.
fn is_mark(path: &str) -> (yes: bool)
    ensures
        yes == is_mark_name(path@),
{
    match path::extension_of(path) {
        Some(ext) => text::same(ext.as_str(), "pid"),
        None => false,
    }
}

/// The recorder that holds a mark.
pub open spec fn holder_of(mark: Mark) -> Option<(u32, Seq<char>)> {
    match text::view_opt(mark.contents) {
        Some(contents) => if is_mark_name(mark.path@) && mark.held {
            recorder_of(contents)
        } else {
            None
        },
        None => None,
    }
}

/// The recorders that hold marks, in the order of the marks.
pub open spec fn holders(marks: Seq<Mark>) -> Seq<(u32, Seq<char>)>
    decreases marks.len(),
{
    if marks.len() == 0 {
        Seq::empty()
    } else {
        match holder_of(marks.last()) {
            Some(r) => holders(marks.drop_last()).push(r),
            None => holders(marks.drop_last()),
        }
    }
}

/// What recorders are.
pub open spec fn recorder_views(list: Seq<Recorder>) -> Seq<(u32, Seq<char>)> {
    list.map_values(|r: Recorder| (r.pid, r.root@))
}

/// The recorders that hold marks, in the order of the marks.
pub fn active_daemons(marks: &Vec<Mark>) -> (list: Vec<Recorder>)
    ensures
        recorder_views(list@) == holders(marks@),
{
    let mut list: Vec<Recorder> = Vec::new();
    let mut i: usize = 0;
    proof {
        assert(recorder_views(list@) =~= holders(marks@.take(0)));
    }
    while i < marks.len()
        invariant
            i <= marks.len(),
            recorder_views(list@) == holders(marks@.take(i as int)),
        decreases marks.len() - i,
    {
        let mark = &marks[i];
        let ghost before = list@;
        proof {
            let next = marks@.take(i + 1);
            assert(next.drop_last() =~= marks@.take(i as int));
            assert(next.last() == marks@[i as int]);
        }
        if mark.held && is_mark(mark.path.as_str()) {
            if let Some(contents) = &mark.contents {
                if let Some(r) = parse_pid_file(contents.as_str()) {
                    list.push(r);
                    proof {
                        assert(recorder_views(list@) =~= recorder_views(before).push(
                            (r.pid, r.root@),
                        ));
                    }
                }
            }
        }
        i += 1;
    }
    proof {
        assert(marks@.take(i as int) =~= marks@);
    }
    list
}

/// Whether a mark says that its recorder is ready.
pub open spec fn says_ready(contents: Seq<char>) -> bool {
    line_of(contents, 2) == Some("ready"@)
}

/// Whether a mark says that its recorder is ready.
pub fn is_ready(contents: &str) -> (yes: bool)
    ensures
        yes == says_ready(contents@),
{
    match nth_line(contents, 2) {
        Some(line) => text::same(line.as_str(), "ready"),
        None => false,
    }
}

/// Where an old mark belongs now.
pub fn migrated_pid_file(bt_dir: &str, contents: &str) -> (path: Option<String>)
    ensures
        text::view_opt(path) == match line_of(contents@, 1) {
            Some(root) => Some(mark_path(bt_dir@, root)),
            None => None,
        },
{
    match nth_line(contents, 1) {
        Some(root) => Some(pid_file_for_root(bt_dir, root.as_str())),
        None => None,
    }
}

/// Whether a text stands on one line.
pub open spec fn is_one_line(s: Seq<char>) -> bool {
    forall|i: int| 0 <= i < s.len() ==> (#[trigger] s[i]) != '\n' && s[i] != '\r'
}

/// A mark names the recorder that wrote it, its folder and how it is.
pub proof fn lemma_mark_read_back(pid: u32, root: Seq<char>, state: Seq<char>)
    requires
        is_one_line(root),
        is_one_line(state),
        state.len() > 0,
    ensures
        recorder_of(mark_text(pid, root, state)) == Some((pid, root)),
        line_of(mark_text(pid, root, state), 2) == Some(state),
{
    reveal_strlit("\n");
    let first = number::decimal(pid as int);
    let s = mark_text(pid, root, state);
    number::lemma_digits_value(pid as nat);
    assert(number::is_digits(first));
    assert forall|i: int| 0 <= i < first.len() implies !split::breaks(
        Break::Newline,
        #[trigger] first[i],
    ) by {
        assert(text::is_digit(first[i]));
    }
    assert forall|i: int| 0 <= i < root.len() implies !split::breaks(
        Break::Newline,
        #[trigger] root[i],
    ) by {}
    assert forall|i: int| 0 <= i < state.len() implies !split::breaks(
        Break::Newline,
        #[trigger] state[i],
    ) by {}
    split::lemma_pieces_single(first, Break::Newline);
    split::lemma_pieces_behind(first, '\n', root, Break::Newline);
    let two = first + seq!['\n'] + root;
    split::lemma_pieces_behind(two, '\n', state, Break::Newline);
    assert("\n"@ =~= seq!['\n']);
    assert(s =~= two + seq!['\n'] + state);
    let all = split::pieces(s, Break::Newline);
    assert(all =~= seq![first, root, state]);
    assert(all.drop_last() =~= seq![first, root]);
    let ended = all.drop_last().map_values(|line: Seq<char>| split::without_return(line));
    assert(first.len() > 0 ==> text::is_digit(first[first.len() - 1]));
    assert(root.len() > 0 ==> root[root.len() - 1] != '\r');
    assert(ended[0] == first);
    assert(ended[1] == root);
    assert(split::lines(s) =~= seq![first, root, state]);
    assert(first[0] != '+') by {
        assert(text::is_digit(first[0]));
    }
}

// ── may a folder be recorded ────────────────────────────────────────

/// The lowest number of a user who is a person.
pub fn system_uid_threshold(macos: bool) -> (uid: u32)
    ensures
        uid == if macos {
            500u32
        } else {
            1000u32
        },
{
    if macos {
        500
    } else {
        1000
    }
}

/// Refuses to record as the root user, whose saved history would be another's.
pub fn check_not_root(euid: u32) -> (result: Result<(), Error>)
    ensures
        if euid == 0 {
            result matches Err(e) && e@
                == "Undo did not start: refusing to run as root because saved history belongs to the current user.\nTo bypass this check, rerun with --force; it also bypasses ownership, file-count, and overlap safety checks."@
        } else {
            result is Ok
        },
{
    if euid == 0 {
        return Err(
            Error::new(
                "Undo did not start: refusing to run as root because saved history belongs to the current user.\nTo bypass this check, rerun with --force; it also bypasses ownership, file-count, and overlap safety checks.".to_owned(),
            ),
        );
    }
    Ok(())
}

/// What is wrong with the owner of a folder.
pub open spec fn owner_problem(folder: Seq<char>, uid: u32, threshold: u32) -> Option<Seq<char>> {
    if uid == 0 {
        Some(
            "Undo did not start: folder '"@ + folder
                + "' is owned by root.\nTo bypass this ownership check, rerun with --force; it also bypasses file-count and overlap safety checks."@,
        )
    } else if uid < threshold {
        Some(
            "Undo did not start: folder '"@ + folder + "' is owned by a system account (uid "@
                + number::decimal(uid as int)
                + ").\nTo bypass this ownership check, rerun with --force; it also bypasses file-count and overlap safety checks."@,
        )
    } else {
        None
    }
}

/// Refuses to record a folder that belongs to the system.
pub fn check_directory_owner(path: &str, uid: u32, threshold: u32) -> (result: Result<(), Error>)
    ensures
        match owner_problem(path@, uid, threshold) {
            Some(said) => result matches Err(e) && e@ == said,
            None => result is Ok,
        },
{
    if uid == 0 {
        return Err(
            Error::new(
                text::cat3(
                    "Undo did not start: folder '",
                    path,
                    "' is owned by root.\nTo bypass this ownership check, rerun with --force; it also bypasses file-count and overlap safety checks.",
                ),
            ),
        );
    }
    if uid < threshold {
        return Err(
            Error::new(
                text::cat5(
                    "Undo did not start: folder '",
                    path,
                    "' is owned by a system account (uid ",
                    number::unsigned_text(uid as u64).as_str(),
                    ").\nTo bypass this ownership check, rerun with --force; it also bypasses file-count and overlap safety checks.",
                ),
            ),
        );
    }
    Ok(())
}

/// Whether one folder is the other or in it. The root of the disk is above all
/// others.
pub open spec fn overlaps(a: Seq<char>, b: Seq<char>) -> bool {
    path::is_at_or_below(a, b) || path::is_at_or_below(b, a)
}

/// Whether a recorder other than one records a folder that overlaps with another.
pub open spec fn is_in_the_way(r: Recorder, new_root: Seq<char>, exclude_pid: u32) -> bool {
    r.pid != exclude_pid && overlaps(new_root, r.root@)
}

/// Whether a recorder is the first that is in the way.
pub open spec fn is_first_in_the_way(
    recorders: Seq<Recorder>,
    i: int,
    new_root: Seq<char>,
    exclude_pid: u32,
) -> bool {
    &&& 0 <= i < recorders.len()
    &&& is_in_the_way(recorders[i], new_root, exclude_pid)
    &&& forall|k: int| 0 <= k < i ==> !is_in_the_way(#[trigger] recorders[k], new_root, exclude_pid)
}

/// What is said of a recorder that is in the way.
pub open spec fn overlap_text(r: Recorder) -> Seq<char> {
    "Undo did not start: this folder overlaps with one already being recorded.\nRecorded folder: "@
        + r.root@
        + "\nTo bypass this overlap check, rerun with --force; it also bypasses ownership and file-count safety checks. (Recorder PID: "@
        + number::decimal(r.pid as int) + ")"@
}

/// Refuses to record a folder that overlaps with one that another process
/// records: what changes there would be recorded twice.
pub fn check_no_overlap(recorders: &Vec<Recorder>, new_root: &str, exclude_pid: u32) -> (result:
    Result<(), Error>)
    ensures
        match result {
            Ok(_) => forall|i: int|
                0 <= i < recorders@.len() ==> !is_in_the_way(
                    #[trigger] recorders@[i],
                    new_root@,
                    exclude_pid,
                ),
            Err(e) => exists|i: int|
                #[trigger] is_first_in_the_way(recorders@, i, new_root@, exclude_pid) && e@
                    == overlap_text(recorders@[i]),
        },
{
    let mut i: usize = 0;
    while i < recorders.len()
        invariant
            i <= recorders.len(),
            forall|k: int|
                0 <= k < i ==> !is_in_the_way(#[trigger] recorders@[k], new_root@, exclude_pid),
        decreases recorders.len() - i,
    {
        let r = &recorders[i];
        if r.pid != exclude_pid && (path::at_or_below(new_root, r.root.as_str())
            || path::at_or_below(r.root.as_str(), new_root)) {
            let said = text::cat5(
                "Undo did not start: this folder overlaps with one already being recorded.\nRecorded folder: ",
                r.root.as_str(),
                "\nTo bypass this overlap check, rerun with --force; it also bypasses ownership and file-count safety checks. (Recorder PID: ",
                number::unsigned_text(r.pid as u64).as_str(),
                ")",
            );
            assert(is_first_in_the_way(recorders@, i as int, new_root@, exclude_pid));
            return Err(Error::new(said));
        }
        i += 1;
    }
    Ok(())
}

// ── what the log says of a process ──────────────────────────────────

/// Whether a text has the shape of a time in the log.
pub open spec fn is_stamp(s: Seq<char>) -> bool {
    let b = encode_utf8(s);
    &&& b.len() == 23
    &&& b[4] == 45
    &&& b[7] == 45
    &&& b[10] == 84
    &&& b[13] == 58
    &&& b[16] == 58
    &&& b[19] == 46
}

/// Whether a text begins with how serious a line is.
pub open spec fn has_level(s: Seq<char>) -> bool {
    "INFO "@.is_prefix_of(s) || "WARN "@.is_prefix_of(s) || "ERROR "@.is_prefix_of(s)
}

/// Whether a line begins an entry of the log.
pub open spec fn is_log_line(line: Seq<char>) -> bool {
    match text::sides(line, " ["@) {
        None => false,
        Some(outer) => match text::sides(outer.1, "] "@) {
            None => false,
            Some(inner) => is_stamp(outer.0) && number::is_digits(inner.0) && has_level(inner.1),
        },
    }
}

/// Whether a text is all digits.
fn all_digits(s: &str) -> (yes: bool)
    ensures
        yes == number::is_digits(s@),
{
    let chars = text::chars_of(s);
    if chars.len() == 0 {
        return false;
    }
    let mut i: usize = 0;
    while i < chars.len()
        invariant
            i <= chars.len(),
            chars@ == s@,
            forall|k: int| 0 <= k < i ==> text::is_digit(#[trigger] s@[k]),
        decreases chars.len() - i,
    {
        if !('0' <= chars[i] && chars[i] <= '9') {
            assert(!text::is_digit(s@[i as int]));
            return false;
        }
        i += 1;
    }
    true
}

/// Whether a line begins an entry of the log.
pub fn is_structured_log_line(line: &str) -> (yes: bool)
    ensures
        yes == is_log_line(line@),
{
    let (timestamp, entry) = match text::split_once(line, " [") {
        None => {
            return false;
        },
        Some(parts) => parts,
    };
    let (pid, message) = match text::split_once(entry, "] ") {
        None => {
            return false;
        },
        Some(parts) => parts,
    };
    let stamp = timestamp.as_bytes();
    stamp.len() == 23 && stamp[4] == 45 && stamp[7] == 45 && stamp[10] == 84 && stamp[13] == 58
        && stamp[16] == 58 && stamp[19] == 46 && all_digits(pid) && (text::begins(message, "INFO ")
        || text::begins(message, "WARN ") || text::begins(message, "ERROR "))
}

/// Where the next entry of the log begins.
pub open spec fn entry_end(lines: Seq<Seq<char>>, at: int) -> int
    decreases lines.len() - at,
{
    if at < 0 || at >= lines.len() {
        lines.len() as int
    } else if is_log_line(lines[at]) {
        at
    } else {
        entry_end(lines, at + 1)
    }
}

/// The next entry begins behind.
pub proof fn lemma_entry_end(lines: Seq<Seq<char>>, at: int)
    requires
        0 <= at <= lines.len(),
    ensures
        at <= entry_end(lines, at) <= lines.len(),
    decreases lines.len() - at,
{
    if at < lines.len() && !is_log_line(lines[at]) {
        lemma_entry_end(lines, at + 1);
    }
}

/// The last message behind a mark from a line on. A message goes on to the next
/// entry.
pub open spec fn last_message(
    lines: Seq<Seq<char>>,
    mark: Seq<char>,
    at: int,
    before: Option<Seq<char>>,
) -> Option<Seq<char>>
    decreases lines.len() - at,
{
    if at < 0 || at >= lines.len() {
        before
    } else {
        match text::sides(lines[at], mark) {
            None => last_message(lines, mark, at + 1, before),
            Some(parts) => {
                let end = entry_end(lines, at + 1);
                let said = text::joined(seq![parts.1] + lines.subrange(at + 1, end), "\n"@);
                proof {
                    lemma_entry_end(lines, at + 1);
                }
                last_message(lines, mark, end, Some(said))
            },
        }
    }
}

/// What the log says last went wrong with a process.
pub open spec fn last_error(contents: Seq<char>, pid: u32) -> Option<Seq<char>> {
    let mark = " ["@ + number::decimal(pid as int) + "] ERROR "@;
    match last_message(split::lines(contents), mark, 0, None) {
        Some(said) => if text::trimmed(said).len() > 0 {
            Some(said)
        } else {
            None
        },
        None => None,
    }
}

/// A text and one line more.
proof fn lemma_joined_push(parts: Seq<Seq<char>>, more: Seq<char>, separator: Seq<char>)
    requires
        parts.len() > 0,
    ensures
        text::joined(parts.push(more), separator) == text::joined(parts, separator) + separator
            + more,
{
    assert(parts.push(more).drop_last() =~= parts);
}

/// The message that begins with a text and goes on to the next entry, and where
/// that is.
fn message_from(first: &str, lines: &Vec<String>, at: usize) -> (message: (String, usize))
    requires
        at <= lines.len(),
    ensures
        message.1 == entry_end(text::views(lines@), at as int),
        at <= message.1 <= lines.len(),
        message.0@ == text::joined(
            seq![first@] + text::views(lines@).subrange(at as int, message.1 as int),
            "\n"@,
        ),
{
    let ghost all = text::views(lines@);
    let mut said = first.to_owned();
    let mut i: usize = at;
    proof {
        let part = seq![first@] + all.subrange(at as int, at as int);
        assert(part =~= seq![first@]);
        lemma_entry_end(all, at as int);
    }
    while i < lines.len() && !is_structured_log_line(lines[i].as_str())
        invariant
            at <= i <= lines.len(),
            all == text::views(lines@),
            entry_end(all, i as int) == entry_end(all, at as int),
            said@ == text::joined(
                seq![first@] + all.subrange(at as int, i as int),
                "\n"@,
            ),
        decreases lines.len() - i,
    {
        proof {
            let part = seq![first@] + all.subrange(at as int, i as int);
            assert(all[i as int] == lines@[i as int]@);
            assert(seq![first@] + all.subrange(at as int, i + 1) =~= part.push(all[i as int]));
            lemma_joined_push(part, all[i as int], "\n"@);
        }
        said.append("\n");
        said.append(lines[i].as_str());
        i += 1;
    }
    proof {
        if i < lines@.len() {
            assert(all[i as int] == lines@[i as int]@);
        }
    }
    (said, i)
}

/// What the log says last went wrong with a process.
pub fn latest_process_error(contents: &str, pid: u32) -> (message: Option<String>)
    ensures
        text::view_opt(message) == last_error(contents@, pid),
{
    let mark = text::cat3(" [", number::unsigned_text(pid as u64).as_str(), "] ERROR ");
    let lines = split::split_lines(contents);
    let ghost all = text::views(lines@);
    let mut latest: Option<String> = None;
    let mut i: usize = 0;
    while i < lines.len()
        invariant
            i <= lines.len(),
            all == text::views(lines@),
            last_message(all, mark@, i as int, text::view_opt(latest)) == last_message(
                all,
                mark@,
                0,
                None,
            ),
        decreases lines.len() - i,
    {
        assert(all[i as int] == lines@[i as int]@);
        match text::split_once(lines[i].as_str(), mark.as_str()) {
            None => {
                i += 1;
            },
            Some((_, rest)) => {
                let (said, end) = message_from(rest, &lines, i + 1);
                latest = Some(said);
                i = end;
            },
        }
    }
    match latest {
        Some(said) => if text::blank(said.as_str()) {
            None
        } else {
            Some(said)
        },
        None => None,
    }
}

/// How far a log had come, and which file it was.
#[derive(Debug, Clone, Copy)]
pub struct LogCursor {
    pub offset: u64,
    pub identity: Option<(u64, u64)>,
}

/// Where to read a log from: where it had come to, unless another file has taken
/// its place.
pub fn log_offset(cursor: LogCursor, identity: (u64, u64), len: u64) -> (offset: u64)
    ensures
        offset == if cursor.identity == Some(identity) && len >= cursor.offset {
            cursor.offset
        } else {
            0
        },
{
    let unchanged = match cursor.identity {
        Some(known) => known.0 == identity.0 && known.1 == identity.1,
        None => false,
    };
    if unchanged && len >= cursor.offset {
        cursor.offset
    } else {
        0
    }
}

// ── waiting for a recorder ──────────────────────────────────────────

/// How often a new recorder is looked at.
pub const START_PROBES: usize = 200;

/// What is seen of a new recorder.
#[derive(Debug)]
pub struct Probe {
    /// What its mark says, where a recorder holds it.
    pub mark: Option<String>,
    /// How the process ended, where it has.
    pub exited: Option<String>,
    /// What the log says since it was started.
    pub log: Option<String>,
}

/// How it goes on with a new recorder.
#[derive(Debug)]
pub enum Starting {
    Ready,
    Wait,
    Failed(Error),
}

/// Whether a step is how it goes on with a new recorder.
pub open spec fn is_start_step(
    attempt: int,
    probe: Probe,
    pid: u32,
    log_path: Seq<char>,
    step: Starting,
) -> bool {
    if probe.mark matches Some(contents) && says_ready(contents@) {
        step is Ready
    } else {
        match probe.exited {
            Some(status) => {
                let told = match probe.log {
                    Some(log) => last_error(log@, pid),
                    None => None,
                };
                step matches Starting::Failed(e) && e@ == match told {
                    Some(said) => said,
                    None => "Undo recorder exited during startup ("@ + status@
                        + ").\nCheck the diagnostic log at: "@ + log_path,
                }
            },
            None => if attempt + 1 < START_PROBES {
                step is Wait
            } else {
                step matches Starting::Failed(e) && e@
                    == "Undo did not start recording within 10 seconds.\nCheck the diagnostic log at: "@
                    + log_path
            },
        }
    }
}

/// How it goes on with a new recorder: that it is ready counts before that it
/// ended, and it is not waited for without end.
pub fn wait_for_recorder_start(attempt: usize, probe: &Probe, pid: u32, log_path: &str) -> (step:
    Starting)
    requires
        attempt < START_PROBES,
    ensures
        is_start_step(attempt as int, *probe, pid, log_path@, step),
{
    if let Some(contents) = &probe.mark {
        if is_ready(contents.as_str()) {
            return Starting::Ready;
        }
    }
    if let Some(status) = &probe.exited {
        if let Some(log) = &probe.log {
            if let Some(said) = latest_process_error(log.as_str(), pid) {
                return Starting::Failed(Error::new(said));
            }
        }
        let mut said = text::cat3(
            "Undo recorder exited during startup (",
            status.as_str(),
            ").\nCheck the diagnostic log at: ",
        );
        said.append(log_path);
        return Starting::Failed(Error::new(said));
    }
    if attempt + 1 < START_PROBES {
        Starting::Wait
    } else {
        Starting::Failed(
            Error::new(
                text::cat(
                    "Undo did not start recording within 10 seconds.\nCheck the diagnostic log at: ",
                    log_path,
                ),
            ),
        )
    }
}

// ── starting ────────────────────────────────────────────────────────

/// Whether a folder may be recorded, as far as users and owners go.
pub fn may_record(force: bool, euid: u32, cwd: &str, uid: u32, threshold: u32) -> (result: Result<
    (),
    Error,
>)
    ensures
        if force {
            result is Ok
        } else if euid == 0 {
            result matches Err(e) && e@
                == "Undo did not start: refusing to run as root because saved history belongs to the current user.\nTo bypass this check, rerun with --force; it also bypasses ownership, file-count, and overlap safety checks."@
        } else {
            match owner_problem(cwd@, uid, threshold) {
                Some(said) => result matches Err(e) && e@ == said,
                None => result is Ok,
            }
        },
{
    if force {
        return Ok(());
    }
    check_not_root(euid)?;
    check_directory_owner(cwd, uid, threshold)
}

/// How a start goes on.
#[derive(Debug)]
pub enum StartStep {
    /// A recorder has the folder.
    Already(Vec<String>),
    /// Recording begins.
    Begin(Vec<String>),
}

/// The lines on a folder that is being recorded.
pub open spec fn already_lines(contents: Seq<char>) -> Seq<Seq<char>> {
    seq![
        "Undo is already recording file changes for this folder."@,
        "Folder: "@ + (match line_of(contents, 1) {
            Some(folder) => folder,
            None => "unknown"@,
        }) + " (recorder PID: "@ + (match line_of(contents, 0) {
            Some(pid) => pid,
            None => "?"@,
        }) + ")"@,
    ]
}

/// The lines on a folder whose recording begins.
pub open spec fn begin_lines(cwd: Seq<char>) -> Seq<Seq<char>> {
    seq![BOLD@ + "Undo is recording file changes."@ + RESET@, "Folder: "@ + cwd, ""@]
}

/// Starts recording a folder, or tells who does. `held` is what the mark of the
/// folder says where a recorder holds it.
pub fn cmd_start(
    force: bool,
    cwd: &str,
    held: Option<&str>,
    recorders: &Vec<Recorder>,
    own_pid: u32,
) -> (result: Result<StartStep, Error>)
    ensures
        match held {
            Some(contents) => result matches Ok(StartStep::Already(lines)) && text::views(lines@)
                == already_lines(contents@),
            None => if !force && exists|i: int|
                0 <= i < recorders@.len() && is_in_the_way(#[trigger] recorders@[i], cwd@, own_pid) {
                result matches Err(e) && exists|i: int|
                    #[trigger] is_first_in_the_way(recorders@, i, cwd@, own_pid) && e@
                        == overlap_text(recorders@[i])
            } else {
                result matches Ok(StartStep::Begin(lines)) && text::views(lines@) == begin_lines(
                    cwd@,
                )
            },
        },
{
    let mut lines: Vec<String> = Vec::new();
    if let Some(contents) = held {
        text::add_line(
            &mut lines,
            "Undo is already recording file changes for this folder.".to_owned(),
        );
        text::add_line(
            &mut lines,
            text::cat5(
                "Folder: ",
                line_or(contents, 1, "unknown").as_str(),
                " (recorder PID: ",
                line_or(contents, 0, "?").as_str(),
                ")",
            ),
        );
        proof {
            assert(text::views(lines@) =~= already_lines(contents@));
        }
        return Ok(StartStep::Already(lines));
    }
    if !force {
        match check_no_overlap(recorders, cwd, own_pid) {
            Err(e) => {
                return Err(e);
            },
            Ok(_) => {},
        }
    }
    text::add_line(&mut lines, text::cat3(BOLD, "Undo is recording file changes.", RESET));
    text::add_line(&mut lines, text::cat("Folder: ", cwd));
    text::add_line(&mut lines, "".to_owned());
    proof {
        assert(text::views(lines@) =~= begin_lines(cwd@));
    }
    Ok(StartStep::Begin(lines))
}

/// What is said of an automatic cleanup, if anything.
pub open spec fn prune_text(stats: PruneStats) -> Option<Seq<char>> {
    if stats.events_deleted + stats.snapshots_deleted + stats.backups_deleted > 0 {
        Some(
            "auto-prune: removed "@ + number::decimal(stats.events_deleted as int) + " events, "@
                + number::decimal(stats.snapshots_deleted as int) + " snapshots, "@
                + number::decimal(stats.backups_deleted as int) + " backups (freed "@
                + size::size_text(stats.bytes_freed as int) + ")"@,
        )
    } else {
        None
    }
}

/// What is said of an automatic cleanup, if anything.
pub fn prune_notice(stats: &PruneStats) -> (line: Option<String>)
    ensures
        text::view_opt(line) == prune_text(*stats),
{
    if stats.events_deleted == 0 && stats.snapshots_deleted == 0 && stats.backups_deleted == 0 {
        return None;
    }
    let mut line = text::cat3(
        "auto-prune: removed ",
        number::unsigned_text(stats.events_deleted).as_str(),
        " events, ",
    );
    line.append(number::unsigned_text(stats.snapshots_deleted).as_str());
    line.append(" snapshots, ");
    line.append(number::unsigned_text(stats.backups_deleted).as_str());
    line.append(" backups (freed ");
    line.append(size::format_size(stats.bytes_freed).as_str());
    line.append(")");
    Some(line)
}

/// What is said of the check of the saved versions at the start, and whether it
/// is a warning.
pub open spec fn integrity_text(report: IntegrityReport) -> (bool, Seq<char>) {
    if report.missing > 0 {
        (
            true,
            "integrity: "@ + number::decimal(report.missing as int) + " of "@ + number::decimal(
                report.checked as int,
            )
                + " referenced snapshots missing on disk — affected versions cannot be restored (run `undo status` for a deep decompress check)"@,
        )
    } else {
        (
            false,
            "integrity: "@ + number::decimal(report.checked as int)
                + " referenced snapshots present (existence check)"@,
        )
    }
}

/// What is said of the check of the saved versions at the start, and whether it
/// is a warning.
pub fn integrity_notice(report: &IntegrityReport) -> (said: (bool, String))
    ensures
        (said.0, said.1@) == integrity_text(*report),
{
    let checked = number::count_text(report.checked);
    if report.missing > 0 {
        (
            true,
            text::cat5(
                "integrity: ",
                number::count_text(report.missing).as_str(),
                " of ",
                checked.as_str(),
                " referenced snapshots missing on disk — affected versions cannot be restored (run `undo status` for a deep decompress check)",
            ),
        )
    } else {
        (
            false,
            text::cat3(
                "integrity: ",
                checked.as_str(),
                " referenced snapshots present (existence check)",
            ),
        )
    }
}

// ── stopping ────────────────────────────────────────────────────────

/// How often a recorder that was told to stop is looked at.
pub const STOP_PROBES: usize = 60;

/// Which recorders a stop is about.
#[derive(Debug)]
pub enum StopRequest {
    /// Those of the marks at these paths.
    Marks(Vec<String>),
    /// None, as this line says.
    Nobody(String),
}

/// The files that are marks, in order.
pub open spec fn marks_among(files: Seq<Seq<char>>) -> Seq<Seq<char>>
    decreases files.len(),
{
    if files.len() == 0 {
        Seq::empty()
    } else if is_mark_name(files.last()) {
        marks_among(files.drop_last()).push(files.last())
    } else {
        marks_among(files.drop_last())
    }
}

/// The files that are marks, in order.
fn marks_of(files: &Vec<String>) -> (marks: Vec<String>)
    ensures
        text::views(marks@) == marks_among(text::views(files@)),
{
    let mut marks: Vec<String> = Vec::new();
    let ghost all = text::views(files@);
    let mut i: usize = 0;
    proof {
        assert(text::views(marks@) =~= marks_among(all.take(0)));
    }
    while i < files.len()
        invariant
            i <= files.len(),
            all == text::views(files@),
            text::views(marks@) == marks_among(all.take(i as int)),
        decreases files.len() - i,
    {
        proof {
            let next = all.take(i + 1);
            assert(next.drop_last() =~= all.take(i as int));
            assert(next.last() == files@[i as int]@);
        }
        if is_mark(files[i].as_str()) {
            text::add_line(&mut marks, files[i].clone());
        }
        i += 1;
    }
    proof {
        assert(all.take(i as int) =~= all);
    }
    marks
}

/// Which recorders a stop is about: the one of a folder, or all of them. `files`
/// are the files in the folder of marks, where there is such a folder.
pub fn cmd_stop(bt_dir: &str, cwd: &str, all: bool, files: Option<&Vec<String>>) -> (request:
    StopRequest)
    ensures
        if all {
            match files {
                Some(files) => request matches StopRequest::Marks(marks) && text::views(marks@)
                    == marks_among(text::views(files@)),
                None => request matches StopRequest::Nobody(line) && line@
                    == "Undo is not recording file changes in any folder."@,
            }
        } else if files is Some && text::views(files->0@).contains(mark_path(bt_dir@, cwd@)) {
            request matches StopRequest::Marks(marks) && text::views(marks@) == seq![
                mark_path(bt_dir@, cwd@),
            ]
        } else {
            request matches StopRequest::Nobody(line) && line@
                == "Undo is not recording file changes for this folder."@
        },
{
    if all {
        return match files {
            Some(files) => StopRequest::Marks(marks_of(files)),
            None => StopRequest::Nobody(
                "Undo is not recording file changes in any folder.".to_owned(),
            ),
        };
    }
    let mark = pid_file_for_root(bt_dir, cwd);
    let there = match files {
        Some(files) => text::contains(files, mark.as_str()),
        None => false,
    };
    if there {
        let mut marks: Vec<String> = Vec::new();
        text::add_line(&mut marks, mark);
        proof {
            assert(text::views(marks@) =~= seq![mark_path(bt_dir@, cwd@)]);
        }
        StopRequest::Marks(marks)
    } else {
        StopRequest::Nobody("Undo is not recording file changes for this folder.".to_owned())
    }
}

/// What is said once all recorders were told to stop.
pub fn stop_all_daemons(stopped: usize) -> (said: Option<String>)
    ensures
        text::view_opt(said) == if stopped == 0 {
            Some("Undo was not recording file changes in any folder."@)
        } else {
            None
        },
{
    if stopped == 0 {
        Some("Undo was not recording file changes in any folder.".to_owned())
    } else {
        None
    }
}

/// How a stop goes on.
#[derive(Debug)]
pub enum StopStep {
    /// No recorder holds the mark, which goes.
    Stale(Vec<String>),
    /// The recorder is told to stop.
    Tell(u32),
}

/// The lines on a mark that no recorder holds.
pub open spec fn stale_lines() -> Seq<Seq<char>> {
    seq!["Undo was not recording file changes."@, "Removed a stale recorder marker."@]
}

/// The first line of a mark.
pub open spec fn first_line(contents: Seq<char>) -> Seq<char> {
    match line_of(contents, 0) {
        Some(line) => line,
        None => ""@,
    }
}

/// How a stop goes on, by what the mark of a recorder says and whether a recorder
/// holds it.
pub fn stop_one_daemon(contents: &str, held: bool) -> (result: Result<StopStep, Error>)
    ensures
        match process_of(first_line(contents@)) {
            None => result matches Err(e) && e@ == "invalid PID file"@,
            Some(pid) => if held {
                result matches Ok(StopStep::Tell(p)) && p == pid
            } else {
                result matches Ok(StopStep::Stale(lines)) && text::views(lines@) == stale_lines()
            },
        },
{
    let pid = match parse_pid(line_or(contents, 0, "").as_str()) {
        None => {
            return Err(Error::new("invalid PID file".to_owned()));
        },
        Some(pid) => pid,
    };
    if held {
        return Ok(StopStep::Tell(pid));
    }
    let mut lines: Vec<String> = Vec::new();
    text::add_line(&mut lines, "Undo was not recording file changes.".to_owned());
    text::add_line(&mut lines, "Removed a stale recorder marker.".to_owned());
    proof {
        assert(text::views(lines@) =~= stale_lines());
    }
    Ok(StopStep::Stale(lines))
}

/// The lines on a recorder that has stopped.
pub open spec fn stopped_lines(contents: Seq<char>, pid: u32) -> Seq<Seq<char>> {
    seq![
        "Undo stopped recording file changes."@,
        "Folder: "@ + (match line_of(contents, 1) {
            Some(folder) => folder,
            None => "unknown"@,
        }) + " (recorder PID: "@ + number::decimal(pid as int) + ")"@,
    ]
}

/// What came of telling a recorder to stop.
pub fn after_stop(contents: &str, pid: u32, held: bool) -> (result: Result<Vec<String>, Error>)
    ensures
        if held {
            result matches Err(e) && e@
                == "Undo did not stop recording within 6 seconds (recorder PID: "@
                + number::decimal(pid as int)
                + ").\nIf the recorder is stuck, stop it with: kill -9 "@ + number::decimal(
                pid as int,
            )
        } else {
            result matches Ok(lines) && text::views(lines@) == stopped_lines(contents@, pid)
        },
{
    let shown = number::unsigned_text(pid as u64);
    if held {
        let mut said = text::cat3(
            "Undo did not stop recording within 6 seconds (recorder PID: ",
            shown.as_str(),
            ").\nIf the recorder is stuck, stop it with: kill -9 ",
        );
        said.append(shown.as_str());
        return Err(Error::new(said));
    }
    let mut lines: Vec<String> = Vec::new();
    text::add_line(&mut lines, "Undo stopped recording file changes.".to_owned());
    text::add_line(
        &mut lines,
        text::cat5(
            "Folder: ",
            line_or(contents, 1, "unknown").as_str(),
            " (recorder PID: ",
            shown.as_str(),
            ")",
        ),
    );
    proof {
        assert(text::views(lines@) =~= stopped_lines(contents@, pid));
    }
    Ok(lines)
}

// ── how recording is ────────────────────────────────────────────────

/// How the recorder of a folder is.
#[derive(Debug)]
pub enum RecorderState {
    /// It runs, and this is what its mark says.
    Running(String),
    /// There is a mark that no recorder holds.
    Stale,
    /// There is no mark.
    Absent,
}

/// How the recorder of a folder is.
pub open spec fn state_text(state: RecorderState) -> Seq<char> {
    match state {
        RecorderState::Running(contents) => GREEN@ + "running"@ + RESET@ + " (PID "@ + (
        match line_of(contents@, 0) {
            Some(pid) => pid,
            None => "?"@,
        }) + ")"@,
        RecorderState::Stale => YELLOW@ + "not running"@ + RESET@ + " (stale PID)"@,
        RecorderState::Absent => RED@ + "not running"@ + RESET@,
    }
}

/// How the recorder of a folder is.
fn state_line(state: &RecorderState) -> (line: String)
    ensures
        line@ == state_text(*state),
{
    match state {
        RecorderState::Running(contents) => {
            let mut line = text::cat3(GREEN, "running", RESET);
            line.append(" (PID ");
            line.append(line_or(contents.as_str(), 0, "?").as_str());
            line.append(")");
            line
        },
        RecorderState::Stale => {
            let mut line = text::cat3(YELLOW, "not running", RESET);
            line.append(" (stale PID)");
            line
        },
        RecorderState::Absent => text::cat3(RED, "not running", RESET),
    }
}

/// How the saved versions are.
pub open spec fn health_text(report: IntegrityReport) -> Seq<char> {
    if report.missing == 0 && report.corrupt == 0 {
        GREEN@ + "OK"@ + RESET@ + " ("@ + number::decimal(report.checked as int) + " verified)"@
    } else {
        RED@ + number::decimal(report.missing + report.corrupt) + " unreadable"@ + RESET@ + " ("@
            + number::decimal(report.missing as int) + " missing, "@ + number::decimal(
            report.corrupt as int,
        ) + " corrupt, of "@ + number::decimal(report.checked as int) + " checked)"@
    }
}

/// How the saved versions are.
fn health_line(report: &IntegrityReport) -> (line: String)
    requires
        report.missing + report.corrupt <= usize::MAX,
    ensures
        line@ == health_text(*report),
{
    let checked = number::count_text(report.checked);
    if report.is_clean() {
        let mut line = text::cat5(GREEN, "OK", RESET, " (", checked.as_str());
        line.append(" verified)");
        return line;
    }
    let mut line = text::cat5(
        RED,
        number::count_text(report.problems()).as_str(),
        " unreadable",
        RESET,
        " (",
    );
    line.append(number::count_text(report.missing).as_str());
    line.append(" missing, ");
    line.append(number::count_text(report.corrupt).as_str());
    line.append(" corrupt, of ");
    line.append(checked.as_str());
    line.append(" checked)");
    line
}

/// What is known of a folder that is recorded.
#[derive(Debug)]
pub struct Status {
    pub root: String,
    pub recorder: RecorderState,
    pub db_path: String,
    pub db_size: u64,
    pub events: i64,
    pub snapshots: usize,
    pub health: IntegrityReport,
    pub config: RetentionConfig,
    pub usage: DiskUsage,
    pub log_path: String,
}

/// The lines on how recording is.
pub open spec fn status_lines(known: Option<Status>) -> Seq<Seq<char>> {
    let head = seq![BOLD@ + "Undo recording status"@ + RESET@, ""@];
    match known {
        None => head + seq![
            "Undo is not recording file changes for this folder."@,
            "Run "@ + BOLD@ + "undo start"@ + RESET@ + " to begin."@,
        ],
        Some(s) => head + seq![
            "Folder:        "@ + s.root@,
            "Recording:     "@ + state_text(s.recorder),
            "Data index:    "@ + s.db_path@ + " ("@ + (size::in_units(s.db_size as int, 1024)
                + " KB"@) + ")"@,
            "File changes:  "@ + number::decimal(s.events as int),
            "Saved versions: "@ + number::decimal(s.snapshots as int),
            "History health: "@ + health_text(s.health),
            "Keep history:  "@ + number::decimal(s.config.retention_days as int) + " days, "@
                + size::size_text(room(s.config)) + " max"@,
            "Storage:       "@ + size::size_text(s.usage.total as int) + " (versions: "@
                + size::size_text(s.usage.snapshots as int) + ", backups: "@ + size::size_text(
                s.usage.backups as int,
            ) + ", index: "@ + size::size_text(s.db_size as int) + ")"@,
            "Diagnostic log: "@ + s.log_path@,
        ],
    }
}

/// The line on the storage of a folder that is recorded.
fn storage_line(s: &Status) -> (line: String)
    ensures
        line@ == "Storage:       "@ + size::size_text(s.usage.total as int) + " (versions: "@
            + size::size_text(s.usage.snapshots as int) + ", backups: "@ + size::size_text(
            s.usage.backups as int,
        ) + ", index: "@ + size::size_text(s.db_size as int) + ")"@,
{
    let mut line = text::cat3(
        "Storage:       ",
        size::format_size(s.usage.total).as_str(),
        " (versions: ",
    );
    line.append(size::format_size(s.usage.snapshots).as_str());
    line.append(", backups: ");
    line.append(size::format_size(s.usage.backups).as_str());
    line.append(", index: ");
    line.append(size::format_size(s.db_size).as_str());
    line.append(")");
    line
}

/// The lines on how recording is.
pub fn cmd_status(known: Option<&Status>) -> (lines: Vec<String>)
    requires
        known matches Some(s) ==> s.health.missing + s.health.corrupt <= usize::MAX,
    ensures
        text::views(lines@) == status_lines(
            match known {
                Some(s) => Some(*s),
                None => None,
            },
        ),
{
    let mut lines: Vec<String> = Vec::new();
    text::add_line(&mut lines, text::cat3(BOLD, "Undo recording status", RESET));
    text::add_line(&mut lines, "".to_owned());
    let s = match known {
        None => {
            text::add_line(
                &mut lines,
                "Undo is not recording file changes for this folder.".to_owned(),
            );
            text::add_line(
                &mut lines,
                text::cat5("Run ", BOLD, "undo start", RESET, " to begin."),
            );
            proof {
                assert(text::views(lines@) =~= status_lines(None));
            }
            return lines;
        },
        Some(s) => s,
    };
    text::add_line(&mut lines, text::cat("Folder:        ", s.root.as_str()));
    text::add_line(&mut lines, text::cat("Recording:     ", state_line(&s.recorder).as_str()));
    text::add_line(
        &mut lines,
        text::cat5(
            "Data index:    ",
            s.db_path.as_str(),
            " (",
            size::kilobytes(s.db_size).as_str(),
            ")",
        ),
    );
    text::add_line(
        &mut lines,
        text::cat("File changes:  ", number::signed_text(s.events).as_str()),
    );
    text::add_line(
        &mut lines,
        text::cat("Saved versions: ", number::count_text(s.snapshots).as_str()),
    );
    text::add_line(&mut lines, text::cat("History health: ", health_line(&s.health).as_str()));
    text::add_line(
        &mut lines,
        text::cat5(
            "Keep history:  ",
            number::unsigned_text(s.config.retention_days).as_str(),
            " days, ",
            size::format_size(s.config.max_size_bytes()).as_str(),
            " max",
        ),
    );
    text::add_line(&mut lines, storage_line(s));
    text::add_line(&mut lines, text::cat("Diagnostic log: ", s.log_path.as_str()));
    proof {
        assert(text::views(lines@) =~= status_lines(Some(*s)));
    }
    lines
}

} // verus!
