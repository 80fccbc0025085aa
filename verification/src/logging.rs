//! What is written to the log of the recorder.
use vstd::prelude::*;
use vstd::string::*;

use crate::number;
use crate::path;
use crate::style::{RED, RESET, YELLOW};
use crate::text;

verus! {

/// The size from which on a log is put aside, in bytes.
pub const MAX_LOG_BYTES: u64 = 5242880;

/// The name of the log in the data folder.
pub const LOG_FILE_NAME: &'static str = "undo.log";

/// How serious a line of the log is.
#[derive(Debug, Clone, Copy, PartialEq, Eq, Structural)]
pub enum Level {
    Info,
    Notice,
    Warn,
    Error,
}

/// The word for how serious a line is.
pub open spec fn level_word(level: Level) -> Seq<char> {
    match level {
        Level::Info => "INFO"@,
        Level::Notice => "INFO"@,
        Level::Warn => "WARN"@,
        Level::Error => "ERROR"@,
    }
}

impl Level {
    /// The word for how serious a line is.
    pub fn as_str(self) -> (word: &'static str)
        ensures
            word@ == level_word(self),
    {
        match self {
            Level::Info => "INFO",
            Level::Notice => "INFO",
            Level::Warn => "WARN",
            Level::Error => "ERROR",
        }
    }
}

/// Where the log is in the data folder.
pub fn log_path(bt_dir: &str) -> (path: String)
    ensures
        path@ == path::join_spec(bt_dir@, LOG_FILE_NAME@),
{
    path::join(bt_dir, LOG_FILE_NAME)
}

/// A path without what stands for its last name again.
pub open spec fn bare(path: Seq<char>) -> Seq<char>
    decreases path.len(),
{
    if path.len() > 0 && path.last() == '/' {
        bare(path.drop_last())
    } else if path.len() >= 2 && path.last() == '.' && path[path.len() - 2] == '/' {
        bare(path.take(path.len() - 2))
    } else {
        path
    }
}

/// Where a log is put aside.
pub open spec fn put_aside(path: Seq<char>) -> Seq<char> {
    if path::file_name(path) is Some {
        bare(path) + ".1"@
    } else {
        path::join_spec(path, LOG_FILE_NAME@ + ".1"@)
    }
}

/// A path without what stands for its last name again.
fn bare_path(path: &str) -> (out: String)
    ensures
        out@ == bare(path@),
{
    let chars = text::chars_of(path);
    let mut n: usize = chars.len();
    proof {
        assert(path@.take(n as int) =~= path@);
    }
    loop
        invariant
            n <= chars.len(),
            chars@ == path@,
            bare(path@.take(n as int)) == bare(path@),
        decreases n,
    {
        let ghost part = path@.take(n as int);
        if n > 0 && chars[n - 1] == '/' {
            proof {
                assert(part.drop_last() =~= path@.take(n - 1));
            }
            n = n - 1;
        } else if n >= 2 && chars[n - 1] == '.' && chars[n - 2] == '/' {
            proof {
                assert(part.take(part.len() - 2) =~= path@.take(n - 2));
            }
            n = n - 2;
        } else {
            proof {
                assert(path@.subrange(0, n as int) =~= part);
            }
            return text::text_of(&chars, 0, n);
        }
    }
}

/// Where a log is put aside.
pub fn rotated_path(path: &str) -> (out: String)
    ensures
        out@ == put_aside(path@),
{
    match path::last_name(path) {
        Some(_) => text::cat(bare_path(path).as_str(), ".1"),
        None => path::join(path, text::cat(LOG_FILE_NAME, ".1").as_str()),
    }
}

/// Whether a log is put aside before the next line: where it has grown past its
/// size.
pub fn is_full(len: u64, max_bytes: u64) -> (yes: bool)
    ensures
        yes == (len > max_bytes),
{
    len > max_bytes
}

/// A line of the log.
pub open spec fn log_line(time: Seq<char>, pid: u32, level: Level, message: Seq<char>) -> Seq<
    char,
> {
    time + " ["@ + number::decimal(pid as int) + "] "@ + level_word(level) + " "@ + message
}

/// A line of the log, with the process that wrote it and how serious it is.
pub fn write_line(time: &str, pid: u32, level: Level, msg: &str) -> (line: String)
    ensures
        line@ == log_line(time@, pid, level, msg@),
{
    let mut line = text::cat5(
        time,
        " [",
        number::unsigned_text(pid as u64).as_str(),
        "] ",
        level.as_str(),
    );
    line.append(" ");
    line.append(msg);
    line
}

/// What the user sees of a message, if anything.
pub open spec fn shown(level: Level, message: Seq<char>) -> Option<Seq<char>> {
    match level {
        Level::Info => None,
        Level::Notice => Some(message),
        Level::Warn => Some(YELLOW@ + "warning:"@ + RESET@ + " "@ + message),
        Level::Error => Some(RED@ + "error:"@ + RESET@ + " "@ + message),
    }
}

/// What the user sees of a message, if anything.
pub fn shown_to_user(level: Level, msg: &str) -> (line: Option<String>)
    ensures
        text::view_opt(line) == shown(level, msg@),
{
    match level {
        Level::Info => None,
        Level::Notice => Some(msg.to_owned()),
        Level::Warn => Some(text::cat5(YELLOW, "warning:", RESET, " ", msg)),
        Level::Error => Some(text::cat5(RED, "error:", RESET, " ", msg)),
    }
}

/// A line of the log that the user does not see.
pub fn info(time: &str, pid: u32, msg: &str) -> (line: String)
    ensures
        line@ == log_line(time@, pid, Level::Info, msg@),
{
    write_line(time, pid, Level::Info, msg)
}

} // verus!
