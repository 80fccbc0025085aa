//! Terminal styles.
use vstd::prelude::*;

use crate::text;

verus! {

pub const RED: &'static str = "\x1b[31m";

pub const GREEN: &'static str = "\x1b[32m";

pub const YELLOW: &'static str = "\x1b[33m";

pub const BLUE: &'static str = "\x1b[34m";

pub const BOLD: &'static str = "\x1b[1m";

pub const DIM: &'static str = "\x1b[2m";

pub const RESET: &'static str = "\x1b[0m";

/// The colour of a kind of change.
pub open spec fn color_of(event_type: Seq<char>) -> Seq<char> {
    if event_type == "MODIFIED"@ {
        YELLOW@
    } else if event_type == "CREATED"@ {
        GREEN@
    } else if event_type == "DELETED"@ {
        RED@
    } else if event_type == "RENAMED"@ {
        BLUE@
    } else {
        ""@
    }
}

/// The colour of a kind of change.
pub fn event_color(event_type: &str) -> (color: &'static str)
    ensures
        color@ == color_of(event_type@),
{
    if text::same(event_type, "MODIFIED") {
        YELLOW
    } else if text::same(event_type, "CREATED") {
        GREEN
    } else if text::same(event_type, "DELETED") {
        RED
    } else if text::same(event_type, "RENAMED") {
        BLUE
    } else {
        ""
    }
}

} // verus!
