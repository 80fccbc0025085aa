//! The steps in which a file is replaced or removed, so that what it held is
//! never lost: at every moment it is in place, beside its place, or saved.
use vstd::prelude::*;
use vstd::string::*;

use crate::path;
use crate::restore_fs::ProjectPath;
use crate::text;

verus! {

/// A step.
#[derive(Clone, Copy, Debug, PartialEq, Eq, Structural)]
pub enum Step {
    /// Write the new content to a file beside the target.
    Stage,
    /// Let the two change places.
    Exchange,
    /// Look at what now stands beside the target.
    Inspect,
    /// Let the two change places back.
    ExchangeBack,
    /// Look whether the new content is beside the target again.
    Recheck,
    /// Save what stands beside the target.
    Backup,
    /// Give the new file the mode of the one that it replaced.
    AdoptMode,
    /// Put the new file where none was.
    Link,
    /// Move the target beside its place.
    Quarantine,
    /// Move it back.
    MoveBack,
    /// Remove what stands beside the target.
    RemoveBeside,
    /// Remove the new content that was not used.
    Cleanup,
    Finished,
}

/// What came of a step.
#[derive(Clone, Copy, Debug, PartialEq, Eq, Structural)]
pub enum Came {
    Done,
    Failed,
    /// What was looked at is no file, or is not the one that was expected.
    Different,
    /// A file is already there.
    Taken,
    /// Nothing is there.
    Gone,
}

/// Why it did not work.
#[derive(Clone, Copy, Debug, PartialEq, Eq, Structural)]
pub enum Fault {
    /// A step failed, with nothing to add to its own error.
    Plain,
    Exchange,
    NotFile,
    Disappeared,
    Backup,
    Taken,
}

/// How far a file is on its way.
#[derive(Clone, Copy, Debug, PartialEq, Eq, Structural)]
pub struct Progress {
    /// Whether a file was at the target.
    pub replacing: bool,
    pub step: Step,
    /// Whether the new content, and nothing else, is beside the target.
    pub beside_is_new: bool,
    pub fault: Option<Fault>,
}

/// The end of the way after something went wrong: new content that was not used
/// is removed first.
pub open spec fn failed(p: Progress, fault: Fault) -> Progress {
    Progress {
        step: if p.beside_is_new {
            Step::Cleanup
        } else {
            Step::Finished
        },
        fault: Some(fault),
        ..p
    }
}

/// The next step on the way of a file that is replaced.
pub open spec fn write_after(p: Progress, came: Came) -> Progress {
    match p.step {
        Step::Stage => if came == Came::Done {
            Progress {
                step: if p.replacing {
                    Step::Exchange
                } else {
                    Step::Link
                },
                ..p
            }
        } else {
            failed(p, Fault::Plain)
        },
        Step::Exchange => if came == Came::Done {
            Progress { step: Step::Inspect, beside_is_new: false, ..p }
        } else {
            failed(p, Fault::Exchange)
        },
        Step::Inspect => if came == Came::Done {
            Progress { step: Step::Backup, ..p }
        } else if came == Came::Different {
            Progress { step: Step::ExchangeBack, fault: Some(Fault::NotFile), ..p }
        } else {
            failed(p, Fault::Plain)
        },
        Step::ExchangeBack => if came == Came::Done {
            Progress { step: Step::Recheck, ..p }
        } else {
            failed(p, Fault::NotFile)
        },
        Step::Recheck => if came == Came::Done {
            failed(Progress { beside_is_new: true, ..p }, Fault::NotFile)
        } else {
            failed(p, Fault::NotFile)
        },
        Step::Backup => if came == Came::Done {
            Progress { step: Step::AdoptMode, ..p }
        } else if came == Came::Gone {
            failed(p, Fault::Disappeared)
        } else {
            failed(p, Fault::Backup)
        },
        Step::AdoptMode => if came == Came::Done {
            Progress { step: Step::RemoveBeside, ..p }
        } else {
            failed(p, Fault::Plain)
        },
        Step::Link => if came == Came::Done {
            Progress { step: Step::RemoveBeside, ..p }
        } else if came == Came::Taken {
            failed(p, Fault::Taken)
        } else {
            failed(p, Fault::Plain)
        },
        Step::RemoveBeside => if came == Came::Done {
            Progress { step: Step::Finished, beside_is_new: false, ..p }
        } else {
            failed(p, Fault::Plain)
        },
        _ => Progress { step: Step::Finished, ..p },
    }
}

/// The next step on the way of a file that is removed.
pub open spec fn delete_after(p: Progress, came: Came) -> Progress {
    match p.step {
        Step::Quarantine => if came == Came::Done {
            Progress { step: Step::Inspect, ..p }
        } else {
            failed(p, Fault::Plain)
        },
        Step::Inspect => if came == Came::Done {
            Progress { step: Step::Backup, ..p }
        } else if came == Came::Different {
            Progress { step: Step::MoveBack, fault: Some(Fault::NotFile), ..p }
        } else {
            failed(p, Fault::Plain)
        },
        Step::MoveBack => failed(p, Fault::NotFile),
        Step::Backup => if came == Came::Done {
            Progress { step: Step::RemoveBeside, ..p }
        } else if came == Came::Gone {
            failed(p, Fault::Disappeared)
        } else {
            failed(p, Fault::Backup)
        },
        Step::RemoveBeside => if came == Came::Done {
            Progress { step: Step::Finished, ..p }
        } else {
            failed(p, Fault::Plain)
        },
        _ => Progress { step: Step::Finished, ..p },
    }
}

/// Where the way of a file that is replaced starts, once a file for the new
/// content is made.
pub fn begin_write(replacing: bool) -> (p: Progress)
    ensures
        p == (Progress { replacing, step: Step::Stage, beside_is_new: true, fault: None }),
{
    Progress { replacing, step: Step::Stage, beside_is_new: true, fault: None }
}

/// Where the way of a file that is removed starts.
pub fn begin_delete() -> (p: Progress)
    ensures
        p == (Progress {
            replacing: true,
            step: Step::Quarantine,
            beside_is_new: false,
            fault: None,
        }),
{
    Progress { replacing: true, step: Step::Quarantine, beside_is_new: false, fault: None }
}

/// The end of the way after something went wrong.
fn fail(p: Progress, fault: Fault) -> (next: Progress)
    ensures
        next == failed(p, fault),
{
    Progress {
        replacing: p.replacing,
        step: if p.beside_is_new {
            Step::Cleanup
        } else {
            Step::Finished
        },
        beside_is_new: p.beside_is_new,
        fault: Some(fault),
    }
}

/// The same way, at another step.
fn at(p: Progress, step: Step) -> (next: Progress)
    ensures
        next == (Progress { step, ..p }),
{
    Progress { replacing: p.replacing, step, beside_is_new: p.beside_is_new, fault: p.fault }
}

/// The next step on the way of a file that is replaced.
pub fn next_write(p: Progress, came: Came) -> (next: Progress)
    ensures
        next == write_after(p, came),
{
    let done = came == Came::Done;
    match p.step {
        Step::Stage => if !done {
            fail(p, Fault::Plain)
        } else if p.replacing {
            at(p, Step::Exchange)
        } else {
            at(p, Step::Link)
        },
        Step::Exchange => if !done {
            fail(p, Fault::Exchange)
        } else {
            Progress {
                replacing: p.replacing,
                step: Step::Inspect,
                beside_is_new: false,
                fault: p.fault,
            }
        },
        Step::Inspect => if done {
            at(p, Step::Backup)
        } else if came == Came::Different {
            Progress {
                replacing: p.replacing,
                step: Step::ExchangeBack,
                beside_is_new: p.beside_is_new,
                fault: Some(Fault::NotFile),
            }
        } else {
            fail(p, Fault::Plain)
        },
        Step::ExchangeBack => if done {
            at(p, Step::Recheck)
        } else {
            fail(p, Fault::NotFile)
        },
        Step::Recheck => if done {
            fail(
                Progress {
                    replacing: p.replacing,
                    step: p.step,
                    beside_is_new: true,
                    fault: p.fault,
                },
                Fault::NotFile,
            )
        } else {
            fail(p, Fault::NotFile)
        },
        Step::Backup => if done {
            at(p, Step::AdoptMode)
        } else if came == Came::Gone {
            fail(p, Fault::Disappeared)
        } else {
            fail(p, Fault::Backup)
        },
        Step::AdoptMode => if done {
            at(p, Step::RemoveBeside)
        } else {
            fail(p, Fault::Plain)
        },
        Step::Link => if done {
            at(p, Step::RemoveBeside)
        } else if came == Came::Taken {
            fail(p, Fault::Taken)
        } else {
            fail(p, Fault::Plain)
        },
        Step::RemoveBeside => if done {
            Progress {
                replacing: p.replacing,
                step: Step::Finished,
                beside_is_new: false,
                fault: p.fault,
            }
        } else {
            fail(p, Fault::Plain)
        },
        _ => at(p, Step::Finished),
    }
}

/// The next step on the way of a file that is removed.
pub fn next_delete(p: Progress, came: Came) -> (next: Progress)
    ensures
        next == delete_after(p, came),
{
    let done = came == Came::Done;
    match p.step {
        Step::Quarantine => if done {
            at(p, Step::Inspect)
        } else {
            fail(p, Fault::Plain)
        },
        Step::Inspect => if done {
            at(p, Step::Backup)
        } else if came == Came::Different {
            Progress {
                replacing: p.replacing,
                step: Step::MoveBack,
                beside_is_new: p.beside_is_new,
                fault: Some(Fault::NotFile),
            }
        } else {
            fail(p, Fault::Plain)
        },
        Step::MoveBack => fail(p, Fault::NotFile),
        Step::Backup => if done {
            at(p, Step::RemoveBeside)
        } else if came == Came::Gone {
            fail(p, Fault::Disappeared)
        } else {
            fail(p, Fault::Backup)
        },
        Step::RemoveBeside => if done {
            at(p, Step::Finished)
        } else {
            fail(p, Fault::Plain)
        },
        _ => at(p, Step::Finished),
    }
}

// ── nothing is lost ─────────────────────────────────────────────────

/// What stands at a name.
#[derive(Clone, Copy, Debug, PartialEq, Eq, Structural)]
pub enum Holds {
    Nothing,
    New,
    Earlier,
}

/// What stands at the target and beside it, and whether what was there earlier
/// is saved.
pub struct Scene {
    pub target: Holds,
    pub beside: Holds,
    pub saved: bool,
}

/// What a step that was done does to the names. One that was not done leaves
/// them as they are.
pub open spec fn scene_after(s: Scene, step: Step, came: Came) -> Scene {
    if came != Came::Done {
        s
    } else {
        match step {
            Step::Stage => Scene { beside: Holds::New, ..s },
            Step::Exchange => Scene { target: s.beside, beside: s.target, ..s },
            Step::ExchangeBack => Scene { target: s.beside, beside: s.target, ..s },
            Step::Backup => Scene { saved: s.saved || s.beside == Holds::Earlier, ..s },
            Step::Link => Scene { target: Holds::New, ..s },
            Step::Quarantine => Scene { target: Holds::Nothing, beside: s.target, ..s },
            Step::MoveBack => Scene { target: s.beside, beside: Holds::Nothing, ..s },
            Step::RemoveBeside => Scene { beside: Holds::Nothing, ..s },
            Step::Cleanup => Scene { beside: Holds::Nothing, ..s },
            _ => s,
        }
    }
}

/// Whether what was there earlier is still somewhere.
pub open spec fn is_kept(s: Scene) -> bool {
    s.target == Holds::Earlier || s.beside == Holds::Earlier || s.saved
}

/// What is known of the names at each step of a file that is replaced.
pub open spec fn write_fits(p: Progress, s: Scene) -> bool {
    &&& p.replacing ==> is_kept(s)
    &&& p.beside_is_new ==> s.beside != Holds::Earlier
    &&& match p.step {
        Step::Stage => p.beside_is_new && (p.replacing ==> s.target == Holds::Earlier),
        Step::Exchange => p.replacing && s.target == Holds::Earlier && s.beside == Holds::New,
        Step::Inspect => s.beside == Holds::Earlier && s.target == Holds::New,
        Step::ExchangeBack => s.beside == Holds::Earlier && s.target == Holds::New,
        Step::Recheck => s.target == Holds::Earlier && s.beside == Holds::New,
        Step::Backup => s.beside == Holds::Earlier && s.target == Holds::New,
        Step::AdoptMode => s.saved && s.target == Holds::New,
        Step::Link => !p.replacing && p.beside_is_new && s.beside == Holds::New,
        Step::RemoveBeside => s.target == Holds::New && (p.replacing ==> s.saved),
        Step::Cleanup => p.fault is Some && (p.replacing ==> s.target == Holds::Earlier
            || s.saved),
        Step::Finished => p.fault is None ==> s.target == Holds::New && (p.replacing ==> s.saved),
        _ => false,
    }
}

/// Replacing a file never loses what it held: whatever comes of each step, that
/// is in place, beside its place, or saved. Where the way ends without a fault
/// the new content is in place and the earlier one saved.
pub proof fn lemma_write_loses_nothing(p: Progress, s: Scene, came: Came)
    requires
        write_fits(p, s),
    ensures
        write_fits(write_after(p, came), scene_after(s, p.step, came)),
{
}

/// What is known of the names at each step of a file that is removed.
pub open spec fn delete_fits(p: Progress, s: Scene) -> bool {
    &&& is_kept(s)
    &&& !p.beside_is_new
    &&& match p.step {
        Step::Quarantine => s.target == Holds::Earlier,
        Step::Inspect => s.target == Holds::Nothing && s.beside == Holds::Earlier,
        Step::MoveBack => s.target == Holds::Nothing && s.beside == Holds::Earlier,
        Step::Backup => s.target == Holds::Nothing && s.beside == Holds::Earlier,
        Step::RemoveBeside => s.target == Holds::Nothing && s.saved,
        Step::Finished => p.fault is None ==> s.target == Holds::Nothing && s.saved,
        _ => false,
    }
}

/// Removing a file never loses what it held. Where the way ends without a fault
/// the file is gone and what it held is saved.
pub proof fn lemma_delete_loses_nothing(p: Progress, s: Scene, came: Came)
    requires
        delete_fits(p, s),
    ensures
        delete_fits(delete_after(p, came), scene_after(s, p.step, came)),
{
}

/// Both ways start with the file in its place.
pub proof fn lemma_ways_start_whole(replacing: bool)
    ensures
        write_fits(
            Progress { replacing, step: Step::Stage, beside_is_new: true, fault: None },
            Scene {
                target: if replacing {
                    Holds::Earlier
                } else {
                    Holds::Nothing
                },
                beside: Holds::Nothing,
                saved: false,
            },
        ),
        delete_fits(
            Progress {
                replacing: true,
                step: Step::Quarantine,
                beside_is_new: false,
                fault: None,
            },
            Scene { target: Holds::Earlier, beside: Holds::Nothing, saved: false },
        ),
{
}

// ── what is said ────────────────────────────────────────────────────

/// Where what stands beside a target is, below the root.
pub open spec fn beside_path(target: Seq<char>, beside: Seq<char>) -> Seq<char> {
    path::join_spec(path::path_of(false, path::names(target).drop_last()), beside)
}

/// What is said where replacing a file did not work, where there is anything to
/// add to the error of the step.
pub open spec fn write_fault(fault: Fault, target: Seq<char>, beside: Seq<char>) -> Option<Seq<char>> {
    match fault {
        Fault::Plain => None,
        Fault::Exchange => Some("atomically replace restore target '"@ + target + "'"@),
        Fault::NotFile => Some(
            "restore target '"@ + target + "' changed to a non-file before it could be updated"@,
        ),
        Fault::Disappeared => Some(
            "the displaced restore target disappeared from '"@ + beside_path(target, beside) + "'"@,
        ),
        Fault::Backup => Some(
            "the displaced file is preserved at '"@ + beside_path(target, beside) + "'"@,
        ),
        Fault::Taken => Some(
            "restore target '"@ + target + "' changed before this file could be created"@,
        ),
    }
}

/// What is said where removing a file did not work.
pub open spec fn delete_fault(fault: Fault, target: Seq<char>, beside: Seq<char>) -> Option<Seq<char>> {
    match fault {
        Fault::NotFile => Some(
            "restore target '"@ + target + "' changed to a non-file before it could be deleted"@,
        ),
        Fault::Disappeared => Some(
            "the quarantined restore target disappeared from '"@ + beside_path(target, beside)
                + "'"@,
        ),
        Fault::Backup => Some(
            "the file selected for deletion is preserved at '"@ + beside_path(target, beside)
                + "'"@,
        ),
        _ => None,
    }
}

/// Where what stands beside a target is, below the root.
fn beside_of(target: &ProjectPath, beside: &str) -> (out: String)
    ensures
        out@ == beside_path(target@, beside@),
{
    path::join(target.parent().as_str(), beside)
}

/// What is said where replacing a file did not work.
pub fn write_fault_text(fault: Fault, target: &ProjectPath, beside: &str) -> (said: Option<String>)
    ensures
        text::view_opt(said) == write_fault(fault, target@, beside@),
{
    let name = target.relative();
    match fault {
        Fault::Plain => None,
        Fault::Exchange => Some(
            text::cat3("atomically replace restore target '", name, "'"),
        ),
        Fault::NotFile => Some(
            text::cat3(
                "restore target '",
                name,
                "' changed to a non-file before it could be updated",
            ),
        ),
        Fault::Disappeared => Some(
            text::cat3(
                "the displaced restore target disappeared from '",
                beside_of(target, beside).as_str(),
                "'",
            ),
        ),
        Fault::Backup => Some(
            text::cat3(
                "the displaced file is preserved at '",
                beside_of(target, beside).as_str(),
                "'",
            ),
        ),
        Fault::Taken => Some(
            text::cat3(
                "restore target '",
                name,
                "' changed before this file could be created",
            ),
        ),
    }
}

/// What is said where removing a file did not work.
pub fn delete_fault_text(fault: Fault, target: &ProjectPath, beside: &str) -> (said: Option<String>)
    ensures
        text::view_opt(said) == delete_fault(fault, target@, beside@),
{
    let name = target.relative();
    match fault {
        Fault::NotFile => Some(
            text::cat3(
                "restore target '",
                name,
                "' changed to a non-file before it could be deleted",
            ),
        ),
        Fault::Disappeared => Some(
            text::cat3(
                "the quarantined restore target disappeared from '",
                beside_of(target, beside).as_str(),
                "'",
            ),
        ),
        Fault::Backup => Some(
            text::cat3(
                "the file selected for deletion is preserved at '",
                beside_of(target, beside).as_str(),
                "'",
            ),
        ),
        _ => None,
    }
}

} // verus!
