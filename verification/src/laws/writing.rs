//! What carrying out a plan does to one file, step by step.
use vstd::prelude::*;

use crate::laws::restoring::lemma_found;
use crate::laws::saving::{lemma_stands_as, stands_as};
use crate::replace::{delete_after, scene_after, write_after, Came, Holds, Progress, Scene, Step};
use crate::restore::EntryView;
use crate::restore_fs::{leaf_at, read_at, Spot};
use crate::restore_report::plan_problem;

verus! {

/// Where a way is, and what stands at the names.
pub ghost struct Stand {
    pub progress: Progress,
    pub scene: Scene,
}

/// A way after some steps that were all done.
pub open spec fn after_done(s: Stand, writing: bool, n: nat) -> Stand
    decreases n,
{
    if n == 0 {
        s
    } else {
        let before = after_done(s, writing, (n - 1) as nat);
        Stand {
            progress: if writing {
                write_after(before.progress, Came::Done)
            } else {
                delete_after(before.progress, Came::Done)
            },
            scene: scene_after(before.scene, before.progress.step, Came::Done),
        }
    }
}

/// Where every step is done, replacing a file ends without a fault, with the new
/// contents in place, nothing beside it, and what was there saved.
pub proof fn lemma_replacing_goes_through()
    ensures
        ({
            let end = after_done(
                Stand {
                    progress: Progress {
                        replacing: true,
                        step: Step::Stage,
                        beside_is_new: true,
                        fault: None,
                    },
                    scene: Scene {
                        target: Holds::Earlier,
                        beside: Holds::Nothing,
                        saved: false,
                    },
                },
                true,
                6,
            );
            &&& end.progress.step == Step::Finished
            &&& end.progress.fault is None
            &&& end.scene.target == Holds::New
            &&& end.scene.beside == Holds::Nothing
            &&& end.scene.saved
        }),
{
    reveal_with_fuel(after_done, 7);
}

/// Where every step is done, making a file ends without a fault, with the contents in
/// place and nothing beside it.
pub proof fn lemma_making_goes_through()
    ensures
        ({
            let end = after_done(
                Stand {
                    progress: Progress {
                        replacing: false,
                        step: Step::Stage,
                        beside_is_new: true,
                        fault: None,
                    },
                    scene: Scene {
                        target: Holds::Nothing,
                        beside: Holds::Nothing,
                        saved: false,
                    },
                },
                true,
                3,
            );
            &&& end.progress.step == Step::Finished
            &&& end.progress.fault is None
            &&& end.scene.target == Holds::New
            &&& end.scene.beside == Holds::Nothing
        }),
{
    reveal_with_fuel(after_done, 4);
}

/// Where every step is done, removing a file ends without a fault, with nothing in its
/// place or beside it, and what was there saved.
pub proof fn lemma_removing_goes_through()
    ensures
        ({
            let end = after_done(
                Stand {
                    progress: Progress {
                        replacing: true,
                        step: Step::Quarantine,
                        beside_is_new: false,
                        fault: None,
                    },
                    scene: Scene {
                        target: Holds::Earlier,
                        beside: Holds::Nothing,
                        saved: false,
                    },
                },
                false,
                4,
            );
            &&& end.progress.step == Step::Finished
            &&& end.progress.fault is None
            &&& end.scene.target == Holds::Nothing
            &&& end.scene.beside == Holds::Nothing
            &&& end.scene.saved
        }),
{
    reveal_with_fuel(after_done, 5);
}

/// A fault is never forgotten, and only a step that was not done, or one that found
/// something else, brings one.
pub proof fn lemma_faults_stay(p: Progress, came: Came)
    ensures
        p.fault is Some ==> write_after(p, came).fault is Some,
        p.fault is Some ==> delete_after(p, came).fault is Some,
        p.fault is None && p.step != Step::Recheck && p.step != Step::MoveBack && came
            == Came::Done ==> write_after(p, came).fault is None && delete_after(p, came).fault
            is None,
        write_after(p, came).fault is None && p.fault is None && came != Came::Done ==> p.step
            == Step::Cleanup || p.step == Step::Finished || p.step == Step::Quarantine || p.step
            == Step::MoveBack,
{
}

/// Whether the file of an entry is one that can be put back: a file is there, or
/// nothing.
pub open spec fn can_be_put(spots: Seq<Spot>, target: Seq<char>) -> bool {
    crate::laws::restoring::is_free(spots, target)
}

/// A plan is carried out exactly where a file can be put at each of its paths, and each
/// file of which a state is expected is found in that state.
pub proof fn lemma_plan_is_checked(entries: Seq<EntryView>, spots: Seq<Spot>)
    ensures
        plan_problem(entries, spots) is None <==> forall|i: int|
            0 <= i < entries.len() ==> can_be_put(spots, (#[trigger] entries[i]).path) && (
            entries[i].expected is Some ==> stands_as(
                spots,
                entries[i].path,
                entries[i].expected->0,
            )),
    decreases entries.len(),
{
    if entries.len() > 0 {
        let front = entries.drop_last();
        let n = entries.len() - 1;
        lemma_plan_is_checked(front, spots);
        let e = entries[n];
        lemma_found(spots, e.path);
        lemma_stands_as(spots, e.path);
        lemma_free(spots, e.path);
        if plan_problem(entries, spots) is None {
            assert forall|i: int| 0 <= i < entries.len() implies can_be_put(
                spots,
                (#[trigger] entries[i]).path,
            ) && (entries[i].expected is Some ==> stands_as(
                spots,
                entries[i].path,
                entries[i].expected->0,
            )) by {
                if i < n {
                    assert(front[i] == entries[i]);
                } else {
                    lemma_said(read_at(spots, e.path), e.path, e.rel_path);
                }
            }
        } else if forall|i: int|
            0 <= i < entries.len() ==> can_be_put(spots, (#[trigger] entries[i]).path) && (
            entries[i].expected is Some ==> stands_as(
                spots,
                entries[i].path,
                entries[i].expected->0,
            )) {
            assert forall|i: int| 0 <= i < front.len() implies can_be_put(
                spots,
                (#[trigger] front[i]).path,
            ) && (front[i].expected is Some ==> stands_as(
                spots,
                front[i].path,
                front[i].expected->0,
            )) by {
                assert(front[i] == entries[i]);
            }
            assert(can_be_put(spots, entries[n].path));
            lemma_said(read_at(spots, e.path), e.path, e.rel_path);
        }
    }
}

/// The state of a file does not depend on what it is called.
proof fn lemma_said(read: crate::restore_fs::CappedRead, a: Seq<char>, b: Seq<char>)
    ensures
        crate::restore_report::current_state(read, a) is Ok
            <==> crate::restore_report::current_state(read, b) is Ok,
        crate::restore_report::current_state(read, a) is Ok
            ==> crate::restore_report::current_state(read, a)
            == crate::restore_report::current_state(read, b),
{
}

/// A file can be put where a file is, or nothing.
proof fn lemma_free(spots: Seq<Spot>, target: Seq<char>)
    ensures
        crate::laws::restoring::is_free(spots, target) <==> crate::restore_fs::leaf_problem(
            leaf_at(spots, target),
            target,
        ) is None,
{
    lemma_found(spots, target);
}

} // verus!
