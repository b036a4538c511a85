//! The destination slot held in memory: the assembly as built, the current
//! artifact and the backup, each present or absent.
//!
//! On these values the rotation protocol can be run to its end, or cut short
//! after any number of operations, and what it leaves behind can be stated.

use crate::error::PipelineError;
use crate::rotator::Action;
use crate::rotator::Event;
use crate::rotator::RotationStep;
use crate::rotator::Rotator;
use vstd::prelude::*;

verus! {

/// The three files of a rotation, each with its content or absent.
#[derive(Debug, Clone, PartialEq, Eq)]
pub struct Slots {
    pub assembly: Option<Vec<u8>>,
    pub current: Option<Vec<u8>>,
    pub backup: Option<Vec<u8>>,
}

/// The slots as mathematical values.
pub struct SlotsView {
    pub assembly: Option<Seq<u8>>,
    pub current: Option<Seq<u8>>,
    pub backup: Option<Seq<u8>>,
}

/// The content of a file that may be absent.
pub open spec fn content(file: Option<Vec<u8>>) -> Option<Seq<u8>> {
    match file {
        Some(bytes) => Some(bytes@),
        None => None,
    }
}

impl View for Slots {
    type V = SlotsView;

    open spec fn view(&self) -> SlotsView {
        SlotsView {
            assembly: content(self.assembly),
            current: content(self.current),
            backup: content(self.backup),
        }
    }
}

/// What an operation does to the slots, and how it reports. A probe changes
/// nothing. A copy overwrites its destination with its source and fails,
/// changing nothing, where the source is absent. A removal fails where there
/// is nothing to remove.
pub open spec fn effect(slots: SlotsView, action: Action) -> (SlotsView, Event) {
    match action {
        Action::ProbeCurrent => (
            slots,
            if slots.current is Some {
                Event::Present
            } else {
                Event::Absent
            },
        ),
        Action::CopyCurrentToBackup => if slots.current is Some {
            (SlotsView { backup: slots.current, ..slots }, Event::Completed)
        } else {
            (slots, Event::Failed)
        },
        Action::CopyAssemblyToCurrent => if slots.assembly is Some {
            (SlotsView { current: slots.assembly, ..slots }, Event::Completed)
        } else {
            (slots, Event::Failed)
        },
        Action::RemoveAssembly => if slots.assembly is Some {
            (SlotsView { assembly: None, ..slots }, Event::Completed)
        } else {
            (slots, Event::Failed)
        },
        Action::ProbeBackup => (
            slots,
            if slots.backup is Some {
                Event::Present
            } else {
                Event::Absent
            },
        ),
        Action::RemoveBackup => if slots.backup is Some {
            (SlotsView { backup: None, ..slots }, Event::Completed)
        } else {
            (slots, Event::Failed)
        },
    }
}

/// The protocol run from `state` on `slots` for at most `budget` operations:
/// the state it reaches and the slots as it leaves them. A budget short of
/// the end is a run cut off at that point.
pub open spec fn run(state: Rotator, slots: SlotsView, budget: nat) -> (Rotator, SlotsView)
    decreases budget,
{
    if budget == 0 {
        (state, slots)
    } else {
        match state.spec_pending() {
            None => (state, slots),
            Some(action) => {
                let (after, event) = effect(slots, action);
                run(state.spec_advance(event), after, (budget - 1) as nat)
            },
        }
    }
}

/// What guards the swap once the backup step is over: the artifact that was
/// current before the run, or, where there was none, whatever backup lay
/// there already.
pub open spec fn guard(before: SlotsView) -> Option<Seq<u8>> {
    if before.current is Some {
        before.current
    } else {
        before.backup
    }
}

/// The slots as the protocol, started on `before`, can have left them on
/// reaching `state`.
pub open spec fn on_track(state: Rotator, slots: SlotsView, before: SlotsView) -> bool {
    match state {
        Rotator::CheckingCurrent => slots == before,
        Rotator::BackingUp => slots == before && before.current is Some,
        Rotator::Promoting => {
            &&& slots.assembly == before.assembly
            &&& slots.current == before.current
            &&& slots.backup == guard(before)
        },
        Rotator::RemovingAssembly => {
            &&& before.assembly is Some
            &&& slots.assembly == before.assembly
            &&& slots.current == before.assembly
            &&& slots.backup == guard(before)
        },
        Rotator::CheckingBackup => {
            &&& before.assembly is Some
            &&& slots.assembly is None
            &&& slots.current == before.assembly
            &&& slots.backup == guard(before)
        },
        Rotator::RemovingBackup => {
            &&& before.assembly is Some
            &&& slots.assembly is None
            &&& slots.current == before.assembly
            &&& slots.backup == guard(before)
            &&& slots.backup is Some
        },
        Rotator::Finished => {
            &&& before.assembly is Some
            &&& slots.assembly is None
            &&& slots.current == before.assembly
            &&& slots.backup is None
        },
        Rotator::Failed(RotationStep::Promote) => {
            &&& before.assembly is None
            &&& slots.assembly is None
            &&& slots.current == before.current
            &&& slots.backup == guard(before)
        },
        Rotator::Failed(_) => false,
    }
}

/// One operation keeps the slots on track.
pub proof fn lemma_step_on_track(state: Rotator, slots: SlotsView, before: SlotsView)
    requires
        on_track(state, slots, before),
        state.spec_pending() is Some,
    ensures
        on_track(
            state.spec_advance(effect(slots, state.spec_pending().unwrap()).1),
            effect(slots, state.spec_pending().unwrap()).0,
            before,
        ),
{
}

/// However far the protocol gets, the slots are on track.
pub proof fn lemma_run_on_track(state: Rotator, slots: SlotsView, before: SlotsView, budget: nat)
    requires
        on_track(state, slots, before),
    ensures
        on_track(run(state, slots, budget).0, run(state, slots, budget).1, before),
        budget >= state.steps_left() ==> run(state, slots, budget).0.spec_pending() is None,
    decreases budget,
{
    if budget > 0 && state.spec_pending() is Some {
        let action = state.spec_pending().unwrap();
        let (after, event) = effect(slots, action);
        lemma_step_on_track(state, slots, before);
        lemma_run_on_track(state.spec_advance(event), after, before, (budget - 1) as nat);
    }
}

/// Rotation safety. Started where a current artifact and an assembly exist,
/// and cut off after any number of operations:
/// the destination always holds a whole artifact, the old one or the new;
/// once the backup copy is made and until the backup is removed, the backup
/// is the old artifact, and so it is while the new one is being written;
/// and a run of six operations or more has finished, with the new artifact
/// current and no backup left.
pub proof fn lemma_rotation_safety(before: SlotsView, budget: nat)
    requires
        before.current is Some,
        before.assembly is Some,
    ensures
        ({
            let (state, slots) = run(Rotator::CheckingCurrent, before, budget);
            &&& slots.current == before.current || slots.current == before.assembly
            &&& !state.promoted() ==> slots.current == before.current
            &&& state == Rotator::Promoting ==> slots.backup == before.current
            &&& state != Rotator::CheckingCurrent && state != Rotator::BackingUp && state
                != Rotator::Finished ==> slots.backup == before.current
            &&& state == Rotator::Finished ==> slots.current == before.assembly && slots.backup is None
                && slots.assembly is None
            &&& budget >= 6 ==> state == Rotator::Finished
            &&& budget >= 2 ==> state != Rotator::CheckingCurrent && state != Rotator::BackingUp
        }),
{
    lemma_run_on_track(Rotator::CheckingCurrent, before, before, budget);
    if budget >= 2 {
        reveal_with_fuel(run, 3);
        let (one, e1) = effect(before, Action::ProbeCurrent);
        let (two, e2) = effect(one, Action::CopyCurrentToBackup);
        assert(run(Rotator::CheckingCurrent, before, budget) == run(
            Rotator::Promoting,
            two,
            (budget - 2) as nat,
        ));
        lemma_never_back(Rotator::Promoting, two, (budget - 2) as nat);
    }
}

/// The protocol never returns to an earlier state.
proof fn lemma_never_back(state: Rotator, slots: SlotsView, budget: nat)
    ensures
        run(state, slots, budget).0.steps_left() <= state.steps_left(),
    decreases budget,
{
    if budget > 0 && state.spec_pending() is Some {
        let action = state.spec_pending().unwrap();
        let (after, event) = effect(slots, action);
        lemma_never_back(state.spec_advance(event), after, (budget - 1) as nat);
    }
}

impl Slots {
    /// Performs one operation on the slots and reports how it went.
    pub fn perform(&mut self, action: Action) -> (event: Event)
        ensures
            final(self)@ == effect(old(self)@, action).0,
            event == effect(old(self)@, action).1,
    {
        match action {
            Action::ProbeCurrent => {
                if self.current.is_some() {
                    Event::Present
                } else {
                    Event::Absent
                }
            },
            Action::CopyCurrentToBackup => {
                let copy = copy_of(&self.current);
                if copy.is_some() {
                    self.backup = copy;
                    Event::Completed
                } else {
                    Event::Failed
                }
            },
            Action::CopyAssemblyToCurrent => {
                let copy = copy_of(&self.assembly);
                if copy.is_some() {
                    self.current = copy;
                    Event::Completed
                } else {
                    Event::Failed
                }
            },
            Action::RemoveAssembly => {
                if self.assembly.is_some() {
                    self.assembly = None;
                    Event::Completed
                } else {
                    Event::Failed
                }
            },
            Action::ProbeBackup => {
                if self.backup.is_some() {
                    Event::Present
                } else {
                    Event::Absent
                }
            },
            Action::RemoveBackup => {
                if self.backup.is_some() {
                    self.backup = None;
                    Event::Completed
                } else {
                    Event::Failed
                }
            },
        }
    }

    /// Runs the rotation protocol on the slots to its end. With an assembly
    /// to promote it succeeds: the assembly becomes the current artifact, its
    /// own place is cleared and no backup is left. Without one it stops at
    /// the promotion: the current artifact is untouched and the backup made
    /// of it stays.
    pub fn rotate(&mut self) -> (r: Result<(), PipelineError>)
        ensures
            match old(self)@.assembly {
                Some(fresh) => {
                    &&& r is Ok
                    &&& final(self)@ == SlotsView {
                        assembly: None,
                        current: Some(fresh),
                        backup: None,
                    }
                },
                None => {
                    &&& r == Err::<(), PipelineError>(
                        PipelineError::Rotation { step: RotationStep::Promote },
                    )
                    &&& final(self)@ == SlotsView {
                        assembly: None,
                        current: old(self)@.current,
                        backup: guard(old(self)@),
                    }
                },
            },
    {
        let ghost before = self@;
        let mut state = Rotator::start();
        loop
            invariant
                on_track(state, self@, before),
                before == old(self)@,
            ensures
                on_track(state, self@, before),
                state.spec_pending() is None,
            decreases state.steps_left(),
        {
            match state.pending() {
                None => {
                    break ;
                },
                Some(action) => {
                    proof {
                        lemma_step_on_track(state, self@, before);
                    }
                    let event = self.perform(action);
                    state = state.advance(event);
                },
            }
        }
        match state.result() {
            Some(ended) => ended,
            None => Ok(()),
        }
    }
}

/// A copy of a file's content, where the file is present.
fn copy_of(file: &Option<Vec<u8>>) -> (copy: Option<Vec<u8>>)
    ensures
        content(copy) == content(*file),
{
    match file {
        Some(bytes) => {
            let copy = bytes.clone();
            assert(copy@ =~= bytes@);
            Some(copy)
        },
        None => None,
    }
}

} // verus!
