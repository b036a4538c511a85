//! Replacing the artifact at the destination, with one backup generation
//! guarding the swap.
//!
//! The protocol is a sequence of separate filesystem operations: copy the
//! current artifact to the backup path if there is one, copy the assembly
//! over the current artifact, remove the assembly, remove the backup if there
//! is one. The rotator decides which operation comes next; whoever owns the
//! files performs it and reports how it went. A failure ends the protocol on
//! the spot, so that nothing more is removed.

use crate::error::PipelineError;
use vstd::prelude::*;

verus! {

/// The steps of the protocol at which it can stop.
#[derive(Debug, Clone, Copy, PartialEq, Eq, Structural)]
pub enum RotationStep {
    /// Copying the current artifact to the backup path.
    Backup,
    /// Copying the assembly over the current artifact.
    Promote,
    /// Removing the assembly from where it was built.
    RemoveAssembly,
    /// Removing the backup.
    RemoveBackup,
}

/// One filesystem operation the rotator asks for.
#[derive(Debug, Clone, Copy, PartialEq, Eq, Structural)]
pub enum Action {
    ProbeCurrent,
    CopyCurrentToBackup,
    CopyAssemblyToCurrent,
    RemoveAssembly,
    ProbeBackup,
    RemoveBackup,
}

/// How an operation went: a probe answers `Present` or `Absent`, a copy or a
/// removal `Completed` or `Failed`.
#[derive(Debug, Clone, Copy, PartialEq, Eq, Structural)]
pub enum Event {
    Present,
    Absent,
    Completed,
    Failed,
}

/// Where the protocol stands.
#[derive(Debug, Clone, Copy, PartialEq, Eq, Structural)]
pub enum Rotator {
    CheckingCurrent,
    BackingUp,
    Promoting,
    RemovingAssembly,
    CheckingBackup,
    RemovingBackup,
    Finished,
    Failed(RotationStep),
}

impl Rotator {
    /// The operation to perform next; none once the protocol has ended.
    pub open spec fn spec_pending(self) -> Option<Action> {
        match self {
            Rotator::CheckingCurrent => Some(Action::ProbeCurrent),
            Rotator::BackingUp => Some(Action::CopyCurrentToBackup),
            Rotator::Promoting => Some(Action::CopyAssemblyToCurrent),
            Rotator::RemovingAssembly => Some(Action::RemoveAssembly),
            Rotator::CheckingBackup => Some(Action::ProbeBackup),
            Rotator::RemovingBackup => Some(Action::RemoveBackup),
            Rotator::Finished => None,
            Rotator::Failed(_) => None,
        }
    }

    /// The step a state belongs to, for naming it when the protocol stops
    /// there.
    pub open spec fn step(self) -> RotationStep {
        match self {
            Rotator::CheckingCurrent => RotationStep::Backup,
            Rotator::BackingUp => RotationStep::Backup,
            Rotator::Promoting => RotationStep::Promote,
            Rotator::RemovingAssembly => RotationStep::RemoveAssembly,
            Rotator::CheckingBackup => RotationStep::RemoveBackup,
            Rotator::RemovingBackup => RotationStep::RemoveBackup,
            Rotator::Finished => RotationStep::RemoveBackup,
            Rotator::Failed(step) => step,
        }
    }

    /// The state after the pending operation went as `event` says. An answer
    /// that does not fit the operation counts as its failure; an ended
    /// protocol stays as it is.
    pub open spec fn spec_advance(self, event: Event) -> Rotator {
        match (self, event) {
            (Rotator::CheckingCurrent, Event::Present) => Rotator::BackingUp,
            (Rotator::CheckingCurrent, Event::Absent) => Rotator::Promoting,
            (Rotator::BackingUp, Event::Completed) => Rotator::Promoting,
            (Rotator::Promoting, Event::Completed) => Rotator::RemovingAssembly,
            (Rotator::RemovingAssembly, Event::Completed) => Rotator::CheckingBackup,
            (Rotator::CheckingBackup, Event::Present) => Rotator::RemovingBackup,
            (Rotator::CheckingBackup, Event::Absent) => Rotator::Finished,
            (Rotator::RemovingBackup, Event::Completed) => Rotator::Finished,
            (Rotator::Finished, _) => Rotator::Finished,
            (state, _) => Rotator::Failed(state.step()),
        }
    }

    /// The number of operations the protocol can still ask for, at most.
    pub open spec fn steps_left(self) -> nat {
        match self {
            Rotator::CheckingCurrent => 6,
            Rotator::BackingUp => 5,
            Rotator::Promoting => 4,
            Rotator::RemovingAssembly => 3,
            Rotator::CheckingBackup => 2,
            Rotator::RemovingBackup => 1,
            Rotator::Finished => 0,
            Rotator::Failed(_) => 0,
        }
    }

    /// The new artifact stands complete at the destination.
    pub open spec fn promoted(self) -> bool {
        match self {
            Rotator::RemovingAssembly => true,
            Rotator::CheckingBackup => true,
            Rotator::RemovingBackup => true,
            Rotator::Finished => true,
            Rotator::Failed(RotationStep::RemoveAssembly) => true,
            Rotator::Failed(RotationStep::RemoveBackup) => true,
            _ => false,
        }
    }

    /// The protocol at its beginning.
    pub fn start() -> (state: Rotator)
        ensures
            state == Rotator::CheckingCurrent,
    {
        Rotator::CheckingCurrent
    }

    /// The operation to perform next; none once the protocol has ended.
    #[verifier::when_used_as_spec(spec_pending)]
    pub fn pending(self) -> (action: Option<Action>)
        ensures
            action == self.spec_pending(),
    {
        match self {
            Rotator::CheckingCurrent => Some(Action::ProbeCurrent),
            Rotator::BackingUp => Some(Action::CopyCurrentToBackup),
            Rotator::Promoting => Some(Action::CopyAssemblyToCurrent),
            Rotator::RemovingAssembly => Some(Action::RemoveAssembly),
            Rotator::CheckingBackup => Some(Action::ProbeBackup),
            Rotator::RemovingBackup => Some(Action::RemoveBackup),
            Rotator::Finished => None,
            Rotator::Failed(_) => None,
        }
    }

    /// Takes in how the pending operation went and moves on.
    #[verifier::when_used_as_spec(spec_advance)]
    pub fn advance(self, event: Event) -> (next: Rotator)
        ensures
            next == self.spec_advance(event),
            next.steps_left() < self.steps_left() || self.steps_left() == 0,
    {
        match self {
            Rotator::CheckingCurrent => match event {
                Event::Present => Rotator::BackingUp,
                Event::Absent => Rotator::Promoting,
                _ => Rotator::Failed(RotationStep::Backup),
            },
            Rotator::BackingUp => match event {
                Event::Completed => Rotator::Promoting,
                _ => Rotator::Failed(RotationStep::Backup),
            },
            Rotator::Promoting => match event {
                Event::Completed => Rotator::RemovingAssembly,
                _ => Rotator::Failed(RotationStep::Promote),
            },
            Rotator::RemovingAssembly => match event {
                Event::Completed => Rotator::CheckingBackup,
                _ => Rotator::Failed(RotationStep::RemoveAssembly),
            },
            Rotator::CheckingBackup => match event {
                Event::Present => Rotator::RemovingBackup,
                Event::Absent => Rotator::Finished,
                _ => Rotator::Failed(RotationStep::RemoveBackup),
            },
            Rotator::RemovingBackup => match event {
                Event::Completed => Rotator::Finished,
                _ => Rotator::Failed(RotationStep::RemoveBackup),
            },
            Rotator::Finished => Rotator::Finished,
            Rotator::Failed(step) => Rotator::Failed(step),
        }
    }

    /// How the protocol ended: `None` while operations are pending, else
    /// success or the step at which it stopped.
    pub fn result(self) -> (r: Option<Result<(), PipelineError>>)
        ensures
            r == match self {
                Rotator::Finished => Some(Ok::<(), PipelineError>(())),
                Rotator::Failed(step) => Some(
                    Err::<(), PipelineError>(PipelineError::Rotation { step }),
                ),
                _ => None,
            },
            r is None <==> self.spec_pending() is Some,
    {
        match self {
            Rotator::Finished => Some(Ok(())),
            Rotator::Failed(step) => Some(Err(PipelineError::Rotation { step })),
            _ => None,
        }
    }
}

/// The backup is removed only once the new artifact stands complete: the
/// removal is asked for only in a promoted state, a state becomes promoted
/// only when the copy over the current artifact completes, and a failure asks
/// for nothing more.
pub proof fn lemma_backup_outlives_promotion(state: Rotator, event: Event)
    ensures
        state.spec_pending() == Some(Action::RemoveBackup) ==> state.promoted(),
        state.spec_advance(event).promoted() ==> state.promoted() || (state == Rotator::Promoting
            && event == Event::Completed),
        state.spec_advance(event) is Failed ==> state.spec_advance(event).spec_pending() is None,
        !Rotator::CheckingCurrent.promoted(),
{
}

} // verus!
