use chunkgz::destination::Slots;
use chunkgz::error::PipelineError;
use chunkgz::rotator::Action;
use chunkgz::rotator::Event;
use chunkgz::rotator::RotationStep;
use chunkgz::rotator::Rotator;

fn run_for(slots: &mut Slots, operations: usize) -> Rotator {
    let mut state = Rotator::start();
    for _ in 0..operations {
        match state.pending() {
            Some(action) => {
                let event = slots.perform(action);
                state = state.advance(event);
            }
            None => break,
        }
    }
    state
}

fn actions_for(events: &[Event]) -> (Vec<Action>, Rotator) {
    let mut state = Rotator::start();
    let mut asked = Vec::new();
    for event in events {
        match state.pending() {
            Some(action) => asked.push(action),
            None => break,
        }
        state = state.advance(*event);
    }
    (asked, state)
}

#[test]
fn successful_run_replaces_current_and_leaves_no_backup() {
    let mut slots =
        Slots { assembly: Some(vec![9, 9, 9]), current: Some(vec![1, 2]), backup: None };
    assert_eq!(slots.rotate(), Ok(()));
    assert_eq!(slots, Slots { assembly: None, current: Some(vec![9, 9, 9]), backup: None });
}

#[test]
fn successful_run_overwrites_and_removes_an_old_backup() {
    let mut slots =
        Slots { assembly: Some(vec![3]), current: Some(vec![2]), backup: Some(vec![1]) };
    assert_eq!(slots.rotate(), Ok(()));
    assert_eq!(slots, Slots { assembly: None, current: Some(vec![3]), backup: None });
}

#[test]
fn first_run_has_nothing_to_back_up() {
    let mut slots = Slots { assembly: Some(vec![5, 6]), current: None, backup: None };
    assert_eq!(slots.rotate(), Ok(()));
    assert_eq!(slots, Slots { assembly: None, current: Some(vec![5, 6]), backup: None });
    let (asked, state) =
        actions_for(&[Event::Absent, Event::Completed, Event::Completed, Event::Absent]);
    assert_eq!(
        asked,
        vec![
            Action::ProbeCurrent,
            Action::CopyAssemblyToCurrent,
            Action::RemoveAssembly,
            Action::ProbeBackup
        ]
    );
    assert_eq!(state, Rotator::Finished);
}

#[test]
fn run_without_an_assembly_stops_at_the_promotion() {
    let mut slots = Slots { assembly: None, current: Some(vec![1, 2]), backup: None };
    assert_eq!(slots.rotate(), Err(PipelineError::Rotation { step: RotationStep::Promote }));
    assert_eq!(slots, Slots { assembly: None, current: Some(vec![1, 2]), backup: Some(vec![1, 2]) });
    let mut bare = Slots { assembly: None, current: None, backup: Some(vec![7]) };
    assert_eq!(bare.rotate(), Err(PipelineError::Rotation { step: RotationStep::Promote }));
    assert_eq!(bare, Slots { assembly: None, current: None, backup: Some(vec![7]) });
}

#[test]
fn run_cut_off_after_the_backup_copy_keeps_the_old_artifact_twice() {
    let mut slots = Slots { assembly: Some(vec![8]), current: Some(vec![1, 2]), backup: None };
    let state = run_for(&mut slots, 2);
    assert_eq!(state, Rotator::Promoting);
    assert_eq!(slots.backup, Some(vec![1, 2]));
    assert_eq!(slots.current, Some(vec![1, 2]));
    assert_eq!(slots.assembly, Some(vec![8]));
}

#[test]
fn run_cut_off_anywhere_keeps_a_whole_artifact() {
    for operations in 0..8 {
        let mut slots =
            Slots { assembly: Some(vec![8]), current: Some(vec![1, 2]), backup: Some(vec![0]) };
        let state = run_for(&mut slots, operations);
        assert!(slots.current == Some(vec![1, 2]) || slots.current == Some(vec![8]));
        if operations >= 2 && state != Rotator::Finished {
            assert_eq!(slots.backup, Some(vec![1, 2]));
        }
        if operations >= 6 {
            assert_eq!(state, Rotator::Finished);
            assert_eq!(slots, Slots { assembly: None, current: Some(vec![8]), backup: None });
        }
    }
}

#[test]
fn full_protocol_asks_for_six_operations_in_order() {
    let (asked, state) = actions_for(&[
        Event::Present,
        Event::Completed,
        Event::Completed,
        Event::Completed,
        Event::Present,
        Event::Completed,
    ]);
    assert_eq!(
        asked,
        vec![
            Action::ProbeCurrent,
            Action::CopyCurrentToBackup,
            Action::CopyAssemblyToCurrent,
            Action::RemoveAssembly,
            Action::ProbeBackup,
            Action::RemoveBackup
        ]
    );
    assert_eq!(state, Rotator::Finished);
    assert_eq!(state.pending(), None);
    assert_eq!(state.result(), Some(Ok(())));
}

#[test]
fn failure_names_the_step_and_ends_the_protocol() {
    let cases: [(&[Event], RotationStep); 6] = [
        (&[Event::Failed], RotationStep::Backup),
        (&[Event::Present, Event::Failed], RotationStep::Backup),
        (&[Event::Present, Event::Completed, Event::Failed], RotationStep::Promote),
        (&[Event::Absent, Event::Completed, Event::Failed], RotationStep::RemoveAssembly),
        (&[Event::Absent, Event::Completed, Event::Completed, Event::Failed], RotationStep::RemoveBackup),
        (
            &[Event::Absent, Event::Completed, Event::Completed, Event::Present, Event::Failed],
            RotationStep::RemoveBackup,
        ),
    ];
    for (events, step) in cases {
        let (asked, state) = actions_for(events);
        assert_eq!(asked.len(), events.len());
        assert_eq!(state, Rotator::Failed(step));
        assert_eq!(state.pending(), None);
        assert_eq!(state.result(), Some(Err(PipelineError::Rotation { step })));
        assert_eq!(state.advance(Event::Completed), Rotator::Failed(step));
        assert!(!asked[..asked.len() - 1].contains(&Action::RemoveBackup));
    }
}

#[test]
fn answer_that_does_not_fit_counts_as_failure() {
    assert_eq!(Rotator::CheckingCurrent.advance(Event::Completed), Rotator::Failed(RotationStep::Backup));
    assert_eq!(Rotator::BackingUp.advance(Event::Present), Rotator::Failed(RotationStep::Backup));
    assert_eq!(Rotator::Promoting.advance(Event::Absent), Rotator::Failed(RotationStep::Promote));
    assert_eq!(
        Rotator::RemovingAssembly.advance(Event::Present),
        Rotator::Failed(RotationStep::RemoveAssembly)
    );
    assert_eq!(
        Rotator::CheckingBackup.advance(Event::Completed),
        Rotator::Failed(RotationStep::RemoveBackup)
    );
    assert_eq!(Rotator::Finished.advance(Event::Failed), Rotator::Finished);
}

#[test]
fn result_is_open_while_operations_are_pending() {
    assert_eq!(Rotator::start(), Rotator::CheckingCurrent);
    assert_eq!(Rotator::start().result(), None);
    assert_eq!(Rotator::Promoting.result(), None);
    assert_eq!(Rotator::Promoting.pending(), Some(Action::CopyAssemblyToCurrent));
}

#[test]
fn operations_on_the_slots_report_as_files_do() {
    let mut slots = Slots { assembly: None, current: None, backup: None };
    assert_eq!(slots.perform(Action::ProbeCurrent), Event::Absent);
    assert_eq!(slots.perform(Action::ProbeBackup), Event::Absent);
    assert_eq!(slots.perform(Action::CopyCurrentToBackup), Event::Failed);
    assert_eq!(slots.perform(Action::CopyAssemblyToCurrent), Event::Failed);
    assert_eq!(slots.perform(Action::RemoveAssembly), Event::Failed);
    assert_eq!(slots.perform(Action::RemoveBackup), Event::Failed);
    assert_eq!(slots, Slots { assembly: None, current: None, backup: None });
    slots.assembly = Some(vec![4]);
    assert_eq!(slots.perform(Action::CopyAssemblyToCurrent), Event::Completed);
    assert_eq!(slots.perform(Action::ProbeCurrent), Event::Present);
    assert_eq!(slots.perform(Action::CopyCurrentToBackup), Event::Completed);
    assert_eq!(slots.perform(Action::ProbeBackup), Event::Present);
    assert_eq!(slots, Slots { assembly: Some(vec![4]), current: Some(vec![4]), backup: Some(vec![4]) });
    assert_eq!(slots.perform(Action::RemoveAssembly), Event::Completed);
    assert_eq!(slots.perform(Action::RemoveBackup), Event::Completed);
    assert_eq!(slots, Slots { assembly: None, current: Some(vec![4]), backup: None });
}
