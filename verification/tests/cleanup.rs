use chunkgz::error::PipelineError;
use chunkgz::reassembler::Assembler;
use chunkgz::reassembler::Phase;
use chunkgz::reassembler::Shelf;
use chunkgz::reassembler::Step;
use chunkgz::rotator::Event;

fn shelf_of(files: &[Option<&[u8]>]) -> Shelf {
    Shelf { files: files.iter().map(|f| f.map(|b| b.to_vec())).collect() }
}

#[test]
fn cleanup_twice_is_cleanup_once() {
    let mut shelf = shelf_of(&[Some(&[1]), Some(&[2, 2]), Some(&[3]), Some(&[4])]);
    let targets = vec![0, 2, 3];
    shelf.cleanup(&targets);
    let once = shelf.clone();
    assert_eq!(once, shelf_of(&[None, Some(&[2, 2]), None, None]));
    shelf.cleanup(&targets);
    assert_eq!(shelf, once);
}

#[test]
fn cleanup_passes_over_files_already_gone() {
    let mut shelf = shelf_of(&[None, Some(&[2]), None]);
    shelf.cleanup(&vec![0, 1, 2, 2, 9]);
    assert_eq!(shelf, shelf_of(&[None, None, None]));
    let mut empty = shelf_of(&[]);
    empty.cleanup(&vec![0, 1]);
    assert_eq!(empty, shelf_of(&[]));
}

#[test]
fn cleanup_of_nothing_changes_nothing() {
    let mut shelf = shelf_of(&[Some(&[1]), None, Some(&[3])]);
    shelf.cleanup(&Vec::new());
    assert_eq!(shelf, shelf_of(&[Some(&[1]), None, Some(&[3])]));
}

#[test]
fn stocked_shelf_holds_every_member() {
    let shelf = Shelf::stock(vec![vec![1, 2], vec![], vec![3]]);
    assert_eq!(shelf, shelf_of(&[Some(&[1, 2]), Some(&[]), Some(&[3])]));
    assert_eq!(Shelf::stock(Vec::new()), shelf_of(&[]));
}

#[test]
fn assemble_joins_in_the_order_given_and_clears_the_files() {
    let mut shelf = shelf_of(&[Some(&[1, 1]), Some(&[2]), Some(&[3, 3, 3])]);
    assert_eq!(shelf.assemble(&vec![0, 1, 2]), Ok(vec![1, 1, 2, 3, 3, 3]));
    assert_eq!(shelf, shelf_of(&[None, None, None]));
    let mut other = shelf_of(&[Some(&[1, 1]), Some(&[2]), Some(&[3, 3, 3])]);
    assert_eq!(other.assemble(&vec![2, 0]), Ok(vec![3, 3, 3, 1, 1]));
    assert_eq!(other, shelf_of(&[None, Some(&[2]), None]));
}

#[test]
fn assemble_fails_where_a_file_is_missing_and_clears_nothing() {
    let mut shelf = shelf_of(&[Some(&[1]), None, Some(&[3])]);
    assert_eq!(shelf.assemble(&vec![0, 1, 2]), Err(PipelineError::Reassembly));
    assert_eq!(shelf, shelf_of(&[Some(&[1]), None, Some(&[3])]));
    assert_eq!(shelf.assemble(&vec![0, 3]), Err(PipelineError::Reassembly));
    assert_eq!(shelf, shelf_of(&[Some(&[1]), None, Some(&[3])]));
}

#[test]
fn assemble_of_no_file_is_an_empty_assembly() {
    let mut shelf = shelf_of(&[Some(&[1])]);
    assert_eq!(shelf.assemble(&Vec::new()), Ok(Vec::new()));
    assert_eq!(shelf, shelf_of(&[Some(&[1])]));
}

fn steps_for(count: usize, events: &[Event]) -> (Vec<Step>, Assembler) {
    let mut state = Assembler::start(count);
    let mut asked = Vec::new();
    for event in events {
        match state.pending() {
            Some(step) => asked.push(step),
            None => break,
        }
        state = state.advance(*event);
    }
    (asked, state)
}

#[test]
fn reassembly_appends_every_chunk_before_it_removes_any() {
    let events = [
        Event::Completed,
        Event::Completed,
        Event::Completed,
        Event::Present,
        Event::Completed,
        Event::Present,
        Event::Completed,
    ];
    let (asked, state) = steps_for(2, &events);
    assert_eq!(
        asked,
        vec![
            Step::CreateOutput,
            Step::Append(0),
            Step::Append(1),
            Step::Probe(0),
            Step::Remove(0),
            Step::Probe(1),
            Step::Remove(1)
        ]
    );
    assert_eq!(state.phase, Phase::Finished);
    assert_eq!(state.pending(), None);
    assert_eq!(state.result(), Some(Ok(())));
}

#[test]
fn reassembly_passes_over_a_file_that_is_gone() {
    let events =
        [Event::Completed, Event::Completed, Event::Completed, Event::Absent, Event::Absent];
    let (asked, state) = steps_for(2, &events);
    assert_eq!(
        asked,
        vec![Step::CreateOutput, Step::Append(0), Step::Append(1), Step::Probe(0), Step::Probe(1)]
    );
    assert_eq!(state.result(), Some(Ok(())));
}

#[test]
fn reassembly_of_no_chunk_only_creates_the_output() {
    let (asked, state) = steps_for(0, &[Event::Completed, Event::Completed]);
    assert_eq!(asked, vec![Step::CreateOutput]);
    assert_eq!(state, Assembler { phase: Phase::Finished, at: 0, count: 0 });
    assert_eq!(Assembler::start(0), Assembler { phase: Phase::Creating, at: 0, count: 0 });
    assert_eq!(Assembler::start(3).result(), None);
}

#[test]
fn reassembly_that_fails_removes_nothing() {
    let cases: [&[Event]; 5] = [
        &[Event::Failed],
        &[Event::Completed, Event::Failed],
        &[Event::Completed, Event::Completed, Event::Failed],
        &[Event::Completed, Event::Completed, Event::Present],
        &[Event::Completed, Event::Absent],
    ];
    for events in cases {
        let (asked, state) = steps_for(3, events);
        assert_eq!(asked.len(), events.len());
        assert_eq!(state.phase, Phase::Failed);
        assert_eq!(state.pending(), None);
        assert_eq!(state.result(), Some(Err(PipelineError::Reassembly)));
        assert_eq!(state.advance(Event::Completed), state);
        assert!(asked.iter().all(|step| !matches!(step, Step::Remove(_) | Step::Probe(_))));
    }
}

#[test]
fn reassembly_stops_where_a_removal_fails() {
    let events = [Event::Completed, Event::Completed, Event::Present, Event::Failed];
    let (asked, state) = steps_for(1, &events);
    assert_eq!(asked, vec![Step::CreateOutput, Step::Append(0), Step::Probe(0), Step::Remove(0)]);
    assert_eq!(state, Assembler { phase: Phase::Failed, at: 0, count: 1 });
    let odd = Assembler { phase: Phase::Probing, at: 0, count: 1 }.advance(Event::Completed);
    assert_eq!(odd.phase, Phase::Failed);
    let done = Assembler { phase: Phase::Finished, at: 0, count: 1 };
    assert_eq!(done.advance(Event::Failed), done);
}

#[test]
fn operations_on_the_shelf_report_as_files_do() {
    let mut shelf = shelf_of(&[Some(&[1, 1]), None, Some(&[3])]);
    let order = vec![2, 0, 1, 7];
    let mut output = vec![9, 9];
    assert_eq!(shelf.perform(Step::CreateOutput, &order, &mut output), Event::Completed);
    assert_eq!(output, Vec::<u8>::new());
    assert_eq!(shelf.perform(Step::Append(0), &order, &mut output), Event::Completed);
    assert_eq!(shelf.perform(Step::Append(1), &order, &mut output), Event::Completed);
    assert_eq!(output, vec![3, 1, 1]);
    assert_eq!(shelf.perform(Step::Append(2), &order, &mut output), Event::Failed);
    assert_eq!(shelf.perform(Step::Append(3), &order, &mut output), Event::Failed);
    assert_eq!(shelf.perform(Step::Append(4), &order, &mut output), Event::Failed);
    assert_eq!(output, vec![3, 1, 1]);
    assert_eq!(shelf.perform(Step::Probe(0), &order, &mut output), Event::Present);
    assert_eq!(shelf.perform(Step::Probe(2), &order, &mut output), Event::Absent);
    assert_eq!(shelf.perform(Step::Probe(3), &order, &mut output), Event::Absent);
    assert_eq!(shelf.perform(Step::Probe(9), &order, &mut output), Event::Absent);
    assert_eq!(shelf, shelf_of(&[Some(&[1, 1]), None, Some(&[3])]));
    assert_eq!(shelf.perform(Step::Remove(0), &order, &mut output), Event::Completed);
    assert_eq!(shelf, shelf_of(&[Some(&[1, 1]), None, None]));
    assert_eq!(shelf.perform(Step::Remove(0), &order, &mut output), Event::Failed);
    assert_eq!(shelf.perform(Step::Remove(2), &order, &mut output), Event::Failed);
    assert_eq!(shelf.perform(Step::Remove(3), &order, &mut output), Event::Failed);
    assert_eq!(shelf, shelf_of(&[Some(&[1, 1]), None, None]));
    assert_eq!(output, vec![3, 1, 1]);
}

#[test]
fn assemble_with_a_file_named_twice_joins_it_twice() {
    let mut shelf = shelf_of(&[Some(&[1]), Some(&[2])]);
    assert_eq!(shelf.assemble(&vec![1, 1, 0]), Ok(vec![2, 2, 1]));
    assert_eq!(shelf, shelf_of(&[None, None]));
}
