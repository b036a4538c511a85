//! Joining the compressed chunks into the assembly, and clearing them away.
//!
//! The assembler decides which operation comes next: create the output,
//! append each compressed chunk in order, then remove each chunk file that is
//! still there. Whoever owns the files performs the operations; the shelf is
//! the same working area held in memory.

use crate::destination::content;
use crate::error::PipelineError;
use crate::rotator::Event;
use vstd::prelude::*;

verus! {

/// The byte content of each compressed chunk, in the order given.
pub open spec fn member_contents(members: Seq<Vec<u8>>) -> Seq<Seq<u8>> {
    Seq::new(members.len(), |i: int| members[i]@)
}

/// Joins the compressed chunks, in the order given, into one assembly: each
/// chunk's bytes after the other's, with no framing and no padding.
pub fn reassemble(members: &Vec<Vec<u8>>) -> (assembly: Vec<u8>)
    ensures
        assembly@ == member_contents(members@).flatten(),
{
    let mut assembly: Vec<u8> = Vec::new();
    let mut at: usize = 0;
    proof {
        assert(member_contents(members@).take(0).flatten() =~= Seq::<u8>::empty());
    }
    while at < members.len()
        invariant
            at <= members@.len(),
            assembly@ == member_contents(members@).take(at as int).flatten(),
        decreases members@.len() - at,
    {
        let ghost all = member_contents(members@);
        let ghost before = assembly@;
        assembly.extend_from_slice(members[at].as_slice());
        proof {
            assert(all.take(at + 1) =~= all.take(at as int).push(all[at as int]));
            all.take(at as int).lemma_flatten_push(all[at as int]);
            assert(assembly@ =~= before + members@[at as int]@);
        }
        at += 1;
    }
    proof {
        assert(member_contents(members@).take(at as int) =~= member_contents(members@));
    }
    assembly
}

/// The compressed chunks as they lie in the working area: at each chunk
/// index a file with its content, or nothing.
#[derive(Debug, Clone, PartialEq, Eq)]
pub struct Shelf {
    pub files: Vec<Option<Vec<u8>>>,
}

impl View for Shelf {
    type V = Seq<Option<Seq<u8>>>;

    open spec fn view(&self) -> Seq<Option<Seq<u8>>> {
        Seq::new(self.files@.len(), |i: int| content(self.files@[i]))
    }
}

/// `index` is one of `indices`.
pub open spec fn listed(indices: Seq<usize>, index: int) -> bool {
    exists|k: int| 0 <= k < indices.len() && #[trigger] indices[k] == index
}

/// The shelf after the files at `indices` are removed: those are absent,
/// whether they were there or not, and every other place is as it was.
pub open spec fn cleared(shelf: Seq<Option<Seq<u8>>>, indices: Seq<usize>) -> Seq<
    Option<Seq<u8>>,
> {
    Seq::new(
        shelf.len(),
        |i: int|
            if listed(indices, i) {
                None
            } else {
                shelf[i]
            },
    )
}

/// Every file that `order` names is on the shelf.
pub open spec fn all_present(shelf: Seq<Option<Seq<u8>>>, order: Seq<usize>) -> bool {
    forall|k: int|
        0 <= k < order.len() ==> (#[trigger] order[k]) < shelf.len() && shelf[order[k] as int] is Some
}

/// The contents of the files that `order` names, in that order.
pub open spec fn picked(shelf: Seq<Option<Seq<u8>>>, order: Seq<usize>) -> Seq<Seq<u8>> {
    Seq::new(order.len(), |k: int| shelf[order[k] as int].unwrap())
}

/// Cleanup is idempotent: clearing the same files away a second time changes
/// nothing, and clearing files that are already gone changes nothing.
pub proof fn lemma_cleanup_idempotent(shelf: Seq<Option<Seq<u8>>>, indices: Seq<usize>)
    ensures
        cleared(cleared(shelf, indices), indices) == cleared(shelf, indices),
        (forall|k: int|
            0 <= k < indices.len() && (#[trigger] indices[k]) < shelf.len() ==> shelf[indices[k] as int]
                is None) ==> cleared(shelf, indices) == shelf,
{
    assert(cleared(cleared(shelf, indices), indices) =~= cleared(shelf, indices));
    if forall|k: int|
        0 <= k < indices.len() && (#[trigger] indices[k]) < shelf.len() ==> shelf[indices[k] as int]
            is None {
        assert forall|i: int| 0 <= i < shelf.len() implies cleared(shelf, indices)[i] == shelf[i] by {
            if listed(indices, i) {
                let k = choose|k: int| 0 <= k < indices.len() && #[trigger] indices[k] == i;
                assert(shelf[indices[k] as int] is None);
            }
        }
        assert(cleared(shelf, indices) =~= shelf);
    }
}

/// One operation the assembler asks for. The compressed chunks are counted
/// in the order they are to be joined in: `Append(k)` copies the `k`-th of
/// them to the end of the output, `Probe(k)` asks whether its file is still
/// there, `Remove(k)` removes it.
#[derive(Debug, Clone, Copy, PartialEq, Eq, Structural)]
pub enum Step {
    CreateOutput,
    Append(usize),
    Probe(usize),
    Remove(usize),
}

/// What the assembler is doing.
#[derive(Debug, Clone, Copy, PartialEq, Eq, Structural)]
pub enum Phase {
    Creating,
    Appending,
    Probing,
    Removing,
    Finished,
    Failed,
}

/// Where the reassembly of `count` compressed chunks stands: the output is
/// created, every chunk is appended in order, and only then is each chunk
/// file removed, if it is still there. A failure ends it on the spot, before
/// anything more is appended or removed.
#[derive(Debug, Clone, Copy, PartialEq, Eq, Structural)]
pub struct Assembler {
    pub phase: Phase,
    pub at: usize,
    pub count: usize,
}

impl Assembler {
    /// While chunks are being worked on, `at` is one of them.
    pub open spec fn valid(self) -> bool {
        match self.phase {
            Phase::Appending => self.at < self.count,
            Phase::Probing => self.at < self.count,
            Phase::Removing => self.at < self.count,
            _ => true,
        }
    }

    /// The operation to perform next; none once the reassembly has ended.
    pub open spec fn spec_pending(self) -> Option<Step> {
        match self.phase {
            Phase::Creating => Some(Step::CreateOutput),
            Phase::Appending => Some(Step::Append(self.at)),
            Phase::Probing => Some(Step::Probe(self.at)),
            Phase::Removing => Some(Step::Remove(self.at)),
            Phase::Finished => None,
            Phase::Failed => None,
        }
    }

    /// The state once the file at `at` is dealt with: on to the next file,
    /// or finished after the last.
    pub open spec fn after_file(self) -> Assembler {
        if self.at + 1 < self.count {
            Assembler { phase: Phase::Probing, at: (self.at + 1) as usize, count: self.count }
        } else {
            Assembler { phase: Phase::Finished, at: self.at, count: self.count }
        }
    }

    /// The state after the pending operation went as `event` says. An answer
    /// that does not fit the operation counts as its failure; an ended
    /// reassembly stays as it is.
    pub open spec fn spec_advance(self, event: Event) -> Assembler {
        match (self.phase, event) {
            (Phase::Creating, Event::Completed) => if self.count == 0 {
                Assembler { phase: Phase::Finished, at: 0, count: self.count }
            } else {
                Assembler { phase: Phase::Appending, at: 0, count: self.count }
            },
            (Phase::Appending, Event::Completed) => if self.at + 1 < self.count {
                Assembler { phase: Phase::Appending, at: (self.at + 1) as usize, count: self.count }
            } else {
                Assembler { phase: Phase::Probing, at: 0, count: self.count }
            },
            (Phase::Probing, Event::Present) => Assembler {
                phase: Phase::Removing,
                at: self.at,
                count: self.count,
            },
            (Phase::Probing, Event::Absent) => self.after_file(),
            (Phase::Removing, Event::Completed) => self.after_file(),
            (Phase::Finished, _) => self,
            (Phase::Failed, _) => self,
            _ => Assembler { phase: Phase::Failed, at: self.at, count: self.count },
        }
    }

    /// The number of operations the reassembly can still ask for, at most.
    pub open spec fn steps_left(self) -> int {
        match self.phase {
            Phase::Creating => 3 * self.count + 1,
            Phase::Appending => 3 * self.count - self.at,
            Phase::Probing => 2 * (self.count - self.at),
            Phase::Removing => 2 * (self.count - self.at) - 1,
            Phase::Finished => 0,
            Phase::Failed => 0,
        }
    }

    /// The reassembly of `count` compressed chunks, at its beginning.
    pub fn start(count: usize) -> (state: Assembler)
        ensures
            state == (Assembler { phase: Phase::Creating, at: 0, count }),
            state.valid(),
    {
        Assembler { phase: Phase::Creating, at: 0, count }
    }

    /// The operation to perform next; none once the reassembly has ended.
    #[verifier::when_used_as_spec(spec_pending)]
    pub fn pending(self) -> (step: Option<Step>)
        ensures
            step == self.spec_pending(),
    {
        match self.phase {
            Phase::Creating => Some(Step::CreateOutput),
            Phase::Appending => Some(Step::Append(self.at)),
            Phase::Probing => Some(Step::Probe(self.at)),
            Phase::Removing => Some(Step::Remove(self.at)),
            Phase::Finished => None,
            Phase::Failed => None,
        }
    }

    /// Takes in how the pending operation went and moves on.
    #[verifier::when_used_as_spec(spec_advance)]
    pub fn advance(self, event: Event) -> (next: Assembler)
        ensures
            next == self.spec_advance(event),
            self.valid() ==> next.valid(),
            self.valid() && self.spec_pending() is Some ==> 0 <= next.steps_left()
                < self.steps_left(),
    {
        let more = self.at < usize::MAX && self.at + 1 < self.count;
        let count = self.count;
        let after_file = if more {
            Assembler { phase: Phase::Probing, at: self.at + 1, count }
        } else {
            Assembler { phase: Phase::Finished, at: self.at, count }
        };
        let failed = Assembler { phase: Phase::Failed, at: self.at, count };
        match self.phase {
            Phase::Creating => match event {
                Event::Completed => if count == 0 {
                    Assembler { phase: Phase::Finished, at: 0, count }
                } else {
                    Assembler { phase: Phase::Appending, at: 0, count }
                },
                _ => failed,
            },
            Phase::Appending => match event {
                Event::Completed => if more {
                    Assembler { phase: Phase::Appending, at: self.at + 1, count }
                } else {
                    Assembler { phase: Phase::Probing, at: 0, count }
                },
                _ => failed,
            },
            Phase::Probing => match event {
                Event::Present => Assembler { phase: Phase::Removing, at: self.at, count },
                Event::Absent => after_file,
                _ => failed,
            },
            Phase::Removing => match event {
                Event::Completed => after_file,
                _ => failed,
            },
            Phase::Finished => self,
            Phase::Failed => self,
        }
    }

    /// How the reassembly ended: `None` while operations are pending, else
    /// success or the failure.
    pub fn result(self) -> (r: Option<Result<(), PipelineError>>)
        ensures
            r == match self.phase {
                Phase::Finished => Some(Ok::<(), PipelineError>(())),
                Phase::Failed => Some(Err::<(), PipelineError>(PipelineError::Reassembly)),
                _ => None,
            },
            r is None <==> self.spec_pending() is Some,
    {
        match self.phase {
            Phase::Finished => Some(Ok(())),
            Phase::Failed => Some(Err(PipelineError::Reassembly)),
            _ => None,
        }
    }
}

/// Chunk files are removed only once every chunk is appended: a removal is
/// asked for only after the appending is over, the appending is over only
/// when the last append completes, and a failure asks for nothing more.
pub proof fn lemma_cleanup_follows_appending(state: Assembler, event: Event)
    requires
        state.valid(),
    ensures
        state.spec_pending() matches Some(Step::Remove(_)) ==> state.phase == Phase::Removing,
        state.spec_advance(event).phase == Phase::Removing ==> state.phase == Phase::Probing,
        state.spec_advance(event).phase == Phase::Probing ==> state.phase == Phase::Probing
            || state.phase == Phase::Removing || (state.phase == Phase::Appending && state.at + 1
            == state.count && event == Event::Completed),
        state.spec_advance(event).phase == Phase::Failed ==> state.spec_advance(
            event,
        ).spec_pending() is None,
{
}

/// The `k`-th file of `order` is on the shelf.
pub open spec fn present(shelf: Seq<Option<Seq<u8>>>, order: Seq<usize>, k: int) -> bool {
    0 <= k < order.len() && order[k] < shelf.len() && shelf[order[k] as int] is Some
}

/// What an operation does to the shelf and to the output, and how it
/// reports. Creating the output empties it. An append adds the file's bytes
/// to the output and fails where the file is missing. A probe changes
/// nothing. A removal fails where there is nothing to remove.
pub open spec fn step_effect(
    shelf: Seq<Option<Seq<u8>>>,
    output: Seq<u8>,
    order: Seq<usize>,
    step: Step,
) -> (Seq<Option<Seq<u8>>>, Seq<u8>, Event) {
    match step {
        Step::CreateOutput => (shelf, Seq::empty(), Event::Completed),
        Step::Append(k) => if present(shelf, order, k as int) {
            (shelf, output + shelf[order[k as int] as int].unwrap(), Event::Completed)
        } else {
            (shelf, output, Event::Failed)
        },
        Step::Probe(k) => (
            shelf,
            output,
            if present(shelf, order, k as int) {
                Event::Present
            } else {
                Event::Absent
            },
        ),
        Step::Remove(k) => if present(shelf, order, k as int) {
            (shelf.update(order[k as int] as int, None), output, Event::Completed)
        } else {
            (shelf, output, Event::Failed)
        },
    }
}

/// The shelf and the output as the reassembly of the files in `order`,
/// started on the shelf `before`, has left them on reaching `state`.
pub open spec fn on_course(
    state: Assembler,
    shelf: Seq<Option<Seq<u8>>>,
    output: Seq<u8>,
    before: Seq<Option<Seq<u8>>>,
    order: Seq<usize>,
) -> bool {
    &&& state.count == order.len()
    &&& state.valid()
    &&& match state.phase {
        Phase::Creating => shelf == before,
        Phase::Appending => {
            &&& shelf == before
            &&& all_present(before, order.take(state.at as int))
            &&& output == picked(before, order).take(state.at as int).flatten()
        },
        Phase::Probing => {
            &&& all_present(before, order)
            &&& output == picked(before, order).flatten()
            &&& shelf == cleared(before, order.take(state.at as int))
        },
        Phase::Removing => {
            &&& all_present(before, order)
            &&& output == picked(before, order).flatten()
            &&& shelf == cleared(before, order.take(state.at as int))
            &&& present(shelf, order, state.at as int)
        },
        Phase::Finished => {
            &&& all_present(before, order)
            &&& output == picked(before, order).flatten()
            &&& shelf == cleared(before, order)
        },
        Phase::Failed => {
            &&& !all_present(before, order)
            &&& shelf == before
        },
    }
}

/// Clearing one more file: a shelf cleared of the first `at` files of
/// `order`, with the file after them gone too, is cleared of the first
/// `at + 1`.
proof fn lemma_clear_next(
    before: Seq<Option<Seq<u8>>>,
    order: Seq<usize>,
    at: int,
    shelf: Seq<Option<Seq<u8>>>,
)
    requires
        0 <= at < order.len(),
        shelf.len() == before.len(),
        forall|i: int|
            0 <= i < before.len() ==> #[trigger] shelf[i] == if i == order[at] {
                None
            } else {
                cleared(before, order.take(at))[i]
            },
    ensures
        shelf == cleared(before, order.take(at + 1)),
{
    let done = order.take(at);
    let more = order.take(at + 1);
    let goal = cleared(before, more);
    assert(more[at] == order[at]);
    assert forall|i: int| 0 <= i < before.len() implies #[trigger] shelf[i] == goal[i] by {
        if i == order[at] {
            assert(listed(more, i));
        } else if listed(done, i) {
            let k = choose|k: int| 0 <= k < done.len() && #[trigger] done[k] == i;
            assert(more[k] == i);
            assert(listed(more, i));
        } else if listed(more, i) {
            let k = choose|k: int| 0 <= k < more.len() && #[trigger] more[k] == i;
            if k < at {
                assert(done[k] == i);
            }
            assert(false);
        }
    }
    assert(shelf =~= goal);
}

/// One operation keeps the reassembly on course.
pub proof fn lemma_step_on_course(
    state: Assembler,
    shelf: Seq<Option<Seq<u8>>>,
    output: Seq<u8>,
    before: Seq<Option<Seq<u8>>>,
    order: Seq<usize>,
)
    requires
        on_course(state, shelf, output, before, order),
        state.spec_pending() is Some,
    ensures
        ({
            let (shelf2, output2, event) = step_effect(
                shelf,
                output,
                order,
                state.spec_pending().unwrap(),
            );
            on_course(state.spec_advance(event), shelf2, output2, before, order)
        }),
{
    let at = state.at as int;
    let n = order.len() as int;
    let all = picked(before, order);
    let (shelf2, output2, event) = step_effect(shelf, output, order, state.spec_pending().unwrap());
    let next = state.spec_advance(event);
    match state.phase {
        Phase::Creating => {
            assert(all.take(0).flatten() =~= Seq::<u8>::empty());
            if n == 0 {
                assert(all.flatten() =~= Seq::<u8>::empty());
                assert(cleared(before, order) =~= before);
            }
        },
        Phase::Appending => {
            if present(shelf, order, at) {
                assert(all.take(at + 1) =~= all.take(at).push(all[at]));
                all.take(at).lemma_flatten_push(all[at]);
                assert forall|k: int| 0 <= k < at + 1 implies (#[trigger] order.take(at + 1)[k])
                    < before.len() && before[order.take(at + 1)[k] as int] is Some by {
                    if k < at {
                        assert(order.take(at)[k] == order[k]);
                    }
                }
                if at + 1 == n {
                    assert(order.take(n) =~= order);
                    assert(all.take(n) =~= all);
                    assert(cleared(before, order.take(0)) =~= before);
                }
            } else {
                assert(!(order[at] < before.len() && before[order[at] as int] is Some));
            }
        },
        Phase::Probing => {
            if !present(shelf, order, at) {
                assert(before[order[at] as int] is Some);
                lemma_clear_next(before, order, at, shelf);
                if at + 1 == n {
                    assert(order.take(n) =~= order);
                }
            }
        },
        Phase::Removing => {
            lemma_clear_next(before, order, at, shelf2);
            if at + 1 == n {
                assert(order.take(n) =~= order);
            }
        },
        _ => {},
    }
}

impl Shelf {
    /// A shelf that holds every one of `members`, at its place in the order.
    pub fn stock(members: Vec<Vec<u8>>) -> (shelf: Shelf)
        ensures
            shelf@.len() == members@.len(),
            forall|i: int| 0 <= i < members@.len() ==> #[trigger] shelf@[i] == Some(members@[i]@),
    {
        let mut left = members;
        let mut backwards: Vec<Option<Vec<u8>>> = Vec::new();
        let ghost n = members@.len();
        while left.len() > 0
            invariant
                n == members@.len(),
                left@.len() + backwards@.len() == n,
                forall|i: int| 0 <= i < left@.len() ==> #[trigger] left@[i] == members@[i],
                forall|j: int|
                    0 <= j < backwards@.len() ==> #[trigger] backwards@[j] == Some(
                        members@[n - 1 - j],
                    ),
            decreases left@.len(),
        {
            let popped = left.pop();
            backwards.push(popped);
        }
        let mut files: Vec<Option<Vec<u8>>> = Vec::new();
        while backwards.len() > 0
            invariant
                n == members@.len(),
                files@.len() + backwards@.len() == n,
                forall|j: int|
                    0 <= j < backwards@.len() ==> #[trigger] backwards@[j] == Some(
                        members@[n - 1 - j],
                    ),
                forall|i: int| 0 <= i < files@.len() ==> #[trigger] files@[i] == Some(members@[i]),
            decreases backwards@.len(),
        {
            let popped = backwards.pop();
            match popped {
                Some(file) => {
                    files.push(file);
                },
                None => {},
            }
        }
        Shelf { files }
    }

    /// Removes each of the files at `indices` that is there. A file that is
    /// already gone, or was never there, is passed over: cleanup cannot fail.
    pub fn cleanup(&mut self, indices: &Vec<usize>)
        ensures
            final(self)@ == cleared(old(self)@, indices@),
    {
        let mut at: usize = 0;
        proof {
            assert(self@ =~= cleared(old(self)@, indices@.take(0)));
        }
        while at < indices.len()
            invariant
                at <= indices@.len(),
                self@ == cleared(old(self)@, indices@.take(at as int)),
            decreases indices@.len() - at,
        {
            let index = indices[at];
            let ghost before = self@;
            if index < self.files.len() {
                if self.files[index].is_some() {
                    self.files.set(index, None);
                }
            }
            proof {
                assert(self@.len() == before.len());
                assert(before.len() == old(self)@.len());
                assert forall|i: int| 0 <= i < before.len() implies #[trigger] self@[i] == if i
                    == index {
                    None
                } else {
                    before[i]
                } by {}
                lemma_clear_next(old(self)@, indices@, at as int, self@);
            }
            at += 1;
        }
        proof {
            assert(indices@.take(at as int) =~= indices@);
        }
    }

    /// Performs one operation of the reassembly on the shelf and the output,
    /// and reports how it went.
    pub fn perform(&mut self, step: Step, order: &Vec<usize>, output: &mut Vec<u8>) -> (event: Event)
        ensures
            final(self)@ == step_effect(old(self)@, old(output)@, order@, step).0,
            final(output)@ == step_effect(old(self)@, old(output)@, order@, step).1,
            event == step_effect(old(self)@, old(output)@, order@, step).2,
    {
        let k = match step {
            Step::CreateOutput => {
                output.clear();
                return Event::Completed;
            },
            Step::Append(k) => k,
            Step::Probe(k) => k,
            Step::Remove(k) => k,
        };
        let there = k < order.len() && order[k] < self.files.len() && self.files[order[k]].is_some();
        assert(there == present(self@, order@, k as int));
        match step {
            Step::Append(_) => {
                if there {
                    let ghost before = output@;
                    match &self.files[order[k]] {
                        Some(bytes) => {
                            output.extend_from_slice(bytes.as_slice());
                            assert(output@ =~= before + bytes@);
                        },
                        None => {},
                    }
                    Event::Completed
                } else {
                    Event::Failed
                }
            },
            Step::Remove(_) => {
                if there {
                    let ghost shelf = self@;
                    self.files.set(order[k], None);
                    assert(self@ =~= shelf.update(order@[k as int] as int, None));
                    Event::Completed
                } else {
                    Event::Failed
                }
            },
            _ => {
                if there {
                    Event::Present
                } else {
                    Event::Absent
                }
            },
        }
    }

    /// Builds the assembly from the files that `order` names, joined in that
    /// order, and then clears those files away. Where one of them is missing
    /// there is no assembly, and the shelf is left as it was.
    pub fn assemble(&mut self, order: &Vec<usize>) -> (r: Result<Vec<u8>, PipelineError>)
        ensures
            match r {
                Ok(assembly) => {
                    &&& all_present(old(self)@, order@)
                    &&& assembly@ == picked(old(self)@, order@).flatten()
                    &&& final(self)@ == cleared(old(self)@, order@)
                },
                Err(e) => {
                    &&& !all_present(old(self)@, order@)
                    &&& e == PipelineError::Reassembly
                    &&& final(self)@ == old(self)@
                },
            },
    {
        let ghost before = self@;
        let mut output: Vec<u8> = Vec::new();
        let mut state = Assembler::start(order.len());
        loop
            invariant
                on_course(state, self@, output@, before, order@),
                before == old(self)@,
            ensures
                on_course(state, self@, output@, before, order@),
                state.spec_pending() is None,
            decreases state.steps_left(),
        {
            match state.pending() {
                None => {
                    break ;
                },
                Some(step) => {
                    proof {
                        lemma_step_on_course(state, self@, output@, before, order@);
                    }
                    let event = self.perform(step, order, &mut output);
                    state = state.advance(event);
                },
            }
        }
        match state.result() {
            Some(Ok(())) => Ok(output),
            _ => Err(PipelineError::Reassembly),
        }
    }
}

} // verus!
