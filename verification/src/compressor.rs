//! Compressing chunks apart and bringing the results back into chunk order.
//!
//! Each worker hands in one report per chunk: the chunk's index and either
//! the compressed chunk or the fact that it failed. Reports arrive in any
//! order. What the fan-in makes of them depends only on which reports came,
//! never on the order they came in.

use crate::chunker::Chunk;
use crate::codec::encodes;
use crate::codec::gzip_best;
use crate::codec::gzip_encode;
use crate::error::PipelineError;
use rayon::iter::IntoParallelRefIterator;
use rayon::iter::ParallelIterator;
use vstd::multiset::Multiset;
use vstd::prelude::*;

verus! {

/// How a worker's attempt at one chunk ended.
#[derive(Debug, Clone, PartialEq, Eq)]
pub enum Outcome<T> {
    Done(T),
    Failed,
}

/// A worker's completion report for the chunk at `index`.
#[derive(Debug, Clone, PartialEq, Eq)]
pub struct Report<T> {
    pub index: usize,
    pub outcome: Outcome<T>,
}

/// The report of a success at `index` with `payload`.
pub open spec fn done<T>(index: usize, payload: T) -> Report<T> {
    Report { index, outcome: Outcome::Done(payload) }
}

/// Exactly one report came for `index`, and it is a success with `payload`.
pub open spec fn delivered<T>(came: Multiset<Report<T>>, index: usize, payload: T) -> bool {
    &&& came.count(done(index, payload)) == 1
    &&& forall|r: Report<T>|
        r.index == index && #[trigger] came.count(r) > 0 ==> r == done(index, payload)
}

/// Exactly one report came for `index`, and it is a success.
pub open spec fn settled<T>(came: Multiset<Report<T>>, index: usize) -> bool {
    exists|payload: T| delivered(came, index, payload)
}

/// No report came for `index`.
pub open spec fn silent<T>(came: Multiset<Report<T>>, index: usize) -> bool {
    forall|r: Report<T>| r.index == index ==> #[trigger] came.count(r) == 0
}

/// The reports for `index` are what a sound run of `expected` chunks gives:
/// one success for a chunk that was handed out, nothing for any other index.
pub open spec fn as_expected<T>(came: Multiset<Report<T>>, expected: nat, index: usize) -> bool {
    if index < expected {
        settled(came, index)
    } else {
        silent(came, index)
    }
}

/// `index` is the least index whose reports are not as expected.
pub open spec fn first_upset<T>(came: Multiset<Report<T>>, expected: nat, index: usize) -> bool {
    &&& !as_expected(came, expected, index)
    &&& forall|j: usize| j < index ==> as_expected(came, expected, j)
}

/// The payload of the one success reported for `index`.
pub open spec fn payload_at<T>(came: Multiset<Report<T>>, index: usize) -> T {
    choose|payload: T| delivered(came, index, payload)
}

/// What the orchestrator makes of the reports of a run of `expected` chunks:
/// the payloads in chunk order where every chunk has its one success and no
/// other report came, else a compression failure at the least index for
/// which that does not hold.
pub open spec fn fan_in<T>(reports: Seq<Report<T>>, expected: nat) -> Result<Seq<T>, PipelineError> {
    let came = reports.to_multiset();
    if forall|i: usize| as_expected(came, expected, i) {
        Ok(Seq::new(expected, |i: int| payload_at(came, i as usize)))
    } else {
        Err(PipelineError::Compression { index: choose|i: usize| first_upset(came, expected, i) })
    }
}

/// At most one payload is delivered for an index.
pub proof fn lemma_delivered_unique<T>(came: Multiset<Report<T>>, index: usize, a: T, b: T)
    requires
        delivered(came, index, a),
        delivered(came, index, b),
    ensures
        a == b,
        payload_at(came, index) == a,
{
    assert(came.count(done(index, b)) > 0);
    assert(done(index, b) == done(index, a));
    let c = payload_at(came, index);
    assert(delivered(came, index, c));
    assert(came.count(done(index, c)) > 0);
    assert(done(index, c) == done(index, a));
}

/// At most one index is the first upset.
pub proof fn lemma_first_upset_unique<T>(came: Multiset<Report<T>>, expected: nat, a: usize, b: usize)
    requires
        first_upset(came, expected, a),
        first_upset(came, expected, b),
    ensures
        a == b,
{
    if a < b {
        assert(as_expected(came, expected, a));
    } else if b < a {
        assert(as_expected(came, expected, b));
    }
}

/// The order in which the workers' reports arrive does not matter: two runs
/// whose reports are the same up to order fan in to the same result.
pub proof fn lemma_order_independence<T>(a: Seq<Report<T>>, b: Seq<Report<T>>, expected: nat)
    requires
        a.to_multiset() == b.to_multiset(),
    ensures
        fan_in(a, expected) == fan_in(b, expected),
{
}

/// A report for another index changes nothing at `index`.
proof fn lemma_insert_elsewhere<T>(came: Multiset<Report<T>>, report: Report<T>)
    ensures
        forall|i: usize|
            i != report.index ==> (#[trigger] silent(came.insert(report), i) <==> silent(came, i)),
        forall|i: usize, x: T|
            i != report.index ==> (#[trigger] delivered(came.insert(report), i, x) <==> delivered(
                came,
                i,
                x,
            )),
        forall|i: usize|
            i != report.index ==> (#[trigger] settled(came.insert(report), i) <==> settled(came, i)),
{
    broadcast use vstd::multiset::group_multiset_axioms;

    let more = came.insert(report);
    assert forall|r: Report<T>|
        #![trigger more.count(r)]
        #![trigger came.count(r)]
        r.index != report.index implies more.count(r) == came.count(r) by {}
    assert forall|i: usize| i != report.index implies (#[trigger] silent(more, i) <==> silent(
        came,
        i,
    )) by {}
    assert forall|i: usize, x: T| i != report.index implies (#[trigger] delivered(more, i, x)
        <==> delivered(came, i, x)) by {}
    assert forall|i: usize| i != report.index implies (#[trigger] settled(more, i) <==> settled(
        came,
        i,
    )) by {
        if settled(came, i) {
            let x = choose|x: T| delivered(came, i, x);
            assert(delivered(more, i, x));
        }
        if settled(more, i) {
            let x = choose|x: T| delivered(more, i, x);
            assert(delivered(came, i, x));
        }
    }
}

/// The first report for an index settles it if it is a success, and upsets
/// it for good if it is a failure.
proof fn lemma_insert_first<T>(came: Multiset<Report<T>>, report: Report<T>)
    requires
        silent(came, report.index),
    ensures
        report.outcome matches Outcome::Done(x) ==> delivered(
            came.insert(report),
            report.index,
            x,
        ),
        !silent(came.insert(report), report.index),
        report.outcome is Failed ==> !settled(came.insert(report), report.index),
{
    broadcast use vstd::multiset::group_multiset_axioms;

    let more = came.insert(report);
    assert(more.count(report) == came.count(report) + 1);
    assert(came.count(report) == 0);
    assert forall|r: Report<T>| r != report implies #[trigger] more.count(r) == came.count(r) by {}
    if report.outcome is Failed {
        if settled(more, report.index) {
            let x = choose|x: T| delivered(more, report.index, x);
            assert(more.count(report) > 0);
            assert(report == done(report.index, x));
        }
    }
}

/// A further report for an index that already has one upsets it for good.
proof fn lemma_insert_again<T>(came: Multiset<Report<T>>, report: Report<T>)
    requires
        !silent(came, report.index),
    ensures
        !silent(came.insert(report), report.index),
        !settled(came.insert(report), report.index),
{
    broadcast use vstd::multiset::group_multiset_axioms;

    let more = came.insert(report);
    let earlier = choose|r: Report<T>| r.index == report.index && came.count(r) != 0;
    assert(more.count(report) == came.count(report) + 1);
    assert(more.count(earlier) >= came.count(earlier));
    if settled(more, report.index) {
        let x = choose|x: T| delivered(more, report.index, x);
        assert(more.count(report) > 0);
        assert(more.count(earlier) > 0);
        assert(report == done(report.index, x));
        assert(earlier == done(report.index, x));
    }
}

/// Reports that stand in chunk order, one per chunk, fan in to the payloads
/// in that order where all are successes, and to a failure at the first
/// chunk whose report is one.
pub proof fn lemma_fan_in_in_place<T>(reports: Seq<Report<T>>)
    requires
        reports.len() <= usize::MAX,
        forall|i: int| 0 <= i < reports.len() ==> (#[trigger] reports[i]).index == i,
    ensures
        match fan_in(reports, reports.len()) {
            Ok(payloads) => {
                &&& payloads.len() == reports.len()
                &&& forall|i: int|
                    0 <= i < reports.len() ==> (#[trigger] reports[i]).outcome == Outcome::Done(
                        payloads[i],
                    )
            },
            Err(e) => {
                &&& e matches PipelineError::Compression { index }
                &&& index < reports.len()
                &&& reports[index as int].outcome is Failed
                &&& forall|j: int| 0 <= j < index ==> (#[trigger] reports[j]).outcome is Done
            },
        },
{
    broadcast use vstd::multiset::group_multiset_axioms;

    let n = reports.len();
    let came = reports.to_multiset();
    reports.to_multiset_ensures();
    assert(reports.no_duplicates());
    reports.lemma_multiset_has_no_duplicates();
    assert forall|r: Report<T>| #[trigger] came.count(r) > 0 implies r.index < n && reports[r.index as int] == r by {
        assert(reports.contains(r));
        let k = choose|k: int| 0 <= k < reports.len() && reports[k] == r;
        assert(reports[k].index == k);
    }
    assert forall|i: usize| i >= n implies silent(came, i) by {
        assert forall|r: Report<T>| r.index == i implies #[trigger] came.count(r) == 0 by {
            assert(came.count(r) > 0 ==> r.index < n);
        }
    }
    assert forall|i: usize| i < n implies (settled(came, i) <==> reports[i as int].outcome is Done) by {
        let here = reports[i as int];
        assert(here.index == i);
        assert(reports.contains(here));
        assert(came.count(here) > 0);
        assert(came.contains(here));
        assert(came.count(here) == 1);
        if here.outcome is Done {
            let x = here.outcome->Done_0;
            assert(here == done(i, x));
            assert(delivered(came, i, x));
        }
        if settled(came, i) {
            let x = choose|x: T| delivered(came, i, x);
            assert(here == done(i, x));
        }
    }
    match fan_in(reports, n) {
        Ok(payloads) => {
            assert forall|i: int| 0 <= i < n implies (#[trigger] reports[i]).outcome
                == Outcome::Done(payloads[i]) by {
                let at = i as usize;
                assert(as_expected(came, n, at));
                let x = reports[i].outcome->Done_0;
                assert(reports[i] == done(at, x));
                assert(came.count(reports[i]) == 1);
                assert(delivered(came, at, x));
                lemma_delivered_unique(came, at, x, x);
            }
        },
        Err(e) => {
            let c = choose|i: usize| first_upset(came, n, i);
            let bad = choose|i: usize| !as_expected(came, n, i);
            lemma_least_upset(came, n, bad);
            assert(first_upset(came, n, c));
            assert forall|j: int| 0 <= j < c implies (#[trigger] reports[j]).outcome is Done by {
                assert(as_expected(came, n, j as usize));
            }
        },
    }
}

/// Where some index is upset, a least one is.
proof fn lemma_least_upset<T>(came: Multiset<Report<T>>, expected: nat, bad: usize)
    requires
        !as_expected(came, expected, bad),
    ensures
        exists|i: usize| first_upset(came, expected, i),
    decreases bad,
{
    if forall|j: usize| j < bad ==> as_expected(came, expected, j) {
        assert(first_upset(came, expected, bad));
    } else {
        let lower = choose|j: usize| j < bad && !as_expected(came, expected, j);
        lemma_least_upset(came, expected, lower);
    }
}

/// `report` is what a worker hands in for `chunk`: it carries the chunk's
/// index; it is a success exactly where the encoder succeeds on the chunk,
/// and its payload is then the chunk's gzip member.
pub open spec fn reports_on(report: Report<Vec<u8>>, chunk: Chunk) -> bool {
    &&& report.index == chunk.index
    &&& match report.outcome {
        Outcome::Done(member) => gzip_best(chunk.bytes@) == Some(member@) && encodes(
            member@,
            chunk.bytes@,
        ),
        Outcome::Failed => gzip_best(chunk.bytes@) is None,
    }
}

/// The report for the chunk at `index`, given how its encoding ended: a
/// success carrying the member, or a failure.
pub fn report_of(index: usize, encoded: Result<Vec<u8>, std::io::Error>) -> (report: Report<
    Vec<u8>,
>)
    ensures
        report.index == index,
        match encoded {
            Ok(member) => report.outcome == Outcome::Done(member),
            Err(_) => report.outcome == Outcome::<Vec<u8>>::Failed,
        },
{
    match encoded {
        Ok(member) => Report { index, outcome: Outcome::Done(member) },
        Err(_) => Report { index, outcome: Outcome::Failed },
    }
}

/// One worker's job: compresses `chunk` into a gzip member of its own, at
/// the highest compression level, and reports under the chunk's index: the
/// member where the encoder succeeds on the chunk, a failure where it does
/// not.
pub fn compress_chunk(chunk: &Chunk) -> (report: Report<Vec<u8>>)
    ensures
        report.index == chunk.index,
        match report.outcome {
            Outcome::Done(member) => gzip_best(chunk.bytes@) == Some(member@) && encodes(
                member@,
                chunk.bytes@,
            ),
            Outcome::Failed => gzip_best(chunk.bytes@) is None,
        },
        reports_on(report, *chunk),
{
    report_of(chunk.index, gzip_encode(chunk.bytes.as_slice()))
}

/// `reports` holds one report per chunk, at the chunk's place.
pub open spec fn in_chunk_order(reports: Seq<Report<Vec<u8>>>, chunks: Seq<Chunk>) -> bool {
    &&& reports.len() == chunks.len()
    &&& forall|i: int| 0 <= i < chunks.len() ==> reports_on(#[trigger] reports[i], chunks[i])
}

/// `reports` holds one report per chunk, in whatever order the workers
/// finished.
pub open spec fn reported_once(reports: Seq<Report<Vec<u8>>>, chunks: Seq<Chunk>) -> bool {
    exists|in_order: Seq<Report<Vec<u8>>>| #[trigger]
        in_chunk_order(in_order, chunks) && reports.to_multiset() == in_order.to_multiset()
}

/// A single worker taking the chunks in turn: one report per chunk, in the
/// order of the chunks.
pub fn compress_chunks(chunks: &Vec<Chunk>) -> (reports: Vec<Report<Vec<u8>>>)
    ensures
        in_chunk_order(reports@, chunks@),
        reported_once(reports@, chunks@),
{
    let mut reports: Vec<Report<Vec<u8>>> = Vec::new();
    let mut at: usize = 0;
    while at < chunks.len()
        invariant
            at <= chunks@.len(),
            reports@.len() == at,
            forall|i: int| 0 <= i < at ==> reports_on(#[trigger] reports@[i], chunks@[i]),
        decreases chunks@.len() - at,
    {
        let report = compress_chunk(&chunks[at]);
        reports.push(report);
        at += 1;
    }
    assert(in_chunk_order(reports@, chunks@));
    reports
}

/// `rayon::ThreadPoolBuildError`, which building a pool fails with. Nothing
/// is read from it.
#[verifier::external_type_specification]
#[verifier::external_body]
pub struct ExThreadPoolBuildError(rayon::ThreadPoolBuildError);

/// Calls rayon: builds a pool of `workers` threads with
/// `ThreadPoolBuilder::build`, and inside it, with `ThreadPool::install`,
/// hands every chunk to `compress_chunk` through `par_iter` and
/// `for_each_with`; each worker sends its report over a channel.
///
/// Believed of it: where the pool can be built, each chunk is handed out
/// exactly once and every report comes back, so that the reports are one per
/// chunk, each what `compress_chunk` is proved to return for its chunk; the
/// order they come back in is not fixed, and nothing is said of it.
#[verifier::external_body]
pub(crate) fn fan_out(chunks: &Vec<Chunk>, workers: usize) -> (r: Result<
    Vec<Report<Vec<u8>>>,
    rayon::ThreadPoolBuildError,
>)
    ensures
        r matches Ok(reports) ==> reported_once(reports@, chunks@),
{
    let pool = rayon::ThreadPoolBuilder::new().num_threads(workers).build()?;
    let (sender, receiver) = std::sync::mpsc::channel();
    pool.install(
        || {
            chunks.par_iter().for_each_with(
                sender,
                |s, chunk| {
                    let _ = s.send(compress_chunk(chunk));
                },
            )
        },
    );
    Ok(receiver.iter().collect())
}

/// What the run makes of the pool's answer: the reports as they came, or the
/// failure to set the pool up.
pub fn pool_outcome(
    answer: Result<Vec<Report<Vec<u8>>>, rayon::ThreadPoolBuildError>,
) -> (r: Result<Vec<Report<Vec<u8>>>, PipelineError>)
    ensures
        match answer {
            Ok(reports) => r == Ok::<Vec<Report<Vec<u8>>>, PipelineError>(reports),
            Err(_) => r == Err::<Vec<Report<Vec<u8>>>, PipelineError>(PipelineError::WorkerPool),
        },
{
    match answer {
        Ok(reports) => Ok(reports),
        Err(_) => Err(PipelineError::WorkerPool),
    }
}

/// The fan-out: compresses the chunks on a pool of `workers` threads, each
/// worker taking a chunk from beginning to end. The reports come back in the
/// order the workers finish, one per chunk. Fails only where the pool cannot
/// be set up.
pub fn compress_in_pool(chunks: &Vec<Chunk>, workers: usize) -> (r: Result<
    Vec<Report<Vec<u8>>>,
    PipelineError,
>)
    ensures
        match r {
            Ok(reports) => reported_once(reports@, chunks@),
            Err(e) => e == PipelineError::WorkerPool,
        },
{
    pool_outcome(fan_out(chunks, workers))
}

/// Reports that are one per chunk, the chunks numbered in order, fan in to
/// the chunks' members in chunk order where the encoder succeeds on every
/// chunk, and fail at the first chunk on which it does not, whatever order
/// the reports came in.
pub proof fn lemma_fan_in_reported_once(reports: Seq<Report<Vec<u8>>>, chunks: Seq<Chunk>)
    requires
        reported_once(reports, chunks),
        chunks.len() <= usize::MAX,
        forall|i: int| 0 <= i < chunks.len() ==> (#[trigger] chunks[i]).index == i,
    ensures
        match fan_in(reports, chunks.len()) {
            Ok(members) => {
                &&& members.len() == chunks.len()
                &&& forall|i: int|
                    0 <= i < chunks.len() ==> gzip_best(chunks[i].bytes@) == Some(
                        (#[trigger] members[i])@,
                    ) && encodes(members[i]@, chunks[i].bytes@)
            },
            Err(e) => {
                &&& e matches PipelineError::Compression { index }
                &&& index < chunks.len()
                &&& gzip_best(chunks[index as int].bytes@) is None
                &&& forall|j: int|
                    0 <= j < index ==> gzip_best((#[trigger] chunks[j]).bytes@) is Some
            },
        },
{
    let in_order = choose|in_order: Seq<Report<Vec<u8>>>| #[trigger]
        in_chunk_order(in_order, chunks) && reports.to_multiset() == in_order.to_multiset();
    assert forall|i: int| 0 <= i < in_order.len() implies (#[trigger] in_order[i]).index == i by {
        assert(reports_on(in_order[i], chunks[i]));
    }
    lemma_fan_in_in_place(in_order);
    lemma_order_independence(reports, in_order, chunks.len());
    match fan_in(reports, chunks.len()) {
        Ok(members) => {
            assert forall|i: int| 0 <= i < chunks.len() implies gzip_best(chunks[i].bytes@)
                == Some((#[trigger] members[i])@) && encodes(members[i]@, chunks[i].bytes@) by {
                assert(reports_on(in_order[i], chunks[i]));
            }
        },
        Err(e) => {
            let index = e->Compression_index;
            assert(reports_on(in_order[index as int], chunks[index as int]));
            assert forall|j: int| 0 <= j < index implies gzip_best(
                (#[trigger] chunks[j]).bytes@,
            ) is Some by {
                assert(reports_on(in_order[j], chunks[j]));
            }
        },
    }
}

/// What the orchestrator holds for one chunk while reports come in.
enum Slot<T> {
    Empty,
    Filled(T),
    Spoiled,
}

/// `slot` sums up the reports that came for `index`.
spec fn slot_tracks<T>(slot: Slot<T>, came: Multiset<Report<T>>, index: usize) -> bool {
    match slot {
        Slot::Empty => silent(came, index),
        Slot::Filled(x) => delivered(came, index, x),
        Slot::Spoiled => !silent(came, index) && !settled(came, index),
    }
}

/// `stray` is the least index past the handed-out chunks for which a report
/// came, if there is one.
spec fn stray_tracks<T>(stray: Option<usize>, came: Multiset<Report<T>>, expected: nat) -> bool {
    match stray {
        None => forall|i: usize| i >= expected ==> #[trigger] silent(came, i),
        Some(s) => {
            &&& s >= expected
            &&& !silent(came, s)
            &&& forall|i: usize| expected <= i < s ==> #[trigger] silent(came, i)
        },
    }
}

/// The fan-in: brings the reports of a run of `expected` chunks back into
/// chunk order, whatever order they arrived in. Succeeds only where every
/// chunk has exactly one report, a success, and no report came for any other
/// index; otherwise names the least index for which that fails.
pub fn restore_order<T>(reports: Vec<Report<T>>, expected: usize) -> (r: Result<
    Vec<T>,
    PipelineError,
>)
    ensures
        match r {
            Ok(payloads) => fan_in(reports@, expected as nat) == Ok::<Seq<T>, PipelineError>(
                payloads@,
            ),
            Err(e) => fan_in(reports@, expected as nat) == Err::<Seq<T>, PipelineError>(e),
        },
{
    let ghost came = reports@.to_multiset();
    let ghost n = expected as nat;
    let mut pending = reports;
    let mut slots: Vec<Slot<T>> = Vec::new();
    while slots.len() < expected
        invariant
            slots@.len() <= expected,
            forall|i: int| 0 <= i < slots@.len() ==> #[trigger] slots@[i] is Empty,
        decreases expected - slots@.len(),
    {
        slots.push(Slot::Empty);
    }
    let mut stray: Option<usize> = None;
    let ghost mut seen: Multiset<Report<T>> = Multiset::empty();
    proof {
        broadcast use vstd::multiset::group_multiset_axioms;

        assert forall|i: int| 0 <= i < n implies slot_tracks(#[trigger] slots@[i], seen, i as usize) by {
            assert(slots@[i] is Empty);
        }
    }
    while pending.len() > 0
        invariant
            n == expected,
            slots@.len() == n,
            forall|r: Report<T>|
                seen.count(r) + pending@.to_multiset().count(r) == #[trigger] came.count(r),
            forall|i: int| 0 <= i < n ==> slot_tracks(#[trigger] slots@[i], seen, i as usize),
            stray_tracks(stray, seen, n),
        decreases pending@.len(),
    {
        let ghost before = pending@;
        let ghost old_slots = slots@;
        let ghost old_stray = stray;
        let popped = pending.pop();
        match popped {
            None => {},
            Some(report) => {
                let ghost more = seen.insert(report);
                proof {
                    broadcast use vstd::multiset::group_multiset_axioms;

                    assert(before =~= pending@.push(report));
                    vstd::seq_lib::to_multiset_build(pending@, report);
                    lemma_insert_elsewhere(seen, report);
                    if silent(seen, report.index) {
                        lemma_insert_first(seen, report);
                    } else {
                        lemma_insert_again(seen, report);
                    }
                }
                let index = report.index;
                if index < expected {
                    let vacant = match &slots[index] {
                        Slot::Empty => true,
                        _ => false,
                    };
                    proof {
                        assert(slot_tracks(old_slots[index as int], seen, index));
                        if !vacant {
                            if old_slots[index as int] is Filled {
                                let x = old_slots[index as int]->Filled_0;
                                assert(seen.count(done(index, x)) == 1);
                            }
                            assert(!silent(seen, index));
                        }
                    }
                    if vacant {
                        match report.outcome {
                            Outcome::Done(payload) => {
                                slots.set(index, Slot::Filled(payload));
                            },
                            Outcome::Failed => {
                                slots.set(index, Slot::Spoiled);
                            },
                        }
                    } else {
                        slots.set(index, Slot::Spoiled);
                    }
                    proof {
                        assert forall|i: int| 0 <= i < n implies slot_tracks(
                            #[trigger] slots@[i],
                            more,
                            i as usize,
                        ) by {
                            if i != index {
                                assert(slots@[i] == old_slots[i]);
                                assert(slot_tracks(old_slots[i], seen, i as usize));
                            }
                        }
                        assert(stray_tracks(stray, more, n));
                    }
                } else {
                    stray =
                    match stray {
                        Some(s) => if s < index {
                            Some(s)
                        } else {
                            Some(index)
                        },
                        None => Some(index),
                    };
                    proof {
                        assert forall|i: int| 0 <= i < n implies slot_tracks(
                            #[trigger] slots@[i],
                            more,
                            i as usize,
                        ) by {
                            assert(slot_tracks(old_slots[i], seen, i as usize));
                        }
                        assert(stray_tracks(stray, more, n));
                    }
                }
                proof {
                    seen = more;
                }
            },
        }
    }
    proof {
        broadcast use vstd::multiset::group_multiset_axioms;

        pending@.to_multiset_ensures();
        assert(pending@.to_multiset().len() == 0);
        assert(seen =~= came);
    }
    let mut at: usize = 0;
    while at < expected
        invariant
            n == expected,
            came == reports@.to_multiset(),
            slots@.len() == n,
            at <= expected,
            forall|i: int| 0 <= i < n ==> slot_tracks(#[trigger] slots@[i], came, i as usize),
            forall|i: int| 0 <= i < at ==> #[trigger] slots@[i] is Filled,
        decreases expected - at,
    {
        let filled = match &slots[at] {
            Slot::Filled(_) => true,
            _ => false,
        };
        if !filled {
            proof {
                assert(slot_tracks(slots@[at as int], came, at));
                if settled(came, at) {
                    let x = choose|x: T| delivered(came, at, x);
                    assert(came.count(done(at, x)) == 1);
                }
                assert forall|j: usize| j < at implies as_expected(came, n, j) by {
                    assert(slots@[j as int] is Filled);
                    assert(slot_tracks(slots@[j as int], came, j));
                    assert(delivered(came, j, slots@[j as int]->Filled_0));
                }
                assert(!settled(came, at));
                assert(!as_expected(came, n, at));
                lemma_upset_is_the_error(reports@, n, at);
            }
            return Err(PipelineError::Compression { index: at });
        }
        at += 1;
    }
    proof {
        assert forall|j: usize| j < n implies as_expected(came, n, j) by {
            assert(slots@[j as int] is Filled);
            assert(slot_tracks(slots@[j as int], came, j));
            assert(delivered(came, j, slots@[j as int]->Filled_0));
        }
    }
    match stray {
        Some(s) => {
            proof {
                lemma_upset_is_the_error(reports@, n, s);
            }
            return Err(PipelineError::Compression { index: s });
        },
        None => {},
    }
    let ghost want = Seq::new(n, |i: int| payload_at(came, i as usize));
    proof {
        assert forall|i: int| 0 <= i < n implies #[trigger] slots@[i] == Slot::Filled(want[i]) by {
            assert(slots@[i] is Filled);
            assert(slot_tracks(slots@[i], came, i as usize));
            let x = slots@[i]->Filled_0;
            lemma_delivered_unique(came, i as usize, x, x);
        }
    }
    let mut backwards: Vec<T> = Vec::new();
    while slots.len() > 0
        invariant
            slots@.len() <= n,
            want.len() == n,
            backwards@.len() + slots@.len() == n,
            forall|i: int| 0 <= i < slots@.len() ==> #[trigger] slots@[i] == Slot::Filled(want[i]),
            forall|j: int| 0 <= j < backwards@.len() ==> #[trigger] backwards@[j] == want[n - 1 - j],
        decreases slots@.len(),
    {
        let ghost last = slots@[slots@.len() - 1];
        let popped = slots.pop();
        proof {
            assert(last == Slot::Filled(want[slots@.len() as int]));
        }
        match popped {
            Some(Slot::Filled(payload)) => {
                backwards.push(payload);
            },
            _ => {
                proof {
                    assert(false);
                }
            },
        }
    }
    let mut payloads: Vec<T> = Vec::new();
    while backwards.len() > 0
        invariant
            want.len() == n,
            payloads@.len() + backwards@.len() == n,
            forall|j: int| 0 <= j < backwards@.len() ==> #[trigger] backwards@[j] == want[n - 1 - j],
            forall|i: int| 0 <= i < payloads@.len() ==> #[trigger] payloads@[i] == want[i],
        decreases backwards@.len(),
    {
        let popped = backwards.pop();
        match popped {
            Some(payload) => {
                payloads.push(payload);
            },
            None => {},
        }
    }
    proof {
        assert(payloads@ =~= want);
        assert forall|i: usize| as_expected(came, n, i) by {
            if i >= n {
                assert(silent(came, i));
            }
        }
    }
    Ok(payloads)
}

/// Where the reports are upset first at `index`, the fan-in fails there.
proof fn lemma_upset_is_the_error<T>(reports: Seq<Report<T>>, expected: nat, index: usize)
    requires
        first_upset(reports.to_multiset(), expected, index),
    ensures
        fan_in(reports, expected) == Err::<Seq<T>, PipelineError>(
            PipelineError::Compression { index },
        ),
{
    let came = reports.to_multiset();
    let chosen = choose|i: usize| first_upset(came, expected, i);
    lemma_first_upset_unique(came, expected, chosen, index);
}

} // verus!
