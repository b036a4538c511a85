//! The pipeline on a stream held in memory: cut, compress, restore the
//! order, join.

use crate::chunker::chunk_count;
use crate::chunker::chunk_of;
use crate::chunker::chunks_of;
use crate::chunker::is_chunking;
use crate::chunker::lemma_chunk_count_is_ceiling;
use crate::chunker::lemma_chunks_cover;
use crate::chunker::split_bytes;
use crate::chunker::Chunk;
use crate::codec::decode_members;
use crate::codec::encodes;
use crate::codec::gzip_best;
use crate::codec::lemma_decode_joined;
use crate::compressor::compress_chunks;
use crate::compressor::compress_in_pool;
use crate::compressor::fan_in;
use crate::compressor::lemma_fan_in_reported_once;
use crate::compressor::reported_once;
use crate::compressor::restore_order;
use crate::compressor::Report;
use crate::config::pool_size;
use crate::error::PipelineError;
use crate::reassembler::member_contents;
use crate::reassembler::reassemble;
use vstd::prelude::*;

verus! {

/// The encoder succeeds on every chunk of `source` cut at `size` bytes.
pub open spec fn encodable(source: Seq<u8>, size: nat) -> bool {
    forall|i: int|
        0 <= i < chunk_count(source.len(), size) ==> gzip_best(
            #[trigger] chunk_of(source, size, i as nat),
        ) is Some
}

/// `index` is the first chunk of `source` on which the encoder fails.
pub open spec fn first_failure(source: Seq<u8>, size: nat, index: nat) -> bool {
    &&& index < chunk_count(source.len(), size)
    &&& gzip_best(chunk_of(source, size, index)) is None
    &&& forall|j: int|
        0 <= j < index ==> gzip_best(#[trigger] chunk_of(source, size, j as nat)) is Some
}

/// The gzip member of each chunk of `source`, in chunk order.
pub open spec fn compressed(source: Seq<u8>, size: nat) -> Seq<Seq<u8>> {
    Seq::new(
        chunk_count(source.len(), size),
        |i: int| gzip_best(chunk_of(source, size, i as nat)).unwrap(),
    )
}

/// The assembly for `source` cut at `size` bytes: the gzip members of its
/// chunks, in chunk order, with nothing between them. There is none where
/// the encoder fails on a chunk.
pub open spec fn assembly_of(source: Seq<u8>, size: nat) -> Option<Seq<u8>> {
    if encodable(source, size) {
        Some(compressed(source, size).flatten())
    } else {
        None
    }
}

/// The assembly that the reports of a run of `expected` chunks lead to: the
/// payloads joined in chunk order, or the failure of the fan-in.
pub open spec fn assembly_from(reports: Seq<Report<Vec<u8>>>, expected: nat) -> Result<
    Seq<u8>,
    PipelineError,
> {
    match fan_in(reports, expected) {
        Ok(members) => Ok(member_contents(members).flatten()),
        Err(e) => Err(e),
    }
}

/// The order in which the workers finish never changes the assembly: runs
/// whose reports are the same up to order give the same bytes, or the same
/// failure.
pub proof fn lemma_assembly_order_independent(
    a: Seq<Report<Vec<u8>>>,
    b: Seq<Report<Vec<u8>>>,
    expected: nat,
)
    requires
        a.to_multiset() == b.to_multiset(),
    ensures
        assembly_from(a, expected) == assembly_from(b, expected),
{
}

/// Round trip: where each member holds the chunk at its place, the members
/// joined in chunk order decode to the source, for every source and every
/// chunk size of at least one byte.
pub proof fn lemma_round_trip(source: Seq<u8>, size: nat, members: Seq<Seq<u8>>)
    requires
        size >= 1,
        members.len() == chunk_count(source.len(), size),
        forall|i: int|
            0 <= i < members.len() ==> encodes(#[trigger] members[i], chunk_of(source, size, i as nat)),
    ensures
        decode_members(members.flatten()) == Some(source),
{
    let plain = chunks_of(source, size);
    assert forall|i: int| 0 <= i < members.len() implies encodes(#[trigger] members[i], plain[i]) by {}
    lemma_decode_joined(members, plain);
    lemma_chunks_cover(source, size);
}

/// The orchestrator's part after the workers: brings the reports of a run of
/// `expected` chunks into chunk order and joins the compressed chunks into
/// the assembly.
pub fn join_reports(reports: Vec<Report<Vec<u8>>>, expected: usize) -> (r: Result<
    Vec<u8>,
    PipelineError,
>)
    ensures
        match r {
            Ok(assembly) => assembly_from(reports@, expected as nat) == Ok::<
                Seq<u8>,
                PipelineError,
            >(assembly@),
            Err(e) => assembly_from(reports@, expected as nat) == Err::<Seq<u8>, PipelineError>(e),
        },
{
    match restore_order(reports, expected) {
        Ok(members) => Ok(reassemble(&members)),
        Err(e) => Err(e),
    }
}

/// What a run on `source` ends in: where the encoder succeeds on every
/// chunk, the assembly, which is the chunks' members joined in chunk order
/// and decodes to the source; else a compression failure at the first chunk
/// on which the encoder fails.
pub open spec fn sound_run(r: Result<Vec<u8>, PipelineError>, source: Seq<u8>, size: nat) -> bool {
    match r {
        Ok(assembly) => {
            &&& encodable(source, size)
            &&& assembly_of(source, size) == Some(assembly@)
            &&& decode_members(assembly@) == Some(source)
        },
        Err(e) => {
            &&& !encodable(source, size)
            &&& e matches PipelineError::Compression { index }
            &&& first_failure(source, size, index as nat)
        },
    }
}

/// The run from the fan-in on: given one report per chunk of `source`, in any
/// order, restores the order and joins the members.
fn finish_run(
    Ghost(source): Ghost<Seq<u8>>,
    Ghost(size): Ghost<nat>,
    chunks: &Vec<Chunk>,
    reports: Vec<Report<Vec<u8>>>,
) -> (r: Result<Vec<u8>, PipelineError>)
    requires
        size >= 1,
        is_chunking(chunks@, source, size),
        reported_once(reports@, chunks@),
    ensures
        sound_run(r, source, size),
{
    let expected = chunks.len();
    proof {
        lemma_fan_in_reported_once(reports@, chunks@);
        match fan_in(reports@, expected as nat) {
            Ok(members) => {
                let packed = member_contents(members);
                assert forall|i: int| 0 <= i < packed.len() implies gzip_best(
                    chunk_of(source, size, i as nat),
                ) == Some(#[trigger] packed[i]) && encodes(
                    packed[i],
                    chunk_of(source, size, i as nat),
                ) by {
                    assert(gzip_best(chunks@[i].bytes@) == Some(members[i]@));
                }
                assert forall|i: int| 0 <= i < chunk_count(source.len(), size) implies gzip_best(
                    #[trigger] chunk_of(source, size, i as nat),
                ) is Some by {
                    assert(gzip_best(chunk_of(source, size, i as nat)) == Some(packed[i]));
                }
                assert(packed =~= compressed(source, size));
                lemma_round_trip(source, size, packed);
            },
            Err(e) => {
                let index = e->Compression_index;
                assert(chunks@[index as int].bytes@ == chunk_of(source, size, index as nat));
                assert forall|j: int| 0 <= j < index implies gzip_best(
                    #[trigger] chunk_of(source, size, j as nat),
                ) is Some by {
                    assert(gzip_best(chunks@[j].bytes@) is Some);
                }
                assert(gzip_best(chunk_of(source, size, index as nat)) is None);
            },
        }
    }
    join_reports(reports, expected)
}

/// Runs the whole pipeline on `source` with a single worker: cuts it into
/// chunks of `chunk_size` bytes, compresses each chunk apart, restores the
/// chunk order and joins the members. It succeeds exactly where the encoder
/// succeeds on every chunk, and what comes out then decodes to `source`,
/// whatever the chunk size and the length. Else it names the first chunk on
/// which the encoder fails.
pub fn compress_stream(source: &[u8], chunk_size: usize) -> (r: Result<Vec<u8>, PipelineError>)
    requires
        chunk_size >= 1,
    ensures
        r is Ok <==> encodable(source@, chunk_size as nat),
        sound_run(r, source@, chunk_size as nat),
        source@.len() == 0 ==> r is Ok,
{
    let chunks = split_bytes(source, chunk_size);
    let reports = compress_chunks(&chunks);
    proof {
        lemma_chunk_count_is_ceiling(source@.len(), chunk_size as nat);
    }
    finish_run(Ghost(source@), Ghost(chunk_size as nat), &chunks, reports)
}

/// Runs the whole pipeline on `source` with a pool of workers: as many as
/// `requested` where that is given and not zero, else one per processing
/// unit of the machine. The workers finish in any order. Where the pool can
/// be set up, the run ends as a single worker's does: in the same assembly,
/// which decodes to `source`, or in the same failure.
pub fn compress_stream_parallel(source: &[u8], chunk_size: usize, requested: Option<usize>) -> (r:
    Result<Vec<u8>, PipelineError>)
    requires
        chunk_size >= 1,
    ensures
        r == Err::<Vec<u8>, PipelineError>(PipelineError::WorkerPool) || {
            &&& r is Ok <==> encodable(source@, chunk_size as nat)
            &&& sound_run(r, source@, chunk_size as nat)
        },
{
    let chunks = split_bytes(source, chunk_size);
    let workers = pool_size(requested);
    match compress_in_pool(&chunks, workers) {
        Ok(reports) => finish_run(Ghost(source@), Ghost(chunk_size as nat), &chunks, reports),
        Err(e) => Err(e),
    }
}

} // verus!
