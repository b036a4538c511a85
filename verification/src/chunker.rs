//! Cutting a byte stream into fixed-size chunks.
//!
//! Chunk `i` of a stream of `len` bytes cut at `size` bytes spans the offsets
//! from `chunk_bound(len, size, i)` up to `chunk_bound(len, size, i + 1)`.

use vstd::prelude::*;

verus! {

/// Offset at which chunk `i` begins: `i * size`, capped at the stream's end.
pub open spec fn chunk_bound(len: nat, size: nat, i: nat) -> nat {
    if i * size <= len {
        i * size
    } else {
        len
    }
}

/// Number of bytes in chunk `i`; zero past the last chunk.
pub open spec fn chunk_len(len: nat, size: nat, i: nat) -> nat {
    (chunk_bound(len, size, i + 1) - chunk_bound(len, size, i)) as nat
}

/// Number of chunks: `len / size`, rounded up.
pub open spec fn chunk_count(len: nat, size: nat) -> nat
    recommends
        size >= 1,
{
    ((len + size - 1) / (size as int)) as nat
}

/// The bytes of chunk `i`.
pub open spec fn chunk_of(source: Seq<u8>, size: nat, i: nat) -> Seq<u8> {
    source.subrange(
        chunk_bound(source.len(), size, i) as int,
        chunk_bound(source.len(), size, i + 1) as int,
    )
}

/// All chunks of `source`, in read order.
pub open spec fn chunks_of(source: Seq<u8>, size: nat) -> Seq<Seq<u8>> {
    Seq::new(chunk_count(source.len(), size), |i: int| chunk_of(source, size, i as nat))
}

/// Sum of the lengths of `parts`.
pub open spec fn total_len(parts: Seq<Seq<u8>>) -> nat
    decreases parts.len(),
{
    if parts.len() == 0 {
        0
    } else {
        total_len(parts.drop_last()) + parts.last().len()
    }
}

/// Multiplying by a fixed size keeps the order of chunk numbers.
pub proof fn lemma_bound_monotone(len: nat, size: nat, i: nat, j: nat)
    requires
        i <= j,
    ensures
        i * size <= j * size,
        chunk_bound(len, size, i) <= chunk_bound(len, size, j),
        chunk_bound(len, size, j) <= len,
{
    assert(i * size <= j * size) by (nonlinear_arith)
        requires
            i <= j,
    ;
}

/// The chunk count is the least number of `size`-byte chunks that hold `len`
/// bytes: the ceiling of `len / size`, and zero for an empty stream.
pub proof fn lemma_chunk_count_is_ceiling(len: nat, size: nat)
    requires
        size >= 1,
    ensures
        chunk_count(len, size) * size >= len,
        chunk_count(len, size) >= 1 ==> (chunk_count(len, size) - 1) * size < len,
        len == 0 <==> chunk_count(len, size) == 0,
        chunk_count(len, size) <= len,
{
    let x = len + size - 1;
    let d = size as int;
    let c = x / d;
    vstd::arithmetic::div_mod::lemma_fundamental_div_mod(x, d);
    vstd::arithmetic::div_mod::lemma_mod_bound(x, d);
    vstd::arithmetic::div_mod::lemma_div_pos_is_pos(x, d);
    assert(c * d == d * c) by (nonlinear_arith);
    assert((c - 1) * d == c * d - d) by (nonlinear_arith);
    assert(c >= 1 ==> c * d >= c) by (nonlinear_arith)
        requires
            d >= 1,
    ;
    if c > len {
        assert((c - 1) * d >= c - 1) by (nonlinear_arith)
            requires
                d >= 1,
                c >= 1,
        ;
    }
}

/// Any count that covers the stream with no chunk to spare is the chunk count.
pub proof fn lemma_chunk_count_unique(len: nat, size: nat, k: nat)
    requires
        size >= 1,
        k * size >= len,
        k >= 1 ==> (k - 1) * size < len,
    ensures
        k == chunk_count(len, size),
{
    let c = chunk_count(len, size);
    lemma_chunk_count_is_ceiling(len, size);
    if k < c {
        lemma_bound_monotone(len, size, k, (c - 1) as nat);
    } else if k > c {
        lemma_bound_monotone(len, size, c, (k - 1) as nat);
    }
}

/// Every chunk before the last is full, the last holds what is left and is
/// not empty, and no chunk is longer than the chunk size.
pub proof fn lemma_chunk_len_bounds(len: nat, size: nat, i: nat)
    requires
        size >= 1,
        i < chunk_count(len, size),
    ensures
        1 <= chunk_len(len, size, i) <= size,
        i + 1 < chunk_count(len, size) ==> chunk_len(len, size, i) == size,
        i + 1 == chunk_count(len, size) ==> chunk_len(len, size, i) == len - i * size,
        chunk_bound(len, size, i) == i * size,
{
    let c = chunk_count(len, size);
    lemma_chunk_count_is_ceiling(len, size);
    lemma_bound_monotone(len, size, i, (c - 1) as nat);
    assert((i + 1) * size == i * size + size) by (nonlinear_arith);
    if i + 1 < c {
        lemma_bound_monotone(len, size, i + 1, (c - 1) as nat);
    }
}

/// The first `n` chunks, joined, are the stream up to where chunk `n` begins.
proof fn lemma_prefix_cover(source: Seq<u8>, size: nat, n: nat)
    requires
        size >= 1,
        n <= chunk_count(source.len(), size),
    ensures
        chunks_of(source, size).take(n as int).flatten() == source.take(
            chunk_bound(source.len(), size, n) as int,
        ),
        total_len(chunks_of(source, size).take(n as int)) == chunk_bound(source.len(), size, n),
    decreases n,
{
    let all = chunks_of(source, size);
    let len = source.len();
    if n == 0 {
        assert(all.take(0).flatten() =~= Seq::<u8>::empty());
        assert(source.take(0) =~= Seq::<u8>::empty());
    } else {
        let m = (n - 1) as nat;
        lemma_prefix_cover(source, size, m);
        lemma_bound_monotone(len, size, m, n);
        assert(all.take(n as int) =~= all.take(m as int).push(all[m as int]));
        assert(all.take(n as int).drop_last() =~= all.take(m as int));
        all.take(m as int).lemma_flatten_push(all[m as int]);
        assert(source.take(chunk_bound(len, size, m) as int) + chunk_of(source, size, m)
            =~= source.take(chunk_bound(len, size, n) as int));
    }
}

/// Joined in read order, the chunks are the stream: no byte is dropped, added
/// or moved.
pub proof fn lemma_chunks_cover(source: Seq<u8>, size: nat)
    requires
        size >= 1,
    ensures
        chunks_of(source, size).flatten() == source,
{
    let c = chunk_count(source.len(), size);
    lemma_chunk_count_is_ceiling(source.len(), size);
    lemma_prefix_cover(source, size, c);
    assert(chunks_of(source, size).take(c as int) =~= chunks_of(source, size));
    assert(source.take(source.len() as int) =~= source);
}

/// The chunk lengths add up to the stream's length.
pub proof fn lemma_chunk_lengths_sum(source: Seq<u8>, size: nat)
    requires
        size >= 1,
    ensures
        total_len(chunks_of(source, size)) == source.len(),
        chunks_of(source, size).len() == chunk_count(source.len(), size),
        forall|i: int|
            0 <= i < chunks_of(source, size).len() ==> (#[trigger] chunks_of(source, size)[i]).len()
                == chunk_len(source.len(), size, i as nat),
{
    let c = chunk_count(source.len(), size);
    lemma_chunk_count_is_ceiling(source.len(), size);
    lemma_prefix_cover(source, size, c);
    assert(chunks_of(source, size).take(c as int) =~= chunks_of(source, size));
    assert forall|i: int| 0 <= i < chunks_of(source, size).len() implies (
    #[trigger] chunks_of(source, size)[i]).len() == chunk_len(source.len(), size, i as nat) by {
        lemma_bound_monotone(source.len(), size, i as nat, (i + 1) as nat);
    }
}

/// One chunk of the source: its place in read order and its bytes.
#[derive(Debug, Clone, PartialEq, Eq)]
pub struct Chunk {
    pub index: usize,
    pub bytes: Vec<u8>,
}

/// `chunks` are exactly the chunks of `source` cut at `size` bytes, each
/// tagged with its place in read order.
pub open spec fn is_chunking(chunks: Seq<Chunk>, source: Seq<u8>, size: nat) -> bool {
    &&& chunks.len() == chunk_count(source.len(), size)
    &&& forall|i: int|
        0 <= i < chunks.len() ==> (#[trigger] chunks[i]).index == i && chunks[i].bytes@
            == chunk_of(source, size, i as nat)
}

/// The byte content of each chunk, in the order given.
pub open spec fn chunk_contents(chunks: Seq<Chunk>) -> Seq<Seq<u8>> {
    Seq::new(chunks.len(), |i: int| chunks[i].bytes@)
}

/// Cuts `source` into chunks of `chunk_size` bytes; the last one holds what is
/// left. An empty source gives no chunk.
pub fn split_bytes(source: &[u8], chunk_size: usize) -> (chunks: Vec<Chunk>)
    requires
        chunk_size >= 1,
    ensures
        is_chunking(chunks@, source@, chunk_size as nat),
        chunk_contents(chunks@) == chunks_of(source@, chunk_size as nat),
        chunk_contents(chunks@).flatten() == source@,
        total_len(chunk_contents(chunks@)) == source@.len(),
{
    let total = source.len();
    let ghost len = source@.len();
    let ghost size = chunk_size as nat;
    let mut chunks: Vec<Chunk> = Vec::new();
    let mut start: usize = 0;
    proof {
        lemma_chunk_count_is_ceiling(len, size);
    }
    while start < total
        invariant
            total == source@.len(),
            len == source@.len(),
            size == chunk_size,
            size >= 1,
            start <= total,
            chunks@.len() <= chunk_count(len, size),
            start == chunk_bound(len, size, chunks@.len()),
            start == total ==> chunks@.len() == chunk_count(len, size),
            forall|i: int|
                0 <= i < chunks@.len() ==> (#[trigger] chunks@[i]).index == i && chunks@[i].bytes@
                    == chunk_of(source@, size, i as nat),
        decreases total - start,
    {
        let ghost k = chunks@.len();
        let left = total - start;
        let take = if left < chunk_size {
            left
        } else {
            chunk_size
        };
        let end = start + take;
        proof {
            lemma_chunk_count_is_ceiling(len, size);
            assert((k + 1) * size == k * size + size) by (nonlinear_arith);
            if k >= chunk_count(len, size) {
                lemma_bound_monotone(len, size, chunk_count(len, size), k);
            }
            assert(start == k * size);
            assert(end == chunk_bound(len, size, k + 1));
            if end == total {
                lemma_chunk_count_unique(len, size, k + 1);
            } else {
                lemma_bound_monotone(len, size, k + 1, chunk_count(len, size));
                if k + 1 > chunk_count(len, size) {
                    lemma_bound_monotone(len, size, chunk_count(len, size), k + 1);
                }
            }
        }
        let piece = vstd::slice::slice_subrange(source, start, end);
        let bytes = vstd::slice::slice_to_vec(piece);
        let index = chunks.len();
        chunks.push(Chunk { index, bytes });
        start = end;
    }
    proof {
        assert(chunk_contents(chunks@) =~= chunks_of(source@, size));
        lemma_chunks_cover(source@, size);
        lemma_chunk_lengths_sum(source@, size);
    }
    chunks
}

/// Where the chunks of a stream lie, worked out from its length alone, for
/// streams too large to hold in memory.
#[derive(Debug, Clone, Copy, PartialEq, Eq)]
pub struct ChunkPlan {
    pub total_len: u64,
    pub chunk_size: u64,
}

impl ChunkPlan {
    /// A plan needs a chunk size of at least one byte.
    pub open spec fn valid(self) -> bool {
        self.chunk_size >= 1
    }

    /// Plans the cutting of `total_len` bytes into chunks of `chunk_size`.
    pub fn new(total_len: u64, chunk_size: u64) -> (plan: ChunkPlan)
        requires
            chunk_size >= 1,
        ensures
            plan.valid(),
            plan.total_len == total_len,
            plan.chunk_size == chunk_size,
    {
        ChunkPlan { total_len, chunk_size }
    }

    /// Number of chunks: the length over the chunk size, rounded up.
    pub fn count(&self) -> (n: u64)
        requires
            self.valid(),
        ensures
            n == chunk_count(self.total_len as nat, self.chunk_size as nat),
    {
        let whole = self.total_len / self.chunk_size;
        let rest = self.total_len % self.chunk_size;
        proof {
            let len = self.total_len as nat;
            let size = self.chunk_size as nat;
            vstd::arithmetic::div_mod::lemma_fundamental_div_mod(len as int, size as int);
            assert(size * whole == whole * size) by (nonlinear_arith);
            assert((whole + 1) * size == whole * size + size) by (nonlinear_arith);
            assert((whole - 1) * size == whole * size - size) by (nonlinear_arith);
            if rest == 0 {
                lemma_chunk_count_unique(len, size, whole as nat);
            } else {
                lemma_chunk_count_unique(len, size, (whole + 1) as nat);
                lemma_chunk_count_is_ceiling(len, size);
            }
        }
        if rest == 0 {
            whole
        } else {
            whole + 1
        }
    }

    /// Offset at which chunk `index` begins; the stream's length from the
    /// chunk count on.
    pub fn offset_of(&self, index: u64) -> (offset: u64)
        requires
            self.valid(),
        ensures
            offset == chunk_bound(self.total_len as nat, self.chunk_size as nat, index as nat),
    {
        let whole = self.total_len / self.chunk_size;
        proof {
            let len = self.total_len as nat;
            let size = self.chunk_size as nat;
            vstd::arithmetic::div_mod::lemma_fundamental_div_mod(len as int, size as int);
            vstd::arithmetic::div_mod::lemma_mod_bound(len as int, size as int);
            assert(size * whole == whole * size) by (nonlinear_arith);
            if index <= whole {
                lemma_bound_monotone(len, size, index as nat, whole as nat);
            } else {
                lemma_bound_monotone(len, size, (whole + 1) as nat, index as nat);
                assert((whole + 1) * size == whole * size + size) by (nonlinear_arith);
            }
        }
        if index <= whole {
            index * self.chunk_size
        } else {
            self.total_len
        }
    }

    /// Number of bytes in chunk `index`; zero from the chunk count on.
    pub fn len_of(&self, index: u64) -> (n: u64)
        requires
            self.valid(),
        ensures
            n == chunk_len(self.total_len as nat, self.chunk_size as nat, index as nat),
            n <= self.chunk_size,
    {
        let from = self.offset_of(index);
        let to = if index < u64::MAX {
            self.offset_of(index + 1)
        } else {
            self.total_len
        };
        proof {
            let len = self.total_len as nat;
            let size = self.chunk_size as nat;
            lemma_bound_monotone(len, size, index as nat, (index + 1) as nat);
            assert((index + 1) * size == index * size + size) by (nonlinear_arith);
            if index == u64::MAX {
                assert((index + 1) * size >= index + 1) by (nonlinear_arith)
                    requires
                        size >= 1,
                ;
            }
        }
        to - from
    }
}

} // verus!
