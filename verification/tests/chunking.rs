use chunkgz::chunker::split_bytes;
use chunkgz::chunker::Chunk;
use chunkgz::chunker::ChunkPlan;

fn sample(len: usize) -> Vec<u8> {
    (0..len).map(|i| (i * 31 % 251) as u8).collect()
}

fn joined(chunks: &[Chunk]) -> Vec<u8> {
    let mut all = Vec::new();
    for chunk in chunks {
        all.extend_from_slice(&chunk.bytes);
    }
    all
}

#[test]
fn empty_source_gives_no_chunk() {
    let chunks = split_bytes(&[], 4);
    assert!(chunks.is_empty());
}

#[test]
fn source_shorter_than_one_chunk_is_one_chunk() {
    let source = sample(5);
    let chunks = split_bytes(&source, 100);
    assert_eq!(chunks, vec![Chunk { index: 0, bytes: source.clone() }]);
}

#[test]
fn uneven_source_ends_in_a_short_chunk() {
    let source: Vec<u8> = vec![1, 2, 3, 4, 5, 6, 7];
    let chunks = split_bytes(&source, 3);
    assert_eq!(
        chunks,
        vec![
            Chunk { index: 0, bytes: vec![1, 2, 3] },
            Chunk { index: 1, bytes: vec![4, 5, 6] },
            Chunk { index: 2, bytes: vec![7] },
        ]
    );
}

#[test]
fn even_source_has_only_full_chunks() {
    let source: Vec<u8> = vec![9, 8, 7, 6];
    let chunks = split_bytes(&source, 2);
    assert_eq!(
        chunks,
        vec![Chunk { index: 0, bytes: vec![9, 8] }, Chunk { index: 1, bytes: vec![7, 6] }]
    );
}

#[test]
fn chunk_size_of_one_gives_one_chunk_per_byte() {
    let source = sample(9);
    let chunks = split_bytes(&source, 1);
    assert_eq!(chunks.len(), 9);
    for (i, chunk) in chunks.iter().enumerate() {
        assert_eq!(chunk.index, i);
        assert_eq!(chunk.bytes, vec![source[i]]);
    }
}

#[test]
fn chunks_cover_the_source_for_many_sizes() {
    for len in [0usize, 1, 2, 9, 10, 11, 99, 100, 101, 1000] {
        let source = sample(len);
        for size in [1usize, 2, 3, 10, 64, 100, 1001] {
            let chunks = split_bytes(&source, size);
            assert_eq!(chunks.len(), (len + size - 1) / size);
            assert_eq!(chunks.iter().map(|c| c.bytes.len()).sum::<usize>(), len);
            assert_eq!(joined(&chunks), source);
            for (i, chunk) in chunks.iter().enumerate() {
                assert_eq!(chunk.index, i);
                assert!(!chunk.bytes.is_empty());
                assert!(chunk.bytes.len() <= size);
                if i + 1 < chunks.len() {
                    assert_eq!(chunk.bytes.len(), size);
                }
            }
        }
    }
}

#[test]
fn plan_for_250_mb_in_100_mb_chunks() {
    let mb: u64 = 1_000_000;
    let plan = ChunkPlan::new(250 * mb, 100 * mb);
    assert_eq!(plan.count(), 3);
    assert_eq!(plan.len_of(0), 100 * mb);
    assert_eq!(plan.len_of(1), 100 * mb);
    assert_eq!(plan.len_of(2), 50 * mb);
    assert_eq!(plan.len_of(3), 0);
    assert_eq!(plan.offset_of(0), 0);
    assert_eq!(plan.offset_of(1), 100 * mb);
    assert_eq!(plan.offset_of(2), 200 * mb);
    assert_eq!(plan.offset_of(3), 250 * mb);
}

#[test]
fn plan_for_250_mib_in_default_chunks() {
    let mib: u64 = 1024 * 1024;
    let plan = ChunkPlan::new(250 * mib, chunkgz::config::DEFAULT_CHUNK_SIZE as u64);
    assert_eq!(chunkgz::config::DEFAULT_CHUNK_SIZE, 100 * 1024 * 1024);
    assert_eq!(plan.count(), 3);
    assert_eq!(plan.len_of(0) + plan.len_of(1) + plan.len_of(2), 250 * mib);
    assert_eq!(plan.len_of(2), 50 * mib);
}

#[test]
fn plan_of_an_empty_source_has_no_chunk() {
    let plan = ChunkPlan::new(0, 7);
    assert_eq!(plan.count(), 0);
    assert_eq!(plan.len_of(0), 0);
    assert_eq!(plan.offset_of(0), 0);
    assert_eq!(plan.offset_of(5), 0);
}

#[test]
fn plan_at_the_limits_of_u64() {
    let plan = ChunkPlan::new(u64::MAX, 1);
    assert_eq!(plan.count(), u64::MAX);
    assert_eq!(plan.len_of(u64::MAX - 1), 1);
    assert_eq!(plan.len_of(u64::MAX), 0);
    assert_eq!(plan.offset_of(u64::MAX), u64::MAX);
    let wide = ChunkPlan::new(u64::MAX, u64::MAX);
    assert_eq!(wide.count(), 1);
    assert_eq!(wide.len_of(0), u64::MAX);
    assert_eq!(wide.len_of(1), 0);
    let odd = ChunkPlan::new(10, u64::MAX);
    assert_eq!(odd.count(), 1);
    assert_eq!(odd.len_of(0), 10);
    assert_eq!(odd.offset_of(1), 10);
}

#[test]
fn plan_agrees_with_the_cut() {
    let source = sample(23);
    let chunks = split_bytes(&source, 5);
    let plan = ChunkPlan::new(23, 5);
    assert_eq!(plan.count(), chunks.len() as u64);
    for chunk in &chunks {
        assert_eq!(plan.len_of(chunk.index as u64), chunk.bytes.len() as u64);
        let from = plan.offset_of(chunk.index as u64) as usize;
        assert_eq!(&source[from..from + chunk.bytes.len()], &chunk.bytes[..]);
    }
}
