use block_alloc::block::AllocBlock;
use block_alloc::defs::{BLOCK_SIZE, CHUNK_COUNT, CHUNK_SIZE};
use block_alloc::descriptors::free_desc::FreeDesc;
use block_alloc::error::AllocError;

fn fresh() -> Box<AllocBlock> {
    let mut block = Box::new(AllocBlock::new());
    block.initialize();
    block
}

fn words(block: &AllocBlock) -> Vec<u32> {
    (0..CHUNK_COUNT).map(|i| block.descriptors().load(i)).collect()
}

fn rounded(size: usize) -> usize {
    size.next_power_of_two().max(16)
}

#[test]
fn requests_before_initialization() {
    let mut block = AllocBlock::new();
    for size in [0, 16, 512, BLOCK_SIZE / 2, BLOCK_SIZE] {
        assert_eq!(block.allocate(size), Err(AllocError::Inval));
    }
}

#[test]
fn requests_that_are_too_large() {
    let mut block = fresh();
    assert_eq!(block.allocate(BLOCK_SIZE / 2 + 1), Err(AllocError::Inval));
    assert_eq!(block.allocate(usize::MAX), Err(AllocError::Inval));
    assert_eq!(block.allocate(BLOCK_SIZE / 2), Ok(BLOCK_SIZE / 2));
    assert_eq!(block.allocate(BLOCK_SIZE / 2), Err(AllocError::NoMem));
}

#[test]
fn first_offsets() {
    // An empty request is served like the smallest one, after the bitmap.
    assert_eq!(fresh().allocate(0), Ok(512 + 32));
    assert_eq!(fresh().allocate(16), Ok(512 + 32));
    assert_eq!(fresh().allocate(17), Ok(512));
    assert_eq!(fresh().allocate(256), Ok(512));
    assert_eq!(fresh().allocate(257), Ok(512));
    assert_eq!(fresh().allocate(512), Ok(512));
    assert_eq!(fresh().allocate(513), Ok(1024));
    assert_eq!(fresh().allocate(3000), Ok(4096));
    assert_eq!(fresh().allocate(16385), Ok(32768));
}

#[test]
fn parts_share_a_chunk() {
    let mut block = fresh();
    assert_eq!(block.allocate(100), Ok(512));
    assert_eq!(block.allocate(128), Ok(640));
    // Another size of parts takes another chunk.
    assert_eq!(block.allocate(60), Ok(1024));
    assert_eq!(block.allocate(65), Ok(768));
    assert_eq!(block.allocate(70), Ok(896));
    // The chunk is full.
    assert_eq!(block.allocate(80), Ok(1536));
    block.free(768);
    assert_eq!(block.allocate(90), Ok(768));
}

#[test]
fn shortest_run_that_is_long_enough_is_split() {
    let mut block = fresh();
    assert_eq!(block.allocate(512), Ok(512));
    // The next single chunk comes from the run of two chunks.
    assert_eq!(block.allocate(512), Ok(1024));
    assert_eq!(block.allocate(512), Ok(1536));
    // Then the run of four chunks is cut into one, one and two.
    assert_eq!(block.allocate(512), Ok(2048));
    assert_eq!(block.allocate(1024), Ok(3072));
    assert_eq!(block.allocate(512), Ok(2560));
}

#[test]
fn whole_block_in_single_chunks() {
    let mut block = fresh();
    let initial = words(&block);
    let mut offsets = Vec::new();
    for _ in 1..CHUNK_COUNT {
        offsets.push(block.allocate(CHUNK_SIZE).unwrap());
    }
    assert_eq!(block.allocate(CHUNK_SIZE), Err(AllocError::NoMem));
    assert_eq!(block.allocate(1), Err(AllocError::NoMem));
    let mut sorted = offsets.clone();
    sorted.sort();
    let expected: Vec<usize> = (1..CHUNK_COUNT).map(|i| i * CHUNK_SIZE).collect();
    assert_eq!(sorted, expected);
    // The order of freeing does not matter.
    for i in 0..offsets.len() {
        block.free(offsets[(i * 50) % offsets.len()]);
    }
    assert_eq!(words(&block), initial);
}

#[test]
fn free_restores_the_layout() {
    let mut block = fresh();
    for size in [1, 30, 700, 5000, 16, 200] {
        block.allocate(size).unwrap();
    }
    for size in [0, 16, 17, 64, 100, 256, 300, 512, 2000, 4096, 10000] {
        let before = words(&block);
        let offset = block.allocate(size).unwrap();
        assert!(words(&block) != before || size <= 16);
        block.free(offset);
        assert_eq!(words(&block), before);
    }
}

#[test]
fn failed_request_changes_nothing() {
    let mut block = fresh();
    block.allocate(BLOCK_SIZE / 2).unwrap();
    let before = words(&block);
    assert_eq!(block.allocate(BLOCK_SIZE / 2), Err(AllocError::NoMem));
    assert_eq!(block.allocate(BLOCK_SIZE / 2 + 1), Err(AllocError::Inval));
    assert_eq!(words(&block), before);
}

#[test]
fn chunk_of_smallest_parts_is_marked_when_it_turns_out_to_be_full() {
    let mut block = fresh();
    for k in 0..30 {
        assert_eq!(block.allocate(16), Ok(512 + 32 + 16 * k));
    }
    assert_eq!(block.allocate(16), Err(AllocError::NoMem));
    // From now on the chunk is passed over.
    assert_eq!(block.allocate(16), Ok(1024 + 32));
    block.free(512 + 64);
    assert_eq!(block.allocate(16), Ok(512 + 64));
}

#[test]
fn any_offset_into_the_first_chunk_frees_a_run() {
    let mut block = fresh();
    let initial = words(&block);
    let offset = block.allocate(2048).unwrap();
    assert!(block.is_allocated(offset + 511));
    assert!(!block.is_allocated(offset + 512));
    block.free(offset + 511);
    assert_eq!(words(&block), initial);
}

#[test]
fn what_can_be_freed() {
    let mut block = fresh();
    assert!(!block.is_allocated(0));
    assert!(!block.is_allocated(512));
    assert!(!block.is_allocated(BLOCK_SIZE));
    assert!(!block.is_allocated(usize::MAX));
    let offset = block.allocate(32).unwrap();
    assert!(block.is_allocated(offset));
    assert!(!block.is_allocated(offset + 1));
    assert!(!block.is_allocated(offset + 32));
    let small = block.allocate(16).unwrap();
    assert!(block.is_allocated(small));
    assert!(!block.is_allocated(small - 16));
    block.free(offset);
    assert!(!block.is_allocated(offset));
}

#[test]
fn allocated_memory_is_aligned_and_disjoint() {
    let mut block = fresh();
    let initial = words(&block);
    let mut live: Vec<(usize, usize)> = Vec::new();
    let mut seed: u32 = 12345;
    for _ in 0..3000 {
        seed = seed.wrapping_mul(1664525).wrapping_add(1013904223);
        let pick = (seed >> 8) as usize;
        if pick % 3 == 0 && !live.is_empty() {
            let (offset, _) = live.swap_remove(pick % live.len());
            assert!(block.is_allocated(offset));
            block.free(offset);
        } else {
            let size = 1 + (pick >> 4) % (1 << ((seed >> 28) % 13 + 1));
            let n = rounded(size);
            match block.allocate(size) {
                Ok(offset) => {
                    assert_eq!(offset % n, 0);
                    assert!(CHUNK_SIZE <= offset && offset + n <= BLOCK_SIZE);
                    for (a, m) in &live {
                        assert!(offset + n <= *a || a + m <= offset);
                    }
                    live.push((offset, n));
                }
                Err(e) => assert_eq!(e, AllocError::NoMem),
            }
        }
    }
    for (offset, _) in live {
        block.free(offset);
    }
    assert_eq!(words(&block), initial);
}

#[test]
fn freed_memory_can_be_had_again() {
    let mut block = fresh();
    let mut runs = Vec::new();
    while let Ok(offset) = block.allocate(2048) {
        runs.push(offset);
    }
    assert_eq!(runs.len(), 31);
    block.free(runs[7]);
    assert_eq!(block.allocate(2048), Ok(runs[7]));
    block.free(runs[7]);
    // A smaller request is served from the same memory, if nothing shorter is
    // left, and so are parts.
    while block.allocate(512).is_ok() {}
    block.free(runs[8]);
    assert_eq!(block.allocate(1000), Ok(runs[8]));
    assert_eq!(block.allocate(64), Ok(runs[8] + 1024));
    block.free(runs[8] + 1024);
    assert_eq!(block.allocate(100), Ok(runs[8] + 1024));
}

#[test]
fn smallest_parts_go_to_the_first_chunk_that_is_not_marked() {
    let mut block = fresh();
    for _ in 0..30 {
        block.allocate(16).unwrap();
    }
    assert_eq!(block.allocate(16), Err(AllocError::NoMem));
    assert_eq!(block.allocate(16), Ok(1024 + 32));
    assert_eq!(block.allocate(16), Ok(1024 + 48));
    // Freeing takes the mark away from the first chunk, which then is filled
    // up again.
    block.free(512 + 32);
    assert_eq!(block.allocate(16), Ok(512 + 32));
    block.free(1024 + 32);
    assert_eq!(block.allocate(16), Err(AllocError::NoMem));
    assert_eq!(block.allocate(16), Ok(1024 + 32));
}

#[test]
fn freeing_one_leaves_the_others() {
    let mut block = fresh();
    let offsets: Vec<usize> = [16, 700, 16, 300, 64, 64, 9000]
        .iter()
        .map(|size| block.allocate(*size).unwrap())
        .collect();
    for i in 0..offsets.len() {
        block.free(offsets[i]);
        assert!(!block.is_allocated(offsets[i]));
        for other in &offsets[i + 1..] {
            assert!(block.is_allocated(*other));
        }
    }
}

fn free_runs(block: &AllocBlock) -> Vec<(usize, usize)> {
    let mut runs = Vec::new();
    for i in 1..CHUNK_COUNT {
        if let Ok(free) = FreeDesc::try_from(block.load_desc(i)) {
            runs.push((i, 1 << free.get_order()));
        }
    }
    runs
}

fn free_chunks(block: &AllocBlock) -> usize {
    free_runs(block).iter().map(|run| run.1).sum()
}

#[test]
fn freed_run_becomes_part_of_one_free_run() {
    let mut block = fresh();
    assert_eq!(free_chunks(&block), CHUNK_COUNT - 1);
    let mut held = Vec::new();
    for (size, chunks) in [(512, 1), (2048, 4), (1024, 2), (512, 1), (8192, 16), (512, 1), (100, 1)] {
        let before = free_chunks(&block);
        held.push((block.allocate(size).unwrap(), chunks));
        assert_eq!(free_chunks(&block), before - chunks);
    }
    for (offset, chunks) in held {
        let before = free_chunks(&block);
        block.free(offset);
        assert_eq!(free_chunks(&block), before + chunks);
        let first = offset / CHUNK_SIZE;
        let around = free_runs(&block)
            .into_iter()
            .filter(|run| run.0 <= first && first + chunks <= run.0 + run.1)
            .count();
        assert_eq!(around, 1);
    }
    assert_eq!(free_chunks(&block), CHUNK_COUNT - 1);
}

#[test]
fn part_that_is_not_the_last_one_frees_no_chunk() {
    let mut block = fresh();
    let first = block.allocate(100).unwrap();
    let second = block.allocate(100).unwrap();
    let before = free_chunks(&block);
    block.free(first);
    assert_eq!(free_chunks(&block), before);
    block.free(second);
    assert_eq!(free_chunks(&block), before + 1);
}

#[test]
fn only_descriptors_of_changed_chunks_are_written() {
    let mut block = fresh();
    // A bit that no one has a use for tells whether a word was kept.
    for i in [2, 3, 8, 9, 64, 100] {
        let word = block.descriptors().load(i) | 0x8000;
        block.descriptors_mut().store(i, word);
    }
    let before = words(&block);
    assert_eq!(block.allocate(2048), Ok(2048));
    let after = words(&block);
    let changed: Vec<usize> = (0..CHUNK_COUNT).filter(|i| before[*i] != after[*i]).collect();
    assert_eq!(changed, vec![4]);
    // The smallest parts are found in the chunk itself.
    assert_eq!(block.allocate(16), Ok(512 + 32));
    let marked = words(&block);
    assert_eq!(block.allocate(16), Ok(512 + 48));
    block.free(512 + 48);
    assert_eq!(words(&block), marked);
    block.free(512 + 32);
    block.free(2048);
    assert_eq!(words(&block), before);
}
