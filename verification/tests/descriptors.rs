use block_alloc::bits::ilog2;
use block_alloc::block::{AllocBlock, ChunkIterator, MetaChunk};
use block_alloc::defs::CHUNK_COUNT;
use block_alloc::descriptors::alloc_desc::AllocDesc;
use block_alloc::descriptors::compound_desc::CompoundDesc;
use block_alloc::descriptors::desc_storage::{DescStorage, RawDescType};
use block_alloc::descriptors::free_desc::FreeDesc;
use block_alloc::descriptors::meta_desc::MetaDesc;
use block_alloc::descriptors::parts_desc::{bitmap_in_desc, PartsDesc};
use block_alloc::error::AllocError;

fn fresh() -> Box<AllocBlock> {
    let mut block = Box::new(AllocBlock::new());
    block.initialize();
    block
}

fn words(meta: &MetaChunk) -> Vec<u32> {
    (0..CHUNK_COUNT).map(|i| meta.load(i)).collect()
}

fn kind(block: &AllocBlock, index: usize) -> Result<RawDescType, AllocError> {
    block.load_desc(index).desc_type()
}

#[test]
fn storage_round_trip() {
    let desc = DescStorage::new();
    assert_eq!(desc.word, 0);
    assert_eq!(desc.get_type(), Err(AllocError::Inval));
    for t in [
        RawDescType::Meta,
        RawDescType::Free,
        RawDescType::Alloc,
        RawDescType::Compound,
        RawDescType::Parts,
    ] {
        let typed = DescStorage::init(u32::MAX).encode_type(t);
        assert_eq!(typed.get_type(), Ok(t));
        assert_eq!(typed.get_order(), 15);
        assert_eq!(typed.get_bitmap(), 0xffff);
        assert!(typed.is_locked() && typed.is_full());
    }
    for order in 0..16 {
        let ordered = desc.encode_type(RawDescType::Free).encode_order(order);
        assert_eq!(ordered.get_order(), order);
        assert_eq!(ordered.get_type(), Ok(RawDescType::Free));
    }
    for size in [16, 32, 64, 128, 256] {
        let parts = desc.encode_parts_size(size).encode_bitmap(0xa5a5);
        assert_eq!(parts.get_parts_size(), size);
        assert_eq!(parts.get_bitmap(), 0xa5a5);
    }
    assert_eq!(DescStorage::init(6).get_type(), Err(AllocError::Inval));
    assert_eq!(DescStorage::init(7).get_type(), Err(AllocError::Inval));
}

#[test]
fn storage_flags() {
    let desc = DescStorage::new().encode_type(RawDescType::Parts).encode_bitmap(3);
    let locked = desc.set_lock();
    assert!(locked.is_locked() && !locked.is_full());
    assert_eq!(locked.clear_lock(), desc);
    let full = locked.set_full();
    assert!(full.is_locked() && full.is_full());
    assert_eq!(full.clear_full(), locked);
    assert_eq!(full.get_bitmap(), 3);
}

#[test]
fn logarithms() {
    assert_eq!(ilog2(1), 0);
    assert_eq!(ilog2(2), 1);
    assert_eq!(ilog2(3), 1);
    assert_eq!(ilog2(64), 6);
    assert_eq!(ilog2(65535), 15);
    assert_eq!(ilog2(65536), 16);
    assert_eq!(ilog2(usize::MAX), usize::BITS - 1);
}

#[test]
fn bitmaps_in_descriptors() {
    assert!(!bitmap_in_desc(16));
    assert!(!bitmap_in_desc(30));
    assert!(bitmap_in_desc(31));
    assert!(bitmap_in_desc(32));
    assert!(bitmap_in_desc(256));
}

#[test]
fn new_block_has_no_descriptors() {
    let block = Box::new(AllocBlock::default());
    assert!(words(block.descriptors()).iter().all(|w| *w == 0));
    assert_eq!(kind(&block, 0), Err(AllocError::Inval));
    let mut iter = ChunkIterator { block: &block, next_index: 1 };
    assert!(matches!(iter.next(), Some(Err(AllocError::Inval))));
    assert!(matches!(iter.next(), Some(Err(AllocError::Inval))));
    assert_eq!(iter.next_index, 1);
}

#[test]
fn initial_layout() {
    let block = fresh();
    assert_eq!(kind(&block, 0), Ok(RawDescType::Meta));
    for i in 1..CHUNK_COUNT {
        let desc = block.load_desc(i);
        if i.is_power_of_two() {
            let free = FreeDesc::try_from(desc).unwrap();
            assert_eq!(free.get_order(), i.trailing_zeros());
        } else {
            assert_eq!(desc.desc_type(), Ok(RawDescType::Compound));
        }
    }
}

#[test]
fn initialize_again_forgets_everything() {
    let mut block = fresh();
    let initial = words(block.descriptors());
    block.allocate(100).unwrap();
    block.allocate(5000).unwrap();
    assert!(words(block.descriptors()) != initial);
    block.initialize();
    assert_eq!(words(block.descriptors()), initial);
}

#[test]
fn iterator_visits_run_starts() {
    let block = fresh();
    let mut iter = ChunkIterator { block: &block, next_index: 1 };
    let mut seen = Vec::new();
    while let Some(desc) = iter.next() {
        seen.push(desc.unwrap().index());
    }
    assert_eq!(seen, vec![1, 2, 4, 8, 16, 32, 64]);
    assert!(iter.next().is_none());
    assert_eq!(iter.next_index, CHUNK_COUNT);
}

#[test]
fn iterator_skips_the_rest_of_a_run() {
    let block = fresh();
    let mut iter = ChunkIterator { block: &block, next_index: 37 };
    let first = iter.next().unwrap().unwrap();
    assert_eq!(first.index(), 37);
    assert_eq!(first.desc_type(), Ok(RawDescType::Compound));
    assert_eq!(iter.next_index, 64);
    let mut tail = ChunkIterator { block: &block, next_index: 65 };
    tail.next();
    assert_eq!(tail.next_index, CHUNK_COUNT);
    let mut meta = ChunkIterator { block: &block, next_index: 0 };
    assert_eq!(meta.next().unwrap().unwrap().desc_type(), Ok(RawDescType::Meta));
    assert_eq!(meta.next_index, 1);
}

#[test]
fn outdated_descriptor_is_refused() {
    let mut block = fresh();
    let mut first = block.load_desc(4);
    let mut second = block.load_desc(4);
    let desc = first.value().encode_type(RawDescType::Alloc);
    assert_eq!(first.update(&mut block, desc), Ok(()));
    assert_eq!(first.value(), desc);
    let other = second.value().encode_order(1);
    assert_eq!(second.update(&mut block, other), Err(AllocError::Retry));
    assert_eq!(block.load_desc(4).value(), desc);
}

#[test]
fn free_run_goes_to_one_holder() {
    let mut block = fresh();
    let first = FreeDesc::try_from(block.load_desc(8)).unwrap();
    let second = FreeDesc::try_from(block.load_desc(8)).unwrap();
    let run = first.allocate(&mut block).unwrap();
    assert_eq!(run.index(), 8);
    assert_eq!(run.get_order(), 3);
    assert!(matches!(second.allocate(&mut block), Err(AllocError::Retry)));
}

#[test]
fn descriptors_check_their_type() {
    let block = fresh();
    let blank = AllocBlock::new();
    assert!(matches!(FreeDesc::try_from(block.load_desc(0)), Err(AllocError::TypeMismatch)));
    assert!(matches!(FreeDesc::try_from(blank.load_desc(1)), Err(AllocError::Inval)));
    assert!(matches!(AllocDesc::try_from(block.load_desc(1)), Err(AllocError::TypeMismatch)));
    assert!(matches!(AllocDesc::try_from(blank.load_desc(1)), Err(AllocError::Inval)));
    assert!(matches!(PartsDesc::try_from(block.load_desc(1)), Err(AllocError::TypeMismatch)));
    assert!(matches!(PartsDesc::try_from(blank.load_desc(1)), Err(AllocError::Inval)));
}

#[test]
fn stored_descriptors_can_be_loaded() {
    let mut block = AllocBlock::new();
    MetaDesc::new(0, DescStorage::new()).store(&mut block);
    CompoundDesc::new(5, DescStorage::new()).store(&mut block);
    let mut free = FreeDesc::new(4, DescStorage::new());
    free.set_order(2);
    free.store(&mut block);
    assert_eq!(kind(&block, 0), Ok(RawDescType::Meta));
    assert_eq!(kind(&block, 5), Ok(RawDescType::Compound));
    assert_eq!(FreeDesc::try_from(block.load_desc(4)).unwrap().get_order(), 2);
    assert_eq!(kind(&block, 6), Err(AllocError::Inval));
}

#[test]
fn split_and_merge() {
    let mut block = fresh();
    let initial = words(block.descriptors());
    let run = FreeDesc::try_from(block.load_desc(16)).unwrap().allocate(&mut block).unwrap();
    let (low, high) = run.split(&mut block);
    assert_eq!((low.index(), low.get_order()), (16, 3));
    assert_eq!((high.index(), high.get_order()), (24, 3));
    assert_eq!(kind(&block, 24), Ok(RawDescType::Alloc));
    // The buddy is in use.
    let low = low.try_merge(&mut block).unwrap_err();
    let free = high.free(&mut block);
    assert_eq!(free.get_order(), 3);
    let run = low.try_merge(&mut block).unwrap();
    assert_eq!((run.index(), run.get_order()), (16, 4));
    assert_eq!(kind(&block, 24), Ok(RawDescType::Compound));
    // The buddy is the chunk of the descriptors, for which the run is too short.
    let run = run.try_merge(&mut block).unwrap_err();
    run.free(&mut block);
    assert_eq!(words(block.descriptors()), initial);
}

#[test]
fn merge_with_the_lower_buddy() {
    let mut block = fresh();
    let run = FreeDesc::try_from(block.load_desc(32)).unwrap().allocate(&mut block).unwrap();
    let (low, high) = run.split(&mut block);
    low.free(&mut block);
    let run = high.try_merge(&mut block).unwrap();
    assert_eq!((run.index(), run.get_order()), (32, 5));
}

#[test]
fn longest_run_is_not_merged() {
    let mut block = fresh();
    let run = FreeDesc::try_from(block.load_desc(64)).unwrap().allocate(&mut block).unwrap();
    assert_eq!(run.get_order(), 6);
    assert_eq!(run.try_merge(&mut block).unwrap_err().index(), 64);
}

fn parts_chunk(block: &mut AllocBlock, size: usize) -> PartsDesc {
    let run = FreeDesc::try_from(block.load_desc(1)).unwrap().allocate(block).unwrap();
    run.make_parts(block, size)
}

#[test]
fn all_parts_of_a_chunk() {
    for (size, first, count) in [(16, 2, 30), (32, 0, 16), (64, 0, 8), (128, 0, 4), (256, 0, 2)] {
        let mut block = fresh();
        let mut parts = parts_chunk(&mut block, size);
        assert_eq!(parts.index(), 1);
        assert_eq!(parts.alloc_size(), size);
        assert!(!parts.is_full());
        for k in 0..count {
            assert_eq!(parts.alloc_part(&mut block), Ok((first + k) * size));
        }
        assert_eq!(parts.alloc_part(&mut block), Err(AllocError::NoMem));
        let again = PartsDesc::try_from(block.load_desc(1)).unwrap();
        assert!(again.is_full());
        assert_eq!(again.bitmap_load(&block).count_ones() as usize, count);
        // The lowest part that is not in use is handed out next.
        assert_eq!(parts.free_part(&mut block, (first + 1) * size), Ok(false));
        assert!(!PartsDesc::try_from(block.load_desc(1)).unwrap().is_full());
        assert_eq!(parts.alloc_part(&mut block), Ok((first + 1) * size));
        for k in 0..count {
            let empty = parts.free_part(&mut block, (first + k) * size);
            assert_eq!(empty, Ok(k + 1 == count));
        }
        assert_eq!(parts.bitmap_load(&block), 0);
    }
}

#[test]
fn smallest_parts_are_marked_as_full_late() {
    let mut block = fresh();
    let mut parts = parts_chunk(&mut block, 16);
    for _ in 0..30 {
        parts.alloc_part(&mut block).unwrap();
    }
    assert!(!PartsDesc::try_from(block.load_desc(1)).unwrap().is_full());
    assert_eq!(parts.alloc_part(&mut block), Err(AllocError::NoMem));
    assert!(PartsDesc::try_from(block.load_desc(1)).unwrap().is_full());
}

#[test]
fn outdated_parts_descriptor_is_refused() {
    for size in [16, 64] {
        let mut block = fresh();
        let mut parts = parts_chunk(&mut block, size);
        let offset = parts.alloc_part(&mut block).unwrap();
        let mut old = parts;
        // The chunk goes back to the free memory and is taken anew.
        assert_eq!(parts.free_part(&mut block, offset), Ok(true));
        let run = parts.try_to_alloc(&mut block).unwrap();
        run.free(&mut block);
        assert_eq!(old.alloc_part(&mut block), Err(AllocError::Retry));
        assert_eq!(old.free_part(&mut block, offset), Err(AllocError::Retry));
        assert_eq!(old.store(&mut block), Err(AllocError::Retry));
        assert_eq!(kind(&block, 1), Ok(RawDescType::Free));
    }
}

#[test]
fn lock_of_the_smallest_parts() {
    let mut block = fresh();
    let mut parts = parts_chunk(&mut block, 16);
    parts.alloc_part(&mut block).unwrap();
    let mut old = parts;
    let mut guard = parts.try_lock(&mut block).unwrap();
    assert!(!guard.empty());
    assert!(guard.locked().unwrap().block.load_desc(1).value().is_locked());
    // Neither the descriptor from before nor the one from now takes the lock.
    assert!(matches!(old.try_lock(guard.locked().unwrap().block), Err(AllocError::Retry)));
    let mut now = PartsDesc::try_from(guard.locked().unwrap().block.load_desc(1)).unwrap();
    assert!(matches!(now.try_lock(guard.locked().unwrap().block), Err(AllocError::Retry)));
    assert_eq!(guard.try_alloc(), Ok(48));
    assert_eq!(guard.free(32), Ok(false));
    assert_eq!(guard.free(48), Ok(true));
    assert!(guard.empty());
    guard.unlock();
    assert!(!block.load_desc(1).value().is_locked());
    assert!(!parts.locked);
}

#[test]
fn lock_of_larger_parts_is_not_in_the_block() {
    let mut block = fresh();
    let mut parts = parts_chunk(&mut block, 128);
    let mut guard = parts.try_lock(&mut block).unwrap();
    assert!(!guard.locked().unwrap().block.load_desc(1).value().is_locked());
    assert!(guard.locked().unwrap().parts_desc.locked);
    assert_eq!(guard.try_alloc(), Ok(0));
    guard.unlock();
    assert!(!parts.locked);
    let mut held = parts;
    held.locked = true;
    assert!(matches!(held.try_lock(&mut block), Err(AllocError::Retry)));
}

#[test]
fn chunk_of_parts_is_taken_back_when_empty() {
    for size in [16, 256] {
        let mut block = fresh();
        let mut parts = parts_chunk(&mut block, size);
        let offset = parts.alloc_part(&mut block).unwrap();
        assert!(matches!(parts.try_to_alloc(&mut block), Err(AllocError::Inval)));
        assert_eq!(kind(&block, 1), Ok(RawDescType::Parts));
        assert!(!block.load_desc(1).value().is_locked());
        parts.free_part(&mut block, offset).unwrap();
        let run = parts.try_to_alloc(&mut block).unwrap();
        assert_eq!((run.index(), run.get_order()), (1, 0));
        assert_eq!(kind(&block, 1), Ok(RawDescType::Alloc));
        assert!(matches!(parts.try_to_alloc(&mut block), Err(AllocError::TypeMismatch)));
        let mut blank = AllocBlock::new();
        assert!(matches!(parts.try_to_alloc(&mut blank), Err(AllocError::Inval)));
    }
}

#[test]
fn prepared_parts_descriptor_is_not_in_the_block() {
    let mut block = fresh();
    let run = FreeDesc::try_from(block.load_desc(1)).unwrap().allocate(&mut block).unwrap();
    let mut parts = PartsDesc::from_alloc(run, 64);
    assert_eq!(kind(&block, 1), Ok(RawDescType::Alloc));
    assert_eq!(parts.bitmap_store(&mut block, 5), Ok(()));
    assert_eq!(parts.store(&mut block), Ok(()));
    let loaded = PartsDesc::from_raw(block.load_desc(1));
    assert_eq!(loaded.alloc_size(), 64);
    assert_eq!(loaded.bitmap_load(&block), 5);
}

#[test]
fn bitmap_at_the_start_of_the_chunk() {
    let mut block = fresh();
    let mut parts = parts_chunk(&mut block, 16);
    assert_eq!(parts.bitmap_store(&mut block, 0x8421_0844), Ok(()));
    assert_eq!(block.chunk_bitmap(1), 0x8421_0844);
    assert_eq!(parts.bitmap_load(&block), 0x8421_0844);
    assert_eq!(block.load_desc(1).value().get_bitmap(), 0);
}

#[test]
fn initial_words() {
    let block = fresh();
    let meta = DescStorage::new().encode_type(RawDescType::Meta).word;
    let rest = DescStorage::new().encode_type(RawDescType::Compound).word;
    for (i, word) in words(block.descriptors()).into_iter().enumerate() {
        if i == 0 {
            assert_eq!(word, meta);
        } else if i.is_power_of_two() {
            let free = DescStorage::new().encode_type(RawDescType::Free);
            assert_eq!(word, free.encode_order(i.trailing_zeros()).word);
            assert_eq!(word >> 4, i.trailing_zeros());
        } else {
            assert_eq!(word, rest);
        }
    }
}

#[test]
fn descriptors_can_be_replaced() {
    let mut block = fresh();
    let mut expected = words(block.descriptors());
    block.descriptors_mut().store(9, 0x1234_5678);
    expected[9] = 0x1234_5678;
    assert_eq!(words(block.descriptors()), expected);
    assert_eq!(block.load_desc(9).value().word, 0x1234_5678);
    assert_eq!(block.descriptors_mut().update(9, 0x1234_5678, 7), Ok(()));
    expected[9] = 7;
    assert_eq!(words(block.descriptors()), expected);
    assert_eq!(block.descriptors_mut().update(9, 0x1234_5678, 8), Err(AllocError::Retry));
    assert_eq!(words(block.descriptors()), expected);
}

#[test]
fn locked_chunk_is_not_taken_back() {
    let mut block = fresh();
    let mut parts = parts_chunk(&mut block, 16);
    let old = parts;
    let mut guard = parts.try_lock(&mut block).unwrap();
    let before = words(guard.locked().unwrap().block.descriptors());
    assert!(matches!(old.try_to_alloc(guard.locked().unwrap().block), Err(AllocError::Retry)));
    let now = PartsDesc::try_from(guard.locked().unwrap().block.load_desc(1)).unwrap();
    assert!(matches!(now.try_to_alloc(guard.locked().unwrap().block), Err(AllocError::Retry)));
    assert_eq!(words(guard.locked().unwrap().block.descriptors()), before);
    guard.unlock();
    assert_eq!(old.try_to_alloc(&mut block).unwrap().index(), 1);
}

#[test]
fn lock_holds_against_a_descriptor_of_larger_parts() {
    let mut block = fresh();
    let large = parts_chunk(&mut block, 64);
    let mut old = large;
    let run = large.try_to_alloc(&mut block).unwrap();
    let mut parts = run.make_parts(&mut block, 16);
    let mut guard = parts.try_lock(&mut block).unwrap();
    let before = words(guard.locked().unwrap().block.descriptors());
    // Its own lock can be taken, but nothing can be done under it.
    assert_eq!(old.alloc_part(guard.locked().unwrap().block), Err(AllocError::Retry));
    assert_eq!(old.store(guard.locked().unwrap().block), Err(AllocError::Retry));
    assert_eq!(words(guard.locked().unwrap().block.descriptors()), before);
    guard.unlock();
}

#[test]
fn splitting_and_joining_write_two_descriptors() {
    let mut block = fresh();
    // Bits that no one has a use for stay where they are.
    let odd = DescStorage::init(block.load_desc(32).value().word | 0x8008);
    block.descriptors_mut().store(32, odd.word);
    let run = FreeDesc::try_from(block.load_desc(32)).unwrap().allocate(&mut block).unwrap();
    let before = words(block.descriptors());
    let (low, high) = run.split(&mut block);
    let after = words(block.descriptors());
    let changed: Vec<usize> = (0..CHUNK_COUNT).filter(|i| before[*i] != after[*i]).collect();
    assert_eq!(changed, vec![32, 48]);
    assert_eq!(after[32] & 0x8008, 0x8008);
    assert_eq!(after[32], after[48]);
    low.free(&mut block);
    let run = high.try_merge(&mut block).unwrap();
    assert_eq!(run.index(), 32);
    assert_eq!(words(block.descriptors()), before);
}

#[test]
fn dropped_guard_gives_the_lock_back() {
    for size in [16, 128] {
        let mut block = fresh();
        let mut parts = parts_chunk(&mut block, size);
        let before = words(block.descriptors());
        {
            let mut guard = parts.try_lock(&mut block).unwrap();
            let chunk = guard.locked().unwrap();
            assert_eq!(chunk.block.load_desc(1).value().is_locked(), size == 16);
            assert!(chunk.parts_desc.locked);
        }
        assert!(!parts.locked);
        assert_eq!(words(block.descriptors()), before);
        drop(parts.try_lock(&mut block).unwrap());
        assert!(!parts.locked);
        assert_eq!(words(block.descriptors()), before);
        parts.try_lock(&mut block).unwrap().unlock();
        assert!(!parts.locked);
        assert_eq!(words(block.descriptors()), before);
        assert!(parts.alloc_part(&mut block).is_ok());
    }
}

#[test]
fn first_chunk_is_not_taken_back() {
    let mut block = fresh();
    let mut parts = parts_chunk(&mut block, 64);
    let before = words(block.descriptors());
    parts.raw = block.load_desc(0);
    assert!(matches!(parts.try_to_alloc(&mut block), Err(AllocError::TypeMismatch)));
    assert_eq!(words(block.descriptors()), before);
}

#[test]
fn runs_by_their_descriptors() {
    let mut block = fresh();
    let before = words(block.descriptors());
    let first = block.alloc_buddy_desc(3).unwrap();
    assert_eq!((first.index(), first.get_order()), (8, 3));
    let second = block.alloc_buddy_desc(3).unwrap();
    assert_eq!((second.index(), second.get_order()), (16, 3));
    assert!(matches!(block.alloc_buddy_desc(7), Err(AllocError::NoMem)));
    assert!(matches!(block.alloc_buddy_desc(31), Err(AllocError::NoMem)));
    assert!(matches!(AllocBlock::new().alloc_buddy_desc(0), Err(AllocError::Inval)));
    block.free_buddy_desc(second);
    assert_eq!(FreeDesc::try_from(block.load_desc(16)).unwrap().get_order(), 4);
    block.free_buddy_desc(first);
    assert_eq!(words(block.descriptors()), before);
}
