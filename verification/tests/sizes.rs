use block_alloc::block::{AllocBlock, Chunk, MetaChunk};
use block_alloc::defs::{
    BLOCK_SIZE, CHUNK_COUNT, CHUNK_DESC_SIZE, CHUNK_SIZE, DATA_CHUNK_COUNT, MAX_ORDER,
    MIN_ALLOC_SIZE,
};
use std::mem::size_of;

#[test]
fn test_sizes() {
    assert_eq!(size_of::<AllocBlock>(), BLOCK_SIZE);
    assert_eq!(size_of::<Chunk>(), CHUNK_SIZE);
    assert_eq!(size_of::<MetaChunk>(), CHUNK_SIZE);
}

#[test]
fn constants_fit_together() {
    assert_eq!(BLOCK_SIZE, 65536);
    assert_eq!(CHUNK_COUNT * CHUNK_SIZE, BLOCK_SIZE);
    assert_eq!(CHUNK_COUNT * CHUNK_DESC_SIZE, CHUNK_SIZE);
    assert_eq!(DATA_CHUNK_COUNT + 1, CHUNK_COUNT);
    assert_eq!(CHUNK_SIZE << MAX_ORDER, BLOCK_SIZE / 2);
    assert_eq!(CHUNK_SIZE / MIN_ALLOC_SIZE, 32);
}
