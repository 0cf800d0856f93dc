//! Sizes and counts of an allocation block.
use vstd::prelude::*;

verus! {

/// Bytes in one chunk, the unit of the buddy allocator.
pub const CHUNK_SIZE: usize = 512;

/// Bytes in one chunk descriptor.
pub const CHUNK_DESC_SIZE: usize = 4;

/// Chunks in one block: as many as there are descriptors in one chunk.
pub const CHUNK_COUNT: usize = CHUNK_SIZE / CHUNK_DESC_SIZE;

/// Chunks that follow the meta-data chunk.
pub const DATA_CHUNK_COUNT: usize = CHUNK_COUNT - 1;

/// Bytes in one block.
pub const BLOCK_SIZE: usize = CHUNK_SIZE * CHUNK_COUNT;

/// The smallest amount of memory that is handed out.
pub const MIN_ALLOC_SIZE: usize = 16;

/// The order of the largest run of chunks: half a block.
pub const MAX_ORDER: u32 = 6;

/// How a chunk descriptor is kept in the meta-data chunk.
pub type ChunkDescStorageType = u32;

} // verus!
