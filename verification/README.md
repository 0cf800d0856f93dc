# block_alloc

A memory allocator for blocks of 64 KiB, written and verified in Verus.

A block is divided into chunks. The first chunk holds one descriptor for each
chunk. Requests of more than half a chunk are served by a buddy allocator, which
hands out aligned runs of a power of two of chunks. Smaller requests are served
from chunks that are handed out in parts of equal size, with a bitmap of the
parts in use in the chunk descriptor or, for the smallest parts, at the start of
the chunk.

- `src/block.rs`: the block, its memory and its operations
- `src/descriptors/`: the chunk descriptors and what their holders can do
- `src/layout.rs`: what each chunk is used for, and when that is consistent
- `src/buddy.rs`: what taking and giving back runs does to a layout
- `src/requests.rs`: what a whole request does to a layout
- `src/laws.rs`: what holds of the allocator as a whole
- `app/lib.rs`: a block that several threads share
