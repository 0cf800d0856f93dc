//! The descriptor of the chunk that holds the descriptors.
use crate::block::AllocBlock;
use crate::defs::CHUNK_COUNT;
use crate::descriptors::raw_desc::RawDesc;
use crate::descriptors::desc_storage::{DescStorage, RawDescType};
use crate::layout::ChunkState;
use vstd::prelude::*;

verus! {

/// A descriptor of type `Meta`.
#[derive(Clone, Copy, Debug)]
pub struct MetaDesc {
    /// The chunk and its descriptor.
    pub raw: RawDesc,
}

impl MetaDesc {
    /// `desc` as a descriptor of type `Meta` for a chunk.
    pub fn new(index: usize, desc: DescStorage) -> (meta: Self)
        ensures
            meta.raw.index == index,
            meta.raw.value == desc.with_type(RawDescType::Meta),
            meta.raw.value.spare() == desc.spare(),
            meta.raw.value.kind() == Some(RawDescType::Meta),
            meta.raw.value.order() == desc.order(),
            meta.raw.value.locked() == desc.locked(),
            meta.raw.value.full() == desc.full(),
            meta.raw.value.bitmap() == desc.bitmap(),
    {
        MetaDesc { raw: RawDesc::new(index, desc.encode_type(RawDescType::Meta)) }
    }

    /// Stores the descriptor in the block.
    pub fn store(&self, block: &mut AllocBlock)
        requires
            self.raw.index < CHUNK_COUNT,
            self.raw.value.kind() == Some(RawDescType::Meta),
        ensures
            final(block).wrote_desc(old(block), self.raw.index as int, self.raw.value),
            final(block)@ == old(block)@.update(self.raw.index as int, ChunkState::Meta),
    {
        block.store_desc(self.raw.index, self.raw.value);
    }
}

} // verus!
