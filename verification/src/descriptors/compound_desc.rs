//! The descriptors of the chunks of a run that follow its first chunk.
use crate::block::AllocBlock;
use crate::defs::CHUNK_COUNT;
use crate::descriptors::raw_desc::RawDesc;
use crate::descriptors::desc_storage::{DescStorage, RawDescType};
use crate::layout::ChunkState;
use vstd::prelude::*;

verus! {

/// A descriptor of type `Compound`.
#[derive(Clone, Copy, Debug)]
pub struct CompoundDesc {
    /// The chunk and its descriptor.
    pub raw: RawDesc,
}

impl CompoundDesc {
    /// `desc` as a descriptor of type `Compound` for a chunk.
    pub fn new(index: usize, desc: DescStorage) -> (compound: Self)
        ensures
            compound.raw.index == index,
            compound.raw.value == desc.with_type(RawDescType::Compound),
            compound.raw.value.spare() == desc.spare(),
            compound.raw.value.kind() == Some(RawDescType::Compound),
            compound.raw.value.order() == desc.order(),
            compound.raw.value.locked() == desc.locked(),
            compound.raw.value.full() == desc.full(),
            compound.raw.value.bitmap() == desc.bitmap(),
    {
        CompoundDesc { raw: RawDesc::new(index, desc.encode_type(RawDescType::Compound)) }
    }

    /// Stores the descriptor in the block.
    pub fn store(&self, block: &mut AllocBlock)
        requires
            self.raw.index < CHUNK_COUNT,
            self.raw.value.kind() == Some(RawDescType::Compound),
        ensures
            final(block).wrote_desc(old(block), self.raw.index as int, self.raw.value),
            final(block)@ == old(block)@.update(self.raw.index as int, ChunkState::Compound),
    {
        block.store_desc(self.raw.index, self.raw.value);
    }
}

} // verus!
