//! Descriptors of any type.
use crate::block::AllocBlock;
use crate::defs::CHUNK_COUNT;
use crate::descriptors::desc_storage::{DescStorage, RawDescType};
use crate::error::AllocError;
use vstd::prelude::*;

verus! {

/// A chunk and the descriptor that it had when the descriptor was loaded.
#[derive(Clone, Copy, Debug)]
pub struct RawDesc {
    /// The chunk.
    pub index: usize,
    /// Its descriptor.
    pub value: DescStorage,
}

impl RawDesc {
    /// The block still has this descriptor.
    pub open spec fn is_current(self, block: &AllocBlock) -> bool {
        self.index < CHUNK_COUNT && block.desc(self.index as int) == self.value
    }

    /// Chunk `index` with descriptor `value`.
    pub fn new(index: usize, value: DescStorage) -> (raw: Self)
        ensures
            raw == (RawDesc { index, value }),
    {
        RawDesc { index, value }
    }

    /// The chunk.
    pub fn index(&self) -> (index: usize)
        ensures
            index == self.index,
        opens_invariants none
        no_unwind
    {
        self.index
    }

    /// The descriptor.
    pub fn value(&self) -> (value: DescStorage)
        ensures
            value == self.value,
    {
        self.value
    }

    /// The type of the descriptor, or `Inval` if it has none.
    pub fn desc_type(&self) -> (kind: Result<RawDescType, AllocError>)
        ensures
            kind == match self.value.kind() {
                Some(t) => Ok::<RawDescType, AllocError>(t),
                None => Err(AllocError::Inval),
            },
    {
        self.value.get_type()
    }

    /// Replaces the descriptor in the block by `desc`, and fails with `Retry`
    /// if the block has another one by now.
    pub fn update(&mut self, block: &mut AllocBlock, desc: DescStorage) -> (res: Result<
        (),
        AllocError,
    >)
        requires
            old(self).index < CHUNK_COUNT,
        ensures
            old(self).is_current(old(block)) ==> {
                &&& res is Ok
                &&& *final(self) == (RawDesc { value: desc, ..*old(self) })
                &&& final(self).is_current(final(block))
                &&& final(block).wrote_desc(old(block), old(self).index as int, desc)
            },
            !old(self).is_current(old(block)) ==> {
                &&& res == Err::<(), AllocError>(AllocError::Retry)
                &&& *final(self) == *old(self)
                &&& *final(block) == *old(block)
            },
        opens_invariants none
        no_unwind
    {
        match block.update_desc(self.index, self.value, desc) {
            Ok(()) => {
                self.value = desc;
                Ok(())
            },
            Err(e) => Err(e),
        }
    }
}

} // verus!
