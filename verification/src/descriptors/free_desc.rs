//! The descriptors of free runs.
use crate::block::AllocBlock;
use crate::defs::CHUNK_COUNT;
use crate::descriptors::alloc_desc::AllocDesc;
use crate::descriptors::raw_desc::RawDesc;
use crate::descriptors::desc_storage::{DescStorage, RawDescType};
use crate::error::AllocError;
use crate::layout::ChunkState;
use vstd::prelude::*;

verus! {

/// A descriptor of type `Free`.
#[derive(Clone, Copy, Debug)]
pub struct FreeDesc {
    /// The chunk and its descriptor.
    pub raw: RawDesc,
}

impl FreeDesc {
    /// The descriptor is of type `Free` and belongs to a chunk of the block.
    pub open spec fn wf(self) -> bool {
        self.raw.index < CHUNK_COUNT && self.raw.value.kind() == Some(RawDescType::Free)
    }

    /// The order of the run.
    pub open spec fn order(self) -> nat {
        self.raw.value.order()
    }

    /// `desc` as a descriptor of type `Free` for a chunk.
    pub fn new(index: usize, desc: DescStorage) -> (free: Self)
        ensures
            free.raw.index == index,
            free.raw.value == desc.with_type(RawDescType::Free),
            free.raw.value.spare() == desc.spare(),
            free.raw.value.kind() == Some(RawDescType::Free),
            free.raw.value.order() == desc.order(),
            free.raw.value.locked() == desc.locked(),
            free.raw.value.full() == desc.full(),
            free.raw.value.bitmap() == desc.bitmap(),
    {
        FreeDesc { raw: RawDesc::new(index, desc.encode_type(RawDescType::Free)) }
    }

    /// Takes a descriptor that is of type `Free`. Fails with `Inval` if it has
    /// no type and with `TypeMismatch` if it is of another type.
    pub fn try_from(value: RawDesc) -> (res: Result<Self, AllocError>)
        ensures
            res == match value.value.kind() {
                Some(RawDescType::Free) => Ok::<Self, AllocError>(FreeDesc { raw: value }),
                Some(_) => Err(AllocError::TypeMismatch),
                None => Err(AllocError::Inval),
            },
    {
        let t = match value.desc_type() {
            Ok(t) => t,
            Err(e) => return Err(e),
        };
        if t != RawDescType::Free {
            return Err(AllocError::TypeMismatch);
        }
        Ok(FreeDesc { raw: value })
    }

    /// The order of the run.
    pub fn get_order(&self) -> (order: u32)
        ensures
            order == self.order(),
            order < 16,
    {
        self.raw.value().get_order()
    }

    /// Changes the order of the run.
    pub fn set_order(&mut self, order: u32)
        requires
            order < 16,
        ensures
            final(self).raw.index == old(self).raw.index,
            final(self).raw.value == old(self).raw.value.with_order(order),
            final(self).raw.value.kind() == old(self).raw.value.kind(),
            final(self).wf() && old(self).raw.value.is_plain() ==> final(self).raw.value.is_plain(),
            final(self).order() == order,
    {
        self.raw.value = self.raw.value.encode_order(order);
    }

    /// Stores the descriptor in the block.
    pub fn store(&self, block: &mut AllocBlock)
        requires
            self.wf(),
        ensures
            final(block).wrote_desc(old(block), self.raw.index as int, self.raw.value),
            final(block)@ == old(block)@.update(
                self.raw.index as int,
                ChunkState::Free { order: self.order() },
            ),
    {
        block.store_desc(self.raw.index, self.raw.value);
    }

    /// Allocates the run. Fails with `Retry` if the block has another
    /// descriptor by now.
    pub fn allocate(self, block: &mut AllocBlock) -> (res: Result<AllocDesc, AllocError>)
        requires
            self.wf(),
        ensures
            self.raw.is_current(old(block)) ==> {
                &&& res matches Ok(desc) && {
                    &&& desc.wf()
                    &&& desc.raw.index == self.raw.index
                    &&& desc.order() == self.order()
                    &&& desc.raw.value == self.raw.value.with_type(RawDescType::Alloc)
                    &&& self.raw.value.is_plain() ==> desc.raw.value.is_plain()
                    &&& desc.raw.is_current(final(block))
                    &&& final(block).wrote_desc(old(block), self.raw.index as int, desc.raw.value)
                }
                &&& final(block)@ == old(block)@.update(
                    self.raw.index as int,
                    ChunkState::Alloc { order: self.order() },
                )
            },
            !self.raw.is_current(old(block)) ==> {
                &&& res == Err::<AllocDesc, AllocError>(AllocError::Retry)
                &&& *final(block) == *old(block)
            },
    {
        let mut raw = self.raw;
        let desc = raw.value().encode_type(RawDescType::Alloc);
        match raw.update(block, desc) {
            Ok(()) => Ok(AllocDesc { raw }),
            Err(e) => Err(e),
        }
    }
}

} // verus!
