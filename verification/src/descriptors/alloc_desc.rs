//! The descriptors of allocated runs.
use crate::bits;
use crate::block::{self, AllocBlock};
use crate::buddy;
use crate::defs::{CHUNK_COUNT, MAX_ORDER};
use crate::descriptors::free_desc::FreeDesc;
use crate::descriptors::parts_desc::PartsDesc;
use crate::descriptors::raw_desc::RawDesc;
use crate::descriptors::desc_storage::{DescStorage, RawDescType};
use crate::error::AllocError;
use crate::layout;
use crate::layout::ChunkState;
use crate::laws;
use vstd::prelude::*;

verus! {

/// A descriptor of type `Alloc`.
#[derive(Clone, Copy, Debug)]
pub struct AllocDesc {
    /// The chunk and its descriptor.
    pub raw: RawDesc,
}

impl AllocDesc {
    /// The descriptor is of type `Alloc` and belongs to a chunk of the block.
    pub open spec fn wf(self) -> bool {
        self.raw.index < CHUNK_COUNT && self.raw.value.kind() == Some(RawDescType::Alloc)
    }

    /// The order of the run.
    pub open spec fn order(self) -> nat {
        self.raw.value.order()
    }

    /// Takes a descriptor that is of type `Alloc`. Fails with `Inval` if it
    /// has no type and with `TypeMismatch` if it is of another type.
    pub fn try_from(value: RawDesc) -> (res: Result<Self, AllocError>)
        ensures
            res == match value.value.kind() {
                Some(RawDescType::Alloc) => Ok::<Self, AllocError>(AllocDesc { raw: value }),
                Some(_) => Err(AllocError::TypeMismatch),
                None => Err(AllocError::Inval),
            },
    {
        let t = match value.desc_type() {
            Ok(t) => t,
            Err(e) => return Err(e),
        };
        if t != RawDescType::Alloc {
            return Err(AllocError::TypeMismatch);
        }
        Ok(AllocDesc { raw: value })
    }

    /// The first chunk of the run.
    pub fn index(&self) -> (index: usize)
        ensures
            index == self.raw.index,
    {
        self.raw.index()
    }

    /// The order of the run.
    pub fn get_order(&self) -> (order: u32)
        ensures
            order == self.order(),
            order < 16,
    {
        self.raw.value().get_order()
    }

    /// Splits the run into two allocated runs of the order below.
    pub fn split(self, block: &mut AllocBlock) -> (res: (AllocDesc, AllocDesc))
        requires
            self.wf(),
            self.raw.is_current(old(block)),
            self.order() > 0,
            self.raw.index + bits::pow2((self.order() - 1) as nat) < CHUNK_COUNT,
        ensures
            final(block)@ == buddy::split_run(
                old(block)@,
                self.raw.index as int,
                (self.order() - 1) as nat,
            ),
            final(block).same_bytes(old(block)),
            final(block)@[self.raw.index as int] == (ChunkState::Alloc {
                order: (self.order() - 1) as nat,
            }),
            final(block)@[self.raw.index + bits::pow2((self.order() - 1) as nat)] == (
            ChunkState::Alloc { order: (self.order() - 1) as nat }),
            forall|j: int|
                0 <= j < CHUNK_COUNT && j != self.raw.index && j != self.raw.index + bits::pow2(
                    (self.order() - 1) as nat,
                ) ==> #[trigger] final(block)@[j] == old(block)@[j],
            forall|j: int|
                0 <= j < CHUNK_COUNT && j != res.0.raw.index && j != res.1.raw.index
                    ==> #[trigger] final(block).desc(j) == old(block).desc(j),
            res.0.raw.value == self.raw.value.with_order((self.order() - 1) as u32),
            res.1.raw.value == res.0.raw.value,
            self.raw.value.is_plain() ==> res.0.raw.value.is_plain(),
            res.0.wf(),
            res.0.raw.index == self.raw.index,
            res.0.order() == self.order() - 1,
            res.0.raw.is_current(final(block)),
            res.1.wf(),
            res.1.raw.index == self.raw.index + bits::pow2((self.order() - 1) as nat),
            res.1.order() == self.order() - 1,
            res.1.raw.is_current(final(block)),
    {
        let order: u32 = self.get_order() - 1;
        proof {
            bits::lemma_one_shl(order);
            bits::lemma_pow2_double(order as nat);
        }
        let index: usize = self.raw.index();
        let upper: usize = index + (1usize << order);
        let desc = self.raw.value().encode_order(order);
        block.store_desc(upper, desc);
        block.store_desc(index, desc);
        assert(block@ =~= buddy::split_run(old(block)@, index as int, order as nat));
        (AllocDesc { raw: RawDesc::new(index, desc) }, AllocDesc { raw: RawDesc::new(upper, desc) })
    }

    /// Frees the run.
    pub fn free(self, block: &mut AllocBlock) -> (free: FreeDesc)
        requires
            self.wf(),
            self.raw.is_current(old(block)),
        ensures
            final(block).wrote_desc(old(block), self.raw.index as int, free.raw.value),
            final(block)@ == old(block)@.update(
                self.raw.index as int,
                ChunkState::Free { order: self.order() },
            ),
            free.wf(),
            free.raw.index == self.raw.index,
            free.order() == self.order(),
            free.raw.value == self.raw.value.with_type(RawDescType::Free),
            self.raw.value.is_plain() ==> free.raw.value.is_plain(),
            free.raw.is_current(final(block)),
    {
        let free = FreeDesc::new(self.raw.index(), self.raw.value());
        free.store(block);
        free
    }

    /// Joins the run with its buddy if the buddy is a free run of the same
    /// order. Otherwise the run is handed back as the error.
    pub fn try_merge(self, block: &mut AllocBlock) -> (res: Result<AllocDesc, AllocDesc>)
        requires
            self.wf(),
            self.raw.is_current(old(block)),
            layout::run_fits(self.raw.index as int, self.order()),
        ensures
            final(block).same_bytes(old(block)),
            layout::tiled(old(block)@) ==> (res is Ok <==> self.order() < MAX_ORDER
                && laws::has_free_buddy(old(block)@, self.raw.index as int, self.order())),
            layout::tiled(old(block)@) ==> match res {
                Ok(desc) => exists|b: int| #[trigger]
                    laws::is_free_buddy(
                        old(block)@,
                        self.raw.index as int,
                        self.order(),
                        b,
                    ) && laws::is_half_joined(
                        old(block)@,
                        final(block)@,
                        self.raw.index as int,
                        b,
                        self.order(),
                        desc.raw.index as int,
                    ),
                Err(_) => *final(block) == *old(block),
            },
            match res {
                Ok(desc) => {
                    &&& self.order() < MAX_ORDER
                    &&& layout::is_free(
                        old(block)@,
                        layout::buddy(self.raw.index as int, self.order()),
                        self.order(),
                    )
                    &&& final(block)@ == buddy::join_run(
                        old(block)@,
                        self.raw.index as int,
                        self.order(),
                    )
                    &&& desc.wf()
                    &&& desc.raw.index == buddy::lower(self.raw.index as int, self.order())
                    &&& desc.order() == self.order() + 1
                    &&& desc.raw.is_current(final(block))
                    &&& desc.raw.value == self.raw.value.with_order((self.order() + 1) as u32)
                    &&& self.raw.value.is_plain() ==> desc.raw.value.is_plain()
                    &&& final(block).desc(buddy::higher(self.raw.index as int, self.order()))
                        == DescStorage::plain(RawDescType::Compound, 0)
                    &&& final(block).desc(
                        buddy::higher(self.raw.index as int, self.order()),
                    ).is_plain()
                    &&& forall|j: int|
                        0 <= j < CHUNK_COUNT && j != buddy::lower(
                            self.raw.index as int,
                            self.order(),
                        ) && j != buddy::higher(
                            self.raw.index as int,
                            self.order(),
                        ) ==> #[trigger] final(block).desc(j) == old(block).desc(j)
                },
                Err(desc) => {
                    &&& !(self.order() < MAX_ORDER && layout::is_free(
                        old(block)@,
                        layout::buddy(self.raw.index as int, self.order()),
                        self.order(),
                    ))
                    &&& *final(block) == *old(block)
                    &&& desc == self
                },
            },
    {
        let order: u32 = self.get_order();
        proof {
            if layout::tiled(block@) {
                laws::law_buddy(block@, self.raw.index as int, self.order());
            }
        }
        if order >= MAX_ORDER {
            return Err(self);
        }
        let index: usize = self.raw.index();
        proof {
            bits::lemma_one_shl(order);
            bits::lemma_pow2_double(order as nat);
            layout::lemma_buddy(index as int, order as nat);
        }
        let chunks: usize = 1usize << order;
        let other: usize = if index % (2 * chunks) == 0 {
            index + chunks
        } else {
            index - chunks
        };
        assert(other == layout::buddy(index as int, order as nat));
        let neighbour = block.load_desc(other);
        let free = match FreeDesc::try_from(neighbour) {
            Ok(free) => free,
            Err(_) => return Err(self),
        };
        if free.get_order() != order {
            return Err(self);
        }
        let (low, high): (usize, usize) = if index < other {
            (index, other)
        } else {
            (other, index)
        };
        let desc = self.raw.value().encode_order(order + 1);
        let rest = DescStorage::new().encode_type(RawDescType::Compound);
        proof {
            DescStorage::lemma_plain(RawDescType::Compound, 0);
        }
        block.store_desc(high, rest);
        block.store_desc(low, desc);
        assert(block@ =~= buddy::join_run(old(block)@, index as int, order as nat));
        Ok(AllocDesc { raw: RawDesc::new(low, desc) })
    }

    /// Hands out a run of one chunk in parts of `size` bytes, none of which is
    /// in use at first.
    pub fn make_parts(self, block: &mut AllocBlock, size: usize) -> (parts: PartsDesc)
        requires
            self.wf(),
            self.raw.index > 0,
            self.raw.is_current(old(block)),
            layout::is_part_size(size as int),
        ensures
            parts.wf(),
            parts.raw.index == self.raw.index,
            parts.alloc_size == size,
            !parts.locked,
            !parts.full,
            parts.desc == (DescStorage { word: 0 }).with_type(RawDescType::Parts).with_order(
                bits::log2(size as int) as u32,
            ).with_bitmap(0),
            parts.desc.is_plain(),
            parts.is_stored(final(block)),
            parts.state(final(block)) == layout::fresh_parts(size as nat),
            final(block)@[self.raw.index as int] == (ChunkState::Parts {
                size: size as nat,
                locked: false,
                full: false,
                used: 0,
            }),
            forall|j: int|
                0 <= j < CHUNK_COUNT && j != self.raw.index ==> #[trigger] final(block)@[j]
                    == old(block)@[j],
            final(block).changed_chunk(
                old(block),
                self.raw.index as int,
                layout::fresh_parts(size as nat),
            ),
            parts.fits() ==> final(block).same_bytes(old(block)),
    {
        let mut parts = PartsDesc::from_alloc(self, size);
        proof {
            (DescStorage { word: 0 }).with_type(RawDescType::Parts).with_order(
                bits::log2(size as int) as u32,
            ).lemma_bitmap_twice(0, 0);
        }
        let _ = parts.bitmap_store(block, 0);
        let _ = parts.store(block);
        assert(block@ =~= old(block)@.update(
            self.raw.index as int,
            layout::fresh_parts(size as nat),
        ));
        parts
    }
}

} // verus!
