//! The descriptors of chunks that are handed out in parts.
use crate::bits;
use crate::block;
use crate::block::AllocBlock;
use crate::defs::{CHUNK_COUNT, CHUNK_SIZE};
use crate::descriptors::alloc_desc::AllocDesc;
use crate::descriptors::desc_storage::{DescStorage, RawDescType};
use crate::descriptors::raw_desc::RawDesc;
use crate::error::AllocError;
use crate::layout;
use crate::layout::ChunkState;
use crate::laws;
use crate::requests;
use vstd::prelude::*;

verus! {

/// The bitmap for parts of this size fits into the chunk descriptor.
pub fn bitmap_in_desc(alloc_size: usize) -> (fits: bool)
    requires
        alloc_size > 0,
    ensures
        fits == layout::bitmap_fits(alloc_size as int),
        fits <==> CHUNK_SIZE as int / alloc_size as int <= 16,
    opens_invariants none
    no_unwind
{
    (CHUNK_SIZE / alloc_size) <= 16
}

/// The bits of the bitmap that stand for no part that may be handed out.
fn bitmap_unavailable_mask(alloc_size: usize) -> (mask: u32)
    requires
        layout::is_part_size(alloc_size as int),
    ensures
        forall|k: int|
            0 <= k < 32 ==> (#[trigger] bits::has_bit(mask, k) <==> !layout::part_available(
                alloc_size as int,
                k,
            )),
        forall|k: int|
            0 <= k < 32 ==> (#[trigger] bits::has_bit(mask, k) <==> !laws::is_part(
                alloc_size as int,
                k,
            )),
{
    proof {
        layout::lemma_part_counts(alloc_size as int);
    }
    let items: usize = CHUNK_SIZE / alloc_size;
    let raw_unavail_mask: u32 = if items == 32 {
        0
    } else {
        proof {
            bits::lemma_low_mask(items as u32);
            bits::lemma_bits(((1u32 << (items as u32)) - 1) as u32, 0);
        }
        !((1u32 << (items as u32)) - 1)
    };
    let bitmap_chunk_mask: u32 = if bitmap_in_desc(alloc_size) {
        0
    } else {
        let bitmap_chunks: usize = (u32::BITS as usize) / alloc_size;
        proof {
            bits::lemma_low_mask(bitmap_chunks as u32);
        }
        (1u32 << (bitmap_chunks as u32)) - 1
    };
    proof {
        bits::lemma_bit(0);
        bits::lemma_bits(raw_unavail_mask, bitmap_chunk_mask);
    }
    raw_unavail_mask | bitmap_chunk_mask
}

/// A descriptor of type `Parts`.
#[derive(Clone, Copy, Debug)]
pub struct PartsDesc {
    /// The chunk and the descriptor that the block is expected to have.
    pub raw: RawDesc,
    /// The descriptor of type `Parts`.
    pub desc: DescStorage,
    /// The size of one part.
    pub alloc_size: usize,
    /// The chunk is locked.
    pub locked: bool,
    /// The chunk counts as full.
    pub full: bool,
}

impl PartsDesc {
    /// The descriptor is of type `Parts`, has a valid part size and belongs to
    /// a chunk other than the first one.
    pub open spec fn wf(self) -> bool {
        &&& 0 < self.raw.index < CHUNK_COUNT
        &&& layout::is_part_size(self.alloc_size as int)
        &&& self.desc.kind() == Some(RawDescType::Parts)
        &&& self.desc.parts_size() == self.alloc_size
        &&& !self.fits() ==> self.locked == self.desc.locked()
    }

    /// The descriptor holds the bitmap.
    pub open spec fn fits(self) -> bool {
        layout::bitmap_fits(self.alloc_size as int)
    }

    /// The bitmap of the chunk.
    pub open spec fn used(self, block: &AllocBlock) -> u32 {
        if self.fits() {
            self.desc.bitmap()
        } else {
            block::first_word(block.chunk_bytes(self.raw.index as int))
        }
    }

    /// What the chunk is used for according to this descriptor.
    pub open spec fn state(self, block: &AllocBlock) -> ChunkState {
        layout::state_of(
            self.desc,
            block::first_word(block.chunk_bytes(self.raw.index as int)),
        )
    }

    /// The block has this descriptor.
    pub open spec fn is_stored(self, block: &AllocBlock) -> bool {
        self.raw.value == self.desc && self.raw.is_current(block)
    }

    /// The descriptors are of the same chunk and agree on everything but the
    /// encoded descriptor.
    pub open spec fn same_chunk(self, other: Self) -> bool {
        &&& self.raw.index == other.raw.index
        &&& self.alloc_size == other.alloc_size
        &&& self.locked == other.locked
        &&& self.full == other.full
    }

    /// Takes a descriptor of type `Parts` apart.
    pub fn from_raw(raw: RawDesc) -> (parts: Self)
        requires
            layout::bitmap_fits(raw.value.parts_size() as int) ==> layout::is_part_size(
                raw.value.parts_size() as int,
            ),
        ensures
            parts.raw == raw,
            parts.desc == raw.value,
            parts.alloc_size == raw.value.parts_size(),
            parts.locked == (!parts.fits() && raw.value.locked()),
            parts.full == if parts.fits() {
                layout::next_part(parts.alloc_size as int, raw.value.bitmap())
                    == layout::part_count(parts.alloc_size as int)
            } else {
                raw.value.full()
            },
            parts.full <==> if CHUNK_SIZE as int / parts.alloc_size as int <= 16 {
                forall|k: int|
                    laws::is_part(parts.alloc_size as int, k) ==> #[trigger] bits::has_bit(
                        raw.value.bitmap(),
                        k,
                    )
            } else {
                raw.value.full()
            },
    {
        let desc = raw.value();
        let alloc_size: usize = desc.get_parts_size();
        let (locked, full): (bool, bool) = if bitmap_in_desc(alloc_size) {
            let unavail_mask: u32 = bitmap_unavailable_mask(alloc_size);
            let full_bitmap: u32 = !unavail_mask;
            let bitmap: u32 = desc.get_bitmap();
            proof {
                lemma_full_bitmap(alloc_size as int, bitmap, unavail_mask);
                laws::law_next_part(alloc_size as int, bitmap);
            }
            (false, (bitmap & full_bitmap) == full_bitmap)
        } else {
            (desc.is_locked(), desc.is_full())
        };

        PartsDesc { raw, desc, alloc_size, locked, full }
    }

    /// Prepares to hand out an allocated chunk in parts of `size` bytes. The
    /// block does not have the descriptor yet.
    pub fn from_alloc(alloc_desc: AllocDesc, size: usize) -> (parts: Self)
        requires
            layout::is_part_size(size as int),
        ensures
            parts.raw == alloc_desc.raw,
            parts.desc == (DescStorage { word: 0 }).with_type(RawDescType::Parts).with_order(
                bits::log2(size as int) as u32,
            ).with_bitmap(0),
            parts.desc.is_plain(),
            parts.desc.kind() == Some(RawDescType::Parts),
            parts.desc.parts_size() == size,
            !parts.desc.locked(),
            !parts.desc.full(),
            parts.desc.bitmap() == 0,
            parts.alloc_size == size,
            !parts.locked,
            !parts.full,
    {
        let desc = DescStorage::new().encode_type(RawDescType::Parts).encode_parts_size(
            size,
        ).encode_bitmap(0);
        PartsDesc { raw: alloc_desc.raw, desc, alloc_size: size, locked: false, full: false }
    }

    /// Takes a descriptor that is of type `Parts`. Fails with `Inval` if it
    /// has no type and with `TypeMismatch` if it is of another type.
    pub fn try_from(value: RawDesc) -> (res: Result<Self, AllocError>)
        requires
            value.value.kind() == Some(RawDescType::Parts) && layout::bitmap_fits(
                value.value.parts_size() as int,
            ) ==> layout::is_part_size(value.value.parts_size() as int),
        ensures
            match value.value.kind() {
                Some(RawDescType::Parts) => res matches Ok(parts) && {
                    &&& parts.raw == value
                    &&& parts.desc == value.value
                    &&& parts.alloc_size == value.value.parts_size()
                    &&& parts.locked == (!parts.fits() && value.value.locked())
                    &&& parts.full == if parts.fits() {
                        layout::next_part(parts.alloc_size as int, value.value.bitmap())
                            == layout::part_count(parts.alloc_size as int)
                    } else {
                        value.value.full()
                    }
                    &&& parts.full <==> if CHUNK_SIZE as int / parts.alloc_size as int <= 16 {
                        forall|k: int|
                            laws::is_part(parts.alloc_size as int, k) ==> #[trigger] bits::has_bit(
                                value.value.bitmap(),
                                k,
                            )
                    } else {
                        value.value.full()
                    }
                },
                Some(_) => res == Err::<Self, AllocError>(AllocError::TypeMismatch),
                None => res == Err::<Self, AllocError>(AllocError::Inval),
            },
    {
        let t = match value.desc_type() {
            Ok(t) => t,
            Err(e) => return Err(e),
        };
        if t != RawDescType::Parts {
            return Err(AllocError::TypeMismatch);
        }
        Ok(PartsDesc::from_raw(value))
    }

    /// Puts the descriptor into the block. Fails with `Retry` if the block has
    /// another descriptor than the expected one.
    pub fn store(&mut self, block: &mut AllocBlock) -> (res: Result<(), AllocError>)
        requires
            old(self).raw.index < CHUNK_COUNT,
        ensures
            old(self).raw.is_current(old(block)) ==> {
                &&& res is Ok
                &&& final(self).same_chunk(*old(self))
                &&& final(self).desc == old(self).desc
                &&& final(self).is_stored(final(block))
                &&& final(block).wrote_desc(old(block), old(self).raw.index as int, old(self).desc)
            },
            !old(self).raw.is_current(old(block)) ==> {
                &&& res == Err::<(), AllocError>(AllocError::Retry)
                &&& *final(self) == *old(self)
                &&& *final(block) == *old(block)
            },
    {
        self.raw.update(block, self.desc)
    }

    /// The size of one part.
    pub fn alloc_size(&self) -> (size: usize)
        ensures
            size == self.alloc_size,
    {
        self.alloc_size
    }

    /// The chunk.
    pub fn index(&self) -> (index: usize)
        ensures
            index == self.raw.index,
    {
        self.raw.index()
    }

    /// The chunk counts as full.
    pub fn is_full(&self) -> (full: bool)
        ensures
            full == self.full,
    {
        self.full
    }

    /// Turns the chunk into an allocated run of one chunk. Fails with `Retry`
    /// if the block has another descriptor than the expected one.
    fn make_alloc(&mut self, block: &mut AllocBlock) -> (res: Result<AllocDesc, AllocError>)
        requires
            old(self).raw.index < CHUNK_COUNT,
        ensures
            old(self).raw.is_current(old(block)) ==> {
                &&& res matches Ok(desc) && {
                    &&& desc.wf()
                    &&& desc.raw.index == old(self).raw.index
                    &&& desc.order() == 0
                    &&& desc.raw.value == DescStorage::plain(RawDescType::Alloc, 0)
                    &&& desc.raw.value.is_plain()
                    &&& desc.raw.is_current(final(block))
                    &&& final(block).wrote_desc(
                        old(block),
                        old(self).raw.index as int,
                        desc.raw.value,
                    )
                    &&& *final(self) == (PartsDesc { raw: desc.raw, ..*old(self) })
                }
                &&& final(block)@ == old(block)@.update(
                    old(self).raw.index as int,
                    ChunkState::Alloc { order: 0 },
                )
            },
            !old(self).raw.is_current(old(block)) ==> {
                &&& res == Err::<AllocDesc, AllocError>(AllocError::Retry)
                &&& *final(self) == *old(self)
                &&& *final(block) == *old(block)
            },
    {
        let desc = DescStorage::new().encode_type(RawDescType::Alloc).encode_order(0);
        proof {
            DescStorage::lemma_plain(RawDescType::Alloc, 0);
        }
        match self.raw.update(block, desc) {
            Ok(()) => AllocDesc::try_from(self.raw),
            Err(e) => Err(e),
        }
    }

    /// Loads the bitmap.
    pub fn bitmap_load(&self, block: &AllocBlock) -> (bitmap: u32)
        requires
            self.alloc_size > 0,
            !self.fits() ==> 0 < self.raw.index < CHUNK_COUNT,
        ensures
            bitmap == self.used(block),
            bitmap == if CHUNK_SIZE as int / self.alloc_size as int <= 16 {
                self.desc.bitmap()
            } else {
                block::first_word(block.chunk_bytes(self.raw.index as int))
            },
    {
        if !bitmap_in_desc(self.alloc_size) {
            block.chunk_bitmap(self.raw.index())
        } else {
            self.desc.get_bitmap()
        }
    }

    /// Stores the bitmap. Where it belongs into the descriptor, that fails
    /// with `Retry` if the block has another descriptor than the expected one.
    pub fn bitmap_store(&mut self, block: &mut AllocBlock, bitmap: u32) -> (res: Result<
        (),
        AllocError,
    >)
        requires
            old(self).wf(),
            old(self).fits() ==> bitmap < 0x10000,
        ensures
            !old(self).fits() ==> {
                &&& res is Ok
                &&& *final(self) == *old(self)
                &&& final(block).wrote_word(old(block), old(self).raw.index as int, bitmap)
            },
            old(self).fits() && old(self).raw.is_current(old(block)) ==> {
                &&& res is Ok
                &&& final(self).wf()
                &&& final(self).same_chunk(*old(self))
                &&& final(self).is_stored(final(block))
                &&& final(self).desc == old(self).desc.with_bitmap(bitmap)
                &&& old(self).desc.is_plain() ==> final(self).desc.is_plain()
                &&& final(block).wrote_desc(
                    old(block),
                    old(self).raw.index as int,
                    final(self).desc,
                )
            },
            res is Ok ==> final(self).used(final(block)) == bitmap,
            res is Ok ==> final(self).desc.full() == old(self).desc.full(),
            res is Ok ==> final(self).desc.locked() == old(self).desc.locked(),
            res is Ok ==> final(self).state(final(block)) == layout::with_used(
                old(self).state(old(block)),
                bitmap,
            ),
            old(self).fits() && !old(self).raw.is_current(old(block)) ==> {
                &&& res == Err::<(), AllocError>(AllocError::Retry)
                &&& *final(self) == *old(self)
                &&& *final(block) == *old(block)
            },
    {
        if !bitmap_in_desc(self.alloc_size) {
            block.set_chunk_bitmap(self.raw.index(), bitmap);
        } else {
            let desc = self.desc.encode_bitmap(bitmap);
            match self.raw.update(block, desc) {
                Ok(()) => {},
                Err(e) => return Err(e),
            }
            self.desc = desc;
        }
        Ok(())
    }

    /// The lock cannot be taken: the chunk is locked, or the lock belongs
    /// into the descriptor and the block has another one than the expected one.
    pub open spec fn is_blocked(self, block: &AllocBlock) -> bool {
        self.locked || !self.fits() && !self.raw.is_current(block)
    }

    /// Locks the chunk. Fails with `Retry` if the chunk is locked, and, where
    /// the lock belongs into the descriptor, if the block has another
    /// descriptor than the expected one.
    pub fn try_lock<'b>(&'b mut self, block: &'b mut AllocBlock) -> (res: Result<
        PartsLockGuard<'b>,
        AllocError,
    >)
        requires
            old(self).wf(),
        ensures
            match res {
                Ok(guard) => {
                    &&& !old(self).is_blocked(old(block))
                    &&& !old(self).locked
                    &&& old(self).fits() || old(block).desc(old(self).raw.index as int)
                        == old(self).raw.value
                    &&& guard.chunk().parts_desc.locked
                    &&& !old(self).fits() ==> guard.chunk().block.desc(
                        old(self).raw.index as int,
                    ).locked()
                    &&& guard.wf()
                    &&& !guard.chunk().chunk_released
                    &&& *final(self) == *final(guard.chunk().parts_desc)
                    &&& *final(block) == *final(guard.chunk().block)
                    &&& guard.chunk().parts_desc.same_chunk((PartsDesc { locked: true, ..*old(self) }))
                    &&& guard.chunk().state() == layout::with_lock(old(self).state(old(block)), true)
                    &&& guard.chunk().used() == old(self).used(old(block))
                    &&& old(self).fits() ==> {
                        &&& guard.chunk().parts_desc.raw == old(self).raw
                        &&& guard.chunk().parts_desc.desc == old(self).desc
                        &&& *guard.chunk().block == *old(block)
                    }
                    &&& !old(self).fits() ==> {
                        &&& guard.chunk().parts_desc.desc == old(self).desc.with_lock(true)
                        &&& old(self).desc.is_plain() ==> guard.chunk().parts_desc.desc.is_plain()
                        &&& guard.chunk().block.wrote_desc(
                            old(block),
                            old(self).raw.index as int,
                            guard.chunk().parts_desc.desc,
                        )
                    }
                },
                Err(e) => {
                    &&& old(self).is_blocked(old(block))
                    &&& old(self).locked || !old(self).fits() && old(block).desc(
                        old(self).raw.index as int,
                    ) != old(self).raw.value
                    &&& e == AllocError::Retry
                    &&& *final(self) == *old(self)
                    &&& *final(block) == *old(block)
                },
            },
    {
        if self.locked {
            return Err(AllocError::Retry);
        }
        if !bitmap_in_desc(self.alloc_size) {
            let desc = self.desc.set_lock();
            match self.raw.update(block, desc) {
                Ok(()) => {},
                Err(e) => return Err(e),
            }
            self.desc = desc;
        }
        self.locked = true;
        let chunk = LockedParts { parts_desc: self, block, chunk_released: false };
        Ok(PartsLockGuard { held: Some(chunk) })
    }

    /// Allocates a part of the chunk.
    ///
    /// Returns the offset of the part in the chunk. The errors are `Retry` if
    /// the chunk is locked or the block has another descriptor than the
    /// expected one, and `NoMem` if no part is left.
    pub fn alloc_part(&mut self, block: &mut AllocBlock) -> (res: Result<usize, AllocError>)
        requires
            old(self).wf(),
            !old(self).is_blocked(old(block)) ==> layout::bitmap_ok(
                old(self).alloc_size as int,
                old(self).used(old(block)),
            ),
        ensures
            final(self).same_chunk(*old(self)),
            old(self).fits() ==> final(block).same_bytes(old(block)),
            ({
                let size = old(self).alloc_size as int;
                let fits = old(self).fits();
                let c = old(self).state(old(block));
                let used = old(self).used(old(block));
                let k = layout::next_part(size, used);
                if old(self).is_blocked(old(block)) {
                    &&& res == Err::<usize, AllocError>(AllocError::Retry)
                    &&& *final(self) == *old(self)
                    &&& *final(block) == *old(block)
                } else if k == layout::part_count(size) {
                    &&& res == Err::<usize, AllocError>(AllocError::NoMem)
                    &&& fits ==> *final(self) == *old(self) && *final(block) == *old(block)
                    &&& !fits ==> {
                        &&& final(self).is_stored(final(block))
                        &&& final(self).desc == old(self).desc.with_full(true)
                        &&& final(block).changed_chunk(
                            old(block),
                            old(self).raw.index as int,
                            layout::with_full(c, true),
                        )
                    }
                    &&& final(self).wf()
                    &&& final(self).state(final(block)) == layout::with_full(c, true)
                } else if !old(self).raw.is_current(old(block)) {
                    &&& res == Err::<usize, AllocError>(AllocError::Retry)
                    &&& *final(self) == *old(self)
                    &&& *final(block) == *old(block)
                } else {
                    let t = layout::with_used(c, used | (1u32 << (k as u32)));
                    &&& res == Ok::<usize, AllocError>((size * k) as usize)
                    &&& layout::part_available(size, k)
                    &&& !bits::has_bit(used, k)
                    &&& final(block).changed_chunk(old(block), old(self).raw.index as int, t)
                    &&& final(self).wf()
                    &&& final(self).state(final(block)) == t
                    &&& final(self).is_stored(final(block))
                    &&& final(self).desc == if fits {
                        old(self).desc.with_bitmap(used | (1u32 << (k as u32)))
                    } else {
                        old(self).desc
                    }
                }
            }),
            old(self).desc.is_plain() ==> final(self).desc.is_plain(),
            final(self).raw.index == old(self).raw.index,
            final(self).alloc_size == old(self).alloc_size,
            final(self).locked == old(self).locked,
            final(self).full == old(self).full,
            forall|j: int|
                0 <= j < CHUNK_COUNT && j != old(self).raw.index ==> #[trigger] final(block).desc(j)
                    == old(block).desc(j),
            forall|j: int|
                0 <= j < CHUNK_COUNT && j != old(self).raw.index ==> #[trigger] final(block)@[j]
                    == old(block)@[j],
            final(block).same_but_word(old(block), old(self).raw.index as int),
            res is Ok ==> !old(self).locked && old(block).desc(old(self).raw.index as int) == old(
                self,
            ).raw.value,
            res is Ok ==> !final(self).desc.locked() || old(self).fits(),
            match res {
                Ok(offset) => ({
                    let size = old(self).alloc_size as int;
                    let k = offset as int / size;
                    &&& offset as int % size == 0
                    &&& laws::is_part(size, k)
                    &&& !bits::has_bit(old(self).used(old(block)), k)
                    &&& forall|j: int|
                        laws::is_part(size, j) && j < k ==> #[trigger] bits::has_bit(
                            old(self).used(old(block)),
                            j,
                        )
                    &&& forall|j: int|
                        #[trigger] bits::has_bit(final(self).used(final(block)), j)
                            <==> bits::has_bit(old(self).used(old(block)), j) || j == k
                    &&& final(self).desc.full() == old(self).desc.full()
                    &&& final(self).is_stored(final(block))
                }),
                Err(AllocError::NoMem) => {
                    &&& !old(self).is_blocked(old(block))
                    &&& forall|j: int|
                        laws::is_part(old(self).alloc_size as int, j)
                            ==> #[trigger] bits::has_bit(old(self).used(old(block)), j)
                    &&& final(self).used(final(block)) == old(self).used(old(block))
                    &&& old(self).fits() ==> *final(block) == *old(block)
                    &&& !old(self).fits() ==> final(block).desc(
                        old(self).raw.index as int,
                    ).full()
                },
                Err(e) => {
                    &&& e == AllocError::Retry
                    &&& old(self).locked || old(block).desc(old(self).raw.index as int)
                        != old(self).raw.value
                    &&& *final(self) == *old(self)
                    &&& *final(block) == *old(block)
                },
            },
    {
        let ghost before = *self;
        let ghost block0 = *block;
        proof {
            let used = before.used(&block0);
            laws::law_next_part(before.alloc_size as int, used);
            let k = layout::next_part(before.alloc_size as int, used);
            if k < layout::part_count(before.alloc_size as int) {
                laws::law_parts(before.alloc_size as int, k);
                laws::law_one_bit(used, k);
                requests::lemma_part_offset(0, before.alloc_size as int, k);
                vstd::arithmetic::mul::lemma_mul_is_commutative(k, before.alloc_size as int);
            }
        }
        let res = match self.try_lock(block) {
            Ok(guard) => {
                let mut guard = guard;
                let res = guard.try_alloc();
                guard.unlock();
                res
            },
            Err(e) => return Err(e),
        };
        proof {
            if !before.fits() {
                before.desc.lemma_lock_unlock(true);
            }
        }
        assert(block@ =~= block0@.update(self.raw.index as int, block@[self.raw.index as int]));
        res
    }

    /// Frees the part at the given offset in the chunk, where a part in use
    /// must begin.
    ///
    /// Returns whether no part is in use after that. Fails with `Retry` if the
    /// chunk is locked or the block has another descriptor than the expected
    /// one.
    pub fn free_part(&mut self, block: &mut AllocBlock, offset: usize) -> (res: Result<
        bool,
        AllocError,
    >)
        requires
            old(self).wf(),
            !old(self).is_blocked(old(block)) ==> {
                &&& layout::bitmap_ok(old(self).alloc_size as int, old(self).used(old(block)))
                &&& offset as int % old(self).alloc_size as int == 0
                &&& bits::has_bit(
                    old(self).used(old(block)),
                    offset as int / old(self).alloc_size as int,
                )
            },
        ensures
            final(self).same_chunk(*old(self)),
            old(self).fits() ==> final(block).same_bytes(old(block)),
            ({
                let k = offset as int / old(self).alloc_size as int;
                let c = old(self).state(old(block));
                if old(self).is_blocked(old(block)) || !old(self).raw.is_current(old(block)) {
                    &&& res == Err::<bool, AllocError>(AllocError::Retry)
                    &&& *final(self) == *old(self)
                    &&& *final(block) == *old(block)
                } else {
                    let rest = old(self).used(old(block)) & !(1u32 << (k as u32));
                    let t = layout::with_full(layout::with_used(c, rest), false);
                    &&& res == Ok::<bool, AllocError>(rest == 0)
                    &&& final(block).changed_chunk(old(block), old(self).raw.index as int, t)
                    &&& final(self).wf()
                    &&& final(self).state(final(block)) == t
                    &&& final(self).is_stored(final(block))
                    &&& final(self).desc == if old(self).fits() {
                        old(self).desc.with_bitmap(rest)
                    } else {
                        old(self).desc.with_full(false)
                    }
                }
            }),
            old(self).desc.is_plain() ==> final(self).desc.is_plain(),
            final(self).raw.index == old(self).raw.index,
            final(self).alloc_size == old(self).alloc_size,
            final(self).locked == old(self).locked,
            final(self).full == old(self).full,
            forall|j: int|
                0 <= j < CHUNK_COUNT && j != old(self).raw.index ==> #[trigger] final(block).desc(j)
                    == old(block).desc(j),
            forall|j: int|
                0 <= j < CHUNK_COUNT && j != old(self).raw.index ==> #[trigger] final(block)@[j]
                    == old(block)@[j],
            final(block).same_but_word(old(block), old(self).raw.index as int),
            res is Ok ==> !old(self).locked && old(block).desc(old(self).raw.index as int) == old(
                self,
            ).raw.value,
            res is Ok ==> !final(self).desc.locked() || old(self).fits(),
            match res {
                Ok(empty) => {
                    &&& empty <==> forall|j: int|
                        !#[trigger] bits::has_bit(final(self).used(final(block)), j)
                    &&& forall|j: int|
                        #[trigger] bits::has_bit(final(self).used(final(block)), j)
                            <==> bits::has_bit(old(self).used(old(block)), j) && j != offset as int
                            / old(self).alloc_size as int
                    &&& !old(self).fits() ==> !final(self).desc.full()
                    &&& old(self).fits() ==> final(self).desc.full() == old(self).desc.full()
                    &&& final(self).is_stored(final(block))
                },
                Err(e) => {
                    &&& e == AllocError::Retry
                    &&& old(self).locked || old(block).desc(old(self).raw.index as int)
                        != old(self).raw.value
                    &&& *final(self) == *old(self)
                    &&& *final(block) == *old(block)
                },
            },
    {
        let ghost before = *self;
        let ghost block0 = *block;
        proof {
            let k = offset as int / before.alloc_size as int;
            let used = before.used(&block0);
            if !before.is_blocked(&block0) {
                laws::law_one_bit(used, k);
                laws::law_no_bit(used & !(1u32 << (k as u32)));
            }
        }
        let res = match self.try_lock(block) {
            Ok(guard) => {
                let mut guard = guard;
                let res = guard.free(offset);
                guard.unlock();
                res
            },
            Err(e) => return Err(e),
        };
        proof {
            if !before.fits() {
                before.desc.lemma_lock_unlock(false);
            }
        }
        assert(block@ =~= block0@.update(self.raw.index as int, block@[self.raw.index as int]));
        res
    }

    /// Turns the chunk into an allocated run of one chunk, if it still is
    /// handed out in parts and no part of it is in use.
    ///
    /// The errors are `Inval` if the descriptor in the block has no type or a
    /// part is in use, and `TypeMismatch` if the descriptor in the block is of
    /// another type. If the lock cannot be taken, somebody is probably
    /// allocating a part, so that is not waited for: the answer is `Retry`.
    pub fn try_to_alloc(self, block: &mut AllocBlock) -> (res: Result<AllocDesc, AllocError>)
        requires
            self.raw.index < CHUNK_COUNT,
            old(block)@[self.raw.index as int] matches ChunkState::Parts {
                size,
                locked,
                full,
                used,
            } ==> {
                &&& self.raw.index > 0
                &&& layout::is_part_size(size as int)
                &&& layout::bitmap_ok(size as int, used)
            },
        ensures
            final(block).same_bytes(old(block)),
            match old(block)@[self.raw.index as int] {
                ChunkState::Unknown => {
                    &&& res == Err::<AllocDesc, AllocError>(AllocError::Inval)
                    &&& *final(block) == *old(block)
                },
                ChunkState::Parts { size, locked, full, used } => if !layout::bitmap_fits(
                    size as int,
                ) && locked {
                    &&& res == Err::<AllocDesc, AllocError>(AllocError::Retry)
                    &&& *final(block) == *old(block)
                } else if used != 0 {
                    &&& res == Err::<AllocDesc, AllocError>(AllocError::Inval)
                    &&& final(block).desc(self.raw.index as int) == old(block).desc(
                        self.raw.index as int,
                    )
                    &&& final(block).changed_chunk(
                        old(block),
                        self.raw.index as int,
                        old(block)@[self.raw.index as int],
                    )
                } else {
                    &&& res matches Ok(desc) && {
                        &&& desc.wf()
                        &&& desc.raw.index == self.raw.index
                        &&& desc.order() == 0
                        &&& desc.raw.value == DescStorage::plain(RawDescType::Alloc, 0)
                        &&& desc.raw.value.is_plain()
                        &&& desc.raw.is_current(final(block))
                    }
                    &&& final(block).changed_chunk(
                        old(block),
                        self.raw.index as int,
                        ChunkState::Alloc { order: 0 },
                    )
                },
                _ => {
                    &&& res == Err::<AllocDesc, AllocError>(AllocError::TypeMismatch)
                    &&& *final(block) == *old(block)
                },
            },
    {
        let ghost block0 = *block;
        let index: usize = self.index();
        // The descriptor is loaded again: the chunk may have been put to
        // another use since then.
        let raw_desc = block.load_desc(index);
        assert(block@[index as int] == layout::state_of(
            raw_desc.value,
            block::first_word(block.chunk_bytes(index as int)),
        ));
        let mut parts_desc = match PartsDesc::try_from(raw_desc) {
            Ok(parts_desc) => parts_desc,
            Err(e) => return Err(e),
        };
        let res = match parts_desc.try_lock(block) {
            Ok(guard) => {
                let mut guard = guard;
                let res = if !guard.empty() {
                    Err(AllocError::Inval)
                } else {
                    guard.make_alloc()
                };
                guard.unlock();
                proof {
                    if !raw_desc.value.locked() {
                        raw_desc.value.lemma_lock_unlock(false);
                    }
                }
                res
            },
            Err(e) => Err(e),
        };
        assert(block@ =~= block0@.update(index as int, block@[index as int]));
        res
    }
}

/// A locked chunk that is handed out in parts, in its block.
#[derive(Debug)]
pub struct LockedParts<'b> {
    /// The descriptor of the chunk.
    pub parts_desc: &'b mut PartsDesc,
    /// The block that the chunk is in.
    pub block: &'b mut AllocBlock,
    /// The chunk is no longer handed out in parts, so that there is no lock to
    /// give back.
    pub chunk_released: bool,
}

impl<'b> LockedParts<'b> {
    /// The chunk is locked. Where the descriptor has the lock flag, the block
    /// has that descriptor.
    pub open spec fn wf(self) -> bool {
        &&& self.parts_desc.wf()
        &&& self.parts_desc.locked
        &&& !self.parts_desc.fits() ==> self.parts_desc.is_stored(self.block)
    }

    /// The bitmap of the chunk.
    pub open spec fn used(self) -> u32 {
        self.parts_desc.used(self.block)
    }

    /// What the chunk is used for.
    pub open spec fn state(self) -> ChunkState {
        self.parts_desc.state(self.block)
    }

    /// The part that is handed out next.
    pub open spec fn next_part(self) -> int {
        layout::next_part(self.parts_desc.alloc_size as int, self.used())
    }

    /// The chunk.
    pub open spec fn index(self) -> int {
        self.parts_desc.raw.index as int
    }

    /// The size of one part.
    pub open spec fn size(self) -> int {
        self.parts_desc.alloc_size as int
    }

    /// The descriptor holds the bitmap.
    pub open spec fn fits(self) -> bool {
        self.parts_desc.fits()
    }

    /// The block has the expected descriptor.
    pub open spec fn is_current(self) -> bool {
        self.parts_desc.raw.is_current(self.block)
    }

    /// What [`PartsLockGuard::try_alloc`] makes of a locked chunk, and what it
    /// returns.
    pub open spec fn part_taken(self, after: Self, res: Result<usize, AllocError>) -> bool {
        &&& after.wf()
        &&& after.parts_desc.same_chunk(*self.parts_desc)
        &&& after.chunk_released == self.chunk_released
        &&& self.fits() ==> after.block.same_bytes(self.block)
        &&& ({
            let size = self.size();
            let fits = self.fits();
            let k = self.next_part();
            let c = self.state();
            if k == layout::part_count(size) {
                &&& res == Err::<usize, AllocError>(AllocError::NoMem)
                &&& fits ==> *after.parts_desc == *self.parts_desc
                    && *after.block == *self.block
                &&& !fits ==> {
                    &&& after.parts_desc.desc == self.parts_desc.desc.with_full(true)
                    &&& after.block.changed_chunk(
                        self.block,
                        self.index(),
                        layout::with_full(c, true),
                    )
                }
                &&& after.state() == layout::with_full(c, true)
            } else if fits && !self.is_current() {
                &&& res == Err::<usize, AllocError>(AllocError::Retry)
                &&& *after.parts_desc == *self.parts_desc
                &&& *after.block == *self.block
            } else {
                let t = layout::with_used(c, self.used() | (1u32 << (k as u32)));
                &&& res == Ok::<usize, AllocError>((size * k) as usize)
                &&& layout::part_available(size, k)
                &&& !bits::has_bit(self.used(), k)
                &&& after.block.changed_chunk(self.block, self.index(), t)
                &&& after.state() == t
                &&& after.parts_desc.is_stored(after.block)
                &&& after.parts_desc.desc == if fits {
                    self.parts_desc.desc.with_bitmap(self.used() | (1u32 << (k as u32)))
                } else {
                    self.parts_desc.desc
                }
            }
        })
        &&& self.parts_desc.desc.is_plain() ==> after.parts_desc.desc.is_plain()
    }

    /// What [`PartsLockGuard::free`] makes of a locked chunk, and what it returns.
    pub open spec fn part_freed(
        self,
        after: Self,
        offset: usize,
        res: Result<bool, AllocError>,
    ) -> bool {
        &&& after.wf()
        &&& after.parts_desc.same_chunk(*self.parts_desc)
        &&& after.chunk_released == self.chunk_released
        &&& self.fits() ==> after.block.same_bytes(self.block)
        &&& ({
            let fits = self.fits();
            let k = offset as int / self.size();
            let c = self.state();
            if fits && !self.is_current() {
                &&& res == Err::<bool, AllocError>(AllocError::Retry)
                &&& *after.parts_desc == *self.parts_desc
                &&& *after.block == *self.block
            } else {
                let rest = self.used() & !(1u32 << (k as u32));
                let t = layout::with_full(layout::with_used(c, rest), false);
                &&& res == Ok::<bool, AllocError>(rest == 0)
                &&& after.block.changed_chunk(self.block, self.index(), t)
                &&& after.state() == t
                &&& after.parts_desc.is_stored(after.block)
                &&& after.parts_desc.desc == if fits {
                    self.parts_desc.desc.with_bitmap(rest)
                } else {
                    self.parts_desc.desc.with_full(false)
                }
            }
        })
        &&& self.parts_desc.desc.is_plain() ==> after.parts_desc.desc.is_plain()
    }

    /// What taking a locked chunk back as a whole makes of it, and what comes out.
    pub open spec fn released(self, after: Self, res: Result<AllocDesc, AllocError>) -> bool {
        &&& self.is_current() ==> {
            &&& res matches Ok(desc) && {
                &&& desc.wf()
                &&& desc.raw.index == self.index()
                &&& desc.order() == 0
                &&& desc.raw.value == DescStorage::plain(RawDescType::Alloc, 0)
                &&& desc.raw.value.is_plain()
                &&& desc.raw.is_current(after.block)
            }
            &&& after.block.changed_chunk(
                self.block,
                self.index(),
                ChunkState::Alloc { order: 0 },
            )
            &&& after.block.same_bytes(self.block)
            &&& after.chunk_released
        }
        &&& !self.is_current() ==> {
            &&& res == Err::<AllocDesc, AllocError>(AllocError::Retry)
            &&& *after.parts_desc == *self.parts_desc
            &&& *after.block == *self.block
            &&& after.chunk_released == self.chunk_released
        }
    }

    /// What giving the lock back makes of the descriptor and the block of a
    /// locked chunk.
    pub open spec fn given_back(self, parts: &PartsDesc, block: &AllocBlock) -> bool {
        &&& self.chunk_released ==> *parts == *self.parts_desc && *block == *self.block
        &&& !self.chunk_released && self.fits() ==> {
            &&& *parts == (PartsDesc { locked: false, ..*self.parts_desc })
            &&& *block == *self.block
        }
        &&& !self.chunk_released && !self.fits() ==> {
            &&& parts.wf()
            &&& parts.is_stored(block)
            &&& parts.same_chunk((PartsDesc { locked: false, ..*self.parts_desc }))
            &&& parts.desc == self.parts_desc.desc.with_lock(false)
            &&& self.parts_desc.desc.is_plain() ==> parts.desc.is_plain()
            &&& parts.state(block) == layout::with_lock(self.state(), false)
            &&& block.wrote_desc(self.block, self.index(), parts.desc)
        }
    }

    /// The bitmap together with the bits that stand for no part, and the bits
    /// that do stand for one.
    fn get_bitmap_and_mask(&self) -> (res: (u32, u32))
        requires
            self.wf(),
            layout::bitmap_ok(self.size(), self.used()),
        ensures
            forall|k: int|
                0 <= k < 32 ==> (#[trigger] bits::has_bit(res.0, k) <==> bits::has_bit(
                    self.used(),
                    k,
                ) || !layout::part_available(self.size(), k)),
            forall|k: int|
                0 <= k < 32 ==> (#[trigger] bits::has_bit(res.1, k) <==> layout::part_available(self.size(), k)),
    {
        let raw_bitmap: u32 = self.parts_desc.bitmap_load(self.block);
        let unavail_mask: u32 = bitmap_unavailable_mask(self.parts_desc.alloc_size);
        proof {
            bits::lemma_bits(raw_bitmap, unavail_mask);
            bits::lemma_bits(unavail_mask, 0);
        }
        (raw_bitmap | unavail_mask, !unavail_mask)
    }

    /// Allocates the next part of the chunk.
    fn try_alloc(&mut self) -> (res: Result<usize, AllocError>)
        requires
            old(self).wf(),
            layout::bitmap_ok(old(self).size(), old(self).used()),
        ensures
            old(self).part_taken(*final(self), res),
            *final(final(self).parts_desc) == *final(old(self).parts_desc),
            *final(final(self).block) == *final(old(self).block),
    {
        let (bitmap, avail_mask): (u32, u32) = self.get_bitmap_and_mask();
        let bit: usize = bitmap.trailing_ones() as usize;
        let ghost size = self.parts_desc.alloc_size as int;
        let ghost used = self.used();
        proof {
            layout::lemma_part_counts(size);
            layout::lemma_free_part_from(size, used, layout::first_part(size));
            vstd::std_specs::bits::axiom_u32_trailing_ones(bitmap);
            assert forall|j: int| 0 <= j < bit implies (#[trigger] bits::has_bit(used, j)
                || !layout::part_available(size, j)) by {
                assert((bitmap >> (j as u32)) & 1u32 == 1u32);
                assert(bits::has_bit(bitmap, j));
            }
            if bit < 32 {
                assert(!bits::has_bit(bitmap, bit as int));
            }
            layout::lemma_next_part(size, used, bit as int);
        }
        if bit < 32 {
            let alloc_mask: u32 = 1u32 << (bit as u32);
            let bmp: u32 = bitmap | alloc_mask;
            let stored: u32 = bmp & avail_mask;
            proof {
                bits::lemma_bit(bit as u32);
                bits::lemma_bits(bitmap, alloc_mask);
                bits::lemma_bits(bmp, avail_mask);
                bits::lemma_bits(used, alloc_mask);
                assert forall|k: int| 0 <= k < 32 implies (#[trigger] bits::has_bit(stored, k)
                    <==> bits::has_bit(used | alloc_mask, k)) by {
                    if bits::has_bit(used, k) {
                        assert(layout::part_available(size, k));
                    }
                    assert(bits::has_bit(bmp, k) <==> bits::has_bit(bitmap, k) || bits::has_bit(
                        alloc_mask,
                        k,
                    ));
                    assert(bits::has_bit(avail_mask, k) <==> layout::part_available(size, k));
                }
                bits::lemma_same_bits(stored, used | alloc_mask);
                assert(layout::bitmap_ok(size, stored)) by {
                    assert forall|k: int| #[trigger] bits::has_bit(stored, k) implies layout::part_available(
                        size,
                        k,
                    ) by {
                        assert(bits::has_bit(used | alloc_mask, k));
                    }
                }
                if self.parts_desc.fits() {
                    layout::lemma_bitmap_width(size, stored);
                }
                assert(size * bit <= 512) by (nonlinear_arith)
                    requires
                        0 <= bit < layout::part_count(size),
                        layout::part_count(size) * size == 512,
                        size > 0,
                ;
            }
            match self.parts_desc.bitmap_store(self.block, stored) {
                Ok(()) => {},
                Err(e) => return Err(e),
            }
            Ok(self.parts_desc.alloc_size * bit)
        } else {
            if !bitmap_in_desc(self.parts_desc.alloc_size) {
                let desc = self.parts_desc.desc.set_full();
                let _ = self.parts_desc.raw.update(self.block, desc);
                self.parts_desc.desc = desc;
            }
            Err(AllocError::NoMem)
        }
    }

    /// Frees the part at the given offset in the chunk.
    fn free(&mut self, offset: usize) -> (res: Result<bool, AllocError>)
        requires
            old(self).wf(),
            layout::bitmap_ok(old(self).size(), old(self).used()),
            offset as int % old(self).size() == 0,
            bits::has_bit(
                old(self).used(),
                offset as int / old(self).size(),
            ),
        ensures
            old(self).part_freed(*final(self), offset, res),
            *final(final(self).parts_desc) == *final(old(self).parts_desc),
            *final(final(self).block) == *final(old(self).block),
    {
        let (bitmap, avail_mask): (u32, u32) = self.get_bitmap_and_mask();
        let bit: usize = offset / self.parts_desc.alloc_size;
        let ghost size = self.parts_desc.alloc_size as int;
        let ghost used = self.used();
        let alloc_mask: u32 = 1u32 << (bit as u32);
        let store_bitmap: u32 = (bitmap & !alloc_mask) & avail_mask;
        proof {
            bits::lemma_bit(bit as u32);
            bits::lemma_bits(alloc_mask, 0);
            bits::lemma_bits(bitmap, !alloc_mask);
            bits::lemma_bits(bitmap & !alloc_mask, avail_mask);
            bits::lemma_bits(used, !alloc_mask);
            assert forall|k: int| 0 <= k < 32 implies (#[trigger] bits::has_bit(store_bitmap, k)
                <==> bits::has_bit(used & !alloc_mask, k)) by {
                if bits::has_bit(used, k) {
                    assert(layout::part_available(size, k));
                }
                assert(bits::has_bit(bitmap & !alloc_mask, k) <==> bits::has_bit(bitmap, k)
                    && bits::has_bit(!alloc_mask, k));
                assert(bits::has_bit(avail_mask, k) <==> layout::part_available(size, k));
            }
            bits::lemma_same_bits(store_bitmap, used & !alloc_mask);
            assert(layout::bitmap_ok(size, store_bitmap)) by {
                assert forall|k: int| #[trigger] bits::has_bit(store_bitmap, k) implies layout::part_available(
                    size,
                    k,
                ) by {
                    assert(bits::has_bit(used & !alloc_mask, k));
                    assert(bits::has_bit(used, k));
                }
            }
            if self.parts_desc.fits() {
                layout::lemma_bitmap_width(size, store_bitmap);
            }
        }
        match self.parts_desc.bitmap_store(self.block, store_bitmap) {
            Ok(()) => {},
            Err(e) => return Err(e),
        }
        if !bitmap_in_desc(self.parts_desc.alloc_size) {
            let desc = self.parts_desc.desc.clear_full();
            let _ = self.parts_desc.raw.update(self.block, desc);
            self.parts_desc.desc = desc;
        }
        assert(self.block@ =~= old(self).block@.update(self.index(), self.state()));
        Ok(store_bitmap == 0)
    }

    /// No part of the chunk is in use.
    fn empty(&self) -> (empty: bool)
        requires
            self.wf(),
            layout::bitmap_ok(self.size(), self.used()),
        ensures
            empty == (self.used() == 0),
    {
        let (bitmap, avail_mask): (u32, u32) = self.get_bitmap_and_mask();
        let ghost size = self.parts_desc.alloc_size as int;
        let ghost used = self.used();
        proof {
            bits::lemma_bits(bitmap, avail_mask);
            assert forall|k: int| 0 <= k < 32 implies (#[trigger] bits::has_bit(used, k)
                <==> bits::has_bit(bitmap & avail_mask, k)) by {
                assert(bits::has_bit(avail_mask, k) <==> layout::part_available(size, k));
                assert(bits::has_bit(bitmap, k) <==> bits::has_bit(used, k)
                    || !layout::part_available(size, k));
            }
            bits::lemma_same_bits(used, bitmap & avail_mask);
        }
        (bitmap & avail_mask) == 0
    }

    /// Turns the chunk into an allocated run of one chunk. Fails with `Retry`
    /// if the block has another descriptor than the expected one.
    fn make_alloc(&mut self) -> (res: Result<AllocDesc, AllocError>)
        requires
            old(self).wf(),
        ensures
            *final(final(self).parts_desc) == *final(old(self).parts_desc),
            *final(final(self).block) == *final(old(self).block),
            old(self).released(*final(self), res),
    {
        match self.parts_desc.make_alloc(self.block) {
            Ok(desc) => {
                self.chunk_released = true;
                Ok(desc)
            },
            Err(e) => Err(e),
        }
    }

    /// Gives the lock back, unless the chunk was released.
    fn give_back(self)
        ensures
            self.chunk_released || self.wf() ==> self.given_back(
                final(self.parts_desc),
                final(self.block),
            ),
        opens_invariants none
        no_unwind
    {
        if self.chunk_released {
            return;
        }
        // A destructor can ask for nothing, so what is needed of the descriptor
        // is tested.
        let size: usize = self.parts_desc.alloc_size;
        let index: usize = self.parts_desc.raw.index();
        if size > 0 && index < CHUNK_COUNT && !bitmap_in_desc(size) {
            let desc = self.parts_desc.desc.clear_lock();
            let _ = self.parts_desc.raw.update(self.block, desc);
            self.parts_desc.desc = desc;
        }
        self.parts_desc.locked = false;
    }
}

/// The lock of a chunk that is handed out in parts. It is given back by
/// [`PartsLockGuard::unlock`], and at the latest when the guard is dropped. A
/// proof learns what that does from `unlock`, since the end of a scope tells it
/// nothing of the values that are dropped there.
#[derive(Debug)]
pub struct PartsLockGuard<'b> {
    /// The locked chunk, until the lock is given back.
    held: Option<LockedParts<'b>>,
}

impl<'b> PartsLockGuard<'b> {
    /// The lock was not given back yet.
    pub closed spec fn is_held(self) -> bool {
        self.held is Some
    }

    /// The locked chunk.
    pub closed spec fn chunk(self) -> LockedParts<'b> {
        self.held->0
    }

    /// The lock is held and the chunk is locked.
    pub open spec fn wf(self) -> bool {
        self.is_held() && self.chunk().wf()
    }

    /// The locked chunk, unless the lock was given back.
    pub fn locked(&mut self) -> (res: Option<&mut LockedParts<'b>>)
        ensures
            match res {
                Some(chunk) => {
                    &&& old(self).is_held()
                    &&& *chunk == old(self).chunk()
                    &&& final(self).is_held()
                    &&& final(self).chunk() == *final(chunk)
                },
                None => !old(self).is_held() && *final(self) == *old(self),
            },
    {
        match &mut self.held {
            Some(chunk) => Some(chunk),
            None => None,
        }
    }

    /// Tries to allocate a part of the chunk.
    ///
    /// Returns the offset of the part in the chunk. The errors are `Retry` if
    /// the block has another descriptor than the expected one, and `NoMem` if
    /// no part is left. In the latter case a chunk whose bitmap does not
    /// fit into the descriptor is marked as full.
    pub fn try_alloc(&mut self) -> (res: Result<usize, AllocError>)
        requires
            old(self).wf(),
            layout::bitmap_ok(old(self).chunk().size(), old(self).chunk().used()),
        ensures
            old(self).chunk().part_taken(final(self).chunk(), res),
            final(self).chunk().parts_desc.locked,
            final(self).chunk().index() == old(self).chunk().index(),
            final(self).chunk().size() == old(self).chunk().size(),
            forall|j: int|
                0 <= j < CHUNK_COUNT && j != old(self).chunk().index() ==> #[trigger] final(self).chunk().block.desc(j)
                    == old(self).chunk().block.desc(j),
            final(self).chunk().block.same_but_word(
                old(self).chunk().block,
                old(self).chunk().index(),
            ),
            res is Ok ==> old(self).chunk().block.desc(old(self).chunk().index())
                == old(self).chunk().parts_desc.raw.value,
            match res {
                Ok(offset) => ({
                    let size = old(self).chunk().size();
                    let k = offset as int / size;
                    &&& offset as int % size == 0
                    &&& laws::is_part(size, k)
                    &&& !bits::has_bit(old(self).chunk().used(), k)
                    &&& forall|j: int|
                        laws::is_part(size, j) && j < k ==> #[trigger] bits::has_bit(
                            old(self).chunk().used(),
                            j,
                        )
                    &&& forall|j: int|
                        #[trigger] bits::has_bit(final(self).chunk().used(), j) <==> bits::has_bit(
                            old(self).chunk().used(),
                            j,
                        ) || j == k
                    &&& final(self).chunk().parts_desc.desc.full()
                        == old(self).chunk().parts_desc.desc.full()
                    &&& final(self).chunk().parts_desc.is_stored(final(self).chunk().block)
                }),
                Err(AllocError::NoMem) => {
                    &&& forall|j: int|
                        laws::is_part(old(self).chunk().size(), j) ==> #[trigger] bits::has_bit(
                            old(self).chunk().used(),
                            j,
                        )
                    &&& final(self).chunk().used() == old(self).chunk().used()
                    &&& old(self).chunk().fits() ==> *final(self).chunk().block == *old(
                        self,
                    ).chunk().block
                    &&& !old(self).chunk().fits() ==> final(self).chunk().block.desc(
                        old(self).chunk().index(),
                    ).full()
                },
                Err(e) => {
                    &&& e == AllocError::Retry
                    &&& old(self).chunk().fits()
                    &&& old(self).chunk().block.desc(old(self).chunk().index())
                        != old(self).chunk().parts_desc.raw.value
                    &&& *final(self).chunk().parts_desc == *old(self).chunk().parts_desc
                    &&& *final(self).chunk().block == *old(self).chunk().block
                },
            },
            final(self).is_held(),
            *final(final(self).chunk().parts_desc) == *final(old(self).chunk().parts_desc),
            *final(final(self).chunk().block) == *final(old(self).chunk().block),
    {
        proof {
            let size = self.chunk().size();
            let used = self.chunk().used();
            laws::law_next_part(size, used);
            let k = layout::next_part(size, used);
            layout::lemma_part_counts(size);
            if k < layout::part_count(size) {
                laws::law_parts(size, k);
                laws::law_one_bit(used, k);
                requests::lemma_part_offset(0, size, k);
                vstd::arithmetic::mul::lemma_mul_is_commutative(k, size);
            }
        }
        match &mut self.held {
            Some(chunk) => chunk.try_alloc(),
            None => Err(AllocError::Retry),
        }
    }

    /// Frees the part at the given offset in the chunk, where a part in use
    /// must begin.
    ///
    /// Returns whether no part is in use after that. Fails with `Retry` if the
    /// block has another descriptor than the expected one.
    pub fn free(&mut self, offset: usize) -> (res: Result<bool, AllocError>)
        requires
            old(self).wf(),
            layout::bitmap_ok(old(self).chunk().size(), old(self).chunk().used()),
            offset as int % old(self).chunk().size() == 0,
            bits::has_bit(
                old(self).chunk().used(),
                offset as int / old(self).chunk().size(),
            ),
        ensures
            old(self).chunk().part_freed(final(self).chunk(), offset, res),
            final(self).chunk().parts_desc.locked,
            final(self).chunk().index() == old(self).chunk().index(),
            final(self).chunk().size() == old(self).chunk().size(),
            forall|j: int|
                0 <= j < CHUNK_COUNT && j != old(self).chunk().index() ==> #[trigger] final(self).chunk().block.desc(j)
                    == old(self).chunk().block.desc(j),
            final(self).chunk().block.same_but_word(
                old(self).chunk().block,
                old(self).chunk().index(),
            ),
            res is Ok ==> old(self).chunk().block.desc(old(self).chunk().index())
                == old(self).chunk().parts_desc.raw.value,
            match res {
                Ok(empty) => {
                    &&& empty <==> forall|j: int|
                        !#[trigger] bits::has_bit(final(self).chunk().used(), j)
                    &&& forall|j: int|
                        #[trigger] bits::has_bit(final(self).chunk().used(), j) <==> bits::has_bit(
                            old(self).chunk().used(),
                            j,
                        ) && j != offset as int / old(self).chunk().size()
                    &&& !old(self).chunk().fits() ==> !final(self).chunk().parts_desc.desc.full()
                    &&& old(self).chunk().fits() ==> final(self).chunk().parts_desc.desc.full()
                        == old(self).chunk().parts_desc.desc.full()
                    &&& final(self).chunk().parts_desc.is_stored(final(self).chunk().block)
                },
                Err(e) => {
                    &&& e == AllocError::Retry
                    &&& old(self).chunk().fits()
                    &&& old(self).chunk().block.desc(old(self).chunk().index())
                        != old(self).chunk().parts_desc.raw.value
                    &&& *final(self).chunk().parts_desc == *old(self).chunk().parts_desc
                    &&& *final(self).chunk().block == *old(self).chunk().block
                },
            },
            final(self).is_held(),
            *final(final(self).chunk().parts_desc) == *final(old(self).chunk().parts_desc),
            *final(final(self).chunk().block) == *final(old(self).chunk().block),
    {
        proof {
            let k = offset as int / self.chunk().size();
            let used = self.chunk().used();
            laws::law_one_bit(used, k);
            laws::law_no_bit(used & !(1u32 << (k as u32)));
        }
        let res = match &mut self.held {
            Some(chunk) => chunk.free(offset),
            None => Err(AllocError::Retry),
        };
        proof {
            let k = offset as int / old(self).chunk().size();
            let rest = old(self).chunk().used() & !(1u32 << (k as u32));
            if res is Ok {
                assert(self.chunk().state() == layout::with_full(
                    layout::with_used(old(self).chunk().state(), rest),
                    false,
                ));
                assert(self.chunk().used() == rest);
            }
        }
        res
    }

    /// No part of the chunk is in use.
    pub fn empty(&mut self) -> (empty: bool)
        requires
            old(self).wf(),
            layout::bitmap_ok(old(self).chunk().size(), old(self).chunk().used()),
        ensures
            empty == (old(self).chunk().used() == 0),
            empty <==> forall|j: int| !#[trigger] bits::has_bit(old(self).chunk().used(), j),
            *final(self) == *old(self),
    {
        proof {
            laws::law_no_bit(self.chunk().used());
        }
        match &self.held {
            Some(chunk) => chunk.empty(),
            None => true,
        }
    }

    /// Turns the chunk into an allocated run of one chunk. Fails with `Retry`
    /// if the block has another descriptor than the expected one.
    fn make_alloc(&mut self) -> (res: Result<AllocDesc, AllocError>)
        requires
            old(self).wf(),
        ensures
            old(self).chunk().released(final(self).chunk(), res),
            final(self).is_held(),
            *final(final(self).chunk().parts_desc) == *final(old(self).chunk().parts_desc),
            *final(final(self).chunk().block) == *final(old(self).chunk().block),
    {
        match &mut self.held {
            Some(chunk) => chunk.make_alloc(),
            None => Err(AllocError::Retry),
        }
    }

    /// Gives the lock back, unless the chunk was released.
    pub fn unlock(self)
        requires
            self.is_held(),
            self.chunk().chunk_released || self.wf(),
        ensures
            self.chunk().given_back(final(self.chunk().parts_desc), final(self.chunk().block)),
            !self.chunk().chunk_released ==> {
                &&& !final(self.chunk().parts_desc).locked
                &&& !self.chunk().fits() ==> !final(self.chunk().block).desc(
                    self.chunk().index(),
                ).locked()
                &&& final(self.chunk().parts_desc).raw.index == self.chunk().index()
                &&& final(self.chunk().parts_desc).alloc_size == self.chunk().size()
                &&& final(self.chunk().parts_desc).used(final(self.chunk().block))
                    == self.chunk().used()
                &&& final(self.chunk().parts_desc).desc.full()
                    == self.chunk().parts_desc.desc.full()
            },
            self.chunk().chunk_released || self.chunk().fits() ==> *final(self.chunk().block)
                == *self.chunk().block,
            final(self.chunk().block).same_bytes(self.chunk().block),
            forall|j: int|
                0 <= j < CHUNK_COUNT && j != self.chunk().index() ==> #[trigger] final(self.chunk().block).desc(j)
                    == self.chunk().block.desc(j),
    {
        let mut guard = self;
        let mut held: Option<LockedParts<'b>> = None;
        std::mem::swap(&mut held, &mut guard.held);
        if let Some(chunk) = held {
            chunk.give_back();
        }
    }
}

impl<'b> Drop for PartsLockGuard<'b> {
    /// Gives the lock back if it is still held.
    fn drop(&mut self)
        ensures
            !final(self).is_held(),
            old(self).is_held() && (old(self).chunk().chunk_released || old(self).wf()) ==> old(
                self,
            ).chunk().given_back(
                final(old(self).chunk().parts_desc),
                final(old(self).chunk().block),
            ),
            old(self).wf() && !old(self).chunk().chunk_released ==> {
                &&& !final(old(self).chunk().parts_desc).locked
                &&& !old(self).chunk().fits() ==> !final(old(self).chunk().block).desc(
                    old(self).chunk().index(),
                ).locked()
                &&& final(old(self).chunk().parts_desc).used(final(old(self).chunk().block))
                    == old(self).chunk().used()
                &&& final(old(self).chunk().parts_desc).desc.full()
                    == old(self).chunk().parts_desc.desc.full()
            },
        opens_invariants none
        no_unwind
    {
        let mut held: Option<LockedParts<'b>> = None;
        std::mem::swap(&mut held, &mut self.held);
        if let Some(chunk) = held {
            chunk.give_back();
        }
    }
}

/// A bitmap covers all parts exactly if no part is left to be handed out.
proof fn lemma_full_bitmap(size: int, bitmap: u32, unavail_mask: u32)
    requires
        layout::is_part_size(size),
        forall|k: int|
            0 <= k < 32 ==> (#[trigger] bits::has_bit(unavail_mask, k) <==> !layout::part_available(
                size,
                k,
            )),
    ensures
        (bitmap & !unavail_mask) == !unavail_mask <==> layout::next_part(size, bitmap)
            == layout::part_count(size),
{
    let avail = !unavail_mask;
    layout::lemma_part_counts(size);
    layout::lemma_free_part_from(size, bitmap, layout::first_part(size));
    bits::lemma_bits(unavail_mask, 0);
    bits::lemma_bits(bitmap, avail);
    let f = layout::next_part(size, bitmap);
    if f == layout::part_count(size) {
        assert forall|k: int| 0 <= k < 32 implies (#[trigger] bits::has_bit(bitmap & avail, k)
            <==> bits::has_bit(avail, k)) by {
            assert(bits::has_bit(!unavail_mask, k) <==> !bits::has_bit(unavail_mask, k));
            if layout::part_available(size, k) {
                assert(bits::has_bit(bitmap, k));
            }
        }
        bits::lemma_same_bits(bitmap & avail, avail);
    } else {
        assert(layout::part_available(size, f));
        assert(!bits::has_bit(unavail_mask, f));
        assert(bits::has_bit(!unavail_mask, f));
        assert(!bits::has_bit(bitmap & avail, f));
    }
}

} // verus!
