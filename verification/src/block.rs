//! A block of memory with its allocator.
use crate::bits;
use crate::buddy;
use crate::defs::{
    BLOCK_SIZE, CHUNK_COUNT, CHUNK_SIZE, ChunkDescStorageType, DATA_CHUNK_COUNT, MAX_ORDER,
    MIN_ALLOC_SIZE,
};
use crate::descriptors::alloc_desc::AllocDesc;
use crate::descriptors::compound_desc::CompoundDesc;
use crate::descriptors::desc_storage::{DescStorage, RawDescType};
use crate::descriptors::free_desc::FreeDesc;
use crate::descriptors::meta_desc::MetaDesc;
use crate::descriptors::parts_desc::PartsDesc;
use crate::descriptors::raw_desc::RawDesc;
use crate::error::AllocError;
use crate::laws;
use crate::layout;
use crate::layout::ChunkState;
use crate::requests;
use vstd::prelude::*;

verus! {

/// The memory of one chunk.
#[derive(Debug, Copy, Clone)]
pub struct Chunk {
    data: [u8; CHUNK_SIZE],
}

/// The word that the first four bytes hold, lowest byte first.
pub open spec fn first_word(bytes: Seq<u8>) -> u32 {
    (bytes[0] as u32) | ((bytes[1] as u32) << 8) | ((bytes[2] as u32) << 16) | ((bytes[3] as u32)
        << 24)
}

impl Chunk {
    /// The bytes of the chunk.
    pub closed spec fn bytes(&self) -> Seq<u8> {
        self.data@
    }

    /// A chunk of zeros.
    pub fn new() -> (chunk: Self)
        ensures
            chunk.bytes() == Seq::new(CHUNK_SIZE as nat, |k: int| 0u8),
    {
        let chunk = Chunk { data: [0u8; CHUNK_SIZE] };
        assert(chunk.bytes() =~= Seq::new(CHUNK_SIZE as nat, |k: int| 0u8));
        chunk
    }

    /// The word at the start of the chunk.
    fn load_word(&self) -> (word: u32)
        ensures
            word == first_word(self.bytes()),
    {
        (self.data[0] as u32) | ((self.data[1] as u32) << 8) | ((self.data[2] as u32) << 16) | ((
        self.data[3] as u32) << 24)
    }

    /// Replaces the word at the start of the chunk.
    fn store_word(&mut self, word: u32)
        ensures
            first_word(final(self).bytes()) == word,
            final(self).bytes().len() == CHUNK_SIZE,
            forall|k: int|
                4 <= k < CHUNK_SIZE ==> #[trigger] final(self).bytes()[k] == old(self).bytes()[k],
    {
        proof {
            assert((((word & 0xff) as u8) as u32) | (((((word >> 8) & 0xff) as u8) as u32) << 8) | (((((
            word >> 16) & 0xff) as u8) as u32) << 16) | (((((word >> 24) & 0xff) as u8) as u32) << 24)
                == word) by (bit_vector);
        }
        self.data[0] = (word & 0xff) as u8;
        self.data[1] = ((word >> 8) & 0xff) as u8;
        self.data[2] = ((word >> 16) & 0xff) as u8;
        self.data[3] = ((word >> 24) & 0xff) as u8;
    }
}

impl Default for Chunk {
    fn default() -> (chunk: Self)
        ensures
            chunk.bytes() == Seq::new(CHUNK_SIZE as nat, |k: int| 0u8),
    {
        Chunk::new()
    }
}

/// The chunk that holds the descriptors.
#[derive(Debug)]
pub struct MetaChunk {
    descs: [ChunkDescStorageType; CHUNK_COUNT],
}

impl View for MetaChunk {
    type V = Seq<u32>;

    closed spec fn view(&self) -> Seq<u32> {
        self.descs@
    }
}

impl MetaChunk {
    /// There is one descriptor for each chunk.
    pub proof fn lemma_len(&self)
        ensures
            self@.len() == CHUNK_COUNT,
    {
    }

    /// Loads a descriptor.
    pub fn load(&self, index: usize) -> (val: u32)
        requires
            index < CHUNK_COUNT,
        ensures
            val == self@[index as int],
    {
        self.descs[index]
    }

    /// Stores a descriptor.
    pub fn store(&mut self, index: usize, val: u32)
        requires
            index < CHUNK_COUNT,
        ensures
            final(self)@ == old(self)@.update(index as int, val),
    {
        self.descs[index] = val;
    }

    /// Replaces a descriptor that still is the expected one, and fails with
    /// `Retry` if it is another one.
    pub fn update(&mut self, index: usize, old_val: u32, new_val: u32) -> (res: Result<
        (),
        AllocError,
    >)
        requires
            index < CHUNK_COUNT,
        ensures
            old(self)@[index as int] == old_val ==> res is Ok && final(self)@ == old(self)@.update(
                index as int,
                new_val,
            ),
            old(self)@[index as int] != old_val ==> res == Err::<(), AllocError>(AllocError::Retry)
                && *final(self) == *old(self),
        opens_invariants none
        no_unwind
    {
        if self.descs[index] == old_val {
            self.descs[index] = new_val;
            Ok(())
        } else {
            Err(AllocError::Retry)
        }
    }
}

/// Goes through the chunks of a block that are not the rest of a run.
#[derive(Debug)]
pub struct ChunkIterator<'a> {
    /// The block.
    pub block: &'a AllocBlock,
    /// The chunk that comes next.
    pub next_index: usize,
}

impl<'a> ChunkIterator<'a> {
    /// The end of the run of the given order that a chunk lies in.
    fn compound_end(index: usize, order: u32) -> (end: usize)
        requires
            order < usize::BITS,
            layout::run_end(index as int, order as nat) <= usize::MAX,
        ensures
            end == layout::run_end(index as int, order as nat),
            end as int % bits::pow2(order as nat) as int == 0,
            end - bits::pow2(order as nat) <= index < end,
    {
        let chunks: usize = 1usize << order;
        proof {
            bits::lemma_round_down(index, order);
            layout::lemma_aligned_end(index as int, order as nat);
        }
        let chunk_mask: usize = chunks - 1;
        (index & !chunk_mask) + chunks
    }

    /// The first chunk from `start` on that is not the rest of a run.
    fn skip_compound(&self, start: usize) -> (end: usize)
        ensures
            end == layout::skip_compound(self.block@, start as int),
            start <= CHUNK_COUNT ==> start <= end <= CHUNK_COUNT,
            forall|j: int| start <= j < end ==> #[trigger] self.block@[j] is Compound,
            end < CHUNK_COUNT ==> !(self.block@[end as int] is Compound),
    {
        let mut index: usize = start;
        while index < CHUNK_COUNT
            invariant
                start <= CHUNK_COUNT ==> start <= index <= CHUNK_COUNT,
                start > CHUNK_COUNT ==> index == start,
                forall|j: int| start <= j < index ==> #[trigger] self.block@[j] is Compound,
                layout::skip_compound(self.block@, start as int) == layout::skip_compound(
                    self.block@,
                    index as int,
                ),
            decreases CHUNK_COUNT - index,
        {
            let desc = self.block.load_desc(index);
            assert(self.block@[index as int] == layout::state_of(
                desc.value,
                first_word(self.block.chunk_bytes(index as int)),
            ));
            match desc.value().get_type() {
                Ok(t) => {
                    if t != RawDescType::Compound {
                        return index;
                    }
                },
                Err(_) => {
                    return index;
                },
            }
            index = index + 1;
        }
        CHUNK_COUNT
    }

    /// The descriptor of the next chunk, or nothing at the end of the block.
    /// At a descriptor without a valid type the iterator stays where it is and
    /// yields `Inval`.
    pub fn next(&mut self) -> (res: Option<Result<RawDesc, AllocError>>)
        requires
            old(self).next_index <= CHUNK_COUNT,
        ensures
            final(self).block == old(self).block,
            ({
                let i = old(self).next_index as int;
                let s = old(self).block@;
                if i == CHUNK_COUNT {
                    &&& res is None
                    &&& final(self).next_index == i
                } else if s[i] is Unknown {
                    &&& res == Some(Err::<RawDesc, AllocError>(AllocError::Inval))
                    &&& final(self).next_index == i
                } else {
                    &&& res == Some(
                        Ok::<RawDesc, AllocError>(
                            RawDesc { index: i as usize, value: old(self).block.desc(i) },
                        ),
                    )
                    &&& final(self).next_index == layout::next_chunk(s, i)
                }
            }),
            ({
                let i = old(self).next_index as int;
                let s = old(self).block@;
                let end = final(self).next_index as int;
                i < CHUNK_COUNT && !(s[i] is Unknown) ==> match s[i] {
                    ChunkState::Free { order } | ChunkState::Alloc { order } => {
                        &&& end % bits::pow2(order) as int == 0
                        &&& end - bits::pow2(order) <= i < end
                    },
                    ChunkState::Compound => {
                        &&& i < end <= CHUNK_COUNT
                        &&& forall|j: int| i < j < end ==> #[trigger] s[j] is Compound
                        &&& end < CHUNK_COUNT ==> !(s[end] is Compound)
                    },
                    _ => end == i + 1,
                }
            }),
    {
        if self.next_index == CHUNK_COUNT {
            return None;
        }
        let desc = self.block.load_desc(self.next_index);
        assert(self.block@[self.next_index as int] == layout::state_of(
            desc.value,
            first_word(self.block.chunk_bytes(self.next_index as int)),
        ));
        let t = match desc.value().get_type() {
            Ok(t) => t,
            Err(e) => return Some(Err(e)),
        };
        let new_index: usize = match t {
            RawDescType::Free | RawDescType::Alloc => {
                let order: u32 = desc.value().get_order();
                proof {
                    bits::lemma_one_shl(order);
                    bits::lemma_round_down(self.next_index, order);
                }
                Self::compound_end(self.next_index, order)
            },
            RawDescType::Compound => self.skip_compound(self.next_index + 1),
            _ => self.next_index + 1,
        };
        self.next_index = new_index;
        Some(Ok(desc))
    }
}

/// A block of memory that is divided into chunks. The first chunk holds the
/// descriptors of all chunks.
#[derive(Debug)]
pub struct AllocBlock {
    meta: MetaChunk,
    chunks: [Chunk; DATA_CHUNK_COUNT],
}

impl View for AllocBlock {
    type V = Seq<ChunkState>;

    /// What each chunk is used for.
    open spec fn view(&self) -> Seq<ChunkState> {
        Seq::new(
            CHUNK_COUNT as nat,
            |i: int| layout::state_of(self.desc(i), first_word(self.chunk_bytes(i))),
        )
    }
}

impl AllocBlock {
    /// The descriptor of chunk `i`.
    pub closed spec fn desc(&self, i: int) -> DescStorage {
        DescStorage { word: self.meta@[i] }
    }

    /// The memory of chunk `i`. That of the first chunk, which holds the
    /// descriptors, is left out.
    pub closed spec fn chunk_bytes(&self, i: int) -> Seq<u8> {
        if 0 < i < CHUNK_COUNT {
            self.chunks@[i - 1].bytes()
        } else {
            Seq::empty()
        }
    }

    /// The block can be used.
    pub open spec fn wf(&self) -> bool {
        layout::well_formed(self@)
    }

    /// No memory of any chunk differs.
    pub open spec fn same_bytes(&self, before: &Self) -> bool {
        forall|i: int|
            0 < i < CHUNK_COUNT ==> #[trigger] self.chunk_bytes(i) == before.chunk_bytes(i)
    }

    /// No memory of any chunk differs but for the word at the start of chunk
    /// `index`.
    pub open spec fn same_but_word(&self, before: &Self, index: int) -> bool {
        &&& forall|i: int|
            0 < i < CHUNK_COUNT && i != index ==> #[trigger] self.chunk_bytes(i)
                == before.chunk_bytes(i)
        &&& forall|k: int|
            4 <= k < CHUNK_SIZE ==> #[trigger] self.chunk_bytes(index)[k] == before.chunk_bytes(
                index,
            )[k]
    }

    /// Only the descriptor of chunk `index` differs: it is `desc` here.
    pub open spec fn wrote_desc(&self, before: &Self, index: int, desc: DescStorage) -> bool {
        &&& self.desc(index) == desc
        &&& forall|i: int|
            0 <= i < CHUNK_COUNT && i != index ==> #[trigger] self.desc(i) == before.desc(i)
        &&& self.same_bytes(before)
        &&& self@ == before@.update(
            index,
            layout::state_of(desc, first_word(before.chunk_bytes(index))),
        )
    }

    /// Only the word at the start of chunk `index` differs: it is `word` here.
    pub open spec fn wrote_word(&self, before: &Self, index: int, word: u32) -> bool {
        &&& forall|i: int| 0 <= i < CHUNK_COUNT ==> #[trigger] self.desc(i) == before.desc(i)
        &&& self.same_but_word(before, index)
        &&& first_word(self.chunk_bytes(index)) == word
        &&& self@ == before@.update(index, layout::state_of(before.desc(index), word))
    }

    /// Only chunk `index` differs, in its descriptor or in the word at its
    /// start: it is in state `c` here.
    pub open spec fn changed_chunk(&self, before: &Self, index: int, c: ChunkState) -> bool {
        &&& forall|i: int|
            0 <= i < CHUNK_COUNT && i != index ==> #[trigger] self.desc(i) == before.desc(i)
        &&& self.same_but_word(before, index)
        &&& self@ == before@.update(index, c)
    }

    /// A descriptor that says the same of its chunk as before is the same word
    /// as before.
    pub open spec fn kept_descs(&self, before: &Self) -> bool {
        forall|i: int|
            0 <= i < CHUNK_COUNT && layout::desc_part(self@[i]) == layout::desc_part(before@[i])
                ==> #[trigger] self.desc(i) == before.desc(i)
    }

    /// Every descriptor that does not say the same of its chunk as before is
    /// the one that follows from the layouts, from the descriptor before and,
    /// for runs, from the descriptor `run`.
    pub open spec fn next_descs(&self, before: &Self, run: DescStorage) -> bool {
        forall|i: int|
            0 <= i < CHUNK_COUNT && layout::desc_part(self@[i]) != layout::desc_part(before@[i])
                ==> #[trigger] self.desc(i) == layout::next_desc(
                self@[i],
                before@[i],
                before.desc(i),
                run,
            )
    }

    /// No descriptor has bits set that its type has no use for.
    pub open spec fn is_plain(&self) -> bool {
        forall|i: int| 0 <= i < CHUNK_COUNT ==> #[trigger] self.desc(i).is_plain()
    }

    /// The byte at an offset into the block.
    pub open spec fn byte(&self, offset: int) -> u8 {
        self.chunk_bytes(offset / CHUNK_SIZE as int)[offset % CHUNK_SIZE as int]
    }

    /// No memory differs but for the bitmaps at the start of chunks in the
    /// layout `s`.
    pub open spec fn same_memory(&self, before: &Self, s: Seq<ChunkState>) -> bool {
        forall|offset: int|
            CHUNK_SIZE <= offset < BLOCK_SIZE && !requests::is_bitmap_byte(s, offset)
                ==> #[trigger] self.byte(offset) == before.byte(offset)
    }

    /// What two steps in turn do to the descriptors, the second of which changes
    /// one chunk.
    proof fn lemma_chained_descs(
        &self,
        before: &Self,
        middle: &Self,
        index: int,
        run: DescStorage,
    )
        requires
            0 <= index < CHUNK_COUNT,
            before@.len() == CHUNK_COUNT,
            middle.kept_descs(before),
            middle.next_descs(before, run),
            before.is_plain() ==> middle.is_plain(),
            forall|j: int|
                0 <= j < CHUNK_COUNT && j != index ==> #[trigger] self.desc(j) == middle.desc(j),
            forall|j: int| 0 <= j < CHUNK_COUNT && j != index ==> #[trigger] self@[j] == middle@[j],
            layout::desc_part(self@[index]) == layout::desc_part(before@[index]) ==> self.desc(
                index,
            ) == before.desc(index),
            layout::desc_part(self@[index]) != layout::desc_part(before@[index]) ==> self.desc(
                index,
            ) == layout::next_desc(self@[index], before@[index], before.desc(index), run),
            middle.desc(index).is_plain() ==> self.desc(index).is_plain(),
        ensures
            self.kept_descs(before),
            self.next_descs(before, run),
            before.is_plain() ==> self.is_plain(),
    {
        assert forall|j: int|
            0 <= j < CHUNK_COUNT && layout::desc_part(self@[j]) == layout::desc_part(
                before@[j],
            ) implies #[trigger] self.desc(j) == before.desc(j) by {
            if j != index {
                assert(self.desc(j) == middle.desc(j));
                assert(self@[j] == middle@[j]);
            }
        }
        assert forall|j: int|
            0 <= j < CHUNK_COUNT && layout::desc_part(self@[j]) != layout::desc_part(
                before@[j],
            ) implies #[trigger] self.desc(j) == layout::next_desc(
            self@[j],
            before@[j],
            before.desc(j),
            run,
        ) by {
            if j != index {
                assert(self.desc(j) == middle.desc(j));
                assert(self@[j] == middle@[j]);
            }
        }
        if before.is_plain() {
            assert forall|j: int| 0 <= j < CHUNK_COUNT implies #[trigger] self.desc(j).is_plain() by {
                assert(middle.desc(j).is_plain());
            }
        }
    }

    /// If two steps touch at most the bitmap at the start of a chunk, and only
    /// where the chunk has one, they leave the memory as it is.
    proof fn lemma_same_memory(&self, before: &Self, middle: &Self, index: int)
        requires
            0 < index < CHUNK_COUNT,
            middle.same_but_word(before, index),
            self.same_but_word(middle, index),
            match self@[index] {
                ChunkState::Parts { size, .. } => layout::bitmap_fits(size as int)
                    ==> middle.same_bytes(before) && self.same_bytes(middle),
                _ => false,
            },
        ensures
            self.same_memory(before, self@),
    {
        assert forall|offset: int|
            CHUNK_SIZE <= offset < BLOCK_SIZE && !requests::is_bitmap_byte(
                self@,
                offset,
            ) implies #[trigger] self.byte(offset) == before.byte(offset) by {
            let i = offset / CHUNK_SIZE as int;
            let k = offset % CHUNK_SIZE as int;
            if i != index || k < 4 {
                assert(self.chunk_bytes(i) == middle.chunk_bytes(i));
                assert(middle.chunk_bytes(i) == before.chunk_bytes(i));
            } else {
                assert(self.chunk_bytes(index)[k] == middle.chunk_bytes(index)[k]);
                assert(middle.chunk_bytes(index)[k] == before.chunk_bytes(index)[k]);
            }
        }
    }

    /// A block of zeros, without descriptors.
    pub fn new() -> (block: Self)
        ensures
            layout::blank(block@),
            forall|i: int| 0 <= i < CHUNK_COUNT ==> #[trigger] block.desc(i).word == 0,
            block.is_plain(),
            forall|i: int|
                0 < i < CHUNK_COUNT ==> #[trigger] block.chunk_bytes(i) == Seq::new(
                    CHUNK_SIZE as nat,
                    |k: int| 0u8,
                ),
    {
        let block = AllocBlock {
            meta: MetaChunk { descs: [0u32; CHUNK_COUNT] },
            chunks: [Chunk::new(); DATA_CHUNK_COUNT],
        };
        let zero = DescStorage::new();
        assert forall|i: int| 0 <= i < CHUNK_COUNT implies #[trigger] block@[i] is Unknown by {
            assert(block.desc(i) == zero);
        }
        block
    }

    /// The chunk that holds the descriptors.
    pub fn descriptors(&self) -> (meta: &MetaChunk)
        ensures
            forall|i: int| 0 <= i < CHUNK_COUNT ==> #[trigger] self.desc(i).word == meta@[i],
    {
        &self.meta
    }

    /// The chunk that holds the descriptors, to change them. What they say of
    /// the chunks is up to the caller.
    pub fn descriptors_mut(&mut self) -> (meta: &mut MetaChunk)
        ensures
            meta@.len() == CHUNK_COUNT,
            final(meta)@.len() == CHUNK_COUNT,
            forall|i: int| 0 <= i < CHUNK_COUNT ==> #[trigger] old(self).desc(i).word == meta@[i],
            forall|i: int|
                0 <= i < CHUNK_COUNT ==> #[trigger] final(self).desc(i).word == final(meta)@[i],
            final(self).same_bytes(old(self)),
    {
        &mut self.meta
    }

    /// Loads the descriptor of a chunk.
    pub fn load_desc(&self, index: usize) -> (raw: RawDesc)
        requires
            index < CHUNK_COUNT,
        ensures
            raw.index == index,
            raw.value == self.desc(index as int),
    {
        let raw_desc = DescStorage::init(self.descriptors().load(index));
        assert(self.desc(index as int).word == raw_desc.word);
        RawDesc::new(index, raw_desc)
    }

    /// Stores the descriptor of a chunk.
    pub(crate) fn store_desc(&mut self, index: usize, desc: DescStorage)
        requires
            index < CHUNK_COUNT,
        ensures
            final(self).wrote_desc(old(self), index as int, desc),
    {
        self.meta.store(index, desc.word);
        assert(self@ =~= old(self)@.update(
            index as int,
            layout::state_of(desc, first_word(old(self).chunk_bytes(index as int))),
        ));
    }

    /// Replaces the descriptor of a chunk that still is the expected one, and
    /// fails with `Retry` if it is another one.
    pub(crate) fn update_desc(&mut self, index: usize, old_val: DescStorage, new_val: DescStorage) -> (res:
        Result<(), AllocError>)
        requires
            index < CHUNK_COUNT,
        ensures
            old(self).desc(index as int) == old_val ==> res is Ok && final(self).wrote_desc(
                old(self),
                index as int,
                new_val,
            ),
            old(self).desc(index as int) != old_val ==> res == Err::<(), AllocError>(
                AllocError::Retry,
            ) && *final(self) == *old(self),
        opens_invariants none
        no_unwind
    {
        let res = self.meta.update(index, old_val.word, new_val.word);
        if let Ok(()) = res {
            assert(self@ =~= old(self)@.update(
                index as int,
                layout::state_of(new_val, first_word(old(self).chunk_bytes(index as int))),
            ));
        }
        res
    }

    /// The bitmap at the start of a chunk that is handed out in parts and
    /// whose bitmap does not fit into the descriptor.
    pub fn chunk_bitmap(&self, index: usize) -> (bitmap: u32)
        requires
            0 < index < CHUNK_COUNT,
        ensures
            bitmap == first_word(self.chunk_bytes(index as int)),
    {
        self.chunks[index - 1].load_word()
    }

    /// Replaces the bitmap at the start of a chunk.
    pub(crate) fn set_chunk_bitmap(&mut self, index: usize, bitmap: u32)
        requires
            0 < index < CHUNK_COUNT,
        ensures
            final(self).wrote_word(old(self), index as int, bitmap),
    {
        self.chunks[index - 1].store_word(bitmap);
        assert(self@ =~= old(self)@.update(
            index as int,
            layout::state_of(old(self).desc(index as int), bitmap),
        ));
    }

    /// The chunks of the block, without the first one and without the rest of
    /// runs.
    fn iter(&self) -> (iter: ChunkIterator<'_>)
        ensures
            iter.block == self,
            iter.next_index == 1,
    {
        ChunkIterator { block: self, next_index: 1 }
    }

    /// Makes a free run of the given order that starts at a chunk.
    fn make_compound_page(&mut self, index: usize, order: u32)
        requires
            index as int % bits::pow2(order as nat) as int == 0,
            index + bits::pow2(order as nat) <= CHUNK_COUNT,
        ensures
            final(self).same_bytes(old(self)),
            forall|j: int|
                0 <= j < CHUNK_COUNT ==> #[trigger] final(self).desc(j) == if j == index {
                    DescStorage::plain(RawDescType::Free, order)
                } else if index < j < index + bits::pow2(order as nat) {
                    DescStorage::plain(RawDescType::Compound, 0)
                } else {
                    old(self).desc(j)
                },
            final(self)@ == Seq::new(
                CHUNK_COUNT as nat,
                |j: int|
                    if j == index {
                        ChunkState::Free { order: order as nat }
                    } else if index < j < index + bits::pow2(order as nat) {
                        ChunkState::Compound
                    } else {
                        old(self)@[j]
                    },
            ),
    {
        proof {
            bits::lemma_pow2_values();
            if order > 7 {
                vstd::arithmetic::power2::lemma_pow2_strictly_increases(7, order as nat);
            }
            bits::lemma_one_shl(order);
            bits::lemma_pow2_double(order as nat);
            DescStorage::lemma_plain(RawDescType::Free, order);
            DescStorage::lemma_plain(RawDescType::Compound, 0);
        }
        let count: usize = 1usize << order;
        let mut i: usize = index;
        while i < index + count
            invariant
                order < 16,
                count == bits::pow2(order as nat),
                index <= i <= index + count <= CHUNK_COUNT,
                self.same_bytes(old(self)),
                (DescStorage { word: 0 }).with_type(RawDescType::Free).with_order(order)
                    == DescStorage::plain(RawDescType::Free, order),
                (DescStorage { word: 0 }).with_type(RawDescType::Compound) == DescStorage::plain(
                    RawDescType::Compound,
                    0,
                ),
                forall|j: int|
                    0 <= j < CHUNK_COUNT ==> #[trigger] self.desc(j) == if index <= j < i {
                        if j == index {
                            DescStorage::plain(RawDescType::Free, order)
                        } else {
                            DescStorage::plain(RawDescType::Compound, 0)
                        }
                    } else {
                        old(self).desc(j)
                    },
                forall|j: int|
                    0 <= j < CHUNK_COUNT ==> #[trigger] self@[j] == if index <= j < i {
                        if j == index {
                            ChunkState::Free { order: order as nat }
                        } else {
                            ChunkState::Compound
                        }
                    } else {
                        old(self)@[j]
                    },
            decreases index + count - i,
        {
            if i == index {
                let mut desc = FreeDesc::new(i, DescStorage::new());
                desc.set_order(order);
                desc.store(self);
            } else {
                let desc = CompoundDesc::new(i, DescStorage::new());
                desc.store(self);
            }
            i = i + 1;
        }
        assert(self@ =~= Seq::new(
            CHUNK_COUNT as nat,
            |j: int|
                if j == index {
                    ChunkState::Free { order: order as nat }
                } else if index < j < index + bits::pow2(order as nat) {
                    ChunkState::Compound
                } else {
                    old(self)@[j]
                },
        ));
    }

    /// Sets up the descriptors of a block in which nothing is allocated.
    pub fn initialize(&mut self)
        ensures
            forall|i: int|
                0 <= i < CHUNK_COUNT ==> #[trigger] final(self).desc(i) == layout::initial_desc(i),
            final(self).is_plain(),
            layout::initial(final(self)@),
            forall|i: int|
                0 < i < CHUNK_COUNT ==> (#[trigger] final(self)@[i] is Free
                    || final(self)@[i] is Compound),
            layout::free_chunks(final(self)@) == CHUNK_COUNT - 1,
            final(self).wf(),
            layout::tidy(final(self)@),
            forall|a: int, n: int| !#[trigger] requests::is_live(final(self)@, a, n),
            final(self).same_bytes(old(self)),
    {
        let mut index: usize = 0;
        let ghost mut next_order: nat = 0;
        proof {
            bits::lemma_pow2_values();
        }
        while index != CHUNK_COUNT
            invariant
                next_order <= 7,
                index != 0 ==> index == bits::pow2(next_order),
                index == 0 ==> next_order == 0,
                index <= CHUNK_COUNT,
                self.same_bytes(old(self)),
                index != 0 ==> self@[0] is Meta,
                forall|i: int|
                    0 <= i < index ==> #[trigger] self.desc(i) == layout::initial_desc(i),
                forall|order: nat|
                    order < next_order ==> #[trigger] layout::is_free(
                        self@,
                        bits::pow2(order) as int,
                        order,
                    ),
                forall|order: nat, j: int|
                    order < next_order && #[trigger] bits::pow2(order) < j < bits::pow2(order + 1)
                        ==> #[trigger] self@[j] is Compound,
            decreases CHUNK_COUNT - index,
        {
            proof {
                bits::lemma_pow2_values();
            }
            if index == 0 {
                let desc = MetaDesc::new(index, DescStorage::new());
                proof {
                    DescStorage::lemma_plain(RawDescType::Meta, 0);
                }
                desc.store(self);
                index = index + 1;
            } else {
                proof {
                    assert(next_order < 7);
                    layout::lemma_power_run(next_order);
                    bits::lemma_trailing_zeros(index as u32, next_order);
                    bits::lemma_one_shl(next_order as u32);
                    bits::lemma_pow2_double(next_order);
                }
                let order: u32 = (index as u32).trailing_zeros();
                let chunks: usize = 1usize << order;
                let ghost before = self@;
                self.make_compound_page(index, order);
                proof {
                    assert forall|o: nat| o < next_order + 1 implies #[trigger] layout::is_free(
                        self@,
                        bits::pow2(o) as int,
                        o,
                    ) by {
                        if o < next_order {
                            assert(layout::is_free(before, bits::pow2(o) as int, o));
                            vstd::arithmetic::power2::lemma_pow2_strictly_increases(o, next_order);
                        }
                    }
                    assert forall|o: nat, j: int|
                        o < next_order + 1 && #[trigger] bits::pow2(o) < j < bits::pow2(
                            o + 1,
                        ) implies #[trigger] self@[j] is Compound by {
                        if o < next_order {
                            assert(before[j] is Compound);
                            if o + 1 < next_order {
                                vstd::arithmetic::power2::lemma_pow2_strictly_increases(
                                    o + 1,
                                    next_order,
                                );
                            }
                        }
                    }
                    assert forall|i: int| 0 <= i < index + chunks implies #[trigger] self.desc(i)
                        == layout::initial_desc(i) by {
                        if i >= index {
                            bits::lemma_log2_is(i, next_order);
                        }
                    }
                    next_order = next_order + 1;
                }
                index = index + chunks;
            }
        }
        proof {
            bits::lemma_pow2_values();
            assert(next_order == 7) by {
                if next_order < 7 {
                    vstd::arithmetic::power2::lemma_pow2_strictly_increases(next_order, 7);
                }
            }
            requests::lemma_initial(self@);
            laws::law_initially_free(self@);
            assert forall|i: int| 0 <= i < CHUNK_COUNT implies #[trigger] self.desc(i).is_plain() by {
                DescStorage::lemma_plain(RawDescType::Meta, 0);
                DescStorage::lemma_plain(RawDescType::Compound, 0);
                if i > 0 {
                    let order = requests::lemma_between_powers(i);
                    bits::lemma_log2_is(i, order);
                    DescStorage::lemma_plain(RawDescType::Free, order as u32);
                }
            }
        }
    }

    /// The offset of the first chunk of a run.
    fn chunk_offset(desc: AllocDesc) -> (offset: usize)
        requires
            desc.wf(),
        ensures
            offset == desc.raw.index * CHUNK_SIZE,
    {
        desc.index() * CHUNK_SIZE
    }

    /// Allocates the first free run of exactly the given order. Fails with
    /// `NoMatch`, which carries the orders of all free runs, if there is none,
    /// and with `Inval` if the block has no descriptors.
    fn alloc_buddy_one(&mut self, order: u32) -> (res: Result<AllocDesc, AllocError>)
        requires
            layout::tiled(old(self)@) || layout::blank(old(self)@),
        ensures
            final(self).same_bytes(old(self)),
            final(self).kept_descs(old(self)),
            old(self).is_plain() ==> final(self).is_plain(),
            layout::blank(old(self)@) ==> {
                &&& res == Err::<AllocDesc, AllocError>(AllocError::Inval)
                &&& *final(self) == *old(self)
            },
            layout::tiled(old(self)@) ==> {
                let i = buddy::first_free(old(self)@, order as nat);
                if i < CHUNK_COUNT {
                    &&& res matches Ok(desc) && {
                        &&& desc.wf()
                        &&& desc.raw.index == i
                        &&& desc.order() == order
                        &&& desc.raw.is_current(final(self))
                        &&& desc.raw.value == old(self).desc(i).with_type(RawDescType::Alloc)
                        &&& final(self).wrote_desc(old(self), i, desc.raw.value)
                    }
                    &&& final(self).next_descs(old(self), old(self).desc(i))
                    &&& i > 0
                    &&& layout::is_free(old(self)@, i, order as nat)
                    &&& forall|h: int|
                        h < i ==> !#[trigger] layout::is_free(old(self)@, h, order as nat)
                    &&& final(self)@ == old(self)@.update(
                        i,
                        ChunkState::Alloc { order: order as nat },
                    )
                } else {
                    &&& res matches Err(AllocError::NoMatch(orders)) && forall|k: int|
                        #[trigger] bits::has_bit(orders, k) <==> 0 <= k && layout::has_free(
                            old(self)@,
                            k as nat,
                        )
                    &&& *final(self) == *old(self)
                }
            },
    {
        // Orders observed in the block.
        let mut order_bitmap: u32 = 0;
        let ghost s = self@;
        let ghost p = |c: ChunkState| c == (ChunkState::Free { order: order as nat });
        let mut iter = self.iter();
        proof {
            bits::lemma_bit(0);
        }
        loop
            invariant
                s == self@,
                *self == *old(self),
                *iter.block == *self,
                layout::tiled(s) || layout::blank(s),
                1 <= iter.next_index <= CHUNK_COUNT,
                layout::blank(s) ==> iter.next_index == 1,
                p == (|c: ChunkState| c == (ChunkState::Free { order: order as nat })),
                forall|j: int| 1 <= j < iter.next_index ==> !p(#[trigger] s[j]),
                forall|k: int|
                    #[trigger] bits::has_bit(order_bitmap, k) <==> 0 <= k && layout::has_free_below(
                        s,
                        iter.next_index as int,
                        k as nat,
                    ),
            decreases CHUNK_COUNT - iter.next_index,
        {
            let ghost i = iter.next_index as int;
            let raw_desc = match iter.next() {
                None => {
                    proof {
                        buddy::lemma_first_is(s, p, 1, CHUNK_COUNT as int);
                        layout::lemma_has_free_below(s);
                    }
                    return Err(AllocError::NoMatch(order_bitmap));
                },
                Some(Err(e)) => {
                    assert(layout::tiled(s) ==> layout::chunk_ok(s, i));
                    return Err(e);
                },
                Some(Ok(raw_desc)) => raw_desc,
            };
            proof {
                assert(layout::blank(s) ==> s[i] is Unknown);
                assert(layout::tiled(s));
                layout::lemma_next_chunk(s, i);
                assert(s[i] == layout::state_of(
                    raw_desc.value,
                    first_word(self.chunk_bytes(i)),
                ));
                layout::lemma_has_free_step(s, i, iter.next_index as int);
            }
            let desc_type = match raw_desc.desc_type() {
                Ok(desc_type) => desc_type,
                Err(e) => return Err(e),
            };
            if desc_type != RawDescType::Free {
                continue;
            }
            let free_desc = match FreeDesc::try_from(raw_desc) {
                Ok(free_desc) => free_desc,
                Err(e) => return Err(e),
            };
            let found: u32 = free_desc.get_order();
            proof {
                bits::lemma_bit(found);
                bits::lemma_bits(order_bitmap, 1u32 << found);
            }
            order_bitmap = order_bitmap | (1u32 << found);
            if found == order {
                proof {
                    buddy::lemma_first_is(s, p, 1, i);
                    raw_desc.value.lemma_retyped(
                        RawDescType::Alloc,
                        RawDescType::Alloc,
                        order,
                        order,
                    );
                }
                return free_desc.allocate(self);
            }
        }
    }

    /// Allocates a run of the given order, from a longer run if there is none
    /// of that order. Fails with `NoMem` if no free run is long enough, and
    /// with `Inval` if the block has no descriptors.
    pub fn alloc_buddy_desc(&mut self, order: u32) -> (res: Result<AllocDesc, AllocError>)
        requires
            order < 32,
            layout::tiled(old(self)@) || layout::blank(old(self)@),
        ensures
            final(self).same_bytes(old(self)),
            final(self).kept_descs(old(self)),
            old(self).is_plain() ==> final(self).is_plain(),
            layout::blank(old(self)@) ==> {
                &&& res == Err::<AllocDesc, AllocError>(AllocError::Inval)
                &&& *final(self) == *old(self)
            },
            layout::tiled(old(self)@) ==> match buddy::take_run(old(self)@, order as nat) {
                Some((t, i)) => {
                    &&& final(self)@ == t
                    &&& final(self).next_descs(old(self), old(self).desc(i))
                    &&& res matches Ok(desc) && {
                        &&& desc.wf()
                        &&& desc.raw.index == i
                        &&& desc.order() == order
                        &&& desc.raw.is_current(final(self))
                    }
                },
                None => {
                    &&& res == Err::<AllocDesc, AllocError>(AllocError::NoMem)
                    &&& *final(self) == *old(self)
                },
            },
            layout::tiled(old(self)@) ==> match res {
                Ok(desc) => exists|o: nat| #[trigger]
                    laws::is_best_fit(old(self)@, order as nat, desc.raw.index as int, o)
                        && laws::is_cut(old(self)@, final(self)@, order as nat, desc.raw.index as int, o),
                Err(e) => {
                    &&& e == AllocError::NoMem
                    &&& *final(self) == *old(self)
                    &&& forall|o: nat|
                        o >= order ==> !#[trigger] layout::has_free(old(self)@, o)
                },
            },
        decreases 32 - order,
    {
        let ghost s = self@;
        proof {
            if layout::tiled(s) {
                laws::law_best_fit(s, order as nat);
            }
        }
        proof {
            bits::lemma_low_mask(order);
            bits::lemma_bits(((1u32 << order) - 1) as u32, 0);
        }
        let order_bmp_mask: u32 = !((1u32 << order) - 1);
        match self.alloc_buddy_one(order) {
            Ok(desc) => {
                proof {
                    let p = |c: ChunkState| c == (ChunkState::Free { order: order as nat });
                    buddy::lemma_first_from(s, p, 1);
                    assert(layout::chunk_ok(s, desc.raw.index as int));
                }
                Ok(desc)
            },
            Err(AllocError::NoMatch(bmp)) => {
                proof {
                    assert(layout::tiled(s));
                    buddy::lemma_take_run(s, order as nat);
                    bits::lemma_bits(bmp, order_bmp_mask);
                    bits::lemma_bit(0);
                    assert forall|k: int| 0 <= k < 32 implies (#[trigger] bits::has_bit(
                        bmp & order_bmp_mask,
                        k,
                    ) <==> k >= order && layout::has_free(s, k as nat)) by {
                        assert(bits::has_bit(bmp, k) <==> layout::has_free(s, k as nat));
                        assert(bits::has_bit(order_bmp_mask, k) <==> k >= order);
                    }
                }
                if (bmp & order_bmp_mask) == 0 {
                    // No more runs of the required length are available.
                    proof {
                        buddy::lemma_no_run(s, order as nat, bmp & order_bmp_mask);
                    }
                    Err(AllocError::NoMem)
                } else {
                    // No exact match, but longer runs are available: allocate
                    // one and split it up.
                    proof {
                        let k = buddy::lemma_longer_run(s, order as nat, bmp & order_bmp_mask);
                        buddy::lemma_none_free(s, order as nat);
                        assert(k != order);
                        buddy::lemma_take_run(s, order as nat + 1);
                    }
                    let alloc_desc = match self.alloc_buddy_desc(order + 1) {
                        Ok(alloc_desc) => alloc_desc,
                        Err(e) => return Err(e),
                    };
                    proof {
                        layout::lemma_halves(alloc_desc.raw.index as int, order as nat);
                        bits::lemma_pow2_double(order as nat);
                    }
                    let ghost block1 = *self;
                    let (alloc1, alloc2) = alloc_desc.split(self);
                    let _ = alloc2.free(self);
                    proof {
                        let i = alloc_desc.raw.index as int;
                        let m = i + bits::pow2(order as nat);
                        assert forall|j: int|
                            0 <= j < CHUNK_COUNT && layout::desc_part(self@[j])
                                == layout::desc_part(s[j]) implies #[trigger] self.desc(j) == old(
                            self,
                        ).desc(j) by {
                            if j == i {
                                assert(s[i] is Free);
                            } else if j == m {
                                assert(s[m] != ChunkState::Free { order: order as nat });
                            } else {
                                assert(self.desc(j) == block1.desc(j));
                                assert(self@[j] == block1@[j]);
                            }
                        }
                        let run = old(self).desc(i);
                        run.lemma_retyped(
                            RawDescType::Alloc,
                            RawDescType::Free,
                            (order + 1) as u32,
                            order,
                        );
                        assert(block1.desc(i) == run.with_type(RawDescType::Alloc).with_order(
                            (order + 1) as u32,
                        ));
                        assert forall|j: int|
                            0 <= j < CHUNK_COUNT && layout::desc_part(self@[j])
                                != layout::desc_part(s[j]) implies #[trigger] self.desc(j)
                            == layout::next_desc(self@[j], s[j], old(self).desc(j), run) by {
                            if j != i && j != m {
                                assert(self.desc(j) == block1.desc(j));
                                assert(self@[j] == block1@[j]);
                            }
                        }
                        if old(self).is_plain() {
                            assert(block1.desc(i).is_plain());
                            assert forall|j: int| 0 <= j < CHUNK_COUNT implies #[trigger] self.desc(
                                j,
                            ).is_plain() by {
                                if j != i && j != m {
                                    assert(self.desc(j) == block1.desc(j));
                                }
                            }
                        }
                    }
                    Ok(alloc1)
                }
            },
            Err(e) => Err(e),
        }
    }

    /// Allocates a run of the given order and returns its offset.
    fn alloc_buddy(&mut self, order: u32) -> (res: Result<usize, AllocError>)
        requires
            order < 32,
            layout::tiled(old(self)@) || layout::blank(old(self)@),
        ensures
            final(self).same_bytes(old(self)),
            final(self).kept_descs(old(self)),
            old(self).is_plain() ==> final(self).is_plain(),
            layout::blank(old(self)@) ==> {
                &&& res == Err::<usize, AllocError>(AllocError::Inval)
                &&& *final(self) == *old(self)
            },
            layout::tiled(old(self)@) ==> match buddy::take_run(old(self)@, order as nat) {
                Some((t, i)) => {
                    &&& final(self)@ == t
                    &&& final(self).next_descs(old(self), old(self).desc(i))
                    &&& res == Ok::<usize, AllocError>((i * CHUNK_SIZE) as usize)
                },
                None => {
                    &&& res == Err::<usize, AllocError>(AllocError::NoMem)
                    &&& *final(self) == *old(self)
                },
            },
            layout::tiled(old(self)@) ==> match res {
                Ok(offset) => {
                    &&& offset as int % CHUNK_SIZE as int == 0
                    &&& exists|o: nat| #[trigger]
                        laws::is_best_fit(
                            old(self)@,
                            order as nat,
                            offset as int / CHUNK_SIZE as int,
                            o,
                        ) && laws::is_cut(
                            old(self)@,
                            final(self)@,
                            order as nat,
                            offset as int / CHUNK_SIZE as int,
                            o,
                        )
                },
                Err(e) => {
                    &&& e == AllocError::NoMem
                    &&& forall|o: nat|
                        o >= order ==> !#[trigger] layout::has_free(old(self)@, o)
                },
            },
    {
        match self.alloc_buddy_desc(order) {
            Ok(desc) => {
                proof {
                    let i = desc.raw.index as int;
                    assert((i * CHUNK_SIZE) / CHUNK_SIZE as int == i);
                    assert((i * CHUNK_SIZE) % CHUNK_SIZE as int == 0);
                }
                Ok(AllocBlock::chunk_offset(desc))
            },
            Err(e) => Err(e),
        }
    }

    /// Frees a run, after joining it with its buddy for as long as the buddy
    /// is free. All of its chunks lie in one free run after that, exactly they
    /// are free in addition, and what was allocated elsewhere stays as it is.
    pub fn free_buddy_desc(&mut self, desc: AllocDesc)
        requires
            layout::tiled(old(self)@),
            desc.wf(),
            desc.raw.index > 0,
            desc.raw.is_current(old(self)),
        ensures
            final(self)@ == buddy::release_run(
                old(self)@,
                desc.raw.index as int,
                desc.order(),
            ),
            layout::tiled(final(self)@),
            layout::coalesced(old(self)@) ==> layout::coalesced(final(self)@),
            layout::free_chunks(final(self)@) == layout::free_chunks(old(self)@) + bits::pow2(
                desc.order(),
            ),
            exists|h: int, o: nat| #[trigger]
                laws::is_joined(
                    old(self)@,
                    final(self)@,
                    desc.raw.index as int,
                    desc.order(),
                    h,
                    o,
                ),
            exists|h: int, o: nat| #[trigger]
                buddy::is_freed_into(
                    old(self)@,
                    final(self)@,
                    desc.raw.index as int,
                    desc.order(),
                    h,
                    o,
                ),
            final(self).same_bytes(old(self)),
            final(self).kept_descs(old(self)),
            final(self).next_descs(old(self), desc.raw.value),
            old(self).is_plain() ==> final(self).is_plain(),
        decreases MAX_ORDER + 1 - desc.order(),
    {
        let ghost s = self@;
        proof {
            assert(layout::is_alloc(s, desc.raw.index as int, desc.order()));
            assert(layout::chunk_ok(s, desc.raw.index as int));
            laws::law_freed_run(s, desc.raw.index as int, desc.order());
            let (h, o) = laws::law_joined(s, desc.raw.index as int, desc.order());
        }
        match desc.try_merge(self) {
            // Merge successful: free the merged run.
            Ok(alloc_desc) => {
                proof {
                    buddy::lemma_join(s, desc.raw.index as int, desc.order());
                }
                let ghost block1 = *self;
                self.free_buddy_desc(alloc_desc);
                proof {
                    let i = desc.raw.index as int;
                    let lo = buddy::lower(i, desc.order());
                    let hi = buddy::higher(i, desc.order());
                    buddy::lemma_release_run(block1@, lo, desc.order() + 1);
                    assert forall|j: int|
                        0 <= j < CHUNK_COUNT && layout::desc_part(self@[j]) == layout::desc_part(
                            s[j],
                        ) implies #[trigger] self.desc(j) == old(self).desc(j) by {
                        if j == lo || j == hi {
                            assert(buddy::is_grown(self@[j], desc.order() + 1));
                            assert(s[j] is Alloc || s[j] == ChunkState::Free {
                                order: desc.order(),
                            });
                        } else {
                            assert(block1@[j] == s[j]);
                            assert(block1.desc(j) == old(self).desc(j));
                        }
                    }
                    assert forall|j: int|
                        0 <= j < CHUNK_COUNT && layout::desc_part(self@[j]) != layout::desc_part(
                            s[j],
                        ) implies #[trigger] self.desc(j) == layout::next_desc(
                        self@[j],
                        s[j],
                        old(self).desc(j),
                        desc.raw.value,
                    ) by {
                        if j != lo && j != hi {
                            assert(block1@[j] == s[j]);
                            assert(block1.desc(j) == old(self).desc(j));
                        }
                        assert(buddy::is_grown(self@[j], desc.order()));
                        if let ChunkState::Free { order: o } = self@[j] {
                            assert(layout::chunk_ok(self@, j));
                            desc.raw.value.lemma_retyped(
                                RawDescType::Free,
                                RawDescType::Free,
                                (desc.order() + 1) as u32,
                                o as u32,
                            );
                        }
                    }
                }
            },
            // No merge: free the run.
            Err(alloc_desc) => {
                proof {
                    alloc_desc.raw.value.lemma_retyped(
                        RawDescType::Free,
                        RawDescType::Free,
                        alloc_desc.order() as u32,
                        alloc_desc.order() as u32,
                    );
                }
                let _ = alloc_desc.free(self);
            },
        }
    }

    /// Frees the run that starts in the chunk of the offset.
    fn free_buddy(&mut self, offset: usize)
        requires
            layout::tiled(old(self)@),
            offset < BLOCK_SIZE,
            old(self)@[offset as int / CHUNK_SIZE as int] is Alloc,
        ensures
            final(self)@ == requests::free_layout(old(self)@, offset as int),
            exists|h: int, o: nat| #[trigger]
                laws::is_joined(
                    old(self)@,
                    final(self)@,
                    offset as int / CHUNK_SIZE as int,
                    old(self)@[offset as int / CHUNK_SIZE as int]->Alloc_order,
                    h,
                    o,
                ),
            final(self).same_bytes(old(self)),
            final(self).kept_descs(old(self)),
            final(self).next_descs(
                old(self),
                old(self).desc(offset as int / CHUNK_SIZE as int),
            ),
            old(self).is_plain() ==> final(self).is_plain(),
    {
        let index: usize = offset / CHUNK_SIZE;
        let raw_desc = self.load_desc(index);
        assert(self@[index as int] == layout::state_of(
            raw_desc.value,
            first_word(self.chunk_bytes(index as int)),
        ));
        if let Ok(alloc_desc) = AllocDesc::try_from(raw_desc) {
            self.free_buddy_desc(alloc_desc);
        }
    }

    /// Finds the first chunk that is handed out in parts of `size` bytes and
    /// does not count as full. Fails with `NoMatch` if there is none, and with
    /// `Inval` if the block has no descriptors.
    fn find_parts_chunk(&self, size: usize) -> (res: Result<PartsDesc, AllocError>)
        requires
            layout::well_formed(self@) || layout::blank(self@),
        ensures
            layout::blank(self@) ==> res == Err::<PartsDesc, AllocError>(AllocError::Inval),
            layout::well_formed(self@) ==> {
                let i = requests::first_parts(self@, size as int);
                if i < CHUNK_COUNT {
                    &&& i > 0
                    &&& res matches Ok(parts) && {
                        &&& parts.wf()
                        &&& parts.raw.index == i
                        &&& parts.alloc_size == size
                        &&& !parts.locked
                        &&& !parts.full
                        &&& parts.is_stored(self)
                        &&& parts.state(self) == self@[i]
                    }
                } else {
                    res == Err::<PartsDesc, AllocError>(AllocError::NoMatch(0))
                }
            },
            layout::well_formed(self@) ==> match res {
                Ok(parts) => laws::is_first_open(self@, size as int, parts.raw.index as int),
                Err(_) => forall|j: int|
                    0 < j < CHUNK_COUNT ==> !laws::is_open_to(#[trigger] self@[j], size as int),
            },
    {
        let ghost s = self@;
        let ghost p = |c: ChunkState| requests::has_room(c, size as int);
        let mut iter = self.iter();
        loop
            invariant
                s == self@,
                iter.block == self,
                layout::well_formed(s) || layout::blank(s),
                1 <= iter.next_index <= CHUNK_COUNT,
                layout::blank(s) ==> iter.next_index == 1,
                p == (|c: ChunkState| requests::has_room(c, size as int)),
                forall|j: int| 1 <= j < iter.next_index ==> !p(#[trigger] s[j]),
            decreases CHUNK_COUNT - iter.next_index,
        {
            let ghost i = iter.next_index as int;
            let raw_desc = match iter.next() {
                None => {
                    proof {
                        buddy::lemma_first_is(s, p, 1, CHUNK_COUNT as int);
                        if layout::well_formed(s) {
                            laws::law_open(s, size as int);
                            assert forall|j: int| 0 < j < CHUNK_COUNT implies !laws::is_open_to(
                                #[trigger] s[j],
                                size as int,
                            ) by {
                                assert(!p(s[j]));
                            }
                        }
                    }
                    return Err(AllocError::NoMatch(0));
                },
                Some(Err(e)) => {
                    assert(layout::tiled(s) ==> layout::chunk_ok(s, i));
                    return Err(e);
                },
                Some(Ok(raw_desc)) => raw_desc,
            };
            proof {
                assert(layout::blank(s) ==> s[i] is Unknown);
                layout::lemma_next_chunk(s, i);
                assert(s[i] == layout::state_of(raw_desc.value, first_word(self.chunk_bytes(i))));
                assert(layout::parts_valid(s[i]));
                assert(layout::is_unlocked(s[i]));
            }
            if let Ok(parts_desc) = PartsDesc::try_from(raw_desc) {
                if size != parts_desc.alloc_size() || parts_desc.is_full() {
                    continue;
                }
                proof {
                    buddy::lemma_first_is(s, p, 1, i);
                    laws::law_open(s, size as int);
                    assert forall|j: int| 0 < j < i implies !laws::is_open_to(
                        #[trigger] s[j],
                        size as int,
                    ) by {
                        assert(!p(s[j]));
                    }
                    assert(p(s[i]));
                }
                return Ok(parts_desc);
            }
        }
    }

    /// Takes a chunk to hand it out in parts of `size` bytes. Fails with
    /// `NoMem` if no chunk is free, and with `Inval` if the block has no
    /// descriptors.
    fn alloc_parts_chunk(&mut self, size: usize) -> (res: Result<PartsDesc, AllocError>)
        requires
            layout::well_formed(old(self)@) || layout::blank(old(self)@),
            layout::is_part_size(size as int),
        ensures
            layout::bitmap_fits(size as int) ==> final(self).same_bytes(old(self)),
            final(self).kept_descs(old(self)),
            old(self).is_plain() ==> final(self).is_plain(),
            layout::blank(old(self)@) ==> {
                &&& res == Err::<PartsDesc, AllocError>(AllocError::Inval)
                &&& *final(self) == *old(self)
            },
            layout::well_formed(old(self)@) ==> match buddy::take_run(old(self)@, 0) {
                Some((t, i)) => {
                    &&& 0 < i < CHUNK_COUNT
                    &&& final(self)@ == t.update(i, layout::fresh_parts(size as nat))
                    &&& final(self).next_descs(old(self), old(self).desc(i))
                    &&& final(self).same_but_word(old(self), i)
                    &&& res matches Ok(parts) && {
                        &&& parts.wf()
                        &&& parts.raw.index == i
                        &&& parts.alloc_size == size
                        &&& !parts.locked
                        &&& !parts.full
                        &&& parts.desc == (DescStorage { word: 0 }).with_type(
                            RawDescType::Parts,
                        ).with_order(bits::log2(size as int) as u32)
                        &&& parts.is_stored(final(self))
                        &&& parts.state(final(self)) == layout::fresh_parts(size as nat)
                    }
                },
                None => {
                    &&& res == Err::<PartsDesc, AllocError>(AllocError::NoMem)
                    &&& *final(self) == *old(self)
                },
            },
    {
        let ghost s = self@;
        proof {
            if layout::tiled(s) {
                buddy::lemma_take_run(s, 0);
            }
        }
        let alloc_desc = match self.alloc_buddy_desc(0) {
            Ok(alloc_desc) => alloc_desc,
            Err(e) => return Err(e),
        };
        let ghost block1 = *self;
        let parts_desc = alloc_desc.make_parts(self, size);
        proof {
            let i = alloc_desc.raw.index as int;
            assert(s[i] is Free);
            assert(self.desc(i) == parts_desc.desc);
            layout::lemma_part_size_log(size as int);
            DescStorage::lemma_nothing_used(
                RawDescType::Parts,
                bits::log2(size as int) as u32,
            );
            self.lemma_chained_descs(old(self), &block1, i, old(self).desc(i));
        }
        Ok(parts_desc)
    }

    /// Allocates a part of `size` bytes and returns its offset.
    fn alloc_parts(&mut self, size: usize) -> (res: Result<usize, AllocError>)
        requires
            layout::well_formed(old(self)@) || layout::blank(old(self)@),
            layout::is_part_size(size as int),
        ensures
            final(self).kept_descs(old(self)),
            old(self).is_plain() ==> final(self).is_plain(),
            layout::blank(old(self)@) ==> {
                &&& res == Err::<usize, AllocError>(AllocError::Inval)
                &&& *final(self) == *old(self)
            },
            layout::well_formed(old(self)@) ==> laws::is_part_request_done(
                old(self)@,
                final(self)@,
                size as int,
                match res {
                    Ok(offset) => Ok(offset as int),
                    Err(e) => Err(e),
                },
            ),
            layout::well_formed(old(self)@) ==> {
                &&& final(self)@ == requests::take_part(old(self)@, size as int).0
                &&& res == requests::answer(requests::take_part(old(self)@, size as int).1)
                &&& final(self).same_memory(old(self), final(self)@)
                &&& requests::first_parts(old(self)@, size as int) >= CHUNK_COUNT && buddy::take_run(
                    old(self)@,
                    0,
                ) is None ==> *final(self) == *old(self)
                &&& match res {
                    Ok(offset) => final(self).next_descs(
                        old(self),
                        old(self).desc(offset as int / CHUNK_SIZE as int),
                    ),
                    Err(_) => forall|run: DescStorage|
                        #[trigger] final(self).next_descs(old(self), run),
                }
            },
    {
        let ghost s = self@;
        let ghost block0 = *self;
        proof {
            if layout::well_formed(s) {
                laws::law_part_request(s, size as int);
            }
        }
        let mut parts_desc = match self.find_parts_chunk(size) {
            Ok(parts_desc) => parts_desc,
            Err(_) => match self.alloc_parts_chunk(size) {
                Ok(parts_desc) => parts_desc,
                Err(e) => return Err(e),
            },
        };
        let index: usize = parts_desc.index();
        let ghost t = self@;
        let ghost block1 = *self;
        proof {
            assert(layout::well_formed(s));
            if requests::first_parts(s, size as int) < CHUNK_COUNT {
                assert(layout::parts_valid(s[index as int]));
                assert(layout::is_unlocked(s[index as int]));
                buddy::lemma_first_from(
                    s,
                    |c: ChunkState| requests::has_room(c, size as int),
                    1,
                );
            } else {
                buddy::lemma_take_run(s, 0);
                assert(s[index as int] is Free);
                bits::lemma_bit(0);
                assert(layout::bitmap_ok(size as int, 0));
            }
            layout::lemma_part_counts(size as int);
            layout::lemma_free_part_from(
                size as int,
                parts_desc.used(self),
                layout::first_part(size as int),
            );
            let k = layout::next_part(size as int, parts_desc.used(self));
            if k < layout::part_count(size as int) {
                bits::lemma_bit(k as u32);
                bits::lemma_bits(parts_desc.used(self), 1u32 << (k as u32));
                assert(bits::has_bit(parts_desc.used(self) | (1u32 << (k as u32)), k));
                requests::lemma_part_offset(index as int, size as int, k);
                vstd::arithmetic::mul::lemma_mul_is_commutative(k, size as int);
            }
        }
        let res = parts_desc.alloc_part(self);
        proof {
            assert(self@ =~= requests::place_part(t, index as int).0);
            self.lemma_same_memory(&block0, &block1, index as int);
            layout::lemma_part_size_log(size as int);
            DescStorage::lemma_nothing_used(
                RawDescType::Parts,
                bits::log2(size as int) as u32,
            );
            self.lemma_chained_descs(&block0, &block1, index as int, block0.desc(index as int));
            if res is Err {
                assert(requests::first_parts(s, size as int) < CHUNK_COUNT);
                assert forall|run: DescStorage| #[trigger] self.next_descs(&block0, run) by {
                    self.lemma_chained_descs(&block0, &block1, index as int, run);
                }
            }
        }
        match res {
            Ok(offset) => Ok((index * CHUNK_SIZE) + offset),
            Err(e) => Err(e),
        }
    }

    /// Frees the part that begins at the offset, and the chunk with it if no
    /// other part of it is in use.
    fn free_parts(&mut self, offset: usize)
        requires
            layout::well_formed(old(self)@),
            requests::can_free(old(self)@, offset as int),
            old(self)@[offset as int / CHUNK_SIZE as int] is Parts,
        ensures
            final(self)@ == requests::free_layout(old(self)@, offset as int),
            laws::is_free_done(old(self)@, final(self)@, offset as int),
            final(self).same_memory(old(self), old(self)@),
            final(self).kept_descs(old(self)),
            final(self).next_descs(old(self), DescStorage::plain(RawDescType::Alloc, 0)),
            old(self).is_plain() ==> final(self).is_plain(),
    {
        let ghost s = self@;
        let ghost block0 = *self;
        proof {
            laws::law_free(s, offset as int);
        }
        let chunk_offset: usize = offset % CHUNK_SIZE;
        let chunk_index: usize = offset / CHUNK_SIZE;
        let ghost i = chunk_index as int;
        let raw_desc = self.load_desc(chunk_index);
        proof {
            assert(s[i] == layout::state_of(raw_desc.value, first_word(self.chunk_bytes(i))));
            assert(layout::parts_valid(s[i]));
            assert(layout::is_unlocked(s[i]));
        }
        if let Ok(parts_desc) = PartsDesc::try_from(raw_desc) {
            let mut parts_desc = parts_desc;
            proof {
                let k = chunk_offset as int / parts_desc.alloc_size as int;
                let used = parts_desc.used(self);
                bits::lemma_bit(k as u32);
                bits::lemma_bits(1u32 << (k as u32), 0);
                bits::lemma_bits(used, !(1u32 << (k as u32)));
                assert(!bits::has_bit(used & !(1u32 << (k as u32)), k));
                parts_desc.desc.lemma_lock_unlock(false);
            }
            let result = parts_desc.free_part(self, chunk_offset);
            let ghost block1 = *self;
            proof {
                block1.lemma_chained_descs(
                    &block0,
                    &block0,
                    i,
                    DescStorage::plain(RawDescType::Alloc, 0),
                );
            }
            if let Ok(is_empty) = result {
                if is_empty {
                    proof {
                        bits::lemma_bit(0);
                    }
                    if let Ok(alloc_desc) = parts_desc.try_to_alloc(self) {
                        proof {
                            buddy::lemma_mark_chunk(s, i, ChunkState::Alloc { order: 0 });
                            assert(self@ =~= s.update(i, ChunkState::Alloc { order: 0 }));
                        }
                        let ghost block2 = *self;
                        self.free_buddy_desc(alloc_desc);
                        proof {
                            buddy::lemma_release_run(block2@, i, 0);
                            assert forall|j: int|
                                0 <= j < CHUNK_COUNT && layout::desc_part(self@[j])
                                    == layout::desc_part(s[j]) implies #[trigger] self.desc(j)
                                == block0.desc(j) by {
                                if j != i {
                                    assert(block2.desc(j) == block1.desc(j));
                                    assert(block1.desc(j) == block0.desc(j));
                                    assert(block2@[j] == s[j]);
                                }
                            }
                            assert forall|j: int|
                                0 <= j < CHUNK_COUNT && layout::desc_part(self@[j])
                                    != layout::desc_part(s[j]) implies #[trigger] self.desc(j)
                                == layout::next_desc(
                                self@[j],
                                s[j],
                                block0.desc(j),
                                DescStorage::plain(RawDescType::Alloc, 0),
                            ) by {
                                if j != i {
                                    assert(block2@[j] == s[j]);
                                }
                                assert(buddy::is_grown(self@[j], 0));
                            }
                            if block0.is_plain() {
                                assert forall|j: int| 0 <= j < CHUNK_COUNT implies #[trigger] block2.desc(
                                    j,
                                ).is_plain() by {
                                    assert(block1.desc(j).is_plain());
                                }
                            }
                        }
                    }
                }
            }
            proof {
                block1.lemma_same_memory(&block0, &block0, i);
                assert forall|o: int|
                    CHUNK_SIZE <= o < BLOCK_SIZE && !requests::is_bitmap_byte(
                        s,
                        o,
                    ) implies #[trigger] self.byte(o) == block0.byte(o) by {
                    assert(self.chunk_bytes(o / CHUNK_SIZE as int) == block1.chunk_bytes(
                        o / CHUNK_SIZE as int,
                    ));
                    assert(block1.byte(o) == block0.byte(o));
                }
            }
        }
    }

    /// The order of the runs of `size` bytes.
    fn get_order(size: usize) -> (order: u32)
        requires
            CHUNK_SIZE <= size,
        ensures
            order == requests::order_of(size as int),
            CHUNK_SIZE * bits::pow2(order as nat) <= size < CHUNK_SIZE * bits::pow2(
                order as nat + 1,
            ),
    {
        bits::ilog2(size / CHUNK_SIZE)
    }

    /// The memory that is handed out for a request of `size` bytes, or `Inval`
    /// if the request is for more than half a block.
    fn allocation_size(size: usize) -> (res: Result<usize, AllocError>)
        ensures
            size > BLOCK_SIZE as int / 2 ==> res == Err::<usize, AllocError>(AllocError::Inval),
            size <= BLOCK_SIZE as int / 2 ==> res == Ok::<usize, AllocError>(
                requests::rounded(size as int) as usize,
            ),
            res matches Ok(n) ==> laws::is_served_with(size as int, n as int),
    {
        proof {
            if size <= BLOCK_SIZE / 2 {
                requests::lemma_rounded(size as int);
                laws::law_one_size_serves(size as int, requests::rounded(size as int));
            }
        }
        if size > (BLOCK_SIZE / 2) {
            Err(AllocError::Inval)
        } else {
            let power: usize = next_power_of_two(size);
            proof {
                requests::lemma_doubled(size as int);
            }
            if power >= MIN_ALLOC_SIZE {
                Ok(power)
            } else {
                Ok(MIN_ALLOC_SIZE)
            }
        }
    }

    /// Allocates at least `size` bytes and returns the offset of the memory in
    /// the block.
    ///
    /// The memory is aligned to its size, which is the smallest power of two
    /// that is large enough. The errors are `Inval` if the request is for more
    /// than half a block or the block was not initialized, and `NoMem` if
    /// there is not enough memory. `NoMem` is also the answer if the first
    /// chunk of parts that is not marked as full turns out to have no part
    /// left; it is marked in that case, and passed over from then on.
    pub fn allocate(&mut self, size: usize) -> (res: Result<usize, AllocError>)
        requires
            old(self).wf() || layout::blank(old(self)@),
        ensures
            final(self).kept_descs(old(self)),
            forall|j: int|
                0 <= j < CHUNK_COUNT && final(self)@[j] == old(self)@[j]
                    ==> #[trigger] final(self).desc(j) == old(self).desc(j),
            old(self).is_plain() ==> final(self).is_plain(),
            size > BLOCK_SIZE as int / 2 ==> {
                &&& res == Err::<usize, AllocError>(AllocError::Inval)
                &&& *final(self) == *old(self)
            },
            layout::blank(old(self)@) ==> {
                &&& res == Err::<usize, AllocError>(AllocError::Inval)
                &&& *final(self) == *old(self)
            },
            old(self).wf() && size <= BLOCK_SIZE as int / 2 ==> forall|n: int| #[trigger]
                laws::is_served_with(size as int, n) ==> laws::is_request_done(
                    old(self)@,
                    final(self)@,
                    n,
                    match res {
                        Ok(offset) => Ok(offset as int),
                        Err(e) => Err(e),
                    },
                ),
            old(self).wf() ==> {
                &&& final(self).wf()
                &&& layout::tidy(old(self)@) ==> layout::tidy(final(self)@)
                &&& final(self)@ == requests::alloc_layout(old(self)@, size as int).0
                &&& res == requests::answer(requests::alloc_layout(old(self)@, size as int).1)
                &&& final(self).same_memory(old(self), final(self)@)
            },
            old(self).wf() ==> forall|b: int|
                CHUNK_SIZE <= b < BLOCK_SIZE && b % CHUNK_SIZE as int >= 4 ==> #[trigger] final(self).byte(b)
                    == old(self).byte(b),
            old(self).wf() ==> forall|a: int, n: int, b: int|
                #![trigger requests::is_live(old(self)@, a, n), final(self).byte(b)]
                requests::is_live(old(self)@, a, n) && a <= b < a + n ==> final(self).byte(b)
                    == old(self).byte(b),
            old(self).wf() ==> match res {
                Ok(offset) => {
                    &&& requests::alloc_layout(old(self)@, size as int).1 == Ok::<int, AllocError>(
                        offset as int,
                    )
                    &&& final(self).next_descs(
                        old(self),
                        old(self).desc(offset as int / CHUNK_SIZE as int),
                    )
                    &&& size <= BLOCK_SIZE as int / 2
                    &&& CHUNK_SIZE <= offset
                    &&& offset + requests::rounded(size as int) <= BLOCK_SIZE
                    &&& offset as int % requests::rounded(size as int) == 0
                    &&& requests::can_free(final(self)@, offset as int)
                    &&& requests::freed_offset(final(self)@, offset as int) == offset
                    &&& forall|a: int, n: int|
                        #[trigger] requests::is_live(final(self)@, a, n) <==> requests::is_live(
                            old(self)@,
                            a,
                            n,
                        ) || a == offset && n == requests::rounded(size as int)
                },
                Err(e) => {
                    &&& forall|run: DescStorage|
                        #[trigger] final(self).next_descs(old(self), run)
                    &&& e == AllocError::Inval <==> size > BLOCK_SIZE as int / 2
                    &&& e == AllocError::NoMem <==> size <= BLOCK_SIZE as int / 2
                    &&& forall|a: int, n: int|
                        #[trigger] requests::is_live(final(self)@, a, n) <==> requests::is_live(
                            old(self)@,
                            a,
                            n,
                        )
                },
            },
    {
        proof {
            if layout::well_formed(self@) {
                requests::lemma_alloc_layout(self@, size as int);
                if size <= BLOCK_SIZE / 2 {
                    assert forall|n: int| #[trigger]
                        laws::is_served_with(size as int, n) implies laws::is_request_done(
                        self@,
                        requests::alloc_layout(self@, size as int).0,
                        n,
                        requests::alloc_layout(self@, size as int).1,
                    ) by {
                        laws::law_request(self@, size as int, n);
                    }
                }
                if let Ok(offset) = requests::alloc_layout(self@, size as int).1 {
                    laws::law_live_can_be_freed(
                        requests::alloc_layout(self@, size as int).0,
                        offset,
                        requests::rounded(size as int),
                    );
                }
            }
        }
        let adjusted_size: usize = match Self::allocation_size(size) {
            Ok(adjusted_size) => adjusted_size,
            Err(e) => return Err(e),
        };
        proof {
            requests::lemma_rounded(size as int);
        }
        proof {
            if self.wf() {
                let t = requests::alloc_layout(self@, size as int).0;
                let before = *self;
                assert forall|after: AllocBlock, a: int, n: int, b: int|
                    #![trigger requests::is_live(before@, a, n), after.byte(b)]
                    after@ == t && after.same_memory(&before, t) && requests::is_live(
                        before@,
                        a,
                        n,
                    ) && a <= b < a + n implies after.byte(b) == before.byte(b) by {
                    assert(requests::is_live(t, a, n));
                    laws::law_contents_kept(&before, &after, t, a, n, b);
                }
            }
        }
        if adjusted_size < CHUNK_SIZE {
            self.alloc_parts(adjusted_size)
        } else {
            self.alloc_buddy(Self::get_order(adjusted_size))
        }
    }

    /// Something is allocated that can be freed with this offset.
    pub fn is_allocated(&self, offset: usize) -> (res: bool)
        requires
            self.wf(),
        ensures
            res == requests::can_free(self@, offset as int),
            res <==> ({
                let i = offset as int / CHUNK_SIZE as int;
                &&& 0 < i < CHUNK_COUNT
                &&& match self@[i] {
                    ChunkState::Alloc { .. } => true,
                    ChunkState::Parts { size, used, .. } => {
                        &&& (offset as int % CHUNK_SIZE as int) % size as int == 0
                        &&& bits::has_bit(
                            used,
                            (offset as int % CHUNK_SIZE as int) / size as int,
                        )
                    },
                    _ => false,
                }
            }),
    {
        let index: usize = offset / CHUNK_SIZE;
        if index == 0 || index >= CHUNK_COUNT {
            return false;
        }
        let raw_desc = self.load_desc(index);
        proof {
            assert(self@[index as int] == layout::state_of(
                raw_desc.value,
                first_word(self.chunk_bytes(index as int)),
            ));
            assert(layout::parts_valid(self@[index as int]));
        }
        match raw_desc.desc_type() {
            Ok(RawDescType::Alloc) => true,
            Ok(RawDescType::Parts) => {
                let parts_desc = PartsDesc::from_raw(raw_desc);
                let size: usize = parts_desc.alloc_size();
                let chunk_offset: usize = offset % CHUNK_SIZE;
                let part: usize = chunk_offset / size;
                proof {
                    assert(chunk_offset as int / size as int <= 31) by (nonlinear_arith)
                        requires
                            chunk_offset < 512,
                            size >= 16,
                    ;
                }
                chunk_offset % size == 0 && (parts_desc.bitmap_load(self) >> (part as u32)) & 1 == 1
            },
            _ => false,
        }
    }

    /// Frees what [`AllocBlock::allocate`] returned the offset of.
    pub fn free(&mut self, offset: usize)
        requires
            old(self).wf(),
            requests::can_free(old(self)@, offset as int),
        ensures
            final(self).wf(),
            layout::tidy(old(self)@) ==> layout::tidy(final(self)@),
            final(self)@ == requests::free_layout(old(self)@, offset as int),
            laws::is_free_done(old(self)@, final(self)@, offset as int),
            final(self).same_memory(old(self), old(self)@),
            final(self).kept_descs(old(self)),
            forall|j: int|
                0 <= j < CHUNK_COUNT && final(self)@[j] == old(self)@[j]
                    ==> #[trigger] final(self).desc(j) == old(self).desc(j),
            final(self).next_descs(
                old(self),
                if old(self)@[offset as int / CHUNK_SIZE as int] is Alloc {
                    old(self).desc(offset as int / CHUNK_SIZE as int)
                } else {
                    DescStorage::plain(RawDescType::Alloc, 0)
                },
            ),
            old(self).is_plain() ==> final(self).is_plain(),
            forall|b: int|
                CHUNK_SIZE <= b < BLOCK_SIZE && b % CHUNK_SIZE as int >= 4 ==> #[trigger] final(self).byte(b)
                    == old(self).byte(b),
            forall|a: int, n: int, b: int|
                #![trigger requests::is_live(old(self)@, a, n), final(self).byte(b)]
                requests::is_live(old(self)@, a, n) && a <= b < a + n ==> final(self).byte(b)
                    == old(self).byte(b),
            forall|a: int, n: int|
                #[trigger] requests::is_live(final(self)@, a, n) <==> requests::is_live(
                    old(self)@,
                    a,
                    n,
                ) && a != requests::freed_offset(old(self)@, offset as int),
    {
        let index: usize = offset / CHUNK_SIZE;
        let raw_chunk = self.load_desc(index);
        proof {
            requests::lemma_free_layout(self@, offset as int);
            laws::law_free(self@, offset as int);
            assert(self@[index as int] == layout::state_of(
                raw_chunk.value,
                first_word(self.chunk_bytes(index as int)),
            ));
        }
        match raw_chunk.desc_type() {
            Ok(RawDescType::Alloc) => self.free_buddy(offset),
            Ok(RawDescType::Parts) => self.free_parts(offset),
            _ => {},
        }
        proof {
            assert forall|a: int, n: int, b: int|
                #![trigger requests::is_live(old(self)@, a, n), self.byte(b)]
                requests::is_live(old(self)@, a, n) && a <= b < a + n implies self.byte(b) == old(
                self,
            ).byte(b) by {
                laws::law_contents_kept(old(self), self, old(self)@, a, n, b);
            }
        }
    }
}

/// The smallest power of two that is at least `size`.
fn next_power_of_two(size: usize) -> (power: usize)
    requires
        size <= BLOCK_SIZE,
    ensures
        power == requests::doubled(1, size as int),
        power >= size,
        power > 1 ==> power < 2 * size,
        exists|e: nat| power == #[trigger] bits::pow2(e),
{
    proof {
        bits::lemma_pow2_values();
    }
    let mut power: usize = 1;
    while power < size
        invariant
            size <= BLOCK_SIZE,
            power >= 1,
            power > 1 ==> power < 2 * size,
            exists|e: nat| power == #[trigger] bits::pow2(e),
            requests::doubled(1, size as int) == requests::doubled(power as int, size as int),
        decreases 2 * size - power,
    {
        proof {
            let e = choose|e: nat| power == #[trigger] bits::pow2(e);
            bits::lemma_pow2_double(e);
            assert(bits::pow2(e + 1) == 2 * power);
        }
        power = power * 2;
    }
    power
}

impl Default for AllocBlock {
    fn default() -> (block: Self)
        ensures
            layout::blank(block@),
            forall|i: int| 0 <= i < CHUNK_COUNT ==> #[trigger] block.desc(i).word == 0,
            block.is_plain(),
            forall|i: int|
                0 < i < CHUNK_COUNT ==> #[trigger] block.chunk_bytes(i) == Seq::new(
                    CHUNK_SIZE as nat,
                    |k: int| 0u8,
                ),
    {
        AllocBlock::new()
    }
}

} // verus!
