//! The encoding of a chunk descriptor in one word.
//!
//! From the lowest bit: three bits for the type, one unused bit, four bits for
//! the order of a run or the logarithm of the part size, the lock flag, the
//! full flag, six unused bits, and sixteen bits of allocation bitmap.
use crate::bits;
use crate::error::AllocError;
use crate::layout;
use vstd::prelude::*;

verus! {

/// The types of chunk descriptors.
#[derive(Clone, Copy, Debug, PartialEq, Eq, Structural)]
pub enum RawDescType {
    /// The chunk that holds the descriptors.
    Meta,
    /// First chunk of a free run.
    Free,
    /// First chunk of an allocated run.
    Alloc,
    /// Any other chunk of a run.
    Compound,
    /// A chunk that is handed out in parts.
    Parts,
}

/// The type bits of a type.
pub open spec fn type_code(kind: RawDescType) -> u32 {
    match kind {
        RawDescType::Meta => 1,
        RawDescType::Free => 2,
        RawDescType::Alloc => 3,
        RawDescType::Compound => 4,
        RawDescType::Parts => 5,
    }
}

/// A chunk descriptor in its encoded form.
#[derive(Clone, Copy, Debug, PartialEq, Eq, Structural)]
pub struct DescStorage {
    /// The encoded descriptor.
    pub word: u32,
}

impl DescStorage {
    /// The type, if the type bits hold one.
    pub closed spec fn kind(self) -> Option<RawDescType> {
        let code = self.word & 7;
        if code == 1 {
            Some(RawDescType::Meta)
        } else if code == 2 {
            Some(RawDescType::Free)
        } else if code == 3 {
            Some(RawDescType::Alloc)
        } else if code == 4 {
            Some(RawDescType::Compound)
        } else if code == 5 {
            Some(RawDescType::Parts)
        } else {
            None
        }
    }

    /// The order of a run.
    pub closed spec fn order(self) -> nat {
        ((self.word >> 4) & 0xf) as nat
    }

    /// The size of one part. Order and part size share their bits: no
    /// descriptor carries both.
    pub open spec fn parts_size(self) -> nat {
        bits::pow2(self.order())
    }

    /// The lock flag.
    pub closed spec fn locked(self) -> bool {
        self.word & 0x100 != 0
    }

    /// The full flag.
    pub closed spec fn full(self) -> bool {
        self.word & 0x200 != 0
    }

    /// The allocation bitmap.
    pub closed spec fn bitmap(self) -> u32 {
        self.word >> 16
    }

    /// The unused bits.
    pub closed spec fn spare(self) -> u32 {
        self.word & 0xfc08
    }

    /// This descriptor with the type bits of another type.
    pub open spec fn with_type(self, kind: RawDescType) -> Self {
        DescStorage { word: (self.word & !7u32) | type_code(kind) }
    }

    /// This descriptor with another order.
    pub open spec fn with_order(self, order: u32) -> Self {
        DescStorage { word: (self.word & !0xf0u32) | (order << 4) }
    }

    /// This descriptor with another allocation bitmap.
    pub open spec fn with_bitmap(self, bitmap: u32) -> Self {
        DescStorage { word: (self.word & 0xffff) | (bitmap << 16) }
    }

    /// This descriptor with another lock flag.
    pub open spec fn with_lock(self, locked: bool) -> Self {
        if locked {
            DescStorage { word: self.word | 0x100 }
        } else {
            DescStorage { word: self.word & !0x100u32 }
        }
    }

    /// This descriptor with another full flag.
    pub open spec fn with_full(self, full: bool) -> Self {
        if full {
            DescStorage { word: self.word | 0x200 }
        } else {
            DescStorage { word: self.word & !0x200u32 }
        }
    }

    /// The descriptor of a type and an order in which all other bits are zero.
    pub open spec fn plain(kind: RawDescType, order: u32) -> Self {
        DescStorage { word: type_code(kind) | (order << 4) }
    }

    /// Every bit that the type has no use for is zero.
    pub open spec fn is_plain(self) -> bool {
        &&& self.spare() == 0
        &&& match self.kind() {
            None => self.word == 0,
            Some(RawDescType::Meta) | Some(RawDescType::Compound) => {
                &&& self.order() == 0
                &&& !self.locked()
                &&& !self.full()
                &&& self.bitmap() == 0
            },
            Some(RawDescType::Free) | Some(RawDescType::Alloc) => {
                &&& !self.locked()
                &&& !self.full()
                &&& self.bitmap() == 0
            },
            Some(RawDescType::Parts) => !layout::bitmap_fits(self.parts_size() as int)
                ==> self.bitmap() == 0,
        }
    }

    /// The order fits in four bits and the bitmap in sixteen.
    pub proof fn lemma_field_bounds(self)
        ensures
            self.order() < 16,
            self.bitmap() < 0x10000,
    {
        let w = self.word;
        assert((w >> 4) & 0xf < 16 && w >> 16 < 0x10000) by (bit_vector);
    }

    /// Descriptors of the same type that agree in all fields are the same.
    pub proof fn lemma_same_fields(self, other: Self)
        requires
            self.kind() is Some,
            self.kind() == other.kind(),
            self.order() == other.order(),
            self.locked() == other.locked(),
            self.full() == other.full(),
            self.bitmap() == other.bitmap(),
            self.spare() == other.spare(),
        ensures
            self == other,
    {
        let v = self.word;
        let w = other.word;
        assert(v & 7 == w & 7);
        assert(v == w) by (bit_vector)
            requires
                v & 7 == w & 7,
                (v >> 4) & 0xf == (w >> 4) & 0xf,
                (v & 0x100 != 0) == (w & 0x100 != 0),
                (v & 0x200 != 0) == (w & 0x200 != 0),
                v >> 16 == w >> 16,
                v & 0xfc08 == w & 0xfc08,
        ;
    }

    /// A descriptor without bits that its type has no use for.
    pub proof fn lemma_plain_fields(self)
        requires
            self.is_plain(),
        ensures
            self.word & 0xfc08 == 0,
            match self.kind() {
                Some(kind) => {
                    &&& !(kind is Parts) ==> self == Self::plain(kind, self.order() as u32)
                    &&& kind is Meta || kind is Compound ==> self.order() == 0
                },
                None => true,
            },
    {
        if let Some(kind) = self.kind() {
            if !(kind is Parts) {
                self.lemma_field_bounds();
                Self::lemma_plain(kind, self.order() as u32);
                let plain = Self::plain(kind, self.order() as u32);
                assert(plain.is_plain());
                self.lemma_same_fields(plain);
            }
        }
    }

    /// Taking the lock and giving it back restores the descriptor, whatever
    /// happens to the full flag in between.
    pub proof fn lemma_lock_unlock(self, full: bool)
        requires
            !self.locked(),
        ensures
            self.with_lock(true).with_lock(false) == self,
            self.with_lock(true).with_full(full).with_lock(false) == self.with_full(full),
            !self.full() ==> self.with_full(false) == self,
    {
        let w = self.word;
        assert((w | 0x100) & !0x100u32 == w && ((w | 0x100) | 0x200) & !0x100u32 == w | 0x200 && ((w
            | 0x100) & !0x200u32) & !0x100u32 == w & !0x200u32 && (w & 0x200 == 0 ==> w & !0x200u32
            == w)) by (bit_vector)
            requires
                w & 0x100 == 0,
        ;
    }

    /// Of two bitmaps the second one stays.
    pub proof fn lemma_bitmap_twice(self, first: u32, second: u32)
        ensures
            self.with_bitmap(first).with_bitmap(second) == self.with_bitmap(second),
    {
        let w = self.word;
        assert((((w & 0xffff) | (first << 16)) & 0xffff) | (second << 16) == (w & 0xffff) | (second
            << 16)) by (bit_vector);
    }

    /// The type and the order can be changed in any order, and of two of them
    /// the second one stays.
    pub proof fn lemma_retyped(self, kind: RawDescType, other: RawDescType, order: u32, last: u32)
        requires
            order < 16,
            last < 16,
        ensures
            self.with_type(kind).with_order(order).with_type(other).with_order(last)
                == self.with_type(other).with_order(last),
            self.with_type(kind).with_order(order).with_order(last) == self.with_type(
                kind,
            ).with_order(last),
            self.with_type(kind).with_order(order).with_order(last).with_type(other)
                == self.with_type(other).with_order(last),
            self.with_order(order).with_type(other).with_order(last) == self.with_type(
                other,
            ).with_order(last),
            self.order() == order ==> self.with_type(kind) == self.with_type(kind).with_order(order),
    {
        let w = self.word;
        let c = type_code(kind);
        let d = type_code(other);
        let u = (((w & !7u32) | c) & !0xf0u32) | (order << 4);
        let v = (((w & !7u32) | d) & !0xf0u32) | (last << 4);
        assert((((u & !7u32) | d) & !0xf0u32) | (last << 4) == v) by (bit_vector)
            requires
                c < 8,
                d < 8,
                order < 16,
                last < 16,
                u == (((w & !7u32) | c) & !0xf0u32) | (order << 4),
                v == (((w & !7u32) | d) & !0xf0u32) | (last << 4),
        ;
        assert((u & !0xf0u32) | (last << 4) == (((w & !7u32) | c) & !0xf0u32) | (last << 4)) by (bit_vector)
            requires
                c < 8,
                order < 16,
                last < 16,
                u == (((w & !7u32) | c) & !0xf0u32) | (order << 4),
        ;
        assert((((u & !0xf0u32) | (last << 4)) & !7u32) | d == v) by (bit_vector)
            requires
                c < 8,
                d < 8,
                order < 16,
                last < 16,
                u == (((w & !7u32) | c) & !0xf0u32) | (order << 4),
                v == (((w & !7u32) | d) & !0xf0u32) | (last << 4),
        ;
        assert((((((w & !0xf0u32) | (order << 4)) & !7u32) | d) & !0xf0u32) | (last << 4) == v) by (bit_vector)
            requires
                d < 8,
                order < 16,
                last < 16,
                v == (((w & !7u32) | d) & !0xf0u32) | (last << 4),
        ;
        assert((w >> 4) & 0xf == order ==> (w & !7u32) | c == u) by (bit_vector)
            requires
                c < 8,
                order < 16,
                last < 16,
                u == (((w & !7u32) | c) & !0xf0u32) | (order << 4),
        ;
    }

    /// An empty bitmap and a cleared full flag change nothing of a descriptor
    /// that was encoded into zeros.
    pub proof fn lemma_nothing_used(kind: RawDescType, order: u32)
        requires
            order < 16,
        ensures
            ({
                let desc = (DescStorage { word: 0 }).with_type(kind).with_order(order);
                &&& desc.with_bitmap(0) == desc
                &&& desc.with_full(false) == desc
                &&& !desc.full()
            }),
    {
        let c = type_code(kind);
        let w = (((0u32 & !7u32) | c) & !0xf0u32) | (order << 4);
        assert((w & 0xffff) | (0u32 << 16) == w && w & !0x200u32 == w && w & 0x200 == 0) by (bit_vector)
            requires
                c < 8,
                order < 16,
                w == (((0u32 & !7u32) | c) & !0xf0u32) | (order << 4),
        ;
    }

    /// A type and an order, encoded into zeros.
    pub proof fn lemma_plain(kind: RawDescType, order: u32)
        requires
            order < 16,
        ensures
            (DescStorage { word: 0 }).with_type(kind).with_order(order) == Self::plain(kind, order),
            (DescStorage { word: 0 }).with_type(kind) == Self::plain(kind, 0),
            Self::plain(kind, order).kind() == Some(kind),
            Self::plain(kind, order).order() == order,
            kind is Free || kind is Alloc || order == 0 ==> Self::plain(kind, order).is_plain(),
    {
        let c = type_code(kind);
        let w = c | (order << 4);
        assert(w & 7 == c && (w >> 4) & 0xf == order && w & 0x100 == 0 && w & 0x200 == 0 && w >> 16
            == 0 && w & 0xfc08 == 0) by (bit_vector)
            requires
                c < 8,
                order < 16,
                w == c | (order << 4),
        ;
        assert((((0u32 & !7u32) | c) & !0xf0u32) | (order << 4) == c | (order << 4) && (0u32 & !7u32)
            | c == c | (0u32 << 4)) by (bit_vector)
            requires
                c < 8,
        ;
    }

    /// A word of zeros.
    pub fn new() -> (desc: Self)
        ensures
            desc.word == 0,
            desc.kind() is None,
            desc.order() == 0,
            !desc.locked(),
            !desc.full(),
            desc.bitmap() == 0,
            desc.spare() == 0,
    {
        proof {
            assert(0u32 & 7 == 0 && (0u32 >> 4) & 0xf == 0 && 0u32 & 0x100 == 0 && 0u32 & 0x200 == 0
                && 0u32 >> 16 == 0 && 0u32 & 0xfc08 == 0) by (bit_vector);
        }
        DescStorage { word: 0 }
    }

    /// The descriptor that `word` encodes.
    pub fn init(word: u32) -> (desc: Self)
        ensures
            desc.word == word,
    {
        DescStorage { word }
    }

    /// The type, or `Inval` if the type bits hold none.
    pub fn get_type(self) -> (kind: Result<RawDescType, AllocError>)
        ensures
            kind == match self.kind() {
                Some(t) => Ok::<RawDescType, AllocError>(t),
                None => Err(AllocError::Inval),
            },
    {
        let code: u32 = self.word & 7;
        if code == 1 {
            Ok(RawDescType::Meta)
        } else if code == 2 {
            Ok(RawDescType::Free)
        } else if code == 3 {
            Ok(RawDescType::Alloc)
        } else if code == 4 {
            Ok(RawDescType::Compound)
        } else if code == 5 {
            Ok(RawDescType::Parts)
        } else {
            Err(AllocError::Inval)
        }
    }

    /// The order of a run.
    pub fn get_order(self) -> (order: u32)
        ensures
            order == self.order(),
            order < 16,
    {
        proof {
            self.lemma_field_bounds();
        }
        (self.word >> 4) & 0xf
    }

    /// The size of one part.
    pub fn get_parts_size(self) -> (size: usize)
        ensures
            size == self.parts_size(),
            size >= 1,
    {
        let log: u32 = self.get_order();
        proof {
            bits::lemma_one_shl(log);
            bits::lemma_pow2_double(log as nat);
        }
        1usize << log
    }

    /// The allocation bitmap.
    pub fn get_bitmap(self) -> (bitmap: u32)
        ensures
            bitmap == self.bitmap(),
            bitmap < 0x10000,
    {
        proof {
            self.lemma_field_bounds();
        }
        self.word >> 16
    }

    /// The lock flag.
    pub fn is_locked(self) -> (locked: bool)
        ensures
            locked == self.locked(),
    {
        self.word & 0x100 != 0
    }

    /// The full flag.
    pub fn is_full(self) -> (full: bool)
        ensures
            full == self.full(),
    {
        self.word & 0x200 != 0
    }

    /// This descriptor with another type.
    pub fn encode_type(self, kind: RawDescType) -> (desc: Self)
        ensures
            desc == self.with_type(kind),
            desc.spare() == self.spare(),
            desc.kind() == Some(kind),
            desc.order() == self.order(),
            desc.locked() == self.locked(),
            desc.full() == self.full(),
            desc.bitmap() == self.bitmap(),
    {
        let code: u32 = match kind {
            RawDescType::Meta => 1,
            RawDescType::Free => 2,
            RawDescType::Alloc => 3,
            RawDescType::Compound => 4,
            RawDescType::Parts => 5,
        };
        let word: u32 = (self.word & !7u32) | code;
        proof {
            let w = self.word;
            assert(word & 7 == code && (word >> 4) & 0xf == (w >> 4) & 0xf && word & 0x100 == w & 0x100
                && word & 0x200 == w & 0x200 && word >> 16 == w >> 16 && word & 0xfc08 == w & 0xfc08) by (bit_vector)
                requires
                    code < 8,
                    word == (w & !7u32) | code,
            ;
        }
        DescStorage { word }
    }

    /// This descriptor with another order.
    pub fn encode_order(self, order: u32) -> (desc: Self)
        requires
            order < 16,
        ensures
            desc == self.with_order(order),
            desc.spare() == self.spare(),
            desc.order() == order,
            desc.kind() == self.kind(),
            desc.locked() == self.locked(),
            desc.full() == self.full(),
            desc.bitmap() == self.bitmap(),
    {
        let word: u32 = (self.word & !0xf0u32) | (order << 4);
        proof {
            let w = self.word;
            assert(word & 7 == w & 7 && (word >> 4) & 0xf == order && word & 0x100 == w & 0x100 && word
                & 0x200 == w & 0x200 && word >> 16 == w >> 16 && word & 0xfc08 == w & 0xfc08) by (bit_vector)
                requires
                    order < 16,
                    word == (w & !0xf0u32) | (order << 4),
            ;
        }
        DescStorage { word }
    }

    /// This descriptor with another part size.
    pub fn encode_parts_size(self, size: usize) -> (desc: Self)
        requires
            layout::is_part_size(size as int),
        ensures
            desc == self.with_order(bits::log2(size as int) as u32),
            desc.spare() == self.spare(),
            desc.parts_size() == size,
            desc.kind() == self.kind(),
            desc.locked() == self.locked(),
            desc.full() == self.full(),
            desc.bitmap() == self.bitmap(),
    {
        let log: u32 = bits::ilog2(size);
        proof {
            layout::lemma_part_size_log(size as int);
        }
        self.encode_order(log)
    }

    /// This descriptor with another allocation bitmap.
    pub fn encode_bitmap(self, bitmap: u32) -> (desc: Self)
        requires
            bitmap < 0x10000,
        ensures
            desc == self.with_bitmap(bitmap),
            desc.spare() == self.spare(),
            desc.bitmap() == bitmap,
            desc.kind() == self.kind(),
            desc.order() == self.order(),
            desc.locked() == self.locked(),
            desc.full() == self.full(),
    {
        let word: u32 = (self.word & 0xffff) | (bitmap << 16);
        proof {
            let w = self.word;
            assert(word & 7 == w & 7 && (word >> 4) & 0xf == (w >> 4) & 0xf && word & 0x100 == w & 0x100
                && word & 0x200 == w & 0x200 && word >> 16 == bitmap && word & 0xfc08 == w & 0xfc08) by (bit_vector)
                requires
                    bitmap < 0x10000,
                    word == (w & 0xffff) | (bitmap << 16),
            ;
        }
        DescStorage { word }
    }

    /// This descriptor with the lock flag set.
    pub fn set_lock(self) -> (desc: Self)
        ensures
            desc == self.with_lock(true),
            desc.spare() == self.spare(),
            desc.locked(),
            desc.kind() == self.kind(),
            desc.order() == self.order(),
            desc.full() == self.full(),
            desc.bitmap() == self.bitmap(),
    {
        proof {
            lemma_set_flags(self.word);
        }
        DescStorage { word: self.word | 0x100 }
    }

    /// This descriptor with the lock flag cleared.
    pub fn clear_lock(self) -> (desc: Self)
        ensures
            desc == self.with_lock(false),
            desc.spare() == self.spare(),
            !desc.locked(),
            desc.kind() == self.kind(),
            desc.order() == self.order(),
            desc.full() == self.full(),
            desc.bitmap() == self.bitmap(),
        opens_invariants none
        no_unwind
    {
        proof {
            lemma_clear_flags(self.word);
        }
        DescStorage { word: self.word & !0x100u32 }
    }

    /// This descriptor with the full flag set.
    pub fn set_full(self) -> (desc: Self)
        ensures
            desc == self.with_full(true),
            desc.spare() == self.spare(),
            desc.full(),
            desc.kind() == self.kind(),
            desc.order() == self.order(),
            desc.locked() == self.locked(),
            desc.bitmap() == self.bitmap(),
    {
        proof {
            lemma_set_flags(self.word);
        }
        DescStorage { word: self.word | 0x200 }
    }

    /// This descriptor with the full flag cleared.
    pub fn clear_full(self) -> (desc: Self)
        ensures
            desc == self.with_full(false),
            desc.spare() == self.spare(),
            !desc.full(),
            desc.kind() == self.kind(),
            desc.order() == self.order(),
            desc.locked() == self.locked(),
            desc.bitmap() == self.bitmap(),
    {
        proof {
            lemma_clear_flags(self.word);
        }
        DescStorage { word: self.word & !0x200u32 }
    }
}

/// Setting one flag changes nothing else.
proof fn lemma_set_flags(w: u32)
    by (bit_vector)
    ensures
        (w | 0x100) & 0x100 != 0,
        (w | 0x100) & 7 == w & 7,
        ((w | 0x100) >> 4) & 0xf == (w >> 4) & 0xf,
        (w | 0x100) & 0x200 == w & 0x200,
        (w | 0x100) >> 16 == w >> 16,
        (w | 0x200) & 0x200 != 0,
        (w | 0x200) & 7 == w & 7,
        ((w | 0x200) >> 4) & 0xf == (w >> 4) & 0xf,
        (w | 0x200) & 0x100 == w & 0x100,
        (w | 0x200) >> 16 == w >> 16,
        (w | 0x100) & 0xfc08 == w & 0xfc08,
        (w | 0x200) & 0xfc08 == w & 0xfc08,
{
}

/// Clearing one flag changes nothing else.
proof fn lemma_clear_flags(w: u32)
    by (bit_vector)
    ensures
        (w & !0x100u32) & 0x100 == 0,
        (w & !0x100u32) & 7 == w & 7,
        ((w & !0x100u32) >> 4) & 0xf == (w >> 4) & 0xf,
        (w & !0x100u32) & 0x200 == w & 0x200,
        (w & !0x100u32) >> 16 == w >> 16,
        (w & !0x200u32) & 0x200 == 0,
        (w & !0x200u32) & 7 == w & 7,
        ((w & !0x200u32) >> 4) & 0xf == (w >> 4) & 0xf,
        (w & !0x200u32) & 0x100 == w & 0x100,
        (w & !0x200u32) >> 16 == w >> 16,
        (w & !0x100u32) & 0xfc08 == w & 0xfc08,
        (w & !0x200u32) & 0xfc08 == w & 0xfc08,
{
}

} // verus!
