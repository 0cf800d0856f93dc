//! What a request does to the layout of a block.
use crate::bits;
use crate::buddy;
use crate::defs::{BLOCK_SIZE, CHUNK_COUNT, CHUNK_SIZE, MAX_ORDER, MIN_ALLOC_SIZE};
use crate::error::AllocError;
use crate::layout;
use crate::layout::ChunkState;
use vstd::prelude::*;

verus! {

/// `p`, doubled until it is at least `size`.
pub open spec fn doubled(p: int, size: int) -> int
    decreases
            if p < size {
                size - p
            } else {
                0
            },
{
    if p <= 0 || p >= size {
        p
    } else {
        doubled(2 * p, size)
    }
}

/// The memory that is handed out for a request of `size` bytes: the smallest
/// power of two that is large enough and not below the smallest allocation.
pub open spec fn rounded(size: int) -> int {
    doubled(MIN_ALLOC_SIZE as int, size)
}

/// The order of a run of `size` bytes.
pub open spec fn order_of(size: int) -> nat {
    bits::log2(size / CHUNK_SIZE as int)
}

/// The chunk is handed out in parts of `size` bytes and does not count as
/// full.
pub open spec fn has_room(c: ChunkState, size: int) -> bool {
    match c {
        ChunkState::Parts { size: n, .. } => n == size && !layout::counts_as_full(c),
        _ => false,
    }
}

/// The first chunk that is handed out in parts of `size` bytes and does not
/// count as full; the number of chunks if there is none.
pub open spec fn first_parts(s: Seq<ChunkState>, size: int) -> int {
    buddy::first_from(s, |c: ChunkState| has_room(c, size), 1)
}

/// Allocates the next part of chunk `i`. If none is left, the chunk is marked
/// as full where that is up to the flag.
pub open spec fn place_part(s: Seq<ChunkState>, i: int) -> (Seq<ChunkState>, Result<int, AllocError>) {
    match s[i] {
        ChunkState::Parts { size, locked, full, used } => {
            let k = layout::next_part(size as int, used);
            if k < layout::part_count(size as int) {
                (
                    s.update(i, layout::with_used(s[i], used | (1u32 << (k as u32)))),
                    Ok(i * CHUNK_SIZE + k * size),
                )
            } else {
                (s.update(i, layout::with_full(s[i], true)), Err(AllocError::NoMem))
            }
        },
        _ => (s, Err(AllocError::TypeMismatch)),
    }
}

/// Allocates a part of `size` bytes: of the first chunk of such parts that
/// does not count as full, or else of a chunk that is taken for it.
pub open spec fn take_part(s: Seq<ChunkState>, size: int) -> (
    Seq<ChunkState>,
    Result<int, AllocError>,
) {
    if first_parts(s, size) < s.len() {
        place_part(s, first_parts(s, size))
    } else {
        match buddy::take_run(s, 0) {
            Some((t, i)) => place_part(t.update(i, layout::fresh_parts(size as nat)), i),
            None => (s, Err(AllocError::NoMem)),
        }
    }
}

/// The layout after a request for `size` bytes and the answer to it.
pub open spec fn alloc_layout(s: Seq<ChunkState>, size: int) -> (
    Seq<ChunkState>,
    Result<int, AllocError>,
) {
    if size > BLOCK_SIZE as int / 2 {
        (s, Err(AllocError::Inval))
    } else if rounded(size) < CHUNK_SIZE {
        take_part(s, rounded(size))
    } else {
        match buddy::take_run(s, order_of(rounded(size))) {
            Some((t, i)) => (t, Ok(i * CHUNK_SIZE)),
            None => (s, Err(AllocError::NoMem)),
        }
    }
}

/// The answer to a request as the caller sees it.
pub open spec fn answer(res: Result<int, AllocError>) -> Result<usize, AllocError> {
    match res {
        Ok(offset) => Ok(offset as usize),
        Err(e) => Err(e),
    }
}

/// Something that is allocated begins in the chunk of this offset: a run, to
/// which all offsets into its first chunk belong, or else a part, to which only
/// the offset of its first byte belongs.
pub open spec fn can_free(s: Seq<ChunkState>, offset: int) -> bool {
    let i = offset / CHUNK_SIZE as int;
    0 < i < CHUNK_COUNT && match s[i] {
        ChunkState::Alloc { .. } => true,
        ChunkState::Parts { size, used, .. } => {
            &&& (offset % CHUNK_SIZE as int) % size as int == 0
            &&& bits::has_bit(used, (offset % CHUNK_SIZE as int) / size as int)
        },
        _ => false,
    }
}

/// The layout after freeing what begins at the offset.
pub open spec fn free_layout(s: Seq<ChunkState>, offset: int) -> Seq<ChunkState> {
    let i = offset / CHUNK_SIZE as int;
    match s[i] {
        ChunkState::Alloc { order } => buddy::release_run(s, i, order),
        ChunkState::Parts { size, used, .. } => {
            let k = (offset % CHUNK_SIZE as int) / size as int;
            let rest = used & !(1u32 << (k as u32));
            if rest == 0 {
                buddy::release_run(s.update(i, ChunkState::Alloc { order: 0 }), i, 0)
            } else {
                s.update(i, layout::with_full(layout::with_used(s[i], rest), false))
            }
        },
        _ => s,
    }
}

/// The offset at which the memory begins that is freed with this offset.
pub open spec fn freed_offset(s: Seq<ChunkState>, offset: int) -> int {
    match s[offset / CHUNK_SIZE as int] {
        ChunkState::Alloc { .. } => offset / CHUNK_SIZE as int * CHUNK_SIZE,
        _ => offset,
    }
}

/// The `size` bytes from this offset on are allocated as one piece.
pub open spec fn is_live(s: Seq<ChunkState>, offset: int, size: int) -> bool {
    let i = offset / CHUNK_SIZE as int;
    0 < i < CHUNK_COUNT && match s[i] {
        ChunkState::Alloc { order } => {
            &&& offset % CHUNK_SIZE as int == 0
            &&& size == CHUNK_SIZE * bits::pow2(order)
        },
        ChunkState::Parts { size: n, used, .. } => {
            &&& size == n
            &&& (offset % CHUNK_SIZE as int) % n as int == 0
            &&& bits::has_bit(used, (offset % CHUNK_SIZE as int) / n as int)
        },
        _ => false,
    }
}

/// The byte at this offset belongs to the bitmap at the start of a chunk.
pub open spec fn is_bitmap_byte(s: Seq<ChunkState>, offset: int) -> bool {
    match s[offset / CHUNK_SIZE as int] {
        ChunkState::Parts { size, .. } => {
            &&& (offset % CHUNK_SIZE as int) < 4
            &&& !layout::bitmap_fits(size as int)
        },
        _ => false,
    }
}

/// The powers of two that requests are rounded to.
pub proof fn lemma_rounded(size: int)
    requires
        0 <= size <= BLOCK_SIZE as int / 2,
    ensures
        rounded(size) >= size,
        rounded(size) >= MIN_ALLOC_SIZE,
        rounded(size) < CHUNK_SIZE ==> layout::is_part_size(rounded(size)),
        rounded(size) >= CHUNK_SIZE ==> {
            &&& order_of(rounded(size)) <= MAX_ORDER
            &&& rounded(size) == CHUNK_SIZE * bits::pow2(order_of(rounded(size)))
        },
        rounded(size) > MIN_ALLOC_SIZE ==> rounded(size) < 2 * size,
{
    reveal_with_fuel(doubled, 13);
    reveal_with_fuel(bits::log2, 8);
    bits::lemma_pow2_values();
}

/// Doubling does not shrink.
proof fn lemma_doubled_grows(p: int, size: int)
    ensures
        doubled(p, size) >= p,
    decreases
            if p < size {
                size - p
            } else {
                0
            },
{
    if 0 < p < size {
        lemma_doubled_grows(2 * p, size);
    }
}

/// Starting from one and taking the smallest allocation if that is larger
/// comes to the same.
pub proof fn lemma_doubled(size: int)
    ensures
        rounded(size) == if doubled(1, size) >= MIN_ALLOC_SIZE {
            doubled(1, size)
        } else {
            MIN_ALLOC_SIZE as int
        },
{
    reveal_with_fuel(doubled, 6);
    lemma_doubled_grows(MIN_ALLOC_SIZE as int, size);
}

/// Layouts that differ in one chunk, and otherwise in how free runs are cut,
/// agree on what is allocated elsewhere.
pub proof fn lemma_live_elsewhere(s: Seq<ChunkState>, t: Seq<ChunkState>, i: int)
    requires
        s.len() == CHUNK_COUNT,
        buddy::differ_at(s, t, i),
    ensures
        forall|a: int, n: int|
            a / CHUNK_SIZE as int != i ==> (#[trigger] is_live(t, a, n) <==> is_live(s, a, n)),
{
}

/// Where a part begins.
pub proof fn lemma_part_offset(i: int, size: int, k: int)
    requires
        layout::is_part_size(size),
        0 <= k < layout::part_count(size),
    ensures
        (i * CHUNK_SIZE + k * size) / CHUNK_SIZE as int == i,
        (i * CHUNK_SIZE + k * size) % CHUNK_SIZE as int == k * size,
        (i * CHUNK_SIZE + k * size) % size == 0,
        (k * size) % size == 0,
        (k * size) / size == k,
        0 <= k * size,
        k * size + size <= CHUNK_SIZE,
{
    layout::lemma_part_counts(size);
    let c = layout::part_count(size);
    assert(i * 512 + k * size == (i * c + k) * size) by (nonlinear_arith)
        requires
            c * size == 512,
    ;
    vstd::arithmetic::div_mod::lemma_mod_multiples_basic(i * c + k, size);
    vstd::arithmetic::div_mod::lemma_mod_multiples_basic(k, size);
    vstd::arithmetic::div_mod::lemma_div_multiples_vanish(k, size);
    vstd::arithmetic::mul::lemma_mul_is_commutative(k, size);
    assert(0 <= k * size && k * size + size <= 512) by (nonlinear_arith)
        requires
            0 <= k < c,
            c * size == 512,
            size > 0,
    ;
}

/// No free memory is withheld, except that no part of chunk `i` need be in use.
pub open spec fn tidy_but(s: Seq<ChunkState>, i: int) -> bool {
    &&& layout::coalesced(s)
    &&& forall|j: int| 0 <= j < s.len() && j != i ==> layout::is_occupied(#[trigger] s[j])
}

/// What [`place_part`] does to a layout.
proof fn lemma_place_part(s: Seq<ChunkState>, i: int, size: int)
    requires
        layout::well_formed(s),
        0 < i < CHUNK_COUNT,
        s[i] matches ChunkState::Parts { size: n, .. } && n == size,
    ensures
        layout::well_formed(place_part(s, i).0),
        tidy_but(s, i) ==> layout::tidy(place_part(s, i).0),
        match place_part(s, i).1 {
            Ok(offset) => {
                &&& offset / CHUNK_SIZE as int == i
                &&& offset % size == 0
                &&& offset % CHUNK_SIZE as int + size <= CHUNK_SIZE
                &&& !is_live(s, offset, size)
                &&& forall|a: int, n: int|
                    #[trigger] is_live(place_part(s, i).0, a, n) <==> is_live(s, a, n) || a == offset
                        && n == size
            },
            Err(e) => {
                &&& e == AllocError::NoMem
                &&& forall|a: int, n: int|
                    #[trigger] is_live(place_part(s, i).0, a, n) <==> is_live(s, a, n)
            },
        },
{
    let (t, res) = place_part(s, i);
    match s[i] {
        ChunkState::Parts { size: n, locked, full, used } => {
            layout::lemma_part_counts(size);
            layout::lemma_free_part_from(size, used, layout::first_part(size));
            let k = layout::next_part(size, used);
            let c = t[i];
            buddy::lemma_mark_chunk(s, i, c);
            if layout::coalesced(s) {
                buddy::lemma_fewer_free(s, t);
            }
            lemma_live_elsewhere(s, t, i);
            assert(layout::parts_valid(s[i]) && layout::is_unlocked(s[i]));
            if k < layout::part_count(size) {
                let mask = 1u32 << (k as u32);
                let more = used | mask;
                bits::lemma_bit(k as u32);
                bits::lemma_bits(used, mask);
                assert(layout::bitmap_ok(size, more)) by {
                    assert forall|j: int| #[trigger] bits::has_bit(more, j) implies layout::part_available(
                        size,
                        j,
                    ) by {
                        assert(bits::has_bit(used, j) || j == k);
                    }
                }
                assert(bits::has_bit(more, k));
                assert(more != 0) by {
                    assert(!bits::has_bit(0, k));
                }
                lemma_part_offset(i, size, k);
                let offset = i * CHUNK_SIZE + k * size;
                assert forall|a: int, m: int| #[trigger] is_live(t, a, m) <==> is_live(s, a, m) || a
                    == offset && m == size by {
                    if a / CHUNK_SIZE as int == i {
                        let r = a % CHUNK_SIZE as int;
                        let j = r / size;
                        vstd::arithmetic::div_mod::lemma_fundamental_div_mod(r, size);
                        vstd::arithmetic::mul::lemma_mul_is_commutative(j, size);
                        assert(bits::has_bit(more, j) <==> bits::has_bit(used, j) || j == k);
                    }
                }
            } else {
                assert(bits::has_bit(used, layout::first_part(size)));
                assert(used != 0) by {
                    bits::lemma_bit(0);
                    assert(!bits::has_bit(0, layout::first_part(size)));
                }
            }
            assert forall|j: int| 0 <= j < t.len() implies layout::parts_valid(#[trigger] t[j]) by {
                assert(layout::parts_valid(s[j]));
            }
            assert forall|j: int| 0 <= j < t.len() implies layout::is_unlocked(#[trigger] t[j]) by {
                assert(layout::is_unlocked(s[j]));
            }
            if tidy_but(s, i) {
                assert forall|j: int| 0 <= j < t.len() implies layout::is_occupied(#[trigger] t[j]) by {
                    assert(j != i ==> layout::is_occupied(s[j]));
                }
            }
        },
        _ => {},
    }
}

/// What [`alloc_layout`] does to a layout.
pub proof fn lemma_alloc_layout(s: Seq<ChunkState>, size: int)
    requires
        layout::well_formed(s),
        size >= 0,
    ensures
        layout::well_formed(alloc_layout(s, size).0),
        layout::tidy(s) ==> layout::tidy(alloc_layout(s, size).0),
        match alloc_layout(s, size).1 {
            Ok(offset) => {
                &&& size <= BLOCK_SIZE as int / 2
                &&& CHUNK_SIZE <= offset
                &&& offset + rounded(size) <= BLOCK_SIZE
                &&& offset % rounded(size) == 0
                &&& !is_live(s, offset, rounded(size))
                &&& forall|a: int, n: int|
                    #[trigger] is_live(alloc_layout(s, size).0, a, n) <==> is_live(s, a, n) || a
                        == offset && n == rounded(size)
            },
            Err(e) => {
                &&& e == AllocError::NoMem || e == AllocError::Inval && size > BLOCK_SIZE as int / 2
                &&& forall|a: int, n: int|
                    #[trigger] is_live(alloc_layout(s, size).0, a, n) <==> is_live(s, a, n)
            },
        },
{
    if size <= BLOCK_SIZE as int / 2 {
        lemma_rounded(size);
        let n = rounded(size);
        if n < CHUNK_SIZE {
            let p = |c: ChunkState| has_room(c, n);
            buddy::lemma_first_from(s, p, 1);
            let f = first_parts(s, n);
            if f < s.len() {
                lemma_place_part(s, f, n);
            } else {
                buddy::lemma_take_run(s, 0);
                match buddy::take_run(s, 0) {
                    Some((t, i)) => {
                        let u = t.update(i, layout::fresh_parts(n as nat));
                        buddy::lemma_mark_chunk(t, i, layout::fresh_parts(n as nat));
                        if layout::coalesced(t) {
                            buddy::lemma_fewer_free(t, u);
                        }
                        assert forall|k: int| !#[trigger] bits::has_bit(0, k) by {
                            bits::lemma_bit(0);
                        }
                        lemma_carried_over(s, u, i);
                        assert(layout::bitmap_ok(n, 0));
                        lemma_place_part(u, i, n);
                        lemma_live_elsewhere(s, u, i);
                        assert forall|a: int, m: int| #[trigger] is_live(u, a, m) <==> is_live(
                            s,
                            a,
                            m,
                        ) by {}
                        let r = place_part(u, i);
                        assert forall|a: int, m: int| r.1 is Ok implies (#[trigger] is_live(r.0, a, m)
                            <==> is_live(s, a, m) || a == r.1->Ok_0 && m == n) by {
                            assert(is_live(u, a, m) <==> is_live(s, a, m));
                        }
                        assert forall|a: int, m: int| r.1 is Err implies (#[trigger] is_live(
                            r.0,
                            a,
                            m,
                        ) <==> is_live(s, a, m)) by {
                            assert(is_live(u, a, m) <==> is_live(s, a, m));
                        }
                        if r.1 is Ok {
                            assert(!is_live(u, r.1->Ok_0, n));
                        }
                    },
                    None => {},
                }
            }
        } else {
            let order = order_of(n);
            buddy::lemma_take_run(s, order);
            match buddy::take_run(s, order) {
                Some((t, i)) => {
                    lemma_carried_over(s, t, i);
                    lemma_live_elsewhere(s, t, i);
                    let offset = i * CHUNK_SIZE;
                    assert(offset % n == 0) by {
                        let p = bits::pow2(order) as int;
                        bits::lemma_pow2_double(order);
                        vstd::arithmetic::div_mod::lemma_fundamental_div_mod(i, p);
                        assert(i * 512 == (i / p) * (512 * p)) by (nonlinear_arith)
                            requires
                                i == p * (i / p),
                        ;
                        vstd::arithmetic::div_mod::lemma_mod_multiples_basic(i / p, n);
                    }
                    assert forall|a: int, m: int| #[trigger] is_live(t, a, m) <==> is_live(s, a, m)
                        || a == offset && m == n by {
                        if a / CHUNK_SIZE as int == i {
                            assert(!is_live(s, a, m));
                        }
                    }
                    assert(!is_live(s, offset, n));
                },
                None => {},
            }
        }
    }
}

/// Validity carries over to all chunks but one.
proof fn lemma_carried_over(s: Seq<ChunkState>, t: Seq<ChunkState>, i: int)
    requires
        buddy::differ_at(s, t, i),
        layout::well_formed(s),
    ensures
        forall|j: int| 0 <= j < t.len() && j != i ==> layout::parts_valid(#[trigger] t[j]),
        forall|j: int| 0 <= j < t.len() && j != i ==> layout::is_unlocked(#[trigger] t[j]),
        layout::tidy(s) ==> forall|j: int|
            0 <= j < t.len() && j != i ==> layout::is_occupied(#[trigger] t[j]),
{
    assert forall|j: int| 0 <= j < t.len() && j != i implies layout::parts_valid(#[trigger] t[j])
        && layout::is_unlocked(t[j]) by {
        assert(layout::parts_valid(s[j]) && layout::is_unlocked(s[j]));
    }
    if layout::tidy(s) {
        assert forall|j: int| 0 <= j < t.len() && j != i implies layout::is_occupied(#[trigger] t[j]) by {
            assert(layout::is_occupied(s[j]));
        }
    }
}

/// What [`free_layout`] does to a layout.
pub proof fn lemma_free_layout(s: Seq<ChunkState>, offset: int)
    requires
        layout::well_formed(s),
        can_free(s, offset),
    ensures
        layout::well_formed(free_layout(s, offset)),
        layout::tidy(s) ==> layout::tidy(free_layout(s, offset)),
        exists|n: int| #[trigger] is_live(s, freed_offset(s, offset), n),
        forall|a: int, n: int|
            #[trigger] is_live(free_layout(s, offset), a, n) <==> is_live(s, a, n) && a
                != freed_offset(s, offset),
{
    let i = offset / CHUNK_SIZE as int;
    let t = free_layout(s, offset);
    match s[i] {
        ChunkState::Alloc { order } => {
            buddy::lemma_release_run(s, i, order);
            lemma_carried_over(s, t, i);
            lemma_live_elsewhere(s, t, i);
            assert(is_live(s, freed_offset(s, offset), CHUNK_SIZE * bits::pow2(order)));
        },
        ChunkState::Parts { size: n, locked, full, used } => {
            assert(layout::parts_valid(s[i]));
            assert(is_live(s, freed_offset(s, offset), n as int));
            let size = n as int;
            layout::lemma_part_counts(size);
            let k = (offset % CHUNK_SIZE as int) / size;
            let mask = 1u32 << (k as u32);
            let rest = used & !mask;
            bits::lemma_bit(k as u32);
            bits::lemma_bits(mask, 0);
            bits::lemma_bits(used, !mask);
            assert(layout::bitmap_ok(size, rest)) by {
                assert forall|j: int| #[trigger] bits::has_bit(rest, j) implies layout::part_available(
                    size,
                    j,
                ) by {
                    assert(bits::has_bit(used, j));
                }
            }
            assert forall|j: int| #[trigger] bits::has_bit(rest, j) <==> bits::has_bit(used, j) && j
                != k by {
                if 0 <= j < 32 {
                    assert(bits::has_bit(!mask, j) <==> !bits::has_bit(mask, j));
                    assert(bits::has_bit(mask, j) <==> j == k);
                }
            }
            assert forall|a: int, m: int| a / CHUNK_SIZE as int == i implies (#[trigger] is_live(
                s,
                a,
                m,
            ) && a != offset <==> m == size && (a % CHUNK_SIZE as int) % size == 0 && bits::has_bit(
                rest,
                (a % CHUNK_SIZE as int) / size,
            )) by {
                let r = a % CHUNK_SIZE as int;
                let j = r / size;
                vstd::arithmetic::div_mod::lemma_fundamental_div_mod(r, size);
                vstd::arithmetic::div_mod::lemma_fundamental_div_mod(
                    offset % CHUNK_SIZE as int,
                    size,
                );
                assert(bits::has_bit(rest, j) <==> bits::has_bit(used, j) && j != k);
            }
            if rest == 0 {
                let u = s.update(i, ChunkState::Alloc { order: 0 });
                buddy::lemma_mark_chunk(s, i, ChunkState::Alloc { order: 0 });
                if layout::coalesced(s) {
                    buddy::lemma_fewer_free(s, u);
                }
                buddy::lemma_release_run(u, i, 0);
                assert(buddy::differ_at(s, t, i)) by {
                    assert forall|j: int| 0 <= j < s.len() && j != i implies #[trigger] t[j] == s[j]
                        || buddy::is_filler(s[j]) && buddy::is_filler(t[j]) by {
                        assert(u[j] == s[j]);
                    }
                }
                lemma_carried_over(s, t, i);
                lemma_live_elsewhere(s, t, i);
                assert forall|a: int, m: int| #[trigger] is_live(t, a, m) <==> is_live(s, a, m) && a
                    != offset by {
                    if a / CHUNK_SIZE as int == i {
                        assert(!bits::has_bit(0, (a % CHUNK_SIZE as int) / size));
                        assert(!(is_live(s, a, m) && a != offset));
                    }
                }
            } else {
                buddy::lemma_mark_chunk(s, i, t[i]);
                if layout::coalesced(s) {
                    buddy::lemma_fewer_free(s, t);
                }
                lemma_carried_over(s, t, i);
                lemma_live_elsewhere(s, t, i);
                assert forall|a: int, m: int| #[trigger] is_live(t, a, m) <==> is_live(s, a, m) && a
                    != offset by {
                    if a / CHUNK_SIZE as int == i {
                        assert(is_live(s, a, m) && a != offset <==> m == size && (a
                            % CHUNK_SIZE as int) % size == 0 && bits::has_bit(
                            rest,
                            (a % CHUNK_SIZE as int) / size,
                        ));
                    }
                }
            }
        },
        _ => {},
    }
}

/// Every chunk but the first one lies between two powers of two.
pub proof fn lemma_between_powers(j: int) -> (order: nat)
    requires
        0 < j < CHUNK_COUNT,
    ensures
        order <= MAX_ORDER,
        bits::pow2(order) <= j < bits::pow2(order + 1),
{
    bits::lemma_pow2_values();
    if j < 2 {
        0
    } else if j < 4 {
        1
    } else if j < 8 {
        2
    } else if j < 16 {
        3
    } else if j < 32 {
        4
    } else if j < 64 {
        5
    } else {
        6
    }
}

/// The initial layout can be used, withholds no free memory, and nothing is
/// allocated in it.
pub proof fn lemma_initial(s: Seq<ChunkState>)
    requires
        layout::initial(s),
    ensures
        layout::well_formed(s),
        layout::tidy(s),
        forall|j: int| 0 < j < CHUNK_COUNT ==> (#[trigger] s[j] is Free || s[j] is Compound),
        forall|a: int, n: int| !#[trigger] is_live(s, a, n),
{
    assert forall|j: int| 0 < j < CHUNK_COUNT implies (#[trigger] s[j] is Free || s[j] is Compound) by {
        let order = lemma_between_powers(j);
        if bits::pow2(order) == j {
            assert(layout::is_free(s, bits::pow2(order) as int, order));
        }
    }
    assert forall|j: int| 0 < j < CHUNK_COUNT implies #[trigger] layout::chunk_ok(s, j) by {
        let order = lemma_between_powers(j);
        layout::lemma_power_run(order);
        bits::lemma_pow2_double(order);
        assert(layout::is_free(s, bits::pow2(order) as int, order));
        if bits::pow2(order) == j {
            assert(layout::run_filled(s, j, order)) by {
                assert forall|k: int| j < k < j + bits::pow2(order) implies #[trigger] s[k] is Compound by {
                    assert(bits::pow2(order) < k < bits::pow2(order + 1));
                }
            }
        } else {
            assert(layout::is_run(s, bits::pow2(order) as int, order));
        }
    }
    assert(layout::coalesced(s)) by {
        assert forall|i: int, order: nat| #[trigger] layout::is_free(s, i, order) implies !layout::is_free(
            s,
            layout::buddy(i, order),
            order,
        ) by {
            let o = lemma_between_powers(i);
            layout::lemma_power_run(o);
            assert(layout::is_free(s, bits::pow2(o) as int, o));
            assert(i == bits::pow2(o) && o == order) by {
                if bits::pow2(o) < i {
                    assert(s[i] is Compound);
                }
            }
            layout::lemma_buddy(i, order);
        }
    }
    assert forall|a: int, n: int| !#[trigger] is_live(s, a, n) by {
        let i = a / CHUNK_SIZE as int;
        if 0 < i < CHUNK_COUNT {
            assert(s[i] is Compound || s[i] is Free);
        }
    }
}

} // verus!
