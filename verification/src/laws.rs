//! What holds of the allocator as a whole.
use crate::bits;
use crate::block::{self, AllocBlock, MetaChunk};
use crate::buddy;
use crate::defs::{BLOCK_SIZE, CHUNK_COUNT, CHUNK_SIZE, MAX_ORDER, MIN_ALLOC_SIZE};
use crate::descriptors::desc_storage::{DescStorage, RawDescType};
use crate::descriptors::parts_desc::PartsDesc;
use crate::descriptors::raw_desc::RawDesc;
use crate::error::AllocError;
use crate::layout;
use crate::layout::ChunkState;
use crate::requests;
use vstd::prelude::*;

verus! {

/// Allocated memory lies inside the block, after the chunk of the descriptors,
/// is aligned to its size, and holds no bitmap.
pub proof fn law_placement(s: Seq<ChunkState>, offset: int, size: int)
    requires
        layout::well_formed(s),
        requests::is_live(s, offset, size),
    ensures
        size >= MIN_ALLOC_SIZE,
        CHUNK_SIZE <= offset,
        offset + size <= BLOCK_SIZE,
        offset % size == 0,
        forall|b: int| offset <= b < offset + size ==> !#[trigger] requests::is_bitmap_byte(s, b),
{
    let i = offset / CHUNK_SIZE as int;
    assert(layout::chunk_ok(s, i));
    match s[i] {
        ChunkState::Alloc { order } => {
            let p = bits::pow2(order) as int;
            bits::lemma_pow2_double(order);
            vstd::arithmetic::div_mod::lemma_fundamental_div_mod(i, p);
            assert(i * 512 == (i / p) * (512 * p)) by (nonlinear_arith)
                requires
                    i == p * (i / p),
            ;
            vstd::arithmetic::div_mod::lemma_mod_multiples_basic(i / p, size);
            assert forall|b: int| offset <= b < offset + size implies !#[trigger] requests::is_bitmap_byte(
                s,
                b,
            ) by {
                let j = b / CHUNK_SIZE as int;
                assert(i <= j < i + p);
                if j > i {
                    assert(s[j] is Compound);
                }
            }
        },
        ChunkState::Parts { size: n, used, .. } => {
            assert(layout::parts_valid(s[i]));
            layout::lemma_part_counts(size);
            let r = offset % CHUNK_SIZE as int;
            let k = r / size;
            assert(layout::part_available(size, k));
            assert(r == k * size) by {
                vstd::arithmetic::div_mod::lemma_fundamental_div_mod(r, size);
                vstd::arithmetic::mul::lemma_mul_is_commutative(k, size);
            }
            requests::lemma_part_offset(i, size, k);
            assert(offset == i * CHUNK_SIZE + k * size);
            assert forall|b: int| offset <= b < offset + size implies !#[trigger] requests::is_bitmap_byte(
                s,
                b,
            ) by {
                assert(b / CHUNK_SIZE as int == i);
                assert(b % CHUNK_SIZE as int == r + (b - offset));
                if size == 16 {
                    assert(k * size >= 32) by (nonlinear_arith)
                        requires
                            k >= 2,
                            size == 16,
                    ;
                }
            }
        },
        _ => {},
    }
}

/// What is allocated can be freed with the offset at which it begins.
pub proof fn law_live_can_be_freed(s: Seq<ChunkState>, offset: int, size: int)
    requires
        requests::is_live(s, offset, size),
    ensures
        requests::can_free(s, offset),
        requests::freed_offset(s, offset) == offset,
{
}

/// Two pieces of allocated memory do not overlap, unless they are the same.
pub proof fn law_disjoint(s: Seq<ChunkState>, a: int, n: int, b: int, m: int)
    requires
        layout::well_formed(s),
        requests::is_live(s, a, n),
        requests::is_live(s, b, m),
        a != b || n != m,
    ensures
        a + n <= b || b + m <= a,
{
    let i = a / CHUNK_SIZE as int;
    let j = b / CHUNK_SIZE as int;
    assert(layout::chunk_ok(s, i));
    assert(layout::chunk_ok(s, j));
    assert(layout::parts_valid(s[i]));
    law_placement(s, a, n);
    law_placement(s, b, m);
    if i == j {
        match s[i] {
            ChunkState::Parts { size, .. } => {
                let k = (a % CHUNK_SIZE as int) / n;
                let l = (b % CHUNK_SIZE as int) / n;
                vstd::arithmetic::div_mod::lemma_fundamental_div_mod(a % CHUNK_SIZE as int, n);
                vstd::arithmetic::div_mod::lemma_fundamental_div_mod(b % CHUNK_SIZE as int, n);
                assert(n * k + n <= n * l || n * l + n <= n * k) by (nonlinear_arith)
                    requires
                        k != l,
                        n > 0,
                ;
            },
            _ => {},
        }
    } else if i < j {
        lemma_ends_before(s, a, n, b);
    } else {
        lemma_ends_before(s, b, m, a);
    }
}

/// What is allocated in one chunk ends before what is allocated in a later
/// one.
proof fn lemma_ends_before(s: Seq<ChunkState>, a: int, n: int, b: int)
    requires
        layout::well_formed(s),
        requests::is_live(s, a, n),
        exists|m: int| requests::is_live(s, b, m),
        (a / CHUNK_SIZE as int) < b / CHUNK_SIZE as int,
    ensures
        a + n <= b,
{
    let i = a / CHUNK_SIZE as int;
    let j = b / CHUNK_SIZE as int;
    assert(layout::chunk_ok(s, i));
    assert(layout::parts_valid(s[i]));
    match s[i] {
        ChunkState::Alloc { order } => {
            assert(!(s[j] is Compound));
            assert(j >= i + bits::pow2(order));
        },
        ChunkState::Parts { size, .. } => {
            layout::lemma_part_counts(n);
            let r = a % CHUNK_SIZE as int;
            let k = r / n;
            assert(layout::part_available(n, k));
            vstd::arithmetic::div_mod::lemma_fundamental_div_mod(r, n);
            vstd::arithmetic::mul::lemma_mul_is_commutative(k, n);
            requests::lemma_part_offset(i, n, k);
        },
        _ => {},
    }
}

/// What a request hands out does not overlap anything that was allocated
/// before it.
pub proof fn law_fresh(s: Seq<ChunkState>, size: int, offset: int, a: int, n: int)
    requires
        layout::well_formed(s),
        size >= 0,
        requests::alloc_layout(s, size).1 == Ok::<int, AllocError>(offset),
        requests::is_live(s, a, n),
    ensures
        a + n <= offset || offset + requests::rounded(size) <= a,
{
    requests::lemma_alloc_layout(s, size);
    let t = requests::alloc_layout(s, size).0;
    assert(requests::is_live(t, a, n));
    assert(requests::is_live(t, offset, requests::rounded(size)));
    assert(!requests::is_live(s, offset, requests::rounded(size)));
    law_disjoint(t, a, n, offset, requests::rounded(size));
}

/// Memory that is allocated in `s` keeps its contents if no memory differs but
/// for the bitmaps in `s`. Both allocating and freeing leave the memory
/// like that: `s` is the layout after allocating or before freeing.
pub proof fn law_contents_kept(
    before: &AllocBlock,
    after: &AllocBlock,
    s: Seq<ChunkState>,
    offset: int,
    size: int,
    b: int,
)
    requires
        layout::well_formed(s),
        after.same_memory(before, s),
        requests::is_live(s, offset, size),
        offset <= b < offset + size,
    ensures
        after.byte(b) == before.byte(b),
{
    law_placement(s, offset, size);
    assert(!requests::is_bitmap_byte(s, b));
}

/// Freeing what was just allocated restores the layout of the block, if that
/// withheld no free memory.
pub proof fn law_free_undoes_alloc(s: Seq<ChunkState>, size: int, offset: int)
    requires
        layout::well_formed(s),
        layout::tidy(s),
        size >= 0,
        requests::alloc_layout(s, size).1 == Ok::<int, AllocError>(offset),
    ensures
        requests::can_free(requests::alloc_layout(s, size).0, offset),
        requests::free_layout(requests::alloc_layout(s, size).0, offset) == s,
{
    requests::lemma_alloc_layout(s, size);
    requests::lemma_rounded(size);
    let n = requests::rounded(size);
    let t = requests::alloc_layout(s, size).0;
    assert(requests::is_live(t, offset, n));
    if n < CHUNK_SIZE {
        let p = |c: ChunkState| requests::has_room(c, n);
        buddy::lemma_first_from(s, p, 1);
        let f = requests::first_parts(s, n);
        layout::lemma_part_counts(n);
        if f < s.len() {
            assert(layout::parts_valid(s[f]) && layout::is_occupied(s[f]));
            lemma_free_placed(s, f, n, offset);
            assert(requests::free_layout(t, offset) =~= s);
        } else {
            buddy::lemma_take_run(s, 0);
            buddy::lemma_release_after_take(s, 0);
            match buddy::take_run(s, 0) {
                Some((u, i)) => {
                    let v = u.update(i, layout::fresh_parts(n as nat));
                    bits::lemma_bit(0);
                    assert(layout::bitmap_ok(n, 0));
                    lemma_free_placed(v, i, n, offset);
                    assert(t.update(i, ChunkState::Alloc { order: 0 }) =~= u);
                },
                None => {},
            }
        }
    } else {
        let order = requests::order_of(n);
        buddy::lemma_take_run(s, order);
        buddy::lemma_release_after_take(s, order);
    }
}

/// Freeing the part of chunk `i` that was just allocated leaves the chunk with
/// the bitmap that it had.
proof fn lemma_free_placed(s: Seq<ChunkState>, i: int, size: int, offset: int)
    requires
        0 < i < s.len(),
        s[i] matches ChunkState::Parts { size: n, used, .. } && n == size && layout::bitmap_ok(
            size,
            used,
        ),
        layout::is_part_size(size),
        requests::place_part(s, i).1 == Ok::<int, AllocError>(offset),
    ensures
        offset / CHUNK_SIZE as int == i,
        requests::place_part(s, i).0[i] == layout::with_used(
            s[i],
            requests::place_part(s, i).0[i]->used,
        ),
        requests::place_part(s, i).0[i]->used & !(1u32 << (((offset % CHUNK_SIZE as int)
            / size) as u32)) == s[i]->used,
{
    let used = s[i]->used;
    let k = layout::next_part(size, used);
    layout::lemma_part_counts(size);
    layout::lemma_free_part_from(size, used, layout::first_part(size));
    requests::lemma_part_offset(i, size, k);
    let mask = 1u32 << (k as u32);
    let more = used | mask;
    bits::lemma_bit(k as u32);
    bits::lemma_bits(used, mask);
    bits::lemma_bits(mask, 0);
    bits::lemma_bits(more, !mask);
    assert forall|j: int| 0 <= j < 32 implies (#[trigger] bits::has_bit(used, j) <==> bits::has_bit(
        more & !mask,
        j,
    )) by {
        assert(bits::has_bit(more, j) <==> bits::has_bit(used, j) || bits::has_bit(mask, j));
        assert(bits::has_bit(!mask, j) <==> !bits::has_bit(mask, j));
        assert(bits::has_bit(mask, j) <==> j == k);
    }
    bits::lemma_same_bits(used, more & !mask);
}

/// A block in which nothing is allocated has the initial layout: free memory
/// is always joined again, whatever was allocated and freed before.
pub proof fn law_all_free(s: Seq<ChunkState>)
    requires
        layout::well_formed(s),
        layout::tidy(s),
        forall|a: int, n: int| !#[trigger] requests::is_live(s, a, n),
    ensures
        layout::initial(s),
{
    assert forall|i: int| 0 < i < CHUNK_COUNT implies (#[trigger] s[i] is Free || s[i] is Compound) by {
        assert(layout::chunk_ok(s, i));
        match s[i] {
            ChunkState::Alloc { order } => {
                assert(requests::is_live(s, i * CHUNK_SIZE, CHUNK_SIZE * bits::pow2(order)));
            },
            ChunkState::Parts { size, used, .. } => {
                assert(layout::parts_valid(s[i]) && layout::is_occupied(s[i]));
                bits::lemma_bit(0);
                if forall|k: int| 0 <= k < 32 ==> !#[trigger] bits::has_bit(used, k) {
                    bits::lemma_same_bits(used, 0);
                }
                let k = choose|k: int| 0 <= k < 32 && #[trigger] bits::has_bit(used, k);
                layout::lemma_part_counts(size as int);
                requests::lemma_part_offset(i, size as int, k);
                assert(requests::is_live(s, i * CHUNK_SIZE + k * size, size as int));
            },
            _ => {},
        }
    }
    assert forall|order: nat, i: int| #[trigger] layout::is_free(s, i, order) implies i == bits::pow2(
        order,
    ) by {
        lemma_free_at_power(s, order, i);
    }
    assert forall|order: nat| order <= MAX_ORDER implies #[trigger] layout::is_free(
        s,
        bits::pow2(order) as int,
        order,
    ) by {
        lemma_power_is_free(s, order);
    }
    assert forall|order: nat, j: int|
        order <= MAX_ORDER && #[trigger] bits::pow2(order) < j < bits::pow2(
            order + 1,
        ) implies #[trigger] s[j] is Compound by {
        assert(layout::is_free(s, bits::pow2(order) as int, order));
        assert(layout::chunk_ok(s, bits::pow2(order) as int));
        bits::lemma_pow2_double(order);
    }
}

/// In a block in which nothing was allocated yet, all chunks but the one of the
/// descriptors are free.
pub proof fn law_initially_free(s: Seq<ChunkState>)
    requires
        layout::initial(s),
    ensures
        layout::free_chunks(s) == CHUNK_COUNT - 1,
        forall|i: int| 0 < i < CHUNK_COUNT ==> (#[trigger] s[i] is Free || s[i] is Compound),
{
    requests::lemma_initial(s);
    bits::lemma_pow2_values();
    lemma_free_from_power(s, 0);
}

/// The free chunks from a power of two on.
proof fn lemma_free_from_power(s: Seq<ChunkState>, order: nat)
    requires
        layout::initial(s),
        order <= MAX_ORDER + 1,
    ensures
        layout::free_chunks_from(s, bits::pow2(order) as int) == CHUNK_COUNT - bits::pow2(order),
    decreases MAX_ORDER + 1 - order,
{
    bits::lemma_pow2_values();
    if order <= MAX_ORDER {
        let p = bits::pow2(order) as int;
        bits::lemma_pow2_double(order);
        lemma_free_from_power(s, order + 1);
        if order + 1 < 7 {
            vstd::arithmetic::power2::lemma_pow2_strictly_increases(order + 1, 7);
        }
        assert(layout::is_free(s, p, order));
        lemma_free_after_rest(s, p + 1, 2 * p);
    }
}

/// The rest of a run holds no free run.
proof fn lemma_free_after_rest(s: Seq<ChunkState>, a: int, b: int)
    requires
        0 <= a <= b <= s.len(),
        forall|j: int| a <= j < b ==> #[trigger] s[j] is Compound,
    ensures
        layout::free_chunks_from(s, a) == layout::free_chunks_from(s, b),
    decreases b - a,
{
    if a < b {
        lemma_free_after_rest(s, a + 1, b);
    }
}

/// Where all chunks are free, a free run starts at the chunk whose number is
/// its length: otherwise its buddy, or a part of the buddy, would be a shorter
/// run of which the same could be said.
proof fn lemma_free_at_power(s: Seq<ChunkState>, order: nat, i: int)
    requires
        layout::tiled(s),
        layout::coalesced(s),
        forall|j: int| 0 < j < CHUNK_COUNT ==> (#[trigger] s[j] is Free || s[j] is Compound),
        layout::is_free(s, i, order),
    ensures
        i == bits::pow2(order),
    decreases order,
{
    assert(layout::chunk_ok(s, i));
    layout::lemma_buddy(i, order);
    bits::lemma_pow2_double(order);
    if i != bits::pow2(order) {
        let b = layout::buddy(i, order);
        assert(layout::chunk_ok(s, b));
        assert(!layout::is_free(s, b, order));
        // The run that chunk `b` lies in.
        let (h, o) = if s[b] is Compound {
            choose|h: int, o: nat| #[trigger]
                layout::is_run(s, h, o) && h < b < h + bits::pow2(o)
        } else {
            (b, s[b]->Free_order)
        };
        assert(layout::is_run(s, h, o));
        assert(h <= b < h + bits::pow2(o)) by {
            bits::lemma_pow2_double(o);
        }
        assert(layout::chunk_ok(s, h));
        assert(s[h] is Free);
        if o >= order {
            layout::lemma_nested(b, order, h, o);
            if o > order {
                // A longer run that holds the buddy holds this run, too.
                lemma_holds_both(i, order, h, o);
                assert(h != i);
                buddy::lemma_apart(s, i, order, h, o);
            } else {
                assert(h == b);
            }
        } else {
            layout::lemma_nested(h, o, b, order);
            lemma_free_at_power(s, o, h);
            vstd::arithmetic::power2::lemma_pow2_strictly_increases(o, order);
            // The buddy starts at the length of the run or later.
            assert(b >= bits::pow2(order)) by {
                let p = bits::pow2(order) as int;
                vstd::arithmetic::div_mod::lemma_fundamental_div_mod(b, p);
                assert(b / p >= 1) by (nonlinear_arith)
                    requires
                        b == p * (b / p),
                        b > 0,
                        p > 0,
                ;
                assert(p * (b / p) >= p) by (nonlinear_arith)
                    requires
                        b / p >= 1,
                        p > 0,
                ;
            }
        }
    }
}

/// A run that is longer than another one and holds its buddy holds both.
proof fn lemma_holds_both(i: int, order: nat, h: int, o: nat)
    requires
        layout::run_fits(i, order),
        layout::buddy(i, order) > 0,
        layout::run_fits(h, o),
        o > order,
        h <= layout::buddy(i, order),
        layout::buddy(i, order) + bits::pow2(order) <= h + bits::pow2(o),
    ensures
        h <= i < h + bits::pow2(o),
{
    layout::lemma_buddy(i, order);
    bits::lemma_pow2_double(order);
    let low = if i < layout::buddy(i, order) {
        i
    } else {
        layout::buddy(i, order)
    };
    layout::lemma_nested(low, order + 1, h, o);
}

/// Where all free runs start at the chunk whose number is their length, there
/// is one of each length.
proof fn lemma_power_is_free(s: Seq<ChunkState>, order: nat)
    requires
        layout::tiled(s),
        order <= MAX_ORDER,
        forall|j: int| 0 < j < CHUNK_COUNT ==> (#[trigger] s[j] is Free || s[j] is Compound),
        forall|o: nat, i: int| #[trigger] layout::is_free(s, i, o) ==> i == bits::pow2(o),
    ensures
        layout::is_free(s, bits::pow2(order) as int, order),
{
    let p = bits::pow2(order) as int;
    layout::lemma_power_run(order);
    assert(layout::chunk_ok(s, p));
    if s[p] is Compound {
        let (h, o) = choose|h: int, o: nat| #[trigger]
            layout::is_run(s, h, o) && h < p < h + bits::pow2(o);
        assert(layout::chunk_ok(s, h));
        assert(layout::is_free(s, h, o));
        bits::lemma_pow2_double(o);
        // No power of two lies strictly between two successive ones.
        if o < order {
            if o + 1 < order {
                vstd::arithmetic::power2::lemma_pow2_strictly_increases(o + 1, order);
            }
        } else if order < o {
            vstd::arithmetic::power2::lemma_pow2_strictly_increases(order, o);
        }
    } else {
        let o = s[p]->Free_order;
        assert(layout::is_free(s, p, o));
        if o < order {
            vstd::arithmetic::power2::lemma_pow2_strictly_increases(o, order);
        } else if order < o {
            vstd::arithmetic::power2::lemma_pow2_strictly_increases(order, o);
        }
    }
}

/// A run is taken from the first of the shortest free runs that are long
/// enough. What it is longer by stays behind as free runs, one of each order,
/// and all other chunks stay as they are. No run is had only if no free run is
/// long enough.
pub proof fn law_best_fit(s: Seq<ChunkState>, order: nat)
    requires
        layout::tiled(s),
    ensures
        match buddy::take_run(s, order) {
            Some((t, i)) => exists|o: nat| #[trigger]
                is_best_fit(s, order, i, o) && is_cut(s, t, order, i, o),
            None => forall|o: nat| o >= order ==> !#[trigger] layout::has_free(s, o),
        },
    decreases MAX_ORDER + 1 - order,
{
    buddy::lemma_take_run(s, order);
    if order <= MAX_ORDER {
        let p = |c: ChunkState| c == (ChunkState::Free { order });
        buddy::lemma_first_from(s, p, 1);
        let f = buddy::first_free(s, order);
        if f < s.len() {
            let t = s.update(f, ChunkState::Alloc { order });
            assert(is_best_fit(s, order, f, order));
            assert(is_cut(s, t, order, f, order));
        } else {
            law_best_fit(s, order + 1);
            buddy::lemma_take_run(s, order + 1);
            if let Some((u, i)) = buddy::take_run(s, order + 1) {
                let o = choose|o: nat| #[trigger]
                    is_best_fit(s, order + 1, i, o) && is_cut(s, u, order + 1, i, o);
                let m = i + bits::pow2(order);
                let t = buddy::split_run(u, i, order).update(m, ChunkState::Free { order });
                buddy::lemma_split(u, i, order);
                layout::lemma_halves(i, order);
                bits::lemma_pow2_double(order);
                assert forall|h: int| !layout::is_free(s, h, order) by {
                    if layout::is_free(s, h, order) {
                        assert(p(s[h]));
                    }
                }
                assert(is_best_fit(s, order, i, o)) by {
                    assert forall|k: nat| order <= k < o implies !#[trigger] layout::has_free(s, k) by {
                        if k == order {
                            assert forall|h: int| !#[trigger] layout::is_free(s, h, order) by {}
                        }
                    }
                }
                assert forall|k: nat| order <= k < o implies #[trigger] layout::is_free(
                    t,
                    i + bits::pow2(k),
                    k,
                ) by {
                    if k > order {
                        assert(layout::is_free(u, i + bits::pow2(k), k));
                        vstd::arithmetic::power2::lemma_pow2_strictly_increases(order, k);
                    }
                }
                assert forall|j: int|
                    0 <= j < s.len() && j != i && (forall|k: nat|
                        order <= k < o ==> j != i + #[trigger] bits::pow2(
                            k,
                        )) implies #[trigger] t[j] == s[j] by {
                    assert(j != i + bits::pow2(order));
                    assert(u[j] == s[j]);
                }
                assert(is_cut(s, t, order, i, o));
            } else {
                assert forall|o: nat| o >= order implies !#[trigger] layout::has_free(s, o) by {
                    if o == order && layout::has_free(s, o) {
                        let h = choose|h: int| #[trigger] layout::is_free(s, h, o);
                        assert(p(s[h]));
                    }
                }
            }
        }
    } else {
        assert forall|o: nat| o >= order implies !#[trigger] layout::has_free(s, o) by {
            if layout::has_free(s, o) {
                let h = choose|h: int| #[trigger] layout::is_free(s, h, o);
                assert(layout::chunk_ok(s, h));
            }
        }
    }
}

/// The free run of order `o` at chunk `i` is the first of the shortest free
/// runs of at least the given order.
pub open spec fn is_best_fit(s: Seq<ChunkState>, order: nat, i: int, o: nat) -> bool {
    &&& order <= o
    &&& layout::is_free(s, i, o)
    &&& forall|k: nat| order <= k < o ==> !#[trigger] layout::has_free(s, k)
    &&& forall|h: int| h < i ==> !#[trigger] layout::is_free(s, h, o)
}

/// From `s` to `t`, a run of the given order was cut from the free run of
/// order `o` at chunk `i`.
pub open spec fn is_cut(
    s: Seq<ChunkState>,
    t: Seq<ChunkState>,
    order: nat,
    i: int,
    o: nat,
) -> bool {
    &&& s.len() == t.len()
    &&& layout::is_alloc(t, i, order)
    &&& forall|k: nat| order <= k < o ==> #[trigger] layout::is_free(t, i + bits::pow2(k), k)
    &&& forall|j: int|
        0 <= j < s.len() && j != i && (forall|k: nat|
            order <= k < o ==> j != i + #[trigger] bits::pow2(k)) ==> #[trigger] t[j] == s[j]
}

/// Taking a run takes exactly its chunks from the free ones.
pub proof fn law_taken_chunks(s: Seq<ChunkState>, order: nat)
    requires
        layout::tiled(s),
    ensures
        buddy::take_run(s, order) matches Some((t, i)) ==> layout::free_chunks(s)
            == layout::free_chunks(t) + bits::pow2(order),
{
    buddy::lemma_taken_chunks(s, order);
}

/// A run that is freed becomes, as a whole, part of one free run. That run
/// takes in nothing else that was allocated, all chunks outside of it stay as
/// they are, and exactly the chunks of the freed run are free in addition.
/// Where no two free buddies were left side by side before, none are after.
pub proof fn law_freed_run(s: Seq<ChunkState>, i: int, order: nat)
    requires
        layout::tiled(s),
        layout::is_alloc(s, i, order),
        i > 0,
    ensures
        layout::tiled(buddy::release_run(s, i, order)),
        exists|h: int, o: nat| #[trigger]
            buddy::is_freed_into(s, buddy::release_run(s, i, order), i, order, h, o),
        layout::free_chunks(buddy::release_run(s, i, order)) == layout::free_chunks(s)
            + bits::pow2(order),
        layout::coalesced(s) ==> layout::coalesced(buddy::release_run(s, i, order)),
{
    let (h, o) = buddy::lemma_freed_into(s, i, order);
    assert(buddy::is_freed_into(s, buddy::release_run(s, i, order), i, order, h, o));
    buddy::lemma_release_run(s, i, order);
}

/// Freeing something frees its chunks and no others: all chunks of a run, the
/// chunk of a part if no other part of it is in use, and otherwise none.
pub proof fn law_freed_chunks(s: Seq<ChunkState>, offset: int)
    requires
        layout::well_formed(s),
        requests::can_free(s, offset),
    ensures
        ({
            let i = offset / CHUNK_SIZE as int;
            let t = requests::free_layout(s, offset);
            match s[i] {
                ChunkState::Alloc { order } => {
                    &&& layout::free_chunks(t) == layout::free_chunks(s) + bits::pow2(order)
                    &&& exists|h: int, o: nat| #[trigger]
                        buddy::is_freed_into(s, t, i, order, h, o)
                },
                _ => if t[i] is Parts {
                    &&& layout::free_chunks(t) == layout::free_chunks(s)
                    &&& forall|j: int| 0 <= j < s.len() && j != i ==> #[trigger] t[j] == s[j]
                } else {
                    &&& layout::free_chunks(t) == layout::free_chunks(s) + 1
                    &&& exists|h: int, o: nat| #[trigger] buddy::is_freed_into(s, t, i, 0, h, o)
                },
            }
        }),
{
    let i = offset / CHUNK_SIZE as int;
    let t = requests::free_layout(s, offset);
    bits::lemma_pow2_values();
    match s[i] {
        ChunkState::Alloc { order } => {
            law_freed_run(s, i, order);
        },
        ChunkState::Parts { size, used, .. } => {
            let k = (offset % CHUNK_SIZE as int) / size as int;
            let rest = used & !(1u32 << (k as u32));
            if rest == 0 {
                let u = s.update(i, ChunkState::Alloc { order: 0 });
                buddy::lemma_mark_chunk(s, i, ChunkState::Alloc { order: 0 });
                layout::lemma_free_chunks(s, i, ChunkState::Alloc { order: 0 }, 0);
                buddy::lemma_release_run(u, i, 0);
                let (h, o) = buddy::lemma_freed_into(u, i, 0);
                assert forall|j: int| 0 <= j < s.len() && !(h <= j < h + bits::pow2(
                    o,
                )) implies #[trigger] t[j] == s[j] by {
                    assert(t[j] == u[j]);
                }
                assert forall|j: int| h <= j < h + bits::pow2(o) && j != i implies buddy::is_filler(
                    #[trigger] s[j],
                ) by {
                    assert(buddy::is_filler(u[j]));
                }
                assert(buddy::is_freed_into(s, t, i, 0, h, o));
            } else {
                layout::lemma_free_chunks(s, i, t[i], 0);
            }
        },
        _ => {},
    }
}

/// A request that takes whole chunks succeeds exactly if there is a free run
/// that is long enough.
pub proof fn law_run_success(s: Seq<ChunkState>, size: int)
    requires
        layout::well_formed(s),
        CHUNK_SIZE as int / 2 < size <= BLOCK_SIZE as int / 2,
    ensures
        requests::alloc_layout(s, size).1 is Ok <==> exists|o: nat|
            o >= requests::order_of(requests::rounded(size)) && #[trigger] layout::has_free(s, o),
        requests::alloc_layout(s, size).1 is Err ==> requests::alloc_layout(s, size).0 == s,
{
    requests::lemma_rounded(size);
    assert(requests::rounded(size) >= CHUNK_SIZE) by {
        reveal_with_fuel(requests::doubled, 7);
    }
    let order = requests::order_of(requests::rounded(size));
    buddy::lemma_take_run(s, order);
    law_best_fit(s, order);
    if let Some((t, i)) = buddy::take_run(s, order) {
        let o = choose|o: nat| #[trigger]
            is_best_fit(s, order, i, o) && is_cut(s, t, order, i, o);
        assert(layout::has_free(s, o));
    }
}

/// A request for a part, other than for one of the smallest size, succeeds
/// exactly if some chunk has such a part that is not in use, or some run is
/// free.
pub proof fn law_part_success(s: Seq<ChunkState>, size: int)
    requires
        layout::well_formed(s),
        MIN_ALLOC_SIZE < size <= CHUNK_SIZE as int / 2,
    ensures
        requests::alloc_layout(s, size).1 is Ok <==> {
            ||| exists|i: int|
                0 <= i < CHUNK_COUNT && has_unused_part(#[trigger] s[i], requests::rounded(size))
            ||| exists|o: nat| #[trigger] layout::has_free(s, o)
        },
        requests::alloc_layout(s, size).1 is Err ==> requests::alloc_layout(s, size).0 == s,
{
    let n = requests::rounded(size);
    requests::lemma_rounded(size);
    assert(32 <= n < CHUNK_SIZE) by {
        reveal_with_fuel(requests::doubled, 7);
    }
    layout::lemma_part_counts(n);
    let p = |c: ChunkState| requests::has_room(c, n);
    buddy::lemma_first_from(s, p, 1);
    let f = requests::first_parts(s, n);
    assert forall|i: int| 0 <= i < CHUNK_COUNT implies (has_unused_part(#[trigger] s[i], n)
        <==> requests::has_room(s[i], n)) by {
        match s[i] {
            ChunkState::Parts { size: m, used, .. } => {
                if m == n {
                    layout::lemma_free_part_from(n, used, layout::first_part(n));
                }
            },
            _ => {},
        }
    }
    if f < s.len() {
        assert(has_unused_part(s[f], n));
    } else {
        assert forall|i: int| 0 <= i < CHUNK_COUNT implies !has_unused_part(#[trigger] s[i], n) by {
            if i >= 1 {
                assert(!p(s[i]));
            }
        }
        lemma_fresh_part_success(s, n);
    }
}

/// A chunk of parts of `size` bytes of which one is not in use.
pub open spec fn has_unused_part(c: ChunkState, size: int) -> bool {
    match c {
        ChunkState::Parts { size: n, used, .. } => n == size && layout::next_part(size, used)
            < layout::part_count(size),
        _ => false,
    }
}

/// Where a chunk has to be taken for a part, the request succeeds exactly if
/// some run is free.
proof fn lemma_fresh_part_success(s: Seq<ChunkState>, size: int)
    requires
        layout::well_formed(s),
        layout::is_part_size(size),
        requests::first_parts(s, size) >= s.len(),
    ensures
        requests::take_part(s, size).1 is Ok <==> exists|o: nat| #[trigger] layout::has_free(s, o),
        requests::take_part(s, size).1 is Err ==> requests::take_part(s, size).0 == s,
{
    layout::lemma_part_counts(size);
    law_best_fit(s, 0);
    bits::lemma_bit(0);
    if let Some((t, i)) = buddy::take_run(s, 0) {
        buddy::lemma_take_run(s, 0);
        let o = choose|o: nat| #[trigger] is_best_fit(s, 0, i, o) && is_cut(s, t, 0, i, o);
        assert(layout::has_free(s, o));
        layout::lemma_free_part_from(size, 0, layout::first_part(size));
        assert(layout::next_part(size, 0) < layout::part_count(size)) by {
            assert(!bits::has_bit(0, layout::first_part(size)));
        }
    }
}

/// A request for a part of the smallest size goes to the first chunk of such
/// parts that is not marked as full, and succeeds exactly if that has a part
/// left. If all are marked, it succeeds exactly if some run is free. A
/// request that fails changes nothing, except that the chunk that it went to
/// is marked.
pub proof fn law_smallest_part_success(s: Seq<ChunkState>, size: int)
    requires
        layout::well_formed(s),
        0 <= size <= MIN_ALLOC_SIZE,
    ensures
        ({
            let i = requests::first_parts(s, MIN_ALLOC_SIZE as int);
            let (t, res) = requests::alloc_layout(s, size);
            if i < CHUNK_COUNT {
                &&& s[i] matches ChunkState::Parts { full, .. } && !full
                &&& res is Ok <==> has_unused_part(s[i], MIN_ALLOC_SIZE as int)
                &&& res is Err ==> t == s.update(i, layout::with_full(s[i], true))
                    && layout::counts_as_full(t[i])
            } else {
                &&& res is Ok <==> exists|o: nat| #[trigger] layout::has_free(s, o)
                &&& res is Err ==> t == s
            }
        }),
{
    let n = MIN_ALLOC_SIZE as int;
    assert(requests::rounded(size) == n);
    layout::lemma_part_counts(n);
    let p = |c: ChunkState| requests::has_room(c, n);
    buddy::lemma_first_from(s, p, 1);
    if requests::first_parts(s, n) >= s.len() {
        lemma_fresh_part_success(s, n);
    }
}

/// Requests are rounded to the smallest power of two that is large enough and
/// not below the smallest allocation.
pub proof fn law_rounding(size: int, exponent: nat)
    requires
        0 <= size <= BLOCK_SIZE as int / 2,
    ensures
        exists|e: nat| requests::rounded(size) == #[trigger] bits::pow2(e),
        requests::rounded(size) >= size,
        requests::rounded(size) >= MIN_ALLOC_SIZE,
        bits::pow2(exponent) >= size && bits::pow2(exponent) >= MIN_ALLOC_SIZE
            ==> requests::rounded(size) <= bits::pow2(exponent),
{
    requests::lemma_rounded(size);
    bits::lemma_pow2_values();
    reveal_with_fuel(requests::doubled, 13);
    let r = requests::rounded(size);
    let e: nat = if r == 16 {
        4
    } else if r == 32 {
        5
    } else if r == 64 {
        6
    } else if r == 128 {
        7
    } else if r == 256 {
        8
    } else if r == 512 {
        9
    } else if r == 1024 {
        10
    } else if r == 2048 {
        11
    } else if r == 4096 {
        12
    } else if r == 8192 {
        13
    } else if r == 16384 {
        14
    } else {
        15
    };
    assert(r == bits::pow2(e));
    if exponent < e {
        bits::lemma_pow2_double((e - 1) as nat);
        if exponent < e - 1 {
            vstd::arithmetic::power2::lemma_pow2_strictly_increases(exponent, (e - 1) as nat);
        }
    } else if e < exponent {
        vstd::arithmetic::power2::lemma_pow2_strictly_increases(e, exponent);
    }
}

/// Going through a block visits every chunk that is not the rest of a run, and
/// no other: the first chunk after the descriptors is one, and so is each one
/// that is gone on to.
pub proof fn law_iteration(s: Seq<ChunkState>, i: int)
    requires
        layout::tiled(s),
        0 < i < CHUNK_COUNT,
        !(s[i] is Compound),
    ensures
        !(s[1] is Compound),
        i < layout::next_chunk(s, i) <= CHUNK_COUNT,
        forall|j: int| i < j < layout::next_chunk(s, i) ==> #[trigger] s[j] is Compound,
        layout::next_chunk(s, i) < CHUNK_COUNT ==> !(s[layout::next_chunk(s, i)] is Compound),
{
    assert(layout::chunk_ok(s, i));
    layout::lemma_next_chunk(s, i);
    assert(layout::chunk_ok(s, 1));
    if s[1] is Compound {
        let (h, o) = choose|h: int, o: nat| #[trigger]
            layout::is_run(s, h, o) && h < 1 < h + bits::pow2(o);
        assert(h == 0);
    }
    let n = layout::next_chunk(s, i);
    if n < CHUNK_COUNT && s[n] is Compound {
        assert(layout::chunk_ok(s, n));
        let (h, o) = choose|h: int, o: nat| #[trigger]
            layout::is_run(s, h, o) && h < n < h + bits::pow2(o);
        assert(h > 0);
        assert(layout::chunk_ok(s, h));
        match s[i] {
            ChunkState::Free { order } => {
                layout::lemma_run_end(i, order);
            },
            ChunkState::Alloc { order } => {
                layout::lemma_run_end(i, order);
            },
            _ => {},
        }
        if h == i {
            assert(layout::is_run(s, i, o));
        } else if i < h {
            assert(s[h] is Compound);
        } else {
            assert(s[i] is Compound);
        }
    }
}

/// Splitting a run, freeing its upper half and joining the lower half with it
/// restores the layout.
pub proof fn law_join_undoes_split(s: Seq<ChunkState>, i: int, order: nat)
    requires
        layout::tiled(s),
        i > 0,
        layout::is_alloc(s, i, order + 1),
    ensures
        buddy::join_run(
            buddy::split_run(s, i, order).update(
                i + bits::pow2(order),
                ChunkState::Free { order },
            ),
            i,
            order,
        ) == s,
{
    buddy::lemma_split(s, i, order);
    layout::lemma_halves(i, order);
    bits::lemma_pow2_double(order);
    assert(buddy::join_run(
        buddy::split_run(s, i, order).update(i + bits::pow2(order), ChunkState::Free { order }),
        i,
        order,
    ) =~= s);
}

/// Once a descriptor in the block is replaced by another one, those who loaded
/// it before have a descriptor that is no longer current. So of several
/// holders of the same descriptor only the first one can replace it.
pub proof fn law_first_update_wins(
    before: &AllocBlock,
    after: &AllocBlock,
    raw: RawDesc,
    desc: DescStorage,
)
    requires
        raw.is_current(before),
        after.wrote_desc(before, raw.index as int, desc),
        desc != raw.value,
    ensures
        !raw.is_current(after),
{
}

/// While a chunk is locked whose lock is in the descriptor, no descriptor of
/// it that was loaded before, or is loaded now, gets at it: where the lock of
/// such a descriptor belongs into the descriptor, it cannot be taken, and where
/// it does not, which is so for one from before the chunk was handed out in
/// parts of this size, it is not the one that the block has, so that whatever
/// depends on that is refused.
pub proof fn law_lock_excludes(holder: PartsDesc, block: &AllocBlock, other: PartsDesc)
    requires
        holder.wf(),
        holder.locked,
        !holder.fits(),
        holder.is_stored(block),
        other.wf(),
        other.raw.value == other.desc,
        other.raw.index == holder.raw.index,
    ensures
        !other.fits() ==> other.is_blocked(block),
        other.fits() ==> !other.raw.is_current(block),
{
}

/// A descriptor that has no bits set that its type has no use for is fixed by
/// its type and, where the type has them, by its order, bitmap and flags.
pub proof fn law_plain_descriptor(desc: DescStorage)
    requires
        desc.is_plain(),
    ensures
        desc.word & 0xfc08 == 0,
        match desc.kind() {
            None => desc.word == 0,
            Some(RawDescType::Meta) => desc == DescStorage::plain(RawDescType::Meta, 0),
            Some(RawDescType::Compound) => desc == DescStorage::plain(RawDescType::Compound, 0),
            Some(RawDescType::Free) => desc == DescStorage::plain(
                RawDescType::Free,
                desc.order() as u32,
            ),
            Some(RawDescType::Alloc) => desc == DescStorage::plain(
                RawDescType::Alloc,
                desc.order() as u32,
            ),
            Some(RawDescType::Parts) => CHUNK_SIZE as int / desc.parts_size() as int > 16
                ==> desc.bitmap() == 0,
        },
{
    desc.lemma_plain_fields();
}

/// As long as no descriptor has bits set that its type has no use for, the
/// layout fixes every descriptor.
pub proof fn law_layout_fixes_descriptors(a: &AllocBlock, b: &AllocBlock)
    requires
        a.is_plain(),
        b.is_plain(),
        a@ == b@,
    ensures
        forall|i: int| 0 <= i < CHUNK_COUNT ==> #[trigger] a.desc(i) == b.desc(i),
{
    assert forall|i: int| 0 <= i < CHUNK_COUNT implies #[trigger] a.desc(i) == b.desc(i) by {
        let x = a.desc(i);
        let y = b.desc(i);
        assert(x.is_plain() && y.is_plain());
        assert(layout::state_of(x, block::first_word(a.chunk_bytes(i))) == a@[i]);
        assert(layout::state_of(y, block::first_word(b.chunk_bytes(i))) == b@[i]);
        assert(x.kind() == y.kind());
        if x.kind() is Some {
            if x.order() < y.order() {
                vstd::arithmetic::power2::lemma_pow2_strictly_increases(x.order(), y.order());
            } else if y.order() < x.order() {
                vstd::arithmetic::power2::lemma_pow2_strictly_increases(y.order(), x.order());
            }
            x.lemma_same_fields(y);
        }
    }
}

/// Whatever a holder of a descriptor does with it, and whenever, the chunks
/// stay tiled: allocating a free run, freeing, splitting or joining an
/// allocated one, handing out a single chunk in parts, changing what is in use
/// of it, and taking it back as a whole.
pub proof fn law_every_step_keeps_tiling(s: Seq<ChunkState>, i: int, order: nat, parts: ChunkState)
    requires
        layout::tiled(s),
        0 < i < CHUNK_COUNT,
        parts is Parts,
    ensures
        layout::is_free(s, i, order) ==> layout::tiled(s.update(i, ChunkState::Alloc { order })),
        layout::is_alloc(s, i, order) ==> layout::tiled(s.update(i, ChunkState::Free { order })),
        layout::is_alloc(s, i, order + 1) ==> layout::tiled(buddy::split_run(s, i, order)),
        layout::is_alloc(s, i, order) && layout::is_free(s, layout::buddy(i, order), order)
            ==> layout::tiled(buddy::join_run(s, i, order)),
        layout::is_alloc(s, i, 0) || s[i] is Parts ==> layout::tiled(s.update(i, parts)),
        s[i] is Parts ==> layout::tiled(s.update(i, ChunkState::Alloc { order: 0 })),
{
    if layout::is_run(s, i, order) {
        buddy::lemma_mark_run(s, i, order, ChunkState::Alloc { order });
        buddy::lemma_mark_run(s, i, order, ChunkState::Free { order });
    }
    if layout::is_alloc(s, i, order + 1) {
        buddy::lemma_split(s, i, order);
    }
    if layout::is_alloc(s, i, order) && layout::is_free(s, layout::buddy(i, order), order) {
        buddy::lemma_join(s, i, order);
    }
    if layout::is_alloc(s, i, 0) || s[i] is Parts {
        buddy::lemma_mark_chunk(s, i, parts);
        buddy::lemma_mark_chunk(s, i, ChunkState::Alloc { order: 0 });
    }
}

/// Freeing a run leaves a free run that is at least as long.
proof fn lemma_release_has_free(s: Seq<ChunkState>, i: int, order: nat)
    requires
        layout::tiled(s),
        layout::is_alloc(s, i, order),
        i > 0,
    ensures
        exists|o: nat|
            o >= order && #[trigger] layout::has_free(buddy::release_run(s, i, order), o),
    decreases MAX_ORDER + 1 - order,
{
    assert(layout::chunk_ok(s, i));
    if order < MAX_ORDER && layout::is_free(s, layout::buddy(i, order), order) {
        let t = buddy::join_run(s, i, order);
        let low = buddy::lower(i, order);
        buddy::lemma_join(s, i, order);
        lemma_release_has_free(t, low, order + 1);
        let o = choose|o: nat|
            o >= order + 1 && #[trigger] layout::has_free(
                buddy::release_run(t, low, order + 1),
                o,
            );
        assert(layout::has_free(buddy::release_run(s, i, order), o));
    } else {
        assert(layout::is_free(buddy::release_run(s, i, order), i, order));
        assert(layout::has_free(buddy::release_run(s, i, order), order));
    }
}

/// What was freed can be had again: a request of the same size succeeds, and
/// after freeing a run any smaller one does, too. Requests for parts of the
/// smallest size are left out, since they may go to another chunk that turns
/// out to be full.
pub proof fn law_freed_can_be_had_again(s: Seq<ChunkState>, offset: int, n: int, size: int)
    requires
        layout::well_formed(s),
        requests::is_live(s, offset, n),
        MIN_ALLOC_SIZE < size <= BLOCK_SIZE as int / 2,
        requests::rounded(size) == n || n >= CHUNK_SIZE && requests::rounded(size) <= n,
    ensures
        requests::alloc_layout(requests::free_layout(s, offset), size).1 is Ok,
{
    let i = offset / CHUNK_SIZE as int;
    let t = requests::free_layout(s, offset);
    law_live_can_be_freed(s, offset, n);
    requests::lemma_free_layout(s, offset);
    requests::lemma_rounded(size);
    let r = requests::rounded(size);
    match s[i] {
        ChunkState::Alloc { order } => {
            lemma_release_has_free(s, i, order);
            let o = choose|o: nat| o >= order && #[trigger] layout::has_free(t, o);
            if r >= CHUNK_SIZE {
                let k = requests::order_of(r);
                assert(k <= order) by {
                    if k > order {
                        vstd::arithmetic::power2::lemma_pow2_strictly_increases(order, k);
                    }
                }
                assert(size > CHUNK_SIZE as int / 2) by {
                    reveal_with_fuel(requests::doubled, 7);
                }
                law_run_success(t, size);
            } else {
                law_part_success(t, size);
            }
        },
        ChunkState::Parts { used, .. } => {
            assert(layout::parts_valid(s[i]));
            layout::lemma_part_counts(n);
            let k = (offset % CHUNK_SIZE as int) / n;
            let mask = 1u32 << (k as u32);
            let rest = used & !mask;
            assert(layout::part_available(n, k));
            if rest == 0 {
                let u = s.update(i, ChunkState::Alloc { order: 0 });
                buddy::lemma_mark_chunk(s, i, ChunkState::Alloc { order: 0 });
                lemma_release_has_free(u, i, 0);
            } else {
                bits::lemma_bit(k as u32);
                bits::lemma_bits(mask, 0);
                bits::lemma_bits(used, !mask);
                assert(!bits::has_bit(rest, k)) by {
                    assert(bits::has_bit(!mask, k) <==> !bits::has_bit(mask, k));
                }
                layout::lemma_free_part_from(n, rest, layout::first_part(n));
                assert(has_unused_part(t[i], n));
            }
            law_part_success(t, size);
        },
        _ => {},
    }
}

/// A request of `size` bytes is served with `n` bytes: a power of two that is
/// large enough and not below the smallest allocation, half of which would not
/// do.
pub open spec fn is_served_with(size: int, n: int) -> bool {
    &&& exists|e: nat| n == #[trigger] bits::pow2(e)
    &&& n >= size
    &&& n >= MIN_ALLOC_SIZE
    &&& n > MIN_ALLOC_SIZE ==> n < 2 * size
}

/// There is exactly one number of bytes that a request can be served with, and
/// that is what requests are rounded to.
pub proof fn law_one_size_serves(size: int, n: int)
    requires
        0 <= size <= BLOCK_SIZE as int / 2,
    ensures
        is_served_with(size, n) <==> n == requests::rounded(size),
{
    let r = requests::rounded(size);
    requests::lemma_rounded(size);
    law_rounding(size, 0);
    let f = choose|e: nat| r == #[trigger] bits::pow2(e);
    if is_served_with(size, n) {
        let e = choose|e: nat| n == #[trigger] bits::pow2(e);
        law_rounding(size, e);
        if r < n {
            bits::lemma_pow2_double(f);
            if e <= f {
                if e < f {
                    vstd::arithmetic::power2::lemma_pow2_strictly_increases(e, f);
                }
            } else if f + 1 < e {
                vstd::arithmetic::power2::lemma_pow2_strictly_increases(f + 1, e);
            }
        }
    }
}

/// Part `k` of a chunk that is handed out in parts of `n` bytes. The first two
/// of the smallest parts are set aside for the bitmap.
pub open spec fn is_part(n: int, k: int) -> bool {
    0 <= k < CHUNK_SIZE as int / n && (n == MIN_ALLOC_SIZE ==> k >= 2)
}

/// The chunk is handed out in parts of `n` bytes, and one of them is not in
/// use.
pub open spec fn has_part_left(c: ChunkState, n: int) -> bool {
    match c {
        ChunkState::Parts { size, used, .. } => size == n && exists|k: int|
            is_part(n, k) && !#[trigger] bits::has_bit(used, k),
        _ => false,
    }
}

/// Requests for parts of `n` bytes may go to the chunk: it has such a part
/// left or, for the smallest parts, is not marked as full.
pub open spec fn is_open_to(c: ChunkState, n: int) -> bool {
    match c {
        ChunkState::Parts { size, full, .. } => size == n && if n == MIN_ALLOC_SIZE {
            !full
        } else {
            has_part_left(c, n)
        },
        _ => false,
    }
}

/// Chunk `i` is the first one that requests for parts of `n` bytes may go to.
pub open spec fn is_first_open(s: Seq<ChunkState>, n: int, i: int) -> bool {
    &&& 0 < i < s.len()
    &&& is_open_to(s[i], n)
    &&& forall|j: int| 0 < j < i ==> !is_open_to(#[trigger] s[j], n)
}

/// All chunks but chunk `i` are the same.
pub open spec fn same_but(s: Seq<ChunkState>, t: Seq<ChunkState>, i: int) -> bool {
    s.len() == t.len() && forall|j: int| 0 <= j < s.len() && j != i ==> #[trigger] t[j] == s[j]
}

/// From `s` to `t`, the part at the offset was taken from chunk `i`, which is
/// handed out in parts of `n` bytes: the lowest part that was not in use.
pub open spec fn is_part_taken(
    s: Seq<ChunkState>,
    t: Seq<ChunkState>,
    i: int,
    n: int,
    offset: int,
) -> bool {
    let k = (offset % CHUNK_SIZE as int) / n;
    &&& offset / CHUNK_SIZE as int == i
    &&& (offset % CHUNK_SIZE as int) % n == 0
    &&& is_part(n, k)
    &&& same_but(s, t, i)
    &&& match (s[i], t[i]) {
        (
            ChunkState::Parts { size: a, locked: b, full: c, used: before },
            ChunkState::Parts { size: x, locked: y, full: z, used: after },
        ) => {
            &&& x == a == n
            &&& y == b
            &&& z == c
            &&& !bits::has_bit(before, k)
            &&& forall|j: int| is_part(n, j) && j < k ==> #[trigger] bits::has_bit(before, j)
            &&& forall|j: int|
                #[trigger] bits::has_bit(after, j) <==> bits::has_bit(before, j) || j == k
        },
        _ => false,
    }
}

/// From `s` to `t`, a chunk was taken from the free ones, by the same choice as
/// for a run of one chunk, to be handed out in parts of `n` bytes, and the
/// first part of it, which is at the offset, was handed out.
pub open spec fn is_chunk_opened(
    s: Seq<ChunkState>,
    t: Seq<ChunkState>,
    n: int,
    offset: int,
) -> bool {
    let i = offset / CHUNK_SIZE as int;
    let k = if n == MIN_ALLOC_SIZE {
        2int
    } else {
        0
    };
    &&& offset == i * CHUNK_SIZE + k * n
    &&& exists|o: nat| #[trigger]
        is_best_fit(s, 0, i, o) && is_cut(s, t.update(i, ChunkState::Alloc { order: 0 }), 0, i, o)
    &&& t[i] matches ChunkState::Parts { size, locked, full, used } && {
        &&& size == n
        &&& !locked
        &&& !full
        &&& forall|j: int| #[trigger] bits::has_bit(used, j) <==> j == k
    }
}

/// From `s` to `t`, nothing happened but that chunk `i` was marked as full.
pub open spec fn is_marked(s: Seq<ChunkState>, t: Seq<ChunkState>, i: int) -> bool {
    &&& same_but(s, t, i)
    &&& match (s[i], t[i]) {
        (
            ChunkState::Parts { size: a, locked: b, used: d, .. },
            ChunkState::Parts { size: x, locked: y, full: z, used: w },
        ) => x == a && y == b && z && w == d,
        _ => false,
    }
}

/// What a request for a part of `n` bytes comes to. It goes to the first chunk
/// that is open to it, and takes the lowest part that is not in use there. If
/// it turns out that there is none, that chunk is marked as full. Only if no
/// chunk is open, a chunk is taken from the free ones.
pub open spec fn is_part_request_done(
    s: Seq<ChunkState>,
    t: Seq<ChunkState>,
    n: int,
    res: Result<int, AllocError>,
) -> bool {
    &&& forall|i: int|
        #[trigger] is_first_open(s, n, i) ==> {
            &&& layout::free_chunks(t) == layout::free_chunks(s)
            &&& if has_part_left(s[i], n) {
                res matches Ok(offset) && is_part_taken(s, t, i, n, offset)
            } else {
                res == Err::<int, AllocError>(AllocError::NoMem) && is_marked(s, t, i)
            }
        }
    &&& (forall|i: int| 0 < i < s.len() ==> !is_open_to(#[trigger] s[i], n)) ==> match res {
        Ok(offset) => {
            &&& is_chunk_opened(s, t, n, offset)
            &&& layout::free_chunks(s) == layout::free_chunks(t) + 1
        },
        Err(e) => {
            &&& e == AllocError::NoMem
            &&& t == s
            &&& forall|o: nat| !#[trigger] layout::has_free(s, o)
        },
    }
}

/// What a request for a run of `n` bytes comes to. The run begins at the first
/// of the shortest free runs that are long enough and is cut from it. If no
/// free run is long enough, nothing happens.
pub open spec fn is_run_request_done(
    s: Seq<ChunkState>,
    t: Seq<ChunkState>,
    n: int,
    res: Result<int, AllocError>,
) -> bool {
    forall|order: nat|
        n == CHUNK_SIZE * #[trigger] bits::pow2(order) ==> match res {
            Ok(offset) => {
                &&& offset % CHUNK_SIZE as int == 0
                &&& exists|o: nat| #[trigger]
                    is_best_fit(s, order, offset / CHUNK_SIZE as int, o) && is_cut(
                        s,
                        t,
                        order,
                        offset / CHUNK_SIZE as int,
                        o,
                    )
                &&& layout::free_chunks(s) == layout::free_chunks(t) + bits::pow2(order)
            },
            Err(e) => {
                &&& e == AllocError::NoMem
                &&& t == s
                &&& forall|o: nat| o >= order ==> !#[trigger] layout::has_free(s, o)
            },
        }
}

/// What a request that is served with `n` bytes comes to: with the layout `s`
/// before it, the layout `t` after it and the answer `res`.
pub open spec fn is_request_done(
    s: Seq<ChunkState>,
    t: Seq<ChunkState>,
    n: int,
    res: Result<int, AllocError>,
) -> bool {
    if n < CHUNK_SIZE {
        is_part_request_done(s, t, n, res)
    } else {
        is_run_request_done(s, t, n, res)
    }
}

/// All parts of a chunk may be handed out, but for those that are set aside for
/// the bitmap.
pub proof fn law_parts(n: int, k: int)
    requires
        layout::is_part_size(n),
    ensures
        is_part(n, k) <==> layout::part_available(n, k),
        is_part(n, k) ==> 0 <= k < 32,
{
    layout::lemma_part_counts(n);
}

/// No part of a chunk is left exactly if the search for one finds none, and
/// what the search finds is the lowest part that is not in use.
pub proof fn law_next_part(n: int, used: u32)
    requires
        layout::is_part_size(n),
    ensures
        layout::next_part(n, used) == layout::part_count(n) <==> forall|k: int|
            is_part(n, k) ==> #[trigger] bits::has_bit(used, k),
        layout::next_part(n, used) != layout::part_count(n) ==> {
            let f = layout::next_part(n, used);
            &&& is_part(n, f)
            &&& !bits::has_bit(used, f)
            &&& forall|k: int| is_part(n, k) && k < f ==> #[trigger] bits::has_bit(used, k)
            &&& (n * f) % n == 0
            &&& (n * f) / n == f
        },
{
    layout::lemma_part_counts(n);
    layout::lemma_free_part_from(n, used, layout::first_part(n));
    let f = layout::next_part(n, used);
    if f != layout::part_count(n) {
        requests::lemma_part_offset(0, n, f);
        vstd::arithmetic::mul::lemma_mul_is_commutative(n, f);
        assert(is_part(n, f) && !bits::has_bit(used, f));
    }
}

/// The bits of a bitmap in which one bit is set or cleared.
pub proof fn law_one_bit(used: u32, k: int)
    requires
        0 <= k < 32,
    ensures
        forall|j: int|
            #[trigger] bits::has_bit(used | (1u32 << (k as u32)), j) <==> bits::has_bit(used, j) || j
                == k,
        forall|j: int|
            #[trigger] bits::has_bit(used & !(1u32 << (k as u32)), j) <==> bits::has_bit(used, j)
                && j != k,
{
    let mask = 1u32 << (k as u32);
    bits::lemma_bit(k as u32);
    bits::lemma_bits(mask, 0);
    bits::lemma_bits(used, mask);
    bits::lemma_bits(used, !mask);
    assert forall|j: int| #[trigger] bits::has_bit(used & !mask, j) <==> bits::has_bit(used, j) && j
        != k by {
        if 0 <= j < 32 {
            assert(bits::has_bit(!mask, j) <==> !bits::has_bit(mask, j));
        }
    }
}

/// A bitmap is zero exactly if it has no bit.
pub proof fn law_no_bit(used: u32)
    ensures
        used == 0 <==> forall|j: int| !#[trigger] bits::has_bit(used, j),
{
    bits::lemma_bit(0);
    if forall|j: int| !#[trigger] bits::has_bit(used, j) {
        assert forall|j: int| 0 <= j < 32 implies (#[trigger] bits::has_bit(used, j)
            <==> bits::has_bit(0, j)) by {}
        bits::lemma_same_bits(used, 0);
    }
}

/// A chunk has a part left exactly if the search for one finds it.
proof fn lemma_part_left(c: ChunkState, n: int)
    requires
        layout::is_part_size(n),
        layout::parts_valid(c),
    ensures
        has_part_left(c, n) <==> has_unused_part(c, n),
        is_open_to(c, n) <==> requests::has_room(c, n),
{
    layout::lemma_part_counts(n);
    match c {
        ChunkState::Parts { size, used, .. } => {
            if size == n {
                let f = layout::next_part(n, used);
                layout::lemma_free_part_from(n, used, layout::first_part(n));
                if f < layout::part_count(n) {
                    assert(is_part(n, f) && !bits::has_bit(used, f));
                }
            }
        },
        _ => {},
    }
}

/// The chunks that requests for parts of a size may go to are those that the
/// search for one looks for.
pub proof fn law_open(s: Seq<ChunkState>, n: int)
    requires
        layout::well_formed(s),
    ensures
        forall|j: int|
            0 <= j < s.len() ==> (is_open_to(#[trigger] s[j], n) <==> requests::has_room(s[j], n)),
{
    assert forall|j: int| 0 <= j < s.len() implies (is_open_to(#[trigger] s[j], n)
        <==> requests::has_room(s[j], n)) by {
        assert(layout::parts_valid(s[j]));
        match s[j] {
            ChunkState::Parts { size, .. } => {
                if size == n {
                    lemma_part_left(s[j], n);
                }
            },
            _ => {},
        }
    }
}

/// The next part of a chunk is the lowest one that is not in use.
proof fn lemma_part_taken(s: Seq<ChunkState>, i: int, n: int)
    requires
        layout::is_part_size(n),
        0 < i < s.len(),
        s[i] matches ChunkState::Parts { size, .. } && size == n,
        has_unused_part(s[i], n),
    ensures
        requests::place_part(s, i).1 matches Ok(offset) && is_part_taken(
            s,
            requests::place_part(s, i).0,
            i,
            n,
            offset,
        ) && offset == i * CHUNK_SIZE + layout::next_part(n, s[i]->used) * n,
{
    let used = s[i]->used;
    let k = layout::next_part(n, used);
    layout::lemma_part_counts(n);
    layout::lemma_free_part_from(n, used, layout::first_part(n));
    requests::lemma_part_offset(i, n, k);
    bits::lemma_bit(k as u32);
    bits::lemma_bits(used, 1u32 << (k as u32));
}

/// Every request, whatever the layout it meets, comes to what is described
/// above: it is served from the first of the shortest runs, or from the lowest
/// unused part of the first open chunk of such parts, and fails only where
/// there is none.
pub proof fn law_request(s: Seq<ChunkState>, size: int, n: int)
    requires
        layout::well_formed(s),
        0 <= size <= BLOCK_SIZE as int / 2,
        is_served_with(size, n),
    ensures
        is_request_done(
            s,
            requests::alloc_layout(s, size).0,
            n,
            requests::alloc_layout(s, size).1,
        ),
{
    law_one_size_serves(size, n);
    requests::lemma_rounded(size);
    if n < CHUNK_SIZE {
        law_part_request(s, n);
    } else {
        law_run_request(s, size, requests::order_of(n));
        assert forall|order: nat| n == CHUNK_SIZE * #[trigger] bits::pow2(order) implies order
            == requests::order_of(n) by {
            let k = requests::order_of(n);
            if order < k {
                vstd::arithmetic::power2::lemma_pow2_strictly_increases(order, k);
            } else if k < order {
                vstd::arithmetic::power2::lemma_pow2_strictly_increases(k, order);
            }
        }
    }
}

/// A request for a run is served from the first of the shortest free runs that
/// are long enough, which is split only as far as it is longer.
pub proof fn law_run_request(s: Seq<ChunkState>, size: int, order: nat)
    requires
        layout::well_formed(s),
        0 <= size <= BLOCK_SIZE as int / 2,
        is_served_with(size, CHUNK_SIZE * bits::pow2(order)),
    ensures
        ({
            let (t, res) = requests::alloc_layout(s, size);
            match res {
                Ok(offset) => {
                    let i = offset / CHUNK_SIZE as int;
                    &&& offset % CHUNK_SIZE as int == 0
                    &&& exists|o: nat| #[trigger]
                        is_best_fit(s, order, i, o) && is_cut(s, t, order, i, o)
                    &&& layout::free_chunks(s) == layout::free_chunks(t) + bits::pow2(order)
                },
                Err(e) => {
                    &&& e == AllocError::NoMem
                    &&& t == s
                    &&& forall|o: nat| o >= order ==> !#[trigger] layout::has_free(s, o)
                },
            }
        }),
{
    let n = CHUNK_SIZE * bits::pow2(order);
    law_one_size_serves(size, n);
    requests::lemma_rounded(size);
    bits::lemma_pow2_double(order);
    let k = requests::order_of(n);
    if order < k {
        vstd::arithmetic::power2::lemma_pow2_strictly_increases(order, k);
    } else if k < order {
        vstd::arithmetic::power2::lemma_pow2_strictly_increases(k, order);
    }
    law_best_fit(s, order);
    law_taken_chunks(s, order);
    let (t, res) = requests::alloc_layout(s, size);
    match buddy::take_run(s, order) {
        Some((u, h)) => {
            let offset = h * CHUNK_SIZE;
            assert(res == Ok::<int, AllocError>(offset) && t == u);
            assert(offset / CHUNK_SIZE as int == h && offset % CHUNK_SIZE as int == 0);
        },
        None => {
            assert(res == Err::<int, AllocError>(AllocError::NoMem) && t == s);
        },
    }
}

/// A request for a part goes to a chunk of such parts wherever one is open to
/// it, and to the lowest part that is not in use there. Only otherwise a chunk
/// is taken from the free ones.
pub proof fn law_part_request(s: Seq<ChunkState>, n: int)
    requires
        layout::well_formed(s),
        layout::is_part_size(n),
    ensures
        is_part_request_done(s, requests::take_part(s, n).0, n, requests::take_part(s, n).1),
{
    let (t, res) = requests::take_part(s, n);
    let p = |c: ChunkState| requests::has_room(c, n);
    buddy::lemma_first_from(s, p, 1);
    let f = requests::first_parts(s, n);
    assert forall|j: int| 0 <= j < s.len() implies (is_open_to(#[trigger] s[j], n) <==> p(s[j]))
        && (has_part_left(s[j], n) <==> has_unused_part(s[j], n)) by {
        assert(layout::parts_valid(s[j]));
        lemma_part_left(s[j], n);
    }
    layout::lemma_part_counts(n);
    if f < s.len() {
        assert(is_first_open(s, n, f));
        assert forall|i: int| #[trigger] is_first_open(s, n, i) implies i == f by {
            if i < f {
                assert(!p(s[i]));
            }
        }
        layout::lemma_free_chunks(s, f, t[f], 0);
        layout::lemma_free_part_from(n, s[f]->used, layout::first_part(n));
        if has_part_left(s[f], n) {
            lemma_part_taken(s, f, n);
        }
        assert(t =~= s.update(f, t[f]));
    } else {
        assert forall|i: int| 0 < i < s.len() implies !is_open_to(#[trigger] s[i], n) by {
            assert(!p(s[i]));
        }
        law_best_fit(s, 0);
        buddy::lemma_take_run(s, 0);
        law_taken_chunks(s, 0);
        bits::lemma_pow2_values();
        if let Some((u, i)) = buddy::take_run(s, 0) {
            let o = choose|o: nat| #[trigger] is_best_fit(s, 0, i, o) && is_cut(s, u, 0, i, o);
            let v = u.update(i, layout::fresh_parts(n as nat));
            bits::lemma_bit(0);
            layout::lemma_free_part_from(n, 0, layout::first_part(n));
            assert(layout::next_part(n, 0) == layout::first_part(n)) by {
                assert(!bits::has_bit(0, layout::first_part(n)));
            }
            lemma_part_taken(v, i, n);
            let offset = res->Ok_0;
            assert(t.update(i, ChunkState::Alloc { order: 0 }) =~= u);
            assert(is_best_fit(s, 0, i, o) && is_cut(
                s,
                t.update(i, ChunkState::Alloc { order: 0 }),
                0,
                i,
                o,
            ));
            layout::lemma_free_chunks(t, i, ChunkState::Alloc { order: 0 }, 0);
            assert(t[i] is Parts);
        }
    }
}

/// Chunk `b` starts a free run of the given order that makes up, with the
/// aligned run of that order that chunk `i` lies in, an aligned run of the next
/// order.
pub open spec fn is_free_buddy(s: Seq<ChunkState>, i: int, order: nat, b: int) -> bool {
    &&& layout::is_free(s, b, order)
    &&& b / (bits::pow2(order + 1) as int) == i / (bits::pow2(order + 1) as int)
    &&& b / (bits::pow2(order) as int) != i / (bits::pow2(order) as int)
}

/// The other half is free.
pub open spec fn has_free_buddy(s: Seq<ChunkState>, i: int, order: nat) -> bool {
    exists|b: int| #[trigger] is_free_buddy(s, i, order, b)
}

/// From `s` to `t`, the chunks of the given order at chunk `i` became free.
/// They were joined with their other half while, and only while, that was
/// free, and make up the free run of order `o` at chunk `h` with it. All chunks
/// outside of that run are the same.
pub open spec fn is_joined(
    s: Seq<ChunkState>,
    t: Seq<ChunkState>,
    i: int,
    order: nat,
    h: int,
    o: nat,
) -> bool {
    &&& order <= o <= MAX_ORDER
    &&& h % (bits::pow2(o) as int) == 0
    &&& h <= i < h + bits::pow2(o) <= s.len()
    &&& forall|k: nat| order <= k < o ==> #[trigger] has_free_buddy(s, i, k)
    &&& o < MAX_ORDER ==> !has_free_buddy(s, i, o)
    &&& s.len() == t.len()
    &&& t[h] == (ChunkState::Free { order: o })
    &&& forall|j: int| h < j < h + bits::pow2(o) ==> #[trigger] t[j] is Compound
    &&& forall|j: int|
        0 <= j < s.len() && !(h <= j < h + bits::pow2(o)) ==> #[trigger] t[j] == s[j]
}

/// From `s` to `t`, part `k` of chunk `i` was given back, and others of its
/// parts are still in use. The chunk is not marked as full.
pub open spec fn is_part_given_back(
    s: Seq<ChunkState>,
    t: Seq<ChunkState>,
    i: int,
    k: int,
) -> bool {
    &&& same_but(s, t, i)
    &&& match (s[i], t[i]) {
        (
            ChunkState::Parts { size: a, used: before, .. },
            ChunkState::Parts { size: x, locked, full, used: after },
        ) => {
            &&& x == a
            &&& !locked
            &&& !full
            &&& is_open_to(t[i], a as int)
            &&& has_part_left(t[i], a as int)
            &&& forall|j: int|
                #[trigger] bits::has_bit(after, j) <==> bits::has_bit(before, j) && j != k
        },
        _ => false,
    }
}

/// What freeing with an offset comes to: a run becomes free as a whole, and so
/// does the chunk of a part if no other part of it is in use. Otherwise just
/// the part can be handed out again.
pub open spec fn is_free_done(s: Seq<ChunkState>, t: Seq<ChunkState>, offset: int) -> bool {
    let i = offset / CHUNK_SIZE as int;
    match s[i] {
        ChunkState::Alloc { order } => {
            &&& exists|h: int, o: nat| #[trigger] is_joined(s, t, i, order, h, o)
            &&& layout::free_chunks(t) == layout::free_chunks(s) + bits::pow2(order)
        },
        ChunkState::Parts { size, used, .. } => {
            let k = (offset % CHUNK_SIZE as int) / size as int;
            if exists|j: int| j != k && #[trigger] bits::has_bit(used, j) {
                &&& is_part_given_back(s, t, i, k)
                &&& layout::free_chunks(t) == layout::free_chunks(s)
            } else {
                &&& exists|h: int, o: nat| #[trigger] is_joined(s, t, i, 0, h, o)
                &&& layout::free_chunks(t) == layout::free_chunks(s) + 1
            }
        },
        _ => false,
    }
}

/// From `s` to `t`, the runs of the given order at chunks `i` and `b` were
/// joined into one allocated run, which begins at the lower one of them.
pub open spec fn is_half_joined(
    s: Seq<ChunkState>,
    t: Seq<ChunkState>,
    i: int,
    b: int,
    order: nat,
    low: int,
) -> bool {
    &&& s.len() == t.len()
    &&& low == if i < b {
        i
    } else {
        b
    }
    &&& t[low] == (ChunkState::Alloc { order: order + 1 })
    &&& forall|j: int|
        0 <= j < s.len() && j != low ==> #[trigger] t[j] == if j == i || j == b {
            ChunkState::Compound
        } else {
            s[j]
        }
}

/// The buddy of a run is the other half of the run of the next order that it
/// lies in.
pub proof fn law_buddy(s: Seq<ChunkState>, i: int, order: nat)
    requires
        layout::tiled(s),
        layout::run_fits(i, order),
    ensures
        has_free_buddy(s, i, order) <==> layout::is_free(s, layout::buddy(i, order), order),
        forall|b: int| #[trigger]
            is_free_buddy(s, i, order, b) <==> b == layout::buddy(i, order) && layout::is_free(
                s,
                b,
                order,
            ),
{
    assert forall|b: int| #[trigger]
        is_free_buddy(s, i, order, b) <==> b == layout::buddy(i, order) && layout::is_free(
            s,
            b,
            order,
        ) by {
        if layout::is_free(s, b, order) {
            lemma_other_half(s, i, order, b);
        }
    }
    if layout::is_free(s, layout::buddy(i, order), order) {
        assert(is_free_buddy(s, i, order, layout::buddy(i, order)));
    }
}

/// Division by successive powers of two.
proof fn lemma_half(x: int, k: nat)
    requires
        x >= 0,
    ensures
        x / (bits::pow2(k + 1) as int) == x / (bits::pow2(k) as int) / 2,
        bits::pow2(k) >= 1,
{
    bits::lemma_pow2_double(k);
    vstd::arithmetic::div_mod::lemma_div_denominator(x, bits::pow2(k) as int, 2);
    assert(bits::pow2(k) as int * 2 == bits::pow2(k + 1));
}

/// The buddy of a run is its other half.
proof fn lemma_other_half(s: Seq<ChunkState>, i: int, order: nat, b: int)
    requires
        layout::tiled(s),
        layout::run_fits(i, order),
        layout::is_free(s, b, order),
    ensures
        is_free_buddy(s, i, order, b) <==> b == layout::buddy(i, order),
{
    assert(layout::chunk_ok(s, b));
    let p = bits::pow2(order) as int;
    let x = i / p;
    let y = b / p;
    lemma_half(i, order);
    lemma_half(b, order);
    bits::lemma_pow2_double(order);
    vstd::arithmetic::div_mod::lemma_fundamental_div_mod(i, p);
    vstd::arithmetic::div_mod::lemma_fundamental_div_mod(b, p);
    vstd::arithmetic::div_mod::lemma_fundamental_div_mod(i, 2 * p);
    let q = x / 2;
    assert(i / (2 * p) == q);
    if x % 2 == 0 {
        assert(p * x == (2 * p) * q) by (nonlinear_arith)
            requires
                x == 2 * q,
        ;
        assert(i % (2 * p) == 0);
        if y == x + 1 {
            assert(p * y == p * x + p) by (nonlinear_arith)
                requires
                    y == x + 1,
            ;
        }
        if b == i + p {
            assert(y == x + 1) by (nonlinear_arith)
                requires
                    p * y == p * x + p,
                    p >= 1,
            ;
        }
    } else {
        assert(p * x == (2 * p) * q + p) by (nonlinear_arith)
            requires
                x == 2 * q + 1,
        ;
        assert(i % (2 * p) == p);
        if y == x - 1 {
            assert(p * y == p * x - p) by (nonlinear_arith)
                requires
                    y == x - 1,
            ;
        }
        if b == i - p {
            assert(y == x - 1) by (nonlinear_arith)
                requires
                    p * y == p * x - p,
                    p >= 1,
            ;
        }
    }
}

/// Chunks of an aligned run lie in the same aligned runs that are longer.
proof fn lemma_same_runs(i: int, lo: int, order: nat, k: nat)
    requires
        lo >= 0,
        lo % (bits::pow2(order) as int) == 0,
        lo <= i < lo + bits::pow2(order),
        k >= order,
    ensures
        i / (bits::pow2(k) as int) == lo / (bits::pow2(k) as int),
    decreases k,
{
    if k == order {
        let p = bits::pow2(order) as int;
        bits::lemma_pow2_double(order);
        vstd::arithmetic::div_mod::lemma_fundamental_div_mod(lo, p);
        let x = lo / p;
        assert(i == x * p + (i - lo)) by (nonlinear_arith)
            requires
                lo == p * x,
        ;
        vstd::arithmetic::div_mod::lemma_fundamental_div_mod_converse(i, p, x, i - lo);
    } else {
        lemma_same_runs(i, lo, order, (k - 1) as nat);
        lemma_half(i, (k - 1) as nat);
        lemma_half(lo, (k - 1) as nat);
    }
}

/// A run that is freed is joined with its other half while that is free, and
/// no further.
pub proof fn law_joined(s: Seq<ChunkState>, i: int, order: nat) -> (res: (int, nat))
    requires
        layout::tiled(s),
        layout::is_alloc(s, i, order),
        i > 0,
    ensures
        is_joined(s, buddy::release_run(s, i, order), i, order, res.0, res.1),
    decreases MAX_ORDER + 1 - order,
{
    assert(layout::chunk_ok(s, i));
    bits::lemma_pow2_double(order);
    let b = layout::buddy(i, order);
    layout::lemma_buddy(i, order);
    if layout::is_free(s, b, order) {
        buddy::lemma_join(s, i, order);
        let t = buddy::join_run(s, i, order);
        let lo = buddy::lower(i, order);
        let hi = buddy::higher(i, order);
        buddy::lemma_release_run(t, lo, order + 1);
        let (h, o) = law_joined(t, lo, order + 1);
        let r = buddy::release_run(t, lo, order + 1);
        assert(layout::chunk_ok(r, h)) by {
            if h == 0 {
                assert(r[0] is Meta);
            }
        }
        layout::lemma_nested(lo, order + 1, h, o);
        lemma_other_half(s, i, order, b);
        assert(is_free_buddy(s, i, order, b));
        assert forall|k: nat| order < k implies (has_free_buddy(t, lo, k) <==> has_free_buddy(
            s,
            i,
            k,
        )) by {
            lemma_same_runs(i, lo, order + 1, k);
            lemma_same_runs(i, lo, order + 1, k + 1);
            if has_free_buddy(t, lo, k) {
                let c = choose|c: int| #[trigger] is_free_buddy(t, lo, k, c);
                assert(is_free_buddy(s, i, k, c));
            }
            if has_free_buddy(s, i, k) {
                let c = choose|c: int| #[trigger] is_free_buddy(s, i, k, c);
                assert(is_free_buddy(t, lo, k, c));
            }
        }
        assert forall|k: nat| order <= k < o implies #[trigger] has_free_buddy(s, i, k) by {
            if k > order {
                assert(has_free_buddy(t, lo, k));
            }
        }
        assert forall|j: int| 0 <= j < s.len() && !(h <= j < h + bits::pow2(o)) implies #[trigger] r[j]
            == s[j] by {
            assert(t[j] == s[j]);
        }
        (h, o)
    } else {
        if has_free_buddy(s, i, order) {
            let c = choose|c: int| #[trigger] is_free_buddy(s, i, order, c);
            lemma_other_half(s, i, order, c);
        }
        (i, order)
    }
}

/// Freeing always comes to what is described above: neighbours are joined as
/// far as they are free, a chunk of which no part is left in use is not kept
/// back, and one that has parts left in use is open to requests.
pub proof fn law_free(s: Seq<ChunkState>, offset: int)
    requires
        layout::well_formed(s),
        requests::can_free(s, offset),
    ensures
        is_free_done(s, requests::free_layout(s, offset), offset),
{
    let i = offset / CHUNK_SIZE as int;
    let t = requests::free_layout(s, offset);
    law_freed_chunks(s, offset);
    match s[i] {
        ChunkState::Alloc { order } => {
            let (h, o) = law_joined(s, i, order);
            assert(is_joined(s, t, i, order, h, o));
        },
        ChunkState::Parts { size, used, .. } => {
            let n = size as int;
            assert(layout::parts_valid(s[i]) && layout::is_unlocked(s[i]));
            let k = (offset % CHUNK_SIZE as int) / n;
            let mask = 1u32 << (k as u32);
            let rest = used & !mask;
            layout::lemma_part_counts(n);
            bits::lemma_bit(k as u32);
            bits::lemma_bits(mask, 0);
            bits::lemma_bits(used, !mask);
            assert forall|j: int| #[trigger] bits::has_bit(rest, j) <==> bits::has_bit(used, j) && j
                != k by {
                if 0 <= j < 32 {
                    assert(bits::has_bit(!mask, j) <==> !bits::has_bit(mask, j));
                    assert(bits::has_bit(mask, j) <==> j == k);
                }
            }
            if exists|j: int| j != k && #[trigger] bits::has_bit(used, j) {
                let j = choose|j: int| j != k && #[trigger] bits::has_bit(used, j);
                assert(bits::has_bit(rest, j));
                assert(!bits::has_bit(0, j));
                law_parts(n, k);
                assert(rest != 0);
                assert(t[i] is Parts && t[i]->used == rest);
                assert(is_part(n, k) && !bits::has_bit(rest, k));
                assert(has_part_left(t[i], n));
            } else {
                assert forall|j: int| 0 <= j < 32 implies (#[trigger] bits::has_bit(rest, j)
                    <==> bits::has_bit(0, j)) by {}
                bits::lemma_same_bits(rest, 0);
                let u = s.update(i, ChunkState::Alloc { order: 0 });
                buddy::lemma_mark_chunk(s, i, ChunkState::Alloc { order: 0 });
                buddy::lemma_release_run(u, i, 0);
                let (h, o) = law_joined(u, i, 0);
                assert forall|m: nat| has_free_buddy(u, i, m) <==> has_free_buddy(s, i, m) by {
                    if has_free_buddy(u, i, m) {
                        let c = choose|c: int| #[trigger] is_free_buddy(u, i, m, c);
                        assert(is_free_buddy(s, i, m, c));
                    }
                    if has_free_buddy(s, i, m) {
                        let c = choose|c: int| #[trigger] is_free_buddy(s, i, m, c);
                        assert(is_free_buddy(u, i, m, c));
                    }
                }
                assert forall|m: nat| 0 <= m < o implies #[trigger] has_free_buddy(s, i, m) by {
                    assert(has_free_buddy(u, i, m));
                }
                assert(is_joined(s, t, i, 0, h, o));
            }
        },
        _ => {},
    }
}

/// The first chunk of a block has room for one descriptor for each chunk.
pub proof fn law_one_descriptor_per_chunk(meta: &MetaChunk)
    ensures
        meta@.len() == CHUNK_COUNT,
{
    meta.lemma_len();
}

} // verus!
