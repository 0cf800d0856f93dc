//! Taking runs of chunks from a layout and giving them back.
use crate::bits;
use crate::defs::{CHUNK_COUNT, MAX_ORDER};
use crate::layout;
use crate::layout::ChunkState;
use vstd::prelude::*;

verus! {

/// The lowest index from `i` on at which `p` holds; the length of `s` if
/// there is none.
pub open spec fn first_from(
    s: Seq<ChunkState>,
    p: spec_fn(ChunkState) -> bool,
    i: int,
) -> int
    decreases s.len() - i,
{
    if i >= s.len() {
        s.len() as int
    } else if p(s[i]) {
        i
    } else {
        first_from(s, p, i + 1)
    }
}

/// The first free run of the given order; the number of chunks if there is
/// none.
pub open spec fn first_free(s: Seq<ChunkState>, order: nat) -> int {
    first_from(s, |c: ChunkState| c == (ChunkState::Free { order }), 1)
}

/// The allocated run of order `order + 1` at chunk `i`, split into two.
pub open spec fn split_run(s: Seq<ChunkState>, i: int, order: nat) -> Seq<ChunkState> {
    s.update(i, ChunkState::Alloc { order }).update(
        i + bits::pow2(order),
        ChunkState::Alloc { order },
    )
}

/// The lower chunk of a run and its buddy.
pub open spec fn lower(i: int, order: nat) -> int {
    if i < layout::buddy(i, order) {
        i
    } else {
        layout::buddy(i, order)
    }
}

/// The higher chunk of a run and its buddy.
pub open spec fn higher(i: int, order: nat) -> int {
    if i < layout::buddy(i, order) {
        layout::buddy(i, order)
    } else {
        i
    }
}

/// The run at chunk `i` and its buddy, joined into one allocated run.
pub open spec fn join_run(s: Seq<ChunkState>, i: int, order: nat) -> Seq<ChunkState> {
    s.update(lower(i, order), ChunkState::Alloc { order: order + 1 }).update(
        higher(i, order),
        ChunkState::Compound,
    )
}

/// Allocates a run: the first free run of the given order, or else the lower
/// half of a run of the next order, whose upper half becomes free. Yields the
/// layout after that and the first chunk of the run, if there is a run to be
/// had.
pub open spec fn take_run(s: Seq<ChunkState>, order: nat) -> Option<(Seq<ChunkState>, int)>
    decreases MAX_ORDER + 1 - order,
{
    if order > MAX_ORDER {
        None
    } else if first_free(s, order) < s.len() {
        let i = first_free(s, order);
        Some((s.update(i, ChunkState::Alloc { order }), i))
    } else {
        match take_run(s, order + 1) {
            Some((t, i)) => Some(
                (
                    split_run(t, i, order).update(
                        i + bits::pow2(order),
                        ChunkState::Free { order },
                    ),
                    i,
                ),
            ),
            None => None,
        }
    }
}

/// Frees the allocated run of the given order at chunk `i`, after joining it
/// with its buddy for as long as the buddy is free.
pub open spec fn release_run(s: Seq<ChunkState>, i: int, order: nat) -> Seq<ChunkState>
    decreases MAX_ORDER + 1 - order,
{
    if order < MAX_ORDER && layout::is_free(s, layout::buddy(i, order), order) {
        release_run(join_run(s, i, order), lower(i, order), order + 1)
    } else {
        s.update(i, ChunkState::Free { order })
    }
}

/// The chunk is free or the rest of a run.
pub open spec fn is_filler(c: ChunkState) -> bool {
    c is Free || c is Compound
}

/// The chunk starts a free run of at least the given order or is the rest of
/// a run.
pub open spec fn is_grown(c: ChunkState, order: nat) -> bool {
    match c {
        ChunkState::Free { order: o } => o >= order,
        ChunkState::Compound => true,
        _ => false,
    }
}

/// The layouts differ, apart from chunk `i`, only in how free runs are cut.
pub open spec fn differ_at(s: Seq<ChunkState>, t: Seq<ChunkState>, i: int) -> bool {
    &&& s.len() == t.len()
    &&& forall|j: int|
        0 <= j < s.len() && j != i ==> #[trigger] t[j] == s[j] || is_filler(s[j]) && is_filler(t[j])
}

/// What [`first_from`] finds.
pub proof fn lemma_first_from(s: Seq<ChunkState>, p: spec_fn(ChunkState) -> bool, i: int)
    requires
        0 <= i <= s.len(),
    ensures
        i <= first_from(s, p, i) <= s.len(),
        first_from(s, p, i) < s.len() ==> p(s[first_from(s, p, i)]),
        forall|j: int| i <= j < first_from(s, p, i) ==> !p(#[trigger] s[j]),
    decreases s.len() - i,
{
    if i < s.len() && !p(s[i]) {
        lemma_first_from(s, p, i + 1);
    }
}

/// An index at which `p` holds for the first time is the one that
/// [`first_from`] finds.
pub proof fn lemma_first_is(s: Seq<ChunkState>, p: spec_fn(ChunkState) -> bool, i: int, k: int)
    requires
        0 <= i <= k <= s.len(),
        forall|j: int| i <= j < k ==> !p(#[trigger] s[j]),
        k < s.len() ==> p(s[k]),
    ensures
        first_from(s, p, i) == k,
{
    lemma_first_from(s, p, i);
    let f = first_from(s, p, i);
    if f < k {
        assert(!p(s[f]));
    } else if k < f {
        assert(!p(s[k]));
    }
}

/// A run that starts a chunk may change between free and allocated.
pub proof fn lemma_mark_run(s: Seq<ChunkState>, i: int, order: nat, c: ChunkState)
    requires
        layout::tiled(s),
        layout::is_run(s, i, order),
        i > 0,
        c == (ChunkState::Free { order }) || c == (ChunkState::Alloc { order }),
    ensures
        layout::tiled(s.update(i, c)),
{
    let t = s.update(i, c);
    assert(layout::chunk_ok(s, i));
    assert forall|j: int| 0 < j < CHUNK_COUNT implies #[trigger] layout::chunk_ok(t, j) by {
        assert(layout::chunk_ok(s, j));
        if s[j] is Compound {
            let (h, o) = choose|h: int, o: nat|
                #[trigger] layout::is_run(s, h, o) && h < j < h + bits::pow2(o);
            assert(layout::is_run(t, h, o));
        }
    }
}

/// Splitting an allocated run keeps the chunks tiled, and either half may be
/// freed in the process.
pub proof fn lemma_split(s: Seq<ChunkState>, i: int, order: nat)
    requires
        layout::tiled(s),
        layout::is_alloc(s, i, order + 1),
        i > 0,
    ensures
        layout::tiled(split_run(s, i, order)),
        layout::is_alloc(split_run(s, i, order), i, order),
        layout::is_alloc(split_run(s, i, order), i + bits::pow2(order), order),
        s[i + bits::pow2(order)] is Compound,
        layout::run_fits(i, order + 1),
{
    let t = split_run(s, i, order);
    let m = i + bits::pow2(order);
    assert(layout::chunk_ok(s, i));
    layout::lemma_halves(i, order);
    bits::lemma_pow2_double(order);
    assert(s[m] is Compound);
    assert(layout::is_run(t, i, order));
    assert(layout::is_run(t, m, order));
    assert forall|j: int| 0 < j < CHUNK_COUNT implies #[trigger] layout::chunk_ok(t, j) by {
        assert(layout::chunk_ok(s, j));
        if j == i || j == m {
        } else if s[j] is Compound {
            let (h, o) = choose|h: int, o: nat|
                #[trigger] layout::is_run(s, h, o) && h < j < h + bits::pow2(o);
            if h != i {
                assert(layout::is_run(t, h, o));
            } else {
                assert(o == order + 1);
                if j < m {
                    assert(layout::is_run(t, i, order) && i < j < i + bits::pow2(order));
                } else {
                    assert(layout::is_run(t, m, order) && m < j < m + bits::pow2(order));
                }
            }
        } else {
            match s[j] {
                ChunkState::Free { order: o } => {
                    lemma_apart(s, i, order + 1, j, o);
                },
                ChunkState::Alloc { order: o } => {
                    lemma_apart(s, i, order + 1, j, o);
                },
                _ => {},
            }
        }
    }
}

/// Two different runs do not overlap.
pub proof fn lemma_apart(s: Seq<ChunkState>, i: int, a: nat, j: int, b: nat)
    requires
        layout::tiled(s),
        layout::is_run(s, i, a),
        layout::is_run(s, j, b),
        0 < i,
        0 < j,
        i != j,
    ensures
        i + bits::pow2(a) <= j || j + bits::pow2(b) <= i,
{
    assert(layout::chunk_ok(s, i));
    assert(layout::chunk_ok(s, j));
    if i < j {
        assert(!(s[j] is Compound));
    } else {
        assert(!(s[i] is Compound));
    }
}

/// Joining an allocated run with its free buddy keeps the chunks tiled.
pub proof fn lemma_join(s: Seq<ChunkState>, i: int, order: nat)
    requires
        layout::tiled(s),
        layout::is_alloc(s, i, order),
        i > 0,
        layout::is_free(s, layout::buddy(i, order), order),
    ensures
        layout::tiled(join_run(s, i, order)),
        layout::is_alloc(join_run(s, i, order), lower(i, order), order + 1),
        0 < lower(i, order) < higher(i, order) < CHUNK_COUNT,
        higher(i, order) == lower(i, order) + bits::pow2(order),
        order < MAX_ORDER,
        layout::run_fits(lower(i, order), order + 1),
{
    let t = join_run(s, i, order);
    let b = layout::buddy(i, order);
    let lo = lower(i, order);
    let hi = higher(i, order);
    assert(layout::chunk_ok(s, i));
    layout::lemma_buddy(i, order);
    assert(b != 0);
    assert(layout::chunk_ok(s, b));
    bits::lemma_pow2_double(order);
    assert(hi == lo + bits::pow2(order));
    assert(layout::is_run(s, lo, order) && layout::is_run(s, hi, order));
    assert(layout::is_run(t, lo, order + 1));
    assert forall|j: int| 0 < j < CHUNK_COUNT implies #[trigger] layout::chunk_ok(t, j) by {
        assert(layout::chunk_ok(s, j));
        if j == lo {
            assert forall|k: int| lo < k < lo + bits::pow2(order + 1) implies #[trigger] t[k] is Compound by {
                assert(layout::run_filled(s, lo, order));
                assert(layout::run_filled(s, hi, order));
                if k != hi {
                    assert(s[k] is Compound);
                }
            }
        } else if j == hi {
            assert(layout::is_run(t, lo, order + 1) && lo < hi < lo + bits::pow2(order + 1));
        } else if s[j] is Compound {
            let (h, o) = choose|h: int, o: nat|
                #[trigger] layout::is_run(s, h, o) && h < j < h + bits::pow2(o);
            if h == lo || h == hi {
                assert(layout::is_run(t, lo, order + 1) && lo < j < lo + bits::pow2(order + 1));
            } else {
                assert(layout::is_run(t, h, o));
            }
        } else {
            match s[j] {
                ChunkState::Free { order: o } => {
                    assert(layout::run_filled(s, j, o));
                    assert(layout::run_filled(t, j, o));
                },
                ChunkState::Alloc { order: o } => {
                    assert(layout::run_filled(s, j, o));
                    assert(layout::run_filled(t, j, o));
                },
                _ => {},
            }
        }
    }
}

/// A single allocated chunk may be handed out in parts, and the other way
/// round.
pub proof fn lemma_mark_chunk(s: Seq<ChunkState>, i: int, c: ChunkState)
    requires
        layout::tiled(s),
        0 < i < CHUNK_COUNT,
        s[i] is Parts || layout::is_alloc(s, i, 0),
        c is Parts || c == (ChunkState::Alloc { order: 0 }),
    ensures
        layout::tiled(s.update(i, c)),
        layout::run_fits(i, 0),
{
    let t = s.update(i, c);
    bits::lemma_pow2_values();
    assert(layout::chunk_ok(s, i));
    assert forall|j: int| 0 < j < CHUNK_COUNT implies #[trigger] layout::chunk_ok(t, j) by {
        assert(layout::chunk_ok(s, j));
        if j != i && s[j] is Compound {
            let (h, o) = choose|h: int, o: nat|
                #[trigger] layout::is_run(s, h, o) && h < j < h + bits::pow2(o);
            assert(h != i);
            assert(layout::is_run(t, h, o));
        }
    }
}

/// Fewer free runs leave nothing more to join.
pub proof fn lemma_fewer_free(s: Seq<ChunkState>, t: Seq<ChunkState>)
    requires
        layout::coalesced(s),
        s.len() == t.len(),
        forall|i: int| 0 <= i < s.len() && (#[trigger] t[i]) is Free ==> t[i] == s[i],
    ensures
        layout::coalesced(t),
{
    assert forall|i: int, order: nat| #[trigger] layout::is_free(t, i, order) implies !layout::is_free(
        t,
        layout::buddy(i, order),
        order,
    ) by {
        assert(layout::is_free(s, i, order));
        let b = layout::buddy(i, order);
        if layout::is_free(t, b, order) {
            assert(layout::is_free(s, b, order));
        }
    }
}

/// A run whose buddy is not free may be freed.
pub proof fn lemma_more_free(s: Seq<ChunkState>, i: int, order: nat)
    requires
        layout::tiled(s),
        layout::coalesced(s),
        layout::is_alloc(s, i, order),
        i > 0,
        !layout::is_free(s, layout::buddy(i, order), order),
    ensures
        layout::coalesced(s.update(i, ChunkState::Free { order })),
{
    let t = s.update(i, ChunkState::Free { order });
    assert(layout::chunk_ok(s, i));
    layout::lemma_buddy(i, order);
    assert forall|j: int, o: nat| #[trigger] layout::is_free(t, j, o) implies !layout::is_free(
        t,
        layout::buddy(j, o),
        o,
    ) by {
        let b = layout::buddy(j, o);
        if layout::is_free(t, b, o) {
            if j == i {
                assert(o == order);
                assert(layout::is_free(s, b, o));
            } else {
                assert(layout::is_free(s, j, o));
                assert(j > 0);
                assert(layout::chunk_ok(s, j));
                layout::lemma_buddy(j, o);
                if b == i {
                    assert(o == order);
                } else {
                    assert(layout::is_free(s, b, o));
                }
            }
        }
    }
}

/// Where the search for a free run of an order finds none, there is none.
pub proof fn lemma_none_free(s: Seq<ChunkState>, order: nat)
    requires
        layout::tiled(s),
        first_free(s, order) >= CHUNK_COUNT,
    ensures
        !layout::has_free(s, order),
        forall|j: int| 0 <= j < CHUNK_COUNT ==> #[trigger] s[j] != (ChunkState::Free { order }),
{
    let p = |c: ChunkState| c == (ChunkState::Free { order });
    lemma_first_from(s, p, 1);
    assert forall|j: int| 0 <= j < CHUNK_COUNT implies #[trigger] s[j] != (ChunkState::Free {
        order,
    }) by {
        if j > 0 {
            assert(!p(s[j]));
        }
    }
}

/// What [`take_run`] does to a layout.
pub proof fn lemma_take_run(s: Seq<ChunkState>, order: nat)
    requires
        layout::tiled(s),
    ensures
        match take_run(s, order) {
            Some((t, i)) => {
                &&& 0 < i < CHUNK_COUNT
                &&& s[i] matches ChunkState::Free { order: o } && o >= order
                &&& layout::is_alloc(t, i, order)
                &&& layout::run_fits(i, order)
                &&& layout::tiled(t)
                &&& layout::coalesced(s) ==> layout::coalesced(t)
                &&& differ_at(s, t, i)
            },
            None => forall|i: int, o: nat| #[trigger] layout::is_free(s, i, o) ==> o < order,
        },
    decreases MAX_ORDER + 1 - order,
{
    if order > MAX_ORDER {
        assert forall|i: int, o: nat| #[trigger] layout::is_free(s, i, o) implies o < order by {
            assert(layout::chunk_ok(s, i));
        }
    } else {
        let p = |c: ChunkState| c == (ChunkState::Free { order });
        lemma_first_from(s, p, 1);
        let f = first_free(s, order);
        if f < s.len() {
            let t = s.update(f, ChunkState::Alloc { order });
            assert(layout::is_run(s, f, order));
            lemma_mark_run(s, f, order, ChunkState::Alloc { order });
            if layout::coalesced(s) {
                lemma_fewer_free(s, t);
            }
            assert(layout::chunk_ok(t, f));
        } else {
            lemma_take_run(s, order + 1);
            match take_run(s, order + 1) {
                Some((t, i)) => {
                    let m = i + bits::pow2(order);
                    let u = split_run(t, i, order);
                    let v = u.update(m, ChunkState::Free { order });
                    lemma_split(t, i, order);
                    layout::lemma_halves(i, order);
                    lemma_mark_run(u, m, order, ChunkState::Free { order });
                    if layout::coalesced(s) {
                        lemma_fewer_free(t, u);
                        assert(!layout::is_free(u, layout::buddy(m, order), order));
                        lemma_more_free(u, m, order);
                    }
                    assert(t[m] is Compound);
                    assert(is_filler(s[m]));
                    assert forall|j: int| 0 <= j < s.len() && j != i implies #[trigger] v[j] == s[j]
                        || is_filler(s[j]) && is_filler(v[j]) by {
                        if j != m {
                            assert(v[j] == t[j]);
                        }
                    }
                },
                None => {
                    assert forall|i: int, o: nat| #[trigger] layout::is_free(s, i, o) implies o < order by {
                        if o == order {
                            assert(i >= 1);
                            assert(!p(s[i]));
                        }
                    }
                },
            }
        }
    }
}

/// What [`release_run`] does to a layout.
pub proof fn lemma_release_run(s: Seq<ChunkState>, i: int, order: nat)
    requires
        layout::tiled(s),
        layout::is_alloc(s, i, order),
        i > 0,
    ensures
        layout::tiled(release_run(s, i, order)),
        layout::coalesced(s) ==> layout::coalesced(release_run(s, i, order)),
        differ_at(s, release_run(s, i, order), i),
        is_filler(release_run(s, i, order)[i]),
        forall|j: int|
            0 <= j < s.len() && j != i ==> #[trigger] release_run(s, i, order)[j] == s[j]
                || is_grown(release_run(s, i, order)[j], order + 1),
        is_grown(release_run(s, i, order)[i], order),
    decreases MAX_ORDER + 1 - order,
{
    assert(layout::chunk_ok(s, i));
    if layout::is_free(s, layout::buddy(i, order), order) {
        lemma_join(s, i, order);
        let t = join_run(s, i, order);
        let lo = lower(i, order);
        let hi = higher(i, order);
        if layout::coalesced(s) {
            lemma_fewer_free(s, t);
        }
        lemma_release_run(t, lo, order + 1);
        let r = release_run(t, lo, order + 1);
        assert(is_filler(r[hi])) by {
            assert(r[hi] == t[hi] || is_filler(r[hi]));
        }
        assert forall|j: int| 0 <= j < s.len() && j != i implies (#[trigger] r[j] == s[j]
            || is_filler(s[j]) && is_filler(r[j])) && (r[j] == s[j] || is_grown(r[j], order + 1)) by {
            if j != lo && j != hi {
                assert(t[j] == s[j]);
            }
        }
        assert(is_grown(r[i], order)) by {
            assert(i == lo || i == hi);
        }
    } else {
        assert(layout::is_run(s, i, order));
        lemma_mark_run(s, i, order, ChunkState::Free { order });
        if layout::coalesced(s) {
            lemma_more_free(s, i, order);
        }
    }
}

/// What a freed run becomes part of: one free run, which takes in nothing but
/// the run and what was free, while all other chunks stay as they are.
pub open spec fn is_freed_into(
    s: Seq<ChunkState>,
    t: Seq<ChunkState>,
    i: int,
    order: nat,
    h: int,
    o: nat,
) -> bool {
    &&& layout::is_free(t, h, o)
    &&& layout::run_fits(h, o)
    &&& h <= i
    &&& i + bits::pow2(order) <= h + bits::pow2(o)
    &&& forall|j: int|
        0 <= j < s.len() && !(h <= j < h + bits::pow2(o)) ==> #[trigger] t[j] == s[j]
    &&& forall|j: int| h <= j < h + bits::pow2(o) && j != i ==> is_filler(#[trigger] s[j])
}

/// Where a freed run ends up, and how many chunks are free after that.
pub proof fn lemma_freed_into(s: Seq<ChunkState>, i: int, order: nat) -> (res: (int, nat))
    requires
        layout::tiled(s),
        layout::is_alloc(s, i, order),
        i > 0,
    ensures
        is_freed_into(s, release_run(s, i, order), i, order, res.0, res.1),
        layout::free_chunks(release_run(s, i, order)) == layout::free_chunks(s) + bits::pow2(order),
    decreases MAX_ORDER + 1 - order,
{
    assert(layout::chunk_ok(s, i));
    bits::lemma_pow2_double(order);
    if layout::is_free(s, layout::buddy(i, order), order) {
        lemma_join(s, i, order);
        let t = join_run(s, i, order);
        let b = layout::buddy(i, order);
        let lo = lower(i, order);
        let hi = higher(i, order);
        assert(layout::chunk_ok(s, b));
        let u = s.update(lo, ChunkState::Alloc { order: order + 1 });
        layout::lemma_free_chunks(s, lo, ChunkState::Alloc { order: order + 1 }, 0);
        layout::lemma_free_chunks(u, hi, ChunkState::Compound, 0);
        let (h, o) = lemma_freed_into(t, lo, order + 1);
        let r = release_run(t, lo, order + 1);
        assert forall|j: int| 0 <= j < s.len() && !(h <= j < h + bits::pow2(o)) implies #[trigger] r[j]
            == s[j] by {
            assert(t[j] == s[j]);
        }
        assert forall|j: int| h <= j < h + bits::pow2(o) && j != i implies is_filler(
            #[trigger] s[j],
        ) by {
            if j != lo && j != hi {
                assert(is_filler(t[j]));
            }
        }
        (h, o)
    } else {
        layout::lemma_free_chunks(s, i, ChunkState::Free { order }, 0);
        assert forall|j: int| i < j < i + bits::pow2(order) implies is_filler(#[trigger] s[j]) by {
            assert(s[j] is Compound);
        }
        (i, order)
    }
}

/// How many chunks are free after a run was taken.
pub proof fn lemma_taken_chunks(s: Seq<ChunkState>, order: nat)
    requires
        layout::tiled(s),
    ensures
        take_run(s, order) matches Some((t, i)) ==> layout::free_chunks(s) == layout::free_chunks(t)
            + bits::pow2(order),
    decreases MAX_ORDER + 1 - order,
{
    if order <= MAX_ORDER {
        let p = |c: ChunkState| c == (ChunkState::Free { order });
        lemma_first_from(s, p, 1);
        let f = first_free(s, order);
        if f < s.len() {
            layout::lemma_free_chunks(s, f, ChunkState::Alloc { order }, 0);
        } else {
            lemma_taken_chunks(s, order + 1);
            lemma_take_run(s, order + 1);
            if let Some((t, i)) = take_run(s, order + 1) {
                let m = i + bits::pow2(order);
                lemma_split(t, i, order);
                layout::lemma_halves(i, order);
                bits::lemma_pow2_double(order);
                let u = t.update(i, ChunkState::Alloc { order });
                let v = split_run(t, i, order);
                layout::lemma_free_chunks(t, i, ChunkState::Alloc { order }, 0);
                layout::lemma_free_chunks(u, m, ChunkState::Alloc { order }, 0);
                layout::lemma_free_chunks(v, m, ChunkState::Free { order }, 0);
            }
        }
    }
}

/// Giving a run back right after taking it restores the layout.
pub proof fn lemma_release_after_take(s: Seq<ChunkState>, order: nat)
    requires
        layout::tiled(s),
        layout::coalesced(s),
        take_run(s, order) is Some,
    ensures
        take_run(s, order) matches Some((t, i)) && release_run(t, i, order) == s,
    decreases MAX_ORDER + 1 - order,
{
    let p = |c: ChunkState| c == (ChunkState::Free { order });
    lemma_first_from(s, p, 1);
    let f = first_free(s, order);
    lemma_take_run(s, order);
    let (v, i) = take_run(s, order)->0;
    if f < s.len() {
        assert(layout::is_free(s, i, order));
        layout::lemma_buddy(i, order);
        let b = layout::buddy(i, order);
        assert(!layout::is_free(s, b, order));
        assert(!layout::is_free(v, b, order));
        assert(v.update(i, ChunkState::Free { order }) =~= s);
    } else {
        lemma_take_run(s, order + 1);
        lemma_release_after_take(s, order + 1);
        let (t, k) = take_run(s, order + 1)->0;
        assert(k == i);
        lemma_split(t, i, order);
        layout::lemma_halves(i, order);
        bits::lemma_pow2_double(order);
        let m = i + bits::pow2(order);
        assert(layout::is_free(v, m, order));
        assert(join_run(v, i, order) =~= t);
    }
}

/// If no order from the given one on has a free run, no run can be taken.
pub proof fn lemma_no_run(s: Seq<ChunkState>, order: nat, orders: u32)
    requires
        layout::tiled(s),
        orders == 0,
        forall|k: int|
            0 <= k < 32 ==> (#[trigger] bits::has_bit(orders, k) <==> k >= order && layout::has_free(
                s,
                k as nat,
            )),
    ensures
        take_run(s, order) is None,
{
    lemma_take_run(s, order);
    bits::lemma_bit(0);
    if let Some((t, i)) = take_run(s, order) {
        match s[i] {
            ChunkState::Free { order: o } => {
                assert(layout::chunk_ok(s, i));
                assert(layout::is_free(s, i, o));
                assert(bits::has_bit(orders, o as int));
            },
            _ => {},
        }
    }
}

/// If some order from the given one on has a free run, that order is not
/// larger than the largest one.
pub proof fn lemma_longer_run(s: Seq<ChunkState>, order: nat, orders: u32) -> (k: nat)
    requires
        layout::tiled(s),
        orders != 0,
        forall|k: int|
            0 <= k < 32 ==> (#[trigger] bits::has_bit(orders, k) <==> k >= order && layout::has_free(
                s,
                k as nat,
            )),
    ensures
        order <= k <= MAX_ORDER,
        layout::has_free(s, k),
{
    bits::lemma_bit(0);
    if forall|k: int| 0 <= k < 32 ==> !#[trigger] bits::has_bit(orders, k) {
        bits::lemma_same_bits(orders, 0);
    }
    let k = choose|k: int| 0 <= k < 32 && #[trigger] bits::has_bit(orders, k);
    let i = choose|i: int| #[trigger] layout::is_free(s, i, k as nat);
    assert(layout::is_free(s, i, k as nat));
    assert(layout::chunk_ok(s, i));
    k as nat
}

} // verus!
