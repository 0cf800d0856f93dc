//! The layout of a block: what each chunk is used for.
use crate::bits;
use crate::defs::{CHUNK_COUNT, CHUNK_SIZE, MAX_ORDER};
use crate::descriptors::desc_storage::{DescStorage, RawDescType};
use vstd::prelude::*;

verus! {

/// What one chunk is used for.
pub enum ChunkState {
    /// The descriptor has no valid type.
    Unknown,
    /// The chunk holds the descriptors.
    Meta,
    /// First chunk of a free run of `2^order` chunks.
    Free { order: nat },
    /// First chunk of an allocated run of `2^order` chunks.
    Alloc { order: nat },
    /// Any other chunk of a run.
    Compound,
    /// The chunk is handed out in parts of `size` bytes. Bit `k` of `used` is
    /// set while part `k` is allocated.
    Parts { size: nat, locked: bool, full: bool, used: u32 },
}

/// The powers of two from the smallest allocation to half a chunk.
pub open spec fn is_part_size(size: int) -> bool {
    size == 16 || size == 32 || size == 64 || size == 128 || size == 256
}

/// The logarithm of a part size determines it.
pub proof fn lemma_part_size_log(size: int)
    requires
        is_part_size(size),
    ensures
        bits::pow2(bits::log2(size)) == size,
        bits::log2(size) < 16,
{
    reveal_with_fuel(bits::log2, 10);
    bits::lemma_pow2_values();
}

/// The bitmap of a chunk of `size`-byte parts fits into the chunk descriptor.
pub open spec fn bitmap_fits(size: int) -> bool {
    CHUNK_SIZE as int / size <= 16
}

/// How many parts of `size` bytes a chunk has.
pub open spec fn part_count(size: int) -> int {
    CHUNK_SIZE as int / size
}

/// The first part that may be handed out. Where the bitmap does not fit into
/// the descriptor it lies at the start of the chunk, and the parts that
/// are set aside for it are never handed out.
pub open spec fn first_part(size: int) -> int {
    if bitmap_fits(size) {
        0
    } else {
        32int / size
    }
}

/// Part `k` may be handed out.
pub open spec fn part_available(size: int, k: int) -> bool {
    first_part(size) <= k < part_count(size)
}

/// Only parts that may be handed out are marked in `used`.
pub open spec fn bitmap_ok(size: int, used: u32) -> bool {
    forall|k: int| #[trigger] bits::has_bit(used, k) ==> part_available(size, k)
}

/// The lowest part from `k` on that is not in use; the number of parts if
/// there is none.
pub open spec fn free_part_from(size: int, used: u32, k: int) -> int
    decreases part_count(size) - k,
{
    if k >= part_count(size) {
        part_count(size)
    } else if !bits::has_bit(used, k) {
        k
    } else {
        free_part_from(size, used, k + 1)
    }
}

/// The part that is handed out next; the number of parts if none is left.
pub open spec fn next_part(size: int, used: u32) -> int {
    free_part_from(size, used, first_part(size))
}

/// A chunk that is handed out in parts of `size` bytes, none of which is in
/// use.
pub open spec fn fresh_parts(size: nat) -> ChunkState {
    ChunkState::Parts { size, locked: false, full: false, used: 0 }
}

/// The chunk with another set of parts in use.
pub open spec fn with_used(c: ChunkState, used: u32) -> ChunkState {
    match c {
        ChunkState::Parts { size, locked, full, used: _ } => ChunkState::Parts {
            size,
            locked,
            full,
            used,
        },
        _ => c,
    }
}

/// The chunk with another full flag, where the bitmap does not fit into the
/// descriptor. The other chunks have no use for the flag.
pub open spec fn with_full(c: ChunkState, full: bool) -> ChunkState {
    match c {
        ChunkState::Parts { size, locked, full: before, used } => ChunkState::Parts {
            size,
            locked,
            full: if bitmap_fits(size as int) {
                before
            } else {
                full
            },
            used,
        },
        _ => c,
    }
}

/// The chunk with another lock flag, where the bitmap does not fit into the
/// descriptor. The other chunks have no use for the flag.
pub open spec fn with_lock(c: ChunkState, locked: bool) -> ChunkState {
    match c {
        ChunkState::Parts { size, locked: before, full, used } => ChunkState::Parts {
            size,
            locked: if bitmap_fits(size as int) {
                before
            } else {
                locked
            },
            full,
            used,
        },
        _ => c,
    }
}

/// The chunk is handed out in parts of `size` bytes and counts as full: by
/// its bitmap where the descriptor holds it, otherwise by its flag.
pub open spec fn counts_as_full(c: ChunkState) -> bool {
    match c {
        ChunkState::Parts { size, locked, full, used } => if bitmap_fits(size as int) {
            next_part(size as int, used) == part_count(size as int)
        } else {
            full
        },
        _ => false,
    }
}

/// What a chunk is used for, from its descriptor and from the word at the
/// start of the chunk.
pub open spec fn state_of(desc: DescStorage, word: u32) -> ChunkState {
    match desc.kind() {
        None => ChunkState::Unknown,
        Some(RawDescType::Meta) => ChunkState::Meta,
        Some(RawDescType::Free) => ChunkState::Free { order: desc.order() },
        Some(RawDescType::Alloc) => ChunkState::Alloc { order: desc.order() },
        Some(RawDescType::Compound) => ChunkState::Compound,
        Some(RawDescType::Parts) => ChunkState::Parts {
            size: desc.parts_size(),
            locked: desc.locked(),
            full: desc.full(),
            used: if bitmap_fits(desc.parts_size() as int) {
                desc.bitmap()
            } else {
                word
            },
        },
    }
}

/// What a descriptor says of a chunk: all of its state but for the bitmap that
/// is kept in the chunk itself.
pub open spec fn desc_part(c: ChunkState) -> ChunkState {
    match c {
        ChunkState::Parts { size, .. } => if bitmap_fits(size as int) {
            c
        } else {
            with_used(c, 0)
        },
        _ => c,
    }
}

/// The descriptor of a chunk that is used for `c` from now on and was used for
/// `before` with the descriptor `own`. A run gets the descriptor `run` with its
/// own type and order, the rest of a run an empty one, and so does a chunk that
/// was not handed out in parts before, but for the size of the parts.
pub open spec fn next_desc(
    c: ChunkState,
    before: ChunkState,
    own: DescStorage,
    run: DescStorage,
) -> DescStorage {
    match c {
        ChunkState::Free { order } => run.with_type(RawDescType::Free).with_order(order as u32),
        ChunkState::Alloc { order } => run.with_type(RawDescType::Alloc).with_order(order as u32),
        ChunkState::Parts { size, locked, full, used } => {
            let base = if before is Parts {
                own
            } else {
                (DescStorage { word: 0 }).with_type(RawDescType::Parts).with_order(
                    bits::log2(size as int) as u32,
                )
            };
            if bitmap_fits(size as int) {
                base.with_bitmap(used)
            } else {
                base.with_full(full)
            }
        },
        _ => DescStorage::plain(RawDescType::Compound, 0),
    }
}

/// Chunk `i` starts a free run of the given order.
pub open spec fn is_free(s: Seq<ChunkState>, i: int, order: nat) -> bool {
    0 <= i < s.len() && s[i] == (ChunkState::Free { order })
}

/// Chunk `i` starts an allocated run of the given order.
pub open spec fn is_alloc(s: Seq<ChunkState>, i: int, order: nat) -> bool {
    0 <= i < s.len() && s[i] == (ChunkState::Alloc { order })
}

/// Chunk `i` starts a run of the given order.
pub open spec fn is_run(s: Seq<ChunkState>, i: int, order: nat) -> bool {
    is_free(s, i, order) || is_alloc(s, i, order)
}

/// The number of chunks of a free run, counted at its first chunk.
pub open spec fn free_length(c: ChunkState) -> nat {
    match c {
        ChunkState::Free { order } => bits::pow2(order),
        _ => 0,
    }
}

/// The number of chunks in free runs that start at chunk `i` or later.
pub open spec fn free_chunks_from(s: Seq<ChunkState>, i: int) -> nat
    decreases s.len() - i,
{
    if i >= s.len() {
        0
    } else {
        free_length(s[i]) + free_chunks_from(s, i + 1)
    }
}

/// The number of chunks in free runs.
pub open spec fn free_chunks(s: Seq<ChunkState>) -> nat {
    free_chunks_from(s, 0)
}

/// The run of the given order that starts at chunk `i` is aligned to its
/// length and lies inside the block.
pub open spec fn run_fits(i: int, order: nat) -> bool {
    order <= MAX_ORDER && 0 < i && i % (bits::pow2(order) as int) == 0 && i + bits::pow2(order)
        <= CHUNK_COUNT
}

/// The chunks after `i` up to the end of a run of the given order are the
/// rest of that run.
pub open spec fn run_filled(s: Seq<ChunkState>, i: int, order: nat) -> bool {
    forall|j: int| i < j < i + bits::pow2(order) ==> #[trigger] s[j] is Compound
}

/// Chunk `j` belongs to a run that starts at an earlier chunk.
pub open spec fn in_run(s: Seq<ChunkState>, j: int) -> bool {
    exists|i: int, order: nat| #[trigger] is_run(s, i, order) && i < j < i + bits::pow2(order)
}

/// Chunk `i` agrees with its neighbours.
pub open spec fn chunk_ok(s: Seq<ChunkState>, i: int) -> bool {
    match s[i] {
        ChunkState::Unknown => false,
        ChunkState::Meta => false,
        ChunkState::Free { order } => run_fits(i, order) && run_filled(s, i, order),
        ChunkState::Alloc { order } => run_fits(i, order) && run_filled(s, i, order),
        ChunkState::Compound => in_run(s, i),
        ChunkState::Parts { .. } => true,
    }
}

/// The first chunk holds the descriptors, and the others are divided without
/// gap or overlap into aligned runs and chunks that are handed out in parts.
pub open spec fn tiled(s: Seq<ChunkState>) -> bool {
    &&& s.len() == CHUNK_COUNT
    &&& s[0] is Meta
    &&& forall|i: int| 0 < i < CHUNK_COUNT ==> #[trigger] chunk_ok(s, i)
}

/// A chunk that is handed out in parts has a valid part size and bitmap, and
/// carries flags only where the bitmap is not in the descriptor.
pub open spec fn parts_valid(c: ChunkState) -> bool {
    match c {
        ChunkState::Parts { size, locked, full, used } => {
            &&& is_part_size(size as int)
            &&& bitmap_ok(size as int, used)
            &&& bitmap_fits(size as int) ==> !locked && !full
        },
        _ => true,
    }
}

/// Nobody holds the lock of the chunk.
pub open spec fn is_unlocked(c: ChunkState) -> bool {
    match c {
        ChunkState::Parts { locked, .. } => !locked,
        _ => true,
    }
}

/// If the chunk is handed out in parts, some part is in use.
pub open spec fn is_occupied(c: ChunkState) -> bool {
    match c {
        ChunkState::Parts { used, .. } => used != 0,
        _ => true,
    }
}

/// The run that makes up, with the run of the given order at chunk `i`, a run
/// of the next order.
pub open spec fn buddy(i: int, order: nat) -> int {
    if i % (bits::pow2(order + 1) as int) == 0 {
        i + bits::pow2(order)
    } else {
        i - bits::pow2(order)
    }
}

/// No free run could be joined with a free buddy.
pub open spec fn coalesced(s: Seq<ChunkState>) -> bool {
    forall|i: int, order: nat|
        #[trigger] is_free(s, i, order) ==> !is_free(s, buddy(i, order), order)
}

/// The layout of a block that can be used: the chunks are tiled, and those
/// that are handed out in parts are valid and not locked by anybody.
pub open spec fn well_formed(s: Seq<ChunkState>) -> bool {
    &&& tiled(s)
    &&& forall|i: int| 0 <= i < s.len() ==> parts_valid(#[trigger] s[i])
    &&& forall|i: int| 0 <= i < s.len() ==> is_unlocked(#[trigger] s[i])
}

/// No free memory is withheld: all free runs that can be joined are joined,
/// and no chunk is handed out in parts without need.
pub open spec fn tidy(s: Seq<ChunkState>) -> bool {
    &&& coalesced(s)
    &&& forall|i: int| 0 <= i < s.len() ==> is_occupied(#[trigger] s[i])
}

/// The layout of a block in which nothing was allocated yet: one free run of
/// each order.
pub open spec fn initial(s: Seq<ChunkState>) -> bool {
    &&& s.len() == CHUNK_COUNT
    &&& s[0] is Meta
    &&& forall|order: nat| order <= MAX_ORDER ==> #[trigger] is_free(s, bits::pow2(order) as int, order)
    &&& forall|order: nat, j: int|
        order <= MAX_ORDER && #[trigger] bits::pow2(order) < j < bits::pow2(order + 1)
            ==> #[trigger] s[j] is Compound
}

/// The descriptor of chunk `i` of a block in which nothing was allocated yet.
pub open spec fn initial_desc(i: int) -> DescStorage {
    if i == 0 {
        DescStorage::plain(RawDescType::Meta, 0)
    } else if i == bits::pow2(bits::log2(i)) {
        DescStorage::plain(RawDescType::Free, bits::log2(i) as u32)
    } else {
        DescStorage::plain(RawDescType::Compound, 0)
    }
}

/// The layout of a block without descriptors: no chunk has a valid type.
pub open spec fn blank(s: Seq<ChunkState>) -> bool {
    s.len() == CHUNK_COUNT && forall|i: int| 0 <= i < CHUNK_COUNT ==> #[trigger] s[i] is Unknown
}

/// A multiple of `p` is an even or an odd multiple of it.
proof fn lemma_even_odd(i: int, p: int)
    requires
        p >= 1,
        i >= 0,
        i % p == 0,
    ensures
        (i + p) % p == 0,
        (i - p) % p == 0,
        i % (2 * p) == 0 ==> (i + p) % (2 * p) == p,
        i % (2 * p) != 0 ==> i >= p && (i - p) % (2 * p) == 0 && i % (2 * p) == p,
{
    let x = i / p;
    let y = x / 2;
    vstd::arithmetic::div_mod::lemma_fundamental_div_mod(i, p);
    vstd::arithmetic::div_mod::lemma_div_pos_is_pos(i, p);
    assert(p * (x + 1) == i + p && p * (x - 1) == i - p) by (nonlinear_arith)
        requires
            i == p * x,
    ;
    vstd::arithmetic::div_mod::lemma_mod_multiples_basic(x + 1, p);
    vstd::arithmetic::div_mod::lemma_mod_multiples_basic(x - 1, p);
    assert((x + 1) * p == p * (x + 1) && (x - 1) * p == p * (x - 1)) by (nonlinear_arith);
    if x % 2 == 0 {
        assert(i == y * (2 * p)) by (nonlinear_arith)
            requires
                i == p * x,
                x == 2 * y,
        ;
        vstd::arithmetic::div_mod::lemma_mod_multiples_basic(y, 2 * p);
        vstd::arithmetic::div_mod::lemma_fundamental_div_mod_converse(i + p, 2 * p, y, p);
    } else {
        assert(i == y * (2 * p) + p) by (nonlinear_arith)
            requires
                i == p * x,
                x == 2 * y + 1,
        ;
        assert(y * (2 * p) >= 0) by (nonlinear_arith)
            requires
                y >= 0,
                p >= 1,
        ;
        vstd::arithmetic::div_mod::lemma_fundamental_div_mod_converse(i, 2 * p, y, p);
        vstd::arithmetic::div_mod::lemma_mod_multiples_basic(y, 2 * p);
    }
}

/// Below the end of the block, a multiple of a run length leaves room for a
/// whole run.
proof fn lemma_room(i: int, order: nat)
    requires
        order <= 7,
        i % (bits::pow2(order) as int) == 0,
        i < CHUNK_COUNT,
    ensures
        i + bits::pow2(order) <= CHUNK_COUNT,
{
    let p = bits::pow2(order) as int;
    let c = bits::pow2((7 - order) as nat) as int;
    bits::lemma_pow2_values();
    bits::lemma_pow2_double(order);
    vstd::arithmetic::power2::lemma_pow2_adds(order, (7 - order) as nat);
    vstd::arithmetic::div_mod::lemma_fundamental_div_mod(i, p);
    let x = i / p;
    assert(p * x + p <= p * c) by (nonlinear_arith)
        requires
            p * x < p * c,
            p >= 1,
    ;
}

/// The end of the run of the given order that chunk `i` lies in.
pub open spec fn run_end(i: int, order: nat) -> int {
    i / (bits::pow2(order) as int) * bits::pow2(order) + bits::pow2(order)
}

/// The lowest chunk from `i` on that is not the rest of a run; the number of
/// chunks if there is none.
pub open spec fn skip_compound(s: Seq<ChunkState>, i: int) -> int
    decreases s.len() - i,
{
    if i >= s.len() {
        s.len() as int
    } else if s[i] is Compound {
        skip_compound(s, i + 1)
    } else {
        i
    }
}

/// The chunk that follows chunk `i` and the run that it starts.
pub open spec fn next_chunk(s: Seq<ChunkState>, i: int) -> int {
    match s[i] {
        ChunkState::Free { order } => run_end(i, order),
        ChunkState::Alloc { order } => run_end(i, order),
        ChunkState::Compound => skip_compound(s, i + 1),
        _ => i + 1,
    }
}

/// Going on to the next chunk leaves out only the rest of runs.
pub proof fn lemma_next_chunk(s: Seq<ChunkState>, i: int)
    requires
        tiled(s),
        0 < i < CHUNK_COUNT,
    ensures
        i < next_chunk(s, i) <= CHUNK_COUNT,
        forall|j: int| i < j < next_chunk(s, i) ==> #[trigger] s[j] is Compound,
{
    assert(chunk_ok(s, i));
    match s[i] {
        ChunkState::Free { order } => {
            lemma_run_end(i, order);
        },
        ChunkState::Alloc { order } => {
            lemma_run_end(i, order);
        },
        ChunkState::Compound => {
            lemma_skip_compound(s, i + 1);
        },
        _ => {},
    }
}

/// The end of the run that a chunk lies in is the first multiple of its length
/// after the chunk.
pub proof fn lemma_aligned_end(i: int, order: nat)
    requires
        i >= 0,
    ensures
        run_end(i, order) % (bits::pow2(order) as int) == 0,
        run_end(i, order) - bits::pow2(order) <= i < run_end(i, order),
{
    let p = bits::pow2(order) as int;
    bits::lemma_pow2_double(order);
    vstd::arithmetic::div_mod::lemma_fundamental_div_mod(i, p);
    let q = i / p;
    assert(q * p == p * q && q * p + p == (q + 1) * p) by (nonlinear_arith);
    vstd::arithmetic::div_mod::lemma_mod_multiples_basic(q + 1, p);
}

/// A run that starts at chunk `i` ends after its length.
pub proof fn lemma_run_end(i: int, order: nat)
    requires
        run_fits(i, order),
    ensures
        run_end(i, order) == i + bits::pow2(order),
        bits::pow2(order) >= 1,
{
    let p = bits::pow2(order) as int;
    bits::lemma_pow2_double(order);
    vstd::arithmetic::div_mod::lemma_fundamental_div_mod(i, p);
    assert(i / p * p == p * (i / p)) by (nonlinear_arith);
}

/// What [`skip_compound`] leaves out.
pub proof fn lemma_skip_compound(s: Seq<ChunkState>, i: int)
    requires
        i <= s.len(),
    ensures
        i <= skip_compound(s, i) <= s.len(),
        forall|j: int| i <= j < skip_compound(s, i) ==> #[trigger] s[j] is Compound,
    decreases s.len() - i,
{
    if i < s.len() && s[i] is Compound {
        lemma_skip_compound(s, i + 1);
    }
}

/// Arithmetic of a run and its buddy.
pub proof fn lemma_buddy(i: int, order: nat)
    requires
        run_fits(i, order),
    ensures
        0 <= buddy(i, order) < CHUNK_COUNT,
        buddy(i, order) != i,
        buddy(buddy(i, order), order) == i,
        buddy(i, order) == 0 <==> i == bits::pow2(order),
        buddy(i, order) == i + bits::pow2(order) || buddy(i, order) == i - bits::pow2(order),
        buddy(i, order) > 0 ==> {
            let low = if i < buddy(i, order) {
                i
            } else {
                buddy(i, order)
            };
            &&& order < MAX_ORDER
            &&& run_fits(buddy(i, order), order)
            &&& run_fits(low, order + 1)
        },
{
    let p = bits::pow2(order) as int;
    let b = buddy(i, order);
    bits::lemma_pow2_double(order);
    bits::lemma_pow2_values();
    lemma_even_odd(i, p);
    if b > i {
        lemma_room(i, order + 1);
        lemma_even_odd(i + p, p);
    } else {
        lemma_even_odd(i - p, p);
        if b > 0 {
            lemma_room(b, order + 1);
        }
    }
    if order == MAX_ORDER {
        assert(i % 64 == 0);
        assert(i == 64);
        assert(i % 128 == 64);
    }
    if i == p {
        assert(p % (2 * p) == p) by {
            vstd::arithmetic::div_mod::lemma_small_mod(p as nat, (2 * p) as nat);
        }
    }
}

/// Arithmetic of the two halves of a run.
pub proof fn lemma_halves(i: int, order: nat)
    requires
        run_fits(i, order + 1),
    ensures
        bits::pow2(order + 1) == 2 * bits::pow2(order),
        run_fits(i, order),
        run_fits(i + bits::pow2(order), order),
        buddy(i, order) == i + bits::pow2(order),
        buddy(i + bits::pow2(order), order) == i,
{
    let p = bits::pow2(order) as int;
    bits::lemma_pow2_double(order);
    let z = i / (2 * p);
    vstd::arithmetic::div_mod::lemma_fundamental_div_mod(i, 2 * p);
    assert(i == (2 * z) * p) by (nonlinear_arith)
        requires
            i == (2 * p) * z,
    ;
    vstd::arithmetic::div_mod::lemma_mod_multiples_basic(2 * z, p);
    lemma_even_odd(i, p);
}

/// Two runs that overlap are nested, the shorter one in the longer one.
pub proof fn lemma_nested(i: int, a: nat, j: int, b: nat)
    requires
        run_fits(i, a),
        run_fits(j, b),
        a <= b,
        i < j + bits::pow2(b),
        j < i + bits::pow2(a),
    ensures
        j <= i,
        i + bits::pow2(a) <= j + bits::pow2(b),
{
    let p = bits::pow2(a) as int;
    let m = bits::pow2((b - a) as nat) as int;
    bits::lemma_pow2_double(a);
    bits::lemma_pow2_double((b - a) as nat);
    vstd::arithmetic::power2::lemma_pow2_adds(a, (b - a) as nat);
    assert(bits::pow2(b) == p * m);
    let x = i / p;
    let z = j / (p * m);
    vstd::arithmetic::div_mod::lemma_fundamental_div_mod(i, p);
    assert(p * m > 0) by (nonlinear_arith)
        requires
            p >= 1,
            m >= 1,
    ;
    vstd::arithmetic::div_mod::lemma_fundamental_div_mod(j, p * m);
    let y = m * z;
    assert((p * m) * z == p * y) by (nonlinear_arith)
        requires
            y == m * z,
    ;
    assert(p * x < p * (y + m)) by (nonlinear_arith)
        requires
            p * x < p * y + p * m,
    ;
    assert(x < y + m) by (nonlinear_arith)
        requires
            p * x < p * (y + m),
            p >= 1,
    ;
    assert(y <= x) by (nonlinear_arith)
        requires
            p * y < p * x + p,
            p >= 1,
    ;
    assert(p * y <= p * x && p * x + p <= p * y + p * m) by (nonlinear_arith)
        requires
            y <= x,
            x + 1 <= y + m,
            p >= 1,
    ;
}

/// What [`free_part_from`] finds.
pub proof fn lemma_free_part_from(size: int, used: u32, k: int)
    requires
        k <= part_count(size),
    ensures
        k <= free_part_from(size, used, k) <= part_count(size),
        free_part_from(size, used, k) < part_count(size) ==> !bits::has_bit(
            used,
            free_part_from(size, used, k),
        ),
        forall|j: int|
            k <= j < free_part_from(size, used, k) ==> #[trigger] bits::has_bit(used, j),
    decreases part_count(size) - k,
{
    if k < part_count(size) && bits::has_bit(used, k) {
        lemma_free_part_from(size, used, k + 1);
    }
}

/// The numbers of parts.
pub proof fn lemma_part_counts(size: int)
    requires
        is_part_size(size),
    ensures
        part_count(size) * size == CHUNK_SIZE,
        2 <= part_count(size) <= 32,
        bitmap_fits(size) <==> size != 16,
        bitmap_fits(size) <==> part_count(size) <= 16,
        first_part(size) == if size == 16 {
            2int
        } else {
            0
        },
{
    assert(512int / 16 == 32 && 512int / 32 == 16 && 512int / 64 == 8 && 512int / 128 == 4 && 512int
        / 256 == 2);
    assert(32int / 16 == 2);
}

/// The lowest part that is neither in use nor unavailable is handed out next.
pub proof fn lemma_next_part(size: int, used: u32, k: int)
    requires
        is_part_size(size),
        0 <= k <= 32,
        forall|j: int|
            0 <= j < k ==> (#[trigger] bits::has_bit(used, j) || !part_available(size, j)),
        k < 32 ==> !bits::has_bit(used, k) && part_available(size, k),
    ensures
        next_part(size, used) == if k < 32 {
            k
        } else {
            part_count(size)
        },
{
    lemma_part_counts(size);
    lemma_free_part_from(size, used, first_part(size));
    let f = next_part(size, used);
    if k < 32 {
        if f < k {
            assert(bits::has_bit(used, f) || !part_available(size, f));
        } else if k < f {
            assert(bits::has_bit(used, k));
        }
    } else if f < part_count(size) {
        assert(bits::has_bit(used, f) || !part_available(size, f));
    }
}

/// A bitmap that fits into the descriptor has sixteen bits.
pub proof fn lemma_bitmap_width(size: int, used: u32)
    requires
        is_part_size(size),
        bitmap_fits(size),
        bitmap_ok(size, used),
    ensures
        used < 0x10000,
{
    lemma_part_counts(size);
    bits::lemma_low_mask(16);
    assert(((1u32 << 16u32) - 1) as u32 == 0xffff) by (bit_vector);
    bits::lemma_bits(used, 0xffff);
    assert forall|k: int| 0 <= k < 32 implies (#[trigger] bits::has_bit(used, k) <==> bits::has_bit(
        used & 0xffff,
        k,
    )) by {
        assert(bits::has_bit(0xffff, k) <==> 0 <= k < 16);
    }
    bits::lemma_same_bits(used, used & 0xffff);
    assert(used & 0xffff < 0x10000) by (bit_vector);
}

/// A run may start at the chunk whose number is its length.
pub proof fn lemma_power_run(order: nat)
    requires
        order <= MAX_ORDER,
    ensures
        run_fits(bits::pow2(order) as int, order),
        run_end(bits::pow2(order) as int, order) == bits::pow2(order + 1),
{
    let p = bits::pow2(order) as int;
    bits::lemma_pow2_double(order);
    bits::lemma_pow2_values();
    vstd::arithmetic::div_mod::lemma_mod_self_0(p);
    if order < MAX_ORDER {
        vstd::arithmetic::power2::lemma_pow2_strictly_increases(order + 1, 7);
    }
    lemma_run_end(p, order);
}

/// Some free run of the given order starts at a chunk before chunk `n`.
pub open spec fn has_free_below(s: Seq<ChunkState>, n: int, order: nat) -> bool {
    exists|i: int| 0 <= i < n && #[trigger] is_free(s, i, order)
}

/// There is a free run of the given order.
pub open spec fn has_free(s: Seq<ChunkState>, order: nat) -> bool {
    exists|i: int| #[trigger] is_free(s, i, order)
}

/// All free runs start before the end of the block.
pub proof fn lemma_has_free_below(s: Seq<ChunkState>)
    ensures
        forall|order: nat|
            #[trigger] has_free_below(s, s.len() as int, order) <==> has_free(s, order),
{
    assert forall|order: nat| has_free(s, order) implies #[trigger] has_free_below(
        s,
        s.len() as int,
        order,
    ) by {
        let i = choose|i: int| #[trigger] is_free(s, i, order);
        assert(is_free(s, i, order));
    }
}

/// Going on from chunk `i`, where only the rest of runs is left out, at most
/// the run at chunk `i` is added to the free runs.
pub proof fn lemma_has_free_step(s: Seq<ChunkState>, i: int, n: int)
    requires
        0 <= i < n <= s.len(),
        forall|j: int| i < j < n ==> #[trigger] s[j] is Compound,
    ensures
        forall|order: nat|
            #[trigger] has_free_below(s, n, order) <==> has_free_below(s, i, order) || is_free(
                s,
                i,
                order,
            ),
{
    assert forall|order: nat| #[trigger] has_free_below(s, n, order) implies has_free_below(
        s,
        i,
        order,
    ) || is_free(s, i, order) by {
        let j = choose|j: int| 0 <= j < n && #[trigger] is_free(s, j, order);
        if j > i {
            assert(s[j] is Compound);
        }
    }
    assert forall|order: nat| has_free_below(s, i, order) || is_free(s, i, order) implies #[trigger] has_free_below(
        s,
        n,
        order,
    ) by {
        if has_free_below(s, i, order) {
            let j = choose|j: int| 0 <= j < i && #[trigger] is_free(s, j, order);
            assert(is_free(s, j, order));
        }
    }
}

/// How another state of one chunk changes the number of free chunks.
pub proof fn lemma_free_chunks(s: Seq<ChunkState>, i: int, c: ChunkState, k: int)
    requires
        0 <= i < s.len(),
        0 <= k,
    ensures
        free_chunks_from(s.update(i, c), k) == free_chunks_from(s, k) + if k <= i {
            free_length(c) - free_length(s[i])
        } else {
            0
        },
    decreases s.len() - k,
{
    if k < s.len() {
        lemma_free_chunks(s, i, c, k + 1);
    }
}

} // verus!
