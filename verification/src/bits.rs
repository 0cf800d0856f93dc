//! Bit sets in a machine word, and powers of two.
use vstd::prelude::*;

verus! {

/// Two to the power of `n`.
pub open spec fn pow2(n: nat) -> nat {
    vstd::arithmetic::power2::pow2(n)
}

/// Bit `k` of `word` is set.
pub open spec fn has_bit(word: u32, k: int) -> bool {
    0 <= k < 32 && (word >> (k as u32)) & 1 == 1
}

/// The powers of two that occur here.
pub proof fn lemma_pow2_values()
    ensures
        pow2(0) == 1,
        pow2(1) == 2,
        pow2(2) == 4,
        pow2(3) == 8,
        pow2(4) == 16,
        pow2(5) == 32,
        pow2(6) == 64,
        pow2(7) == 128,
        pow2(8) == 256,
        pow2(9) == 512,
        pow2(10) == 1024,
        pow2(11) == 2048,
        pow2(12) == 4096,
        pow2(13) == 8192,
        pow2(14) == 16384,
        pow2(15) == 32768,
        pow2(16) == 65536,
{
    vstd::arithmetic::power2::lemma2_to64();
}

/// Each power of two is twice the one before it.
pub proof fn lemma_pow2_double(n: nat)
    ensures
        pow2(n + 1) == 2 * pow2(n),
        pow2(n) >= 1,
{
    vstd::arithmetic::power2::lemma_pow2_unfold(n + 1);
    vstd::arithmetic::power2::lemma_pow2_pos(n);
}

/// A one shifted left by `n` is two to the power of `n`.
pub proof fn lemma_one_shl(n: u32)
    requires
        n < 16,
    ensures
        (1usize << n) == pow2(n as nat),
        (1u32 << n) == pow2(n as nat),
        pow2(n as nat) <= 32768,
{
    lemma_pow2_values();
    assert(
        (1u32 << 0u32) == 1 && (1u32 << 1u32) == 2 && (1u32 << 2u32) == 4 && (1u32 << 3u32) == 8
        && (1u32 << 4u32) == 16 && (1u32 << 5u32) == 32 && (1u32 << 6u32) == 64
        && (1u32 << 7u32) == 128 && (1u32 << 8u32) == 256 && (1u32 << 9u32) == 512
        && (1u32 << 10u32) == 1024 && (1u32 << 11u32) == 2048 && (1u32 << 12u32) == 4096
        && (1u32 << 13u32) == 8192 && (1u32 << 14u32) == 16384 && (1u32 << 15u32) == 32768
    ) by (bit_vector);
    assert((1usize << n) == (1u32 << n)) by (bit_vector)
        requires
            n < 16,
    ;
}

/// A power of two has as many trailing zeros as its exponent says.
pub proof fn lemma_trailing_zeros(x: u32, n: nat)
    requires
        n < 16,
        x == pow2(n),
    ensures
        vstd::std_specs::bits::u32_trailing_zeros(x) == n,
{
    let k = n as u32;
    lemma_one_shl(k);
    vstd::std_specs::bits::axiom_u32_trailing_zeros(x);
    let t = vstd::std_specs::bits::u32_trailing_zeros(x) as u32;
    assert(x != 0 && t < 32 && (x >> t) & 1u32 == 1u32 ==> t == k) by (bit_vector)
        requires
            k < 16,
            x == 1u32 << k,
    ;
    lemma_pow2_double(n);
}

/// Clearing the low bits rounds down to a multiple of a power of two.
pub proof fn lemma_round_down(x: usize, n: u32)
    requires
        n < usize::BITS,
    ensures
        (1usize << n) == pow2(n as nat),
        0 < pow2(n as nat) < usize::MAX,
        (x & !(((1usize << n) - 1) as usize)) == x as int / (pow2(n as nat) as int) * pow2(
            n as nat,
        ),
        (x & !(((1usize << n) - 1) as usize)) <= x,
{
    let m = ((1usize << n) - 1) as usize;
    vstd::bits::lemma_usize_pow2_no_overflow(n as nat);
    vstd::bits::lemma_usize_shl_is_mul(1, n as usize);
    assert(m == vstd::bits::low_bits_mask(n as nat));
    vstd::bits::lemma_usize_low_bits_mask_is_mod(x, n as nat);
    assert((x & !m) == x - (x & m)) by (bit_vector);
    let p = pow2(n as nat) as int;
    vstd::arithmetic::div_mod::lemma_fundamental_div_mod(x as int, p);
    assert(x as int / p * p == p * (x as int / p)) by (nonlinear_arith);
}

/// The bits of a conjunction, a disjunction and a complement.
pub proof fn lemma_bits(a: u32, b: u32)
    ensures
        forall|k: int| #[trigger] has_bit(a & b, k) <==> has_bit(a, k) && has_bit(b, k),
        forall|k: int| #[trigger] has_bit(a | b, k) <==> has_bit(a, k) || has_bit(b, k),
        forall|k: int| 0 <= k < 32 ==> (#[trigger] has_bit(!a, k) <==> !has_bit(a, k)),
{
    assert forall|k: int| 0 <= k < 32 implies {
        &&& has_bit(a & b, k) <==> has_bit(a, k) && has_bit(b, k)
        &&& has_bit(a | b, k) <==> has_bit(a, k) || has_bit(b, k)
        &&& has_bit(!a, k) <==> !has_bit(a, k)
    } by {
        let j = k as u32;
        assert({
            &&& ((a & b) >> j) & 1 == 1 <==> (a >> j) & 1 == 1 && (b >> j) & 1 == 1
            &&& ((a | b) >> j) & 1 == 1 <==> (a >> j) & 1 == 1 || (b >> j) & 1 == 1
            &&& (!a >> j) & 1 == 1 <==> !((a >> j) & 1 == 1)
        }) by (bit_vector)
            requires
                j < 32,
        ;
    }
}

/// The only bit of `1 << n` is bit `n`, and zero has none.
pub proof fn lemma_bit(n: u32)
    requires
        n < 32,
    ensures
        forall|k: int| #[trigger] has_bit(1u32 << n, k) <==> k == n,
        forall|k: int| !#[trigger] has_bit(0, k),
{
    assert forall|k: int|
        #![trigger has_bit(1u32 << n, k)]
        #![trigger has_bit(0, k)]
        0 <= k < 32 implies (has_bit(1u32 << n, k) <==> k == n) && !has_bit(0, k) by {
        let j = k as u32;
        assert((((1u32 << n) >> j) & 1 == 1 <==> j == n) && !((0u32 >> j) & 1 == 1)) by (bit_vector)
            requires
                j < 32,
                n < 32,
        ;
    }
}

/// The bits of `(1 << n) - 1` are those below `n`.
pub proof fn lemma_low_mask(n: u32)
    requires
        n < 32,
    ensures
        (1u32 << n) >= 1,
        forall|k: int| #[trigger] has_bit(((1u32 << n) - 1) as u32, k) <==> 0 <= k < n,
{
    assert((1u32 << n) >= 1) by (bit_vector)
        requires
            n < 32,
    ;
    assert forall|k: int| 0 <= k < 32 implies (#[trigger] has_bit(((1u32 << n) - 1) as u32, k)
        <==> k < n) by {
        let j = k as u32;
        assert(((((1u32 << n) - 1) as u32) >> j) & 1 == 1 <==> j < n) by (bit_vector)
            requires
                j < 32,
                n < 32,
        ;
    }
}

/// Words with the same bits are the same word.
pub proof fn lemma_same_bits(a: u32, b: u32)
    requires
        forall|k: int| 0 <= k < 32 ==> (#[trigger] has_bit(a, k) <==> has_bit(b, k)),
    ensures
        a == b,
{
    if a != b {
        let x = a ^ b;
        assert(x != 0) by (bit_vector)
            requires
                x == a ^ b,
                a != b,
        ;
        vstd::std_specs::bits::axiom_u32_trailing_zeros(x);
        let j = vstd::std_specs::bits::u32_trailing_zeros(x) as u32;
        assert(((a >> j) & 1 == 1) != ((b >> j) & 1 == 1)) by (bit_vector)
            requires
                x == a ^ b,
                j < 32,
                (x >> j) & 1 == 1,
        ;
        assert(has_bit(a, j as int) <==> has_bit(b, j as int));
    }
}

/// The base-two logarithm of `n`, rounded down.
pub open spec fn log2(n: int) -> nat
    decreases n,
{
    if n <= 1 {
        0
    } else {
        1 + log2(n / 2)
    }
}

/// What the logarithm is.
pub proof fn lemma_log2(n: int)
    requires
        n >= 1,
    ensures
        pow2(log2(n)) <= n < pow2(log2(n) + 1),
    decreases n,
{
    lemma_pow2_values();
    if n > 1 {
        lemma_log2(n / 2);
        lemma_pow2_double(log2(n / 2));
        lemma_pow2_double(log2(n));
    }
}

/// The logarithm of what lies between two powers of two.
pub proof fn lemma_log2_is(n: int, k: nat)
    requires
        pow2(k) <= n < pow2(k + 1),
    ensures
        log2(n) == k,
{
    lemma_pow2_double(k);
    lemma_log2(n);
    let l = log2(n);
    if l < k {
        if l + 1 < k {
            vstd::arithmetic::power2::lemma_pow2_strictly_increases(l + 1, k);
        }
    } else if k < l {
        if k + 1 < l {
            vstd::arithmetic::power2::lemma_pow2_strictly_increases(k + 1, l);
        }
    }
}

/// The base-two logarithm of `n`, rounded down.
pub fn ilog2(n: usize) -> (log: u32)
    requires
        n > 0,
    ensures
        log == log2(n as int),
        pow2(log as nat) <= n < pow2(log as nat + 1),
{
    proof {
        lemma_log2(n as int);
        vstd::arithmetic::power2::lemma2_to64();
        if log2(n as int) > 64 {
            vstd::arithmetic::power2::lemma_pow2_strictly_increases(64, log2(n as int));
        }
    }
    let mut log: u32 = 0;
    let mut rest: usize = n;
    while rest > 1
        invariant
            rest >= 1,
            log2(n as int) == log + log2(rest as int),
            log2(n as int) < 64,
        decreases rest,
    {
        rest = rest / 2;
        log = log + 1;
    }
    log
}

} // verus!
