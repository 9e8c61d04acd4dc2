//! Integer logarithms and powers used to size encodings.
use vstd::prelude::*;
use vstd::arithmetic::power2::{pow2, lemma2_to64, lemma2_to64_rest, lemma_pow2_unfold, lemma_pow2_pos, lemma_pow2_adds, lemma_pow2_strictly_increases};

verus! {

/// Floor of the base-2 logarithm; 0 for 0 and 1.
pub open spec fn log2(n: nat) -> nat
    decreases n,
{
    if n <= 1 { 0 } else { 1 + log2(n / 2) }
}

/// Floor of the base-4 logarithm; 0 for 0 to 3.
pub open spec fn log4(n: nat) -> nat
    decreases n,
{
    if n <= 3 { 0 } else { 1 + log4(n / 4) }
}

/// Four to the power `k`.
pub open spec fn pow4(k: nat) -> nat {
    pow2(2 * k)
}

pub proof fn lemma_log2_bounds(n: nat)
    requires
        n >= 1,
    ensures
        pow2(log2(n)) <= n < pow2(log2(n) + 1),
    decreases n,
{
    if n <= 1 {
        lemma_pow2_unfold(1);
        assert(pow2(0) == 1) by { lemma2_to64(); }
    } else {
        lemma_log2_bounds(n / 2);
        let l = log2(n / 2);
        lemma_pow2_unfold(l + 1);
        lemma_pow2_unfold(l + 2);
    }
}

pub proof fn lemma_log2_unique(n: nat, k: nat)
    requires
        pow2(k) <= n < pow2(k + 1),
    ensures
        log2(n) == k,
{
    lemma_pow2_pos(k);
    lemma_log2_bounds(n);
    let l = log2(n);
    if l < k {
        lemma_pow2_increases(l + 1, k);
    } else if l > k {
        lemma_pow2_increases(k + 1, l);
    }
}

pub proof fn lemma_pow2_increases(a: nat, b: nat)
    requires
        a <= b,
    ensures
        pow2(a) <= pow2(b),
{
    if a < b {
        lemma_pow2_strictly_increases(a, b);
    }
}

pub proof fn lemma_log2_pow2(k: nat)
    ensures
        log2(pow2(k)) == k,
{
    lemma_pow2_unfold(k + 1);
    lemma_pow2_pos(k);
    lemma_log2_unique(pow2(k), k);
}

pub proof fn lemma_log4_bounds(n: nat)
    requires
        n >= 1,
    ensures
        pow4(log4(n)) <= n < pow4(log4(n) + 1),
    decreases n,
{
    if n <= 3 {
        assert(pow2(0) == 1 && pow2(2) == 4) by { lemma2_to64(); }
    } else {
        lemma_log4_bounds(n / 4);
        let l = log4(n / 4);
        lemma_pow2_adds(2 * l, 2);
        lemma_pow2_adds(2 * l + 2, 2);
        assert(pow2(2) == 4) by { lemma2_to64(); }
    }
}

pub proof fn lemma_log4_unique(n: nat, k: nat)
    requires
        pow4(k) <= n < pow4(k + 1),
    ensures
        log4(n) == k,
{
    lemma_pow2_pos(2 * k);
    lemma_log4_bounds(n);
    let l = log4(n);
    if l < k {
        lemma_pow2_increases(2 * (l + 1), 2 * k);
    } else if l > k {
        lemma_pow2_increases(2 * (k + 1), 2 * l);
    }
}

pub proof fn lemma_log4_pow4(k: nat)
    ensures
        log4(pow4(k)) == k,
{
    lemma_pow2_adds(2 * k, 2);
    assert(pow2(2) == 4) by { lemma2_to64(); }
    lemma_pow2_pos(2 * k);
    lemma_log4_unique(pow4(k), k);
}

/// The base-4 logarithm of a square is the base-2 logarithm of its side.
pub proof fn lemma_log4_square(s: nat)
    requires
        s >= 1,
    ensures
        log4(s * s) == log2(s),
{
    lemma_log2_bounds(s);
    let l = log2(s);
    let p = pow2(l);
    let q = pow2(l + 1);
    assert(p * p <= s * s) by (nonlinear_arith) requires p <= s;
    assert(s * s < q * q) by (nonlinear_arith) requires s < q, 0 <= s;
    lemma_pow2_adds(l, l);
    lemma_pow2_adds(l + 1, l + 1);
    lemma_log4_unique(s * s, l);
}


pub proof fn lemma_usize_bits()
    ensures
        usize::BITS == 32 || usize::BITS == 64,
        usize::MAX == pow2(usize::BITS as nat) - 1,
{
    lemma2_to64();
    lemma2_to64_rest();
}


/// Every base-2 logarithm of a machine word is below the word width.
pub proof fn lemma_log2_below_bits(n: usize)
    ensures
        log2(n as nat) < usize::BITS,
{
    lemma_usize_bits();
    if n >= 1 {
        lemma_log2_bounds(n as nat);
        if log2(n as nat) >= usize::BITS {
            lemma_pow2_increases(usize::BITS as nat, log2(n as nat));
        }
    }
}

/// Every base-4 logarithm of a machine word is below half the word width.
pub proof fn lemma_log4_below_half_bits(n: usize)
    ensures
        2 * log4(n as nat) < usize::BITS,
{
    lemma_usize_bits();
    if n >= 1 {
        lemma_log4_bounds(n as nat);
        if 2 * log4(n as nat) >= usize::BITS {
            lemma_pow2_increases(usize::BITS as nat, 2 * log4(n as nat));
        }
    }
}

pub proof fn lemma_log2_monotone(a: nat, b: nat)
    requires
        a <= b,
    ensures
        log2(a) <= log2(b),
    decreases b,
{
    if a > 1 {
        lemma_log2_monotone(a / 2, b / 2);
    }
}

/// `1 << k` on machine words.
pub fn one_shl(k: usize) -> (r: usize)
    requires
        k < usize::BITS,
    ensures
        r == pow2(k as nat),
{
    proof {
        vstd::bits::lemma_usize_pow2_no_overflow(k as nat);
        vstd::bits::lemma_usize_shl_is_mul(1, k);
    }
    1usize << k
}

} // verus!
