//! Sizes of encodings: powers, logarithms and encoding lengths.
use vstd::prelude::*;
use vstd::arithmetic::power2::{pow2, lemma2_to64};
use crate::math::{log2, log4, pow4, one_shl, lemma_log2_below_bits, lemma_log4_below_half_bits};
use crate::shape::encoding::ShapeEncoding;

verus! {

/// Length of the encoding of an image of the given area (number of pixels).
pub open spec fn encoding_length(area: nat) -> nat
    decreases area,
{
    if area <= 4 {
        area + area / 4
    } else {
        area + area / 4 + encoding_length(area / 4)
    }
}

impl ShapeEncoding {
    /// Floor of log2(n); 0 for n = 0.
    pub fn pow_of_two(n: usize) -> (p: usize)
        ensures
            p == log2(n as nat),
    {
        proof { lemma_log2_below_bits(n); }
        let mut m = n;
        let mut p: usize = 0;
        while m > 1
            invariant
                p + log2(m as nat) == log2(n as nat),
                log2(n as nat) < usize::BITS,
            decreases m,
        {
            assert(m >> 1 == m / 2) by (bit_vector);
            m = m >> 1;
            p = p + 1;
        }
        p
    }

    /// Floor of log4(n); 0 for n < 4.
    pub fn pow_of_four(n: usize) -> (p: usize)
        ensures
            p == log4(n as nat),
    {
        proof { lemma_log4_below_half_bits(n); }
        let mut m = n;
        let mut p: usize = 0;
        while m > 3
            invariant
                p + log4(m as nat) == log4(n as nat),
                2 * log4(n as nat) < usize::BITS,
            decreases m,
        {
            assert(m >> 2 == m / 4) by (bit_vector);
            m = m >> 2;
            p = p + 1;
        }
        p
    }

    /// Whether `n` is a power of four.
    pub fn is_pow_of_four(n: usize) -> (r: bool)
        ensures
            r == (pow4(log4(n as nat)) == n),
    {
        proof { lemma_log4_below_half_bits(n); }
        let p = Self::pow_of_four(n);
        one_shl(2 * p) == n
    }

    /// The exponent of the least power of four that is at least `n`
    /// (1 for `n = 0`).
    pub fn next_pow_of_four(n: usize) -> (r: usize)
        ensures
            r == log4(n as nat) + if pow4(log4(n as nat)) == n { 0nat } else { 1nat },
    {
        proof { lemma_log4_below_half_bits(n); }
        let mut size = Self::pow_of_four(n);
        if !Self::is_pow_of_four(n) {
            size += 1;
        }
        size
    }

    /// Length of the encoding of an image of the given area.
    pub fn get_length_from_area(area: usize) -> (r: usize)
        requires
            encoding_length(area as nat) <= usize::MAX,
        ensures
            r == encoding_length(area as nat),
        decreases area,
    {
        if area <= 4 {
            area + area / 4
        } else {
            area + area / 4 + Self::get_length_from_area(area / 4)
        }
    }

    /// Number of layers of the encoding of an image of the given area.
    pub fn layer_from_area(n: usize) -> (r: usize)
        ensures
            r == log4(n as nat) + 1,
    {
        proof { lemma_log4_below_half_bits(n); }
        Self::pow_of_four(n) + 1
    }

    /// Length of the encoding of an image of the given area.
    pub fn length_from_area(n: usize) -> (r: usize)
        requires
            encoding_length(n as nat) <= usize::MAX,
        ensures
            r == encoding_length(n as nat),
    {
        proof {
            reveal_with_fuel(encoding_length, 10);
        }
        match n {
            1 => 1,
            4 => 5,
            16 => 25,
            64 => 105,
            256 => 425,
            1024 => 1705,
            4096 => 6825,
            16384 => 27305,
            65536 => 109225,
            _ => Self::get_length_from_area(n),
        }
    }

    /// Length of the encoding of an image of side `n`.
    pub fn length_from_size(n: usize) -> (r: usize)
        requires
            n * n <= usize::MAX,
            encoding_length((n * n) as nat) <= usize::MAX,
        ensures
            r == encoding_length((n * n) as nat),
    {
        Self::length_from_area(n * n)
    }

    /// The greatest power of two not above `length` (1 for 0).
    pub fn area_from_length(length: usize) -> (r: usize)
        ensures
            r == pow2(log2(length as nat)),
    {
        proof { lemma_log2_below_bits(length); }
        one_shl(Self::pow_of_two(length))
    }

    /// Side of the image whose encoding has the given length.
    pub fn size_from_length(length: usize) -> (r: usize)
        ensures
            r == pow2(log2(length as nat) / 2),
    {
        proof { lemma_log2_below_bits(length); }
        let p = Self::pow_of_two(length);
        assert(p >> 1 == p / 2) by (bit_vector);
        one_shl(p >> 1)
    }

    /// Side of the square image: `2^(layers - 1)`.
    pub fn size(&self) -> (r: usize)
        requires
            1 <= self.seq@.len() <= usize::BITS,
        ensures
            r == pow2((self.seq@.len() - 1) as nat),
    {
        one_shl(self.seq.len() - 1)
    }

    /// Area of the square image: `4^(layers - 1)`.
    pub fn area(&self) -> (r: usize)
        requires
            1 <= self.seq@.len(),
            2 * (self.seq@.len() - 1) < usize::BITS,
        ensures
            r == pow4((self.seq@.len() - 1) as nat),
    {
        let k = self.seq.len() - 1;
        assert(k << 1 == 2 * k) by (bit_vector) requires k < 64;
        one_shl(k << 1)
    }

    /// Length of the encoding: `encoding_length(area)`.
    pub fn length(&self) -> (r: usize)
        requires
            1 <= self.seq@.len(),
            2 * (self.seq@.len() - 1) < usize::BITS,
            encoding_length(pow4((self.seq@.len() - 1) as nat)) <= usize::MAX,
        ensures
            r == encoding_length(pow4((self.seq@.len() - 1) as nat)),
    {
        Self::length_from_area(self.area())
    }

    /// Number of layers for an encoder of side `encoder_size`.
    pub fn num_layers(encoder_size: usize) -> (r: usize)
        requires
            encoder_size * encoder_size <= usize::MAX,
        ensures
            r == log4((encoder_size * encoder_size) as nat) + 1,
    {
        Self::layer_from_area(encoder_size * encoder_size)
    }
}

/// `next_pow_of_four(n)` is the exponent of the least power of four that is
/// at least `n`, for `n >= 1`.
pub proof fn law_next_pow_of_four_is_least(n: nat)
    requires
        n >= 1,
    ensures
        ({
            let r = log4(n) + if pow4(log4(n)) == n { 0nat } else { 1nat };
            &&& n <= pow4(r)
            &&& r == 0 || pow4((r - 1) as nat) < n
        }),
{
    crate::math::lemma_log4_bounds(n);
    let l = log4(n);
    if l > 0 {
        vstd::arithmetic::power2::lemma_pow2_strictly_increases(2 * (l - 1) as nat, 2 * l);
    }
}

/// The area is the square of the side: `4^k == 2^k · 2^k`.
pub proof fn law_area_is_size_squared(k: nat)
    ensures
        pow4(k) == pow2(k) * pow2(k),
{
    vstd::arithmetic::power2::lemma_pow2_adds(k, k);
}

} // verus!
