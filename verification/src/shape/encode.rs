//! Encoding an image: occupancy codes of ever finer grids.
use vstd::prelude::*;
use vstd::arithmetic::power2::{pow2, lemma2_to64, lemma_pow2_pos, lemma_pow2_adds};
use crate::bit_vec::BitVec;
use crate::math::{log2, log4, pow4, one_shl, lemma_log2_bounds, lemma_log2_monotone, lemma_log4_square, lemma_log2_below_bits, lemma_pow2_increases};
use crate::image::{BinaryImage, ColorImage};
use crate::sampler::{Sampler, BinaryImageSampler, GrayscaleSampler};
use crate::shape::bitstream::encoding_bits;
use crate::shape::encoding::ShapeEncodingString;
use crate::shape::text::{hex_text, hex_keep};
use crate::shape::encoding::ShapeEncoding;
use crate::spiral::{spiral, law_spiral_is_bijection, SpiralWalker};

verus! {

/// Number of bits of the occupancy code of a cell of side `square`:
/// `2·log2(square)`, and 1 for a single pixel.
pub open spec fn code_len(square: nat) -> nat {
    if log2(square) >= 1 { 2 * log2(square) } else { 1 }
}

/// Half of the largest occupancy of a cell of side `square` (its area).
pub open spec fn half_code(square: nat) -> nat {
    pow2((code_len(square) - 1) as nat)
}

/// An occupancy fitted into the code: values above half the area lose one,
/// so that the full cell and the one-short cell share a code.
pub open spec fn adjusted(v: nat, half: nat) -> nat {
    if v > half { (v - 1) as nat } else { v }
}

/// Bit `t` (most significant first) of the `len`-bit code of `v`.
pub open spec fn code_bit(v: nat, len: nat, t: nat) -> bool {
    (v / pow2((len - 1 - t) as nat)) % 2 == 1
}

/// Side of the cells of layer `l` (grid `2^l × 2^l`) over a square of side `side`.
pub open spec fn layer_square(side: nat, l: nat) -> nat {
    side / pow2(l)
}

/// Adjusted occupancy of cell `k` (in spiral order) of layer `l`.
pub open spec fn cell_value<S: Sampler>(s: &S, l: nat, k: int) -> nat {
    let sq = layer_square(s.side(), l) as int;
    let (x, y) = spiral(pow2(l))[k];
    adjusted(s.occupancy(x * sq, y * sq, (x + 1) * sq, (y + 1) * sq), half_code(sq as nat))
}

/// Layer `l` of the encoding: the codes of the `4^l` cells in spiral order.
pub open spec fn layer_code<S: Sampler>(s: &S, l: nat) -> Seq<bool> {
    let len = code_len(layer_square(s.side(), l));
    Seq::new(pow4(l) * len, |i: int| code_bit(cell_value(s, l, i / (len as int)), len, (i % (len as int)) as nat))
}

proof fn lemma_halve(a: nat, l: nat)
    ensures
        a / pow2(l) / 2 == a / pow2(l + 1),
{
    lemma_pow2_pos(l);
    lemma_pow2_adds(l, 1);
    lemma2_to64();
    vstd::arithmetic::div_mod::lemma_div_denominator(a as int, pow2(l) as int, 2);
}

/// Exponent of the least power of four that is at least `n` (1 for `n = 0`).
pub open spec fn next_pow4(n: nat) -> nat {
    log4(n) + if pow4(log4(n)) == n { 0nat } else { 1nat }
}

/// Side of the encoder used for an image of the given size: the least power
/// of two not below the larger dimension.
pub open spec fn encoder_side(width: nat, height: nat) -> nat {
    let size = if width >= height { width } else { height };
    pow2(next_pow4(size * size))
}

/// A `2^p × 2^p` image is encoded at its own side, in `p + 1` layers.
pub(crate) proof fn lemma_encoder_side_pow2(p: nat)
    ensures
        encoder_side(pow2(p), pow2(p)) == pow2(p),
        log4(pow2(p) * pow2(p)) == p,
{
    lemma_pow2_adds(p, p);
    crate::math::lemma_log4_pow4(p);
    assert(pow2(p) * pow2(p) == pow4(p));
    assert(next_pow4(pow2(p) * pow2(p)) == p);
}

/// Machine limits of encoding an image of the given size.
pub open spec fn encodable_size(width: nat, height: nat) -> bool {
    let size = if width >= height { width } else { height };
    let es = encoder_side(width, height);
    &&& size * size <= usize::MAX
    &&& 2 * next_pow4(size * size) < usize::BITS
    &&& es * es <= usize::MAX
    &&& es * width <= usize::MAX
    &&& es * height <= usize::MAX
    &&& crate::shape::layout::encoding_length(pow4(next_pow4(size * size))) <= usize::MAX
}

impl ShapeEncoding {
    /// Encodes a binary image, stretched over the least power-of-two square
    /// that holds it; also returns that square's side.
    pub fn encode_binary_image_as_shape_encoding(image: &BinaryImage) -> (r: (ShapeEncoding, usize))
        requires
            image.wf(),
            encodable_size(image.width as nat, image.height as nat),
        ensures
            r.1 == encoder_side(image.width as nat, image.height as nat),
            r.0.layers().len() == log4(r.1 as nat * r.1 as nat) + 1,
            forall|l: int| 0 <= l < r.0.layers().len() ==> #[trigger] r.0.layers()[l]
                == layer_code(&(BinaryImageSampler { image: image, size: r.1 }), l as nat),
    {
        let size = if image.width >= image.height { image.width } else { image.height };
        let e = Self::next_pow_of_four(size * size);
        let encoder_size = one_shl(e);
        proof { crate::math::lemma_log2_pow2(e as nat); }
        let sampler = BinaryImageSampler::new_with_size(image, encoder_size);
        let encoding = Self::encode_as_shape_encoding(&sampler);
        (encoding, encoder_size)
    }

    /// Encodes a binary image as upper-case hexadecimal text; also returns
    /// the encoder's side.
    pub fn encode_binary_image_as_hex_encoding(image: &BinaryImage) -> (r: (ShapeEncodingString, usize))
        requires
            image.wf(),
            encodable_size(image.width as nat, image.height as nat),
        ensures
            r.1 == encoder_side(image.width as nat, image.height as nat),
            r.0 matches ShapeEncodingString::Hex(s) && s@ == ({
                let sampler = BinaryImageSampler { image: image, size: r.1 };
                let b = encoding_bits(Seq::new(log4(r.1 as nat * r.1 as nat) + 1, |l: int| layer_code(&sampler, l as nat)));
                hex_text(b).take(hex_keep(b.len()) as int)
            }),
    {
        let (encoding, encoder_size) = Self::encode_binary_image_as_shape_encoding(image);
        proof {
            let es = encoder_size as nat;
            let size = if image.width >= image.height { image.width as nat } else { image.height as nat };
            crate::math::lemma_log2_pow2(next_pow4(size * size));
            lemma_pow2_adds(next_pow4(size * size), next_pow4(size * size));
            crate::math::lemma_log4_pow4(next_pow4(size * size));
            let sampler = BinaryImageSampler { image: image, size: encoder_size };
            assert(encoding.layers() == Seq::new(log4(es * es) + 1, |l: int| layer_code(&sampler, l as nat)));
        }
        (encoding.hexstring(), encoder_size)
    }

    /// Encodes a binary image as upper-case hexadecimal text.
    pub fn encode_binary_image(image: &BinaryImage) -> (r: ShapeEncodingString)
        requires
            image.wf(),
            encodable_size(image.width as nat, image.height as nat),
        ensures
            r matches ShapeEncodingString::Hex(s) && s@ == ({
                let es = encoder_side(image.width as nat, image.height as nat);
                let sampler = BinaryImageSampler { image: image, size: es as usize };
                let b = encoding_bits(Seq::new(log4(es * es) + 1, |l: int| layer_code(&sampler, l as nat)));
                hex_text(b).take(hex_keep(b.len()) as int)
            }),
    {
        Self::encode_binary_image_as_hex_encoding(image).0
    }

    /// Encodes a colour image read as grayscale through its red channel
    /// (black, red 0, is a fully occupied pixel); also returns the encoder's side.
    pub fn encode_grayscale_image_as_shape_encoding_and_size(image: &ColorImage) -> (r: (ShapeEncoding, usize))
        requires
            image.wf(),
            encodable_size(image.width as nat, image.height as nat),
            255 * (encoder_side(image.width as nat, image.height as nat) * encoder_side(image.width as nat, image.height as nat)) <= usize::MAX,
        ensures
            r.1 == encoder_side(image.width as nat, image.height as nat),
            r.0.layers().len() == log4(r.1 as nat * r.1 as nat) + 1,
            forall|l: int| 0 <= l < r.0.layers().len() ==> #[trigger] r.0.layers()[l]
                == layer_code(&(GrayscaleSampler { image: image, size: r.1 }), l as nat),
    {
        let size = if image.width >= image.height { image.width } else { image.height };
        let e = Self::next_pow_of_four(size * size);
        let encoder_size = one_shl(e);
        proof { crate::math::lemma_log2_pow2(e as nat); }
        let sampler = GrayscaleSampler::new_with_size(image, encoder_size);
        let encoding = Self::encode_as_shape_encoding(&sampler);
        (encoding, encoder_size)
    }

    /// Encodes what `sampler` sees: layer `l` holds, for each cell of the
    /// `2^l × 2^l` grid in spiral order, the cell's adjusted occupancy as a
    /// `code_len`-bit number, most significant bit first.
    pub fn encode_as_shape_encoding<S: Sampler>(sampler: &S) -> (r: ShapeEncoding)
        requires
            sampler.wf(),
            sampler.side() * sampler.side() <= usize::MAX,
            2 * log2(sampler.side()) <= usize::BITS,
        ensures
            r.layers().len() == log4(sampler.side() * sampler.side()) + 1,
            forall|l: int| 0 <= l < r.layers().len() ==> #[trigger] r.layers()[l] == layer_code(sampler, l as nat),
    {
        let mut seq: Vec<BitVec> = Vec::new();
        let size = sampler.size();
        let ghost side = size as nat;
        let layers = Self::layer_from_area(size * size);
        proof {
            lemma_log2_below_bits(size);
            if size >= 1 {
                lemma_log4_square(side);
                lemma_log2_bounds(side);
            } else {
                assert(side * side == 0) by (nonlinear_arith) requires side == 0;
            }
            lemma2_to64();
        }
        let mut square = size;
        let mut l: usize = 0;
        while l < layers
            invariant
                sampler.wf(),
                size == sampler.side(),
                side == size,
                size * size <= usize::MAX,
                2 * log2(side) <= usize::BITS,
                log2(side) < usize::BITS,
                layers == log4(side * side) + 1,
                size >= 1 ==> layers == log2(side) + 1 && pow2(log2(side)) <= side,
                size == 0 ==> layers == 1,
                l <= layers,
                square == layer_square(side, l as nat),
                seq@.len() == l,
                forall|j: int| 0 <= j < l ==> #[trigger] seq@[j]@ == layer_code(sampler, j as nat),
            decreases layers - l,
        {
            let ghost sq = square as nat;
            proof {
                lemma2_to64();
                lemma_pow2_pos(l as nat);
                if size >= 1 {
                    lemma_pow2_increases(l as nat, log2(side));
                } else {
                    assert(l == 0);
                }
                vstd::arithmetic::div_mod::lemma_div_is_ordered_by_denominator(side as int, 1, pow2(l as nat) as int);
                lemma_log2_monotone(sq, side);
            }
            let grid_size = one_shl(l);
            assert(grid_size * square <= size) by (nonlinear_arith)
                requires square == size as int / (grid_size as int), grid_size > 0;
            assert(grid_size == 1 || grid_size % 2 == 0) by {
                if l > 0 {
                    vstd::arithmetic::power2::lemma_pow2_unfold(l as nat);
                }
            }
            if size >= 1 {
                assert(grid_size * grid_size <= size * size) by (nonlinear_arith)
                    requires grid_size <= size;
            } else {
                assert(grid_size * grid_size == 1);
            }
            let mut bits = BitVec::new();
            let p = Self::pow_of_two(square);
            let layer_string_length = if (p << 1) > 1 { p << 1 } else { 1 };
            assert(p << 1 == 2 * p) by (bit_vector) requires p < 64;
            assert(layer_string_length == code_len(sq));
            assert(layer_string_length <= usize::BITS);
            let half_value = one_shl(layer_string_length - 1);
            let walker = SpiralWalker::new(grid_size);
            let cells = walker.walk();
            proof { law_spiral_is_bijection(grid_size as nat); }
            let ghost len = layer_string_length as nat;
            let mut k: usize = 0;
            while k < cells.len()
                invariant
                    sampler.wf(),
                    size == sampler.side(),
                    side == size,
                    square == sq,
                    sq == layer_square(side, l as nat),
                    grid_size == pow2(l as nat),
                    grid_size * square <= size,
                    grid_size * grid_size <= usize::MAX,
                    cells@.len() == grid_size * grid_size,
                    forall|kk: int| 0 <= kk < cells@.len() ==> (cells@[kk].0 as int, cells@[kk].1 as int) == #[trigger] spiral(grid_size as nat)[kk],
                    forall|kk: int| 0 <= kk < grid_size * grid_size ==> {
                        let (x, y) = #[trigger] spiral(grid_size as nat)[kk];
                        0 <= x < grid_size && 0 <= y < grid_size
                    },
                    layer_string_length == len,
                    len == code_len(sq),
                    1 <= len <= usize::BITS,
                    half_value == half_code(sq),
                    k <= cells@.len(),
                    bits@.len() == k * len,
                    forall|i: int| 0 <= i < bits@.len() ==> #[trigger] bits@[i] == code_bit(
                        cell_value(sampler, l as nat, i / (len as int)), len, (i % (len as int)) as nat),
                decreases cells@.len() - k,
            {
                let (x, y) = cells[k];
                assert(0 <= x < grid_size && 0 <= y < grid_size) by {
                    let (sx, sy) = spiral(grid_size as nat)[k as int];
                }
                assert((x + 1) * square <= size && (y + 1) * square <= size) by (nonlinear_arith)
                    requires x < grid_size, y < grid_size, grid_size * square <= size;
                assert(x * square <= (x + 1) * square && y * square <= (y + 1) * square) by (nonlinear_arith);
                let mut value = sampler.sample(x * square, y * square, (x + 1) * square, (y + 1) * square);
                if value > half_value {
                    value -= 1;
                }
                assert(value == cell_value(sampler, l as nat, k as int));
                let ghost prefix = bits@;
                let mut t: usize = 0;
                while t < layer_string_length
                    invariant
                        layer_string_length == len,
                        1 <= len <= usize::BITS,
                        t <= len,
                        value == cell_value(sampler, l as nat, k as int),
                        bits@.len() == k * len + t,
                        prefix.len() == k * len,
                        forall|i: int| 0 <= i < prefix.len() ==> bits@[i] == prefix[i],
                        forall|tt: int| 0 <= tt < t ==> #[trigger] bits@[k * len + tt] == code_bit(value as nat, len, tt as nat),
                    decreases len - t,
                {
                    let cursor = layer_string_length - 1 - t;
                    proof {
                        vstd::bits::lemma_usize_shr_is_div(value, cursor);
                    }
                    let shifted = value >> cursor;
                    assert(shifted & 1 == shifted % 2) by (bit_vector);
                    let bit = shifted & 1;
                    bits.push(bit == 1);
                    t += 1;
                }
                proof {
                    assert forall|i: int| 0 <= i < bits@.len() implies #[trigger] bits@[i] == code_bit(
                        cell_value(sampler, l as nat, i / (len as int)), len, (i % (len as int)) as nat) by {
                        if i >= prefix.len() {
                            let tt = i - k * len;
                            vstd::arithmetic::div_mod::lemma_fundamental_div_mod_converse(i, len as int, k as int, tt);
                            assert(bits@[k * len + tt] == code_bit(value as nat, len, tt as nat));
                        } else {
                            assert(bits@[i] == prefix[i]);
                        }
                    }
                    assert((k + 1) * len == k * len + len) by (nonlinear_arith);
                }
                k += 1;
            }
            proof {
                assert(bits@ == layer_code(sampler, l as nat)) by {
                    assert(pow4(l as nat) == grid_size * grid_size) by {
                        lemma_pow2_adds(l as nat, l as nat);
                    }
                }
            }
            seq.push(bits);
            proof {
                lemma_halve(side, l as nat);
            }
            assert(square >> 1 == square / 2) by (bit_vector);
            square >>= 1;
            l += 1;
        }
        let r = ShapeEncoding { seq };
        proof {
            assert forall|j: int| 0 <= j < r.layers().len() implies #[trigger] r.layers()[j] == layer_code(sampler, j as nat) by {
                assert(r.layers()[j] == r.seq@[j]@);
            }
        }
        r
    }
}

} // verus!
