//! Decoding: the finest layer of an encoding, read back into an image.
use vstd::prelude::*;
use vstd::arithmetic::power2::{pow2, lemma2_to64, lemma_pow2_adds, lemma_pow2_pos};
use crate::bit_vec::BitVec;
use crate::image::{BinaryImage, Shape};
use crate::math::{log2, lemma_log2_bounds, lemma_pow2_increases};
use crate::shape::encoding::{ShapeEncoding, ShapeEncodingString};
use crate::shape::text::{hex_text_ok, hex_padded, hex_bits_length_known, hex_text_bits};
use crate::spiral::{spiral, spiral_index, law_spiral_is_bijection, SpiralWalker};

verus! {

/// Side of the image decoded from the first `limit` bits.
pub open spec fn decoded_side(limit: nat) -> nat {
    pow2(log2(limit) / 2)
}

/// Pixel `(x, y)` of the image decoded from the first `limit` bits: the last
/// `side²` of them, laid out along the spiral walk.
pub open spec fn decoded_pixel(bits: Seq<bool>, limit: nat, x: int, y: int) -> bool {
    let side = decoded_side(limit);
    bits[limit - side * side + spiral_index(side, x, y)]
}

/// The decoded side is the largest power of two whose square fits in `limit`.
proof fn lemma_decoded_side(limit: nat)
    requires
        limit >= 1,
    ensures
        decoded_side(limit) >= 1,
        decoded_side(limit) * decoded_side(limit) <= limit,
        decoded_side(limit) == 1 || decoded_side(limit) % 2 == 0,
{
    let e = log2(limit) / 2;
    lemma_log2_bounds(limit);
    lemma_pow2_adds(e, e);
    lemma_pow2_increases(e + e, log2(limit));
    lemma_pow2_pos(e);
    lemma2_to64();
    if e > 0 {
        vstd::arithmetic::power2::lemma_pow2_unfold(e);
    }
}

impl ShapeEncoding {
    /// The image held by the last `side²` of the first `limit` bits, where
    /// `side` is the largest power of two whose square fits in `limit`.
    pub fn bits_to_binary_image_with_limit(bits: &BitVec, limit: usize) -> (r: BinaryImage)
        requires
            1 <= limit <= bits@.len(),
        ensures
            r.wf(),
            r.width == decoded_side(limit as nat),
            r.height == decoded_side(limit as nat),
            forall|x: int, y: int| 0 <= x < r.width && 0 <= y < r.height ==>
                #[trigger] r.pixel(x, y) == decoded_pixel(bits@, limit as nat, x, y),
    {
        proof { lemma_decoded_side(limit as nat); }
        let size = Self::size_from_length(limit);
        let area = size * size;
        let mut image = BinaryImage::new_w_h(size, size);
        let offset = limit - area;
        let cells = SpiralWalker::new(size).walk();
        proof { law_spiral_is_bijection(size as nat); }
        let ghost n = size as nat;
        assert forall|x: int, y: int| 0 <= x < size && 0 <= y < size implies !#[trigger] image.pixel(x, y) by {
            assert(y * size + x < size * size) by (nonlinear_arith) requires 0 <= x < size, 0 <= y < size;
        }
        let mut i: usize = 0;
        while i < cells.len()
            invariant
                n == size,
                size * size == area,
                area <= limit <= bits@.len(),
                offset == limit - area,
                image.wf(),
                image.width == size,
                image.height == size,
                cells@.len() == area,
                forall|kk: int| 0 <= kk < cells@.len() ==> (cells@[kk].0 as int, cells@[kk].1 as int) == #[trigger] spiral(n)[kk],
                forall|k: int| 0 <= k < n * n ==> {
                    let (x, y) = #[trigger] spiral(n)[k];
                    &&& 0 <= x < n
                    &&& 0 <= y < n
                    &&& spiral_index(n, x, y) == k
                },
                forall|x: int, y: int| 0 <= x < n && 0 <= y < n ==> {
                    let k = #[trigger] spiral_index(n, x, y);
                    &&& 0 <= k < n * n
                    &&& spiral(n)[k] == (x, y)
                },
                i <= cells@.len(),
                forall|x: int, y: int| 0 <= x < size && 0 <= y < size ==>
                    #[trigger] image.pixel(x, y) == (spiral_index(n, x, y) < i && bits@[offset + spiral_index(n, x, y)]),
            decreases cells@.len() - i,
        {
            let (x, y) = cells[i];
            assert(spiral(n)[i as int] == (x as int, y as int));
            assert(y * size + x < size * size) by (nonlinear_arith) requires x < size, y < size;
            let v = bits.get(i + offset);
            let ghost before = image;
            image.set_pixel(x, y, v);
            proof {
                assert forall|xx: int, yy: int| 0 <= xx < size && 0 <= yy < size implies
                    #[trigger] image.pixel(xx, yy) == (spiral_index(n, xx, yy) < i + 1 && bits@[offset + spiral_index(n, xx, yy)]) by {
                    let k = spiral_index(n, xx, yy);
                    if xx == x && yy == y {
                    } else {
                        assert(yy * size + xx != y * size + x) by (nonlinear_arith)
                            requires !(yy == y && xx == x), 0 <= xx < size, 0 <= x < size, 0 <= yy, 0 <= y;
                        assert(yy * size + xx < size * size) by (nonlinear_arith) requires 0 <= xx < size, 0 <= yy < size;
                        assert(image.pixel(xx, yy) == before.pixel(xx, yy));
                        assert(k != i);
                    }
                }
            }
            i += 1;
        }
        image
    }

    /// The image held by all the bits.
    pub fn bits_to_binary_image(bits: &BitVec) -> (r: BinaryImage)
        requires
            1 <= bits@.len(),
        ensures
            r.wf(),
            r.width == decoded_side(bits@.len()),
            r.height == decoded_side(bits@.len()),
            forall|x: int, y: int| 0 <= x < r.width && 0 <= y < r.height ==>
                #[trigger] r.pixel(x, y) == decoded_pixel(bits@, bits@.len(), x, y),
    {
        Self::bits_to_binary_image_with_limit(bits, bits.len())
    }

    /// Decodes a hexadecimal encoding into a shape.
    pub fn decode_from(shape_string: &ShapeEncodingString) -> (r: Shape)
        requires
            shape_string is Hex,
            shape_string.text_ok(),
        ensures
            ({
                let b = shape_string.decoded();
                &&& r.image.wf()
                &&& r.image.width == decoded_side(b.len())
                &&& r.image.height == decoded_side(b.len())
                &&& forall|x: int, y: int| 0 <= x < r.image.width && 0 <= y < r.image.height ==>
                        #[trigger] r.image.pixel(x, y) == decoded_pixel(b, b.len(), x, y)
            }),
    {
        match shape_string {
            ShapeEncodingString::Hex(hexstring) => {
                let bits = ShapeEncoding::hexstring_to_bits(hexstring.as_str());
                proof {
                    crate::shape::text::lemma_hex_text_bits_nonempty(hexstring@);
                }
                Shape { image: Self::bits_to_binary_image(&bits) }
            },
            _ => {
                assert(false);
                Shape { image: BinaryImage::new_w_h(0, 0) }
            },
        }
    }
}

/// Truncation: decoding with a limit reads only the first `limit` bits. Two
/// streams that agree there decode alike, and the result is what decoding the
/// stream cut to its first `limit` bits gives.
pub proof fn law_limited_decode_reads_prefix(bits: Seq<bool>, other: Seq<bool>, limit: nat)
    requires
        1 <= limit <= bits.len(),
        limit <= other.len(),
        bits.take(limit as int) == other.take(limit as int),
    ensures
        forall|x: int, y: int| 0 <= x < decoded_side(limit) && 0 <= y < decoded_side(limit) ==> {
            &&& #[trigger] decoded_pixel(bits, limit, x, y) == decoded_pixel(other, limit, x, y)
            &&& decoded_pixel(bits, limit, x, y) == decoded_pixel(bits.take(limit as int), bits.take(limit as int).len(), x, y)
        },
{
    lemma_decoded_side(limit);
    let n = decoded_side(limit);
    law_spiral_is_bijection(n);
    let cut = bits.take(limit as int);
    assert(cut.len() == limit);
    assert forall|x: int, y: int| 0 <= x < n && 0 <= y < n implies {
        &&& #[trigger] decoded_pixel(bits, limit, x, y) == decoded_pixel(other, limit, x, y)
        &&& decoded_pixel(bits, limit, x, y) == decoded_pixel(cut, cut.len(), x, y)
    } by {
        let j = limit - n * n + spiral_index(n, x, y);
        assert(0 <= j < limit);
        assert(bits[j] == bits.take(limit as int)[j]);
        assert(other[j] == other.take(limit as int)[j]);
    }
}

} // verus!
