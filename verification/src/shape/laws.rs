//! Properties of the encoding as a whole: its length, and that decoding the
//! hexadecimal encoding of a square image gives the image back.
use vstd::prelude::*;
use vstd::arithmetic::power2::{pow2, lemma2_to64, lemma_pow2_adds, lemma_pow2_pos, lemma_pow2_subtracts};
use crate::math::{log2, log4, pow4, lemma_log2_pow2, lemma_log4_pow4, lemma_log2_unique, lemma_pow2_increases};
use crate::shape::bitstream::{bits_upto, encoding_bits, level_bits, level_layer, level_offset, layer_column};
use crate::image::BinaryImage;
use crate::sampler::{BinaryImageSampler, Sampler, binary_rect_count, binary_row_count, source_coord};
use crate::shape::decode::{decoded_side, decoded_pixel};
use crate::shape::encode::{code_len, layer_code, layer_square, cell_value, code_bit, adjusted, half_code, encoder_side, next_pow4};
use crate::spiral::{spiral, spiral_index, law_spiral_is_bijection};
use crate::shape::layout::encoding_length;
use crate::shape::text::{bit_text, bit_text_ok, bit_text_bits, hex_text, hex_keep, hex_text_ok, hex_padded, hex_bits_length_known, hex_bits_length,
    hex_text_bits, hex_raw_bits, hex_is_single_bit, hex_digits, nibble_of, nibble_value, nibble_bit, padded_bit,
    byte_count, is_hex_char};

verus! {

/// Whether `layers` has the shape of an encoding of a `2^p × 2^p` square:
/// `p + 1` layers, layer `l` holding `4^l` codes of `code_len(2^(p-l))` bits.
pub open spec fn well_shaped(layers: Seq<Seq<bool>>, p: nat) -> bool {
    &&& layers.len() == p + 1
    &&& forall|l: int| 0 <= l <= p ==> (#[trigger] layers[l]).len() == pow4(l as nat) * code_len(pow2((p - l) as nat))
}

/// Bits emitted at levels `1 .. k` by any encoding with more than `k / 2 + 1` layers.
spec fn prefix_len(k: nat) -> nat
    decreases k,
{
    if k == 0 {
        0
    } else {
        prefix_len((k - 1) as nat) + pow4(if k == 1 { 0 } else { k / 2 })
    }
}

proof fn lemma_code_len_pow2(q: nat)
    ensures
        code_len(pow2(q)) == if q >= 1 { 2 * q } else { 1 },
{
    lemma_log2_pow2(q);
}

proof fn lemma_pow4_pos(l: nat)
    ensures
        pow4(l) >= 1,
{
    lemma_pow2_pos(2 * l);
}

proof fn lemma_level_len(layers: Seq<Seq<bool>>, p: nat, k: nat)
    requires
        well_shaped(layers, p),
        p >= 1,
        1 <= k <= 2 * p,
    ensures
        level_bits(layers, k).len() == pow4(level_layer(p + 1, k)),
{
    let i = level_layer(p + 1, k);
    let off = level_offset(p + 1, k);
    lemma_pow4_pos(i);
    lemma_code_len_pow2((p - i) as nat);
    let cells = pow4(i);
    let c = code_len(pow2((p - i) as nat));
    assert(layers[i as int].len() == cells * c);
    assert((cells * c) / cells == c) by (nonlinear_arith) requires cells >= 1;
    assert(off < c);
}

proof fn lemma_bits_upto_len(layers: Seq<Seq<bool>>, p: nat, k: nat)
    requires
        well_shaped(layers, p),
        p >= 1,
        k < 2 * p,
    ensures
        bits_upto(layers, k).len() == prefix_len(k),
    decreases k,
{
    if k > 0 {
        lemma_bits_upto_len(layers, p, (k - 1) as nat);
        lemma_level_len(layers, p, k);
    }
}

proof fn lemma_prefix_len_closed(q: nat)
    requires
        q >= 1,
    ensures
        prefix_len((2 * q - 1) as nat) + pow4(q) == encoding_length(pow4(q)),
    decreases q,
{
    lemma2_to64();
    lemma_pow2_adds(2 * (q - 1) as nat, 2);
    if q == 1 {
        assert(pow4(1) == 4);
        assert(prefix_len(1) == 1) by { reveal_with_fuel(prefix_len, 2); }
    } else {
        lemma_prefix_len_closed((q - 1) as nat);
        let a = pow4((q - 1) as nat);
        lemma_pow4_pos((q - 1) as nat);
        assert(pow4(q) == 4 * a);
        assert(prefix_len((2 * q - 1) as nat) == prefix_len((2 * q - 3) as nat) + a + a) by {
            reveal_with_fuel(prefix_len, 3);
            assert(((2 * q - 2) as nat) / 2 == q - 1);
            assert(((2 * q - 1) as nat) / 2 == q - 1);
        }
        lemma_pow2_increases(2, 2 * (q - 1) as nat);
        assert(a >= 4);
        assert(pow4(q) / 4 == a);
        assert(encoding_length(pow4(q)) == pow4(q) + a + encoding_length(a));
    }
}

/// The encoding of a `2^p × 2^p` square has `encoding_length(4^p)` bits, and
/// its last `4^p` bits are the finest layer, one bit per pixel.
pub proof fn law_bits_length(layers: Seq<Seq<bool>>, p: nat)
    requires
        well_shaped(layers, p),
    ensures
        encoding_bits(layers).len() == encoding_length(pow4(p)),
        forall|j: int| 0 <= j < pow4(p) ==>
            #[trigger] encoding_bits(layers)[encoding_length(pow4(p)) - pow4(p) + j] == layers[p as int][j],
{
    lemma2_to64();
    if p == 0 {
        assert(pow4(0) == 1);
        lemma_code_len_pow2(0);
        assert(layers[0].len() == 1);
    } else {
        let k = (2 * p - 1) as nat;
        lemma_bits_upto_len(layers, p, k);
        lemma_prefix_len_closed(p);
        lemma_level_len(layers, p, 2 * p);
        lemma_pow4_pos(p);
        lemma_code_len_pow2(0);
        let last = level_bits(layers, 2 * p);
        assert(layers[p as int].len() == pow4(p));
        assert(last == layers[p as int]) by {
            assert(pow4(p) / pow4(p) == 1) by (nonlinear_arith) requires pow4(p) >= 1;
        }
        assert(encoding_bits(layers) == bits_upto(layers, k) + last);
    }
}

/// The length of an encoding is below twice the area: `encoding_length(4^p) < 2·4^p`.
pub proof fn law_length_below_twice_area(p: nat)
    ensures
        pow4(p) <= encoding_length(pow4(p)) < 2 * pow4(p),
    decreases p,
{
    lemma2_to64();
    if p == 0 {
        assert(pow4(0) == 1);
    } else {
        law_length_below_twice_area((p - 1) as nat);
        lemma_pow2_adds(2 * (p - 1) as nat, 2);
        lemma_pow4_pos((p - 1) as nat);
        let a = pow4((p - 1) as nat);
        assert(pow4(p) == 4 * a);
        assert(pow4(p) / 4 == a);
    }
}

/// The area is recovered from the encoding length: the greatest power of two
/// not above `encoding_length(4^p)` is `4^p`.
pub proof fn law_area_from_length(p: nat)
    ensures
        pow2(log2(encoding_length(pow4(p)))) == pow4(p),
        log2(encoding_length(pow4(p))) == 2 * p,
{
    law_length_below_twice_area(p);
    vstd::arithmetic::power2::lemma_pow2_unfold(2 * p + 1);
    lemma_log2_unique(encoding_length(pow4(p)), 2 * p);
}

/// Writing bits as binary digits and reading them back gives the bits back.
pub proof fn law_bit_text_roundtrip(b: Seq<bool>)
    ensures
        bit_text_ok(bit_text(b)),
        bit_text_bits(bit_text(b)) == b,
{
    assert(bit_text_bits(bit_text(b)) == b);
}

/// Encoding lengths of the squares of side 1 to 256.
proof fn lemma_encoding_lengths(p: nat)
    requires
        p <= 8,
    ensures
        ({
            let len = encoding_length(pow4(p));
            ||| p == 0 && len == 1
            ||| p == 1 && len == 5
            ||| p == 2 && len == 25
            ||| p == 3 && len == 105
            ||| p == 4 && len == 425
            ||| p == 5 && len == 1705
            ||| p == 6 && len == 6825
            ||| p == 7 && len == 27305
            ||| p == 8 && len == 109225
        }),
{
    lemma2_to64();
    reveal_with_fuel(encoding_length, 10);
}

proof fn lemma_hex_digit_value(v: nat)
    requires
        v < 16,
    ensures
        is_hex_char(hex_digits()[v as int]),
        nibble_value(hex_digits()[v as int]) == v,
{
}

proof fn lemma_nibble_bits(b: Seq<bool>, q: int, t: nat)
    requires
        t < 4,
    ensures
        nibble_bit(nibble_of(b, q), t) == padded_bit(b, 4 * q + t),
{
}

/// Writing bits as `hexstring` does and reading them back with
/// `hexstring_to_bits` gives the bits back, for encodings of squares of side
/// 1 to 256.
pub proof fn law_hex_roundtrip(b: Seq<bool>, p: nat)
    requires
        p <= 8,
        b.len() == encoding_length(pow4(p)),
    ensures
        ({
            let text = hex_text(b).take(hex_keep(b.len()) as int);
            &&& hex_text_ok(text)
            &&& hex_bits_length_known(4 * hex_padded(text).len())
            &&& hex_text_bits(text) == b
        }),
{
    lemma_encoding_lengths(p);
    let len = b.len();
    let nb = byte_count(len);
    let full = hex_text(b);
    let keep = hex_keep(len);
    let text = full.take(keep as int);
    assert(full.len() == 2 * nb);
    assert forall|q: int| 0 <= q < full.len() implies is_hex_char(#[trigger] full[q]) && nibble_value(full[q]) == nibble_of(b, q) by {
        lemma_hex_digit_value(nibble_of(b, q));
    }
    let padded = hex_padded(text);
    if len % 8 == 1 {
        assert(keep == 2 * nb - 1);
        assert(nibble_of(b, 2 * nb - 1) == 0);
        assert(full[2 * nb - 1] == '0');
        assert(padded == full);
    } else {
        assert(len == 5);
        assert(keep == 2 * nb);
        assert(padded == full);
    }
    assert(hex_text_ok(text));
    let raw = hex_raw_bits(text);
    assert(raw.len() == 8 * nb);
    assert forall|i: int| 0 <= i < raw.len() implies #[trigger] raw[i] == padded_bit(b, i) by {
        lemma_nibble_bits(b, i / 4, (i % 4) as nat);
    }
    if len == 1 {
        assert(text.len() == 1);
        assert(hex_is_single_bit(text)) by {
            assert(nibble_value(text[0]) == nibble_of(b, 0));
        }
        assert(hex_text_bits(text) == raw.take(1));
    } else if len == 5 {
        assert(text.len() == 2);
        assert(!hex_is_single_bit(text));
        assert(hex_bits_length(raw.len()) == 5);
    } else {
        assert(!hex_is_single_bit(text));
        assert(hex_bits_length(raw.len()) == len);
    }
    assert(hex_text_bits(text) == b);
}

/// The finest layer of the encoding of a `2^p × 2^p` image holds its pixels
/// in spiral order.
proof fn lemma_finest_layer(img: BinaryImage, p: nat)
    requires
        img.wf(),
        img.width == pow2(p),
        img.height == pow2(p),
    ensures
        ({
            let n = pow2(p);
            let sampler = BinaryImageSampler { image: &img, size: n as usize };
            &&& layer_code(&sampler, p).len() == pow4(p)
            &&& forall|j: int| 0 <= j < pow4(p) ==>
                    #[trigger] layer_code(&sampler, p)[j] == img.pixel(spiral(n)[j].0, spiral(n)[j].1)
        }),
{
    let n = pow2(p);
    let sampler = BinaryImageSampler { image: &img, size: n as usize };
    lemma_pow2_pos(p);
    lemma2_to64();
    lemma_pow2_adds(p, p);
    assert(sampler.side() == n);
    assert(layer_square(n, p) == 1) by {
        vstd::arithmetic::div_mod::lemma_div_by_self(n as int);
    }
    assert(code_len(1) == 1) by { lemma_log2_pow2(0); }
    assert(half_code(1) == 1);
    if p > 0 {
        vstd::arithmetic::power2::lemma_pow2_unfold(p);
    }
    law_spiral_is_bijection(n);
    assert forall|j: int| 0 <= j < pow4(p) implies
        #[trigger] layer_code(&sampler, p)[j] == img.pixel(spiral(n)[j].0, spiral(n)[j].1) by {
        let (x, y) = spiral(n)[j];
        assert(0 <= x < n && 0 <= y < n);
        vstd::arithmetic::div_mod::lemma_div_by_multiple(x, n as int);
        vstd::arithmetic::div_mod::lemma_div_by_multiple(y, n as int);
        assert(source_coord(x, n as int, n as int) == x);
        assert(source_coord(y, n as int, n as int) == y);
        let v = sampler.occupancy(x, y, x + 1, y + 1);
        reveal_with_fuel(binary_rect_count, 2);
        reveal_with_fuel(binary_row_count, 2);
        assert(v == binary_rect_count(img, n, x, y, x + 1, y + 1));
        assert(v == binary_row_count(img, n, y, x, x + 1));
        assert(v == if img.pixel(x, y) { 1nat } else { 0nat });
        assert(cell_value(&sampler, p, j) == v) by {
            assert(x * 1 == x && y * 1 == y && (x + 1) * 1 == x + 1 && (y + 1) * 1 == y + 1);
        }
        assert(j / 1 == j && j % 1 == 0);
        assert(code_bit(v, 1, 0) == (v % 2 == 1));
    }
}

/// Lossless encode–decode roundtrip: decoding the hexadecimal encoding of a
/// square binary image of side `2^p` (1 to 256) gives the image back.
pub proof fn law_encode_decode_roundtrip(img: BinaryImage, p: nat)
    requires
        img.wf(),
        img.width == pow2(p),
        img.height == pow2(p),
        p <= 8,
    ensures
        ({
            let es = encoder_side(img.width as nat, img.height as nat);
            let sampler = BinaryImageSampler { image: &img, size: es as usize };
            let b = encoding_bits(Seq::new(log4(es * es) + 1, |l: int| layer_code(&sampler, l as nat)));
            let text = hex_text(b).take(hex_keep(b.len()) as int);
            let d = hex_text_bits(text);
            &&& es == img.width
            &&& hex_text_ok(text)
            &&& hex_bits_length_known(4 * hex_padded(text).len())
            &&& decoded_side(d.len()) == img.width
            &&& decoded_side(d.len()) == img.height
            &&& forall|x: int, y: int| 0 <= x < img.width && 0 <= y < img.height ==>
                    #[trigger] decoded_pixel(d, d.len(), x, y) == img.pixel(x, y)
        }),
{
    let n = pow2(p);
    lemma2_to64();
    lemma_pow2_adds(p, p);
    lemma_log4_pow4(p);
    assert(n * n == pow4(p));
    assert(next_pow4(n * n) == p);
    let es = encoder_side(img.width as nat, img.height as nat);
    assert(es == n);
    lemma_pow2_increases(p, 8);
    let sampler = BinaryImageSampler { image: &img, size: es as usize };
    assert(sampler.side() == n);
    let layers = Seq::new(log4(es * es) + 1, |l: int| layer_code(&sampler, l as nat));
    assert(layers.len() == p + 1);
    assert forall|l: int| 0 <= l <= p implies (#[trigger] layers[l]).len() == pow4(l as nat) * code_len(pow2((p - l) as nat)) by {
        lemma_pow2_pos(l as nat);
        lemma_pow2_subtracts(l as nat, p);
        assert(layer_square(n, l as nat) == pow2((p - l) as nat));
    }
    assert(well_shaped(layers, p));
    law_bits_length(layers, p);
    lemma_finest_layer(img, p);
    law_spiral_is_bijection(n);
    let b = encoding_bits(layers);
    let len = encoding_length(pow4(p));
    assert forall|j: int| 0 <= j < pow4(p) implies #[trigger] b[len - pow4(p) + j] == img.pixel(spiral(n)[j].0, spiral(n)[j].1) by {
        assert(layers[p as int] == layer_code(&sampler, p));
    }
    law_hex_roundtrip(b, p);
    law_area_from_length(p);
    assert(decoded_side(len) == n);
    assert forall|x: int, y: int| 0 <= x < img.width && 0 <= y < img.height implies
        #[trigger] decoded_pixel(hex_text_bits(hex_text(b).take(hex_keep(b.len()) as int)), len, x, y) == img.pixel(x, y) by {
        let k = spiral_index(n, x, y);
        assert(b[len - pow4(p) + k] == img.pixel(spiral(n)[k].0, spiral(n)[k].1));
    }
}

} // verus!
