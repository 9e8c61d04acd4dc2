//! Properties of the samplers under the encoding: a colour image made from a
//! binary image encodes like it, and an image upscaled 2× keeps its encoding
//! as a prefix.
use vstd::prelude::*;
use vstd::arithmetic::power2::{pow2, lemma2_to64, lemma_pow2_adds, lemma_pow2_pos, lemma_pow2_subtracts};
use crate::image::{BinaryImage, ColorImage};
use crate::math::{log2, log4, pow4, lemma_log2_pow2, lemma_pow2_increases};
use crate::sampler::{BinaryImageSampler, GrayscaleSampler, Sampler, binary_rect_count, binary_row_count,
    gray_rect_sum, gray_row_sum, source_coord};
use crate::shape::encode::{encoder_side, lemma_encoder_side_pow2, layer_code, layer_square, cell_value, code_len, code_bit, adjusted, half_code};
use crate::shape::bitstream::{bits_upto, encoding_bits, level_bits, level_layer, level_offset, layer_column};
use crate::spiral::{spiral, law_spiral_is_bijection};

verus! {

proof fn lemma_source_in_range(x: int, extent: int, side: int)
    requires
        0 <= x < side,
        extent >= 1,
    ensures
        0 <= source_coord(x, extent, side) < extent,
{
    assert(0 <= x * extent / side < extent) by (nonlinear_arith)
        requires 0 <= x < side, extent >= 1;
}

proof fn lemma_gray_row(img: BinaryImage, color: ColorImage, side: nat, y: int, left: int, right: int)
    requires
        color.width == img.width,
        color.height == img.height,
        forall|x: int, yy: int| 0 <= x < img.width && 0 <= yy < img.height ==>
            (#[trigger] color.color(x, yy)).r == if img.pixel(x, yy) { 0u8 } else { 255u8 },
        0 <= y < side,
        0 <= left <= right <= side,
    ensures
        gray_row_sum(color, side, y, left, right) == 255 * binary_row_count(img, side, y, left, right),
    decreases right - left,
{
    if left < right {
        lemma_gray_row(img, color, side, y, left, right - 1);
        if img.width > 0 && img.height > 0 {
            lemma_source_in_range(right - 1, img.width as int, side as int);
            lemma_source_in_range(y, img.height as int, side as int);
        }
    }
}

proof fn lemma_gray_rect(img: BinaryImage, color: ColorImage, side: nat, left: int, top: int, right: int, bottom: int)
    requires
        color.width == img.width,
        color.height == img.height,
        forall|x: int, yy: int| 0 <= x < img.width && 0 <= yy < img.height ==>
            (#[trigger] color.color(x, yy)).r == if img.pixel(x, yy) { 0u8 } else { 255u8 },
        0 <= left <= right <= side,
        0 <= top <= bottom <= side,
    ensures
        gray_rect_sum(color, side, left, top, right, bottom) == 255 * binary_rect_count(img, side, left, top, right, bottom),
    decreases bottom - top,
{
    if top < bottom {
        lemma_gray_rect(img, color, side, left, top, right, bottom - 1);
        lemma_gray_row(img, color, side, bottom - 1, left, right);
    }
}

/// Cell rectangles of layer `l` lie inside the sampled square.
proof fn lemma_cell_in_square(side: nat, l: nat, k: int)
    requires
        0 <= k < pow4(l),
    ensures
        ({
            let sq = layer_square(side, l) as int;
            let (x, y) = spiral(pow2(l))[k];
            &&& 0 <= x * sq <= (x + 1) * sq <= side
            &&& 0 <= y * sq <= (y + 1) * sq <= side
        }),
{
    let g = pow2(l);
    lemma_pow2_pos(l);
    lemma_pow2_adds(l, l);
    lemma2_to64();
    if l > 0 {
        vstd::arithmetic::power2::lemma_pow2_unfold(l);
    }
    law_spiral_is_bijection(g);
    let sq = layer_square(side, l) as int;
    let (x, y) = spiral(g)[k];
    assert(0 <= x < g && 0 <= y < g);
    assert(g * sq <= side) by (nonlinear_arith) requires sq == side as int / (g as int), g > 0;
    assert(0 <= x * sq <= (x + 1) * sq <= side) by (nonlinear_arith) requires 0 <= x < g, g * sq <= side, sq >= 0;
    assert(0 <= y * sq <= (y + 1) * sq <= side) by (nonlinear_arith) requires 0 <= y < g, g * sq <= side, sq >= 0;
}

/// A colour image that is black where a binary image is set and white
/// elsewhere (as `to_color_image` makes it) encodes exactly like the binary
/// image: every layer is bit-identical.
pub proof fn law_grayscale_matches_binary(img: BinaryImage, color: ColorImage, size: usize, l: nat)
    requires
        color.width == img.width,
        color.height == img.height,
        forall|x: int, y: int| 0 <= x < img.width && 0 <= y < img.height ==>
            (#[trigger] color.color(x, y)).r == if img.pixel(x, y) { 0u8 } else { 255u8 },
    ensures
        layer_code(&(GrayscaleSampler { image: &color, size: size }), l)
            == layer_code(&(BinaryImageSampler { image: &img, size: size }), l),
{
    let gs = GrayscaleSampler { image: &color, size: size };
    let bs = BinaryImageSampler { image: &img, size: size };
    assert forall|k: int| 0 <= k < pow4(l) implies #[trigger] cell_value(&gs, l, k) == cell_value(&bs, l, k) by {
        lemma_cell_in_square(size as nat, l, k);
        let sq = layer_square(size as nat, l) as int;
        let (x, y) = spiral(pow2(l))[k];
        lemma_gray_rect(img, color, size as nat, x * sq, y * sq, (x + 1) * sq, (y + 1) * sq);
        let c = binary_rect_count(img, size as nat, x * sq, y * sq, (x + 1) * sq, (y + 1) * sq);
        assert((255 * c) / 255 == c) by (nonlinear_arith);
    }
    let len = code_len(layer_square(size as nat, l));
    let a = layer_code(&gs, l);
    let b = layer_code(&bs, l);
    assert forall|i: int| 0 <= i < a.len() implies a[i] == b[i] by {
        assert(0 <= i / (len as int) < pow4(l)) by (nonlinear_arith)
            requires 0 <= i < pow4(l) * len, len >= 1;
    }
    assert(a == b);
}

/// Whether `up` is `img` scaled up 2×: every pixel becomes a 2×2 block.
pub open spec fn is_upscale(up: BinaryImage, img: BinaryImage) -> bool {
    &&& up.width == 2 * img.width
    &&& up.height == 2 * img.height
    &&& forall|x: int, y: int| 0 <= x < up.width && 0 <= y < up.height ==>
            #[trigger] up.pixel(x, y) == img.pixel(x / 2, y / 2)
}

proof fn lemma_identity_source(x: int, n: int)
    requires
        n >= 1,
        0 <= x,
    ensures
        source_coord(x, n, n) == x,
{
    vstd::arithmetic::div_mod::lemma_div_by_multiple(x, n);
}

proof fn lemma_upscale_row(img: BinaryImage, up: BinaryImage, n: nat, y: int, a: int, c: int)
    requires
        n >= 1,
        img.width == n,
        img.height == n,
        is_upscale(up, img),
        0 <= y < 2 * n,
        0 <= a <= c <= n,
    ensures
        binary_row_count(up, 2 * n, y, 2 * a, 2 * c) == 2 * binary_row_count(img, n, y / 2, a, c),
    decreases c - a,
{
    if a < c {
        lemma_upscale_row(img, up, n, y, a, c - 1);
        lemma_identity_source(2 * c - 1, 2 * n as int);
        lemma_identity_source(2 * c - 2, 2 * n as int);
        lemma_identity_source(y, 2 * n as int);
        lemma_identity_source(c - 1, n as int);
        lemma_identity_source(y / 2, n as int);
        assert(binary_row_count(up, 2 * n, y, 2 * a, 2 * c)
            == binary_row_count(up, 2 * n, y, 2 * a, 2 * c - 1)
                + if up.pixel(2 * c - 1, y) { 1nat } else { 0nat });
        assert(binary_row_count(up, 2 * n, y, 2 * a, 2 * c - 1)
            == binary_row_count(up, 2 * n, y, 2 * a, 2 * c - 2)
                + if up.pixel(2 * c - 2, y) { 1nat } else { 0nat });
        assert(up.pixel(2 * c - 1, y) == img.pixel(c - 1, y / 2));
        assert(up.pixel(2 * c - 2, y) == img.pixel(c - 1, y / 2));
    }
}

proof fn lemma_upscale_rect(img: BinaryImage, up: BinaryImage, n: nat, a: int, b: int, c: int, d: int)
    requires
        n >= 1,
        img.width == n,
        img.height == n,
        is_upscale(up, img),
        0 <= a <= c <= n,
        0 <= b <= d <= n,
    ensures
        binary_rect_count(up, 2 * n, 2 * a, 2 * b, 2 * c, 2 * d) == 4 * binary_rect_count(img, n, a, b, c, d),
    decreases d - b,
{
    if b < d {
        lemma_upscale_rect(img, up, n, a, b, c, d - 1);
        lemma_upscale_row(img, up, n, 2 * d - 1, a, c);
        lemma_upscale_row(img, up, n, 2 * d - 2, a, c);
        assert((2 * d - 1) / 2 == d - 1 && (2 * d - 2) / 2 == d - 1);
        assert(binary_rect_count(up, 2 * n, 2 * a, 2 * b, 2 * c, 2 * d)
            == binary_rect_count(up, 2 * n, 2 * a, 2 * b, 2 * c, 2 * d - 1) + binary_row_count(up, 2 * n, 2 * d - 1, 2 * a, 2 * c));
        assert(binary_rect_count(up, 2 * n, 2 * a, 2 * b, 2 * c, 2 * d - 1)
            == binary_rect_count(up, 2 * n, 2 * a, 2 * b, 2 * c, 2 * d - 2) + binary_row_count(up, 2 * n, 2 * d - 2, 2 * a, 2 * c));
    }
}

proof fn lemma_rect_count_bound(img: BinaryImage, n: nat, a: int, b: int, c: int, d: int)
    requires
        a <= c,
        b <= d,
    ensures
        binary_rect_count(img, n, a, b, c, d) <= (c - a) * (d - b),
    decreases d - b,
{
    if b < d {
        lemma_rect_count_bound(img, n, a, b, c, d - 1);
        lemma_row_count_bound(img, n, d - 1, a, c);
        assert((c - a) * (d - 1 - b) + (c - a) == (c - a) * (d - b)) by (nonlinear_arith);
    }
}

proof fn lemma_row_count_bound(img: BinaryImage, n: nat, y: int, a: int, c: int)
    requires
        a <= c,
    ensures
        binary_row_count(img, n, y, a, c) <= c - a,
    decreases c - a,
{
    if a < c {
        lemma_row_count_bound(img, n, y, a, c - 1);
    }
}

/// Occupancy codes of an upscaled cell begin with the code of the cell before scaling.
proof fn lemma_upscale_code(v: nat, sq: nat, t: nat)
    requires
        sq >= 1,
        sq == 1 ==> v <= 1,
        t < code_len(sq),
    ensures
        code_bit(adjusted(4 * v, half_code(2 * sq)), code_len(2 * sq), t)
            == code_bit(adjusted(v, half_code(sq)), code_len(sq), t),
{
    lemma2_to64();
    crate::math::lemma_log2_bounds(sq);
    let q = log2(sq);
    vstd::arithmetic::power2::lemma_pow2_unfold(q + 1);
    vstd::arithmetic::power2::lemma_pow2_unfold(q + 2);
    crate::math::lemma_log2_unique(2 * sq, q + 1);
    if q == 0 {
        assert(sq == 1);
        assert(code_len(1) == 1 && code_len(2) == 2);
        assert(t == 0);
        assert(half_code(2) == 2);
        assert(half_code(1) == 1);
        assert(adjusted(v, 1) == v);
        if v == 1 {
            assert(adjusted(4 * v, 2) == 3);
        } else {
            assert(adjusted(4 * v, 2) == 0);
        }
    } else {
        let len = code_len(sq);
        assert(len == 2 * q);
        assert(code_len(2 * sq) == len + 2);
        let h = half_code(sq);
        lemma_pow2_adds((len - 1) as nat, 2);
        assert(half_code(2 * sq) == 4 * h);
        let au = adjusted(4 * v, 4 * h);
        let ai = adjusted(v, h);
        lemma_pow2_pos((len - 1) as nat);
        assert(au / 4 == ai);
        let m = (len - 1 - t) as nat;
        lemma_pow2_adds(m, 2);
        lemma_pow2_pos(m);
        assert(((len + 2) - 1 - t) as nat == m + 2);
        vstd::arithmetic::div_mod::lemma_div_denominator(au as int, 4, pow2(m) as int);
        assert(pow2(m + 2) == 4 * pow2(m));
        assert(au / (4 * pow2(m)) == ai / pow2(m));
        assert(code_bit(au, len + 2, t) == ((au / pow2(m + 2)) % 2 == 1));
    }
}

/// Scale invariance: the encoding of a `2^p × 2^p` image, at the side and
/// with the layers that the encoder picks for it, is a prefix of the encoding
/// of the same image scaled up 2× (each pixel a 2×2 block).
pub proof fn law_upscale_keeps_prefix(img: BinaryImage, up: BinaryImage, p: nat)
    requires
        img.width == pow2(p),
        img.height == pow2(p),
        is_upscale(up, img),
    ensures
        ({
            let es = encoder_side(img.width as nat, img.height as nat);
            let eu = encoder_side(up.width as nat, up.height as nat);
            let small = BinaryImageSampler { image: &img, size: es as usize };
            let large = BinaryImageSampler { image: &up, size: eu as usize };
            let bi = encoding_bits(Seq::new(log4(es * es) + 1, |l: int| layer_code(&small, l as nat)));
            let bu = encoding_bits(Seq::new(log4(eu * eu) + 1, |l: int| layer_code(&large, l as nat)));
            &&& es == img.width
            &&& eu == up.width
            &&& bi.len() <= bu.len()
            &&& bu.take(bi.len() as int) == bi
        }),
{
    lemma_encoder_side_pow2(p);
    lemma_encoder_side_pow2(p + 1);
    vstd::arithmetic::power2::lemma_pow2_unfold(p + 1);
    lemma_upscale_prefix(img, up, p);
    let es = encoder_side(img.width as nat, img.height as nat);
    let eu = encoder_side(up.width as nat, up.height as nat);
    assert(es == img.width);
    assert(eu == up.width);
    let small = BinaryImageSampler { image: &img, size: es as usize };
    let large = BinaryImageSampler { image: &up, size: eu as usize };
    assert(Seq::new(log4(es * es) + 1, |l: int| layer_code(&small, l as nat))
        =~= Seq::new(p + 1, |l: int| layer_code(&(BinaryImageSampler { image: &img, size: img.width }), l as nat)));
    assert(Seq::new(log4(eu * eu) + 1, |l: int| layer_code(&large, l as nat))
        =~= Seq::new(p + 2, |l: int| layer_code(&(BinaryImageSampler { image: &up, size: up.width }), l as nat)));
}

/// The upscaled image's encoding starts with the image's encoding, both
/// taken at the images' own sides.
proof fn lemma_upscale_prefix(img: BinaryImage, up: BinaryImage, p: nat)
    requires
        img.width == pow2(p),
        img.height == pow2(p),
        is_upscale(up, img),
    ensures
        ({
            let n = pow2(p);
            let small = BinaryImageSampler { image: &img, size: img.width };
            let large = BinaryImageSampler { image: &up, size: up.width };
            let bi = encoding_bits(Seq::new(p + 1, |l: int| layer_code(&small, l as nat)));
            let bu = encoding_bits(Seq::new(p + 2, |l: int| layer_code(&large, l as nat)));
            &&& bi.len() <= bu.len()
            &&& bu.take(bi.len() as int) == bi
        }),
{
    let n = pow2(p);
    lemma_pow2_pos(p);
    lemma2_to64();
    let small = BinaryImageSampler { image: &img, size: img.width };
    let large = BinaryImageSampler { image: &up, size: up.width };
    let li = Seq::new(p + 1, |l: int| layer_code(&small, l as nat));
    let lu = Seq::new(p + 2, |l: int| layer_code(&large, l as nat));
    vstd::arithmetic::power2::lemma_pow2_unfold(p + 1);
    assert(up.width == pow2(p + 1));
    // Cell codes of layer l <= p agree on their leading bits.
    assert forall|l: nat, k: int, t: nat| l <= p && 0 <= k < pow4(l) && t < code_len(layer_square(n, l)) implies
        #[trigger] code_bit(cell_value(&large, l, k), code_len(layer_square(2 * n, l)), t)
            == code_bit(cell_value(&small, l, k), code_len(layer_square(n, l)), t) by {
        lemma_pow2_pos(l);
        lemma_pow2_subtracts(l, p);
        lemma_pow2_subtracts(l, p + 1);
        vstd::arithmetic::power2::lemma_pow2_unfold((p + 1 - l) as nat);
        let sq = layer_square(n, l);
        assert(sq == pow2((p - l) as nat));
        assert(layer_square(2 * n, l) == 2 * sq);
        lemma_pow2_pos((p - l) as nat);
        lemma_cell_in_square(n, l, k);
        let (x, y) = spiral(pow2(l))[k];
        let sqi = sq as int;
        lemma_upscale_rect(img, up, n, x * sqi, y * sqi, (x + 1) * sqi, (y + 1) * sqi);
        assert(x * (2 * sqi) == 2 * (x * sqi) && (x + 1) * (2 * sqi) == 2 * ((x + 1) * sqi)) by (nonlinear_arith);
        assert(y * (2 * sqi) == 2 * (y * sqi) && (y + 1) * (2 * sqi) == 2 * ((y + 1) * sqi)) by (nonlinear_arith);
        let v = binary_rect_count(img, n, x * sqi, y * sqi, (x + 1) * sqi, (y + 1) * sqi);
        if sq == 1 {
            lemma_rect_count_bound(img, n, x * sqi, y * sqi, (x + 1) * sqi, (y + 1) * sqi);
            assert(v <= 1) by (nonlinear_arith)
                requires v <= ((x + 1) * sqi - x * sqi) * ((y + 1) * sqi - y * sqi), sqi == 1;
        }
        lemma_upscale_code(v, sq, t);
    }
    if p == 0 {
        assert(code_len(1) == 1) by { lemma_log2_pow2(0); }
        assert(n == 1);
        assert(pow2(0) == 1);
        assert(layer_square(n, 0) == 1);
        assert(layer_square(2 * n, 0) == 2 * n / pow2(0));
        assert(layer_square(2 * n, 0) == 2);
        assert(code_len(2) == 2) by { lemma_log2_pow2(1); }
        assert(pow4(0) == 1);
        let bi = encoding_bits(li);
        let bu = encoding_bits(lu);
        assert(bi == li[0]);
        assert(bu == bits_upto(lu, 2));
        reveal_with_fuel(bits_upto, 3);
        assert(level_bits(lu, 1) == layer_column(lu[0], 1, 0));
        assert(lu[0] == layer_code(&large, 0));
        assert(large.side() == 2);
        assert(layer_square(large.side(), 0) == 2);
        assert(layer_code(&large, 0).len() == pow4(0) * code_len(layer_square(large.side(), 0)));
        assert(layer_code(&large, 0).len() == 1 * 2);
        assert(lu[0].len() == 2);
        assert(bu[0] == lu[0][0]);
        assert(li[0].len() == 1);
        assert(li[0][0] == code_bit(cell_value(&small, 0, 0), 1, 0));
        assert(lu[0][0] == code_bit(cell_value(&large, 0, 0), 2, 0));
        assert(bu.take(1) == bi);
    } else {
        // The levels 1 .. 2p read the same layers at the same offsets.
        assert forall|k: nat| 1 <= k <= 2 * p implies #[trigger] level_bits(li, k) == level_bits(lu, k) by {
            let i = level_layer(p + 1, k);
            let off = level_offset(p + 1, k);
            assert(level_layer(p + 2, k) == i);
            assert(level_offset(p + 2, k) == off);
            lemma_pow2_pos(i);
            lemma_pow2_subtracts(i, p);
            lemma_pow2_subtracts(i, p + 1);
            vstd::arithmetic::power2::lemma_pow2_unfold((p + 1 - i) as nat);
            let sq = layer_square(n, i);
            assert(sq == pow2((p - i) as nat));
            assert(layer_square(2 * n, i) == 2 * sq);
            lemma_log2_pow2((p - i) as nat);
            lemma_log2_pow2((p + 1 - i) as nat);
            let leni = code_len(sq);
            let lenu = code_len(2 * sq);
            assert(off < leni);
            assert(off < lenu);
            let cells = pow4(i);
            lemma_pow2_pos(2 * i);
            assert(li[i as int].len() == cells * leni);
            assert(lu[i as int].len() == cells * lenu);
            assert((cells * leni) / cells == leni) by (nonlinear_arith) requires cells >= 1;
            assert((cells * lenu) / cells == lenu) by (nonlinear_arith) requires cells >= 1;
            let ci = layer_column(li[i as int], cells, off);
            let cu = layer_column(lu[i as int], cells, off);
            assert forall|j: int| 0 <= j < cells implies ci[j] == cu[j] by {
                assert(j * leni + off < cells * leni) by (nonlinear_arith) requires 0 <= j < cells, off < leni;
                assert(j * lenu + off < cells * lenu) by (nonlinear_arith) requires 0 <= j < cells, off < lenu;
                vstd::arithmetic::div_mod::lemma_fundamental_div_mod_converse(j * leni + off, leni as int, j, off as int);
                vstd::arithmetic::div_mod::lemma_fundamental_div_mod_converse(j * lenu + off, lenu as int, j, off as int);
                assert(code_bit(cell_value(&large, i, j), lenu, off) == code_bit(cell_value(&small, i, j), leni, off));
            }
            assert(ci == cu);
        }
        lemma_bits_upto_agree(li, lu, 2 * p);
        let bi = encoding_bits(li);
        let bu = encoding_bits(lu);
        assert(bi == bits_upto(li, 2 * p));
        assert(bu == bits_upto(lu, 2 * p) + level_bits(lu, 2 * p + 1) + level_bits(lu, 2 * p + 2)) by {
            reveal_with_fuel(bits_upto, 3);
        }
        assert(bu.take(bi.len() as int) == bi);
    }
}

proof fn lemma_bits_upto_agree(a: Seq<Seq<bool>>, b: Seq<Seq<bool>>, k: nat)
    requires
        forall|kk: nat| 1 <= kk <= k ==> #[trigger] level_bits(a, kk) == level_bits(b, kk),
    ensures
        bits_upto(a, k) == bits_upto(b, k),
    decreases k,
{
    if k > 0 {
        lemma_bits_upto_agree(a, b, (k - 1) as nat);
        assert(level_bits(a, k) == level_bits(b, k));
    }
}

} // verus!
