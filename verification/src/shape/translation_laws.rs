//! Translation invariance: cropping takes away where the ink stands, so two
//! images whose ink differs only by a shift encode alike after `crop`.
use vstd::prelude::*;
use crate::image::BinaryImage;
use crate::sampler::{BinaryImageSampler, binary_rect_count, binary_row_count};
use crate::shape::encode::{layer_code, cell_value, layer_square};

verus! {

/// Whether the set pixels of `b` are those of `a` moved by `(dx, dy)`.
pub open spec fn is_shift_of(b: BinaryImage, a: BinaryImage, dx: int, dy: int) -> bool {
    forall|x: int, y: int| #[trigger] b.ink(x, y) == a.ink(x - dx, y - dy)
}

/// Whether two images have the same size and the same pixels.
pub open spec fn same_image(a: BinaryImage, b: BinaryImage) -> bool {
    &&& a.width == b.width
    &&& a.height == b.height
    &&& a.pixels@ == b.pixels@
}

/// The least box around the ink moves with the ink.
proof fn lemma_shifted_box(
    a: BinaryImage, b: BinaryImage, dx: int, dy: int,
    la: int, ta: int, ra: int, ba: int,
    lb: int, tb: int, rb: int, bb: int,
)
    requires
        is_shift_of(b, a, dx, dy),
        a.is_tight_box(la, ta, ra, ba),
        b.is_tight_box(lb, tb, rb, bb),
    ensures
        lb == la + dx,
        rb == ra + dx,
        tb == ta + dy,
        bb == ba + dy,
{
    let ya = choose|y: int| #[trigger] a.ink(la, y);
    assert(b.ink(la + dx, ya + dy));
    let yb = choose|y: int| #[trigger] b.ink(lb, y);
    assert(a.ink(lb - dx, yb - dy));
    let ya2 = choose|y: int| #[trigger] a.ink(ra - 1, y);
    assert(b.ink(ra - 1 + dx, ya2 + dy));
    let yb2 = choose|y: int| #[trigger] b.ink(rb - 1, y);
    assert(a.ink(rb - 1 - dx, yb2 - dy));
    let xa = choose|x: int| #[trigger] a.ink(x, ta);
    assert(b.ink(xa + dx, ta + dy));
    let xb = choose|x: int| #[trigger] b.ink(x, tb);
    assert(a.ink(xb - dx, tb - dy));
    let xa2 = choose|x: int| #[trigger] a.ink(x, ba - 1);
    assert(b.ink(xa2 + dx, ba - 1 + dy));
    let xb2 = choose|x: int| #[trigger] b.ink(x, bb - 1);
    assert(a.ink(xb2 - dx, bb - 1 - dy));
}

/// A well-formed image is determined by its pixels at every position.
proof fn lemma_same_pixels(a: BinaryImage, b: BinaryImage)
    requires
        a.wf(),
        b.wf(),
        a.width == b.width,
        a.height == b.height,
        forall|x: int, y: int| 0 <= x < a.width && 0 <= y < a.height ==> #[trigger] a.pixel(x, y) == b.pixel(x, y),
    ensures
        same_image(a, b),
{
    let w = a.width as int;
    let h = a.height as int;
    assert forall|i: int| 0 <= i < a.pixels@.len() implies a.pixels@[i] == b.pixels@[i] by {
        assert(0 <= i < w * h);
        assert(w > 0) by (nonlinear_arith) requires 0 <= i < w * h, w >= 0, h >= 0;
        vstd::arithmetic::div_mod::lemma_fundamental_div_mod(i, w);
        let x = i % w;
        let y = i / w;
        assert(0 <= x < w);
        assert(0 <= y < h) by (nonlinear_arith) requires 0 <= i < w * h, w > 0, y == i / w, h >= 0;
        assert(a.pixel(x, y) == b.pixel(x, y));
        assert(y * w + x == i) by (nonlinear_arith) requires i == w * (i / w) + i % w, x == i % w, y == i / w;
    }
    assert(a.pixels@ =~= b.pixels@);
}

proof fn lemma_same_row_count(a: BinaryImage, b: BinaryImage, side: nat, y: int, left: int, right: int)
    requires
        same_image(a, b),
    ensures
        binary_row_count(a, side, y, left, right) == binary_row_count(b, side, y, left, right),
    decreases right - left,
{
    if left < right {
        lemma_same_row_count(a, b, side, y, left, right - 1);
    }
}

proof fn lemma_same_rect_count(a: BinaryImage, b: BinaryImage, side: nat, left: int, top: int, right: int, bottom: int)
    requires
        same_image(a, b),
    ensures
        binary_rect_count(a, side, left, top, right, bottom) == binary_rect_count(b, side, left, top, right, bottom),
    decreases bottom - top,
{
    if top < bottom {
        lemma_same_rect_count(a, b, side, left, top, right, bottom - 1);
        lemma_same_row_count(a, b, side, bottom - 1, left, right);
    }
}

/// Images with the same size and pixels have the same layer codes at every side.
proof fn lemma_same_layer_code(a: BinaryImage, b: BinaryImage, size: usize, l: nat)
    requires
        same_image(a, b),
    ensures
        layer_code(&(BinaryImageSampler { image: &a, size: size }), l)
            == layer_code(&(BinaryImageSampler { image: &b, size: size }), l),
{
    let sa = BinaryImageSampler { image: &a, size: size };
    let sb = BinaryImageSampler { image: &b, size: size };
    assert forall|k: int| #![trigger cell_value(&sa, l, k)] cell_value(&sa, l, k) == cell_value(&sb, l, k) by {
        let sq = layer_square(size as nat, l) as int;
        let (x, y) = crate::spiral::spiral(vstd::arithmetic::power2::pow2(l))[k];
        lemma_same_rect_count(a, b, size as nat, x * sq, y * sq, (x + 1) * sq, (y + 1) * sq);
    }
    let ca = layer_code(&sa, l);
    let cb = layer_code(&sb, l);
    assert(ca =~= cb);
}

/// Translation invariance: when the ink of `b` is that of `a` moved by
/// `(dx, dy)`, cropping both gives the same image, and so the same layer
/// codes at every side (the encoder reads nothing else).
pub proof fn law_crop_removes_translation(
    a: BinaryImage, b: BinaryImage, dx: int, dy: int, ca: BinaryImage, cb: BinaryImage,
)
    requires
        a.wf(),
        b.wf(),
        is_shift_of(b, a, dx, dy),
        a.is_cropped_to(ca),
        b.is_cropped_to(cb),
    ensures
        same_image(ca, cb),
        forall|size: usize, l: nat| #[trigger] layer_code(&(BinaryImageSampler { image: &ca, size: size }), l)
            == layer_code(&(BinaryImageSampler { image: &cb, size: size }), l),
{
    if a.has_ink() {
        let (x, y) = choose|x: int, y: int| #[trigger] a.ink(x, y);
        assert(b.ink(x + dx, y + dy));
    }
    if b.has_ink() {
        let (x, y) = choose|x: int, y: int| #[trigger] b.ink(x, y);
        assert(a.ink(x - dx, y - dy));
    }
    if !a.has_ink() {
        assert(ca.pixels@ =~= cb.pixels@);
    } else {
        let (la, ta) = choose|left: int, top: int| {
            &&& #[trigger] a.is_tight_box(left, top, left + ca.width, top + ca.height)
            &&& forall|x: int, y: int| 0 <= x < ca.width && 0 <= y < ca.height ==>
                    #[trigger] ca.pixel(x, y) == a.pixel(left + x, top + y)
        };
        let (lb, tb) = choose|left: int, top: int| {
            &&& #[trigger] b.is_tight_box(left, top, left + cb.width, top + cb.height)
            &&& forall|x: int, y: int| 0 <= x < cb.width && 0 <= y < cb.height ==>
                    #[trigger] cb.pixel(x, y) == b.pixel(left + x, top + y)
        };
        lemma_shifted_box(a, b, dx, dy, la, ta, la + ca.width, ta + ca.height, lb, tb, lb + cb.width, tb + cb.height);
        // The boxes lie inside the images.
        let ya = choose|y: int| #[trigger] a.ink(la, y);
        let ya2 = choose|y: int| #[trigger] a.ink(la + ca.width - 1, y);
        let xa = choose|x: int| #[trigger] a.ink(x, ta);
        let xa2 = choose|x: int| #[trigger] a.ink(x, ta + ca.height - 1);
        let yb = choose|y: int| #[trigger] b.ink(lb, y);
        let yb2 = choose|y: int| #[trigger] b.ink(lb + cb.width - 1, y);
        let xb = choose|x: int| #[trigger] b.ink(x, tb);
        let xb2 = choose|x: int| #[trigger] b.ink(x, tb + cb.height - 1);
        assert forall|x: int, y: int| 0 <= x < ca.width && 0 <= y < ca.height implies
            #[trigger] ca.pixel(x, y) == cb.pixel(x, y) by {
            assert(ca.pixel(x, y) == a.pixel(la + x, ta + y));
            assert(cb.pixel(x, y) == b.pixel(lb + x, tb + y));
            assert(b.ink(lb + x, tb + y) == a.ink(la + x, ta + y));
        }
        lemma_same_pixels(ca, cb);
    }
    assert forall|size: usize, l: nat| #[trigger] layer_code(&(BinaryImageSampler { image: &ca, size: size }), l)
        == layer_code(&(BinaryImageSampler { image: &cb, size: size }), l) by {
        lemma_same_layer_code(ca, cb, size, l);
    }
}

} // verus!
