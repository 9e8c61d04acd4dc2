//! Morphology: peeling the boundary layers of a binary image.
use vstd::prelude::*;
use crate::image::BinaryImage;

verus! {

/// Whether ink pixel `i` of the `w × h` raster `bin` touches the background
/// or the edge through one of its four neighbours.
pub open spec fn is_boundary(bin: Seq<bool>, i: int, w: int, h: int) -> bool {
    let x = i % w;
    let y = i / w;
    (x == 0 || !bin[i - 1]) || (x == w - 1 || !bin[i + 1]) || (y == 0 || !bin[i - w]) || (y == h - 1 || !bin[i + w])
}

/// The outermost layer of `bin`: its ink pixels on the boundary.
pub open spec fn outer_layer(bin: Seq<bool>, w: int, h: int) -> Seq<bool> {
    Seq::new(bin.len(), |i: int| bin[i] && is_boundary(bin, i, w, h))
}

/// After `k` peeling steps from `bin`: what is left, and what was peeled.
pub open spec fn peel(bin: Seq<bool>, w: int, h: int, k: nat) -> (Seq<bool>, Seq<bool>)
    decreases k,
{
    if k == 0 {
        (bin, Seq::new(bin.len(), |_i: int| false))
    } else {
        let (rest, kept) = peel(bin, w, h, (k - 1) as nat);
        let layer = outer_layer(rest, w, h);
        (
            Seq::new(rest.len(), |i: int| rest[i] && !layer[i]),
            Seq::new(rest.len(), |i: int| kept[i] || layer[i]),
        )
    }
}

/// The pixels peeled off in the first `depth` steps.
pub open spec fn peeled(bin: Seq<bool>, w: int, h: int, depth: nat) -> Seq<bool> {
    peel(bin, w, h, depth).1
}

proof fn lemma_peel_len(bin: Seq<bool>, w: int, h: int, k: nat)
    ensures
        peel(bin, w, h, k).0.len() == bin.len(),
        peel(bin, w, h, k).1.len() == bin.len(),
    decreases k,
{
    if k > 0 {
        lemma_peel_len(bin, w, h, (k - 1) as nat);
    }
}

/// Once a step peels nothing, no later step does.
proof fn lemma_peel_stable(bin: Seq<bool>, w: int, h: int, k: nat, j: nat)
    requires
        k <= j,
        outer_layer(peel(bin, w, h, k).0, w, h) == Seq::new(bin.len(), |_i: int| false),
    ensures
        peel(bin, w, h, j) == peel(bin, w, h, k),
    decreases j - k,
{
    lemma_peel_len(bin, w, h, k);
    if j > k {
        lemma_peel_stable(bin, w, h, k, (j - 1) as nat);
        let (rest, kept) = peel(bin, w, h, k);
        let layer = outer_layer(rest, w, h);
        assert(Seq::new(rest.len(), |i: int| rest[i] && !layer[i]) == rest);
        assert(Seq::new(rest.len(), |i: int| kept[i] || layer[i]) == kept);
    }
}

proof fn lemma_peel_within(bin: Seq<bool>, w: int, h: int, k: nat)
    ensures
        forall|i: int| 0 <= i < bin.len() ==> (#[trigger] peel(bin, w, h, k).0[i] ==> bin[i]),
        forall|i: int| 0 <= i < bin.len() ==> (#[trigger] peel(bin, w, h, k).1[i] ==> bin[i]),
    decreases k,
{
    lemma_peel_len(bin, w, h, k);
    if k > 0 {
        lemma_peel_within(bin, w, h, (k - 1) as nat);
        lemma_peel_len(bin, w, h, (k - 1) as nat);
    }
}

/// Peeling only ever keeps ink: every kept pixel is set in the image.
pub proof fn law_peeled_within_image(bin: Seq<bool>, w: int, h: int, depth: nat)
    ensures
        peeled(bin, w, h, depth).len() == bin.len(),
        forall|i: int| 0 <= i < bin.len() ==> (#[trigger] peeled(bin, w, h, depth)[i] ==> bin[i]),
{
    lemma_peel_within(bin, w, h, depth);
    lemma_peel_len(bin, w, h, depth);
}

/// Peeling zero layers keeps nothing: the result is blank.
pub proof fn law_peel_zero_is_blank(bin: Seq<bool>, w: int, h: int)
    ensures
        peeled(bin, w, h, 0) == Seq::new(bin.len(), |_i: int| false),
{
}

/// Peeling one more layer keeps everything kept before.
pub proof fn law_peeled_grows_with_depth(bin: Seq<bool>, w: int, h: int, depth: nat)
    ensures
        forall|i: int| 0 <= i < bin.len() ==> (#[trigger] peeled(bin, w, h, depth)[i] ==> peeled(bin, w, h, depth + 1)[i]),
{
    lemma_peel_len(bin, w, h, depth);
}

/// Thin strokes pass through unchanged: when every ink pixel lies on the
/// boundary, peeling one or more layers gives back the image.
pub proof fn law_thin_strokes_unchanged(bin: Seq<bool>, w: int, h: int, depth: nat)
    requires
        depth >= 1,
        forall|i: int| 0 <= i < bin.len() && #[trigger] bin[i] ==> is_boundary(bin, i, w, h),
    ensures
        peeled(bin, w, h, depth) == bin,
{
    lemma_peel_len(bin, w, h, 1);
    reveal_with_fuel(peel, 2);
    let (rest, kept) = peel(bin, w, h, 1);
    let layer = outer_layer(bin, w, h);
    assert(layer == bin);
    assert(rest == Seq::new(bin.len(), |i: int| bin[i] && !layer[i]));
    assert(rest == Seq::new(bin.len(), |_i: int| false));
    assert(kept == bin);
    assert(outer_layer(rest, w, h) == Seq::new(bin.len(), |_i: int| false));
    lemma_peel_stable(bin, w, h, 1, depth);
}

/// Whether raster pixel `i` is a boundary pixel.
fn is_4boundary(bin: &Vec<bool>, i: usize, w: usize, h: usize) -> (r: bool)
    requires
        i < bin@.len(),
        bin@.len() == w * h,
    ensures
        r == is_boundary(bin@, i as int, w as int, h as int),
{
    assert(w > 0 && h > 0) by (nonlinear_arith) requires i < w * h;
    let x = i % w;
    let y = i / w;
    assert(i == y * w + x) by (nonlinear_arith) requires x == i % w, y == i / w, w > 0;
    assert(y < h) by (nonlinear_arith) requires y == i / w, i < w * h, w > 0;
    assert(x < w - 1 ==> i + 1 < w * h) by (nonlinear_arith) requires i == y * w + x, y < h, x < w;
    assert(y > 0 ==> i >= w) by (nonlinear_arith) requires i == y * w + x, x >= 0;
    let n = bin.len();
    (x == 0 || !bin[i - 1]) || (x == w - 1 || !bin[i + 1]) || (y == 0 || !bin[i - w]) || (y == h - 1 || {
        assert(i + w < w * h) by (nonlinear_arith) requires i == y * w + x, y + 1 < h, x < w;
        !bin[i + w]
    })
}

/// Returns the outermost `depth` boundary layers of a binary image, clearing
/// the interior pixels deeper than `depth` steps from the edge: each step
/// removes the current outermost layer (ink pixels with a 4-connected
/// background neighbour or on the image edge) from a working copy and keeps it.
pub fn erode_interior(image: &BinaryImage, depth: usize) -> (r: BinaryImage)
    requires
        image.wf(),
    ensures
        r.wf(),
        r.width == image.width,
        r.height == image.height,
        forall|x: int, y: int| 0 <= x < r.width && 0 <= y < r.height ==>
            #[trigger] r.pixel(x, y) == peeled(image.pixels@, image.width as int, image.height as int, depth as nat)[y * image.width + x],
{
    let w = image.width;
    let h = image.height;
    proof { image.pixels.lemma_len_fits(); }
    let n = w * h;
    let ghost orig = image.pixels@;
    let ghost wi = w as int;
    let ghost hi = h as int;

    let mut bin: Vec<bool> = Vec::with_capacity(n);
    let mut i: usize = 0;
    while i < n
        invariant
            n == w * h,
            w == image.width,
            h == image.height,
            orig == image.pixels@,
            image.wf(),
            i <= n,
            bin@ == orig.take(i as int),
        decreases n - i,
    {
        assert(w > 0) by (nonlinear_arith) requires i < w * h;
        let x = i % w;
        let y = i / w;
        assert(i == y * w + x) by (nonlinear_arith) requires x == i % w, y == i / w, w > 0;
        bin.push(image.get_pixel(x, y));
        i += 1;
        assert(bin@ == orig.take(i as int));
    }
    assert(orig.take(n as int) == orig);
    let mut keep: Vec<bool> = Vec::with_capacity(n);
    let mut i: usize = 0;
    while i < n
        invariant
            i <= n,
            keep@ == Seq::new(i as nat, |_i: int| false),
        decreases n - i,
    {
        keep.push(false);
        i += 1;
    }
    proof { lemma_peel_len(orig, wi, hi, 0); }

    let mut step: usize = 0;
    while step < depth
        invariant
            n == w * h,
            wi == w,
            hi == h,
            orig.len() == n,
            step <= depth,
            (bin@, keep@) == peel(orig, wi, hi, step as nat),
        ensures
            keep@ == peeled(orig, wi, hi, depth as nat),
        decreases depth - step,
    {
        proof { lemma_peel_len(orig, wi, hi, step as nat); }
        let ghost rest = bin@;
        let ghost kept = keep@;
        let ghost layer = outer_layer(rest, wi, hi);
        let mut cur: Vec<bool> = Vec::with_capacity(n);
        let mut any = false;
        let mut i: usize = 0;
        while i < n
            invariant
                n == w * h,
                wi == w,
                hi == h,
                bin@ == rest,
                rest.len() == n,
                kept.len() == n,
                layer == outer_layer(rest, wi, hi),
                i <= n,
                cur@ == layer.take(i as int),
                keep@.len() == n,
                forall|j: int| 0 <= j < n ==> #[trigger] keep@[j] == (kept[j] || (j < i && layer[j])),
                any <==> exists|j: int| 0 <= j < i && #[trigger] layer[j],
            decreases n - i,
        {
            let c = bin[i] && is_4boundary(&bin, i, w, h);
            assert(c == layer[i as int]);
            cur.push(c);
            if c {
                keep.set(i, true);
                any = true;
            }
            i += 1;
            assert(cur@ == layer.take(i as int));
        }
        assert(cur@ == layer);
        if !any {
            proof {
                assert(layer == Seq::new(orig.len(), |_i: int| false));
                lemma_peel_stable(orig, wi, hi, step as nat, depth as nat);
                assert(keep@ == kept);
            }
            break;
        }
        let mut i: usize = 0;
        while i < n
            invariant
                n == w * h,
                rest.len() == n,
                cur@ == layer,
                layer.len() == n,
                i <= n,
                bin@.len() == n,
                forall|j: int| 0 <= j < n ==> #[trigger] bin@[j] == if j < i { rest[j] && !layer[j] } else { rest[j] },
            decreases n - i,
        {
            if cur[i] {
                bin.set(i, false);
            }
            i += 1;
        }
        step += 1;
        proof {
            let next = peel(orig, wi, hi, step as nat);
            assert(bin@ == next.0);
            assert(keep@ == next.1);
        }
    }
    proof { lemma_peel_len(orig, wi, hi, depth as nat); }
    assert(keep@.len() == n);

    let mut out = BinaryImage::new_w_h(w, h);
    let mut i: usize = 0;
    while i < n
        invariant
            n == w * h,
            keep@ == peeled(orig, wi, hi, depth as nat),
            keep@.len() == n,
            out.wf(),
            out.width == w,
            out.height == h,
            i <= n,
            forall|j: int| 0 <= j < n ==> #[trigger] out.pixels@[j] == (j < i && keep@[j]),
        decreases n - i,
    {
        if keep[i] {
            let x = i % w;
            let y = i / w;
            assert(i == y * w + x) by (nonlinear_arith) requires x == i % w, y == i / w, w > 0;
            out.set_pixel(x, y, true);
        }
        i += 1;
    }
    proof {
        assert forall|x: int, y: int| 0 <= x < w && 0 <= y < h implies
            #[trigger] out.pixel(x, y) == peeled(orig, wi, hi, depth as nat)[y * w + x] by {
            assert(y * w + x < n) by (nonlinear_arith) requires 0 <= x < w, 0 <= y < h, n == w * h;
        }
    }
    out
}

} // verus!
