//! Samplers: occupancy counts of rectangles of an image scaled to a square
//! of a given side (nearest-neighbour).
use vstd::prelude::*;
use crate::image::{BinaryImage, ColorImage};

verus! {

/// Something that measures how much of a rectangle of a square is occupied.
pub trait Sampler {
    /// Whether the sampler can be used.
    spec fn wf(&self) -> bool;

    /// Side of the sampled square.
    spec fn side(&self) -> nat;

    /// Occupancy of `[left, right) × [top, bottom)`.
    spec fn occupancy(&self, left: int, top: int, right: int, bottom: int) -> nat;

    /// Side of the sampled square.
    fn size(&self) -> (r: usize)
        requires
            self.wf(),
        ensures
            r == self.side();

    /// Occupancy of `[left, right) × [top, bottom)`.
    fn sample(&self, left: usize, top: usize, right: usize, bottom: usize) -> (r: usize)
        requires
            self.wf(),
            left <= right <= self.side(),
            top <= bottom <= self.side(),
        ensures
            r == self.occupancy(left as int, top as int, right as int, bottom as int);
}

/// Source coordinate of sample coordinate `x` when `extent` source pixels
/// are stretched over `side` samples.
pub open spec fn source_coord(x: int, extent: int, side: int) -> int {
    x * extent / side
}

/// Set source pixels under the samples `[left, right)` of sample row `y`;
/// an image without rows or columns samples as blank.
pub open spec fn binary_row_count(img: BinaryImage, side: nat, y: int, left: int, right: int) -> nat
    decreases right - left,
{
    if right <= left {
        0
    } else {
        binary_row_count(img, side, y, left, right - 1)
            + if img.width > 0 && img.height > 0 && img.pixel(
                source_coord(right - 1, img.width as int, side as int),
                source_coord(y, img.height as int, side as int),
            ) { 1nat } else { 0nat }
    }
}

/// Set source pixels under the samples `[left, right) × [top, bottom)`.
pub open spec fn binary_rect_count(img: BinaryImage, side: nat, left: int, top: int, right: int, bottom: int) -> nat
    decreases bottom - top,
{
    if bottom <= top {
        0
    } else {
        binary_rect_count(img, side, left, top, right, bottom - 1) + binary_row_count(img, side, bottom - 1, left, right)
    }
}

/// Darkness (255 minus red) of the source pixels under the samples
/// `[left, right)` of sample row `y`; an image without rows or columns
/// samples as white.
pub open spec fn gray_row_sum(img: ColorImage, side: nat, y: int, left: int, right: int) -> nat
    decreases right - left,
{
    if right <= left {
        0
    } else {
        gray_row_sum(img, side, y, left, right - 1)
            + if img.width > 0 && img.height > 0 {
                (255 - img.color(
                    source_coord(right - 1, img.width as int, side as int),
                    source_coord(y, img.height as int, side as int),
                ).r) as nat
            } else {
                0nat
            }
    }
}

/// Darkness of the source pixels under the samples `[left, right) × [top, bottom)`.
pub open spec fn gray_rect_sum(img: ColorImage, side: nat, left: int, top: int, right: int, bottom: int) -> nat
    decreases bottom - top,
{
    if bottom <= top {
        0
    } else {
        gray_rect_sum(img, side, left, top, right, bottom - 1) + gray_row_sum(img, side, bottom - 1, left, right)
    }
}

proof fn lemma_binary_row_bound(img: BinaryImage, side: nat, y: int, left: int, right: int)
    requires
        left <= right,
    ensures
        binary_row_count(img, side, y, left, right) <= right - left,
    decreases right - left,
{
    if left < right {
        lemma_binary_row_bound(img, side, y, left, right - 1);
    }
}

proof fn lemma_gray_row_bound(img: ColorImage, side: nat, y: int, left: int, right: int)
    requires
        left <= right,
    ensures
        gray_row_sum(img, side, y, left, right) <= 255 * (right - left),
    decreases right - left,
{
    if left < right {
        lemma_gray_row_bound(img, side, y, left, right - 1);
    }
}

/// Counts set pixels of a binary image stretched over a square.
pub struct BinaryImageSampler<'a> {
    pub image: &'a BinaryImage,
    pub size: usize,
}

/// Sums the darkness (255 minus red) of a colour image stretched over a square.
pub struct GrayscaleSampler<'a> {
    pub image: &'a ColorImage,
    pub size: usize,
}

/// Source pixel `x * extent / side`, for `x < side`.
fn scale_coord(x: usize, extent: usize, side: usize) -> (r: usize)
    requires
        x < side,
        side * extent <= usize::MAX,
    ensures
        r == source_coord(x as int, extent as int, side as int),
        extent > 0 ==> r < extent,
{
    assert(x * extent <= side * extent) by (nonlinear_arith) requires x < side;
    assert(extent > 0 ==> (x * extent) as int / (side as int) < extent) by (nonlinear_arith) requires x < side, side > 0;
    x * extent / side
}

impl<'a> BinaryImageSampler<'a> {
    /// A sampler of side `sampler_size` over `image`.
    pub fn new_with_size(image: &'a BinaryImage, sampler_size: usize) -> (r: BinaryImageSampler<'a>)
        ensures
            r.image == image,
            r.size == sampler_size,
    {
        BinaryImageSampler { image, size: sampler_size }
    }
}

impl<'a> Sampler for BinaryImageSampler<'a> {
    open spec fn wf(&self) -> bool {
        &&& self.image.wf()
        &&& self.size * self.size <= usize::MAX
        &&& self.size * self.image.width <= usize::MAX
        &&& self.size * self.image.height <= usize::MAX
    }

    open spec fn side(&self) -> nat {
        self.size as nat
    }

    open spec fn occupancy(&self, left: int, top: int, right: int, bottom: int) -> nat {
        binary_rect_count(*self.image, self.size as nat, left, top, right, bottom)
    }

    fn size(&self) -> (r: usize) {
        self.size
    }

    fn sample(&self, left: usize, top: usize, right: usize, bottom: usize) -> (r: usize) {
        let img = self.image;
        let side = self.size;
        let mut count: usize = 0;
        let mut y = top;
        while y < bottom
            invariant
                self.wf(),
                img == self.image,
                side == self.size,
                left <= right <= side,
                top <= y <= bottom <= side,
                count == binary_rect_count(*img, side as nat, left as int, top as int, right as int, y as int),
                count <= (y - top) * (right - left),
            decreases bottom - y,
        {
            let sy = scale_coord(y, img.height, side);
            let mut x = left;
            let ghost start = count;
            while x < right
                invariant
                    self.wf(),
                    img == self.image,
                    side == self.size,
                    left <= x <= right <= side,
                    top <= y < bottom <= side,
                    sy == source_coord(y as int, img.height as int, side as int),
                    img.height > 0 ==> sy < img.height,
                    start == binary_rect_count(*img, side as nat, left as int, top as int, right as int, y as int),
                    start <= (y - top) * (right - left),
                    count == start + binary_row_count(*img, side as nat, y as int, left as int, x as int),
                    count <= start + (x - left),
                decreases right - x,
            {
                let sx = scale_coord(x, img.width, side);
                assert((y - top) * (right - left) + (x + 1 - left) <= side * side) by (nonlinear_arith)
                    requires x < right <= side, left <= x, top <= y < bottom <= side;
                if img.width > 0 && img.height > 0 {
                    assert(sy * img.width + sx < img.width * img.height) by (nonlinear_arith)
                        requires sx < img.width, sy < img.height;
                    if img.get_pixel(sx, sy) {
                        count += 1;
                    }
                }
                x += 1;
            }
            assert((y - top) * (right - left) + (right - left) == (y + 1 - top) * (right - left)) by (nonlinear_arith);
            assert((y + 1 - top) * (right - left) <= side * side) by (nonlinear_arith)
                requires y < bottom <= side, top <= y, right <= side, left <= right;
            y += 1;
        }
        count
    }
}

impl<'a> GrayscaleSampler<'a> {
    /// A sampler of side `sampler_size` over `image`, reading the red channel.
    pub fn new_with_size(image: &'a ColorImage, sampler_size: usize) -> (r: GrayscaleSampler<'a>)
        ensures
            r.image == image,
            r.size == sampler_size,
    {
        GrayscaleSampler { image, size: sampler_size }
    }
}

impl<'a> Sampler for GrayscaleSampler<'a> {
    open spec fn wf(&self) -> bool {
        &&& self.image.wf()
        &&& 255 * (self.size * self.size) <= usize::MAX
        &&& self.size * self.image.width <= usize::MAX
        &&& self.size * self.image.height <= usize::MAX
    }

    open spec fn side(&self) -> nat {
        self.size as nat
    }

    /// Whole pixels' worth of darkness: the summed darkness divided by 255.
    open spec fn occupancy(&self, left: int, top: int, right: int, bottom: int) -> nat {
        gray_rect_sum(*self.image, self.size as nat, left, top, right, bottom) / 255
    }

    fn size(&self) -> (r: usize) {
        self.size
    }

    fn sample(&self, left: usize, top: usize, right: usize, bottom: usize) -> (r: usize) {
        let img = self.image;
        let side = self.size;
        let mut sum: usize = 0;
        let mut y = top;
        while y < bottom
            invariant
                self.wf(),
                img == self.image,
                side == self.size,
                left <= right <= side,
                top <= y <= bottom <= side,
                sum == gray_rect_sum(*img, side as nat, left as int, top as int, right as int, y as int),
                sum <= 255 * ((y - top) * (right - left)),
            decreases bottom - y,
        {
            let sy = scale_coord(y, img.height, side);
            let mut x = left;
            let ghost start = sum;
            while x < right
                invariant
                    self.wf(),
                    img == self.image,
                    side == self.size,
                    left <= x <= right <= side,
                    top <= y < bottom <= side,
                    sy == source_coord(y as int, img.height as int, side as int),
                    img.height > 0 ==> sy < img.height,
                    start == gray_rect_sum(*img, side as nat, left as int, top as int, right as int, y as int),
                    start <= 255 * ((y - top) * (right - left)),
                    sum == start + gray_row_sum(*img, side as nat, y as int, left as int, x as int),
                    sum <= start + 255 * (x - left),
                decreases right - x,
            {
                let sx = scale_coord(x, img.width, side);
                assert(255 * ((y - top) * (right - left)) + 255 * (x + 1 - left) <= 255 * (side * side)) by (nonlinear_arith)
                    requires x < right <= side, left <= x, top <= y < bottom <= side;
                if img.width > 0 && img.height > 0 {
                    let c = img.get_pixel(sx, sy);
                    sum += (255 - c.r) as usize;
                }
                x += 1;
            }
            assert(255 * ((y - top) * (right - left)) + 255 * (right - left) == 255 * ((y + 1 - top) * (right - left))) by (nonlinear_arith);
            y += 1;
        }
        sum / 255
    }
}

} // verus!
