//! Binary and colour raster images.
use vstd::prelude::*;
use vstd::string::StringSliceAdditionalSpecFns;
use crate::bit_vec::BitVec;

verus! {

broadcast use vstd::string::group_string_axioms;

/// A binary image, stored row by row.
pub struct BinaryImage {
    pub pixels: BitVec,
    pub width: usize,
    pub height: usize,
}

/// An RGBA colour.
#[derive(Clone, Copy, PartialEq, Eq, Debug, Default)]
pub struct Color {
    pub r: u8,
    pub g: u8,
    pub b: u8,
    pub a: u8,
}

/// A colour image, stored row by row, four bytes (r, g, b, a) per pixel.
pub struct ColorImage {
    pub pixels: Vec<u8>,
    pub width: usize,
    pub height: usize,
}

/// A shape decoded from an encoding.
pub struct Shape {
    pub image: BinaryImage,
}

/// Whether `s` is a grid of text rows of `w` characters, each ended by a
/// newline, with no other newline.
pub open spec fn is_grid_text(s: Seq<char>, w: nat) -> bool {
    &&& s.len() > 0
    &&& s.len() % (w + 1) == 0
    &&& forall|i: int| 0 <= i < s.len() ==> ((#[trigger] s[i] == '\n') <==> i % (w as int + 1) == w as int)
    &&& forall|i: int| 0 <= i < s.len() ==> '\0' <= #[trigger] s[i] <= '\u{7f}'
}

/// Text of an image: a row of `*` (set) and `-` (unset) per line.
pub open spec fn image_text(img: BinaryImage) -> Seq<char> {
    let w = img.width as int;
    Seq::new((img.height * (img.width + 1)) as nat, |i: int|
        if i % (w + 1) == w {
            '\n'
        } else if img.pixel(i % (w + 1), i / (w + 1)) {
            '*'
        } else {
            '-'
        })
}

/// Number of set bits.
pub open spec fn popcount_spec(n: nat) -> nat
    decreases n,
{
    if n == 0 { 0 } else { n % 2 + popcount_spec(n / 2) }
}

proof fn lemma_popcount_le(n: nat, k: nat)
    requires
        n < vstd::arithmetic::power2::pow2(k),
    ensures
        popcount_spec(n) <= k,
    decreases k,
{
    if n > 0 {
        if k == 0 {
            vstd::arithmetic::power2::lemma2_to64();
        } else {
            vstd::arithmetic::power2::lemma_pow2_unfold(k);
            lemma_popcount_le(n / 2, (k - 1) as nat);
        }
    }
}

impl Color {
    /// An opaque colour.
    pub fn new(r: u8, g: u8, b: u8) -> (c: Color)
        ensures
            c == (Color { r, g, b, a: 255 }),
    {
        Color { r, g, b, a: 255 }
    }

    /// A colour with the given opacity.
    pub fn new_rgba(r: u8, g: u8, b: u8, a: u8) -> (c: Color)
        ensures
            c == (Color { r, g, b, a }),
    {
        Color { r, g, b, a }
    }
}

impl ColorImage {
    /// The pixel buffer holds four bytes per pixel.
    pub open spec fn wf(&self) -> bool {
        self.pixels@.len() == 4 * (self.width * self.height)
    }

    /// Colour of pixel `(x, y)`.
    pub open spec fn color(&self, x: int, y: int) -> Color {
        let i = 4 * (y * self.width + x);
        Color { r: self.pixels@[i], g: self.pixels@[i + 1], b: self.pixels@[i + 2], a: self.pixels@[i + 3] }
    }

    /// A transparent black image of the given size.
    pub fn new_w_h(width: usize, height: usize) -> (r: ColorImage)
        requires
            4 * (width * height) <= usize::MAX,
        ensures
            r.wf(),
            r.width == width,
            r.height == height,
            r.pixels@ == Seq::new(4 * (width * height) as nat, |_i: int| 0u8),
    {
        let n = 4 * (width * height);
        let mut pixels: Vec<u8> = Vec::with_capacity(n);
        let mut i: usize = 0;
        while i < n
            invariant
                i <= n,
                pixels@ == Seq::new(i as nat, |_i: int| 0u8),
            decreases n - i,
        {
            pixels.push(0);
            i += 1;
        }
        ColorImage { pixels, width, height }
    }

    /// Colour of pixel `(x, y)`.
    pub fn get_pixel(&self, x: usize, y: usize) -> (c: Color)
        requires
            self.wf(),
            x < self.width,
            y < self.height,
        ensures
            c == self.color(x as int, y as int),
    {
        assert(y * self.width + x < self.width * self.height) by (nonlinear_arith)
            requires x < self.width, y < self.height;
        let n = self.pixels.len();
        assert(4 * (y * self.width + x) + 3 < n);
        let i = 4 * (y * self.width + x);
        Color { r: self.pixels[i], g: self.pixels[i + 1], b: self.pixels[i + 2], a: self.pixels[i + 3] }
    }

    /// Sets pixel `(x, y)` to `color`.
    pub fn set_pixel(&mut self, x: usize, y: usize, color: &Color)
        requires
            old(self).wf(),
            x < old(self).width,
            y < old(self).height,
        ensures
            final(self).wf(),
            final(self).width == old(self).width,
            final(self).height == old(self).height,
            final(self).pixels@ == old(self).pixels@
                .update(4 * (y * old(self).width + x), color.r)
                .update(4 * (y * old(self).width + x) + 1, color.g)
                .update(4 * (y * old(self).width + x) + 2, color.b)
                .update(4 * (y * old(self).width + x) + 3, color.a),
    {
        assert(y * self.width + x < self.width * self.height) by (nonlinear_arith)
            requires x < self.width, y < self.height;
        let n = self.pixels.len();
        assert(4 * (y * self.width + x) + 3 < n);
        let i = 4 * (y * self.width + x);
        self.pixels.set(i, color.r);
        self.pixels.set(i + 1, color.g);
        self.pixels.set(i + 2, color.b);
        self.pixels.set(i + 3, color.a);
    }
}

impl BinaryImage {
    /// The pixel buffer holds one bit per pixel.
    pub open spec fn wf(&self) -> bool {
        self.pixels@.len() == self.width * self.height
    }

    /// Pixel `(x, y)`.
    pub open spec fn pixel(&self, x: int, y: int) -> bool {
        self.pixels@[y * self.width + x]
    }

    /// Whether `(x, y)` is inside the image and set.
    pub open spec fn ink(&self, x: int, y: int) -> bool {
        0 <= x < self.width && 0 <= y < self.height && self.pixel(x, y)
    }

    /// An unset image of the given size.
    pub fn new_w_h(width: usize, height: usize) -> (r: BinaryImage)
        requires
            width * height <= usize::MAX,
        ensures
            r.wf(),
            r.width == width,
            r.height == height,
            r.pixels@ == Seq::new((width * height) as nat, |_i: int| false),
    {
        BinaryImage { pixels: BitVec::from_elem(width * height, false), width, height }
    }

    /// Pixel `(x, y)`.
    pub fn get_pixel(&self, x: usize, y: usize) -> (r: bool)
        requires
            y * self.width + x < self.pixels@.len(),
        ensures
            r == self.pixel(x as int, y as int),
    {
        proof { self.pixels.lemma_len_fits(); }
        self.pixels.get(y * self.width + x)
    }

    /// Sets pixel `(x, y)`.
    pub fn set_pixel(&mut self, x: usize, y: usize, v: bool)
        requires
            y * old(self).width + x < old(self).pixels@.len(),
        ensures
            final(self).width == old(self).width,
            final(self).height == old(self).height,
            final(self).pixels@ == old(self).pixels@.update(y * old(self).width + x, v),
    {
        proof { self.pixels.lemma_len_fits(); }
        let i = y * self.width + x;
        self.pixels.set(i, v);
    }

    /// Parses a grid of `*` (set) and other characters (unset), one row per line.
    pub fn from_string(string: &str) -> (r: BinaryImage)
        requires
            exists|w: nat| is_grid_text(string@, w),
        ensures
            r.wf(),
            forall|w: nat| #[trigger] is_grid_text(string@, w) ==> {
                &&& r.width == w
                &&& r.height == string@.len() / (w + 1)
                &&& forall|x: int, y: int| 0 <= x < w && 0 <= y < r.height ==>
                        #[trigger] r.pixel(x, y) == (string@[y * (w + 1) + x] == '*')
            },
    {
        let ghost s = string@;
        let ghost gw = choose|w: nat| is_grid_text(s, w);
        assert(vstd::string::is_ascii(string));
        let bytes = string.as_bytes();
        let n = bytes.len();
        proof {
            assert(gw < s.len()) by (nonlinear_arith)
                requires s.len() > 0, s.len() % (gw + 1) == 0;
            vstd::arithmetic::div_mod::lemma_small_mod(gw, gw + 1);
            assert(s[gw as int] == '\n');
            assert forall|w2: nat| #[trigger] is_grid_text(s, w2) implies w2 == gw by {
                assert(w2 < s.len()) by (nonlinear_arith)
                    requires s.len() > 0, s.len() % (w2 + 1) == 0;
                vstd::arithmetic::div_mod::lemma_small_mod(w2, w2 + 1);
                assert(s[w2 as int] == '\n');
                if w2 < gw {
                    vstd::arithmetic::div_mod::lemma_small_mod(w2, gw + 1);
                } else if w2 > gw {
                    vstd::arithmetic::div_mod::lemma_small_mod(gw, w2 + 1);
                }
            }
        }
        // The width is the position of the first newline (ASCII 10).
        let mut w: usize = 0;
        while w < n && bytes[w] != 10
            invariant
                n == s.len(),
                bytes@ =~= Seq::new(s.len(), |k: int| s[k] as u8),
                is_grid_text(s, gw),
                gw < n,
                s[gw as int] == '\n',
                w <= gw,
            decreases n - w,
        {
            assert(s[w as int] != '\n');
            w += 1;
        }
        assert(w == gw) by {
            if w < gw {
                assert(s[w as int] == '\n');
                vstd::arithmetic::div_mod::lemma_small_mod(w as nat, gw + 1);
            }
        }
        let h = n / (w + 1);
        assert(w * h <= n) by (nonlinear_arith) requires h as int == n as int / (w as int + 1);
        let mut image = BinaryImage::new_w_h(w, h);
        assert forall|xx: int, yy: int| 0 <= xx < w && 0 <= yy < h implies !#[trigger] image.pixel(xx, yy) by {
            assert(yy * w + xx < w * h) by (nonlinear_arith) requires 0 <= xx < w, 0 <= yy < h;
        }
        let mut y: usize = 0;
        while y < h
            invariant
                n == s.len(),
                bytes@ =~= Seq::new(s.len(), |k: int| s[k] as u8),
                w == gw,
                w < n,
                is_grid_text(s, gw),
                h as int == n as int / (w as int + 1),
                image.wf(),
                image.width == w,
                image.height == h,
                y <= h,
                forall|xx: int, yy: int| 0 <= xx < w && 0 <= yy < h ==>
                    #[trigger] image.pixel(xx, yy) == (yy < y && s[yy * (w + 1) + xx] == '*'),
            decreases h - y,
        {
            let mut x: usize = 0;
            while x < w
                invariant
                    n == s.len(),
                    bytes@ =~= Seq::new(s.len(), |k: int| s[k] as u8),
                    w == gw,
                    w < n,
                    is_grid_text(s, gw),
                    h as int == n as int / (w as int + 1),
                    image.wf(),
                    image.width == w,
                    image.height == h,
                    y < h,
                    x <= w,
                    forall|xx: int, yy: int| 0 <= xx < w && 0 <= yy < h ==>
                        #[trigger] image.pixel(xx, yy) == ((yy < y || (yy == y && xx < x)) && s[yy * (w + 1) + xx] == '*'),
                decreases w - x,
            {
                assert(y * (w + 1) + x < n) by (nonlinear_arith)
                    requires y < h, x < w, h as int == n as int / (w as int + 1);
                assert(y * w + x < w * h) by (nonlinear_arith) requires y < h, x < w;
                let ghost before = image.pixels@;
                let ghost before_img = image;
                let row = y * (w + 1);
                let c = bytes[row + x];
                assert(c == s[y * (w + 1) + x] as u8);
                assert('\0' <= s[y * (w + 1) + x] <= '\u{7f}');
                // ASCII 42 is '*'.
                image.set_pixel(x, y, c == 42);
                proof {
                    assert forall|xx: int, yy: int| 0 <= xx < w && 0 <= yy < h implies
                        #[trigger] image.pixel(xx, yy) == ((yy < y || (yy == y && xx <= x)) && s[yy * (w + 1) + xx] == '*') by {
                        if yy * w + xx == y * w + x {
                            assert(yy == y && xx == x) by (nonlinear_arith)
                                requires yy * w + xx == y * w + x, 0 <= xx < w, 0 <= x < w, 0 <= yy, 0 <= y;
                        } else {
                            assert(yy * w + xx < w * h) by (nonlinear_arith)
                                requires 0 <= xx < w, 0 <= yy < h;
                            assert(image.pixel(xx, yy) == before[yy * w + xx]);
                            assert(before_img.pixel(xx, yy) == before[yy * w + xx]);
                            assert(!(yy == y && xx == x));
                        }
                        assert(s[y * (w + 1) + x] == '*' <==> c == 42);
                    }
                }
                x += 1;
            }
            y += 1;
        }
        image
    }

    /// The image as text: `*` for set pixels, `-` for unset ones, one row per line.
    pub fn to_string(&self) -> (r: String)
        requires
            self.wf(),
        ensures
            r@ == image_text(*self),
    {
        let w = self.width;
        let h = self.height;
        let ghost text = image_text(*self);
        proof { self.pixels.lemma_len_fits(); }
        assert(h * (w + 1) <= 2 * usize::MAX) by (nonlinear_arith)
            requires w * h <= usize::MAX, h <= usize::MAX;
        let mut s = String::new();
        let mut y: usize = 0;
        while y < h
            invariant
                w == self.width,
                h == self.height,
                self.wf(),
                text == image_text(*self),
                y <= h,
                s@ == text.take(y * (w + 1)),
            decreases h - y,
        {
            let mut x: usize = 0;
            while x < w
                invariant
                    w == self.width,
                    h == self.height,
                    self.wf(),
                    text == image_text(*self),
                    y < h,
                    x <= w,
                    s@ == text.take(y * (w + 1) + x),
                decreases w - x,
            {
                assert(y * w + x < w * h) by (nonlinear_arith) requires y < h, x < w;
                let v = self.get_pixel(x, y);
                proof {
                    let i = y * (w + 1) + x;
                    assert(i % (w + 1) == x && i / (w + 1) == y) by (nonlinear_arith)
                        requires i == y * (w + 1) + x, 0 <= x < w;
                    assert(i < text.len()) by (nonlinear_arith)
                        requires i == y * (w + 1) + x, x < w, y < h, text.len() == h * (w + 1);
                }
                if v {
                    proof { reveal_strlit("*"); }
                    s.append("*");
                } else {
                    proof { reveal_strlit("-"); }
                    s.append("-");
                }
                x += 1;
                assert(s@ == text.take(y * (w + 1) + x));
            }
            proof {
                let i = y * (w + 1) + w;
                assert(i % (w + 1) == w) by (nonlinear_arith) requires i == y * (w + 1) + w;
                assert(i < text.len()) by (nonlinear_arith)
                    requires i == y * (w + 1) + w, y < h, text.len() == h * (w + 1);
                reveal_strlit("\n");
            }
            s.append("\n");
            y += 1;
            assert(s@ == text.take(y * (w + 1))) by {
                assert((y - 1) * (w + 1) + w + 1 == y * (w + 1)) by (nonlinear_arith);
            }
        }
        assert(text.take(h * (w + 1)) == text);
        s
    }

    /// The image in colour: black for set pixels, white for unset ones.
    pub fn to_color_image(&self) -> (r: ColorImage)
        requires
            self.wf(),
            4 * (self.width * self.height) <= usize::MAX,
        ensures
            r.wf(),
            r.width == self.width,
            r.height == self.height,
            forall|x: int, y: int| 0 <= x < self.width && 0 <= y < self.height ==>
                #[trigger] r.color(x, y) == if self.pixel(x, y) {
                    Color { r: 0, g: 0, b: 0, a: 255 }
                } else {
                    Color { r: 255, g: 255, b: 255, a: 255 }
                },
    {
        let w = self.width;
        let h = self.height;
        let mut image = ColorImage::new_w_h(w, h);
        let mut y: usize = 0;
        while y < h
            invariant
                w == self.width,
                h == self.height,
                self.wf(),
                image.wf(),
                image.width == w,
                image.height == h,
                y <= h,
                forall|xx: int, yy: int| 0 <= xx < w && 0 <= yy < y ==>
                    #[trigger] image.color(xx, yy) == if self.pixel(xx, yy) {
                        Color { r: 0, g: 0, b: 0, a: 255 }
                    } else {
                        Color { r: 255, g: 255, b: 255, a: 255 }
                    },
            decreases h - y,
        {
            let mut x: usize = 0;
            while x < w
                invariant
                    w == self.width,
                    h == self.height,
                    self.wf(),
                    image.wf(),
                    image.width == w,
                    image.height == h,
                    y < h,
                    x <= w,
                    forall|xx: int, yy: int| 0 <= xx < w && 0 <= yy < h && (yy < y || (yy == y && xx < x)) ==>
                        #[trigger] image.color(xx, yy) == if self.pixel(xx, yy) {
                            Color { r: 0, g: 0, b: 0, a: 255 }
                        } else {
                            Color { r: 255, g: 255, b: 255, a: 255 }
                        },
                decreases w - x,
            {
                assert(y * w + x < w * h) by (nonlinear_arith) requires y < h, x < w;
                let c = if self.get_pixel(x, y) { Color::new(0, 0, 0) } else { Color::new(255, 255, 255) };
                let ghost before = image;
                image.set_pixel(x, y, &c);
                proof {
                    assert forall|xx: int, yy: int| 0 <= xx < w && 0 <= yy < h && (yy < y || (yy == y && xx <= x)) implies
                        #[trigger] image.color(xx, yy) == if self.pixel(xx, yy) {
                            Color { r: 0, g: 0, b: 0, a: 255 }
                        } else {
                            Color { r: 255, g: 255, b: 255, a: 255 }
                        } by {
                        if !(yy == y && xx == x) {
                            assert(yy * w + xx != y * w + x) by (nonlinear_arith)
                                requires !(yy == y && xx == x), 0 <= xx < w, 0 <= x < w, 0 <= yy, 0 <= y;
                            assert(yy * w + xx < w * h) by (nonlinear_arith) requires 0 <= xx < w, 0 <= yy < h;
                            assert(image.color(xx, yy) == before.color(xx, yy));
                        }
                    }
                }
                x += 1;
            }
            y += 1;
        }
        image
    }

    /// Whether some pixel is set.
    pub open spec fn has_ink(&self) -> bool {
        exists|x: int, y: int| #[trigger] self.ink(x, y)
    }

    /// Whether `[left, right) × [top, bottom)` is the least box holding every set pixel.
    pub open spec fn is_tight_box(&self, left: int, top: int, right: int, bottom: int) -> bool {
        &&& forall|x: int, y: int| #[trigger] self.ink(x, y) ==> left <= x < right && top <= y < bottom
        &&& exists|y: int| #[trigger] self.ink(left, y)
        &&& exists|y: int| #[trigger] self.ink(right - 1, y)
        &&& exists|x: int| #[trigger] self.ink(x, top)
        &&& exists|x: int| #[trigger] self.ink(x, bottom - 1)
    }

    /// Whether `r` is the part of the image inside the least box holding
    /// every set pixel (an empty image when no pixel is set).
    pub open spec fn is_cropped_to(&self, r: BinaryImage) -> bool {
        &&& r.wf()
        &&& !self.has_ink() ==> r.width == 0 && r.height == 0
        &&& self.has_ink() ==> exists|left: int, top: int| {
                &&& #[trigger] self.is_tight_box(left, top, left + r.width, top + r.height)
                &&& forall|x: int, y: int| 0 <= x < r.width && 0 <= y < r.height ==>
                        #[trigger] r.pixel(x, y) == self.pixel(left + x, top + y)
            }
    }

    /// The part of the image inside the least box holding every set pixel
    /// (an empty image when no pixel is set).
    pub fn crop(&self) -> (r: BinaryImage)
        requires
            self.wf(),
        ensures
            self.is_cropped_to(r),
    {
        let w = self.width;
        let h = self.height;
        let mut found = false;
        let mut left: usize = 0;
        let mut top: usize = 0;
        let mut right: usize = 0;
        let mut bottom: usize = 0;
        let ghost mut wl: int = 0;
        let ghost mut wr: int = 0;
        let ghost mut wt: int = 0;
        let ghost mut wb: int = 0;
        let mut y: usize = 0;
        while y < h
            invariant
                w == self.width,
                h == self.height,
                self.wf(),
                y <= h,
                found <==> exists|xx: int, yy: int| #[trigger] self.ink(xx, yy) && yy < y,
                found ==> {
                    &&& forall|xx: int, yy: int| #[trigger] self.ink(xx, yy) && yy < y ==>
                            left <= xx < right && top <= yy < bottom
                    &&& self.ink(left as int, wl) && wl < y
                    &&& self.ink(right - 1, wr) && wr < y
                    &&& self.ink(wt, top as int) && top < y
                    &&& self.ink(wb, bottom - 1) && bottom - 1 < y
                },
            decreases h - y,
        {
            let mut x: usize = 0;
            while x < w
                invariant
                    w == self.width,
                    h == self.height,
                    self.wf(),
                    y < h,
                    x <= w,
                    found <==> exists|xx: int, yy: int| #[trigger] self.ink(xx, yy) && (yy < y || (yy == y && xx < x)),
                    found ==> {
                        &&& forall|xx: int, yy: int| #[trigger] self.ink(xx, yy) && (yy < y || (yy == y && xx < x)) ==>
                                left <= xx < right && top <= yy < bottom
                        &&& self.ink(left as int, wl) && wl <= y
                        &&& self.ink(right - 1, wr) && wr <= y
                        &&& self.ink(wt, top as int) && top <= y
                        &&& self.ink(wb, bottom - 1) && bottom - 1 <= y
                    },
                decreases w - x,
            {
                assert(y * w + x < w * h) by (nonlinear_arith) requires y < h, x < w;
                let ghost found_before = found;
                let v = self.get_pixel(x, y);
                assert(v == self.ink(x as int, y as int));
                if v {
                    if !found {
                        found = true;
                        left = x;
                        right = x + 1;
                        top = y;
                        bottom = y + 1;
                        proof { wl = y as int; wr = y as int; wt = x as int; wb = x as int; }
                    } else {
                        if x < left {
                            left = x;
                            proof { wl = y as int; }
                        }
                        if x + 1 > right {
                            right = x + 1;
                            proof { wr = y as int; }
                        }
                        if y + 1 > bottom {
                            bottom = y + 1;
                            proof { wb = x as int; }
                        }
                    }
                }
                proof {
                    if v {
                        assert(self.ink(x as int, y as int) && (y == y && x < x + 1));
                    } else if !found_before {
                        assert forall|xx: int, yy: int| #[trigger] self.ink(xx, yy) implies !(yy < y || (yy == y && xx < x + 1)) by {
                            if yy < y || (yy == y && xx < x) {
                            } else if yy == y && xx == x {
                            }
                        }
                    }
                }
                x += 1;
            }
            y += 1;
        }
        if !found {
            return BinaryImage::new_w_h(0, 0);
        }
        let cw = right - left;
        let ch = bottom - top;
        proof { self.pixels.lemma_len_fits(); }
        assert(cw * ch <= w * h) by (nonlinear_arith) requires cw <= w, ch <= h;
        let mut image = BinaryImage::new_w_h(cw, ch);
        assert forall|x: int, y: int| 0 <= x < cw && 0 <= y < ch implies !#[trigger] image.pixel(x, y) by {
            assert(y * cw + x < cw * ch) by (nonlinear_arith) requires 0 <= x < cw, 0 <= y < ch;
        }
        let mut yy: usize = 0;
        while yy < ch
            invariant
                w == self.width,
                h == self.height,
                self.wf(),
                left < right <= w,
                top < bottom <= h,
                cw == right - left,
                ch == bottom - top,
                image.wf(),
                image.width == cw,
                image.height == ch,
                yy <= ch,
                forall|x: int, y: int| 0 <= x < cw && 0 <= y < ch ==>
                    #[trigger] image.pixel(x, y) == (y < yy && self.pixel(left + x, top + y)),
            decreases ch - yy,
        {
            let mut xx: usize = 0;
            while xx < cw
                invariant
                    w == self.width,
                    h == self.height,
                    self.wf(),
                    left < right <= w,
                    top < bottom <= h,
                    cw == right - left,
                    ch == bottom - top,
                    image.wf(),
                    image.width == cw,
                    image.height == ch,
                    yy < ch,
                    xx <= cw,
                    forall|x: int, y: int| 0 <= x < cw && 0 <= y < ch ==>
                        #[trigger] image.pixel(x, y) == ((y < yy || (y == yy && x < xx)) && self.pixel(left + x, top + y)),
                decreases cw - xx,
            {
                assert((top + yy) * w + (left + xx) < w * h) by (nonlinear_arith)
                    requires top + yy < h, left + xx < w;
                assert(yy * cw + xx < cw * ch) by (nonlinear_arith) requires yy < ch, xx < cw;
                let v = self.get_pixel(left + xx, top + yy);
                let ghost before = image;
                image.set_pixel(xx, yy, v);
                proof {
                    assert forall|x: int, y: int| 0 <= x < cw && 0 <= y < ch implies
                        #[trigger] image.pixel(x, y) == ((y < yy || (y == yy && x <= xx)) && self.pixel(left + x, top + y)) by {
                        if !(y == yy && x == xx) {
                            assert(y * cw + x != yy * cw + xx) by (nonlinear_arith)
                                requires !(y == yy && x == xx), 0 <= x < cw, 0 <= xx < cw, 0 <= y, 0 <= yy;
                            assert(y * cw + x < cw * ch) by (nonlinear_arith) requires 0 <= x < cw, 0 <= y < ch;
                            assert(image.pixel(x, y) == before.pixel(x, y));
                        }
                    }
                }
                xx += 1;
            }
            yy += 1;
        }
        proof {
            assert(self.is_tight_box(left as int, top as int, left + cw, top + ch));
        }
        image
    }

    /// Number of set bits of `n`.
    pub fn popcount(n: u32) -> (r: u32)
        ensures
            r == popcount_spec(n as nat),
    {
        proof {
            vstd::arithmetic::power2::lemma2_to64();
            lemma_popcount_le(n as nat, 32);
        }
        let mut m = n;
        let mut c: u32 = 0;
        while m > 0
            invariant
                c + popcount_spec(m as nat) == popcount_spec(n as nat),
                popcount_spec(n as nat) <= 32,
            decreases m,
        {
            assert(m & 1 == m % 2) by (bit_vector);
            assert(m >> 1 == m / 2) by (bit_vector);
            c = c + (m & 1);
            m = m >> 1;
        }
        c
    }
}

} // verus!
