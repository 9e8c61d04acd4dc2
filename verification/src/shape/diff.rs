//! Weighted distance between two encodings: a Hamming distance in which the
//! coarse (more significant) layers weigh more.
use vstd::prelude::*;
use vstd::arithmetic::power2::{pow2, lemma2_to64};
use crate::bit_vec::BitVec;
use crate::math::{pow4, log2, one_shl, lemma_log2_pow2};
use crate::shape::encoding::{ShapeEncoding, ShapeEncodingString};
use crate::shape::layout::encoding_length;
use crate::shape::text::{hex_text_ok, hex_padded, hex_bits_length_known, hex_text_bits, bit_text_ok, bit_text_bits};

verus! {

/// Weight exponent of the layer of area `l`.
pub open spec fn layer_shift_spec(l: nat) -> nat {
    if l <= 256 {
        8
    } else if l == 1024 {
        6
    } else if l == 4096 {
        4
    } else if l == 16384 {
        2
    } else {
        0
    }
}

/// Areas of the layers that carry a weight: the powers of four up to 65536.
pub open spec fn is_layer_area(l: nat) -> bool {
    l == 1 || l == 4 || l == 16 || l == 64 || l == 256 || l == 1024 || l == 4096 || l == 16384 || l == 65536
}

/// Lump added for all layers from `i` on when both encodings end before layer `i`.
pub open spec fn remainder_spec(i: nat) -> nat {
    (if i <= 0 { 256nat } else { 0 })
        + (if i <= 1 { 512nat } else { 0 })
        + (if i <= 2 { 2048nat } else { 0 })
        + (if i <= 3 { 8192nat } else { 0 })
        + (if i <= 4 { 32768nat } else { 0 })
        + (if i <= 5 { 8192nat } else { 0 })
        + (if i <= 6 { 2048nat } else { 0 })
        + (if i <= 7 { 512nat } else { 0 })
        + (if i <= 8 { 128nat } else { 0 })
}

/// Bit `ii` of the first encoding; past its end, 1 at positions divisible by 4.
pub open spec fn first_bit(a: Seq<bool>, ii: int) -> bool {
    if ii < a.len() { a[ii] } else { ii % 4 == 0 }
}

/// Bit `ii` of the second encoding; past its end, 1 at positions that are 1 modulo 4.
pub open spec fn second_bit(b: Seq<bool>, ii: int) -> bool {
    if ii < b.len() { b[ii] } else { ii % 4 == 1 }
}

/// Number of positions in `start .. start + count` where the two encodings differ.
pub open spec fn mismatches(a: Seq<bool>, b: Seq<bool>, start: int, count: nat) -> nat
    decreases count,
{
    if count == 0 {
        0
    } else {
        mismatches(a, b, start, (count - 1) as nat)
            + if first_bit(a, start + count - 1) != second_bit(b, start + count - 1) { 1nat } else { 0nat }
    }
}

/// Weighted contribution of the layer of area `l`: its mismatches, capped at
/// `max(l - 1, 1)`, shifted by the layer's weight.
pub open spec fn layer_diff(a: Seq<bool>, b: Seq<bool>, l: nat) -> nat {
    let cc = mismatches(a, b, encoding_length(l) - l, l);
    let cap = if l >= 2 { (l - 1) as nat } else { 1nat };
    (if cc <= cap { cc } else { cap }) * pow2(layer_shift_spec(l))
}

/// Whether both encodings end before the layer of area `l` starts.
pub open spec fn both_end_before(a: Seq<bool>, b: Seq<bool>, l: nat) -> bool {
    a.len() <= encoding_length(l) - l && b.len() <= encoding_length(l) - l
}

/// Distance accumulated from layer `t` (area `4^t`) on.
pub open spec fn diff_from(a: Seq<bool>, b: Seq<bool>, t: nat) -> nat
    decreases 9 - t,
{
    if t > 8 {
        0
    } else if both_end_before(a, b, pow4(t)) {
        remainder_spec(t)
    } else {
        layer_diff(a, b, pow4(t)) + diff_from(a, b, t + 1)
    }
}

/// Sum of the weighted contributions of the layers `0 .. t`.
pub open spec fn layer_sum(a: Seq<bool>, b: Seq<bool>, t: nat) -> nat
    decreases t,
{
    if t == 0 {
        0
    } else {
        layer_sum(a, b, (t - 1) as nat) + layer_diff(a, b, pow4((t - 1) as nat))
    }
}

impl ShapeEncodingString {
    /// Whether the text can be decoded.
    pub open spec fn text_ok(&self) -> bool {
        match self {
            ShapeEncodingString::Hex(s) => hex_text_ok(s@) && hex_bits_length_known(4 * hex_padded(s@).len()),
            ShapeEncodingString::Bit(s) => bit_text_ok(s@),
        }
    }

    /// The decoded bits.
    pub open spec fn decoded(&self) -> Seq<bool> {
        match self {
            ShapeEncodingString::Hex(s) => hex_text_bits(s@),
            ShapeEncodingString::Bit(s) => bit_text_bits(s@),
        }
    }

    /// Whether both texts are of the same kind.
    pub open spec fn same_kind(&self, other: &ShapeEncodingString) -> bool {
        (self is Hex && other is Hex) || (self is Bit && other is Bit)
    }

    /// The text.
    pub fn unwrap(&self) -> (r: &String)
        ensures
            r == match self {
                ShapeEncodingString::Hex(s) => s,
                ShapeEncodingString::Bit(s) => s,
            },
    {
        match self {
            Self::Hex(string) => string,
            Self::Bit(string) => string,
        }
    }

    /// Weighted distance to another encoding of the same kind.
    pub fn diff(&self, other: &Self) -> (r: u64)
        requires
            self.same_kind(other),
            self.text_ok(),
            other.text_ok(),
        ensures
            r == diff_from(self.decoded(), other.decoded(), 0),
    {
        ShapeEncoding::shape_encoding_diff(self, other)
    }
}

proof fn lemma_encoding_length_of_layer(t: nat)
    requires
        t <= 8,
    ensures
        pow4(t) <= encoding_length(pow4(t)) <= 109225,
        pow4(t) <= 65536,
{
    lemma2_to64();
    reveal_with_fuel(encoding_length, 10);
    assert(pow4(t) == pow2(2 * t));
}

proof fn lemma_mismatches_bound(a: Seq<bool>, b: Seq<bool>, start: int, count: nat)
    ensures
        mismatches(a, b, start, count) <= count,
    decreases count,
{
    if count > 0 {
        lemma_mismatches_bound(a, b, start, (count - 1) as nat);
    }
}

proof fn lemma_layer_diff_bound(a: Seq<bool>, b: Seq<bool>, t: nat)
    requires
        t <= 8,
    ensures
        layer_diff(a, b, pow4(t)) <= 65536 * 256,
{
    lemma_encoding_length_of_layer(t);
    lemma2_to64();
    let l = pow4(t);
    let cc = mismatches(a, b, encoding_length(l) - l, l);
    let cap = if l >= 2 { (l - 1) as nat } else { 1nat };
    let c = if cc <= cap { cc } else { cap };
    assert(pow2(layer_shift_spec(l)) <= 256);
    assert(c * pow2(layer_shift_spec(l)) <= 65536 * 256) by (nonlinear_arith)
        requires c <= 65536, pow2(layer_shift_spec(l)) <= 256;
}

proof fn lemma_diff_from_bound(a: Seq<bool>, b: Seq<bool>, t: nat)
    requires
        t <= 9,
    ensures
        diff_from(a, b, t) <= (9 - t) * 65536 * 256 + 65536,
    decreases 9 - t,
{
    if t <= 8 && !both_end_before(a, b, pow4(t)) {
        lemma_layer_diff_bound(a, b, t);
        lemma_diff_from_bound(a, b, t + 1);
    }
}

impl ShapeEncoding {
    /// The weight exponent of the layer of area `l`.
    pub fn layer_shift(l: usize) -> (r: u32)
        requires
            is_layer_area(l as nat),
        ensures
            r == layer_shift_spec(l as nat),
    {
        match l {
            1 => 8,
            4 => 8,
            16 => 8,
            64 => 8,
            256 => 8,
            1024 => 6,
            4096 => 4,
            16384 => 2,
            _ => 0,
        }
    }

    /// The lump added when both encodings end before layer `i`.
    pub fn remainder(i: u64) -> (r: u64)
        ensures
            r == remainder_spec(i as nat),
    {
        let mut n: u64 = 0;
        if i <= 0 {
            n += 256; // 1 << 8
        }
        if i <= 1 {
            n += 512; // 2 << 8
        }
        if i <= 2 {
            n += 2048; // 8 << 8
        }
        if i <= 3 {
            n += 8192; // 32 << 8
        }
        if i <= 4 {
            n += 32768; // 128 << 8
        }
        if i <= 5 {
            n += 8192; // 128 << 6
        }
        if i <= 6 {
            n += 2048; // 128 << 4
        }
        if i <= 7 {
            n += 512; // 128 << 2
        }
        if i <= 8 {
            n += 128; // 128 << 0
        }
        n
    }

    /// Number of differing positions among the `l` positions of the layer of area `l`.
    fn layer_mismatches(a: &BitVec, b: &BitVec, l: usize, ll: usize) -> (r: u64)
        requires
            l <= ll,
            ll == encoding_length(l as nat),
            ll <= 109225,
        ensures
            r == mismatches(a@, b@, ll - l, l as nat),
    {
        let mut cc: u64 = 0;
        let mut i: usize = 0;
        while i < l
            invariant
                l <= ll <= 109225,
                i <= l,
                cc == mismatches(a@, b@, ll - l, i as nat),
                cc <= i,
            decreases l - i,
        {
            let ii = ll - l + i;
            let aa = if ii < a.len() { a.get(ii) } else { ii % 4 == 0 };
            let bb = if ii < b.len() { b.get(ii) } else { ii % 4 == 1 };
            if aa != bb {
                cc += 1;
            }
            i += 1;
        }
        cc
    }

    /// Weighted contribution of the layer of area `l`.
    fn weighted_layer(a: &BitVec, b: &BitVec, l: usize, t: Ghost<nat>) -> (r: u64)
        requires
            t@ <= 8,
            l == pow4(t@),
        ensures
            r == layer_diff(a@, b@, l as nat),
            r <= 65536 * 256,
    {
        proof {
            lemma_encoding_length_of_layer(t@);
            lemma_layer_diff_bound(a@, b@, t@);
            lemma2_to64();
        }
        let ll = Self::length_from_area(l);
        let mut cc = Self::layer_mismatches(a, b, l, ll);
        proof { lemma_mismatches_bound(a@, b@, ll - l, l as nat); }
        let cap: u64 = if l >= 2 { l as u64 - 1 } else { 1 };
        if cc > cap {
            cc = cap;
        }
        let shift = Self::layer_shift(l);
        assert(shift <= 8);
        proof {
            vstd::bits::lemma_u64_shl_is_mul(cc, shift as u64);
        }
        cc << shift
    }

    /// Weighted distance between two bit streams: mismatches of each layer,
    /// capped and weighted by layer, until both streams have ended.
    pub fn shape_encoding_diff_bits(a: &BitVec, b: &BitVec) -> (r: u64)
        ensures
            r == diff_from(a@, b@, 0),
    {
        proof { lemma2_to64(); }
        let mut l: usize = 1;
        let mut diff: u64 = 0;
        let ghost mut t: nat = 0;
        proof { lemma_diff_from_bound(a@, b@, 0); }
        while l <= 65536
            invariant
                t <= 9,
                l == pow4(t),
                t <= 8 ==> l <= 65536,
                t == 9 ==> l > 65536,
                diff + diff_from(a@, b@, t) == diff_from(a@, b@, 0),
                diff_from(a@, b@, 0) <= 9 * 65536 * 256 + 65536,
            decreases 9 - t,
        {
            proof {
                if t == 9 {
                    assert(false);
                }
                lemma_encoding_length_of_layer(t);
                lemma_diff_from_bound(a@, b@, t);
            }
            let ll = Self::length_from_area(l);
            let lls = Self::pow_of_two(l);
            proof { lemma_log2_pow2(2 * t); }
            if a.len() <= ll - l && b.len() <= ll - l {
                let rem = Self::remainder((lls >> 1) as u64);
                assert(lls >> 1 == lls / 2) by (bit_vector);
                diff += rem;
                return diff;
            }
            let layer = Self::weighted_layer(a, b, l, Ghost(t));
            diff += layer;
            proof {
                lemma2_to64();
                vstd::arithmetic::power2::lemma_pow2_adds(2 * t, 2);
                if t < 8 {
                    crate::math::lemma_pow2_increases(2 * t + 2, 16);
                }
            }
            assert(l << 2 == l * 4) by (bit_vector) requires l <= 65536;
            l = l << 2;
            proof { t = t + 1; }
        }
        diff
    }

    /// Weighted contribution of layer `layer` (0 is the coarsest, one bit).
    pub fn shape_encoding_diff_layer(a: &BitVec, b: &BitVec, layer: usize) -> (r: u64)
        requires
            layer <= 8,
        ensures
            r == layer_diff(a@, b@, pow4(layer as nat)),
    {
        assert(layer << 1 == 2 * layer) by (bit_vector) requires layer <= 8;
        let l = one_shl(layer << 1);
        Self::weighted_layer(a, b, l, Ghost(layer as nat))
    }

    /// Weighted distance between two encodings of the same kind.
    pub fn shape_encoding_diff(me: &ShapeEncodingString, other: &ShapeEncodingString) -> (r: u64)
        requires
            me.same_kind(other),
            me.text_ok(),
            other.text_ok(),
        ensures
            r == diff_from(me.decoded(), other.decoded(), 0),
    {
        let (a, b) = match (me, other) {
            (ShapeEncodingString::Hex(aa), ShapeEncodingString::Hex(bb)) => (
                ShapeEncoding::hexstring_to_bits(aa.as_str()),
                ShapeEncoding::hexstring_to_bits(bb.as_str()),
            ),
            (ShapeEncodingString::Bit(aa), ShapeEncodingString::Bit(bb)) => (
                ShapeEncoding::bitstring_to_bits(aa.as_str()),
                ShapeEncoding::bitstring_to_bits(bb.as_str()),
            ),
            _ => {
                assert(false);
                (BitVec::new(), BitVec::new())
            },
        };
        Self::shape_encoding_diff_bits(&a, &b)
    }
}

/// The distance is the sum of the layers' weighted contributions up to the
/// first layer before which both encodings have ended, plus the lump for the
/// layers from there on; when no such layer exists up to area 65536, it is
/// the sum over all nine layers.
pub proof fn law_diff_is_sum_of_layers(a: Seq<bool>, b: Seq<bool>, t: nat)
    requires
        t <= 9,
        forall|u: nat| u < t ==> !(a.len() <= #[trigger] encoding_length(pow4(u)) - pow4(u)
            && b.len() <= encoding_length(pow4(u)) - pow4(u)),
        t <= 8 ==> a.len() <= encoding_length(pow4(t)) - pow4(t) && b.len() <= encoding_length(pow4(t)) - pow4(t),
    ensures
        diff_from(a, b, 0) == layer_sum(a, b, t) + if t <= 8 { remainder_spec(t) } else { 0 },
{
    assert forall|u: nat| u < t implies !#[trigger] both_end_before(a, b, pow4(u)) by {
        assert(!(a.len() <= encoding_length(pow4(u)) - pow4(u) && b.len() <= encoding_length(pow4(u)) - pow4(u)));
    }
    lemma_diff_split(a, b, 0, t);
}

proof fn lemma_diff_split(a: Seq<bool>, b: Seq<bool>, s: nat, t: nat)
    requires
        s <= t <= 9,
        forall|u: nat| u < t ==> !#[trigger] both_end_before(a, b, pow4(u)),
        t <= 8 ==> both_end_before(a, b, pow4(t)),
    ensures
        layer_sum(a, b, s) + diff_from(a, b, s) == layer_sum(a, b, t) + if t <= 8 { remainder_spec(t) } else { 0 },
    decreases t - s,
{
    if s < t {
        assert(!both_end_before(a, b, pow4(s)));
        lemma_diff_split(a, b, s + 1, t);
    }
}

/// Whether two bit sequences agree at every position that the layer of area
/// `l` compares.
pub open spec fn agree_in_layer(a: Seq<bool>, b: Seq<bool>, l: nat) -> bool {
    forall|i: int| encoding_length(l) - l <= i < encoding_length(l) ==> #[trigger] a[i] == b[i]
}

/// Whether two bit sequences agree at every position that the layers of
/// areas `1, 4, .., 4^k` compare.
pub open spec fn agree_on_layers(a: Seq<bool>, b: Seq<bool>, k: nat) -> bool {
    forall|t: nat| t <= k ==> #[trigger] agree_in_layer(a, b, pow4(t))
}

/// Positions of the layers inside an encoding of a `2^k × 2^k` square, and
/// the next layer starting past its end.
proof fn lemma_layer_windows(u: nat, k: nat)
    requires
        u <= k <= 8,
    ensures
        pow4(u) <= encoding_length(pow4(u)) <= encoding_length(pow4(k)),
        encoding_length(pow4(u)) - pow4(u) < encoding_length(pow4(k)),
        k < 8 ==> encoding_length(pow4(k)) <= encoding_length(pow4(k + 1)) - pow4(k + 1),
{
    lemma_layer_table(u);
    lemma_layer_table(k);
    if k < 8 {
        lemma_layer_table(k + 1);
    }
}

/// Areas and encoding lengths of the squares of side 1 to 256.
proof fn lemma_layer_table(u: nat)
    requires
        u <= 8,
    ensures
        ({
            let l = pow4(u);
            let e = encoding_length(l);
            ||| u == 0 && l == 1 && e == 1
            ||| u == 1 && l == 4 && e == 5
            ||| u == 2 && l == 16 && e == 25
            ||| u == 3 && l == 64 && e == 105
            ||| u == 4 && l == 256 && e == 425
            ||| u == 5 && l == 1024 && e == 1705
            ||| u == 6 && l == 4096 && e == 6825
            ||| u == 7 && l == 16384 && e == 27305
            ||| u == 8 && l == 65536 && e == 109225
        }),
{
    lemma2_to64();
    reveal_with_fuel(encoding_length, 10);
}

proof fn lemma_mismatches_zero(a: Seq<bool>, b: Seq<bool>, start: int, count: nat)
    requires
        0 <= start,
        start + count <= a.len(),
        a.len() == b.len(),
    ensures
        mismatches(a, b, start, count) == 0 <==> forall|i: int| start <= i < start + count ==> #[trigger] a[i] == b[i],
    decreases count,
{
    if count > 0 {
        lemma_mismatches_zero(a, b, start, (count - 1) as nat);
        let last = start + count - 1;
        if mismatches(a, b, start, count) == 0 {
            assert forall|i: int| start <= i < start + count implies #[trigger] a[i] == b[i] by {
                if i < last {
                    assert(start <= i < start + (count - 1));
                }
            }
        }
    }
}

proof fn lemma_layer_diff_zero(a: Seq<bool>, b: Seq<bool>, t: nat)
    requires
        t <= 8,
        encoding_length(pow4(t)) <= a.len(),
        a.len() == b.len(),
    ensures
        layer_diff(a, b, pow4(t)) == 0 <==> agree_in_layer(a, b, pow4(t)),
{
    lemma_layer_windows(t, t);
    let l = pow4(t);
    let start = encoding_length(l) - l;
    lemma_mismatches_zero(a, b, start, l);
    let cc = mismatches(a, b, start, l);
    let cap = if l >= 2 { (l - 1) as nat } else { 1nat };
    let c = if cc <= cap { cc } else { cap };
    let w = pow2(layer_shift_spec(l));
    vstd::arithmetic::power2::lemma_pow2_pos(layer_shift_spec(l));
    assert(c * w == 0 <==> c == 0) by (nonlinear_arith) requires w > 0;
    assert(c == 0 <==> cc == 0);
}

proof fn lemma_layer_sum_zero(a: Seq<bool>, b: Seq<bool>, t: nat)
    requires
        t <= 9,
        forall|u: nat| u < t ==> #[trigger] encoding_length(pow4(u)) <= a.len(),
        a.len() == b.len(),
    ensures
        layer_sum(a, b, t) == 0 <==> forall|u: nat| u < t ==> #[trigger] agree_in_layer(a, b, pow4(u)),
    decreases t,
{
    if t > 0 {
        let s = (t - 1) as nat;
        lemma_layer_sum_zero(a, b, s);
        assert(encoding_length(pow4(s)) <= a.len());
        lemma_layer_diff_zero(a, b, s);
        if layer_sum(a, b, t) == 0 {
            assert forall|u: nat| u < t implies #[trigger] agree_in_layer(a, b, pow4(u)) by {
                if u < s {
                    assert(u < s);
                }
            }
        }
    }
}

/// An encoding of a `2^k × 2^k` square (side 1 to 128) is at distance
/// `remainder(k + 1)` from itself, and at least that far from any other of
/// the same length; exactly that far from those that agree with it at every
/// position that the layers compare.
pub proof fn law_self_distance_is_least(a: Seq<bool>, b: Seq<bool>, k: nat)
    requires
        k <= 7,
        a.len() == encoding_length(pow4(k)),
        b.len() == a.len(),
    ensures
        diff_from(a, a, 0) == remainder_spec(k + 1),
        diff_from(a, b, 0) >= diff_from(a, a, 0),
        diff_from(a, b, 0) == diff_from(a, a, 0) <==> agree_on_layers(a, b, k),
{
    assert forall|u: nat| u < k + 1 implies !(a.len() <= #[trigger] encoding_length(pow4(u)) - pow4(u)
        && b.len() <= encoding_length(pow4(u)) - pow4(u)) by {
        lemma_layer_windows(u, k);
    }
    lemma_layer_windows(k, k);
    assert(both_end_before(a, b, pow4(k + 1)));
    assert(both_end_before(a, a, pow4(k + 1)));
    law_diff_is_sum_of_layers(a, b, k + 1);
    law_diff_is_sum_of_layers(a, a, k + 1);
    assert forall|u: nat| u < k + 1 implies #[trigger] encoding_length(pow4(u)) <= a.len() by {
        lemma_layer_windows(u, k);
    }
    lemma_layer_sum_zero(a, a, k + 1);
    lemma_layer_sum_zero(a, b, k + 1);
    assert forall|u: nat| u < k + 1 implies #[trigger] agree_in_layer(a, a, pow4(u)) by {}
    if agree_on_layers(a, b, k) {
        assert forall|u: nat| u < k + 1 implies #[trigger] agree_in_layer(a, b, pow4(u)) by {
            assert(u <= k);
        }
    }
    if layer_sum(a, b, k + 1) == 0 {
        assert forall|t: nat| t <= k implies #[trigger] agree_in_layer(a, b, pow4(t)) by {
            assert(t < k + 1);
        }
    }
}

proof fn lemma_mismatches_split(a: Seq<bool>, b: Seq<bool>, s: int, m: nat, n: nat)
    ensures
        mismatches(a, b, s, m + n) == mismatches(a, b, s, m) + mismatches(a, b, s + m, n),
    decreases n,
{
    if n > 0 {
        lemma_mismatches_split(a, b, s, m, (n - 1) as nat);
        assert((m + n - 1) as nat == m + (n - 1) as nat);
    }
}

proof fn lemma_mismatches_same_second(a: Seq<bool>, b: Seq<bool>, c: Seq<bool>, s: int, n: nat)
    requires
        forall|j: int| s <= j < s + n ==> #[trigger] second_bit(b, j) == second_bit(c, j),
    ensures
        mismatches(a, b, s, n) == mismatches(a, c, s, n),
    decreases n,
{
    if n > 0 {
        lemma_mismatches_same_second(a, b, c, s, (n - 1) as nat);
        assert(second_bit(b, s + n - 1) == second_bit(c, s + n - 1));
    }
}

proof fn lemma_mismatches_none(a: Seq<bool>, b: Seq<bool>, s: int, n: nat)
    requires
        forall|j: int| s <= j < s + n ==> #[trigger] first_bit(a, j) == second_bit(b, j),
    ensures
        mismatches(a, b, s, n) == 0,
    decreases n,
{
    if n > 0 {
        lemma_mismatches_none(a, b, s, (n - 1) as nat);
        assert(first_bit(a, s + n - 1) == second_bit(b, s + n - 1));
    }
}

proof fn lemma_mismatches_all(a: Seq<bool>, b: Seq<bool>, s: int, n: nat)
    requires
        forall|j: int| s <= j < s + n ==> #[trigger] first_bit(a, j) != second_bit(b, j),
    ensures
        mismatches(a, b, s, n) == n,
    decreases n,
{
    if n > 0 {
        lemma_mismatches_all(a, b, s, (n - 1) as nat);
        assert(first_bit(a, s + n - 1) != second_bit(b, s + n - 1));
    }
}

/// Windows of different layers do not overlap, and later layers start later.
proof fn lemma_windows_apart(u: nat, t: nat)
    requires
        u <= 8,
        t <= 8,
        u != t,
    ensures
        u < t ==> encoding_length(pow4(u)) <= encoding_length(pow4(t)) - pow4(t),
        t < u ==> encoding_length(pow4(t)) <= encoding_length(pow4(u)) - pow4(u),
{
    lemma_layer_table(u);
    lemma_layer_table(t);
}

/// Flipping one bit of the second stream, inside the window of layer `t`,
/// changes only the contribution of layer `t`.
proof fn lemma_diff_from_flip(a: Seq<bool>, b: Seq<bool>, c: Seq<bool>, t: nat, i: int, s: nat)
    requires
        s <= 9,
        t <= 8,
        encoding_length(pow4(t)) - pow4(t) <= i < encoding_length(pow4(t)),
        0 <= i < b.len(),
        c == b.update(i, !b[i]),
    ensures
        s <= t ==> diff_from(a, c, s) + layer_diff(a, b, pow4(t)) == diff_from(a, b, s) + layer_diff(a, c, pow4(t)),
        s > t ==> diff_from(a, c, s) == diff_from(a, b, s),
    decreases 9 - s,
{
    if s <= 8 {
        lemma_diff_from_flip(a, b, c, t, i, s + 1);
        lemma_layer_table(s);
        lemma_layer_table(t);
        if s != t {
            lemma_windows_apart(s, t);
            let l = pow4(s);
            let st = encoding_length(l) - l;
            assert forall|j: int| st <= j < st + l implies #[trigger] second_bit(b, j) == second_bit(c, j) by {
                assert(j != i);
            }
            lemma_mismatches_same_second(a, b, c, st, l);
        }
    }
}

/// Each mismatch in a layer adds the layer's weight to the distance: 256 for
/// the layers of area 1 to 256, then 64, 16, 4 and 1 for the layers of area
/// 1024 to 65536, for up to `max(l - 1, 1)` mismatches in the layer of area
/// `l`; past that, more mismatches add nothing. Streams of any lengths are
/// compared position by position over every layer that either of them
/// reaches: past the end of a stream, the first reads 1 at positions
/// divisible by 4 and the second reads 1 at positions 1 modulo 4.
///
/// Stated here for a bit `i` of the second stream inside the window of layer
/// `t`, where the two streams agree from `i` to the end of the window:
/// flipping it adds one mismatch to the layer.
pub proof fn law_mismatch_adds_layer_weight(a: Seq<bool>, b: Seq<bool>, t: nat, i: int)
    requires
        t <= 8,
        encoding_length(pow4(t)) - pow4(t) <= i < encoding_length(pow4(t)),
        i < b.len(),
        forall|j: int| i <= j < encoding_length(pow4(t)) ==>
            (if j < a.len() { a[j] } else { j % 4 == 0 }) == #[trigger] second_bit(b, j),
    ensures
        ({
            let start = encoding_length(pow4(t)) - pow4(t);
            let cap = if t == 0 { 1 } else { pow4(t) - 1 };
            let weight = pow2(if t <= 4 { 8nat } else { (16 - 2 * t) as nat });
            let flipped = b.update(i, !b[i]);
            &&& i - start + 1 <= cap ==> diff_from(a, flipped, 0) == diff_from(a, b, 0) + weight
            &&& (forall|j: int| start <= j < i ==>
                    (if j < a.len() { a[j] } else { j % 4 == 0 }) != #[trigger] second_bit(b, j))
                && i - start >= cap ==> diff_from(a, flipped, 0) == diff_from(a, b, 0)
        }),
{
    let l = pow4(t);
    let st = encoding_length(l) - l;
    let c = b.update(i, !b[i]);
    lemma_layer_table(t);
    lemma_diff_from_flip(a, b, c, t, i, 0);
    let before = (i - st) as nat;
    let after = (l - before - 1) as nat;
    // Split the window at `i`.
    lemma_mismatches_split(a, b, st, before, (l - before) as nat);
    lemma_mismatches_split(a, b, st + before, 1, after);
    lemma_mismatches_split(a, c, st, before, (l - before) as nat);
    lemma_mismatches_split(a, c, st + before, 1, after);
    assert(st + before == i);
    assert(before + (l - before) as nat == l);
    assert(1 + after == (l - before) as nat);
    assert forall|j: int| st <= j < st + before implies #[trigger] second_bit(b, j) == second_bit(c, j) by {}
    lemma_mismatches_same_second(a, b, c, st, before);
    assert forall|j: int| i + 1 <= j < i + 1 + after implies #[trigger] first_bit(a, j) == second_bit(b, j) by {
        assert(second_bit(b, j) == second_bit(b, j));
    }
    assert forall|j: int| i + 1 <= j < i + 1 + after implies #[trigger] first_bit(a, j) == second_bit(c, j) by {
        assert(second_bit(b, j) == second_bit(b, j));
    }
    lemma_mismatches_none(a, b, i + 1, after);
    lemma_mismatches_none(a, c, i + 1, after);
    assert(first_bit(a, i) == second_bit(b, i));
    assert(mismatches(a, b, i, 1) == 0) by { reveal_with_fuel(mismatches, 2); }
    assert(mismatches(a, c, i, 1) == 1) by { reveal_with_fuel(mismatches, 2); }
    let p = mismatches(a, b, st, before);
    lemma_mismatches_bound(a, b, st, before);
    assert(mismatches(a, b, st, l) == p);
    assert(mismatches(a, c, st, l) == p + 1);
    let w = pow2(layer_shift_spec(l));
    assert(w == pow2(if t <= 4 { 8nat } else { (16 - 2 * t) as nat }));
    let cap: nat = if l >= 2 { (l - 1) as nat } else { 1nat };
    assert(cap == if t == 0 { 1 } else { pow4(t) - 1 });
    if before + 1 <= cap {
        assert(layer_diff(a, b, l) == p * w);
        assert(layer_diff(a, c, l) == (p + 1) * w);
        assert((p + 1) * w == p * w + w) by (nonlinear_arith);
    }
    if (forall|j: int| st <= j < i ==>
            (if j < a.len() { a[j] } else { j % 4 == 0 }) != #[trigger] second_bit(b, j))
        && before >= cap {
        assert forall|j: int| st <= j < st + before implies #[trigger] first_bit(a, j) != second_bit(b, j) by {
            assert((if j < a.len() { a[j] } else { j % 4 == 0 }) != second_bit(b, j));
        }
        lemma_mismatches_all(a, b, st, before);
        assert(layer_diff(a, b, l) == cap * w);
        assert(layer_diff(a, c, l) == cap * w);
    }
}

} // verus!
