//! Serialising the layers of an encoding into one bit stream,
//! most significant bits first.
use vstd::prelude::*;
use vstd::arithmetic::power2::{pow2, lemma2_to64, lemma_pow2_adds, lemma_pow2_subtracts, lemma_pow2_strictly_increases, lemma_pow2_pos};
use crate::bit_vec::BitVec;
use crate::math::{log2, pow4, one_shl, lemma_log2_pow2, lemma_usize_bits, lemma_pow2_increases};
use crate::shape::encoding::ShapeEncoding;
use crate::shape::layout::encoding_length;

verus! {

/// Bit `off` of every one of the `cells` equal-width codes stored in `layer`,
/// in cell order; empty when the codes are not wider than `off`.
pub open spec fn layer_column(layer: Seq<bool>, cells: nat, off: nat) -> Seq<bool> {
    let stride = layer.len() / cells;
    if off < stride {
        Seq::new(cells, |j: int| layer[j * stride + off])
    } else {
        Seq::empty()
    }
}

/// The layer read at level `2^k` of an encoding with `n >= 2` layers:
/// the coarsest layer at level 2, the finest at the last level, and
/// layer `k / 2` in between.
pub open spec fn level_layer(n: nat, k: nat) -> nat {
    if k == 1 {
        0
    } else if k == 2 * (n - 1) {
        (n - 1) as nat
    } else {
        k / 2
    }
}

/// The bit of each code read at level `2^k`.
pub open spec fn level_offset(n: nat, k: nat) -> nat {
    if k == 1 || k == 2 * (n - 1) {
        0
    } else {
        k % 2
    }
}

/// Bits emitted at level `2^k`.
pub open spec fn level_bits(layers: Seq<Seq<bool>>, k: nat) -> Seq<bool> {
    let i = level_layer(layers.len(), k);
    layer_column(layers[i as int], pow4(i), level_offset(layers.len(), k))
}

/// Bits emitted at levels `2^1 .. 2^k`.
pub open spec fn bits_upto(layers: Seq<Seq<bool>>, k: nat) -> Seq<bool>
    decreases k,
{
    if k == 0 {
        Seq::empty()
    } else {
        bits_upto(layers, (k - 1) as nat) + level_bits(layers, k)
    }
}

/// The bit stream of an encoding: a single layer is emitted as it is;
/// otherwise the levels `2^1 .. 4^(n-1)` are emitted in turn.
pub open spec fn encoding_bits(layers: Seq<Seq<bool>>) -> Seq<bool> {
    if layers.len() == 1 {
        layers[0]
    } else {
        bits_upto(layers, (2 * (layers.len() - 1)) as nat)
    }
}

/// The exponent of the level at which layer `i` starts being read.
spec fn start_exp(i: nat) -> nat {
    if i == 0 { 1 } else { 2 * i }
}

proof fn lemma_pow2_div(k: nat, m: nat)
    ensures
        pow2(k) / pow2(m) == if k >= m { pow2((k - m) as nat) } else { 0 },
{
    lemma_pow2_pos(m);
    if k >= m {
        lemma_pow2_subtracts(m, k);
    } else {
        lemma_pow2_strictly_increases(k, m);
        vstd::arithmetic::div_mod::lemma_basic_div(pow2(k) as int, pow2(m) as int);
    }
}

/// The test made for layer `i` at level `2^k` selects exactly `level_layer`.
proof fn lemma_level_choice(n: nat, i: nat, k: nat)
    requires
        n >= 2,
        i < n,
        1 <= k <= 2 * (n - 1),
    ensures
        ({
            let m = start_exp(i);
            let sel = k >= m && (i == n - 1 || k < 2 * i + 2);
            &&& sel <==> i == level_layer(n, k)
            &&& sel ==> (k - m) as nat == level_offset(n, k)
        }),
{
}

impl ShapeEncoding {
    /// Serialises the layers into one bit stream (see `encoding_bits`).
    pub fn bits(&self) -> (r: BitVec)
        requires
            1 <= self.seq@.len(),
            2 * (self.seq@.len() - 1) < usize::BITS,
            encoding_length(pow4((self.seq@.len() - 1) as nat)) <= usize::MAX,
        ensures
            r@ == encoding_bits(self.layers()),
    {
        let area = self.area();
        let mut bits = BitVec::with_capacity(Self::length_from_area(area));
        if self.seq.len() == 1 {
            return self.seq[0].copy();
        }
        let n = self.seq.len();
        let ghost layers = self.layers();
        proof { lemma_usize_bits(); lemma2_to64(); }
        let mut level: usize = 2;
        let ghost mut k: nat = 1;
        while level <= area
            invariant
                n == self.seq@.len(),
                n >= 2,
                2 * (n - 1) < usize::BITS,
                layers == self.layers(),
                area == pow4((n - 1) as nat),
                1 <= k <= 2 * (n - 1) + 1,
                level == pow2(k),
                bits@ == bits_upto(layers, (k - 1) as nat),
            decreases 2 * (n - 1) + 1 - k,
        {
            proof {
                if k > 2 * (n - 1) {
                    lemma_pow2_strictly_increases((2 * (n - 1)) as nat, k);
                }
            }
            let mut i: usize = 0;
            while i < n
                invariant
                    n == self.seq@.len(),
                    n >= 2,
                    2 * (n - 1) < usize::BITS,
                    layers == self.layers(),
                    1 <= k <= 2 * (n - 1),
                    level == pow2(k),
                    i <= n,
                    bits@ == bits_upto(layers, (k - 1) as nat) + if level_layer(n as nat, k) < i {
                        level_bits(layers, k)
                    } else {
                        Seq::empty()
                    },
                decreases n - i,
            {
                proof { lemma_level_choice(n as nat, i as nat, k); }
                assert(i << 1 == 2 * i) by (bit_vector) requires i < 64;
                let exp = one_shl(i << 1);
                let mul = if i == 0 { 2 } else { exp };
                let ghost m = start_exp(i as nat);
                assert(mul == pow2(m)) by { lemma2_to64(); }
                proof { lemma_pow2_div(k, m); }
                proof { lemma_pow2_pos(m); }
                let q = level / mul;
                let offset = Self::pow_of_two(q);
                proof {
                    if k >= m {
                        lemma_log2_pow2((k - m) as nat);
                    }
                    lemma_pow2_adds(m, offset as nat);
                    lemma_pow2_increases((m + offset) as nat, (2 * (n - 1) + 1) as nat);
                    lemma_pow2_increases((2 * (n - 1) + 1) as nat, usize::BITS as nat);
                    vstd::bits::lemma_usize_pow2_no_overflow(offset as nat);
                }
                let len_i = self.seq[i].len();
                proof { lemma_pow2_pos(2 * (i as nat)); }
                let stride = len_i / exp;
                let il = mul * one_shl(offset);
                assert(il == pow2((m + offset) as nat));
                let mut selected = level == il && offset < stride;
                if selected && i < n - 1 {
                    let i1 = i + 1;
                    assert(i1 << 1 == 2 * i1) by (bit_vector) requires i1 < 64;
                    let iexp = one_shl(i1 << 1);
                    proof { lemma_pow2_div(k, 2 * (i as nat) + 2); }
                    proof { lemma_pow2_pos(2 * (i as nat) + 2); }
                    let iq = level / iexp;
                    let ioffset = Self::pow_of_two(iq);
                    proof {
                        let mi = (2 * (i as nat) + 2) as nat;
                        if k >= mi {
                            lemma_log2_pow2((k - mi) as nat);
                        } else {
                            lemma_pow2_strictly_increases(k, mi);
                        }
                        lemma_pow2_adds(mi, ioffset as nat);
                        lemma_pow2_increases((mi + ioffset) as nat, (2 * (n - 1) + 1) as nat);
                    }
                    let iil = iexp * one_shl(ioffset);
                    if il >= iil {
                        selected = false;
                    }
                }
                proof {
                    if level == il {
                        if k < m {
                            lemma_pow2_strictly_increases(k, m);
                        }
                    } else {
                        if k >= m {
                            assert(m + offset == k);
                        }
                    }
                }
                if selected {
                    let ghost prefix = bits@;
                    let mut j: usize = 0;
                    while j < exp
                        invariant
                            j <= exp,
                            exp == pow4(i as nat),
                            stride == self.seq@[i as int]@.len() / (exp as nat),
                            offset < stride,
                            len_i == self.seq@[i as int]@.len(),
                            i < n,
                            n == self.seq@.len(),
                            bits@ == prefix + Seq::new(j as nat, |t: int| self.seq@[i as int]@[t * stride + offset]),
                        decreases exp - j,
                    {
                        assert(j * stride + offset < self.seq@[i as int]@.len()) by (nonlinear_arith)
                            requires
                                j < exp,
                                offset < stride,
                                stride == self.seq@[i as int]@.len() / (exp as nat),
                                exp > 0,
                        {
                            assert(exp * stride <= self.seq@[i as int]@.len()) by (nonlinear_arith)
                                requires stride == self.seq@[i as int]@.len() / (exp as nat), exp > 0;
                            assert((j + 1) * stride <= exp * stride) by (nonlinear_arith)
                                requires j < exp, stride >= 0;
                        }
                        let index = j * stride + offset;
                        bits.push(self.seq[i].get(index));
                        j += 1;
                        assert(bits@ == prefix + Seq::new(j as nat, |t: int| self.seq@[i as int]@[t * stride + offset]));
                    }
                }
                i += 1;
            }
            proof { lemma_pow2_increases(k + 1, usize::BITS as nat); vstd::bits::lemma_usize_pow2_no_overflow((k + 1) as nat); lemma_pow2_adds(k, 1); }
            proof { vstd::bits::lemma_usize_shl_is_mul(level, 1); }
            level = level << 1;
            proof { k = k + 1; }
        }
        proof {
            if k <= 2 * (n - 1) {
                lemma_pow2_increases(k, (2 * (n - 1)) as nat);
            }
        }
        bits
    }
}

} // verus!
