//! Text forms of bit streams: binary digits and hexadecimal digits.
use vstd::prelude::*;
use vstd::string::StringSliceAdditionalSpecFns;
use crate::bit_vec::BitVec;
use crate::math::pow4;
use crate::shape::bitstream::encoding_bits;
use crate::shape::encoding::{ShapeEncoding, ShapeEncodingString};
use crate::shape::layout::encoding_length;

verus! {

broadcast use vstd::string::group_string_axioms;

/// '1' for a set bit, '0' otherwise.
pub open spec fn bit_char(b: bool) -> char {
    if b { '1' } else { '0' }
}

/// One binary digit per bit.
pub open spec fn bit_text(bits: Seq<bool>) -> Seq<char> {
    Seq::new(bits.len(), |i: int| bit_char(bits[i]))
}

/// Bit `i` of the stream padded with zeros on the right.
pub open spec fn padded_bit(bits: Seq<bool>, i: int) -> bool {
    0 <= i < bits.len() && bits[i]
}

/// Number of bytes needed to hold `len` bits.
pub open spec fn byte_count(len: nat) -> nat {
    len / 8 + if len % 8 != 0 { 1nat } else { 0nat }
}

/// Value of the `q`-th group of four bits of the zero-padded stream.
pub open spec fn nibble_of(bits: Seq<bool>, q: int) -> nat {
    (if padded_bit(bits, 4 * q) { 8nat } else { 0nat })
        + (if padded_bit(bits, 4 * q + 1) { 4nat } else { 0nat })
        + (if padded_bit(bits, 4 * q + 2) { 2nat } else { 0nat })
        + (if padded_bit(bits, 4 * q + 3) { 1nat } else { 0nat })
}

/// Upper-case hexadecimal digits.
pub open spec fn hex_digits() -> Seq<char> {
    seq!['0', '1', '2', '3', '4', '5', '6', '7', '8', '9', 'A', 'B', 'C', 'D', 'E', 'F']
}

/// Two hexadecimal digits for every byte of the zero-padded stream.
pub open spec fn hex_text(bits: Seq<bool>) -> Seq<char> {
    Seq::new(2 * byte_count(bits.len()), |q: int| hex_digits()[nibble_of(bits, q) as int])
}

/// Whether `c` is a hexadecimal digit of either case.
pub open spec fn is_hex_char(c: char) -> bool {
    ('0' <= c && c <= '9') || ('A' <= c && c <= 'F') || ('a' <= c && c <= 'f')
}

/// Value of a hexadecimal digit; a `+` (a sign in front of the second digit
/// of a byte) counts as 0.
pub open spec fn nibble_value(c: char) -> nat {
    if '0' <= c && c <= '9' {
        (c as int - '0' as int) as nat
    } else if 'A' <= c && c <= 'F' {
        (c as int - 'A' as int + 10) as nat
    } else if 'a' <= c && c <= 'f' {
        (c as int - 'a' as int + 10) as nat
    } else {
        0
    }
}

/// Bit `t` (most significant first) of a four-bit value.
pub open spec fn nibble_bit(v: nat, t: nat) -> bool {
    if t == 0 {
        (v / 8) % 2 == 1
    } else if t == 1 {
        (v / 4) % 2 == 1
    } else if t == 2 {
        (v / 2) % 2 == 1
    } else {
        v % 2 == 1
    }
}

/// Hexadecimal text accepted by `hexstring_to_bits`: digits of either case,
/// where the first digit of a byte may be a `+` sign.
pub open spec fn hex_text_ok(s: Seq<char>) -> bool {
    forall|p: int| 0 <= p < s.len() ==> is_hex_char(#[trigger] s[p]) || (s[p] == '+' && p % 2 == 0)
}

/// The text padded with a `0` digit to an even length.
pub open spec fn hex_padded(s: Seq<char>) -> Seq<char> {
    if s.len() % 2 == 1 { s.push('0') } else { s }
}

/// Four bits for every digit of the padded text.
pub open spec fn hex_raw_bits(s: Seq<char>) -> Seq<bool> {
    let p = hex_padded(s);
    Seq::new(4 * p.len(), |i: int| nibble_bit(nibble_value(p[i / 4]), (i % 4) as nat))
}

/// Encoding lengths recovered from the number of whole-byte bits.
pub open spec fn hex_bits_length(n: nat) -> nat {
    if n == 8 { 5 }
    else if n == 32 { 25 }
    else if n == 112 { 105 }
    else if n == 432 { 425 }
    else if n == 1712 { 1705 }
    else if n == 6832 { 6825 }
    else if n == 27312 { 27305 }
    else { 109225 }
}

/// Whole-byte bit counts that `hex_bits_length` knows.
pub open spec fn hex_bits_length_known(n: nat) -> bool {
    n == 8 || n == 32 || n == 112 || n == 432 || n == 1712 || n == 6832 || n == 27312 || n == 109232
}

/// Whether the text is a single digit of value 0 or 8: the hexadecimal form
/// of a one-bit encoding, which keeps only its first digit.
pub open spec fn hex_is_single_bit(s: Seq<char>) -> bool {
    s.len() == 1 && (nibble_value(s[0]) == 0 || nibble_value(s[0]) == 8)
}

/// Bits decoded from hexadecimal text.
pub open spec fn hex_text_bits(s: Seq<char>) -> Seq<bool> {
    let raw = hex_raw_bits(s);
    if hex_is_single_bit(s) {
        raw.take(1)
    } else {
        raw.take(hex_bits_length(raw.len()) as int)
    }
}

/// Decoding accepted hexadecimal text gives at least one bit.
pub proof fn lemma_hex_text_bits_nonempty(s: Seq<char>)
    requires
        hex_bits_length_known(4 * hex_padded(s).len()),
    ensures
        hex_text_bits(s).len() >= 1,
{
}

/// Binary text accepted by `bitstring_to_bits`: digits `0` and `1`, where the
/// first digit of a byte may be a `+` sign.
pub open spec fn bit_text_ok(s: Seq<char>) -> bool {
    forall|p: int| 0 <= p < s.len() ==> (#[trigger] s[p] == '0' || s[p] == '1' || (s[p] == '+' && p % 8 == 0))
}

/// Bits read from binary text: a set bit for every `1`.
pub open spec fn bit_text_bits(s: Seq<char>) -> Seq<bool> {
    Seq::new(s.len(), |i: int| s[i] == '1')
}

fn bit_str(b: bool) -> (r: &'static str)
    ensures
        r@ == seq![bit_char(b)],
{
    if b {
        proof { reveal_strlit("1"); }
        "1"
    } else {
        proof { reveal_strlit("0"); }
        "0"
    }
}

fn hex_digit_str(v: u8) -> (r: &'static str)
    requires
        v < 16,
    ensures
        r@ == seq![hex_digits()[v as int]],
{
    match v {
        0 => { proof { reveal_strlit("0"); } "0" }
        1 => { proof { reveal_strlit("1"); } "1" }
        2 => { proof { reveal_strlit("2"); } "2" }
        3 => { proof { reveal_strlit("3"); } "3" }
        4 => { proof { reveal_strlit("4"); } "4" }
        5 => { proof { reveal_strlit("5"); } "5" }
        6 => { proof { reveal_strlit("6"); } "6" }
        7 => { proof { reveal_strlit("7"); } "7" }
        8 => { proof { reveal_strlit("8"); } "8" }
        9 => { proof { reveal_strlit("9"); } "9" }
        10 => { proof { reveal_strlit("A"); } "A" }
        11 => { proof { reveal_strlit("B"); } "B" }
        12 => { proof { reveal_strlit("C"); } "C" }
        13 => { proof { reveal_strlit("D"); } "D" }
        14 => { proof { reveal_strlit("E"); } "E" }
        _ => { proof { reveal_strlit("F"); } "F" }
    }
}

/// Bit `base + t` of the zero-padded stream, for `base < len`.
fn padded_get(bits: &BitVec, base: usize, t: usize) -> (r: bool)
    requires
        base < bits@.len(),
        t < 8,
    ensures
        r == padded_bit(bits@, base + t),
{
    if t < bits.len() - base {
        bits.get(base + t)
    } else {
        false
    }
}

/// Upper-case hexadecimal digits of the zero-padded stream, at most `limit` of them.
fn hex_text_prefix(bits: &BitVec, limit: usize) -> (r: String)
    ensures
        r@ == hex_text(bits@).take(if limit < hex_text(bits@).len() { limit as int } else { hex_text(bits@).len() as int }),
{
    let len = bits.len();
    let nbytes = len / 8 + if len % 8 != 0 { 1 } else { 0 };
    let ghost full = hex_text(bits@);
    let mut s = String::new();
    let mut q: usize = 0;
    let mut j: usize = 0;
    while j < nbytes
        invariant
            len == bits@.len(),
            nbytes == byte_count(len as nat),
            full == hex_text(bits@),
            full.len() == 2 * nbytes,
            j <= nbytes,
            q == if 2 * j < limit { 2 * j } else { limit as int },
            s@ == full.take(q as int),
        decreases nbytes - j,
    {
        let base = 8 * j;
        assert(base < len) by (nonlinear_arith)
            requires j < nbytes, nbytes == byte_count(len as nat), base == 8 * j;
        let mut h: usize = 0;
        while h < 2
            invariant
                len == bits@.len(),
                full == hex_text(bits@),
                full.len() == 2 * nbytes,
                j < nbytes,
                base == 8 * j,
                base < len,
                h <= 2,
                q == if 2 * j + h < limit { 2 * j + h } else { limit as int },
                s@ == full.take(q as int),
            decreases 2 - h,
        {
            if q < limit {
                let t0 = 4 * h;
                let b0 = padded_get(bits, base, t0);
                let b1 = padded_get(bits, base, t0 + 1);
                let b2 = padded_get(bits, base, t0 + 2);
                let b3 = padded_get(bits, base, t0 + 3);
                let v: u8 = (if b0 { 8u8 } else { 0u8 }) + (if b1 { 4u8 } else { 0u8 })
                    + (if b2 { 2u8 } else { 0u8 }) + (if b3 { 1u8 } else { 0u8 });
                assert(v == nibble_of(bits@, 2 * j + h));
                s.append(hex_digit_str(v));
                q = q + 1;
                assert(s@ == full.take(q as int));
            }
            h += 1;
        }
        j += 1;
    }
    s
}

/// Number of hexadecimal digits kept by `hexstring`: the last digit is dropped
/// when it holds only padding.
pub open spec fn hex_keep(len: nat) -> nat {
    let h = 2 * byte_count(len);
    if 0 < len % 8 && len % 8 <= 4 {
        if h >= 2 { (h - 1) as nat } else { 1 }
    } else {
        h
    }
}

/// Number of hexadecimal digits kept by `hexstring_trim`: the last byte's
/// digits are dropped (but one digit stays) when the last byte is partial.
pub open spec fn hex_trim_keep(len: nat) -> nat {
    let h = 2 * byte_count(len);
    if len % 8 != 0 {
        if h >= 3 { (h - 2) as nat } else { 1 }
    } else {
        h
    }
}

/// Value of an ASCII hexadecimal digit (or `+`, which counts as 0).
fn byte_nibble(b: u8, Ghost(c): Ghost<char>) -> (r: u8)
    requires
        b == c as u8,
        is_hex_char(c) || c == '+',
    ensures
        r == nibble_value(c),
        r < 16,
{
    // ASCII codes: '0' = 48, '9' = 57, 'A' = 65, 'F' = 70, 'a' = 97, 'f' = 102.
    if 48 <= b && b <= 57 {
        b - 48
    } else if 65 <= b && b <= 70 {
        b - 55
    } else if 97 <= b && b <= 102 {
        b - 87
    } else {
        0
    }
}

impl ShapeEncoding {
    /// Binary digits of the bits.
    pub fn bits_to_bitstring(bits: &BitVec) -> (r: String)
        ensures
            r@ == bit_text(bits@),
    {
        let mut s = String::new();
        let mut i: usize = 0;
        while i < bits.len()
            invariant
                i <= bits@.len(),
                s@ == bit_text(bits@).take(i as int),
            decreases bits@.len() - i,
        {
            s.append(bit_str(bits.get(i)));
            i += 1;
            assert(s@ == bit_text(bits@).take(i as int));
        }
        assert(bit_text(bits@).take(i as int) == bit_text(bits@));
        s
    }

    /// Upper-case hexadecimal digits of the bits, zero-padded to whole bytes.
    pub fn bits_to_hexstring(bits: &BitVec) -> (r: String)
        ensures
            r@ == hex_text(bits@),
    {
        let r = hex_text_prefix(bits, usize::MAX);
        proof {
            bits.lemma_len_fits();
            let full = hex_text(bits@);
            assert(full.len() <= usize::MAX) by (nonlinear_arith)
                requires full.len() == 2 * byte_count(bits@.len()), bits@.len() <= usize::MAX;
            assert(full.take(full.len() as int) == full);
        }
        r
    }
}

impl ShapeEncoding {
    /// The bit stream as binary digits.
    pub fn bitstring(&self) -> (r: ShapeEncodingString)
        requires
            1 <= self.seq@.len(),
            2 * (self.seq@.len() - 1) < usize::BITS,
            encoding_length(pow4((self.seq@.len() - 1) as nat)) <= usize::MAX,
        ensures
            r matches ShapeEncodingString::Bit(s) && s@ == bit_text(encoding_bits(self.layers())),
    {
        ShapeEncodingString::Bit(Self::bits_to_bitstring(&self.bits()))
    }

    /// The bit stream as upper-case hexadecimal digits; a last digit that
    /// holds only padding is dropped.
    pub fn hexstring(&self) -> (r: ShapeEncodingString)
        requires
            1 <= self.seq@.len(),
            2 * (self.seq@.len() - 1) < usize::BITS,
            encoding_length(pow4((self.seq@.len() - 1) as nat)) <= usize::MAX,
        ensures
            r matches ShapeEncodingString::Hex(s) && s@ == ({
                let b = encoding_bits(self.layers());
                hex_text(b).take(hex_keep(b.len()) as int)
            }),
    {
        let bits = self.bits();
        let len = bits.len();
        let h = 2 * (len / 8 + if len % 8 != 0 { 1 } else { 0 });
        let keep = if 0 < len % 8 && len % 8 <= 4 {
            if h >= 2 { h - 1 } else { 1 }
        } else {
            h
        };
        ShapeEncodingString::Hex(hex_text_prefix(&bits, keep))
    }

    /// Like `hexstring`, but the digits of a partial last byte are dropped,
    /// which gives better prefix matches.
    pub fn hexstring_trim(&self) -> (r: ShapeEncodingString)
        requires
            1 <= self.seq@.len(),
            2 * (self.seq@.len() - 1) < usize::BITS,
            encoding_length(pow4((self.seq@.len() - 1) as nat)) <= usize::MAX,
        ensures
            r matches ShapeEncodingString::Hex(s) && s@ == ({
                let b = encoding_bits(self.layers());
                hex_text(b).take(hex_trim_keep(b.len()) as int)
            }),
    {
        let bits = self.bits();
        let len = bits.len();
        let h = 2 * (len / 8 + if len % 8 != 0 { 1 } else { 0 });
        let keep = if len % 8 != 0 {
            if h >= 3 { h - 2 } else { 1 }
        } else {
            h
        };
        ShapeEncodingString::Hex(hex_text_prefix(&bits, keep))
    }

    /// Encoding length recovered from the number of whole-byte bits of a
    /// hexadecimal encoding.
    pub fn hexstring_to_bits_length(hexstring_len: usize) -> (r: usize)
        requires
            hex_bits_length_known(hexstring_len as nat),
        ensures
            r == hex_bits_length(hexstring_len as nat),
    {
        match hexstring_len {
            8 => 5,
            32 => 25,
            112 => 105,
            432 => 425,
            1712 => 1705,
            6832 => 6825,
            27312 => 27305,
            _ => 109225,
        }
    }

    /// Bits of a hexadecimal encoding.
    pub fn hexstring_to_bits(string: &str) -> (r: BitVec)
        requires
            hex_text_ok(string@),
            hex_bits_length_known(4 * hex_padded(string@).len()),
        ensures
            r@ == hex_text_bits(string@),
    {
        let ghost s = string@;
        proof {
            assert(vstd::string::is_ascii(string)) by {
                assert forall|i: int| 0 <= i < s.len() implies '\0' <= #[trigger] s[i] <= '\u{7f}' by {
                    assert(is_hex_char(s[i]) || s[i] == '+');
                }
            }
        }
        let bytes = string.as_bytes();
        let n = bytes.len();
        let padded_len = n + n % 2;
        let ghost p = hex_padded(s);
        let ghost raw = hex_raw_bits(s);
        let mut bits = BitVec::new();
        let mut first: u8 = 0;
        let mut i: usize = 0;
        while i < padded_len
            invariant
                n == s.len(),
                bytes@ == string.spec_bytes(),
                string.spec_bytes() =~= Seq::new(s.len(), |k: int| s[k] as u8),
                hex_text_ok(s),
                p == hex_padded(s),
                raw == hex_raw_bits(s),
                padded_len == p.len(),
                i <= padded_len,
                bits@ == raw.take(4 * i),
                i > 0 ==> first == nibble_value(p[0]),
            decreases padded_len - i,
        {
            let v = if i < n {
                byte_nibble(bytes[i], Ghost(s[i as int]))
            } else {
                assert(p[i as int] == '0');
                0u8
            };
            assert(v == nibble_value(p[i as int]));
            bits.push(v / 8 % 2 == 1);
            bits.push(v / 4 % 2 == 1);
            bits.push(v / 2 % 2 == 1);
            bits.push(v % 2 == 1);
            if i == 0 {
                first = v;
            }
            i += 1;
            assert(bits@ == raw.take(4 * i));
        }
        assert(raw.take(4 * padded_len) == raw);
        if n == 1 && (first == 0 || first == 8) {
            bits.truncate(1);
        } else {
            let total = bits.len();
            bits.truncate(Self::hexstring_to_bits_length(total));
        }
        bits
    }

    /// Bits of a binary encoding.
    pub fn bitstring_to_bits(string: &str) -> (r: BitVec)
        requires
            bit_text_ok(string@),
        ensures
            r@ == bit_text_bits(string@),
    {
        let ghost s = string@;
        proof {
            assert(vstd::string::is_ascii(string)) by {
                assert forall|i: int| 0 <= i < s.len() implies '\0' <= #[trigger] s[i] <= '\u{7f}' by {
                    assert(s[i] == '0' || s[i] == '1' || s[i] == '+');
                }
            }
        }
        let bytes = string.as_bytes();
        let n = bytes.len();
        let mut bits = BitVec::new();
        let mut i: usize = 0;
        while i < n
            invariant
                n == s.len(),
                bytes@ == string.spec_bytes(),
                string.spec_bytes() =~= Seq::new(s.len(), |k: int| s[k] as u8),
                bit_text_ok(s),
                i <= n,
                bits@ == bit_text_bits(s).take(i as int),
            decreases n - i,
        {
            assert(s[i as int] == '0' || s[i as int] == '1' || s[i as int] == '+');
            bits.push(bytes[i] == 49); // ASCII '1'
            i += 1;
            assert(bits@ == bit_text_bits(s).take(i as int));
        }
        assert(bit_text_bits(s).take(n as int) == bit_text_bits(s));
        bits
    }
}

} // verus!
