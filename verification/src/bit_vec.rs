//! A growable sequence of bits.
use vstd::prelude::*;

verus! {

/// A growable vector of bits, viewed as a sequence of booleans.
#[derive(Clone, PartialEq, Eq, Debug)]
pub struct BitVec {
    bits: Vec<bool>,
}

impl View for BitVec {
    type V = Seq<bool>;

    closed spec fn view(&self) -> Seq<bool> {
        self.bits@
    }
}

impl BitVec {
    /// An empty bit vector.
    pub fn new() -> (r: BitVec)
        ensures
            r@ == Seq::<bool>::empty(),
    {
        BitVec { bits: Vec::new() }
    }

    /// An empty bit vector with room reserved for `capacity` bits.
    pub fn with_capacity(capacity: usize) -> (r: BitVec)
        ensures
            r@ == Seq::<bool>::empty(),
    {
        BitVec { bits: Vec::with_capacity(capacity) }
    }

    /// `n` copies of `bit`.
    pub fn from_elem(n: usize, bit: bool) -> (r: BitVec)
        ensures
            r@ == Seq::new(n as nat, |_i: int| bit),
    {
        let mut bits: Vec<bool> = Vec::with_capacity(n);
        let mut i: usize = 0;
        while i < n
            invariant
                i <= n,
                bits@ == Seq::new(i as nat, |_i: int| bit),
            decreases n - i,
        {
            bits.push(bit);
            i += 1;
        }
        BitVec { bits }
    }

    /// A bit vector never holds more bits than a machine word counts.
    pub proof fn lemma_len_fits(&self)
        ensures
            self@.len() <= usize::MAX,
    {
        broadcast use vstd::std_specs::vec::axiom_spec_len;
        assert(self.bits.len() == self.bits@.len());
    }

    /// Number of bits.
    pub fn len(&self) -> (r: usize)
        ensures
            r == self@.len(),
    {
        self.bits.len()
    }

    /// The bit at position `i`.
    pub fn get(&self, i: usize) -> (r: bool)
        requires
            i < self@.len(),
        ensures
            r == self@[i as int],
    {
        self.bits[i]
    }

    /// Overwrites the bit at position `i`.
    pub fn set(&mut self, i: usize, bit: bool)
        requires
            i < old(self)@.len(),
        ensures
            final(self)@ == old(self)@.update(i as int, bit),
    {
        self.bits.set(i, bit);
    }

    /// Appends one bit.
    pub fn push(&mut self, bit: bool)
        ensures
            final(self)@ == old(self)@.push(bit),
    {
        self.bits.push(bit);
    }

    /// Keeps the first `len` bits; does nothing when there are no more than `len`.
    pub fn truncate(&mut self, len: usize)
        ensures
            final(self)@ == if len < old(self)@.len() { old(self)@.take(len as int) } else { old(self)@ },
    {
        self.bits.truncate(len);
    }

    /// A copy of this bit vector.
    pub fn copy(&self) -> (r: BitVec)
        ensures
            r@ == self@,
    {
        let mut bits: Vec<bool> = Vec::with_capacity(self.bits.len());
        let mut i: usize = 0;
        while i < self.bits.len()
            invariant
                i <= self.bits@.len(),
                bits@ == self.bits@.take(i as int),
            decreases self.bits@.len() - i,
        {
            bits.push(self.bits[i]);
            i += 1;
        }
        assert(self.bits@.take(self.bits@.len() as int) == self.bits@);
        BitVec { bits }
    }
}

} // verus!
