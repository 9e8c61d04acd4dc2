//! Shape encoding: a hierarchical occupancy code of a square binary image.
use vstd::prelude::*;
use crate::bit_vec::BitVec;

verus! {

/// A shape encoding: layer `i` holds the occupancy codes of the `4^i` cells
/// of the `2^i × 2^i` grid, in spiral order.
#[derive(Default)]
pub struct ShapeEncoding {
    pub seq: Vec<BitVec>,
}

/// A shape encoding written out as text.
#[derive(Clone, PartialEq, Eq, Debug)]
pub enum ShapeEncodingString {
    Hex(String),
    Bit(String),
}

impl ShapeEncoding {
    /// The layers as sequences of bits.
    pub open spec fn layers(&self) -> Seq<Seq<bool>> {
        self.seq@.map_values(|b: BitVec| b@)
    }
}

} // verus!
