//! Path smoothing.
use vstd::prelude::*;

verus! {

/// Handles path smoothing: corner and splice-point detection, subdivision
/// that keeps corners, and Bézier fitting. Its routines work on
/// floating-point coordinates and live with the callers that own those.
pub struct SubdivideSmooth;

} // verus!
