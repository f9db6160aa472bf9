//! The result of a successful completion check: one route per non-source
//! house and the unterminated stubs left on the board.

use crate::hex::Hex;
use crate::map::EdgeConnection;
use vstd::prelude::*;

verus! {

/// For every house except the chosen source, an ordered hex sequence
/// forming a route from the source to that house; plus every edge
/// connection whose node ended the round with exactly one link — a route
/// stub that was never completed, scored as a penalty.
pub struct CompletedMap {
    pub routes: Vec<Vec<Hex>>,
    pub dead_ends: Vec<EdgeConnection>,
}

} // verus!
