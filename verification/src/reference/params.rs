//! Constants of the integer cost model.
use vstd::prelude::*;

verus! {

/// Sub-cell samples per cell edge, as a power of two.
pub const RESOLUTION_XY_BIT: u32 = 6;
/// Sub-cell samples per heading bucket, as a power of two.
pub const RESOLUTION_T_BIT: u32 = 6;
/// Bits of the fixed-point probability scale: two spatial axes and the heading.
pub const PROB_BASE_BIT: u64 = 18;
/// Fixed-point scale of costs and probabilities (`1 << PROB_BASE_BIT`).
pub const PROB_BASE: u64 = 262_144;
/// Cost of a state that cannot reach the goal (`1_000_000_000 * PROB_BASE`).
pub const MAX_COST: u64 = 262_144_000_000_000;

} // verus!
