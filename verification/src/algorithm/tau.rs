//! The threshold of the 16-bit frontier variant that applies and propagates
//! only cost drops larger than `tau`, and the variant's name.
use vstd::prelude::*;

verus! {

/// Parameters of the 16-bit frontier variant that applies and propagates only
/// cost drops larger than `tau`: the threshold and the variant's name.
pub struct Frontier3DTau {
    pub tau: u16,
}

impl Frontier3DTau {
    /// Name of the solver.
    pub fn name(&self) -> (r: &'static str)
        ensures
            r@ == "frontier_3d_tau"@,
    {
        "frontier_3d_tau"
    }
}

} // verus!
