//! Plain parameters and statistics shared by the 16-bit solvers.
use vstd::prelude::*;

verus! {

/// Map size in cells.
#[derive(Clone, Debug)]
pub struct MapDims {
    pub map_x: u32,
    pub map_y: u32,
}

/// Work limit of a solver run: full sweeps or frontier iterations.
#[derive(Clone, Copy, Debug)]
pub enum Budget {
    Sweeps(u32),
    Iterations(u32),
}

/// Statistics of one pyramid level.
#[derive(Clone, Copy, Debug)]
pub struct PyramidLevelStat {
    pub level: u32,
    pub map_x: u32,
    pub map_y: u32,
    pub scale: u32,
    pub sweeps: u32,
    pub changed_states: u64,
    pub visited_states: u64,
    pub final_delta: u16,
}

/// The iteration limit a budget allows, whichever unit it counts in.
pub fn max_iters(budget: Budget) -> (r: u32)
    ensures
        r == match budget {
            Budget::Sweeps(n) => n,
            Budget::Iterations(n) => n,
        },
{
    match budget {
        Budget::Sweeps(n) => n,
        Budget::Iterations(n) => n,
    }
}

} // verus!
