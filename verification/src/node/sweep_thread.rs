//! Reports of the solver worker.
use vstd::prelude::*;

verus! {

/// Terminal statistics of the worker.
#[derive(Clone, Copy, Debug)]
pub struct WorkerStats {
    pub sweeps: u32,
    pub updates: u64,
    pub converged: bool,
}

/// Progress report after a solver chunk.
pub struct FeedbackTick {
    pub sweep_count: u32,
    /// Always 0 for the integer solvers: convergence is signalled by the worker
    /// ending, not by a delta.
    pub final_delta: u16,
}

} // verus!
