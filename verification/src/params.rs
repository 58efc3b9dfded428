//! Algorithm constants shared by the transition table and the value model.
use vstd::prelude::*;

verus! {

/// Number of robot actions.
pub const N_ACTIONS: usize = 6;
/// Number of heading (theta) layers.
pub const N_THETA: usize = 60;
/// Largest 16-bit value (unreached).
pub const MAX_VALUE: u16 = 0xFFFF;
/// Penalty sentinel of an obstacle cell.
pub const PENALTY_OBSTACLE: u16 = 0xFFFF;
/// Penalty sentinel of a goal cell.
pub const PENALTY_GOAL: u16 = 0xFFFE;
/// Cost of one step.
pub const STEP_COST: u32 = 1;
/// Fixed-point base of the transition probabilities (2^18).
pub const PROB_BASE: u32 = 262_144;
/// Maximum number of outcomes per (action, theta).
pub const MAX_OUTCOMES: usize = 10;
/// Words per (action, theta) record in the packed table.
pub const TRANS_WORD_STRIDE: usize = 21;
/// Total words in the packed table.
pub const TRANS_TABLE_SIZE: usize = 7_560;

} // verus!
