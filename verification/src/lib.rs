//! Verified core of a grid value-iteration planner: transition tables,
//! word-packed bitboards, map parsing and the per-cell Bellman update.
pub mod params;
pub mod transitions;
pub mod bitboard;
pub mod reference;
pub mod algorithm;
pub mod pgm;
pub mod node;
