//! The integer value-iteration model: states on an `x × y × θ` grid, actions with
//! sampled transitions, the per-state Bellman update, and the solvers built on it.
pub mod params;
pub mod state;
pub mod value_iterator;
pub mod solvers;
