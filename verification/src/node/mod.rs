//! Pieces of the planner node that are pure computation: solver selection,
//! the value-to-occupancy rendering and the worker's reports.
pub mod solver_factory;
pub mod bridge;
pub mod sweep_thread;
