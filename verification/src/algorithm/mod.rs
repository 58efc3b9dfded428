//! The 16-bit frontier family: outcome pruning, coarse heading layers and the
//! shared run parameters.
pub mod context;
pub mod topk;
pub mod coarse_theta;
pub mod tau;
pub mod passable;
