//! Sorting of particle records on a two-tier parallel device, together with the
//! small tensor and vector helpers of the simulation.

pub mod math;
pub mod render;
pub mod solvers;
