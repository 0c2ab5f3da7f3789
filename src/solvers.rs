//! Solvers that run on the compute device.

pub mod bitonic_network;
pub mod bitonic_sorter;
