//! The two-dimensional Ising model: the periodic spin lattice, single-cluster
//! (Wolff) growth, and the update schemes of a temperature ramp.

pub mod draw;
pub mod lattice;
pub mod metropolis;
pub mod ramp;
pub mod wolff;
