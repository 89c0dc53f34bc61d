//! Verified core of a small molecular-dynamics and Ising-model toolkit:
//! the integer logic of a periodic Lennard-Jones fluid simulator (cell
//! lists, rasterizing, schedules) and of an Ising-model sampler (periodic
//! lattice, energies, Wolff clusters).

pub mod dimer;
pub mod grid;
pub mod ising;
pub mod md;
pub mod sums;
pub mod text;
