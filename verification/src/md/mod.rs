//! Periodic Lennard-Jones fluid: the integer parts of the simulator.

use vstd::prelude::*;

pub mod fluid;
pub mod layout;
pub mod render;
pub mod simulate;
pub mod system;

verus! {

/// The greeting of the molecular-dynamics crate.
pub fn greeting() -> (s: &'static str)
    ensures
        s@ == "Hello, world!"@,
{
    "Hello, world!"
}

} // verus!
