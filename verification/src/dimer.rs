//! The two-atom (dimer) molecular-dynamics crate.

use vstd::prelude::*;

verus! {

/// The greeting returned by this crate.
pub fn greeting() -> (s: &'static str)
    ensures
        s@ == "Hello, world!"@,
{
    "Hello, world!"
}

} // verus!
