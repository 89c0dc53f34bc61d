//! Uniform random sites for the samplers, drawn from the `rand` crate.

use rand::Rng;
use rand::rngs::StdRng;
use vstd::prelude::*;

verus! {

/// The standard seeded generator of `rand`, carried through the samplers.
#[verifier::external_type_specification]
#[verifier::external_body]
pub struct ExStdRng(StdRng);

/// `rand::Rng::gen_range` on the range `0..n`, which draws a value of the
/// range at random. Claimed here: the site lies in `0..n`. The call panics
/// on an empty range, which `n > 0` rules out. Which site comes out, and
/// how the generator's state advances, is left unsaid: it is chance.
#[verifier::external_body]
pub(crate) fn random_site(rng: &mut StdRng, n: usize) -> (site: usize)
    requires
        n > 0,
    ensures
        site < n,
{
    rng.gen_range(0..n)
}

} // verus!
