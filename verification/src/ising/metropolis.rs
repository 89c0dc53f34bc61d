//! Random-site Metropolis updates on the Ising lattice.
//!
//! One sweep is exactly l*l attempted flips of uniformly random sites
//! (chosen with replacement), counting accepted proposals. The random site
//! is drawn here ([`MetropolisSweep::propose`]); the acceptance decision
//! comes from outside: the caller reads the proposal's energy change
//! ([`MetropolisSweep::energy_change`]), decides, and reports the decision
//! ([`MetropolisSweep::apply`]).

use vstd::prelude::*;

use rand::rngs::StdRng;

use crate::ising::draw::random_site;
use crate::ising::lattice::{Lattice, flipped, neighbour_total};

verus! {

/// Outcome of one Metropolis sweep.
#[derive(Clone, Copy, Debug, PartialEq)]
pub struct SweepStats {
    /// Number of accepted flips out of the l*l proposals in this sweep.
    pub accepted: usize,
}

/// A sweep in progress: how many proposals are left and how many of the
/// proposals so far were accepted.
pub struct MetropolisSweep {
    remaining: usize,
    accepted: usize,
    total: Ghost<nat>,
}

impl MetropolisSweep {
    /// Proposals still to make.
    pub closed spec fn remaining_proposals(&self) -> nat {
        self.remaining as nat
    }

    /// Accepted proposals so far.
    pub closed spec fn accepted_count(&self) -> nat {
        self.accepted as nat
    }

    /// Proposals in the whole sweep (l*l).
    pub closed spec fn proposals(&self) -> nat {
        self.total@
    }

    /// Accepted plus remaining never exceeds the proposals of the sweep.
    pub closed spec fn wf(&self) -> bool {
        &&& self.accepted + self.remaining <= self.total@
        &&& self.total@ <= usize::MAX
    }

    /// A sweep of exactly l*l proposals on `lat`.
    pub fn start(lat: &Lattice) -> (s: MetropolisSweep)
        requires
            lat.wf(),
        ensures
            s.wf(),
            s.proposals() == lat.spins@.len(),
            s.remaining_proposals() == lat.spins@.len(),
            s.accepted_count() == 0,
    {
        MetropolisSweep { remaining: lat.spins.len(), accepted: 0, total: Ghost(lat.spins@.len()) }
    }

    /// Whether all proposals of the sweep have been made.
    pub fn is_done(&self) -> (d: bool)
        ensures
            d == (self.remaining_proposals() == 0),
    {
        self.remaining == 0
    }

    /// The site of the next proposal, drawn uniformly at random from the
    /// lattice (with replacement).
    pub fn propose(&self, lat: &Lattice, rng: &mut StdRng) -> (site: usize)
        requires
            lat.wf(),
            lat.spins@.len() > 0,
        ensures
            site < lat.spins@.len(),
    {
        random_site(rng, lat.spins.len())
    }

    /// Energy change of the proposed flip at `site`: 2 * s * (neighbour sum).
    pub fn energy_change(&self, lat: &Lattice, site: usize) -> (d: i64)
        requires
            lat.wf(),
            site < lat.spins@.len(),
        ensures
            d == 2 * lat.spins@[site as int] * neighbour_total(
                lat.spins@,
                lat.l as int,
                lat.col(site as int),
                lat.row(site as int),
            ),
    {
        lat.delta_e(site)
    }

    /// Record the decision on the proposal at `site`: an accepted proposal
    /// flips the spin and is counted.
    pub fn apply(&mut self, lat: &mut Lattice, site: usize, accept: bool)
        requires
            old(self).wf(),
            old(self).remaining_proposals() > 0,
            old(lat).wf(),
            site < old(lat).spins@.len(),
        ensures
            final(self).wf(),
            final(self).proposals() == old(self).proposals(),
            final(self).remaining_proposals() == old(self).remaining_proposals() - 1,
            final(self).accepted_count() == old(self).accepted_count() + if accept {
                1nat
            } else {
                0nat
            },
            final(lat).wf(),
            final(lat).l == old(lat).l,
            final(lat).spins@ == if accept {
                flipped(old(lat).spins@, site as int)
            } else {
                old(lat).spins@
            },
    {
        if accept {
            lat.flip(site);
            self.accepted = self.accepted + 1;
        }
        self.remaining = self.remaining - 1;
    }

    /// The statistics of a completed sweep.
    pub fn finish(self) -> (stats: SweepStats)
        requires
            self.wf(),
            self.remaining_proposals() == 0,
        ensures
            stats.accepted == self.accepted_count(),
            stats.accepted <= self.proposals(),
    {
        SweepStats { accepted: self.accepted }
    }
}

} // verus!
