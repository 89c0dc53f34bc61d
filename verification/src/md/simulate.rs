//! Equilibration schedule of the periodic-fluid driver.

use vstd::prelude::*;

use crate::md::system::side;
use crate::sums::sum;

verus! {

/// Number of equilibration steps between thermostat events.
pub const THERMOSTAT_INTERVAL: usize = 50;

/// Equilibration steps `1..=eq_steps` after which the thermostat rescales.
pub open spec fn rescale_steps(eq_steps: int) -> int {
    sum(eq_steps, |k: int| if (k + 1) % (THERMOSTAT_INTERVAL as int) == 0 {
        1int
    } else {
        0int
    })
}

/// The thermostat rescales after equilibration step `step` (1-based) iff it
/// is a multiple of the thermostat interval.
pub fn thermostat_due(step: usize) -> (due: bool)
    ensures
        due == (step % THERMOSTAT_INTERVAL == 0),
{
    step % THERMOSTAT_INTERVAL == 0
}

/// Schedule B thermostat event count: the initial rescale plus one rescale
/// after every 50th equilibration step. Production never rescales.
pub fn thermostat_events(eq_steps: usize) -> (r: usize)
    ensures
        r == 1 + eq_steps / THERMOSTAT_INTERVAL,
        r == 1 + rescale_steps(eq_steps as int),
{
    proof {
        lemma_rescale_steps(eq_steps as int);
    }
    1 + eq_steps / THERMOSTAT_INTERVAL
}

/// `n` is the square of a natural number.
pub open spec fn is_square(n: int) -> bool {
    exists|s: int| 0 <= s && #[trigger] (s * s) == n
}

/// Why a requested run is refused, in the order the checks are made.
#[derive(Clone, Copy, Debug, PartialEq, Eq, Structural)]
pub enum ScheduleFault {
    /// The atom count is not a perfect square.
    NotSquare,
    /// The sampling interval is zero.
    ZeroSampleEvery,
    /// There are no production steps.
    ZeroSteps,
    /// The sampling interval does not divide the production steps, so the
    /// last saved frame would not be the last step.
    StepsNotMultiple,
}

/// Validate the integer parameters of a run: `n` atoms on a square lattice,
/// `steps` production steps saved every `sample_every` steps. On success the
/// result is the lattice side.
pub fn check_schedule(n: usize, steps: usize, sample_every: usize) -> (r: Result<usize, ScheduleFault>)
    ensures
        (r == Err::<usize, ScheduleFault>(ScheduleFault::NotSquare)) <==> !is_square(n as int),
        (r == Err::<usize, ScheduleFault>(ScheduleFault::ZeroSampleEvery)) <==> (is_square(n as int)
            && sample_every == 0),
        (r == Err::<usize, ScheduleFault>(ScheduleFault::ZeroSteps)) <==> (is_square(n as int)
            && sample_every > 0 && steps == 0),
        (r == Err::<usize, ScheduleFault>(ScheduleFault::StepsNotMultiple)) <==> (is_square(
            n as int,
        ) && sample_every > 0 && steps > 0 && steps % sample_every != 0),
        r is Ok <==> (is_square(n as int) && sample_every > 0 && steps > 0 && steps % sample_every
            == 0),
        r matches Ok(s) ==> s * s == n,
{
    match side(n) {
        None => {
            return Err(ScheduleFault::NotSquare);
        },
        Some(s) => {
            assert(is_square(n as int)) by {
                assert(0 <= s && s * s == n);
            }
            if sample_every == 0 {
                return Err(ScheduleFault::ZeroSampleEvery);
            }
            if steps == 0 {
                return Err(ScheduleFault::ZeroSteps);
            }
            if steps % sample_every != 0 {
                return Err(ScheduleFault::StepsNotMultiple);
            }
            Ok(s)
        },
    }
}

/// The steps `1..=n` that are multiples of the interval number `n / 50`.
pub proof fn lemma_rescale_steps(n: int)
    requires
        0 <= n,
    ensures
        rescale_steps(n) == n / (THERMOSTAT_INTERVAL as int),
    decreases n,
{
    if n > 0 {
        lemma_rescale_steps(n - 1);
        assert(rescale_steps(n) == rescale_steps(n - 1) + (if n % 50 == 0 {
            1int
        } else {
            0int
        }));
        assert((n - 1) / 50 + (if n % 50 == 0 {
            1int
        } else {
            0int
        }) == n / 50);
    }
}

} // verus!
