//! Update schemes of the temperature ramp.
//!
//! One run uses a single random stream for the entire ramp. The first
//! temperature starts from an all-up lattice; every later temperature
//! starts from the final lattice of the preceding temperature. One step is
//! an l*l-proposal Metropolis sweep or a single Wolff cluster flip.

use vstd::prelude::*;

verus! {

/// Update scheme: one step is an l*l-proposal sweep or one cluster flip.
#[derive(Clone, Copy, Debug, PartialEq, Eq, Structural)]
pub enum Update {
    Metropolis,
    Wolff,
}

impl Update {
    /// The update scheme named `name` ("metropolis" or "wolff").
    pub fn from_name(name: &str) -> (r: Option<Update>)
        ensures
            r == Some(Update::Metropolis) <==> name@ == "metropolis"@,
            r == Some(Update::Wolff) <==> (name@ == "wolff"@ && name@ != "metropolis"@),
            r is None <==> (name@ != "metropolis"@ && name@ != "wolff"@),
    {
        if crate::text::text_eq(name, "metropolis") {
            Some(Update::Metropolis)
        } else if crate::text::text_eq(name, "wolff") {
            Some(Update::Wolff)
        } else {
            None
        }
    }

    /// The run.json `time_unit` for this update.
    pub fn time_unit(self) -> (u: &'static str)
        ensures
            self == Update::Metropolis ==> u@ == "sweep"@,
            self == Update::Wolff ==> u@ == "cluster_flip"@,
    {
        match self {
            Update::Metropolis => "sweep",
            Update::Wolff => "cluster_flip",
        }
    }
}

/// Why the sampler's arguments are refused, in the order the checks are
/// made (the temperature grid is checked after these).
#[derive(Clone, Copy, Debug, PartialEq, Eq, Structural)]
pub enum SamplerFault {
    /// The update is neither "metropolis" nor "wolff".
    UnknownUpdate,
    /// The lattice side is zero.
    ZeroSide,
    /// No sweeps would be measured.
    ZeroMeasure,
}

/// The update named `name`, if it is one of the two schemes.
pub open spec fn named_update(name: Seq<char>) -> Option<Update> {
    if name == "metropolis"@ {
        Some(Update::Metropolis)
    } else if name == "wolff"@ {
        Some(Update::Wolff)
    } else {
        None
    }
}

/// Validate the integer arguments of a ramp: the update's name, the
/// lattice side `l` and the measured sweeps per temperature. On success the
/// result is the named update.
pub fn check_sampler(update: &str, l: usize, measure: usize) -> (r: Result<Update, SamplerFault>)
    ensures
        (r == Err::<Update, SamplerFault>(SamplerFault::UnknownUpdate)) <==> named_update(update@) is None,
        (r == Err::<Update, SamplerFault>(SamplerFault::ZeroSide)) <==> (named_update(update@) is Some
            && l == 0),
        (r == Err::<Update, SamplerFault>(SamplerFault::ZeroMeasure)) <==> (named_update(update@) is Some
            && l > 0 && measure == 0),
        r is Ok <==> (named_update(update@) is Some && l > 0 && measure > 0),
        r matches Ok(u) ==> named_update(update@) == Some(u),
{
    let u = match Update::from_name(update) {
        None => {
            return Err(SamplerFault::UnknownUpdate);
        },
        Some(u) => u,
    };
    if l == 0 {
        return Err(SamplerFault::ZeroSide);
    }
    if measure == 0 {
        return Err(SamplerFault::ZeroMeasure);
    }
    Ok(u)
}

/// Frame recording of the ramp: measured step `j` (1-based) of temperature
/// `k` (0-based) records a spin frame iff `every > 0` and `j` is a multiple
/// of `every`; its global sweep index is the cumulative `k * measure + j`.
pub fn frame_sweep(k: usize, measure: usize, j: usize, every: usize) -> (r: Option<usize>)
    requires
        every > 0 && j % every == 0 ==> k * measure + j <= usize::MAX,
    ensures
        r == if every > 0 && j % every == 0 {
            Some((k * measure + j) as usize)
        } else {
            None::<usize>
        },
{
    if every > 0 && j % every == 0 {
        proof {
            assert(k * measure <= k * measure + j);
        }
        Some(k * measure + j)
    } else {
        None
    }
}

/// The spins.jsonl text of a spin configuration: one character per site,
/// '1' for +1 and '0' for -1, row after row from the top.
pub fn spin_text(spins: &Vec<i8>) -> (t: Vec<char>)
    ensures
        t@.len() == spins@.len(),
        forall|k: int| 0 <= k < spins@.len() ==> #[trigger] t@[k] == if spins@[k] == 1 {
            '1'
        } else {
            '0'
        },
{
    let n = spins.len();
    let mut t: Vec<char> = Vec::with_capacity(n);
    let mut k: usize = 0;
    while k < n
        invariant
            n == spins@.len(),
            k <= n,
            t@.len() == k,
            forall|i: int| 0 <= i < k ==> #[trigger] t@[i] == if spins@[i] == 1 {
                '1'
            } else {
                '0'
            },
        decreases n - k,
    {
        if spins[k] == 1 {
            t.push('1');
        } else {
            t.push('0');
        }
        k = k + 1;
    }
    t
}

} // verus!
