//! Structural validation of saved artifacts: the integrator name, the
//! sampling schedule and the shape of every saved frame. The physics checks
//! on the recorded numbers are floating-point work outside this crate.

use vstd::prelude::*;

verus! {

/// A structural or I/O failure of saved artifacts (malformed files),
/// distinct from a physics bound not being met.
#[derive(Clone, Debug)]
pub struct CheckError(pub String);

impl CheckError {
    /// The message describing the failure.
    pub fn message(&self) -> (m: &str)
        ensures
            m@ == self.0@,
    {
        self.0.as_str()
    }
}

/// The integer facts of one saved frame: its step and the lengths of its
/// position and velocity arrays.
#[derive(Clone, Copy, Debug, PartialEq, Eq, Structural)]
pub struct FrameShape {
    pub step: usize,
    pub positions: usize,
    pub velocities: usize,
}

/// The first structural problem found in a saved run.
#[derive(Clone, Copy, Debug, PartialEq, Eq, Structural)]
pub enum LayoutFault {
    /// The run was not integrated with velocity Verlet.
    WrongIntegrator,
    /// `sample_every` is zero or does not divide `steps`.
    StepsNotMultiple,
    /// The number of frames is not `steps / sample_every`.
    FrameCount { expected: usize, found: usize },
    /// Frame `index` records `step` where `expected` was due.
    FrameStep { index: usize, step: usize, expected: usize },
    /// Frame `index` does not hold `n` positions and `n` velocities.
    ArrayLength { index: usize },
}

/// The run-level facts hold: velocity Verlet, a sampling interval dividing
/// the production steps, and one frame per sampling interval.
pub open spec fn header_ok(integrator: Seq<char>, steps: int, sample_every: int, frames: int) -> bool {
    &&& integrator == "velocity-verlet"@
    &&& sample_every > 0
    &&& steps % sample_every == 0
    &&& frames == steps / sample_every
}

/// Frame `i` (0-based) is the save after step `(i + 1) * sample_every` and
/// holds `n` positions and `n` velocities.
pub open spec fn frame_fits(f: FrameShape, i: int, n: int, sample_every: int) -> bool {
    &&& f.step == (i + 1) * sample_every
    &&& f.positions == n
    &&& f.velocities == n
}

/// The first `k` frames fit.
pub open spec fn frames_fit_upto(frames: Seq<FrameShape>, k: int, n: int, sample_every: int) -> bool {
    forall|j: int| 0 <= j < k ==> #[trigger] frame_fits(frames[j], j, n, sample_every)
}

/// Frames that fit are the saves after steps `sample_every`, `2 *
/// sample_every`, ..., and each holds exactly `n` positions and `n`
/// velocities.
pub proof fn lemma_fitting_frames(frames: Seq<FrameShape>, n: int, sample_every: int)
    requires
        frames_fit_upto(frames, frames.len() as int, n, sample_every),
    ensures
        forall|k: int|
            0 <= k < frames.len() ==> (#[trigger] frames[k]).step == (k + 1) * sample_every
                && frames[k].positions == n && frames[k].velocities == n,
{
    assert forall|k: int| 0 <= k < frames.len() implies (#[trigger] frames[k]).step == (k + 1)
        * sample_every && frames[k].positions == n && frames[k].velocities == n by {
        assert(frame_fits(frames[k], k, n, sample_every));
    }
}

/// A run is refused whenever some frame holds other than `n` velocities or
/// positions, or sits at another step than its place in the schedule.
pub proof fn lemma_misshapen_frame_refused(
    integrator: Seq<char>,
    n: int,
    steps: int,
    sample_every: int,
    frames: Seq<FrameShape>,
    k: int,
)
    requires
        0 <= k < frames.len(),
        frames[k].velocities != n || frames[k].positions != n || frames[k].step != (k + 1)
            * sample_every,
    ensures
        !(header_ok(integrator, steps, sample_every, frames.len() as int) && frames_fit_upto(
            frames,
            frames.len() as int,
            n,
            sample_every,
        )),
{
    if frames_fit_upto(frames, frames.len() as int, n, sample_every) {
        lemma_fitting_frames(frames, n, sample_every);
        assert(frames[k].step == (k + 1) * sample_every);
    }
}

/// Check the structure of a saved run, in the order: integrator, schedule,
/// frame count, then frame by frame its step and its array lengths. The
/// result names the first problem, or is `Ok` when there is none.
pub fn check_layout(
    integrator: &str,
    n: usize,
    steps: usize,
    sample_every: usize,
    frames: &Vec<FrameShape>,
) -> (r: Result<(), LayoutFault>)
    ensures
        (r == Err::<(), LayoutFault>(LayoutFault::WrongIntegrator)) <==> integrator@
            != "velocity-verlet"@,
        (r == Err::<(), LayoutFault>(LayoutFault::StepsNotMultiple)) <==> (integrator@
            == "velocity-verlet"@ && (sample_every == 0 || steps % sample_every != 0)),
        r matches Err(LayoutFault::FrameCount { expected, found }) ==> {
            &&& integrator@ == "velocity-verlet"@
            &&& sample_every > 0
            &&& steps % sample_every == 0
            &&& expected == steps / sample_every
            &&& found == frames@.len()
            &&& expected != found
        },
        (integrator@ == "velocity-verlet"@ && sample_every > 0 && steps % sample_every == 0
            && frames@.len() != steps / sample_every) ==> r is Err && r->Err_0 is FrameCount,
        r matches Err(LayoutFault::FrameStep { index, step, expected }) ==> {
            &&& header_ok(integrator@, steps as int, sample_every as int, frames@.len() as int)
            &&& index < frames@.len()
            &&& frames_fit_upto(frames@, index as int, n as int, sample_every as int)
            &&& step == frames@[index as int].step
            &&& expected == (index + 1) * sample_every
            &&& step != expected
        },
        r matches Err(LayoutFault::ArrayLength { index }) ==> {
            &&& header_ok(integrator@, steps as int, sample_every as int, frames@.len() as int)
            &&& index < frames@.len()
            &&& frames_fit_upto(frames@, index as int, n as int, sample_every as int)
            &&& frames@[index as int].step == (index + 1) * sample_every
            &&& (frames@[index as int].positions != n || frames@[index as int].velocities != n)
        },
        r is Ok <==> (header_ok(integrator@, steps as int, sample_every as int, frames@.len() as int)
            && frames_fit_upto(frames@, frames@.len() as int, n as int, sample_every as int)),
        r is Ok ==> frames@.len() * sample_every == steps,
        r is Ok ==> forall|k: int|
            0 <= k < frames@.len() ==> (#[trigger] frames@[k]).step == (k + 1) * sample_every
                && frames@[k].positions == n && frames@[k].velocities == n,
{
    if !crate::text::text_eq(integrator, "velocity-verlet") {
        return Err(LayoutFault::WrongIntegrator);
    }
    if sample_every == 0 || steps % sample_every != 0 {
        return Err(LayoutFault::StepsNotMultiple);
    }
    let expected_frames = steps / sample_every;
    if frames.len() != expected_frames {
        return Err(LayoutFault::FrameCount { expected: expected_frames, found: frames.len() });
    }
    let len = frames.len();
    let mut i: usize = 0;
    while i < len
        invariant
            len == frames@.len(),
            len == steps / sample_every,
            integrator@ == "velocity-verlet"@,
            sample_every > 0,
            steps % sample_every == 0,
            i <= len,
            frames_fit_upto(frames@, i as int, n as int, sample_every as int),
        decreases len - i,
    {
        assert((i + 1) * sample_every <= steps) by (nonlinear_arith)
            requires
                i + 1 <= steps / sample_every,
                sample_every > 0,
        {
            vstd::arithmetic::div_mod::lemma_fundamental_div_mod(steps as int, sample_every as int);
            assert((i + 1) * sample_every <= (steps / sample_every) * sample_every);
        }
        let expected = (i + 1) * sample_every;
        let f = frames[i];
        if f.step != expected {
            assert(!frame_fits(frames@[i as int], i as int, n as int, sample_every as int));
            return Err(LayoutFault::FrameStep { index: i, step: f.step, expected });
        }
        if f.positions != n || f.velocities != n {
            assert(!frame_fits(frames@[i as int], i as int, n as int, sample_every as int));
            return Err(LayoutFault::ArrayLength { index: i });
        }
        assert(frame_fits(frames@[i as int], i as int, n as int, sample_every as int));
        i = i + 1;
    }
    proof {
        lemma_fitting_frames(frames@, n as int, sample_every as int);
        vstd::arithmetic::div_mod::lemma_fundamental_div_mod(steps as int, sample_every as int);
        vstd::arithmetic::mul::lemma_mul_is_commutative(len as int, sample_every as int);
    }
    Ok(())
}

} // verus!
