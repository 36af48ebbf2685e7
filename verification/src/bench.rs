//! The scripted timing run: when it turns the camera, which frames count, and
//! when it is over.
use vstd::prelude::*;

verus! {

/// Frames to wait at the start before turning.
pub const BENCH_SETTLE: u32 = 120;

/// Frames of one full turn.
pub const BENCH_SWEEP: u32 = 720;

/// Frames between handing a frame to the device and reading its times: as many
/// as are in flight.
pub const LAG: u32 = 2;

/// What a frame of the run asks for.
#[derive(Clone, Copy, Debug, PartialEq, Eq, Structural)]
pub struct Recorded {
    /// Whether the times just read count.
    pub sample: bool,
    /// Whether the run is over.
    pub done: bool,
}

/// The run, by the number of frames it has seen.
#[derive(Debug)]
pub struct Bench {
    pub frame: u32,
}

impl Bench {
    pub fn new() -> (r: Bench)
        ensures
            r.frame == 0,
    {
        Bench { frame: 0 }
    }

    /// How many parts of `BENCH_SWEEP` of a full turn the camera has made.
    pub open spec fn turned(&self) -> int {
        if self.frame <= BENCH_SETTLE {
            0
        } else if self.frame - BENCH_SETTLE >= BENCH_SWEEP {
            BENCH_SWEEP as int
        } else {
            self.frame - BENCH_SETTLE
        }
    }

    /// Where the camera points in this frame.
    pub fn turn(&self) -> (r: u32)
        ensures
            r == self.turned(),
    {
        if self.frame <= BENCH_SETTLE {
            0
        } else if self.frame - BENCH_SETTLE >= BENCH_SWEEP {
            BENCH_SWEEP
        } else {
            self.frame - BENCH_SETTLE
        }
    }

    /// Count a frame. The times that are read now belong to an earlier one.
    pub fn record(&mut self) -> (r: Recorded)
        requires
            old(self).frame < u32::MAX,
        ensures
            final(self).frame == old(self).frame + 1,
            r.sample == (old(self).frame >= BENCH_SETTLE + LAG),
            r.done == (final(self).frame >= BENCH_SETTLE + BENCH_SWEEP + LAG),
    {
        let sample: bool = self.frame >= BENCH_SETTLE + LAG;
        self.frame = self.frame + 1;
        Recorded { sample, done: self.frame >= BENCH_SETTLE + BENCH_SWEEP + LAG }
    }
}

/// Samples taken by a run in its first `frames` frames.
pub open spec fn samples_after(frames: nat) -> nat
    decreases frames,
{
    if frames == 0 {
        0
    } else {
        samples_after((frames - 1) as nat) + if frames - 1 >= BENCH_SETTLE + LAG {
            1nat
        } else {
            0
        }
    }
}

proof fn lemma_samples(frames: nat)
    ensures
        samples_after(frames) == if frames <= BENCH_SETTLE + LAG {
            0
        } else {
            frames - BENCH_SETTLE - LAG
        },
    decreases frames,
{
    if frames > 0 {
        lemma_samples((frames - 1) as nat);
    }
}

/// A whole run takes one sample for each frame of the turn.
pub proof fn law_a_run_samples_the_whole_turn()
    ensures
        samples_after((BENCH_SETTLE + BENCH_SWEEP + LAG) as nat) == BENCH_SWEEP,
{
    lemma_samples((BENCH_SETTLE + BENCH_SWEEP + LAG) as nat);
}

/// The place of a quantile, in tenths, among `n` sorted samples: the nearest,
/// and of two the later.
pub fn quantile_place(n: usize, tenths: usize) -> (r: usize)
    requires
        n >= 1,
        tenths <= 10,
        20 * n + 10 <= usize::MAX,
    ensures
        r < n,
        20 * r <= 2 * ((n - 1) * tenths) + 10 < 20 * r + 20,
{
    proof {
        assert((n - 1) * tenths <= (n - 1) * 10) by (nonlinear_arith)
            requires
                n >= 1,
                tenths <= 10,
        ;
    }
    (2 * ((n - 1) * tenths) + 10) / 20
}

/// The camera stands still for 120 frames, then turns by one part in each frame
/// until all 720 are done, and stays there.
pub proof fn law_the_camera_turns_once(a: Bench, b: Bench)
    requires
        b.frame == a.frame + 1,
    ensures
        a.frame <= 120 ==> a.turned() == 0,
        120 <= a.frame < 840 ==> b.turned() == a.turned() + 1,
        a.frame >= 840 ==> a.turned() == 720,
{
}

/// A frame more is a sample more, once the camera turns and the times that are
/// read belong to a frame of the turn.
pub proof fn law_samples_are_taken_of_the_turn(frames: nat)
    ensures
        samples_after(0) == 0,
        frames < 122 ==> samples_after(frames + 1) == samples_after(frames),
        frames >= 122 ==> samples_after(frames + 1) == samples_after(frames) + 1,
{
}

} // verus!
