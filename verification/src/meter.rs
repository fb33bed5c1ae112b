//! The bookkeeping behind the level meters. The samples themselves are measured
//! elsewhere.

pub mod blocks;
pub mod fft;
pub mod peak;

use vstd::prelude::*;

verus! {

/// The most samples that are taken from the ring at once. What is older may be
/// dropped.
pub const MAX_DRAIN_SAMPLES: usize = 48000;

/// How many samples of a ring are measured: of both parts into which it may be
/// split, whole frames of two samples.
#[derive(Clone, Copy, PartialEq, Eq, Structural, Debug)]
pub struct Drain {
    /// How many are measured of the first part.
    pub head: usize,
    /// How many are measured of the second part.
    pub tail: usize,
}

/// A number of samples without one that is alone.
pub open spec fn whole_frames(samples: int) -> int {
    samples - samples % 2
}

/// How many of the samples that there are, are taken.
pub fn samples_to_take(available: usize) -> (count: usize)
    ensures
        count == whole_frames(
            if available < MAX_DRAIN_SAMPLES {
                available as int
            } else {
                MAX_DRAIN_SAMPLES as int
            },
        ),
        count % 2 == 0,
        available < MAX_DRAIN_SAMPLES ==> available - 1 <= count <= available,
        available >= MAX_DRAIN_SAMPLES ==> MAX_DRAIN_SAMPLES - 1 <= count <= MAX_DRAIN_SAMPLES,
{
    let limit: usize = if available < MAX_DRAIN_SAMPLES {
        available
    } else {
        MAX_DRAIN_SAMPLES
    };
    limit - limit % 2
}

/// How many samples of the two parts are measured. Where the first part ends
/// inside a frame, the second one is left out: it would begin with the other
/// channel.
pub fn plan_drain(first: usize, second: usize) -> (drain: Drain)
    ensures
        drain.head == whole_frames(first as int),
        drain.tail == (if first % 2 == 0 {
            whole_frames(second as int)
        } else {
            0
        }),
{
    let head: usize = first - first % 2;
    let tail: usize = if head == first {
        second - second % 2
    } else {
        0
    };
    Drain { head, tail }
}

/// Whether the meters are made anew: for another sample rate, if it is known.
pub fn needs_new_meters(current: u32, sample_rate: u32) -> (yes: bool)
    ensures
        yes == (sample_rate != 0 && sample_rate != current),
{
    sample_rate != 0 && sample_rate != current
}

/// No frame is ever split, so the channels are never exchanged; and where the
/// ring is split between frames, all of them are measured.
pub proof fn no_frame_is_split(first: int, second: int)
    requires
        first >= 0,
        second >= 0,
    ensures
        whole_frames(first) % 2 == 0,
        first % 2 == 0 && second % 2 == 0 ==> whole_frames(first) + whole_frames(second) == first
            + second,
        0 <= first - whole_frames(first) <= 1,
{
}

} // verus!
