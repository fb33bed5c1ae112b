//! Peaks of the output, per channel, with a mark that stays for a while.
//!
//! Samples and amplitudes are the bit patterns of floating-point numbers. Of two
//! numbers that are not negative the larger one has the larger pattern.

use vstd::prelude::*;

verus! {

/// The amplitude of full scale, one. From here on a sample clips.
pub const CLIP_AMPLITUDE: u32 = 0x3f80_0000;

/// The first pattern of the negative numbers: the sign alone.
pub const SIGN: u32 = 0x8000_0000;

/// The largest amplitude, infinity. The patterns between it and [`SIGN`] are not
/// numbers.
pub const INFINITE_AMPLITUDE: u32 = 0x7f80_0000;

/// How long the mark stays, in nanoseconds.
pub const HOLD_NANOS: u64 = 2_000_000_000;

/// The longest time that is taken into account at once, in nanoseconds.
pub const MAX_STEP_NANOS: u64 = 500_000_000;

/// One channel.
#[derive(Clone, Copy, PartialEq, Eq, Structural, Debug)]
pub struct Channel {
    /// The bar.
    pub bar: u32,
    /// The mark above it.
    pub hold: u32,
    /// How long ago the mark was set, in nanoseconds, as far as it matters.
    pub age: u64,
}

/// What a channel's values fall to.
#[derive(Clone, Copy, PartialEq, Eq, Structural, Debug)]
pub struct Release {
    /// The bar, released.
    pub bar: u32,
    /// The mark, released.
    pub hold: u32,
    /// The mark, kept; zero where it is at the bottom of the scale.
    pub kept: u32,
}

/// The peaks of both channels.
#[derive(Clone, Copy, PartialEq, Eq, Structural, Debug)]
pub struct PeakMeter {
    pub left: Channel,
    pub right: Channel,
    /// The largest amplitude of both channels since the last restart.
    pub max: u32,
    /// Whether a sample has clipped since the last restart.
    pub clipped: bool,
}

/// The larger amplitude.
pub open spec fn larger(a: u32, b: u32) -> u32 {
    if b > a {
        b
    } else {
        a
    }
}

/// How far a sample is from zero, to either side. What is not a number counts as
/// silence.
pub open spec fn amplitude_of(sample: u32) -> u32 {
    let distance = sample % SIGN;
    if distance > INFINITE_AMPLITUDE {
        0
    } else {
        distance
    }
}

impl Channel {
    /// Silence.
    pub open spec fn silent() -> Channel {
        Channel { bar: 0, hold: 0, age: 0 }
    }

    /// After a sample: the bar and the mark rise at once.
    pub open spec fn hit(self, amplitude: u32) -> Channel {
        Channel {
            bar: larger(self.bar, amplitude),
            hold: larger(self.hold, amplitude),
            age: if amplitude > self.hold {
                0
            } else {
                self.age
            },
        }
    }

    /// After some time: the bar falls, the mark only when it is old.
    pub open spec fn aged(self, nanos: u64, release: Release) -> Channel {
        let age = older(self.age, nanos);
        Channel {
            bar: release.bar,
            hold: if age > HOLD_NANOS {
                release.hold
            } else {
                release.kept
            },
            age,
        }
    }
}

/// An age after some time. Beyond the time that the mark stays it does not
/// matter any more.
pub open spec fn older(age: u64, nanos: u64) -> u64 {
    let step = if nanos > MAX_STEP_NANOS {
        MAX_STEP_NANOS
    } else {
        nanos
    };
    if age + step > HOLD_NANOS {
        (HOLD_NANOS + 1) as u64
    } else {
        (age + step) as u64
    }
}

impl PeakMeter {
    /// A meter that has heard nothing.
    pub open spec fn fresh() -> PeakMeter {
        PeakMeter { left: Channel::silent(), right: Channel::silent(), max: 0, clipped: false }
    }

    /// After a frame.
    pub open spec fn hit(self, left: u32, right: u32) -> PeakMeter {
        PeakMeter {
            left: self.left.hit(left),
            right: self.right.hit(right),
            max: larger(larger(self.max, left), right),
            clipped: self.clipped || left >= CLIP_AMPLITUDE || right >= CLIP_AMPLITUDE,
        }
    }

    /// After the first frames of the samples, which alternate between the
    /// channels.
    pub open spec fn after(self, samples: Seq<u32>, frames: nat) -> PeakMeter
        decreases frames,
    {
        if frames == 0 {
            self
        } else {
            self.after(samples, (frames - 1) as nat).hit(
                amplitude_of(samples[2 * frames - 2]),
                amplitude_of(samples[2 * frames - 1]),
            )
        }
    }

    /// With the largest amplitude, clipping and the marks forgotten.
    pub open spec fn restarted(self) -> PeakMeter {
        PeakMeter {
            left: Channel { hold: 0, age: 0, ..self.left },
            right: Channel { hold: 0, age: 0, ..self.right },
            max: 0,
            clipped: false,
        }
    }
}

/// How far a sample is from zero.
fn amplitude(sample: u32) -> (amplitude: u32)
    ensures
        amplitude == amplitude_of(sample),
{
    let distance: u32 = sample % SIGN;
    if distance > INFINITE_AMPLITUDE {
        0
    } else {
        distance
    }
}

impl Channel {
    fn strike(&mut self, amplitude: u32)
        ensures
            *final(self) == old(self).hit(amplitude),
    {
        if amplitude > self.bar {
            self.bar = amplitude;
        }
        if amplitude > self.hold {
            self.hold = amplitude;
            self.age = 0;
        }
    }

    fn grow_old(&mut self, nanos: u64, release: Release)
        requires
            old(self).age <= HOLD_NANOS + 1,
        ensures
            *final(self) == old(self).aged(nanos, release),
    {
        let step: u64 = if nanos > MAX_STEP_NANOS {
            MAX_STEP_NANOS
        } else {
            nanos
        };
        self.bar = release.bar;
        if self.age + step > HOLD_NANOS {
            self.age = HOLD_NANOS + 1;
            self.hold = release.hold;
        } else {
            self.age = self.age + step;
            self.hold = release.kept;
        }
    }
}

impl PeakMeter {
    /// Whether the ages are in range.
    pub open spec fn is_valid(self) -> bool {
        self.left.age <= HOLD_NANOS + 1 && self.right.age <= HOLD_NANOS + 1
    }

    /// A meter that has heard nothing.
    pub fn new() -> (meter: PeakMeter)
        ensures
            meter == PeakMeter::fresh(),
            meter.is_valid(),
    {
        PeakMeter {
            left: Channel { bar: 0, hold: 0, age: 0 },
            right: Channel { bar: 0, hold: 0, age: 0 },
            max: 0,
            clipped: false,
        }
    }

    /// Takes samples in that alternate between the channels. A sample that is
    /// left over is dropped.
    pub fn push(&mut self, interleaved: &Vec<u32>)
        requires
            old(self).is_valid(),
        ensures
            *final(self) == old(self).after(interleaved@, (interleaved@.len() / 2) as nat),
            final(self).is_valid(),
    {
        let count: usize = interleaved.len();
        let mut frame: usize = 0;
        while frame < count / 2
            invariant
                count == interleaved@.len(),
                frame <= count / 2,
                *self == old(self).after(interleaved@, frame as nat),
                self.is_valid(),
            decreases count - frame,
        {
            let left: u32 = amplitude(interleaved[2 * frame]);
            let right: u32 = amplitude(interleaved[2 * frame + 1]);
            self.left.strike(left);
            self.right.strike(right);
            if left > self.max {
                self.max = left;
            }
            if right > self.max {
                self.max = right;
            }
            if left >= CLIP_AMPLITUDE || right >= CLIP_AMPLITUDE {
                self.clipped = true;
            }
            frame += 1;
        }
    }

    /// Lets time pass. What the values fall to is given.
    pub fn update(&mut self, nanos: u64, left: Release, right: Release)
        requires
            old(self).is_valid(),
        ensures
            *final(self) == (PeakMeter {
                left: old(self).left.aged(nanos, left),
                right: old(self).right.aged(nanos, right),
                ..*old(self)
            }),
            final(self).is_valid(),
    {
        self.left.grow_old(nanos, left);
        self.right.grow_old(nanos, right);
    }

    /// Forgets everything.
    pub fn reset(&mut self)
        ensures
            *final(self) == PeakMeter::fresh(),
            final(self).is_valid(),
    {
        *self = PeakMeter::new();
    }

    /// Forgets the largest amplitude, clipping and the marks. The bars stay: what
    /// sounds goes on sounding.
    pub fn restart(&mut self)
        ensures
            *final(self) == old(self).restarted(),
            final(self).is_valid(),
    {
        self.max = 0;
        self.clipped = false;
        self.left.hold = 0;
        self.left.age = 0;
        self.right.hold = 0;
        self.right.age = 0;
    }
}

/// Whether two rows of samples agree in one of the two channels, in the first
/// frames.
pub open spec fn agree_in(a: Seq<u32>, b: Seq<u32>, channel: int, frames: nat) -> bool {
    forall|i: int|
        0 <= i < frames ==> #[trigger] a[2 * i + channel] == b[2 * i + channel]
}

/// A channel's values depend on its own samples alone.
pub proof fn channels_stay_apart(meter: PeakMeter, a: Seq<u32>, b: Seq<u32>, frames: nat)
    requires
        2 * frames <= a.len(),
        a.len() == b.len(),
    ensures
        agree_in(a, b, 0, frames) ==> meter.after(a, frames).left == meter.after(b, frames).left,
        agree_in(a, b, 1, frames) ==> meter.after(a, frames).right == meter.after(b, frames).right,
    decreases frames,
{
    if frames > 0 {
        let last = frames - 1;
        channels_stay_apart(meter, a, b, last as nat);
        if agree_in(a, b, 0, frames) {
            assert(a[2 * last + 0] == b[2 * last + 0]);
        }
        if agree_in(a, b, 1, frames) {
            assert(a[2 * last + 1] == b[2 * last + 1]);
        }
    }
}

/// The bar, the mark and the maximum are at least as large as every sample.
pub proof fn no_peak_is_missed(meter: PeakMeter, samples: Seq<u32>, frames: nat, frame: int)
    requires
        2 * frames <= samples.len(),
        0 <= frame < frames,
    ensures
        amplitude_of(samples[2 * frame]) <= meter.after(samples, frames).left.bar,
        amplitude_of(samples[2 * frame]) <= meter.after(samples, frames).left.hold,
        amplitude_of(samples[2 * frame + 1]) <= meter.after(samples, frames).right.bar,
        amplitude_of(samples[2 * frame + 1]) <= meter.after(samples, frames).right.hold,
        amplitude_of(samples[2 * frame]) <= meter.after(samples, frames).max,
        amplitude_of(samples[2 * frame + 1]) <= meter.after(samples, frames).max,
        amplitude_of(samples[2 * frame]) >= CLIP_AMPLITUDE || amplitude_of(samples[2 * frame + 1])
            >= CLIP_AMPLITUDE
            ==> meter.after(samples, frames).clipped,
    decreases frames,
{
    if frame < frames - 1 {
        no_peak_is_missed(meter, samples, (frames - 1) as nat, frame);
    }
}

/// A mark above the bottom of the scale stays where it is while the time that
/// has passed since it was set is not longer than it is to stay.
pub proof fn a_mark_stays_for_a_while(channel: Channel, nanos: u64, release: Release)
    requires
        release.kept == channel.hold,
        nanos <= MAX_STEP_NANOS,
        channel.age + nanos <= HOLD_NANOS,
    ensures
        channel.aged(nanos, release).hold == channel.hold,
        channel.aged(nanos, release).age == channel.age + nanos,
{
}

/// A sample counts by its distance from zero: the sign makes no difference, and
/// what is not a number counts as silence.
pub proof fn the_sign_makes_no_difference(sample: u32)
    requires
        sample < SIGN,
    ensures
        sample <= INFINITE_AMPLITUDE ==> amplitude_of(sample) == sample,
        sample > INFINITE_AMPLITUDE ==> amplitude_of(sample) == 0,
        amplitude_of((sample + SIGN) as u32) == amplitude_of(sample),
{
}

/// A bar stays where it was or stands at a sample of its own channel, and so does
/// the mark; and nothing clips without a sample that does.
pub proof fn no_peak_is_made_up(meter: PeakMeter, samples: Seq<u32>, frames: nat)
    requires
        2 * frames <= samples.len(),
    ensures
        ({
            let after = meter.after(samples, frames);
            &&& after.left.bar == meter.left.bar || exists|i: int|
                0 <= i < frames && after.left.bar == amplitude_of(#[trigger] samples[2 * i])
            &&& after.right.bar == meter.right.bar || exists|i: int|
                0 <= i < frames && after.right.bar == amplitude_of(#[trigger] samples[2 * i + 1])
            &&& after.left.hold == meter.left.hold || exists|i: int|
                0 <= i < frames && after.left.hold == amplitude_of(#[trigger] samples[2 * i])
            &&& after.right.hold == meter.right.hold || exists|i: int|
                0 <= i < frames && after.right.hold == amplitude_of(#[trigger] samples[2 * i + 1])
            &&& after.clipped ==> meter.clipped || exists|i: int|
                0 <= i < 2 * frames && amplitude_of(#[trigger] samples[i]) >= CLIP_AMPLITUDE
        }),
    decreases frames,
{
    if frames > 0 {
        let last = frames - 1;
        no_peak_is_made_up(meter, samples, last as nat);
        let before = meter.after(samples, last as nat);
        let after = meter.after(samples, frames);
        let left = amplitude_of(samples[2 * last]);
        let right = amplitude_of(samples[2 * last + 1]);
        assert(after == before.hit(left, right));
    }
}

/// The bar falls at once to what it is released to; the mark only when it is
/// older than it is to stay. Starting again forgets the marks and the clipping
/// and leaves the bars.
pub proof fn a_mark_falls_when_it_is_old(
    meter: PeakMeter,
    channel: Channel,
    nanos: u64,
    release: Release,
)
    requires
        nanos <= MAX_STEP_NANOS,
        channel.age + nanos > HOLD_NANOS,
    ensures
        channel.aged(nanos, release).bar == release.bar,
        channel.aged(nanos, release).hold == release.hold,
        meter.restarted().left.bar == meter.left.bar,
        meter.restarted().right.bar == meter.right.bar,
        meter.restarted().left.hold == 0,
        meter.restarted().right.hold == 0,
        meter.restarted().max == 0,
        !meter.restarted().clipped,
{
}

} // verus!
