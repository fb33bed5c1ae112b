//! The level meters.

use egui_clap_host::meter::blocks::{BlockClock, Tick, MOMENTARY_BLOCKS, SHORT_TERM_BLOCKS};
use egui_clap_host::meter::fft::{butterfly, reversed, FrameRing, FFT_SIZE, REFRESH_FRAMES};
use egui_clap_host::meter::peak::{Channel, PeakMeter, Release};
use egui_clap_host::meter::{needs_new_meters, plan_drain, samples_to_take, Drain};

const SILENCE_DBFS: f32 = -70.0;
const RELEASE_DB_PER_SECOND: f32 = 20.0;

fn to_dbfs(amplitude: f32) -> f32 {
    if amplitude <= 0.0 {
        return SILENCE_DBFS;
    }
    (20.0 * amplitude.log10()).max(SILENCE_DBFS)
}

fn dbfs(bits: u32) -> f32 {
    to_dbfs(f32::from_bits(bits))
}

fn push(meter: &mut PeakMeter, samples: &[f32]) {
    let patterns = samples.iter().map(|sample| sample.to_bits()).collect();
    meter.push(&patterns);
}

fn released(channel: &Channel, seconds: f32) -> Release {
    let factor = 10f32.powf(-RELEASE_DB_PER_SECOND * seconds / 20.0);
    let floored = |value: f32| if to_dbfs(value) <= SILENCE_DBFS { 0 } else { value.to_bits() };
    Release {
        bar: floored(f32::from_bits(channel.bar) * factor),
        hold: floored(f32::from_bits(channel.hold) * factor),
        kept: floored(f32::from_bits(channel.hold)),
    }
}

fn update(meter: &mut PeakMeter, seconds: f32) {
    let (left, right) = (released(&meter.left, seconds), released(&meter.right, seconds));
    meter.update((seconds * 1e9) as u64, left, right);
}

#[test]
fn half_amplitude_reads_minus_six_dbfs() {
    let mut meter = PeakMeter::new();
    push(&mut meter, &[0.5, -0.5]);
    for channel in [meter.left, meter.right] {
        assert!((dbfs(channel.bar) - (-6.02)).abs() < 0.01);
    }
    assert!((dbfs(meter.max) - (-6.02)).abs() < 0.01);
    assert!(!meter.clipped);
}

#[test]
fn what_is_not_a_number_is_not_heard() {
    let mut meter = PeakMeter::new();
    push(&mut meter, &[f32::NAN, -f32::NAN]);
    assert_eq!(meter, PeakMeter::new());

    push(&mut meter, &[f32::NEG_INFINITY, 0.25]);
    assert_eq!(f32::from_bits(meter.left.bar), f32::INFINITY);
    assert_eq!(f32::from_bits(meter.right.bar), 0.25);
    assert!(meter.clipped);
}

#[test]
fn attack_is_instant_and_release_is_timed() {
    let mut meter = PeakMeter::new();
    push(&mut meter, &[1.0, 1.0]);
    assert!((dbfs(meter.left.bar) - 0.0).abs() < 0.01);

    update(&mut meter, 0.1);
    let expected = -RELEASE_DB_PER_SECOND * 0.1;
    assert!((dbfs(meter.left.bar) - expected).abs() < 0.01);
}

#[test]
fn hold_stays_then_falls() {
    let mut meter = PeakMeter::new();
    push(&mut meter, &[0.5, 0.5]);

    for _ in 0..3 {
        update(&mut meter, 0.5);
    }
    assert!((dbfs(meter.left.hold) - (-6.02)).abs() < 0.01);

    for _ in 0..2 {
        update(&mut meter, 0.5);
    }
    assert!(dbfs(meter.left.hold) < -6.02);
}

#[test]
fn max_and_clip_latch_until_restarted() {
    let mut meter = PeakMeter::new();
    push(&mut meter, &[1.2, 0.0]);
    assert!(meter.clipped);

    for _ in 0..100 {
        update(&mut meter, 0.5);
    }
    assert!(meter.clipped);
    assert!((dbfs(meter.max) - to_dbfs(1.2)).abs() < 0.01);

    push(&mut meter, &[0.5, 0.5]);
    meter.restart();
    assert!(!meter.clipped);
    assert_eq!(dbfs(meter.max), SILENCE_DBFS);
    assert!(dbfs(meter.left.bar) > SILENCE_DBFS);
}

#[test]
fn channels_stay_separate() {
    let mut meter = PeakMeter::new();
    push(&mut meter, &[0.5, 0.0, 0.5, 0.0]);
    assert!(dbfs(meter.left.bar) > -7.0);
    assert_eq!(dbfs(meter.right.bar), SILENCE_DBFS);
}

#[test]
fn silence_settles_at_the_floor() {
    let mut meter = PeakMeter::new();
    push(&mut meter, &[0.001, 0.001]);
    for _ in 0..100 {
        update(&mut meter, 0.5);
    }
    assert_eq!(dbfs(meter.left.bar), SILENCE_DBFS);
    assert_eq!(dbfs(meter.left.hold), SILENCE_DBFS);
}

#[test]
fn a_sample_without_a_partner_is_dropped() {
    let mut meter = PeakMeter::new();
    push(&mut meter, &[0.25, 0.5, 1.0]);
    assert_eq!(f32::from_bits(meter.max), 0.5);
    meter.reset();
    assert_eq!(meter, PeakMeter::new());
}

/// Counts so many frames, and gives the windows that were added to the sum.
fn count(clock: &mut BlockClock, frames: u32) -> usize {
    let mut added = 0;
    for _ in 0..frames {
        if let Tick::Closed { gate: true, .. } = clock.tick() {
            added += 1;
        }
    }
    added
}

#[test]
fn the_window_has_to_fill_before_it_reads() {
    let mut clock = BlockClock::new(48_000);
    count(&mut clock, 9_600);
    assert_eq!(clock.window(MOMENTARY_BLOCKS), None);
    assert_eq!(clock.window(SHORT_TERM_BLOCKS), None);

    count(&mut clock, 14_400);
    assert_eq!(clock.window(MOMENTARY_BLOCKS), Some(vec![4, 3, 2, 1]));
    assert_eq!(clock.window(SHORT_TERM_BLOCKS), None);
}

#[test]
fn restarting_leaves_the_rolling_windows_alone() {
    let mut clock = BlockClock::new(48_000);
    count(&mut clock, 4 * 48_000);
    let windows = (clock.window(MOMENTARY_BLOCKS), clock.window(SHORT_TERM_BLOCKS));
    assert!(windows.1.is_some());
    assert!(clock.gating > 0);

    clock.restart_integrated();
    assert_eq!(clock.gating, 0);
    assert_eq!(
        (clock.window(MOMENTARY_BLOCKS), clock.window(SHORT_TERM_BLOCKS)),
        windows
    );
}

#[test]
fn the_previous_pass_does_not_leak_in() {
    let mut clock = BlockClock::new(48_000);
    count(&mut clock, 4 * 48_000);
    clock.restart_integrated();
    let mut fresh = Vec::new();
    loop {
        if let Tick::Closed { slot, gate } = clock.tick() {
            fresh.push(slot);
            if gate {
                break;
            }
        }
    }
    fresh.reverse();
    assert_eq!(clock.window(MOMENTARY_BLOCKS), Some(fresh));
}

#[test]
fn the_integrated_needs_one_full_window() {
    let mut clock = BlockClock::new(48_000);
    assert_eq!(count(&mut clock, 14_400), 0);
    assert_eq!(clock.gating, 0);

    assert_eq!(count(&mut clock, 9_600), 2);
    assert_eq!(clock.gating, 2);
}

#[test]
fn a_new_rate_starts_from_scratch() {
    let mut clock = BlockClock::new(48_000);
    count(&mut clock, 4 * 48_000);
    assert!(clock.window(SHORT_TERM_BLOCKS).is_some());

    clock.reset();
    assert_eq!(clock.window(SHORT_TERM_BLOCKS), None);
    assert_eq!(clock, BlockClock::new(48_000));
}

#[test]
fn a_block_is_a_tenth_of_a_second() {
    assert_eq!(BlockClock::new(44_100).block_frames, 4_410);
    assert_eq!(BlockClock::new(44_105).block_frames, 4_411);
    assert_eq!(BlockClock::new(1).block_frames, 1);
    assert_eq!(BlockClock::new(0).sample_rate, 1);
}

#[test]
fn a_new_sample_rate_rebuilds_everything() {
    assert!(needs_new_meters(48_000, 44_100));
    assert!(!needs_new_meters(48_000, 48_000));
    assert!(!needs_new_meters(48_000, 0));
}

#[test]
fn it_never_splits_a_frame() {
    assert_eq!(samples_to_take(7), 6);
    assert_eq!(samples_to_take(1), 0);
    assert_eq!(samples_to_take(1_000_001), 48_000);
    assert_eq!(plan_drain(4, 6), Drain { head: 4, tail: 6 });
    assert_eq!(plan_drain(3, 5), Drain { head: 2, tail: 0 });
    assert_eq!(plan_drain(4, 5), Drain { head: 4, tail: 4 });
}

/// The transform, in the order that the library gives.
fn transform(re: &mut Vec<f32>, im: &mut Vec<f32>) {
    for index in 0..FFT_SIZE {
        let target = reversed(index);
        if index < target {
            re.swap(index, target);
            im.swap(index, target);
        }
    }
    let mut half = 1;
    while half < FFT_SIZE {
        for step in 0..FFT_SIZE / 2 {
            let points = butterfly(half, step);
            let angle = -std::f32::consts::TAU * points.twiddle as f32 / FFT_SIZE as f32;
            let (wr, wi) = (angle.cos(), angle.sin());
            let (low, high) = (points.low, points.high);
            let tr = re[high] * wr - im[high] * wi;
            let ti = re[high] * wi + im[high] * wr;
            re[high] = re[low] - tr;
            im[high] = im[low] - ti;
            re[low] += tr;
            im[low] += ti;
        }
        half *= 2;
    }
}

#[test]
fn the_transform_puts_a_constant_in_the_first_bin() {
    let mut re = vec![1.0; FFT_SIZE];
    let mut im = vec![0.0; FFT_SIZE];
    transform(&mut re, &mut im);

    assert!((re[0] - FFT_SIZE as f32).abs() < 0.01, "{}", re[0]);
    assert!(im[0].abs() < 0.01);
    for bin in 1..FFT_SIZE / 2 {
        let magnitude = (re[bin] * re[bin] + im[bin] * im[bin]).sqrt();
        assert!(magnitude < 0.01, "{bin}: {magnitude}");
    }
}

#[test]
fn a_wave_lands_in_its_own_bin() {
    let mut re: Vec<f32> = (0..FFT_SIZE)
        .map(|i| (std::f32::consts::TAU * 5.0 * i as f32 / FFT_SIZE as f32).cos())
        .collect();
    let mut im = vec![0.0; FFT_SIZE];
    transform(&mut re, &mut im);
    assert!((re[5] - FFT_SIZE as f32 / 2.0).abs() < 0.5, "{}", re[5]);
    assert!(re[4].abs() < 0.5 && re[6].abs() < 0.5);
}

#[test]
fn bits_are_turned_round() {
    assert_eq!(reversed(0), 0);
    assert_eq!(reversed(1), 1024);
    assert_eq!(reversed(3), 1536);
    for index in 0..FFT_SIZE {
        assert_eq!(reversed(reversed(index)), index);
    }
}

#[test]
fn frames_are_read_from_the_oldest() {
    let mut ring = FrameRing::new();
    let mut frames = vec![0usize; FFT_SIZE];
    for frame in 0..FFT_SIZE + 3 {
        let slot = ring.push();
        frames[slot] = frame;
    }
    let read: Vec<usize> = (0..FFT_SIZE).map(|i| frames[ring.source(i)]).collect();
    assert_eq!(read, (3..FFT_SIZE + 3).collect::<Vec<usize>>());

    assert!(ring.refresh());
    assert!(!ring.refresh());
    for _ in 0..REFRESH_FRAMES {
        assert!(!ring.refresh());
        ring.push();
    }
    assert!(ring.refresh());
}
