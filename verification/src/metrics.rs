//! Sizes on the screen, in subpixels, and the limits of zooming.

use vstd::prelude::*;

verus! {

/// The width of a quarter note: 80 pixels.
pub const PPQ: i32 = 81920;

/// The least width of a quarter note, 16 pixels: below it, beats can no longer
/// be told apart.
pub const MIN_PPQ: i32 = 16384;

/// The greatest width of a quarter note: 480 pixels.
pub const MAX_PPQ: i32 = 491520;

/// By what a drag zooms across for each pixel, in thousandths. A sweep over the
/// screen goes through the whole range.
pub const PPQ_ZOOM_PER_MILLE: i32 = 1006;

/// The height of a lane: 24 pixels.
pub const ROW_H: i32 = 24576;

/// The least height of a lane, 12 pixels: below it, the buttons of a track no
/// longer fit.
pub const MIN_ROW_H: i32 = 12288;

/// The greatest height of a lane: 96 pixels.
pub const MAX_ROW_H: i32 = 98304;

/// By what one notch of the wheel zooms down, in hundredths.
pub const ROW_ZOOM_PERCENT: i32 = 115;

/// The width of the column of tracks: 230 pixels.
pub const GUTTER_W: i32 = 235520;

/// A size held to a range.
pub open spec fn held_to(value: i32, low: i32, high: i32) -> i32 {
    if value < low {
        low
    } else if value > high {
        high
    } else {
        value
    }
}

/// A size held to a range.
pub fn hold_to(value: i32, low: i32, high: i32) -> (held: i32)
    ensures
        held == held_to(value, low, high),
{
    if value < low {
        low
    } else if value > high {
        high
    } else {
        value
    }
}

/// A size inside of its range is taken as it is; any other one becomes the
/// nearest that is inside.
pub proof fn a_size_is_held_to_its_range(value: i32, low: i32, high: i32, other: i32)
    requires
        low <= high,
    ensures
        low <= held_to(value, low, high) <= high,
        low <= value <= high ==> held_to(value, low, high) == value,
        low <= other <= high && value <= other ==> held_to(value, low, high) <= other,
        low <= other <= high && value >= other ==> held_to(value, low, high) >= other,
{
}

} // verus!
