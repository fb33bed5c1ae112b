//! How velocities are drawn inside a note: from its lower edge upwards.

use crate::canvas::Area;
use vstd::prelude::*;

verus! {

/// The highest velocity.
pub const FULL_VELOCITY: u8 = 127;

/// How high a velocity reaches in an area. The highest one fills it.
pub open spec fn level(area: Area, velocity: u8) -> int {
    let held = if velocity > FULL_VELOCITY {
        FULL_VELOCITY
    } else {
        velocity
    };
    area.bottom - (area.bottom - area.top) * held / 127
}

/// Whether an area is one that a note can have.
pub open spec fn is_drawable(area: Area) -> bool {
    &&& area.top <= area.bottom
    &&& -0x1000_0000_0000_0000_0000_0000 <= area.top
    &&& area.bottom <= 0x1000_0000_0000_0000_0000_0000
}

/// How high a velocity reaches in an area.
fn level_of(area: &Area, velocity: u8) -> (y: i128)
    requires
        is_drawable(*area),
    ensures
        y == level(*area, velocity),
        area.top <= y <= area.bottom,
{
    let held: i128 = if velocity > FULL_VELOCITY {
        127
    } else {
        velocity as i128
    };
    let height: i128 = area.bottom - area.top;
    assert(0 <= height * held <= height * 127) by (nonlinear_arith)
        requires
            height >= 0,
            0 <= held <= 127,
    ;
    let part: i128 = height * held / 127;
    area.bottom - part
}

/// The part of a note's area that is filled for its velocity.
pub fn velocity_fill_rect(area: &Area, velocity: u8) -> (filled: Area)
    requires
        is_drawable(*area),
    ensures
        filled == (Area { top: level(*area, velocity) as i128, ..*area }),
        area.top <= filled.top <= area.bottom,
{
    let top: i128 = level_of(area, velocity);
    Area { left: area.left, right: area.right, top, bottom: area.bottom }
}

/// The corners of a ramp from one velocity to another: upper left, upper right,
/// lower right, lower left.
pub fn velocity_ramp_points(area: &Area, from: u8, to: u8) -> (points: Vec<(i128, i128)>)
    requires
        is_drawable(*area),
    ensures
        points@ =~= seq![
            (area.left, level(*area, from) as i128),
            (area.right, level(*area, to) as i128),
            (area.right, area.bottom),
            (area.left, area.bottom),
        ],
{
    let mut points: Vec<(i128, i128)> = Vec::new();
    points.push((area.left, level_of(area, from)));
    points.push((area.right, level_of(area, to)));
    points.push((area.right, area.bottom));
    points.push((area.left, area.bottom));
    points
}

/// A level rises with the velocity, from the lower edge for none to the upper
/// edge for the highest one.
pub proof fn levels_rise(area: Area, soft: u8, loud: u8)
    requires
        area.top <= area.bottom,
        soft <= loud,
    ensures
        level(area, loud) <= level(area, soft) <= area.bottom,
        level(area, 0) == area.bottom,
        loud >= FULL_VELOCITY ==> level(area, loud) == area.top,
{
    let height = area.bottom - area.top;
    let a: int = if soft > FULL_VELOCITY {
        127
    } else {
        soft as int
    };
    let b: int = if loud > FULL_VELOCITY {
        127
    } else {
        loud as int
    };
    assert(0 <= height * a <= height * b) by (nonlinear_arith)
        requires
            height >= 0,
            0 <= a <= b,
    ;
    assert(height * 0 == 0);
}

/// A level is as much of the area's height as the velocity is of 127, rounded
/// down.
pub proof fn a_level_is_in_proportion(area: Area, velocity: u8)
    requires
        area.top <= area.bottom,
        velocity <= 127,
    ensures
        ({
            let filled = area.bottom - level(area, velocity);
            let height = area.bottom - area.top;
            filled * 127 <= height * velocity < (filled + 1) * 127
        }),
{
}

} // verus!
