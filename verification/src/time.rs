//! Musical time as whole ticks.

use vstd::prelude::*;

verus! {

/// Ticks in one quarter note.
///
/// The value is a multiple of the export resolution (960) and of every snap
/// width divided into 3, 4, 5, 6 or 7, so each grid position is exact.
pub const TICKS_PER_QUARTER: i64 = 33600;

/// `value` held to the range of the tick type.
pub open spec fn saturate(value: int) -> i64 {
    if value < i64::MIN {
        i64::MIN
    } else if value > i64::MAX {
        i64::MAX
    } else {
        value as i64
    }
}

/// The sum of two tick counts, held to the range of the type.
pub fn plus(a: i64, b: i64) -> (sum: i64)
    ensures
        sum == saturate(a + b),
{
    let wide: i128 = a as i128 + b as i128;
    narrow(wide)
}

/// The difference of two tick counts, held to the range of the type.
pub fn minus(a: i64, b: i64) -> (difference: i64)
    ensures
        difference == saturate(a - b),
{
    let wide: i128 = a as i128 - b as i128;
    narrow(wide)
}

/// `wide` held to the range of the tick type.
pub fn narrow(wide: i128) -> (ticks: i64)
    ensures
        ticks == saturate(wide as int),
{
    if wide < i64::MIN as i128 {
        i64::MIN
    } else if wide > i64::MAX as i128 {
        i64::MAX
    } else {
        wide as i64
    }
}

/// The quotient `value / unit` rounded to the nearest integer, halves away
/// from zero.
pub open spec fn rounded_quotient(value: int, unit: int) -> int
    recommends
        unit > 0,
{
    if value >= 0 {
        (2 * value + unit) / (2 * unit)
    } else {
        -((unit - 2 * value) / (2 * unit))
    }
}

/// The multiple of `unit` nearest to `value`, halves away from zero.
pub open spec fn nearest_multiple(value: int, unit: int) -> int {
    rounded_quotient(value, unit) * unit
}

/// The largest multiple of `unit` that is not above `value`.
pub open spec fn multiple_below(value: int, unit: int) -> int {
    (value / unit) * unit
}

/// Rounds `value / unit` to the nearest integer, halves away from zero.
pub fn round_quotient(value: i128, unit: i128) -> (quotient: i128)
    requires
        0 < unit <= 0x1_0000_0000_0000_0000,
        -0x1_0000_0000_0000_0000_0000_0000 <= value <= 0x1_0000_0000_0000_0000_0000_0000,
    ensures
        quotient == rounded_quotient(value as int, unit as int),
        -0x4_0000_0000_0000_0000_0000_0000 <= quotient <= 0x4_0000_0000_0000_0000_0000_0000,
{
    let magnitude: i128 = if value >= 0 {
        value
    } else {
        -value
    };
    let up: i128 = (2 * magnitude + unit) / (2 * unit);
    proof {
        let numerator = 2 * magnitude + unit;
        assert(0 <= numerator / (2 * unit) <= numerator) by (nonlinear_arith)
            requires
                numerator >= 0,
                unit > 0,
        ;
    }
    if value >= 0 {
        up
    } else {
        -up
    }
}

/// Snaps `value` to the nearest multiple of `unit`, halves away from zero.
pub fn snap_nearest(value: i128, unit: i64) -> (snapped: i128)
    requires
        unit > 0,
        -0x4_0000_0000_0000_0000 <= value <= 0x4_0000_0000_0000_0000,
    ensures
        snapped == nearest_multiple(value as int, unit as int),
{
    let quotient: i128 = round_quotient(value, unit as i128);
    proof {
        lemma_nearest_is_close(value as int, unit as int);
    }
    quotient * (unit as i128)
}

/// Snaps `value` down to a multiple of `unit`.
pub fn snap_below(value: i64, unit: i64) -> (snapped: i128)
    requires
        unit > 0,
    ensures
        snapped == multiple_below(value as int, unit as int),
{
    let wide: i128 = value as i128;
    let divisor: i128 = unit as i128;
    let quotient: i128 = floor_quotient(wide, divisor);
    proof {
        let q = wide as int / divisor as int;
        vstd::arithmetic::div_mod::lemma_fundamental_div_mod(wide as int, divisor as int);
        assert(divisor * q == q * divisor) by (nonlinear_arith);
    }
    quotient * divisor
}

/// The quotient `value / unit` rounded down.
pub fn floor_quotient(value: i128, unit: i128) -> (quotient: i128)
    requires
        0 < unit <= 0x1_0000_0000_0000_0000,
        -0x10_0000_0000_0000_0000_0000_0000 <= value <= 0x10_0000_0000_0000_0000_0000_0000,
    ensures
        quotient == value as int / unit as int,
        -0x40_0000_0000_0000_0000_0000_0000 <= quotient <= 0x40_0000_0000_0000_0000_0000_0000,
{
    proof {
        assert(value >= 0 ==> 0 <= value as int / unit as int <= value) by (nonlinear_arith)
            requires
                unit > 0,
        ;
    }
    if value >= 0 {
        value / unit
    } else {
        let up: i128 = (unit - 1 - value) / unit;
        proof {
            let n = unit - 1 - value;
            assert(0 <= n / (unit as int) <= n) by (nonlinear_arith)
                requires
                    n >= 0,
                    unit > 0,
            ;
            lemma_floor_of_negative(value as int, unit as int);
        }
        -up
    }
}

/// Rounding up the magnitude of a negative number rounds the number down.
proof fn lemma_floor_of_negative(value: int, unit: int)
    requires
        unit > 0,
        value < 0,
    ensures
        -((unit - 1 - value) / unit) == value / unit,
{
    vstd::arithmetic::div_mod::lemma_fundamental_div_mod(value, unit);
    let q = value / unit;
    let r = value % unit;
    assert(unit - 1 - value == unit * (-q) + (unit - 1 - r)) by (nonlinear_arith)
        requires
            value == unit * q + r,
    ;
    vstd::arithmetic::div_mod::lemma_fundamental_div_mod_converse(
        unit - 1 - value,
        unit,
        -q,
        unit - 1 - r,
    );
}

/// A snapped value is at most half a unit away from the value it came from.
pub proof fn lemma_nearest_is_close(value: int, unit: int)
    requires
        unit > 0,
    ensures
        2 * (nearest_multiple(value, unit) - value) <= unit,
        2 * (value - nearest_multiple(value, unit)) <= unit,
{
    let magnitude = if value >= 0 {
        value
    } else {
        -value
    };
    let up = (2 * magnitude + unit) / (2 * unit);
    vstd::arithmetic::div_mod::lemma_fundamental_div_mod(2 * magnitude + unit, 2 * unit);
    let rest = (2 * magnitude + unit) % (2 * unit);
    assert(2 * (up * unit) == (2 * unit) * up) by (nonlinear_arith);
    assert((-up) * unit == -(up * unit)) by (nonlinear_arith);
    assert(nearest_multiple(value, unit) == if value >= 0 {
        up * unit
    } else {
        -(up * unit)
    });
}

/// A multiple of the unit is its own nearest multiple.
pub proof fn lemma_nearest_of_multiple(count: int, unit: int)
    requires
        unit > 0,
    ensures
        rounded_quotient(count * unit, unit) == count,
        nearest_multiple(count * unit, unit) == count * unit,
{
    let magnitude = if count >= 0 {
        count
    } else {
        -count
    };
    assert(2 * (magnitude * unit) + unit == (2 * unit) * magnitude + unit) by (nonlinear_arith);
    vstd::arithmetic::div_mod::lemma_fundamental_div_mod_converse(
        2 * (magnitude * unit) + unit,
        2 * unit,
        magnitude,
        unit,
    );
    assert(count * unit >= 0 <==> count >= 0) by (nonlinear_arith)
        requires
            unit > 0,
    ;
    assert((-count) * unit == -(count * unit)) by (nonlinear_arith);
}

/// Whether a line of the grid is the nearest one to a position. Half way between
/// two lines it is the one that is farther from 0.
pub open spec fn is_nearest_line(line: int, position: int, unit: int) -> bool {
    &&& line % unit == 0
    &&& {
        ||| 2 * (line - position) < unit && 2 * (position - line) < unit
        ||| position >= 0 && 2 * (line - position) == unit
        ||| position < 0 && 2 * (position - line) == unit
    }
}

/// Snapping goes to the nearest line of the grid, and there is only one.
pub proof fn snapping_goes_to_the_nearest_line(line: int, position: int, unit: int)
    requires
        unit > 0,
    ensures
        is_nearest_line(line, position, unit) <==> nearest_multiple(position, unit) == line,
{
    let nearest = nearest_multiple(position, unit);
    let count = rounded_quotient(position, unit);
    let magnitude = if position >= 0 {
        position
    } else {
        -position
    };
    let up = (2 * magnitude + unit) / (2 * unit);
    let rest = (2 * magnitude + unit) % (2 * unit);
    vstd::arithmetic::div_mod::lemma_fundamental_div_mod(2 * magnitude + unit, 2 * unit);
    assert(2 * (up * unit) == (2 * unit) * up) by (nonlinear_arith);
    assert((-up) * unit == -(up * unit)) by (nonlinear_arith);
    vstd::arithmetic::div_mod::lemma_mod_multiples_basic(count, unit);
    assert(is_nearest_line(nearest, position, unit));
    if is_nearest_line(line, position, unit) {
        vstd::arithmetic::div_mod::lemma_fundamental_div_mod(line, unit);
        let other = line / unit;
        assert(-unit < line - nearest < unit);
        assert(unit * other == other * unit) by (nonlinear_arith);
        assert(other * unit - count * unit == (other - count) * unit) by (nonlinear_arith);
        assert(other == count) by (nonlinear_arith)
            requires
                -unit < (other - count) * unit < unit,
                unit > 0,
        ;
    }
}

/// Snapping down goes to the last line of the grid that is not behind a
/// position.
pub proof fn snapping_down_goes_to_the_line_before(position: int, unit: int)
    requires
        unit > 0,
    ensures
        multiple_below(position, unit) % unit == 0,
        multiple_below(position, unit) <= position < multiple_below(position, unit) + unit,
{
    vstd::arithmetic::div_mod::lemma_fundamental_div_mod(position, unit);
    vstd::arithmetic::div_mod::lemma_mod_multiples_basic(position / unit, unit);
    assert(unit * (position / unit) == (position / unit) * unit) by (nonlinear_arith);
}

} // verus!
