//! The order in which a transform of radix two visits its points.

use vstd::prelude::*;

verus! {

/// The points of the transform.
pub const FFT_SIZE: usize = 2048;

/// The bits of a point's number.
pub const FFT_BITS: u32 = 11;

/// The frames after which the transform is done again.
pub const REFRESH_FRAMES: usize = 256;

/// Two to the power of `bits`.
pub open spec fn two_to(bits: nat) -> int
    decreases bits,
{
    if bits == 0 {
        1
    } else {
        2 * two_to((bits - 1) as nat)
    }
}

/// A number of `bits` bits with their order turned round.
pub open spec fn turned(number: int, bits: nat) -> int
    decreases bits,
{
    if bits == 0 {
        0
    } else {
        (number % 2) * two_to((bits - 1) as nat) + turned(number / 2, (bits - 1) as nat)
    }
}

proof fn lemma_turned_range(number: int, bits: nat)
    ensures
        0 <= turned(number, bits) < two_to(bits),
        two_to(bits) > 0,
    decreases bits,
{
    if bits > 0 {
        lemma_turned_range(number / 2, (bits - 1) as nat);
        let half = two_to((bits - 1) as nat);
        assert((number % 2) * half <= half && (number % 2) * half >= 0) by (nonlinear_arith)
            requires
                0 <= number % 2 <= 1,
                half > 0,
        ;
    }
}

/// The lowest bit of a turned number is its highest bit, and the other way
/// round.
proof fn lemma_turned_from_above(number: int, bits: nat)
    requires
        bits > 0,
        0 <= number < two_to(bits),
    ensures
        ({
            let half = two_to((bits - 1) as nat);
            turned(number, bits) == 2 * turned(number % half, (bits - 1) as nat) + number / half
        }),
    decreases bits,
{
    let half = two_to((bits - 1) as nat);
    lemma_turned_range(number, (bits - 1) as nat);
    if bits == 1 {
        assert(two_to(0) == 1);
        assert(two_to(1) == 2);
        assert(turned(number, 1) == (number % 2) * 1 + turned(number / 2, 0));
        assert(half == 1);
        assert(number / 1 == number);
    } else {
        let quarter = two_to((bits - 2) as nat);
        lemma_turned_range(number, (bits - 2) as nat);
        assert(half == 2 * quarter);
        let upper = number / 2;
        assert(upper < half && upper >= 0);
        lemma_turned_from_above(upper, (bits - 1) as nat);
        let rest = number % half;
        let high = number / half;
        vstd::arithmetic::div_mod::lemma_fundamental_div_mod(number, half);
        vstd::arithmetic::div_mod::lemma_mod_bound(number, half);
        let pair = rest / 2;
        let odd = rest % 2;
        assert(number == (high * quarter + pair) * 2 + odd) by (nonlinear_arith)
            requires
                number == half * high + rest,
                half == 2 * quarter,
                rest == 2 * pair + odd,
        ;
        lemma_unique_parts(2, number, high * quarter + pair, odd);
        lemma_unique_parts(quarter, upper, high, pair);
        assert(turned(number, bits) == (number % 2) * half + turned(upper, (bits - 1) as nat));
        assert(turned(rest, (bits - 1) as nat) == (rest % 2) * quarter + turned(
            rest / 2,
            (bits - 2) as nat,
        ));
        assert((number % 2) * half == 2 * ((number % 2) * quarter)) by (nonlinear_arith)
            requires
                half == 2 * quarter,
        ;
    }
}

/// Turning a number round twice gives it back. So exchanging each point with its
/// turned number puts every point in its place.
pub proof fn turning_twice_changes_nothing(number: int, bits: nat)
    requires
        0 <= number < two_to(bits),
    ensures
        turned(turned(number, bits), bits) == number,
        0 <= turned(number, bits) < two_to(bits),
    decreases bits,
{
    lemma_turned_range(number, bits);
    if bits > 0 {
        let half = two_to((bits - 1) as nat);
        lemma_turned_range(number, (bits - 1) as nat);
        lemma_turned_from_above(number, bits);
        let low = number % half;
        let high = number / half;
        assert(0 <= low < half && number == high * half + low && 0 <= high <= 1)
            by (nonlinear_arith)
            requires
                half > 0,
                0 <= number < 2 * half,
                low == number % half,
                high == number / half,
        ;
        turning_twice_changes_nothing(low, (bits - 1) as nat);
        let once = turned(number, bits);
        assert(once % 2 == high && once / 2 == turned(low, (bits - 1) as nat));
    }
}

/// A point's number with its bits turned round.
pub fn reversed(index: usize) -> (target: usize)
    requires
        index < FFT_SIZE,
    ensures
        target == turned(index as int, FFT_BITS as nat),
        target < FFT_SIZE,
{
    let mut rest: usize = index;
    let mut weight: usize = 2048;
    let mut target: usize = 0;
    let mut left: u32 = 11;
    proof {
        lemma_two_to();
        lemma_turned_range(index as int, 11);
    }
    while left > 0
        invariant
            left <= 11,
            weight == two_to(left as nat),
            weight <= 2048,
            target + turned(rest as int, left as nat) == turned(index as int, 11),
            target % weight == 0,
            target < 2048,
            turned(index as int, 11) < 2048,
        decreases left,
    {
        weight = weight / 2;
        proof {
            lemma_turned_range(rest as int / 2, (left - 1) as nat);
            assert((rest as int % 2) * two_to((left - 1) as nat) == if rest % 2 == 1 {
                two_to((left - 1) as nat)
            } else {
                0
            }) by (nonlinear_arith)
                requires
                    0 <= rest as int % 2 <= 1,
                    rest % 2 == 1 <==> rest as int % 2 == 1,
            ;
            assert(target as int % (weight as int) == 0) by (nonlinear_arith)
                requires
                    target as int % (2 * weight as int) == 0,
                    weight > 0,
            ;
        }
        if rest % 2 == 1 {
            target = target + weight;
            proof {
                assert(target as int % (weight as int) == 0) by (nonlinear_arith)
                    requires
                        (target - weight) as int % (weight as int) == 0,
                        weight > 0,
                ;
            }
        }
        rest = rest / 2;
        left -= 1;
    }
    target
}

proof fn lemma_two_to()
    ensures
        two_to(11) == 2048,
        two_to(10) == 1024,
{
    reveal_with_fuel(two_to, 12);
}

/// One step of a stage: two points are combined, with a factor from the table.
#[derive(Clone, Copy, PartialEq, Eq, Structural, Debug)]
pub struct Butterfly {
    pub low: usize,
    pub high: usize,
    pub twiddle: usize,
}

/// The points that a step of a stage combines. A stage goes through groups of
/// `2 * half` points, one after the other; a step of a group combines a point of
/// its lower half with the one at the same place in its upper half.
pub open spec fn step_of(half: int, step: int) -> (int, int, int) {
    let low = step / half * (2 * half) + step % half;
    (low, low + half, step % half * (1024int / half))
}

/// The step that combines a point with another one.
pub open spec fn step_at(half: int, point: int) -> int {
    point / (2 * half) * half + point % half
}

/// A stage's half group sizes: 1, 2, 4 and so on up to half of all points.
pub open spec fn is_half(half: int) -> bool {
    exists|bits: nat| bits < FFT_BITS && half == #[trigger] two_to(bits)
}

proof fn lemma_two_to_adds(a: nat, b: nat)
    ensures
        two_to(a) * two_to(b) == two_to(a + b),
        two_to(a) > 0,
    decreases a,
{
    if a > 0 {
        lemma_two_to_adds((a - 1) as nat, b);
        assert((a - 1) as nat + b == (a + b - 1) as nat);
        assert((2 * two_to((a - 1) as nat)) * two_to(b) == 2 * (two_to((a - 1) as nat) * two_to(b)))
            by (nonlinear_arith);
    } else {
        assert(1 * two_to(b) == two_to(b));
    }
}

proof fn lemma_half_divides(bits: nat)
    requires
        bits <= 10,
    ensures
        two_to(bits) > 0,
        1024int / two_to(bits) * two_to(bits) == 1024,
        two_to(bits) <= 1024,
{
    let half = two_to(bits);
    let groups = two_to((10 - bits) as nat);
    lemma_two_to();
    lemma_two_to_adds((10 - bits) as nat, bits);
    lemma_two_to_adds(bits, 0);
    lemma_unique_parts(half, 1024, groups, 0);
    assert(half <= groups * half) by (nonlinear_arith)
        requires
            groups >= 1,
            half > 0,
    ;
}

/// The points of a step.
pub fn butterfly(half: usize, step: usize) -> (step_points: Butterfly)
    requires
        is_half(half as int),
        step < 1024,
    ensures
        (step_points.low as int, step_points.high as int, step_points.twiddle as int) == step_of(
            half as int,
            step as int,
        ),
        step_points.low < step_points.high < FFT_SIZE,
        step_points.twiddle < 1024,
{
    proof {
        let bits = choose|bits: nat| bits < FFT_BITS && half as int == #[trigger] two_to(bits);
        lemma_half_divides(bits);
        lemma_step_in_range(half as int, step as int);
    }
    let place: usize = step % half;
    let low: usize = step / half * (2 * half) + place;
    Butterfly { low, high: low + half, twiddle: place * (1024 / half) }
}

proof fn lemma_step_in_range(half: int, step: int)
    requires
        half > 0,
        1024int / half * half == 1024,
        0 <= step < 1024,
    ensures
        0 <= step / half * (2 * half),
        0 <= step_of(half, step).0,
        step_of(half, step).1 < 2048,
        0 <= step % half * (1024int / half) < 1024,
{
    let group = step / half;
    let place = step % half;
    let groups = 1024int / half;
    assert(step == group * half + place && 0 <= place < half && group >= 0) by (nonlinear_arith)
        requires
            half > 0,
            step >= 0,
            group == step / half,
            place == step % half,
    ;
    assert(group < groups) by (nonlinear_arith)
        requires
            group * half + place < groups * half,
            place >= 0,
            half > 0,
    ;
    assert(group * (2 * half) + 2 * half <= groups * (2 * half)) by (nonlinear_arith)
        requires
            group + 1 <= groups,
            half > 0,
    ;
    assert(groups * (2 * half) == 2 * (groups * half)) by (nonlinear_arith);
    assert(group * (2 * half) >= 0) by (nonlinear_arith)
        requires
            group >= 0,
            half > 0,
    ;
    assert(0 <= place * groups < half * groups) by (nonlinear_arith)
        requires
            0 <= place < half,
            groups > group,
            group >= 0,
    ;
    assert(half * groups == groups * half) by (nonlinear_arith);
}

/// Each stage combines every point exactly once.
pub proof fn every_point_is_combined_once(half: int, point: int, step: int)
    requires
        is_half(half),
        0 <= point < FFT_SIZE,
        0 <= step < 1024,
    ensures
        0 <= step_at(half, point) < 1024,
        (step_of(half, step).0 == point || step_of(half, step).1 == point) <==> step == step_at(
            half,
            point,
        ),
{
    let bits = choose|bits: nat| bits < FFT_BITS && half == #[trigger] two_to(bits);
    lemma_half_divides(bits);
    let group = point / (2 * half);
    let rest = point % (2 * half);
    let groups = 1024int / half;
    assert(point == group * (2 * half) + rest && 0 <= rest < 2 * half && group >= 0)
        by (nonlinear_arith)
        requires
            half > 0,
            point >= 0,
            group == point / (2 * half),
            rest == point % (2 * half),
    ;
    let place = if rest < half {
        rest
    } else {
        rest - half
    };
    let upper: int = if rest < half {
        0
    } else {
        1
    };
    assert(point % half == place) by {
        assert(point == (2 * group + upper) * half + place) by (nonlinear_arith)
            requires
                point == group * (2 * half) + rest,
                rest == upper * half + place,
        ;
        lemma_unique_parts(half, point, 2 * group + upper, place);
    }
    assert(group < groups) by (nonlinear_arith)
        requires
            group * (2 * half) + rest < 2048,
            rest >= 0,
            groups * half == 1024,
            half > 0,
    ;
    let own = step_at(half, point);
    assert(own == group * half + place);
    assert(own < 1024 && own >= 0) by (nonlinear_arith)
        requires
            own == group * half + place,
            0 <= group < groups,
            0 <= place < half,
            groups * half == 1024,
    ;
    lemma_unique_parts(half, own, group, place);
    assert(step_of(half, own).0 == group * (2 * half) + place);
    let other = step / half;
    let other_place = step % half;
    assert(step == other * half + other_place && 0 <= other_place < half) by (nonlinear_arith)
        requires
            half > 0,
            step >= 0,
            other == step / half,
            other_place == step % half,
    ;
    let low = other * (2 * half) + other_place;
    if low == point || low + half == point {
        lemma_unique_parts(2 * half, point, other, point - other * (2 * half));
        assert(other == group);
        assert(other_place == place);
    }
}

/// A quotient and a remainder are determined by what they make up.
proof fn lemma_unique_parts(divisor: int, number: int, quotient: int, remainder: int)
    requires
        divisor > 0,
        0 <= remainder < divisor,
        number == quotient * divisor + remainder,
    ensures
        number / divisor == quotient,
        number % divisor == remainder,
{
    vstd::arithmetic::div_mod::lemma_fundamental_div_mod_converse(
        number,
        divisor,
        quotient,
        remainder,
    );
}

/// Where the next frame goes in the ring of frames, and whether enough came in
/// since the last transform.
#[derive(Clone, Copy, PartialEq, Eq, Structural, Debug)]
pub struct FrameRing {
    pub at: usize,
    /// The frames since the last transform, as far as they matter.
    pub since: usize,
}

impl FrameRing {
    /// Whether the counts are in range.
    pub open spec fn is_valid(self) -> bool {
        self.at < FFT_SIZE && self.since <= REFRESH_FRAMES
    }

    /// After a frame.
    pub open spec fn pushed(self) -> FrameRing {
        FrameRing {
            at: ((self.at + 1) % FFT_SIZE as int) as usize,
            since: if self.since < REFRESH_FRAMES {
                (self.since + 1) as usize
            } else {
                self.since
            },
        }
    }

    /// The place of a frame, counted from the oldest one.
    pub open spec fn place(self, index: int) -> int {
        (self.at + index) % FFT_SIZE as int
    }

    /// An empty ring.
    pub fn new() -> (ring: FrameRing)
        ensures
            ring == (FrameRing { at: 0, since: 0 }),
            ring.is_valid(),
    {
        FrameRing { at: 0, since: 0 }
    }

    /// Takes a frame in, and says where it goes.
    pub fn push(&mut self) -> (slot: usize)
        requires
            old(self).is_valid(),
        ensures
            slot == old(self).at,
            *final(self) == old(self).pushed(),
            final(self).is_valid(),
    {
        let slot: usize = self.at;
        self.at = (self.at + 1) % FFT_SIZE;
        if self.since < REFRESH_FRAMES {
            self.since += 1;
        }
        slot
    }

    /// Whether the transform is due. If it is, counting starts again.
    pub fn refresh(&mut self) -> (due: bool)
        requires
            old(self).is_valid(),
        ensures
            due == (old(self).since >= REFRESH_FRAMES),
            *final(self) == (if due {
                FrameRing { since: 0, ..*old(self) }
            } else {
                *old(self)
            }),
            final(self).is_valid(),
    {
        if self.since >= REFRESH_FRAMES {
            self.since = 0;
            true
        } else {
            false
        }
    }

    /// The place of a frame, counted from the oldest one.
    pub fn source(&self, index: usize) -> (place: usize)
        requires
            self.is_valid(),
            index < FFT_SIZE,
        ensures
            place == self.place(index as int),
            place < FFT_SIZE,
    {
        (self.at + index) % FFT_SIZE
    }
}

/// The frame that came in last is read last, and the others each move one place
/// towards the oldest.
pub proof fn frames_are_read_in_order(ring: FrameRing, index: int)
    requires
        ring.is_valid(),
        0 <= index < FFT_SIZE - 1,
    ensures
        ring.pushed().place(FFT_SIZE - 1) == ring.at,
        ring.pushed().place(index) == ring.place(index + 1),
{
}

/// A step combines two points that are half a group apart, the first of them in
/// the lower half of its group. Its factor goes by its place there, such that the
/// half group spans the whole table.
pub proof fn a_step_combines_points_half_a_group_apart(half: int, step: int)
    requires
        is_half(half),
        0 <= step < 1024,
    ensures
        ({
            let (low, high, twiddle) = step_of(half, step);
            &&& high - low == half
            &&& 0 <= low % (2 * half) < half
            &&& twiddle * half == (low % (2 * half)) * 1024
        }),
{
    let bits = choose|bits: nat| bits < FFT_BITS && half == #[trigger] two_to(bits);
    lemma_half_divides(bits);
    let place = step % half;
    let group = step / half;
    vstd::arithmetic::div_mod::lemma_mod_bound(step, half);
    lemma_unique_parts(2 * half, group * (2 * half) + place, group, place);
    let parts = 1024int / half;
    assert(place * parts * half == place * 1024) by (nonlinear_arith)
        requires
            parts * half == 1024,
    ;
}

proof fn lemma_two_to_sum(a: nat, b: nat)
    ensures
        two_to(a + b) == two_to(a) * two_to(b),
        two_to(a) > 0,
    decreases a,
{
    if a > 0 {
        lemma_two_to_sum((a - 1) as nat, b);
        let (less, other) = (two_to((a - 1) as nat), two_to(b));
        assert(2 * (less * other) == (2 * less) * other) by (nonlinear_arith);
    } else {
        assert(1 * two_to(b) == two_to(b));
    }
}

/// Every bit of a number comes to the place that is as far from the other end.
pub proof fn every_bit_changes_ends(number: int, bits: nat, place: nat)
    requires
        number >= 0,
        place < bits,
    ensures
        (turned(number, bits) / two_to(place)) % 2 == (number / two_to((bits - 1 - place) as nat))
            % 2,
        two_to(place) >= 1,
        place > 0 ==> two_to(place) == 2 * two_to((place - 1) as nat),
        place == 0 ==> two_to(place) == 1,
    decreases bits,
{
    let half = two_to((bits - 1) as nat);
    let low = number % 2;
    let rest = turned(number / 2, (bits - 1) as nat);
    lemma_turned_range(number / 2, (bits - 1) as nat);
    lemma_two_to_sum(place, (bits - 1 - place) as nat);
    let part = two_to(place);
    if place == bits - 1 {
        lemma_unique_parts(half, low * half + rest, low, rest);
        assert(number / two_to(0) == number);
    } else {
        every_bit_changes_ends(number / 2, (bits - 1) as nat, place);
        let beyond = two_to((bits - 1 - place) as nat);
        let next = two_to((bits - 2 - place) as nat);
        assert(beyond == 2 * next);
        lemma_two_to_sum((bits - 2 - place) as nat, 0);
        let quotient = rest / part;
        let left = rest % part;
        vstd::arithmetic::div_mod::lemma_fundamental_div_mod(rest, part);
        vstd::arithmetic::div_mod::lemma_mod_bound(rest, part);
        assert(low * half + rest == (low * next * 2 + quotient) * part + left) by (nonlinear_arith)
            requires
                half == part * (2 * next),
                rest == part * quotient + left,
        ;
        lemma_unique_parts(part, low * half + rest, low * next * 2 + quotient, left);
        assert((low * next * 2 + quotient) % 2 == quotient % 2) by {
            vstd::arithmetic::div_mod::lemma_mod_multiples_vanish(low * next, quotient, 2);
            assert(2 * (low * next) == low * next * 2) by (nonlinear_arith);
        }
        vstd::arithmetic::div_mod::lemma_div_denominator(number, 2, next);
    }
}

} // verus!
