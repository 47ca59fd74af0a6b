//! Turning raw random words into points: the seed anywhere in the domain,
//! candidates in the ring between one and two minimum distances around an
//! accepted point.
//!
//! Directions are taken from a rational approximation of the sine so that the
//! whole computation stays in integers.
use vstd::prelude::*;
use crate::domain::Domain;
use crate::geometry::{in_domain, wrap, wrap_spec, Point};

verus! {

/// Angles are counted in steps of 1/65536 of a full turn.
pub const TURN: u64 = 65_536;

pub const HALF_TURN: u64 = 32_768;

pub const QUARTER_TURN: u64 = 16_384;

/// The length that stands for 1 in sines and cosines.
pub const UNIT: u64 = 16_384;

/// Sine of an angle in the first half turn, scaled by `UNIT`.
///
/// With `p = angle * (HALF_TURN - angle)`, the value is
/// `16 p / (5 HALF_TURN^2 - 4 p)`, which stays within two thousandths of the
/// true sine.
pub open spec fn half_wave_spec(angle: int) -> int {
    let p = angle * (HALF_TURN - angle);
    (UNIT * 16 * p) / (5 * HALF_TURN * HALF_TURN - 4 * p)
}

/// Sine of an angle in `0..TURN`, scaled by `UNIT`.
pub open spec fn sine_spec(angle: int) -> int {
    if angle < HALF_TURN {
        half_wave_spec(angle)
    } else {
        -half_wave_spec(angle - HALF_TURN)
    }
}

/// Cosine of an angle in `0..TURN`, scaled by `UNIT`.
pub open spec fn cosine_spec(angle: int) -> int {
    sine_spec((angle + QUARTER_TURN) % (TURN as int))
}

/// `length` times a sine or cosine, rounded toward zero.
pub open spec fn scaled_spec(length: int, component: int) -> int {
    if component >= 0 {
        (length * component) / (UNIT as int)
    } else {
        -((length * (-component)) / (UNIT as int))
    }
}

/// The angle a raw word stands for: its low sixteen bits.
pub open spec fn angle_spec(raw: u64) -> int {
    raw as int % (TURN as int)
}

/// The distance a raw word stands for: at least `min_distance`, less than
/// twice that, chosen by the bits above the angle.
pub open spec fn reach_spec(raw: u64, min_distance: int) -> int {
    min_distance + (raw as int / (TURN as int)) % min_distance
}

/// The candidate that a raw word yields around `from`.
pub open spec fn candidate_spec(domain: Domain, from: Point, raw: u64) -> Point {
    let angle = angle_spec(raw);
    let reach = reach_spec(raw, domain.min_distance as int);
    Point {
        x: wrap_spec(from.x + scaled_spec(reach, cosine_spec(angle)), domain.width as int) as u32,
        y: wrap_spec(from.y + scaled_spec(reach, sine_spec(angle)), domain.height as int) as u32,
    }
}

/// The seed that two raw words yield.
pub open spec fn seed_spec(domain: Domain, raw_x: u64, raw_y: u64) -> Point {
    Point {
        x: (raw_x as int % (domain.width as int)) as u32,
        y: (raw_y as int % (domain.height as int)) as u32,
    }
}

/// The half wave rises from zero to `UNIT` and never leaves that range.
pub proof fn lemma_half_wave_bounds(angle: int)
    requires
        0 <= angle <= HALF_TURN,
    ensures
        0 <= half_wave_spec(angle) <= UNIT,
        0 <= angle * (HALF_TURN - angle) <= 268_435_456,
{
    let h = HALF_TURN as int;
    let p = angle * (h - angle);
    assert(0 <= p && 4 * p <= h * h) by (nonlinear_arith)
        requires
            0 <= angle <= h,
            p == angle * (h - angle),
    {
        assert((h - 2 * angle) * (h - 2 * angle) >= 0);
        assert((h - 2 * angle) * (h - 2 * angle) == h * h - 4 * (angle * (h - angle)));
    }
    let den = 5 * h * h - 4 * p;
    let num = UNIT * 16 * p;
    assert(h == 32_768 && UNIT == 16_384);
    assert(num == 262_144 * p);
    assert(den == 5_368_709_120 - 4 * p);
    assert(UNIT * den == 16_384 * den);
    assert(num <= UNIT * den);
    assert(0 <= num / den <= UNIT) by (nonlinear_arith)
        requires
            0 <= num <= UNIT * den,
            den > 0,
    ;
}

/// Sine of an angle in the first half turn, scaled by `UNIT`.
pub fn half_wave(angle: u64) -> (value: u64)
    requires
        angle <= HALF_TURN,
    ensures
        value == half_wave_spec(angle as int),
        value <= UNIT,
{
    proof {
        lemma_half_wave_bounds(angle as int);
    }
    let p: u64 = angle * (HALF_TURN - angle);
    (UNIT * 16 * p) / (5 * HALF_TURN * HALF_TURN - 4 * p)
}

/// Sine of an angle, scaled by `UNIT`.
pub fn sine(angle: u64) -> (value: i64)
    requires
        angle < TURN,
    ensures
        value == sine_spec(angle as int),
        -UNIT <= value <= UNIT,
{
    if angle < HALF_TURN {
        half_wave(angle) as i64
    } else {
        -(half_wave(angle - HALF_TURN) as i64)
    }
}

/// Cosine of an angle, scaled by `UNIT`.
pub fn cosine(angle: u64) -> (value: i64)
    requires
        angle < TURN,
    ensures
        value == cosine_spec(angle as int),
        -UNIT <= value <= UNIT,
{
    sine((angle + QUARTER_TURN) % TURN)
}

/// `length` times a sine or cosine, rounded toward zero.
pub fn scaled(length: u64, component: i64) -> (value: i64)
    requires
        length <= 0x1_ffff_ffff,
        -UNIT <= component <= UNIT,
    ensures
        value == scaled_spec(length as int, component as int),
        -(length as int) <= value <= length,
{
    let magnitude: u64 = if component >= 0 {
        component as u64
    } else {
        (-component) as u64
    };
    assert(0 <= length * magnitude <= length * UNIT) by (nonlinear_arith)
        requires
            0 <= magnitude <= UNIT,
            0 <= length,
    ;
    let product: u64 = length * magnitude;
    let share: u64 = product / UNIT;
    if component >= 0 {
        share as i64
    } else {
        -(share as i64)
    }
}

/// The seed that two raw words yield: each coordinate is the word's
/// remainder on its axis.
pub fn seed_point(domain: &Domain, raw_x: u64, raw_y: u64) -> (seed: Point)
    requires
        domain.valid(),
    ensures
        seed == seed_spec(*domain, raw_x, raw_y),
        in_domain(seed, domain.width as int, domain.height as int),
{
    let x: u64 = raw_x % (domain.width as u64);
    let y: u64 = raw_y % (domain.height as u64);
    Point { x: x as u32, y: y as u32 }
}

/// The candidate that a raw word yields around `from`: the word's low bits
/// pick the direction, the rest picks the distance, and the result is folded
/// back into the domain.
pub fn candidate(domain: &Domain, from: Point, raw: u64) -> (c: Point)
    requires
        domain.valid(),
    ensures
        c == candidate_spec(*domain, from, raw),
        in_domain(c, domain.width as int, domain.height as int),
{
    let angle: u64 = raw % TURN;
    let r: u64 = domain.min_distance as u64;
    let reach: u64 = r + (raw / TURN) % r;
    let dx: i64 = scaled(reach, cosine(angle));
    let dy: i64 = scaled(reach, sine(angle));
    let x: u32 = wrap(from.x as i64 + dx, domain.width);
    let y: u32 = wrap(from.y as i64 + dy, domain.height);
    Point { x, y }
}

} // verus!
