//! Periodic geometry on a `width` x `height` lattice whose opposite edges are
//! identified.
use vstd::prelude::*;
use vstd::arithmetic::div_mod::{lemma_fundamental_div_mod, lemma_fundamental_div_mod_converse};

verus! {

/// A lattice point. Points handed out by the sampler lie inside the domain.
#[derive(Clone, Copy, Debug, PartialEq, Eq, Structural)]
pub struct Point {
    pub x: u32,
    pub y: u32,
}

/// `p` lies inside the half-open rectangle `[0, width) x [0, height)`.
pub open spec fn in_domain(p: Point, width: int, height: int) -> bool {
    p.x < width && p.y < height
}

/// The representative of `coord` in `[0, extent)` on an axis of period `extent`.
pub open spec fn wrap_spec(coord: int, extent: int) -> int {
    coord % extent
}

/// Signed shortest displacement from `a` to `b` on an axis of period `extent`.
///
/// Among `b - a`, `b - a - extent` and `b - a + extent` it is the one of
/// smallest magnitude; when two of them tie, the plain difference wins.
pub open spec fn toroidal_delta_spec(a: int, b: int, extent: int) -> int {
    let d = b - a;
    if 2 * d > extent {
        d - extent
    } else if 2 * d < -extent {
        d + extent
    } else {
        d
    }
}

/// Square of the distance between `p` and `q` on the torus.
pub open spec fn toroidal_distance_squared_spec(p: Point, q: Point, width: int, height: int) -> int {
    let dx = toroidal_delta_spec(p.x as int, q.x as int, width);
    let dy = toroidal_delta_spec(p.y as int, q.y as int, height);
    dx * dx + dy * dy
}

/// `root` is the integer part of the square root of `n`.
pub open spec fn is_floor_sqrt(n: int, root: int) -> bool {
    0 <= root && root * root <= n < (root + 1) * (root + 1)
}

/// `p` and `q` are at least `min_distance` apart on the torus.
pub open spec fn far_apart(p: Point, q: Point, width: int, height: int, min_distance: int) -> bool {
    toroidal_distance_squared_spec(p, q, width, height) >= min_distance * min_distance
}

/// The remainder of a negative number, read off the remainder of its mirror image.
pub proof fn lemma_wrap_negative(n: int, extent: int)
    requires
        n >= 0,
        extent > 0,
    ensures
        wrap_spec(-n - 1, extent) == extent - 1 - n % extent,
{
    lemma_fundamental_div_mod(n, extent);
    let q = -(n / extent) - 1;
    let r = extent - 1 - n % extent;
    assert(q * extent + r == -n - 1) by (nonlinear_arith)
        requires
            q == -(n / extent) - 1,
            r == extent - 1 - n % extent,
            n == extent * (n / extent) + n % extent,
    ;
    lemma_fundamental_div_mod_converse(-n - 1, extent, q, r);
}

/// Wrapping changes a coordinate by a whole number of periods.
pub proof fn lemma_wrap_is_congruent(coord: int, extent: int)
    requires
        extent > 0,
    ensures
        0 <= wrap_spec(coord, extent) < extent,
        coord - wrap_spec(coord, extent) == extent * (coord / extent),
        0 <= coord < extent ==> wrap_spec(coord, extent) == coord,
{
    lemma_fundamental_div_mod(coord, extent);
    if 0 <= coord < extent {
        lemma_fundamental_div_mod_converse(coord, extent, 0, coord);
    }
}

/// No other displacement that leads from `a` to `b` is shorter.
pub proof fn lemma_delta_is_minimal(a: int, b: int, extent: int, turns: int)
    requires
        extent > 0,
        0 <= a < extent,
        0 <= b < extent,
    ensures
        ({
            let d = toroidal_delta_spec(a, b, extent);
            let other = b - a + turns * extent;
            d * d <= other * other
        }),
{
    let d = toroidal_delta_spec(a, b, extent);
    let other = b - a + turns * extent;
    // both are congruent to b - a, so they differ by a multiple of the period
    let k = if d == b - a { turns } else if d == b - a - extent { turns + 1 } else { turns - 1 };
    assert(other == d + k * extent) by (nonlinear_arith)
        requires
            other == b - a + turns * extent,
            (d == b - a && k == turns) || (d == b - a - extent && k == turns + 1) || (d == b - a
                + extent && k == turns - 1),
    ;
    assert(d * d <= other * other) by (nonlinear_arith)
        requires
            other == d + k * extent,
            extent > 0,
            -extent <= 2 * d <= extent,
    {
        if k == 0 {
        } else if k > 0 {
            assert(k * extent >= extent);
            assert(other >= d + extent);
            assert(other >= -d && other >= d);
        } else {
            assert(k * extent <= -extent);
            assert(other <= d - extent);
            assert(-other >= -d && -other >= d);
        }
    }
}

/// Swapping the endpoints reverses the displacement.
pub proof fn lemma_delta_reverses(a: int, b: int, extent: int)
    requires
        extent > 0,
    ensures
        toroidal_delta_spec(b, a, extent) == -toroidal_delta_spec(a, b, extent),
{
}

/// Distance on the torus does not depend on the order of the endpoints.
pub proof fn lemma_distance_symmetric(p: Point, q: Point, width: int, height: int)
    requires
        width > 0,
        height > 0,
    ensures
        toroidal_distance_squared_spec(p, q, width, height) == toroidal_distance_squared_spec(
            q,
            p,
            width,
            height,
        ),
{
    let dx = toroidal_delta_spec(p.x as int, q.x as int, width);
    let dy = toroidal_delta_spec(p.y as int, q.y as int, height);
    lemma_delta_reverses(p.x as int, q.x as int, width);
    lemma_delta_reverses(p.y as int, q.y as int, height);
    assert((-dx) * (-dx) == dx * dx) by (nonlinear_arith);
    assert((-dy) * (-dy) == dy * dy) by (nonlinear_arith);
}

/// Folds any coordinate into `[0, extent)`, negative ones included.
pub fn wrap(coord: i64, extent: u32) -> (folded: u32)
    requires
        extent > 0,
    ensures
        folded == wrap_spec(coord as int, extent as int),
        folded < extent,
{
    proof {
        lemma_wrap_is_congruent(coord as int, extent as int);
    }
    if coord >= 0 {
        let m: u64 = (coord as u64) % (extent as u64);
        m as u32
    } else {
        let mirrored: u64 = (-(coord + 1)) as u64;
        let m: u64 = mirrored % (extent as u64);
        proof {
            lemma_wrap_negative(mirrored as int, extent as int);
        }
        extent - 1 - (m as u32)
    }
}

/// Signed shortest displacement from `a` to `b` on an axis of period `extent`.
pub fn toroidal_delta(a: u32, b: u32, extent: u32) -> (delta: i64)
    requires
        extent > 0,
        a < extent,
        b < extent,
    ensures
        delta == toroidal_delta_spec(a as int, b as int, extent as int),
        -(extent as int) <= 2 * delta <= extent as int,
{
    let d: i64 = b as i64 - a as i64;
    let e: i64 = extent as i64;
    if 2 * d > e {
        d - e
    } else if 2 * d < -e {
        d + e
    } else {
        d
    }
}

/// Square of the distance between two points of the domain, across the seams
/// where that is shorter.
pub fn toroidal_distance_squared(p: Point, q: Point, width: u32, height: u32) -> (squared: u64)
    requires
        width > 0,
        height > 0,
        in_domain(p, width as int, height as int),
        in_domain(q, width as int, height as int),
    ensures
        squared == toroidal_distance_squared_spec(p, q, width as int, height as int),
{
    let dx: i64 = toroidal_delta(p.x, q.x, width);
    let dy: i64 = toroidal_delta(p.y, q.y, height);
    assert(0 <= dx * dx <= 0x4000_0000_0000_0000) by (nonlinear_arith)
        requires
            -0x8000_0000 <= dx <= 0x8000_0000,
    ;
    assert(0 <= dy * dy <= 0x4000_0000_0000_0000) by (nonlinear_arith)
        requires
            -0x8000_0000 <= dy <= 0x8000_0000,
    ;
    let sx: u64 = (dx * dx) as u64;
    let sy: u64 = (dy * dy) as u64;
    sx + sy
}

/// Integer part of the square root.
pub fn isqrt(n: u64) -> (root: u64)
    ensures
        is_floor_sqrt(n as int, root as int),
        root < 0x1_0000_0000,
{
    let mut lo: u64 = 0;
    let mut hi: u64 = 0x1_0000_0000;
    assert(0x1_0000_0000int * 0x1_0000_0000int > n) by (nonlinear_arith)
        requires
            n <= 0xffff_ffff_ffff_ffff,
    ;
    while hi - lo > 1
        invariant
            lo < hi <= 0x1_0000_0000,
            lo * lo <= n < hi * hi,
        decreases hi - lo,
    {
        let mid: u64 = lo + (hi - lo) / 2;
        assert(mid * mid <= 0xffff_ffff * 0xffff_ffff) by (nonlinear_arith)
            requires
                0 <= mid <= 0xffff_ffff,
        ;
        if mid * mid <= n {
            lo = mid;
        } else {
            hi = mid;
        }
    }
    lo
}

/// Distance between two points of the domain on the torus, rounded down to a
/// whole number of lattice units.
pub fn toroidal_distance(p: Point, q: Point, width: u32, height: u32) -> (distance: u64)
    requires
        width > 0,
        height > 0,
        in_domain(p, width as int, height as int),
        in_domain(q, width as int, height as int),
    ensures
        is_floor_sqrt(
            toroidal_distance_squared_spec(p, q, width as int, height as int),
            distance as int,
        ),
{
    isqrt(toroidal_distance_squared(p, q, width, height))
}

} // verus!
