//! Cities and the distance metric.
//!
//! A coordinate is a fixed-point value: the real coordinate multiplied by
//! `SCALE` and rounded toward zero.  Distances are Euclidean, rounded down
//! to the nearest integer in the same fixed-point unit.

use vstd::prelude::*;

verus! {

/// Fixed-point scale: one coordinate unit is `1 / SCALE` of a real unit.
pub const SCALE: i64 = 10_000;

/// Largest coordinate magnitude a city may hold.
pub const COORD_LIMIT: i64 = 1_000_000_000;

/// Upper bound on the distance between any two in-range cities.
pub const DIST_MAX: u64 = 3_000_000_000;

/// A point on the plane, with a label used only for input round-tripping.
pub struct City {
    pub x: i64,
    pub y: i64,
    pub name: Vec<u8>,
}

/// A city whose coordinates are within the grid the metric is defined on.
pub open spec fn city_ok(c: City) -> bool {
    &&& -COORD_LIMIT <= c.x <= COORD_LIMIT
    &&& -COORD_LIMIT <= c.y <= COORD_LIMIT
}

/// Squared Euclidean distance between two cities.
pub open spec fn sq_dist(a: City, b: City) -> int {
    (a.x - b.x) * (a.x - b.x) + (a.y - b.y) * (a.y - b.y)
}

/// The integer square root: the greatest `r` with `r * r <= n`.
pub open spec fn isqrt_spec(n: int) -> int
    decreases n,
{
    if n <= 0 {
        0
    } else {
        let r = isqrt_spec(n - 1);
        if (r + 1) * (r + 1) <= n {
            r + 1
        } else {
            r
        }
    }
}

/// Distance between two cities: the Euclidean distance rounded down.
pub open spec fn dist_spec(a: City, b: City) -> int {
    isqrt_spec(sq_dist(a, b))
}

/// `isqrt_spec(n)` brackets `n` between consecutive squares.
pub proof fn lemma_isqrt_bounds(n: int)
    requires
        n >= 0,
    ensures
        isqrt_spec(n) >= 0,
        isqrt_spec(n) * isqrt_spec(n) <= n,
        n < (isqrt_spec(n) + 1) * (isqrt_spec(n) + 1),
    decreases n,
{
    if n == 0 {
    } else {
        lemma_isqrt_bounds(n - 1);
        let r = isqrt_spec(n - 1);
        if (r + 1) * (r + 1) <= n {
            assert(n < (r + 2) * (r + 2)) by (nonlinear_arith)
                requires
                    r >= 0,
                    n - 1 < (r + 1) * (r + 1),
                    (r + 1) * (r + 1) <= n,
            ;
        }
    }
}

/// Any `r` bracketed between consecutive squares around `n` is `isqrt_spec(n)`.
pub proof fn lemma_isqrt_unique(n: int, r: int)
    requires
        r >= 0,
        r * r <= n,
        n < (r + 1) * (r + 1),
    ensures
        r == isqrt_spec(n),
{
    lemma_isqrt_bounds(n);
    let s = isqrt_spec(n);
    assert(!(r < s) && !(s < r)) by (nonlinear_arith)
        requires
            r >= 0,
            s >= 0,
            r * r <= n,
            n < (r + 1) * (r + 1),
            s * s <= n,
            n < (s + 1) * (s + 1),
    ;
}

/// The distance metric is symmetric in its two arguments.
pub proof fn lemma_distance_symmetric(a: City, b: City)
    ensures
        dist_spec(a, b) == dist_spec(b, a),
{
    assert(sq_dist(a, b) == sq_dist(b, a)) by (nonlinear_arith);
}

/// Distances between in-range cities are nonnegative and at most `DIST_MAX`.
pub proof fn lemma_dist_in_range(a: City, b: City)
    requires
        city_ok(a),
        city_ok(b),
    ensures
        0 <= dist_spec(a, b) <= DIST_MAX,
{
    assert(0 <= sq_dist(a, b) <= 8_000_000_000_000_000_000) by (nonlinear_arith)
        requires
            -COORD_LIMIT <= a.x <= COORD_LIMIT,
            -COORD_LIMIT <= a.y <= COORD_LIMIT,
            -COORD_LIMIT <= b.x <= COORD_LIMIT,
            -COORD_LIMIT <= b.y <= COORD_LIMIT,
    ;
    lemma_isqrt_bounds(sq_dist(a, b));
    let r = isqrt_spec(sq_dist(a, b));
    assert(r <= DIST_MAX) by (nonlinear_arith)
        requires
            r >= 0,
            r * r <= 8_000_000_000_000_000_000,
    ;
}

/// Integer square root by binary search.
fn isqrt(n: u64) -> (r: u64)
    ensures
        r == isqrt_spec(n as int),
{
    let mut lo: u64 = 0;
    let mut hi: u64 = 4_294_967_296;
    proof {
        assert((4_294_967_296 as int) * (4_294_967_296 as int) > n as int) by (nonlinear_arith)
            requires
                n <= u64::MAX,
        ;
    }
    while hi - lo > 1
        invariant
            0 <= lo < hi <= 4_294_967_296,
            (lo as int) * (lo as int) <= n as int,
            (n as int) < (hi as int) * (hi as int),
        decreases hi - lo,
    {
        let mid: u64 = lo + (hi - lo) / 2;
        if mid <= n / mid {
            // mid * mid <= n, computed without overflow
            proof {
                assert((mid as int) * (mid as int) <= n as int) by (nonlinear_arith)
                    requires
                        mid >= 1,
                        mid as int <= (n as int) / (mid as int),
                ;
            }
            lo = mid;
        } else {
            proof {
                assert((n as int) < (mid as int) * (mid as int)) by (nonlinear_arith)
                    requires
                        mid >= 1,
                        mid as int > (n as int) / (mid as int),
                ;
            }
            hi = mid;
        }
    }
    proof {
        lemma_isqrt_unique(n as int, lo as int);
    }
    lo
}

/// Euclidean distance between two in-range cities, rounded down.
pub fn distance(a: &City, b: &City) -> (r: u64)
    requires
        city_ok(*a),
        city_ok(*b),
    ensures
        r as int == dist_spec(*a, *b),
        r <= DIST_MAX,
{
    let dx: i64 = a.x - b.x;
    let dy: i64 = a.y - b.y;
    proof {
        assert(0 <= dx * dx <= 4_000_000_000_000_000_000 && 0 <= dy * dy
            <= 4_000_000_000_000_000_000) by (nonlinear_arith)
            requires
                -2_000_000_000 <= dx <= 2_000_000_000,
                -2_000_000_000 <= dy <= 2_000_000_000,
        ;
    }
    let sq: u64 = ((dx * dx) as u64) + ((dy * dy) as u64);
    proof {
        lemma_dist_in_range(*a, *b);
    }
    isqrt(sq)
}

} // verus!
