//! Integer 2D vector math: bounded points, Euclidean distance rounded down,
//! truncating division, and saturating arithmetic for cost accounting.

use vstd::prelude::*;

verus! {

/// Largest coordinate magnitude allowed for a node position.
pub const MAX_NODE_COORD: i64 = 1_000_000;

/// Largest coordinate magnitude allowed for a sampled road point. Curve
/// sampling may push points past the node box by the curviness bound.
pub const MAX_POINT_COORD: i64 = 2_000_000;

/// Largest coordinate magnitude a car position can take: a spawn offset can
/// move a car a few units past a road point, never more than this margin.
pub const MAX_CAR_COORD: i64 = 2_000_016;

/// A 2D point or direction with integer coordinates.
#[derive(Clone, Copy, PartialEq, Eq, Structural, Debug)]
pub struct Vec2 {
    pub x: i64,
    pub y: i64,
}

impl Vec2 {
    /// Both coordinates lie within `[-limit, limit]`.
    pub open spec fn in_range(self, limit: i64) -> bool {
        -limit <= self.x <= limit && -limit <= self.y <= limit
    }

    pub fn new(x: i64, y: i64) -> (v: Vec2)
        ensures
            v.x == x,
            v.y == y,
    {
        Vec2 { x, y }
    }
}

/// The difference of two points, as a direction vector.
pub open spec fn vec_sub(a: Vec2, b: Vec2) -> Vec2 {
    Vec2 { x: (a.x - b.x) as i64, y: (a.y - b.y) as i64 }
}

/// Squared Euclidean distance between two points, as an unbounded integer.
pub open spec fn dist_sq(a: Vec2, b: Vec2) -> int {
    (a.x - b.x) * (a.x - b.x) + (a.y - b.y) * (a.y - b.y)
}

/// The integer square root: the largest `r` with `r * r <= n`.
pub open spec fn sqrt_floor(n: nat) -> nat
    decreases n,
{
    if n == 0 {
        0
    } else {
        let r = sqrt_floor((n - 1) as nat);
        if (r + 1) * (r + 1) <= n {
            r + 1
        } else {
            r
        }
    }
}

/// Euclidean distance between two points, rounded down to an integer.
pub open spec fn dist(a: Vec2, b: Vec2) -> nat {
    sqrt_floor(dist_sq(a, b) as nat)
}

pub proof fn lemma_sqrt_floor_bounds(n: nat)
    ensures
        sqrt_floor(n) * sqrt_floor(n) <= n,
        n < (sqrt_floor(n) + 1) * (sqrt_floor(n) + 1),
    decreases n,
{
    let s = sqrt_floor(n);
    if n > 0 {
        lemma_sqrt_floor_bounds((n - 1) as nat);
        let r = sqrt_floor((n - 1) as nat);
        if (r + 1) * (r + 1) <= n {
            assert(s == r + 1);
            assert(s * s <= n && n < (s + 1) * (s + 1)) by (nonlinear_arith)
                requires
                    s == r + 1,
                    (r + 1) * (r + 1) <= n,
                    n <= (n - 1) + 1,
                    ((n - 1) as nat) < (r + 1) * (r + 1),
            ;
        } else {
            assert(s == r);
            assert(s * s <= n && n < (s + 1) * (s + 1)) by (nonlinear_arith)
                requires
                    s == r,
                    r * r <= (n - 1) as nat,
                    ((n - 1) as nat) < n,
                    !((r + 1) * (r + 1) <= n),
            ;
        }
    } else {
        assert(s == 0);
        assert(s * s <= n && n < (s + 1) * (s + 1)) by (nonlinear_arith)
            requires
                s == 0,
                n == 0,
        ;
    }
}

pub proof fn lemma_sqrt_floor_unique(n: nat, r: nat)
    requires
        r * r <= n,
        n < (r + 1) * (r + 1),
    ensures
        r == sqrt_floor(n),
{
    lemma_sqrt_floor_bounds(n);
    let s = sqrt_floor(n);
    assert(r == s) by (nonlinear_arith)
        requires
            r * r <= n,
            n < (r + 1) * (r + 1),
            s * s <= n,
            n < (s + 1) * (s + 1),
    ;
}

/// The integer square root of `n`, by binary search.
pub fn isqrt(n: u64) -> (r: u64)
    ensures
        r == sqrt_floor(n as nat),
        r * r <= n,
        n < (r + 1) * (r + 1),
{
    let mut lo: u64 = 0;
    let mut hi: u64 = 0x1_0000_0000;
    while hi - lo > 1
        invariant
            lo < hi <= 0x1_0000_0000,
            lo * lo <= n,
            n < hi * hi,
        decreases hi - lo,
    {
        let mid: u64 = lo + (hi - lo) / 2;
        assert(mid * mid <= 0xffff_ffff_0000_0001u64) by (nonlinear_arith)
            requires
                mid <= 0xffff_ffffu64,
        ;
        if mid * mid <= n {
            lo = mid;
        } else {
            hi = mid;
        }
    }
    proof {
        lemma_sqrt_floor_unique(n as nat, lo as nat);
    }
    lo
}

/// Distance between two in-range points; the result never exceeds 6,000,000.
pub fn distance(a: Vec2, b: Vec2) -> (d: u64)
    requires
        a.in_range(MAX_CAR_COORD),
        b.in_range(MAX_CAR_COORD),
    ensures
        d == dist(a, b),
        d <= 6_000_000,
{
    let dx: i64 = a.x - b.x;
    let dy: i64 = a.y - b.y;
    assert(dx * dx + dy * dy <= 32_000_512_002_048i64 && dx * dx >= 0 && dy * dy >= 0)
        by (nonlinear_arith)
        requires
            -4_000_032 <= dx <= 4_000_032,
            -4_000_032 <= dy <= 4_000_032,
    ;
    let sq: u64 = (dx * dx + dy * dy) as u64;
    let r = isqrt(sq);
    assert(r <= 6_000_000) by (nonlinear_arith)
        requires
            r * r <= 32_000_512_002_048u64,
    ;
    r
}

/// Each coordinate difference is bounded by the rounded-down distance.
pub proof fn lemma_component_le_dist(a: Vec2, b: Vec2)
    ensures
        a.x - b.x <= dist(a, b),
        b.x - a.x <= dist(a, b),
        a.y - b.y <= dist(a, b),
        b.y - a.y <= dist(a, b),
{
    lemma_sqrt_floor_bounds(dist_sq(a, b) as nat);
    let d = dist(a, b);
    assert(a.x - b.x <= d && b.x - a.x <= d && a.y - b.y <= d && b.y - a.y <= d)
        by (nonlinear_arith)
        requires
            dist_sq(a, b) < (d + 1) * (d + 1),
            dist_sq(a, b) == (a.x - b.x) * (a.x - b.x) + (a.y - b.y) * (a.y - b.y),
            d >= 0,
    ;
}

/// Division with truncation toward zero, the rounding of machine division.
pub open spec fn tdiv(a: int, b: int) -> int
    recommends
        b >= 1,
{
    if a >= 0 {
        a / b
    } else {
        -((-a) / b)
    }
}

/// A quotient is no larger than any bound the dividend's magnitude gives.
pub proof fn lemma_tdiv_bound(a: int, b: int, c: int)
    requires
        b >= 1,
        c >= 0,
        -c * b <= a <= c * b,
    ensures
        -c <= tdiv(a, b) <= c,
{
    assert((-c) * b == -(c * b)) by (nonlinear_arith);
    if a >= 0 {
        assert(0 <= a / b <= c) by (nonlinear_arith)
            requires
                b >= 1,
                c >= 0,
                0 <= a <= c * b,
        ;
    } else {
        assert(0 <= (-a) / b <= c) by (nonlinear_arith)
            requires
                b >= 1,
                c >= 0,
                0 <= -a <= c * b,
        ;
    }
}

/// Dividing an exact multiple recovers the factor, whatever its sign.
pub proof fn lemma_tdiv_exact(k: int, b: int)
    requires
        b >= 1,
    ensures
        tdiv(k * b, b) == k,
{
    if k >= 0 {
        assert((k * b) / b == k) by (nonlinear_arith)
            requires
                b >= 1,
                k >= 0,
        ;
    } else {
        assert((-(k * b)) == (-k) * b) by (nonlinear_arith);
        assert(((-k) * b) / b == -k) by (nonlinear_arith)
            requires
                b >= 1,
                k < 0,
        ;
    }
}

/// Truncating division of a signed value by a positive divisor. The result
/// keeps the sign of `a` and its magnitude never grows.
pub fn div_trunc(a: i64, b: u64) -> (r: i64)
    requires
        b >= 1,
        a > i64::MIN,
    ensures
        r == tdiv(a as int, b as int),
        a >= 0 ==> 0 <= r <= a,
        a < 0 ==> a <= r <= 0,
{
    if a >= 0 {
        let q: u64 = (a as u64) / b;
        assert(q <= a) by (nonlinear_arith)
            requires
                q == (a as u64) / b,
                b >= 1,
                a >= 0,
        ;
        q as i64
    } else {
        let m: u64 = (-a) as u64;
        let q: u64 = m / b;
        assert(q <= m) by (nonlinear_arith)
            requires
                q == m / b,
                b >= 1,
        ;
        -(q as i64)
    }
}

/// Addition on `u64` that sticks at the maximum instead of overflowing.
pub open spec fn sat_add64(a: u64, b: u64) -> u64 {
    if a + b > u64::MAX {
        u64::MAX
    } else {
        (a + b) as u64
    }
}

pub fn saturating_add64(a: u64, b: u64) -> (r: u64)
    ensures
        r == sat_add64(a, b),
        r >= a,
        r >= b,
{
    if a > u64::MAX - b {
        u64::MAX
    } else {
        a + b
    }
}

/// Multiplication on `u64` that sticks at the maximum instead of overflowing.
pub open spec fn sat_mul64(a: u64, b: u64) -> u64 {
    if a * b > u64::MAX {
        u64::MAX
    } else {
        (a * b) as u64
    }
}

pub fn saturating_mul64(a: u64, b: u64) -> (r: u64)
    ensures
        r == sat_mul64(a, b),
{
    if b == 0 {
        0
    } else if a > u64::MAX / b {
        proof {
            assert(a * b > u64::MAX) by (nonlinear_arith)
                requires
                    a > u64::MAX as int / b as int,
                    b >= 1,
            ;
        }
        u64::MAX
    } else {
        proof {
            assert(a * b <= u64::MAX) by (nonlinear_arith)
                requires
                    a <= u64::MAX as int / b as int,
                    b >= 1,
            ;
        }
        a * b
    }
}

} // verus!
