//! Pure geometric primitives shared by the whole pipeline.
//!
//! Coordinates are `i64` milliunits: 1000 milliunits = one canvas unit.
//! Squared distances and products are computed in `i128`, which cannot
//! overflow as long as every coordinate stays within `COORD_LIMIT`.
//! Point-to-segment distances are kept as exact rationals (numerator
//! over a common denominator), so every threshold comparison in the
//! pipeline is exact integer arithmetic; square roots appear only where
//! a length itself is needed, through a floor square root with an exact
//! specification.

use vstd::prelude::*;

verus! {

/// Milliunits per canvas unit.
pub const MILLI: i64 = 1000;

/// Largest coordinate magnitude (in milliunits) the geometry accepts.
pub const COORD_LIMIT: i64 = 10_000_000;

/// Largest number of points a single stroke may carry.
pub const MAX_POINTS: usize = 100_000;

/// Largest number of elements (shapes, text regions, diagram nodes) a
/// single batch may carry: a machine limit that keeps every count,
/// sum and scaled confidence comfortably inside the `i64`/`i128`
/// arithmetic of the pipeline.
pub const MAX_ELEMS: usize = 100_000;

/// A single sample of a stroke: position in milliunits, optional pen
/// pressure in milliunits of full pressure, and a timestamp.
#[derive(Clone, Copy, Debug)]
pub struct Point {
    pub x: i64,
    pub y: i64,
    pub pressure: Option<i64>,
    pub timestamp: u64,
}

/// A coordinate that all geometric routines accept.
pub open spec fn coord_ok(v: i64) -> bool {
    -COORD_LIMIT <= v && v <= COORD_LIMIT
}

/// A point whose coordinates are in range.
pub open spec fn point_ok(p: Point) -> bool {
    coord_ok(p.x) && coord_ok(p.y)
}

/// Every point of the sequence is in range.
pub open spec fn points_ok(s: Seq<Point>) -> bool {
    forall|i: int| 0 <= i < s.len() ==> point_ok(#[trigger] s[i])
}

/// The square of a value bounded by `m` is bounded by `m * m`.
pub proof fn lemma_sq_bound(a: int, m: int)
    requires
        -m <= a <= m,
    ensures
        0 <= a * a <= m * m,
{
    assert(0 <= a * a <= m * m) by (nonlinear_arith)
        requires
            -m <= a <= m,
    ;
}

/// The product of values bounded by `m` and `k` is bounded by `m * k`.
pub proof fn lemma_mul_bound(a: int, b: int, m: int, k: int)
    requires
        -m <= a <= m,
        -k <= b <= k,
        0 <= m,
        0 <= k,
    ensures
        -(m * k) <= a * b <= m * k,
{
    assert(-(m * k) <= a * b <= m * k) by (nonlinear_arith)
        requires
            -m <= a <= m,
            -k <= b <= k,
            0 <= m,
            0 <= k,
    ;
}

/// Squared Euclidean distance between two points.
pub open spec fn dist_sq(p: Point, q: Point) -> int {
    (p.x - q.x) * (p.x - q.x) + (p.y - q.y) * (p.y - q.y)
}

/// Squared distance, computed exactly in `i128`.
pub fn dist_sq_i128(p: &Point, q: &Point) -> (r: i128)
    requires
        point_ok(*p),
        point_ok(*q),
    ensures
        r == dist_sq(*p, *q),
        0 <= r <= 800_000_000_000_000,
{
    let dx: i128 = p.x as i128 - q.x as i128;
    let dy: i128 = p.y as i128 - q.y as i128;
    proof {
        lemma_sq_bound(dx as int, 20_000_000);
        lemma_sq_bound(dy as int, 20_000_000);
    }
    dx * dx + dy * dy
}

/// Floor of the square root, as a recursive mathematical definition.
pub open spec fn sqrt_floor(n: int) -> int
    decreases n,
{
    if n <= 0 {
        0
    } else {
        let r = 2 * sqrt_floor(n / 4);
        if (r + 1) * (r + 1) <= n {
            r + 1
        } else {
            r
        }
    }
}

/// `sqrt_floor(n)` really is the floor of the square root of `n`.
pub proof fn lemma_sqrt_floor(n: int)
    requires
        0 <= n,
    ensures
        0 <= sqrt_floor(n),
        sqrt_floor(n) * sqrt_floor(n) <= n,
        n < (sqrt_floor(n) + 1) * (sqrt_floor(n) + 1),
    decreases n,
{
    if n <= 0 {
        assert(sqrt_floor(n) == 0);
        assert(n < (0 + 1) * (0 + 1));
    } else {
        let q = n / 4;
        lemma_sqrt_floor(q);
        let s = sqrt_floor(q);
        let r = 2 * s;
        assert(4 * q <= n < 4 * q + 4) by (nonlinear_arith)
            requires
                q == n / 4,
                n > 0,
        ;
        assert(r * r <= 4 * q) by (nonlinear_arith)
            requires
                r == 2 * s,
                s * s <= q,
        ;
        assert(4 * q + 4 <= (r + 2) * (r + 2)) by (nonlinear_arith)
            requires
                r == 2 * s,
                q < (s + 1) * (s + 1),
        ;
        if (r + 1) * (r + 1) <= n {
            assert(sqrt_floor(n) == r + 1);
            assert(n < (r + 2) * (r + 2));
            assert(sqrt_floor(n) * sqrt_floor(n) <= n);
            assert((sqrt_floor(n) + 1) * (sqrt_floor(n) + 1) == (r + 2) * (r + 2))
                by (nonlinear_arith)
                requires
                    sqrt_floor(n) == r + 1,
            ;
        } else {
            assert(sqrt_floor(n) == r);
            assert(r * r <= 4 * q <= n);
            assert(sqrt_floor(n) * sqrt_floor(n) <= n);
            assert(n < (sqrt_floor(n) + 1) * (sqrt_floor(n) + 1));
        }
    }
}

/// Two integers that both satisfy the floor-square-root property of `n`
/// are equal.
pub proof fn lemma_sqrt_floor_unique(n: int, a: int, b: int)
    requires
        0 <= a,
        0 <= b,
        a * a <= n < (a + 1) * (a + 1),
        b * b <= n < (b + 1) * (b + 1),
    ensures
        a == b,
{
    assert(a == b) by (nonlinear_arith)
        requires
            0 <= a,
            0 <= b,
            a * a <= n < (a + 1) * (a + 1),
            b * b <= n < (b + 1) * (b + 1),
    ;
}

/// Floor square root of a `u128`, by binary search.
pub fn isqrt_u128(n: u128) -> (r: u128)
    ensures
        r == sqrt_floor(n as int),
        r * r <= n,
{
    proof {
        lemma_sqrt_floor(n as int);
    }
    let mut lo: u128 = 0;
    let mut hi: u128 = 0x1_0000_0000_0000_0000;
    if n < hi {
        hi = n + 1;
    }
    proof {
        if n >= 0x1_0000_0000_0000_0000 {
            assert((0x1_0000_0000_0000_0000 as int) * (0x1_0000_0000_0000_0000 as int) > n as int)
                by (nonlinear_arith)
                requires
                    n <= u128::MAX,
            ;
        } else {
            assert((n as int + 1) * (n as int + 1) > n as int) by (nonlinear_arith);
        }
    }
    while hi - lo > 1
        invariant
            0 <= lo < hi,
            hi <= 0x1_0000_0000_0000_0000,
            (lo as int) * (lo as int) <= n as int,
            (n as int) < (hi as int) * (hi as int),
        decreases hi - lo,
    {
        let mid: u128 = lo + (hi - lo) / 2;
        assert(lo < mid < hi);
        proof {
            lemma_sq_bound(mid as int, 0xFFFF_FFFF_FFFF_FFFF);
        }
        if mid * mid <= n {
            lo = mid;
        } else {
            hi = mid;
        }
    }
    proof {
        lemma_sqrt_floor_unique(n as int, lo as int, sqrt_floor(n as int));
    }
    lo
}

/// Length of the segment from `p` to `q`, in milliunits, rounded down.
pub fn seg_len(p: &Point, q: &Point) -> (r: i64)
    requires
        point_ok(*p),
        point_ok(*q),
    ensures
        r == sqrt_floor(dist_sq(*p, *q)),
        0 <= r <= 30_000_000,
{
    let d = dist_sq_i128(p, q);
    let s = isqrt_u128(d as u128);
    proof {
        lemma_sqrt_floor(d as int);
        assert(sqrt_floor(d as int) <= 30_000_000) by {
            if sqrt_floor(d as int) > 30_000_000 {
                lemma_sq_bound(30_000_001, sqrt_floor(d as int));
                assert((30_000_001 as int) * (30_000_001 as int) > 800_000_000_000_000);
                assert(sqrt_floor(d as int) * sqrt_floor(d as int) > 800_000_000_000_000)
                    by (nonlinear_arith)
                    requires
                        sqrt_floor(d as int) >= 30_000_001,
                ;
            }
        };
    }
    s as i64
}

// ---------------------------------------------------------------------
// Point-to-segment distance as an exact rational
// ---------------------------------------------------------------------

/// Squared length of the segment `a`-`b`.
pub open spec fn seg_len_sq(a: Point, b: Point) -> int {
    dist_sq(a, b)
}

/// Dot product of `p - a` with `b - a`.
pub open spec fn seg_dot(p: Point, a: Point, b: Point) -> int {
    (p.x - a.x) * (b.x - a.x) + (p.y - a.y) * (b.y - a.y)
}

/// Cross product of `b - a` with `p - a`.
pub open spec fn seg_cross(p: Point, a: Point, b: Point) -> int {
    (b.x - a.x) * (p.y - a.y) - (b.y - a.y) * (p.x - a.x)
}

/// Common denominator of the squared point-to-segment distance for a
/// fixed segment `a`-`b`: 1 when the segment is degenerate.
pub open spec fn seg_dist_sq_den(a: Point, b: Point) -> int {
    if seg_len_sq(a, b) == 0 {
        1
    } else {
        seg_len_sq(a, b)
    }
}

/// Numerator of the squared distance from `p` to the segment `a`-`b`
/// over the denominator `seg_dist_sq_den(a, b)`, as the triangle-edge
/// test measures it. The projection parameter is clamped to the
/// segment: beyond either end the nearest point is that endpoint,
/// otherwise the foot of the perpendicular. (The simplifier measures
/// against the infinite line instead: see `line_dist_sq_num`.)
pub open spec fn seg_dist_sq_num(p: Point, a: Point, b: Point) -> int {
    let len = seg_len_sq(a, b);
    let dot = seg_dot(p, a, b);
    if len == 0 {
        dist_sq(p, a)
    } else if dot <= 0 {
        dist_sq(p, a) * len
    } else if dot >= len {
        dist_sq(p, b) * len
    } else {
        seg_cross(p, a, b) * seg_cross(p, a, b)
    }
}

/// Exact rational squared distance from `p` to segment `a`-`b`:
/// returns `(num, den)` with the squared distance equal to `num / den`.
pub fn seg_dist_sq_rat(p: &Point, a: &Point, b: &Point) -> (r: (i128, i128))
    requires
        point_ok(*p),
        point_ok(*a),
        point_ok(*b),
    ensures
        r.0 == seg_dist_sq_num(*p, *a, *b),
        r.1 == seg_dist_sq_den(*a, *b),
        0 <= r.0,
        1 <= r.1 <= 800_000_000_000_000,
{
    let len = dist_sq_i128(a, b);
    if len == 0 {
        (dist_sq_i128(p, a), 1)
    } else {
        let px: i128 = p.x as i128 - a.x as i128;
        let py: i128 = p.y as i128 - a.y as i128;
        let vx: i128 = b.x as i128 - a.x as i128;
        let vy: i128 = b.y as i128 - a.y as i128;
        proof {
            lemma_mul_bound(px as int, vx as int, 20_000_000, 20_000_000);
            lemma_mul_bound(py as int, vy as int, 20_000_000, 20_000_000);
            lemma_mul_bound(vx as int, py as int, 20_000_000, 20_000_000);
            lemma_mul_bound(vy as int, px as int, 20_000_000, 20_000_000);
        }
        let dot: i128 = px * vx + py * vy;
        if dot <= 0 {
            let d = dist_sq_i128(p, a);
            proof {
                lemma_mul_bound(d as int, len as int, 800_000_000_000_000, 800_000_000_000_000);
                assert(0 <= d * len) by (nonlinear_arith)
                    requires
                        0 <= d,
                        0 <= len,
                ;
            }
            (d * len, len)
        } else if dot >= len {
            let d = dist_sq_i128(p, b);
            proof {
                lemma_mul_bound(d as int, len as int, 800_000_000_000_000, 800_000_000_000_000);
                assert(0 <= d * len) by (nonlinear_arith)
                    requires
                        0 <= d,
                        0 <= len,
                ;
            }
            (d * len, len)
        } else {
            let cross: i128 = vx * py - vy * px;
            proof {
                lemma_sq_bound(cross as int, 1_600_000_000_000_000);
            }
            (cross * cross, len)
        }
    }
}

/// Numerator of the squared perpendicular distance from `p` to the
/// infinite line through `a` and `b`, over the denominator
/// `seg_dist_sq_den(a, b)`; falls back to the plain point-to-point
/// distance when the two line points coincide.
pub open spec fn line_dist_sq_num(p: Point, a: Point, b: Point) -> int {
    if seg_len_sq(a, b) == 0 {
        dist_sq(p, a)
    } else {
        seg_cross(p, a, b) * seg_cross(p, a, b)
    }
}

/// Exact rational squared distance from `p` to the infinite line
/// through `a` and `b`: returns `(num, den)` with the squared distance
/// equal to `num / den`.
pub fn line_dist_sq_rat(p: &Point, a: &Point, b: &Point) -> (r: (i128, i128))
    requires
        point_ok(*p),
        point_ok(*a),
        point_ok(*b),
    ensures
        r.0 == line_dist_sq_num(*p, *a, *b),
        r.1 == seg_dist_sq_den(*a, *b),
        0 <= r.0,
        1 <= r.1 <= 800_000_000_000_000,
{
    let len = dist_sq_i128(a, b);
    if len == 0 {
        (dist_sq_i128(p, a), 1)
    } else {
        let px: i128 = p.x as i128 - a.x as i128;
        let py: i128 = p.y as i128 - a.y as i128;
        let vx: i128 = b.x as i128 - a.x as i128;
        let vy: i128 = b.y as i128 - a.y as i128;
        proof {
            lemma_mul_bound(vx as int, py as int, 20_000_000, 20_000_000);
            lemma_mul_bound(vy as int, px as int, 20_000_000, 20_000_000);
        }
        let cross: i128 = vx * py - vy * px;
        proof {
            lemma_sq_bound(cross as int, 800_000_000_000_000);
        }
        (cross * cross, len)
    }
}

// ---------------------------------------------------------------------
// Fixed-point atan2 in centidegrees
// ---------------------------------------------------------------------

/// Polynomial approximation of `atan` on [0, 1]: the argument is in
/// thousandths, the result in centidegrees (0 to 4500).
pub open spec fn atan_cd_of_milli(q: int) -> int {
    (4_500_000 * q + 1564 * q * (1000 - q)) / 1_000_000
}

/// Heading of the vector `(dx, dy)` in centidegrees, mirroring the
/// executable octant reduction exactly. The result lies in
/// [-18000, 18000]; the zero vector maps to 0.
pub open spec fn atan2_cd(dy: int, dx: int) -> int {
    if dx == 0 && dy == 0 {
        0
    } else {
        let ax = if dx < 0 { -dx } else { dx };
        let ay = if dy < 0 { -dy } else { dy };
        let mag = if ay <= ax {
            atan_cd_of_milli(ay * 1000 / ax)
        } else {
            9000 - atan_cd_of_milli(ax * 1000 / ay)
        };
        if dx >= 0 && dy >= 0 {
            mag
        } else if dx < 0 && dy >= 0 {
            18000 - mag
        } else if dx < 0 {
            -(18000 - mag)
        } else {
            -mag
        }
    }
}

/// `atan` approximation on thousandths; result in centidegrees.
fn atan_cd_milli(q: i64) -> (r: i64)
    requires
        0 <= q <= 1000,
    ensures
        r == atan_cd_of_milli(q as int),
        0 <= r <= 4500,
{
    proof {
        assert(0 <= 1564 * q * (1000 - q) <= 391_000_000) by (nonlinear_arith)
            requires
                0 <= q <= 1000,
        ;
        assert(0 <= 4_500_000 * q <= 4_500_000_000) by (nonlinear_arith)
            requires
                0 <= q <= 1000,
        ;
    }
    let num: i64 = 4_500_000 * q + 1564 * q * (1000 - q);
    proof {
        assert(num <= 4_500_000_000) by (nonlinear_arith)
            requires
                num == 4_500_000 * (q as int) + 1564 * (q as int) * (1000 - q as int),
                0 <= q <= 1000,
        ;
    }
    let r = num / 1_000_000;
    proof {
        assert(r == atan_cd_of_milli(q as int));
        assert(0 <= r <= 4500) by (nonlinear_arith)
            requires
                r == num as int / 1_000_000,
                0 <= num <= 4_500_000_000,
        ;
    }
    r
}

/// Heading of `(dx, dy)` in centidegrees, in [-18000, 18000].
pub fn heading_cd(dy: i64, dx: i64) -> (r: i64)
    requires
        -40_000_000 <= dy <= 40_000_000,
        -40_000_000 <= dx <= 40_000_000,
    ensures
        r == atan2_cd(dy as int, dx as int),
        -18000 <= r <= 18000,
{
    if dx == 0 && dy == 0 {
        return 0;
    }
    let ax: i64 = if dx < 0 {
        -dx
    } else {
        dx
    };
    let ay: i64 = if dy < 0 {
        -dy
    } else {
        dy
    };
    let mag: i64 = if ay <= ax {
        proof {
            assert(0 <= (ay as int) * 1000 / (ax as int) <= 1000) by (nonlinear_arith)
                requires
                    0 <= ay as int <= ax as int,
                    1 <= ax as int,
            ;
        }
        atan_cd_milli(ay * 1000 / ax)
    } else {
        proof {
            assert(0 <= (ax as int) * 1000 / (ay as int) <= 1000) by (nonlinear_arith)
                requires
                    0 <= ax as int,
                    (ax as int) < (ay as int),
            ;
        }
        9000 - atan_cd_milli(ax * 1000 / ay)
    };
    if dx >= 0 && dy >= 0 {
        mag
    } else if dx < 0 && dy >= 0 {
        18000 - mag
    } else if dx < 0 {
        -(18000 - mag)
    } else {
        -mag
    }
}

} // verus!
