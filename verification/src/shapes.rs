//! Shape detection: geometric feature extraction per stroke, and the
//! heuristic classifier that turns a stroke into one typed shape.
//!
//! Scores and confidences are `i64` basis points: 10000 = 1.0. Every
//! threshold decision is exact integer arithmetic over milliunit
//! coordinates; lengths use the floor square root.

use vstd::prelude::*;
use vstd::string::*;

use crate::canvas::{stroke_ok, Stroke};
use crate::geom::{
    atan2_cd, coord_ok, dist_sq, dist_sq_i128, heading_cd, isqrt_u128, lemma_mul_bound,
    lemma_sq_bound, lemma_sqrt_floor, point_ok, points_ok, seg_dist_sq_den, seg_dist_sq_num,
    seg_dist_sq_rat, sqrt_floor, Point, COORD_LIMIT, MAX_POINTS,
};

verus! {

/// Score scale: 10000 basis points = 1.0.
pub const SCORE_ONE: i64 = 10000;

/// The closed set of shape types the classifier can emit.
#[derive(Clone, Debug, PartialEq, Eq, Structural)]
pub enum ShapeType {
    Rectangle,
    Circle,
    Ellipse,
    Triangle,
    Diamond,
    Arrow,
    Line,
    Connector,
    Freeform,
}

/// Axis-aligned bounding box of a stroke's points, in milliunits.
/// `rotation` is reserved and always zero.
#[derive(Clone, Copy, Debug)]
pub struct ShapeBounds {
    pub x: i64,
    pub y: i64,
    pub width: i64,
    pub height: i64,
    pub rotation: i64,
}

/// Arrow head found at the tail of a stroke. `size` is in milliunits,
/// `direction` in centidegrees.
#[derive(Clone, Debug)]
pub struct ArrowHead {
    pub style: String,
    pub size: i64,
    pub direction: i64,
}

/// Extra geometric properties of a detected shape. Positions are in
/// milliunits.
#[derive(Clone, Debug)]
pub struct ShapeProperties {
    pub center_x: i64,
    pub center_y: i64,
    pub radius: Option<i64>,
    pub start_point: Option<(i64, i64)>,
    pub end_point: Option<(i64, i64)>,
    pub corner_radius: Option<i64>,
    pub arrow_head: Option<ArrowHead>,
}

/// A detected shape: exactly one per qualifying stroke, with a
/// confidence in basis points.
#[derive(Clone, Debug)]
pub struct DetectedShape {
    pub id: String,
    pub shape_type: ShapeType,
    pub bounds: ShapeBounds,
    pub confidence: i64,
    pub stroke_ids: Vec<String>,
    pub properties: ShapeProperties,
}

/// Tunable thresholds of the classifier; scores in basis points, the
/// arrow tolerance in degrees.
#[derive(Clone, Debug)]
pub struct DetectionParams {
    pub min_points: usize,
    pub circularity_threshold: i64,
    pub rectangularity_threshold: i64,
    pub line_straightness_threshold: i64,
    pub arrow_angle_tolerance: i64,
}

/// The documented default thresholds.
pub open spec fn default_params() -> DetectionParams {
    DetectionParams {
        min_points: 5,
        circularity_threshold: 8500,
        rectangularity_threshold: 8000,
        line_straightness_threshold: 9500,
        arrow_angle_tolerance: 30,
    }
}

impl Default for DetectionParams {
    /// min_points 5; circularity 0.85, rectangularity 0.80, line
    /// straightness 0.95 (basis points); arrow tolerance 30 degrees.
    fn default() -> (r: DetectionParams)
        ensures
            r == default_params(),
    {
        DetectionParams {
            min_points: 5,
            circularity_threshold: 8500,
            rectangularity_threshold: 8000,
            line_straightness_threshold: 9500,
            arrow_angle_tolerance: 30,
        }
    }
}

// ---------------------------------------------------------------------
// Bounds and centroid
// ---------------------------------------------------------------------

/// Smallest x coordinate of a non-empty point sequence.
pub open spec fn min_x_of(s: Seq<Point>) -> int
    decreases s.len(),
{
    if s.len() <= 1 {
        s[0].x as int
    } else if s.last().x < min_x_of(s.drop_last()) {
        s.last().x as int
    } else {
        min_x_of(s.drop_last())
    }
}

/// Smallest y coordinate of a non-empty point sequence.
pub open spec fn min_y_of(s: Seq<Point>) -> int
    decreases s.len(),
{
    if s.len() <= 1 {
        s[0].y as int
    } else if s.last().y < min_y_of(s.drop_last()) {
        s.last().y as int
    } else {
        min_y_of(s.drop_last())
    }
}

/// Largest x coordinate of a non-empty point sequence.
pub open spec fn max_x_of(s: Seq<Point>) -> int
    decreases s.len(),
{
    if s.len() <= 1 {
        s[0].x as int
    } else if s.last().x > max_x_of(s.drop_last()) {
        s.last().x as int
    } else {
        max_x_of(s.drop_last())
    }
}

/// Largest y coordinate of a non-empty point sequence.
pub open spec fn max_y_of(s: Seq<Point>) -> int
    decreases s.len(),
{
    if s.len() <= 1 {
        s[0].y as int
    } else if s.last().y > max_y_of(s.drop_last()) {
        s.last().y as int
    } else {
        max_y_of(s.drop_last())
    }
}

/// Sum of the x coordinates.
pub open spec fn sum_x(s: Seq<Point>) -> int
    decreases s.len(),
{
    if s.len() == 0 {
        0
    } else {
        sum_x(s.drop_last()) + s.last().x
    }
}

/// Sum of the y coordinates.
pub open spec fn sum_y(s: Seq<Point>) -> int
    decreases s.len(),
{
    if s.len() == 0 {
        0
    } else {
        sum_y(s.drop_last()) + s.last().y
    }
}

/// Every point lies within the fold extremes: the bounding box
/// contains the whole stroke.
pub proof fn lemma_bounds_within(s: Seq<Point>)
    requires
        s.len() >= 1,
    ensures
        forall|i: int|
            0 <= i < s.len() ==> {
                &&& min_x_of(s) <= (#[trigger] s[i]).x <= max_x_of(s)
                &&& min_y_of(s) <= s[i].y <= max_y_of(s)
            },
    decreases s.len(),
{
    if s.len() > 1 {
        lemma_bounds_within(s.drop_last());
        assert forall|i: int| 0 <= i < s.len() implies {
            &&& min_x_of(s) <= (#[trigger] s[i]).x <= max_x_of(s)
            &&& min_y_of(s) <= s[i].y <= max_y_of(s)
        } by {
            if i < s.len() - 1 {
                assert(s.drop_last()[i] == s[i]);
            }
        }
    }
}

/// The fold extremes stay within the coordinate range.
pub proof fn lemma_bounds_in_range(s: Seq<Point>)
    requires
        s.len() >= 1,
        points_ok(s),
    ensures
        -(COORD_LIMIT as int) <= min_x_of(s) <= COORD_LIMIT as int,
        -(COORD_LIMIT as int) <= min_y_of(s) <= COORD_LIMIT as int,
        -(COORD_LIMIT as int) <= max_x_of(s) <= COORD_LIMIT as int,
        -(COORD_LIMIT as int) <= max_y_of(s) <= COORD_LIMIT as int,
    decreases s.len(),
{
    assert(point_ok(s[0]));
    if s.len() > 1 {
        assert(points_ok(s.drop_last())) by {
            assert(forall|i: int|
                0 <= i < s.len() - 1 ==> #[trigger] s.drop_last()[i] == s[i]);
        }
        lemma_bounds_in_range(s.drop_last());
        assert(point_ok(s.last()));
    }
}

/// Axis-aligned bounding box of a non-empty point sequence.
pub fn calculate_bounds(points: &[Point]) -> (r: ShapeBounds)
    requires
        points@.len() >= 1,
        points_ok(points@),
    ensures
        r.x == min_x_of(points@),
        r.y == min_y_of(points@),
        r.width == max_x_of(points@) - min_x_of(points@),
        r.height == max_y_of(points@) - min_y_of(points@),
        r.rotation == 0,
        0 <= r.width <= 2 * COORD_LIMIT,
        0 <= r.height <= 2 * COORD_LIMIT,
        coord_ok(r.x),
        coord_ok(r.y),
{
    let mut mnx: i64 = points[0].x;
    let mut mny: i64 = points[0].y;
    let mut mxx: i64 = points[0].x;
    let mut mxy: i64 = points[0].y;
    let mut i: usize = 1;
    while i < points.len()
        invariant
            points_ok(points@),
            1 <= i <= points@.len(),
            mnx == min_x_of(points@.subrange(0, i as int)),
            mny == min_y_of(points@.subrange(0, i as int)),
            mxx == max_x_of(points@.subrange(0, i as int)),
            mxy == max_y_of(points@.subrange(0, i as int)),
            mnx <= mxx,
            mny <= mxy,
        decreases points@.len() - i,
    {
        let p = &points[i];
        proof {
            assert(point_ok(points@[i as int]));
            let pre = points@.subrange(0, i as int + 1);
            assert(pre.drop_last() =~= points@.subrange(0, i as int));
            assert(pre.last() == points@[i as int]);
        }
        if p.x < mnx {
            mnx = p.x;
        }
        if p.y < mny {
            mny = p.y;
        }
        if p.x > mxx {
            mxx = p.x;
        }
        if p.y > mxy {
            mxy = p.y;
        }
        i = i + 1;
    }
    proof {
        assert(points@.subrange(0, points@.len() as int) =~= points@);
        lemma_bounds_in_range(points@);
    }
    ShapeBounds { x: mnx, y: mny, width: mxx - mnx, height: mxy - mny, rotation: 0 }
}

/// The centroid as a rounded-down milliunit pair: the arithmetic mean
/// of the coordinates, floor division.
pub open spec fn centroid_of(s: Seq<Point>) -> (int, int) {
    (sum_x(s) / s.len() as int, sum_y(s) / s.len() as int)
}

/// Coordinate sums stay linear in the length.
proof fn lemma_sum_bounds(s: Seq<Point>)
    requires
        points_ok(s),
    ensures
        -(s.len() as int) * (COORD_LIMIT as int) <= sum_x(s) <= (s.len() as int) * (COORD_LIMIT
            as int),
        -(s.len() as int) * (COORD_LIMIT as int) <= sum_y(s) <= (s.len() as int) * (COORD_LIMIT
            as int),
    decreases s.len(),
{
    if s.len() > 0 {
        assert(points_ok(s.drop_last())) by {
            assert(forall|i: int|
                0 <= i < s.len() - 1 ==> #[trigger] s.drop_last()[i] == s[i]);
        }
        lemma_sum_bounds(s.drop_last());
        assert(point_ok(s.last()));
        assert((s.len() as int) * (COORD_LIMIT as int) == (s.len() as int - 1) * (COORD_LIMIT
            as int) + COORD_LIMIT) by (nonlinear_arith);
    }
}

/// Floor division of an `i64` sum by a positive count.
fn div_floor_i64(a: i64, b: i64) -> (r: i64)
    requires
        b > 0,
        -4_000_000_000_000 <= a <= 4_000_000_000_000,
    ensures
        r == (a as int) / (b as int),
{
    if a >= 0 {
        a / b
    } else {
        let q = (-a) / b;
        let rem = (-a) % b;
        proof {
            vstd::arithmetic::div_mod::lemma_fundamental_div_mod(-a as int, b as int);
        }
        if rem == 0 {
            proof {
                assert(a as int == (-q as int) * (b as int) + 0) by (nonlinear_arith)
                    requires
                        -a as int == (b as int) * (q as int) + (rem as int),
                        rem == 0,
                ;
                vstd::arithmetic::div_mod::lemma_fundamental_div_mod_converse(
                    a as int,
                    b as int,
                    -q as int,
                    0,
                );
            }
            -q
        } else {
            proof {
                assert(a as int == (-q - 1) * (b as int) + (b - rem)) by (nonlinear_arith)
                    requires
                        -a as int == (b as int) * (q as int) + (rem as int),
                ;
                vstd::arithmetic::div_mod::lemma_fundamental_div_mod_converse(
                    a as int,
                    b as int,
                    -q as int - 1,
                    b as int - rem as int,
                );
            }
            -q - 1
        }
    }
}

/// Centroid (mean position) of a non-empty point sequence, rounded
/// down to milliunits.
pub fn calculate_centroid(points: &[Point]) -> (r: (i64, i64))
    requires
        1 <= points@.len() <= MAX_POINTS,
        points_ok(points@),
    ensures
        r.0 == centroid_of(points@).0,
        r.1 == centroid_of(points@).1,
        coord_ok(r.0),
        coord_ok(r.1),
{
    let mut sx: i64 = 0;
    let mut sy: i64 = 0;
    let mut i: usize = 0;
    while i < points.len()
        invariant
            points_ok(points@),
            0 <= i <= points@.len() <= MAX_POINTS,
            sx == sum_x(points@.subrange(0, i as int)),
            sy == sum_y(points@.subrange(0, i as int)),
            -(i as int) * (COORD_LIMIT as int) <= sx <= (i as int) * (COORD_LIMIT as int),
            -(i as int) * (COORD_LIMIT as int) <= sy <= (i as int) * (COORD_LIMIT as int),
        decreases points@.len() - i,
    {
        let p = &points[i];
        proof {
            assert(point_ok(points@[i as int]));
            let pre = points@.subrange(0, i as int + 1);
            assert(pre.drop_last() =~= points@.subrange(0, i as int));
            assert(pre.last() == points@[i as int]);
            assert((i as int + 1) * (COORD_LIMIT as int) == (i as int) * (COORD_LIMIT as int)
                + COORD_LIMIT) by (nonlinear_arith);
        }
        sx = sx + p.x;
        sy = sy + p.y;
        i = i + 1;
    }
    proof {
        assert(points@.subrange(0, points@.len() as int) =~= points@);
        assert((points@.len() as int) * (COORD_LIMIT as int) <= 1_000_000_000_000)
            by (nonlinear_arith)
            requires
                points@.len() <= 100_000,
        ;
    }
    let n = points.len() as i64;
    let cx = div_floor_i64(sx, n);
    let cy = div_floor_i64(sy, n);
    proof {
        let nn = points@.len() as int;
        assert(-(COORD_LIMIT as int) <= sum_x(points@) / nn <= COORD_LIMIT as int)
            by (nonlinear_arith)
            requires
                1 <= nn,
                -nn * (COORD_LIMIT as int) <= sum_x(points@) <= nn * (COORD_LIMIT as int),
        ;
        assert(-(COORD_LIMIT as int) <= sum_y(points@) / nn <= COORD_LIMIT as int)
            by (nonlinear_arith)
            requires
                1 <= nn,
                -nn * (COORD_LIMIT as int) <= sum_y(points@) <= nn * (COORD_LIMIT as int),
        ;
    }
    (cx, cy)
}

/// A stroke is closed when its first and last points are closer than
/// `threshold` milliunits (and it has at least three points).
pub open spec fn is_closed(s: Seq<Point>, threshold: int) -> bool {
    &&& s.len() >= 3
    &&& threshold > 0
    &&& dist_sq(s[0], s[s.len() - 1]) < threshold * threshold
}

/// Closedness test, exact: `distance < threshold` compared in squares.
pub fn is_stroke_closed(points: &[Point], threshold: i64) -> (r: bool)
    requires
        points_ok(points@),
        -40_000_000 <= threshold <= 40_000_000,
    ensures
        r == is_closed(points@, threshold as int),
{
    if points.len() < 3 {
        return false;
    }
    if threshold <= 0 {
        return false;
    }
    let d = dist_sq_i128(&points[0], &points[points.len() - 1]);
    proof {
        lemma_sq_bound(threshold as int, 40_000_000);
    }
    d < (threshold as i128) * (threshold as i128)
}

// ---------------------------------------------------------------------
// Circularity
// ---------------------------------------------------------------------

/// Squared distance from a point to a fixed position.
pub open spec fn cdist_sq(p: Point, cx: int, cy: int) -> int {
    (p.x - cx) * (p.x - cx) + (p.y - cy) * (p.y - cy)
}

/// Radius of a point around the centroid: floor square root of the
/// squared distance, in milliunits.
pub open spec fn radius_of(p: Point, cx: int, cy: int) -> int {
    sqrt_floor(cdist_sq(p, cx, cy))
}

/// Sum of the radii.
pub open spec fn radius_sum(s: Seq<Point>, cx: int, cy: int) -> int
    decreases s.len(),
{
    if s.len() == 0 {
        0
    } else {
        radius_sum(s.drop_last(), cx, cy) + radius_of(s.last(), cx, cy)
    }
}

/// Sum of the squared radii.
pub open spec fn radius_sq_sum(s: Seq<Point>, cx: int, cy: int) -> int
    decreases s.len(),
{
    if s.len() == 0 {
        0
    } else {
        radius_sq_sum(s.drop_last(), cx, cy) + radius_of(s.last(), cx, cy) * radius_of(
            s.last(),
            cx,
            cy,
        )
    }
}

/// Circularity: one minus the coefficient of variation of the radii
/// (standard deviation over mean), clamped to [0, 1], in basis points.
/// With `n` points, `cv = sqrt(n * sum(r^2) - sum(r)^2) / sum(r)`.
/// Zero when the radius sum is zero.
pub open spec fn circularity_of(s: Seq<Point>, cx: int, cy: int) -> int {
    let n = s.len() as int;
    let sum = radius_sum(s, cx, cy);
    let sq = radius_sq_sum(s, cx, cy);
    if sum == 0 {
        0
    } else {
        let v = n * sq - sum * sum;
        let vc = if v < 0 {
            0
        } else {
            v
        };
        let cv = sqrt_floor(vc * 100_000_000) / sum;
        if 10000 - cv < 0 {
            0
        } else {
            10000 - cv
        }
    }
}

/// Radius of one point around `(cx, cy)`, executable.
fn radius_exec(p: &Point, cx: i64, cy: i64) -> (r: i64)
    requires
        point_ok(*p),
        coord_ok(cx),
        coord_ok(cy),
    ensures
        r == radius_of(*p, cx as int, cy as int),
        0 <= r <= 30_000_000,
{
    let dx: i128 = p.x as i128 - cx as i128;
    let dy: i128 = p.y as i128 - cy as i128;
    proof {
        lemma_sq_bound(dx as int, 20_000_000);
        lemma_sq_bound(dy as int, 20_000_000);
    }
    let dsq: i128 = dx * dx + dy * dy;
    let s = isqrt_u128(dsq as u128);
    proof {
        lemma_sqrt_floor(dsq as int);
        if sqrt_floor(dsq as int) > 30_000_000 {
            assert(sqrt_floor(dsq as int) * sqrt_floor(dsq as int) > 800_000_000_000_000)
                by (nonlinear_arith)
                requires
                    sqrt_floor(dsq as int) >= 30_000_001,
            ;
        }
    }
    s as i64
}

/// Average radius from the centroid, rounded down to milliunits.
pub fn calculate_average_radius(points: &[Point], center: (i64, i64)) -> (r: i64)
    requires
        1 <= points@.len() <= MAX_POINTS,
        points_ok(points@),
        coord_ok(center.0),
        coord_ok(center.1),
    ensures
        r == radius_sum(points@, center.0 as int, center.1 as int) / points@.len() as int,
        0 <= r <= 30_000_000,
{
    let (s, _q) = radius_sums(points, center);
    let n = points.len() as i128;
    let avg = s / n;
    proof {
        let nn = points@.len() as int;
        let ss = radius_sum(points@, center.0 as int, center.1 as int);
        assert(0 <= ss / nn <= 30_000_000) by (nonlinear_arith)
            requires
                1 <= nn,
                0 <= ss <= nn * 30_000_000,
        ;
    }
    avg as i64
}

/// Both radius sums in one pass.
fn radius_sums(points: &[Point], center: (i64, i64)) -> (r: (i128, i128))
    requires
        points@.len() <= MAX_POINTS,
        points_ok(points@),
        coord_ok(center.0),
        coord_ok(center.1),
    ensures
        r.0 == radius_sum(points@, center.0 as int, center.1 as int),
        r.1 == radius_sq_sum(points@, center.0 as int, center.1 as int),
        0 <= r.0 <= (points@.len() as int) * 30_000_000,
        0 <= r.1 <= (points@.len() as int) * 900_000_000_000_000,
{
    let cx = center.0;
    let cy = center.1;
    let mut s: i128 = 0;
    let mut q: i128 = 0;
    let mut i: usize = 0;
    while i < points.len()
        invariant
            points_ok(points@),
            0 <= i <= points@.len() <= MAX_POINTS,
            coord_ok(cx),
            coord_ok(cy),
            s == radius_sum(points@.subrange(0, i as int), cx as int, cy as int),
            q == radius_sq_sum(points@.subrange(0, i as int), cx as int, cy as int),
            0 <= s <= (i as int) * 30_000_000,
            0 <= q <= (i as int) * 900_000_000_000_000,
        decreases points@.len() - i,
    {
        proof {
            assert(point_ok(points@[i as int]));
            let pre = points@.subrange(0, i as int + 1);
            assert(pre.drop_last() =~= points@.subrange(0, i as int));
            assert(pre.last() == points@[i as int]);
            assert((i as int + 1) * 30_000_000 == (i as int) * 30_000_000 + 30_000_000)
                by (nonlinear_arith);
            assert((i as int + 1) * 900_000_000_000_000 == (i as int) * 900_000_000_000_000
                + 900_000_000_000_000) by (nonlinear_arith);
        }
        let d = radius_exec(&points[i], cx, cy);
        proof {
            lemma_sq_bound(d as int, 30_000_000);
        }
        s = s + d as i128;
        q = q + (d as i128) * (d as i128);
        i = i + 1;
    }
    proof {
        assert(points@.subrange(0, points@.len() as int) =~= points@);
    }
    (s, q)
}

/// Circularity score of a stroke around its centroid, in basis points.
pub fn calculate_circularity(points: &[Point], center: (i64, i64)) -> (r: i64)
    requires
        1 <= points@.len() <= MAX_POINTS,
        points_ok(points@),
        coord_ok(center.0),
        coord_ok(center.1),
    ensures
        r == circularity_of(points@, center.0 as int, center.1 as int),
        0 <= r <= 10000,
{
    let (s, q) = radius_sums(points, center);
    if s == 0 {
        return 0;
    }
    let n = points.len() as i128;
    proof {
        lemma_mul_bound(n as int, q as int, 100_000, 90_000_000_000_000_000_000);
        lemma_mul_bound(s as int, s as int, 3_000_000_000_000, 3_000_000_000_000);
    }
    let v: i128 = n * q - s * s;
    let vc: i128 = if v < 0 {
        0
    } else {
        v
    };
    proof {
        lemma_mul_bound(
            vc as int,
            100_000_000,
            9_000_000_000_000_000_000_000_000,
            100_000_000,
        );
        lemma_sqrt_floor(vc as int * 100_000_000);
    }
    let root = isqrt_u128((vc * 100_000_000) as u128);
    proof {
        let rt = sqrt_floor(vc as int * 100_000_000);
        if rt > 0x7fff_ffff_ffff_ffff {
            assert(rt * rt > 9_000_000_000_000_000_000_000_000 * 100_000_000)
                by (nonlinear_arith)
                requires
                    rt >= 0x8000_0000_0000_0000,
            ;
        }
        assert(0 <= rt / (s as int)) by (nonlinear_arith)
            requires
                0 <= rt,
                0 < s,
        ;
        assert(rt / (s as int) <= rt) by (nonlinear_arith)
            requires
                0 <= rt,
                1 <= s,
        ;
    }
    let cv: i128 = (root as i128) / (s as i128);
    if cv >= 10000 {
        0
    } else {
        10000 - (cv as i64)
    }
}

// ---------------------------------------------------------------------
// Polygon area (shoelace)
// ---------------------------------------------------------------------

/// One shoelace term: the cross product of consecutive vertices, the
/// successor of the last vertex being the first.
pub open spec fn shoelace_term(s: Seq<Point>, i: int) -> int {
    let j = if i + 1 == s.len() {
        0int
    } else {
        i + 1
    };
    (s[i].x as int) * (s[j].y as int) - (s[j].x as int) * (s[i].y as int)
}

/// Sum of the first `k` shoelace terms.
pub open spec fn shoelace_partial(s: Seq<Point>, k: int) -> int
    decreases k,
{
    if k <= 0 {
        0
    } else {
        shoelace_partial(s, k - 1) + shoelace_term(s, k - 1)
    }
}

/// Twice the absolute polygon area of the stroke in drawing order
/// (shoelace formula); zero for fewer than three points.
pub open spec fn polygon_area_x2_of(s: Seq<Point>) -> int {
    if s.len() < 3 {
        0
    } else if shoelace_partial(s, s.len() as int) < 0 {
        -shoelace_partial(s, s.len() as int)
    } else {
        shoelace_partial(s, s.len() as int)
    }
}

/// Twice the polygon area, in square milliunits, executable.
pub fn polygon_area_x2(points: &[Point]) -> (r: i128)
    requires
        points@.len() <= MAX_POINTS,
        points_ok(points@),
    ensures
        r == polygon_area_x2_of(points@),
        0 <= r <= (points@.len() as int) * 200_000_000_000_000,
{
    if points.len() < 3 {
        return 0;
    }
    let n = points.len();
    let mut acc: i128 = 0;
    let mut i: usize = 0;
    while i < n
        invariant
            points_ok(points@),
            n == points@.len(),
            3 <= n <= MAX_POINTS,
            0 <= i <= n,
            acc == shoelace_partial(points@, i as int),
            -((i as int) * 200_000_000_000_000) <= acc <= (i as int) * 200_000_000_000_000,
        decreases n - i,
    {
        let j: usize = if i + 1 == n {
            0
        } else {
            i + 1
        };
        let pi = &points[i];
        let pj = &points[j];
        proof {
            assert(point_ok(points@[i as int]));
            assert(point_ok(points@[j as int]));
            lemma_mul_bound(pi.x as int, pj.y as int, 10_000_000, 10_000_000);
            lemma_mul_bound(pj.x as int, pi.y as int, 10_000_000, 10_000_000);
            assert((i as int + 1) * 200_000_000_000_000 == (i as int) * 200_000_000_000_000
                + 200_000_000_000_000) by (nonlinear_arith);
        }
        acc = acc + ((pi.x as i128) * (pj.y as i128) - (pj.x as i128) * (pi.y as i128));
        i = i + 1;
    }
    if acc < 0 {
        -acc
    } else {
        acc
    }
}

// ---------------------------------------------------------------------
// Corner score and rectangularity
// ---------------------------------------------------------------------

/// The longer side of the box.
pub open spec fn box_max_side(b: ShapeBounds) -> int {
    if b.width > b.height {
        b.width as int
    } else {
        b.height as int
    }
}

/// The point lies within 0.15 of the longer box side from `(cx, cy)`:
/// `dist < 0.15 * m`, compared exactly in squares as
/// `400 * dist^2 < 9 * m^2`.
pub open spec fn near_pos(p: Point, cx: int, cy: int, m: int) -> bool {
    400 * cdist_sq(p, cx, cy) < 9 * (m * m)
}

/// Some stroke point lies near the position.
pub open spec fn some_point_near(s: Seq<Point>, cx: int, cy: int, m: int) -> bool {
    exists|i: int| 0 <= i < s.len() && near_pos(#[trigger] s[i], cx, cy, m)
}

/// How many of the four box corners have a stroke point nearby (0 to 4).
pub open spec fn corner_count(s: Seq<Point>, b: ShapeBounds) -> int {
    let m = box_max_side(b);
    let x0 = b.x as int;
    let y0 = b.y as int;
    let x1 = b.x + b.width;
    let y1 = b.y + b.height;
    (if some_point_near(s, x0, y0, m) {
        1int
    } else {
        0int
    }) + (if some_point_near(s, x1, y0, m) {
        1int
    } else {
        0int
    }) + (if some_point_near(s, x1, y1, m) {
        1int
    } else {
        0int
    }) + (if some_point_near(s, x0, y1, m) {
        1int
    } else {
        0int
    })
}

/// Whether any stroke point lies near `(cx, cy)`, executable.
fn any_point_near(points: &[Point], cx: i64, cy: i64, m: i64) -> (r: bool)
    requires
        points_ok(points@),
        -40_000_000 <= cx <= 40_000_000,
        -40_000_000 <= cy <= 40_000_000,
        0 <= m <= 40_000_000,
    ensures
        r == some_point_near(points@, cx as int, cy as int, m as int),
{
    proof {
        lemma_sq_bound(m as int, 40_000_000);
    }
    let msq9: i128 = 9 * ((m as i128) * (m as i128));
    let mut i: usize = 0;
    while i < points.len()
        invariant
            points_ok(points@),
            0 <= i <= points@.len(),
            -40_000_000 <= cx <= 40_000_000,
            -40_000_000 <= cy <= 40_000_000,
            msq9 == 9 * ((m as int) * (m as int)),
            forall|j: int| 0 <= j < i ==> !near_pos(#[trigger] points@[j], cx as int, cy as int, m as int),
        decreases points@.len() - i,
    {
        let p = &points[i];
        proof {
            assert(point_ok(points@[i as int]));
            lemma_sq_bound(p.x as int - cx as int, 50_000_000);
            lemma_sq_bound(p.y as int - cy as int, 50_000_000);
        }
        let dx: i128 = p.x as i128 - cx as i128;
        let dy: i128 = p.y as i128 - cy as i128;
        let dsq: i128 = dx * dx + dy * dy;
        if 400 * dsq < msq9 {
            return true;
        }
        i = i + 1;
    }
    false
}

/// Number of box corners with a stroke point nearby.
fn detect_corners(points: &[Point], bounds: &ShapeBounds) -> (r: i64)
    requires
        points_ok(points@),
        coord_ok(bounds.x),
        coord_ok(bounds.y),
        0 <= bounds.width <= 2 * COORD_LIMIT,
        0 <= bounds.height <= 2 * COORD_LIMIT,
    ensures
        r == corner_count(points@, *bounds),
        0 <= r <= 4,
{
    let m: i64 = if bounds.width > bounds.height {
        bounds.width
    } else {
        bounds.height
    };
    let x0 = bounds.x;
    let y0 = bounds.y;
    let x1 = bounds.x + bounds.width;
    let y1 = bounds.y + bounds.height;
    let mut c: i64 = 0;
    if any_point_near(points, x0, y0, m) {
        c = c + 1;
    }
    if any_point_near(points, x1, y0, m) {
        c = c + 1;
    }
    if any_point_near(points, x1, y1, m) {
        c = c + 1;
    }
    if any_point_near(points, x0, y1, m) {
        c = c + 1;
    }
    c
}

/// Rectangularity: 0.6 times the ratio of polygon area to box area,
/// plus 0.4 times the fraction of box corners touched, clamped to 1;
/// in basis points. Zero for a box of zero area.
pub open spec fn rectangularity_of(s: Seq<Point>, b: ShapeBounds) -> int {
    let area = (b.width as int) * (b.height as int);
    if area == 0 {
        0
    } else {
        let v = 3000 * polygon_area_x2_of(s) / area + 1000 * corner_count(s, b);
        if v > 10000 {
            10000
        } else {
            v
        }
    }
}

/// Rectangularity score, executable.
pub fn calculate_rectangularity(points: &[Point], bounds: &ShapeBounds) -> (r: i64)
    requires
        points@.len() <= MAX_POINTS,
        points_ok(points@),
        coord_ok(bounds.x),
        coord_ok(bounds.y),
        0 <= bounds.width <= 2 * COORD_LIMIT,
        0 <= bounds.height <= 2 * COORD_LIMIT,
    ensures
        r == rectangularity_of(points@, *bounds),
        0 <= r <= 10000,
{
    proof {
        lemma_mul_bound(bounds.width as int, bounds.height as int, 20_000_000, 20_000_000);
    }
    let area: i128 = (bounds.width as i128) * (bounds.height as i128);
    if area == 0 {
        return 0;
    }
    let a2 = polygon_area_x2(points);
    proof {
        assert((points@.len() as int) * 200_000_000_000_000 <= 20_000_000_000_000_000_000)
            by (nonlinear_arith)
            requires
                points@.len() <= 100_000,
        ;
        lemma_mul_bound(3000, a2 as int, 3000, 20_000_000_000_000_000_000);
        assert(0 <= 3000 * (a2 as int) / (area as int) <= 3000 * (a2 as int))
            by (nonlinear_arith)
            requires
                0 <= 3000 * (a2 as int),
                1 <= area,
        ;
    }
    let ratio_part: i128 = 3000 * a2 / area;
    let corners = detect_corners(points, bounds);
    let v: i128 = ratio_part + 1000 * (corners as i128);
    if v > 10000 {
        10000
    } else {
        v as i64
    }
}

// ---------------------------------------------------------------------
// Diamond check
// ---------------------------------------------------------------------

/// The point lies in the 60-degree sector around "up" as seen from the
/// centroid (canvas y grows downward): within 30 degrees of vertical,
/// exactly `3 * dx^2 < dy^2` with `dy < 0`.
pub open spec fn sector_up(p: Point, cx: int, cy: int) -> bool {
    let dx = p.x - cx;
    let dy = p.y - cy;
    dy < 0 && 3 * (dx * dx) < dy * dy
}

/// The 60-degree sector around "right".
pub open spec fn sector_right(p: Point, cx: int, cy: int) -> bool {
    let dx = p.x - cx;
    let dy = p.y - cy;
    dx > 0 && 3 * (dy * dy) < dx * dx
}

/// The 60-degree sector around "down".
pub open spec fn sector_down(p: Point, cx: int, cy: int) -> bool {
    let dx = p.x - cx;
    let dy = p.y - cy;
    dy > 0 && 3 * (dx * dx) < dy * dy
}

/// The 60-degree sector around "left".
pub open spec fn sector_left(p: Point, cx: int, cy: int) -> bool {
    let dx = p.x - cx;
    let dy = p.y - cy;
    dx < 0 && 3 * (dy * dy) < dx * dx
}

/// A diamond has points in all four cardinal sectors around the
/// centroid.
pub open spec fn is_diamond(s: Seq<Point>, cx: int, cy: int) -> bool {
    &&& exists|i: int| 0 <= i < s.len() && sector_up(#[trigger] s[i], cx, cy)
    &&& exists|i: int| 0 <= i < s.len() && sector_right(#[trigger] s[i], cx, cy)
    &&& exists|i: int| 0 <= i < s.len() && sector_down(#[trigger] s[i], cx, cy)
    &&& exists|i: int| 0 <= i < s.len() && sector_left(#[trigger] s[i], cx, cy)
}

/// Diamond test: every cardinal sector around the centroid holds at
/// least one stroke point.
pub fn check_diamond(points: &[Point], center: (i64, i64)) -> (r: bool)
    requires
        points_ok(points@),
        coord_ok(center.0),
        coord_ok(center.1),
    ensures
        r == is_diamond(points@, center.0 as int, center.1 as int),
{
    let cx = center.0;
    let cy = center.1;
    let mut up = false;
    let mut right = false;
    let mut down = false;
    let mut left = false;
    let mut i: usize = 0;
    while i < points.len()
        invariant
            points_ok(points@),
            0 <= i <= points@.len(),
            coord_ok(cx),
            coord_ok(cy),
            up == exists|j: int| 0 <= j < i && sector_up(#[trigger] points@[j], cx as int, cy as int),
            right == exists|j: int|
                0 <= j < i && sector_right(#[trigger] points@[j], cx as int, cy as int),
            down == exists|j: int|
                0 <= j < i && sector_down(#[trigger] points@[j], cx as int, cy as int),
            left == exists|j: int|
                0 <= j < i && sector_left(#[trigger] points@[j], cx as int, cy as int),
        decreases points@.len() - i,
    {
        let p = &points[i];
        proof {
            assert(point_ok(points@[i as int]));
            lemma_sq_bound(p.x as int - cx as int, 20_000_000);
            lemma_sq_bound(p.y as int - cy as int, 20_000_000);
        }
        let dx: i128 = p.x as i128 - cx as i128;
        let dy: i128 = p.y as i128 - cy as i128;
        let dx2: i128 = dx * dx;
        let dy2: i128 = dy * dy;
        if dy < 0 && 3 * dx2 < dy2 {
            up = true;
        }
        if dx > 0 && 3 * dy2 < dx2 {
            right = true;
        }
        if dy > 0 && 3 * dx2 < dy2 {
            down = true;
        }
        if dx < 0 && 3 * dy2 < dx2 {
            left = true;
        }
        i = i + 1;
    }
    up && right && down && left
}

// ---------------------------------------------------------------------
// Straightness
// ---------------------------------------------------------------------

/// Sum of the lengths of the first `k` polyline segments, in
/// milliunits (floor square root per segment).
pub open spec fn path_len_upto(s: Seq<Point>, k: int) -> int
    decreases k,
{
    if k <= 0 {
        0
    } else {
        path_len_upto(s, k - 1) + sqrt_floor(dist_sq(s[k - 1], s[k]))
    }
}

/// Straightness: direct end-to-end distance over total path length,
/// clamped to 1; in basis points. One for fewer than two points, zero
/// for coincident endpoints. (Whenever the direct distance is positive,
/// the path length is at least one milliunit, so the division is
/// always by a positive path.)
pub open spec fn straightness_of(s: Seq<Point>) -> int {
    if s.len() < 2 {
        10000
    } else {
        let direct = sqrt_floor(dist_sq(s[0], s[s.len() - 1]));
        if direct == 0 {
            0
        } else {
            let v = 10000 * direct / path_len_upto(s, s.len() - 1);
            if v > 10000 {
                10000
            } else {
                v
            }
        }
    }
}

/// A zero path prefix means the endpoints of the prefix coincide.
proof fn lemma_path_zero(s: Seq<Point>, k: int)
    requires
        0 <= k < s.len(),
        path_len_upto(s, k) == 0,
    ensures
        s[0].x == s[k].x && s[0].y == s[k].y,
    decreases k,
{
    if k > 0 {
        let d = dist_sq(s[k - 1], s[k]);
        crate::canvas::lemma_dist_sq_nonneg(s[k - 1], s[k]);
        lemma_sqrt_floor(d);
        assert(0 <= sqrt_floor(d));
        assert(path_len_upto(s, k - 1) >= 0) by {
            lemma_path_nonneg(s, k - 1);
        }
        assert(sqrt_floor(d) == 0);
        assert(d < (sqrt_floor(d) + 1) * (sqrt_floor(d) + 1));
        assert((0 + 1) * (0 + 1) == 1) by (nonlinear_arith);
        assert(d == 0);
        assert(s[k - 1].x == s[k].x && s[k - 1].y == s[k].y) by (nonlinear_arith)
            requires
                dist_sq(s[k - 1], s[k]) == 0,
        ;
        lemma_path_zero(s, k - 1);
    }
}

/// Path prefixes are nonnegative.
proof fn lemma_path_nonneg(s: Seq<Point>, k: int)
    requires
        k < s.len(),
    ensures
        path_len_upto(s, k) >= 0,
    decreases k,
{
    if k > 0 {
        lemma_path_nonneg(s, k - 1);
        crate::canvas::lemma_dist_sq_nonneg(s[k - 1], s[k]);
        lemma_sqrt_floor(dist_sq(s[k - 1], s[k]));
    }
}

/// Straightness score of a stroke, in basis points.
pub fn calculate_straightness(points: &[Point]) -> (r: i64)
    requires
        points@.len() <= MAX_POINTS,
        points_ok(points@),
    ensures
        r == straightness_of(points@),
        0 <= r <= 10000,
{
    let n = points.len();
    if n < 2 {
        return 10000;
    }
    let direct = crate::geom::seg_len(&points[0], &points[n - 1]);
    if direct == 0 {
        return 0;
    }
    let mut path: i128 = 0;
    let mut j: usize = 0;
    while j < n - 1
        invariant
            points_ok(points@),
            n == points@.len(),
            2 <= n <= MAX_POINTS,
            0 <= j <= n - 1,
            path == path_len_upto(points@, j as int),
            0 <= path <= (j as int) * 30_000_000,
        decreases n - 1 - j,
    {
        let d = crate::geom::seg_len(&points[j], &points[j + 1]);
        proof {
            assert((j as int + 1) * 30_000_000 == (j as int) * 30_000_000 + 30_000_000)
                by (nonlinear_arith);
        }
        path = path + d as i128;
        j = j + 1;
    }
    proof {
        if path == 0 {
            lemma_path_zero(points@, points@.len() - 1);
            assert(dist_sq(points@[0], points@[points@.len() - 1]) == 0) by (nonlinear_arith)
                requires
                    points@[0].x == points@[points@.len() - 1].x,
                    points@[0].y == points@[points@.len() - 1].y,
            ;
        }
        assert(0 <= 10000 * (direct as int) / (path as int) <= 10000 * (direct as int))
            by (nonlinear_arith)
            requires
                0 < direct,
                1 <= path,
        ;
    }
    let v: i128 = 10000 * (direct as i128) / path;
    if v > 10000 {
        10000
    } else {
        v as i64
    }
}

// ---------------------------------------------------------------------
// Prominent corners and triangle score
// ---------------------------------------------------------------------

/// Heading of the polyline segment leaving point `i`, in centidegrees.
pub open spec fn seg_heading(s: Seq<Point>, i: int) -> int {
    atan2_cd(s[i + 1].y - s[i].y, s[i + 1].x - s[i].x)
}

/// Turning change at interior point `i`: the absolute difference of
/// the incoming and outgoing segment headings (raw, not wrapped).
pub open spec fn turn_change(s: Seq<Point>, i: int) -> int {
    let a1 = seg_heading(s, i - 1);
    let a2 = seg_heading(s, i);
    if a2 - a1 < 0 {
        a1 - a2
    } else {
        a2 - a1
    }
}

/// Index of the first interior point (1 to `upto - 1`), excluding
/// `e0` and `e1`, whose turning change is strictly largest; -1 when no
/// candidate exists. Mirrors a left-to-right scan that replaces the
/// best only on a strictly larger change, so ties keep the earliest
/// index, as a stable descending sort would.
pub open spec fn fm_scan(s: Seq<Point>, e0: int, e1: int, upto: int) -> int
    decreases upto,
{
    if upto <= 1 {
        -1
    } else {
        let prev = fm_scan(s, e0, e1, upto - 1);
        let j = upto - 1;
        if j == e0 || j == e1 {
            prev
        } else if prev == -1 {
            j
        } else if turn_change(s, j) > turn_change(s, prev) {
            j
        } else {
            prev
        }
    }
}

/// The scan result is -1 or a valid interior index distinct from the
/// exclusions.
proof fn lemma_fm_scan_range(s: Seq<Point>, e0: int, e1: int, upto: int)
    ensures
        fm_scan(s, e0, e1, upto) == -1 || (1 <= fm_scan(s, e0, e1, upto) < upto && fm_scan(
            s,
            e0,
            e1,
            upto,
        ) != e0 && fm_scan(s, e0, e1, upto) != e1),
    decreases upto,
{
    if upto > 1 {
        lemma_fm_scan_range(s, e0, e1, upto - 1);
    }
}

/// First-maximum turning corner, executable.
fn first_max_corner(points: &[Point], e0: i64, e1: i64) -> (r: i64)
    requires
        points_ok(points@),
        1 <= points@.len() <= MAX_POINTS,
    ensures
        r == fm_scan(points@, e0 as int, e1 as int, points@.len() - 1),
{
    let n = points.len();
    let mut best: i64 = -1;
    let mut best_tc: i64 = 0;
    let mut j: usize = 1;
    if n < 2 {
        return -1;
    }
    while j < n - 1
        invariant
            points_ok(points@),
            n == points@.len(),
            2 <= n <= MAX_POINTS,
            1 <= j <= n - 1,
            best == fm_scan(points@, e0 as int, e1 as int, j as int),
            best != -1 ==> 1 <= best < j && best_tc == turn_change(points@, best as int),
        decreases n - 1 - j,
    {
        if !(j as i64 == e0 || j as i64 == e1) {
            let tc = turn_change_exec(points, j);
            if best == -1 || tc > best_tc {
                best = j as i64;
                best_tc = tc;
            }
        }
        j = j + 1;
    }
    best
}

/// Turning change at interior index `j`, executable.
fn turn_change_exec(points: &[Point], j: usize) -> (r: i64)
    requires
        points_ok(points@),
        1 <= j,
        j + 1 < points@.len(),
    ensures
        r == turn_change(points@, j as int),
        0 <= r <= 36000,
{
    let p0 = &points[j - 1];
    let p1 = &points[j];
    let p2 = &points[j + 1];
    proof {
        assert(point_ok(points@[j - 1]));
        assert(point_ok(points@[j as int]));
        assert(point_ok(points@[j + 1]));
    }
    let a1 = heading_cd(p1.y - p0.y, p1.x - p0.x);
    let a2 = heading_cd(p2.y - p1.y, p2.x - p1.x);
    if a2 - a1 < 0 {
        a1 - a2
    } else {
        a2 - a1
    }
}

/// The point lies within 10 canvas units (10000 milliunits) of the
/// segment, compared exactly in squared rationals.
pub open spec fn near_tri_edge(p: Point, a: Point, b: Point) -> bool {
    seg_dist_sq_num(p, a, b) < 100_000_000 * seg_dist_sq_den(a, b)
}

/// How many of the first `k` points lie near one of the three edges of
/// the triangle with vertices at indices `c0`, `c1`, `c2`.
pub open spec fn tri_edge_count(s: Seq<Point>, c0: int, c1: int, c2: int, k: int) -> int
    decreases k,
{
    if k <= 0 {
        0
    } else {
        tri_edge_count(s, c0, c1, c2, k - 1) + if near_tri_edge(s[k - 1], s[c0], s[c1])
            || near_tri_edge(s[k - 1], s[c1], s[c2]) || near_tri_edge(s[k - 1], s[c2], s[c0]) {
            1int
        } else {
            0int
        }
    }
}

/// Triangle score: take the three most prominent corners (largest
/// turning change, stable on ties) as candidate vertices and score the
/// fraction of points lying within 10 canvas units of the nearest
/// triangle edge; in basis points. Zero when fewer than three interior
/// candidates exist.
pub open spec fn triangle_score_of(s: Seq<Point>) -> int {
    if s.len() < 3 {
        0
    } else {
        let c0 = fm_scan(s, -1, -1, s.len() - 1);
        let c1 = fm_scan(s, c0, -1, s.len() - 1);
        let c2 = fm_scan(s, c0, c1, s.len() - 1);
        if c0 == -1 || c1 == -1 || c2 == -1 {
            0
        } else {
            10000 * tri_edge_count(s, c0, c1, c2, s.len() as int) / s.len() as int
        }
    }
}

/// Triangle score, executable.
pub fn calculate_triangle_score(points: &[Point]) -> (r: i64)
    requires
        points@.len() <= MAX_POINTS,
        points_ok(points@),
    ensures
        r == triangle_score_of(points@),
        0 <= r <= 10000,
{
    let n = points.len();
    if n < 3 {
        return 0;
    }
    let c0 = first_max_corner(points, -1, -1);
    if c0 == -1 {
        return 0;
    }
    let c1 = first_max_corner(points, c0, -1);
    if c1 == -1 {
        return 0;
    }
    let c2 = first_max_corner(points, c0, c1);
    if c2 == -1 {
        return 0;
    }
    proof {
        lemma_fm_scan_range(points@, -1, -1, points@.len() - 1);
        lemma_fm_scan_range(points@, c0 as int, -1, points@.len() - 1);
        lemma_fm_scan_range(points@, c0 as int, c1 as int, points@.len() - 1);
    }
    let a: Point = points[c0 as usize];
    let b: Point = points[c1 as usize];
    let c: Point = points[c2 as usize];
    let mut cnt: i64 = 0;
    let mut j: usize = 0;
    while j < n
        invariant
            points_ok(points@),
            n == points@.len(),
            3 <= n <= MAX_POINTS,
            0 <= j <= n,
            point_ok(a),
            point_ok(b),
            point_ok(c),
            a == points@[c0 as int],
            b == points@[c1 as int],
            c == points@[c2 as int],
            cnt == tri_edge_count(points@, c0 as int, c1 as int, c2 as int, j as int),
            0 <= cnt <= j,
        decreases n - j,
    {
        let p = &points[j];
        let near = near_edge_exec(p, &a, &b) || near_edge_exec(p, &b, &c) || near_edge_exec(
            p,
            &c,
            &a,
        );
        if near {
            cnt = cnt + 1;
        }
        j = j + 1;
    }
    proof {
        assert(0 <= 10000 * (cnt as int) / (n as int) <= 10000) by (nonlinear_arith)
            requires
                0 <= cnt <= n as int,
                1 <= n as int,
        ;
    }
    let v: i128 = 10000 * (cnt as i128) / (n as i128);
    v as i64
}

/// Whether the point lies within 10 canvas units of the segment.
fn near_edge_exec(p: &Point, a: &Point, b: &Point) -> (r: bool)
    requires
        point_ok(*p),
        point_ok(*a),
        point_ok(*b),
    ensures
        r == near_tri_edge(*p, *a, *b),
{
    let (num, den) = seg_dist_sq_rat(p, a, b);
    num < 100_000_000 * den
}

// ---------------------------------------------------------------------
// Arrow-head detection
// ---------------------------------------------------------------------

/// Index of the point the main direction is measured from: about ten
/// samples before the tip, or the first point of a shorter stroke.
pub open spec fn arrow_base_idx(n: int) -> int {
    if n - 10 > 0 {
        n - 10
    } else {
        0
    }
}

/// Main direction vector of the stroke tail: from the base sample to
/// the tip.
pub open spec fn arrow_dir(s: Seq<Point>) -> (int, int) {
    let b = arrow_base_idx(s.len() as int);
    (s[s.len() - 1].x - s[b].x, s[s.len() - 1].y - s[b].y)
}

/// The segment leaving point `i` deviates from the main direction by
/// more than 30 and less than 150 degrees (modulo 180): a barb.
/// Compared exactly as `cos^2 < 3/4`, i.e.
/// `4 * dot^2 < 3 * (|u|^2 * |v|^2)`; a zero-length segment (or a zero
/// main direction) has no heading and is never a barb.
pub open spec fn barb_at(s: Seq<Point>, i: int) -> bool {
    let u = arrow_dir(s);
    let vx = s[i + 1].x - s[i].x;
    let vy = s[i + 1].y - s[i].y;
    let dot = u.0 * vx + u.1 * vy;
    4 * (dot * dot) < 3 * ((u.0 * u.0 + u.1 * u.1) * (vx * vx + vy * vy))
}

/// Some of the last few segments before the tip is a barb.
pub open spec fn has_barb(s: Seq<Point>) -> bool {
    exists|i: int| s.len() - 5 <= i < s.len() - 1 && #[trigger] barb_at(s, i)
}

/// An arrow head is reported: at least five points and a barb.
pub open spec fn arrow_found(s: Seq<Point>) -> bool {
    s.len() >= 5 && has_barb(s)
}

/// Inspect the tail of an open stroke for an arrow head: scan the last
/// few segments for one deviating sharply (but not oppositely) from
/// the main tail direction. The reported head is always the classic
/// style, 10 canvas units in size, pointing along the main direction
/// (centidegrees). The angle window is fixed at 30 to 150 degrees;
/// `_angle_tolerance` is accepted for interface compatibility.
pub fn detect_arrow_head(points: &[Point], _angle_tolerance: i64) -> (r: Option<ArrowHead>)
    requires
        points@.len() <= MAX_POINTS,
        points_ok(points@),
    ensures
        r is Some <==> arrow_found(points@),
        r matches Some(ah) ==> {
            &&& ah.style@ == "classic"@
            &&& ah.size == 10_000
            &&& ah.direction == atan2_cd(arrow_dir(points@).1, arrow_dir(points@).0)
        },
{
    let n = points.len();
    if n < 5 {
        return None;
    }
    let base: usize = if n >= 10 {
        n - 10
    } else {
        0
    };
    let tip = points[n - 1];
    let bp = points[base];
    proof {
        assert(point_ok(points@[n - 1]));
        assert(point_ok(points@[base as int]));
    }
    let ux: i64 = tip.x - bp.x;
    let uy: i64 = tip.y - bp.y;
    proof {
        lemma_sq_bound(ux as int, 20_000_000);
        lemma_sq_bound(uy as int, 20_000_000);
    }
    let lu: i128 = (ux as i128) * (ux as i128) + (uy as i128) * (uy as i128);
    let mut has: bool = false;
    let mut i: usize = n - 5;
    while i < n - 1
        invariant
            points_ok(points@),
            n == points@.len(),
            5 <= n <= MAX_POINTS,
            n - 5 <= i <= n - 1,
            ux == arrow_dir(points@).0,
            uy == arrow_dir(points@).1,
            lu == (ux as int) * (ux as int) + (uy as int) * (uy as int),
            0 <= lu <= 800_000_000_000_000,
            has == exists|j: int| n - 5 <= j < i && #[trigger] barb_at(points@, j),
        decreases n - 1 - i,
    {
        let p1 = points[i];
        let p2 = points[i + 1];
        proof {
            assert(point_ok(points@[i as int]));
            assert(point_ok(points@[i + 1]));
        }
        let vx: i64 = p2.x - p1.x;
        let vy: i64 = p2.y - p1.y;
        proof {
            lemma_sq_bound(vx as int, 20_000_000);
            lemma_sq_bound(vy as int, 20_000_000);
            lemma_mul_bound(ux as int, vx as int, 20_000_000, 20_000_000);
            lemma_mul_bound(uy as int, vy as int, 20_000_000, 20_000_000);
        }
        let dot: i128 = (ux as i128) * (vx as i128) + (uy as i128) * (vy as i128);
        let lv: i128 = (vx as i128) * (vx as i128) + (vy as i128) * (vy as i128);
        proof {
            lemma_sq_bound(dot as int, 800_000_000_000_000);
            lemma_mul_bound(
                lu as int,
                lv as int,
                800_000_000_000_000,
                800_000_000_000_000,
            );
        }
        if 4 * (dot * dot) < 3 * (lu * lv) {
            proof {
                assert(barb_at(points@, i as int));
            }
            has = true;
        } else {
            proof {
                assert(!barb_at(points@, i as int));
            }
        }
        i = i + 1;
    }
    if has {
        let direction = heading_cd(uy, ux);
        Some(ArrowHead { style: String::from_str("classic"), size: 10_000, direction })
    } else {
        None
    }
}

// ---------------------------------------------------------------------
// Per-stroke classification
// ---------------------------------------------------------------------

/// Closedness threshold of a stroke: a tenth of the longer bounding
/// box side.
pub open spec fn stroke_threshold(s: Seq<Point>) -> int {
    let w = max_x_of(s) - min_x_of(s);
    let h = max_y_of(s) - min_y_of(s);
    (if w > h {
        w
    } else {
        h
    }) / 10
}

/// The bounding box of a stroke, as the box value.
pub open spec fn bounds_of(s: Seq<Point>) -> ShapeBounds {
    ShapeBounds {
        x: min_x_of(s) as i64,
        y: min_y_of(s) as i64,
        width: (max_x_of(s) - min_x_of(s)) as i64,
        height: (max_y_of(s) - min_y_of(s)) as i64,
        rotation: 0,
    }
}

/// The classifier's decision tree: shape type and confidence (basis
/// points) for one stroke. Closed strokes: circle by circularity, then
/// diamond or rectangle by rectangularity and the cardinal-sector
/// test, then triangle, else freeform at 0.5. Open strokes: arrow or
/// line by straightness and the barb test, else connector at 0.6.
pub open spec fn classify_stroke(s: Seq<Point>, p: DetectionParams) -> (ShapeType, int) {
    let c = centroid_of(s);
    if is_closed(s, stroke_threshold(s)) {
        let circ = circularity_of(s, c.0, c.1);
        if circ > p.circularity_threshold {
            (ShapeType::Circle, circ)
        } else {
            let rect = rectangularity_of(s, bounds_of(s));
            if rect > p.rectangularity_threshold {
                if is_diamond(s, c.0, c.1) {
                    (ShapeType::Diamond, rect * 95 / 100)
                } else {
                    (ShapeType::Rectangle, rect)
                }
            } else {
                let tri = triangle_score_of(s);
                if tri > 7500 {
                    (ShapeType::Triangle, tri)
                } else {
                    (ShapeType::Freeform, 5000)
                }
            }
        }
    } else {
        let st = straightness_of(s);
        if st > p.line_straightness_threshold {
            if arrow_found(s) {
                (ShapeType::Arrow, st * 95 / 100)
            } else {
                (ShapeType::Line, st)
            }
        } else {
            (ShapeType::Connector, 6000)
        }
    }
}

/// The detected shape carries exactly the classifier's verdict and the
/// stroke's geometry: its bounds, centroid, endpoints, the radius for
/// circles, the arrow head for arrows, and the originating stroke id.
pub open spec fn shape_from_stroke_ok(ds: DetectedShape, stroke: Stroke, p: DetectionParams) -> bool {
    let s = stroke.points@;
    let cls = classify_stroke(s, p);
    let c = centroid_of(s);
    &&& ds.shape_type == cls.0
    &&& ds.confidence == cls.1
    &&& ds.bounds.x == min_x_of(s)
    &&& ds.bounds.y == min_y_of(s)
    &&& ds.bounds.width == max_x_of(s) - min_x_of(s)
    &&& ds.bounds.height == max_y_of(s) - min_y_of(s)
    &&& ds.bounds.rotation == 0
    &&& ds.id@.len() == 36
    &&& ds.stroke_ids@.len() == 1
    &&& ds.stroke_ids@[0]@ == stroke.id@
    &&& ds.properties.center_x == c.0
    &&& ds.properties.center_y == c.1
    &&& ds.properties.radius == (if cls.0 == ShapeType::Circle {
        Some((radius_sum(s, c.0, c.1) / s.len() as int) as i64)
    } else {
        None::<i64>
    })
    &&& ds.properties.start_point == Some((s[0].x, s[0].y))
    &&& ds.properties.end_point == Some((s[s.len() - 1].x, s[s.len() - 1].y))
    &&& ds.properties.corner_radius == None::<i64>
    &&& (cls.0 == ShapeType::Arrow ==> (ds.properties.arrow_head matches Some(ah) && ah.style@
        == "classic"@ && ah.size == 10_000 && ah.direction == atan2_cd(
        arrow_dir(s).1,
        arrow_dir(s).0,
    )))
    &&& (cls.0 != ShapeType::Arrow ==> ds.properties.arrow_head is None)
}

/// Relies on uuid::Uuid::new_v4 and its hyphenated rendering: a fresh
/// random version-4 UUID is always 36 ASCII characters long. Nothing
/// more is assumed of the value.
#[verifier::external_body]
fn fresh_shape_id() -> (r: String)
    ensures
        r@.len() == 36,
{
    uuid::Uuid::new_v4().to_string()
}

/// Classify one stroke into a detected shape. `None` only for a stroke
/// with no points at all.
pub fn detect_shape_from_stroke(stroke: &Stroke, params: &DetectionParams) -> (r: Option<
    DetectedShape,
>)
    requires
        stroke_ok(*stroke),
    ensures
        r is Some <==> stroke.points@.len() >= 1,
        r matches Some(ds) ==> shape_from_stroke_ok(ds, *stroke, *params),
{
    let points: &[Point] = stroke.points.as_slice();
    let n = points.len();
    if n == 0 {
        return None;
    }
    let bounds = calculate_bounds(points);
    let center = calculate_centroid(points);
    let m: i64 = if bounds.width > bounds.height {
        bounds.width
    } else {
        bounds.height
    };
    let closed = is_stroke_closed(points, m / 10);
    let (shape_type, confidence): (ShapeType, i64) = if closed {
        let circ = calculate_circularity(points, center);
        if circ > params.circularity_threshold {
            (ShapeType::Circle, circ)
        } else {
            let rect = calculate_rectangularity(points, &bounds);
            if rect > params.rectangularity_threshold {
                if check_diamond(points, center) {
                    (ShapeType::Diamond, rect * 95 / 100)
                } else {
                    (ShapeType::Rectangle, rect)
                }
            } else {
                let tri = calculate_triangle_score(points);
                if tri > 7500 {
                    (ShapeType::Triangle, tri)
                } else {
                    (ShapeType::Freeform, 5000)
                }
            }
        }
    } else {
        let st = calculate_straightness(points);
        if st > params.line_straightness_threshold {
            if let Some(_head) = detect_arrow_head(points, params.arrow_angle_tolerance) {
                (ShapeType::Arrow, st * 95 / 100)
            } else {
                (ShapeType::Line, st)
            }
        } else {
            (ShapeType::Connector, 6000)
        }
    };
    let radius: Option<i64> = if matches!(shape_type, ShapeType::Circle) {
        Some(calculate_average_radius(points, center))
    } else {
        None
    };
    let arrow_head: Option<ArrowHead> = if matches!(shape_type, ShapeType::Arrow) {
        detect_arrow_head(points, params.arrow_angle_tolerance)
    } else {
        None
    };
    let first = &stroke.points[0];
    let last = &stroke.points[n - 1];
    let properties = ShapeProperties {
        center_x: center.0,
        center_y: center.1,
        radius,
        start_point: Some((first.x, first.y)),
        end_point: Some((last.x, last.y)),
        corner_radius: None,
        arrow_head,
    };
    let mut stroke_ids: Vec<String> = Vec::new();
    stroke_ids.push(stroke.id.clone());
    Some(
        DetectedShape {
            id: fresh_shape_id(),
            shape_type,
            bounds,
            confidence,
            stroke_ids,
            properties,
        },
    )
}

// ---------------------------------------------------------------------
// Batch detection
// ---------------------------------------------------------------------

/// How many of the first `upto` strokes have at least `minp` points.
pub open spec fn qual_count(s: Seq<Stroke>, upto: int, minp: int) -> int
    decreases upto,
{
    if upto <= 0 {
        0
    } else {
        qual_count(s, upto - 1, minp) + if s[upto - 1].points@.len() >= minp {
            1int
        } else {
            0int
        }
    }
}

/// Counting qualifiers never decreases along the batch.
proof fn lemma_qual_mono(s: Seq<Stroke>, a: int, b: int, minp: int)
    requires
        0 <= a <= b,
    ensures
        qual_count(s, a, minp) <= qual_count(s, b, minp),
    decreases b - a,
{
    if a < b {
        lemma_qual_mono(s, a, b - 1, minp);
    }
}

/// The multi-stroke grouping pass: an intentional extension seam that
/// currently finds nothing.
pub fn detect_compound_shapes(_shapes: &[DetectedShape], _strokes: &[Stroke]) -> (r: Vec<
    DetectedShape,
>)
    ensures
        r@.len() == 0,
{
    Vec::new()
}

/// Merge per-stroke and compound results, compound shapes last.
pub fn merge_shapes(individual: Vec<DetectedShape>, compound: Vec<DetectedShape>) -> (r: Vec<
    DetectedShape,
>)
    ensures
        r@ == individual@ + compound@,
{
    let mut result = individual;
    let mut rest = compound;
    result.append(&mut rest);
    result
}

/// Detect one shape per stroke that has at least the default minimum
/// of five points, in stroke order; strokes with fewer points produce
/// nothing. An empty batch produces an empty result.
pub fn detect_shapes(strokes: &[Stroke]) -> (r: Vec<DetectedShape>)
    requires
        crate::canvas::strokes_ok(strokes@),
    ensures
        r@.len() == qual_count(strokes@, strokes@.len() as int, 5),
        forall|t: int|
            0 <= t < strokes@.len() ==> ((#[trigger] strokes@[t]).points@.len() >= 5
                ==> shape_from_stroke_ok(
                r@[qual_count(strokes@, t, 5)],
                strokes@[t],
                default_params(),
            )),
        strokes@.len() == 0 ==> r@.len() == 0,
{
    let params = DetectionParams::default();
    let mut shapes: Vec<DetectedShape> = Vec::new();
    let mut s: usize = 0;
    while s < strokes.len()
        invariant
            crate::canvas::strokes_ok(strokes@),
            0 <= s <= strokes@.len(),
            params == default_params(),
            shapes@.len() == qual_count(strokes@, s as int, 5),
            forall|t: int|
                0 <= t < s ==> ((#[trigger] strokes@[t]).points@.len() >= 5
                    ==> shape_from_stroke_ok(
                    shapes@[qual_count(strokes@, t, 5)],
                    strokes@[t],
                    default_params(),
                )),
        decreases strokes@.len() - s,
    {
        let stroke = &strokes[s];
        if stroke.points.len() >= params.min_points {
            proof {
                assert(crate::canvas::stroke_ok(strokes@[s as int]));
            }
            let ds = detect_shape_from_stroke(stroke, &params);
            match ds {
                Some(shape) => {
                    proof {
                        assert forall|t: int|
                            0 <= t < s && strokes@[t].points@.len() >= 5 implies qual_count(
                            strokes@,
                            t,
                            5,
                        ) < qual_count(strokes@, s as int, 5) by {
                            assert(qual_count(strokes@, t + 1, 5) == qual_count(strokes@, t, 5)
                                + 1);
                            lemma_qual_mono(strokes@, t + 1, s as int, 5);
                        }
                    }
                    let ghost prev = shapes@;
                    shapes.push(shape);
                    proof {
                        assert(qual_count(strokes@, s as int + 1, 5) == qual_count(
                            strokes@,
                            s as int,
                            5,
                        ) + 1);
                        assert(shapes@[qual_count(strokes@, s as int, 5)]
                            == shape);
                        assert(shape_from_stroke_ok(shape, strokes@[s as int], default_params()));
                        assert forall|t: int|
                            0 <= t < s && (#[trigger] strokes@[t]).points@.len()
                                >= 5 implies shapes@[qual_count(strokes@, t, 5)] == prev[qual_count(
                            strokes@,
                            t,
                            5,
                        )] by {
                            lemma_qual_mono(strokes@, 0, t, 5);
                            assert(qual_count(strokes@, t + 1, 5) == qual_count(strokes@, t, 5)
                                + 1);
                            lemma_qual_mono(strokes@, t + 1, s as int, 5);
                        }
                    }
                },
                None => {
                    proof {
                        assert(false);
                    }
                },
            }
        }
        s = s + 1;
    }
    let ghost detected = shapes@;
    let compound = detect_compound_shapes(shapes.as_slice(), strokes);
    let r = merge_shapes(shapes, compound);
    proof {
        assert(r@ =~= detected);
    }
    r
}

} // verus!
