//! Canvas-level stroke processing: color parsing, the union bounding
//! box of a batch of strokes, Douglas-Peucker simplification, and
//! viewport normalization.

use vstd::prelude::*;
use vstd::string::*;

use crate::geom::{
    coord_ok, dist_sq, dist_sq_i128, line_dist_sq_num, line_dist_sq_rat, point_ok, points_ok,
    seg_cross, seg_dist_sq_den, seg_len_sq, Point, COORD_LIMIT,
};

verus! {

/// A stroke: one continuous pen-down-to-pen-up sequence of points.
/// Coordinates and `width` are in milliunits.
#[derive(Clone, Debug)]
pub struct Stroke {
    pub id: String,
    pub points: Vec<Point>,
    pub color: String,
    pub width: i64,
    pub tool: String,
}

/// A stroke all of whose points and whose width the geometry accepts.
pub open spec fn stroke_ok(s: Stroke) -> bool {
    points_ok(s.points@) && 0 <= s.width <= COORD_LIMIT && s.points@.len()
        <= crate::geom::MAX_POINTS
}

/// Every stroke of the sequence is in range.
pub open spec fn strokes_ok(s: Seq<Stroke>) -> bool {
    forall|i: int| 0 <= i < s.len() ==> stroke_ok(#[trigger] s[i])
}

/// Canvas configuration.
#[derive(Clone, Debug)]
pub struct CanvasConfig {
    pub width: u32,
    pub height: u32,
    pub background_color: String,
    pub grid_size: Option<u32>,
}

impl Default for CanvasConfig {
    /// A full-HD white canvas with a 20-pixel grid.
    fn default() -> (r: CanvasConfig)
        ensures
            r.width == 1920,
            r.height == 1080,
            r.background_color@ == "#ffffff"@,
            r.grid_size == Some(20u32),
    {
        CanvasConfig {
            width: 1920,
            height: 1080,
            background_color: String::from_str("#ffffff"),
            grid_size: Some(20),
        }
    }
}

// ---------------------------------------------------------------------
// Hex color parsing
// ---------------------------------------------------------------------

/// Value of an ASCII hex digit, or -1 when the byte is not one.
pub open spec fn hex_digit_val(b: u8) -> int {
    if 48 <= b <= 57 {
        b - 48
    } else if 97 <= b <= 102 {
        b - 87
    } else if 65 <= b <= 70 {
        b - 55
    } else {
        -1
    }
}

/// The byte sequence with every leading `#` removed.
pub open spec fn strip_hashes(s: Seq<u8>) -> Seq<u8>
    decreases s.len(),
{
    if s.len() > 0 && s[0] == 35 {
        strip_hashes(s.subrange(1, s.len() as int))
    } else {
        s
    }
}

/// Two hex digits starting at `i`, as a byte value; `alt` when either
/// digit is invalid.
pub open spec fn hex_pair_or(s: Seq<u8>, i: int, alt: int) -> int {
    if hex_digit_val(s[i]) >= 0 && hex_digit_val(s[i + 1]) >= 0 {
        16 * hex_digit_val(s[i]) + hex_digit_val(s[i + 1])
    } else {
        alt
    }
}

/// Parse a `#rrggbb` or `#rrggbbaa` hex color into RGBA components.
/// Invalid digit pairs fall back to 0 (255 for alpha); a missing alpha
/// pair means fully opaque.
pub fn parse_color(color: &[u8]) -> (r: (u8, u8, u8, u8))
    requires
        strip_hashes(color@).len() >= 6,
    ensures
        r.0 == hex_pair_or(strip_hashes(color@), 0, 0),
        r.1 == hex_pair_or(strip_hashes(color@), 2, 0),
        r.2 == hex_pair_or(strip_hashes(color@), 4, 0),
        r.3 == if strip_hashes(color@).len() >= 8 {
            hex_pair_or(strip_hashes(color@), 6, 255)
        } else {
            255
        },
{
    proof {
        assert(color@.subrange(0, color@.len() as int) =~= color@);
    }
    let mut start: usize = 0;
    while start < color.len() && color[start] == 35
        invariant
            0 <= start <= color.len(),
            strip_hashes(color@) == strip_hashes(color@.subrange(start as int, color@.len() as int)),
        decreases color.len() - start,
    {
        proof {
            let tail = color@.subrange(start as int, color@.len() as int);
            assert(tail[0] == 35);
            assert(tail.subrange(1, tail.len() as int) =~= color@.subrange(
                start as int + 1,
                color@.len() as int,
            ));
        }
        start = start + 1;
    }
    proof {
        let tail = color@.subrange(start as int, color@.len() as int);
        assert(strip_hashes(tail) == tail);
        assert(strip_hashes(color@) =~= tail);
        assert forall|j: int| 0 <= j < tail.len() implies tail[j] == color@[start + j] by {}
    }
    let rr = hex_pair_at(color, start, 0);
    let gg = hex_pair_at(color, start + 2, 0);
    let bb = hex_pair_at(color, start + 4, 0);
    let aa = if color.len() - start >= 8 {
        hex_pair_at(color, start + 6, 255)
    } else {
        255
    };
    (rr, gg, bb, aa)
}

/// One hex pair at absolute position `i`, with fallback `alt`.
fn hex_pair_at(s: &[u8], i: usize, alt: u8) -> (r: u8)
    requires
        i + 2 <= s@.len(),
    ensures
        r == hex_pair_or(s@, i as int, alt as int),
{
    let hi = hex_val_exec(s[i]);
    let lo = hex_val_exec(s[i + 1]);
    if hi >= 0 && lo >= 0 {
        (16 * hi + lo) as u8
    } else {
        alt
    }
}

/// Executable hex digit value.
fn hex_val_exec(b: u8) -> (r: i32)
    ensures
        r == hex_digit_val(b),
{
    if 48 <= b && b <= 57 {
        b as i32 - 48
    } else if 97 <= b && b <= 102 {
        b as i32 - 87
    } else if 65 <= b && b <= 70 {
        b as i32 - 55
    } else {
        -1
    }
}

// ---------------------------------------------------------------------
// Union bounding box
// ---------------------------------------------------------------------

/// `(s, i)` indexes a point of the batch.
pub open spec fn valid_pt(strokes: Seq<Stroke>, s: int, i: int) -> bool {
    0 <= s < strokes.len() && 0 <= i < strokes[s].points@.len()
}

/// The `i`-th point of the `s`-th stroke.
pub open spec fn batch_pt(strokes: Seq<Stroke>, s: int, i: int) -> Point {
    strokes[s].points@[i]
}

/// There is at least one point in the batch.
pub open spec fn has_any_point(strokes: Seq<Stroke>) -> bool {
    exists|s: int| 0 <= s < strokes.len() && #[trigger] strokes[s].points@.len() > 0
}

/// `bb = (min_x, min_y, max_x, max_y)` is the union bounding box of
/// the batch: it contains every point, each extreme is attained when
/// any point exists, and a batch without a single point keeps the
/// fold's sentinel extremes.
pub open spec fn union_bbox(strokes: Seq<Stroke>, bb: (i64, i64, i64, i64)) -> bool {
    &&& forall|s: int, i: int|
        #[trigger] valid_pt(strokes, s, i) ==> {
            &&& bb.0 <= batch_pt(strokes, s, i).x <= bb.2
            &&& bb.1 <= batch_pt(strokes, s, i).y <= bb.3
        }
    &&& has_any_point(strokes) ==> {
        &&& exists|s: int, i: int|
            #[trigger] valid_pt(strokes, s, i) && batch_pt(strokes, s, i).x == bb.0
        &&& exists|s: int, i: int|
            #[trigger] valid_pt(strokes, s, i) && batch_pt(strokes, s, i).y == bb.1
        &&& exists|s: int, i: int|
            #[trigger] valid_pt(strokes, s, i) && batch_pt(strokes, s, i).x == bb.2
        &&& exists|s: int, i: int|
            #[trigger] valid_pt(strokes, s, i) && batch_pt(strokes, s, i).y == bb.3
    }
    &&& !has_any_point(strokes) ==> bb == (i64::MAX, i64::MAX, i64::MIN, i64::MIN)
}

/// Union bounding box over every point of every stroke, as
/// `(min_x, min_y, max_x, max_y)`; `None` for an empty stroke list.
pub fn calculate_bounding_box(strokes: &[Stroke]) -> (r: Option<(i64, i64, i64, i64)>)
    requires
        strokes_ok(strokes@),
    ensures
        r is None <==> strokes@.len() == 0,
        r matches Some(bb) ==> union_bbox(strokes@, bb),
{
    if strokes.len() == 0 {
        return None;
    }
    let mut min_x: i64 = i64::MAX;
    let mut min_y: i64 = i64::MAX;
    let mut max_x: i64 = i64::MIN;
    let mut max_y: i64 = i64::MIN;
    let mut s: usize = 0;
    while s < strokes.len()
        invariant
            strokes_ok(strokes@),
            0 <= s <= strokes@.len(),
            forall|t: int, i: int|
                #[trigger] valid_pt(strokes@, t, i) && t < s ==> {
                    &&& min_x <= batch_pt(strokes@, t, i).x <= max_x
                    &&& min_y <= batch_pt(strokes@, t, i).y <= max_y
                },
            min_x != i64::MAX ==> exists|t: int, i: int|
                #[trigger] valid_pt(strokes@, t, i) && t < s && batch_pt(strokes@, t, i).x == min_x,
            min_y != i64::MAX ==> exists|t: int, i: int|
                #[trigger] valid_pt(strokes@, t, i) && t < s && batch_pt(strokes@, t, i).y == min_y,
            max_x != i64::MIN ==> exists|t: int, i: int|
                #[trigger] valid_pt(strokes@, t, i) && t < s && batch_pt(strokes@, t, i).x == max_x,
            max_y != i64::MIN ==> exists|t: int, i: int|
                #[trigger] valid_pt(strokes@, t, i) && t < s && batch_pt(strokes@, t, i).y == max_y,
            min_x == i64::MAX <==> !(exists|t: int|
                0 <= t < s && #[trigger] strokes@[t].points@.len() > 0),
            min_x == i64::MAX ==> min_y == i64::MAX && max_x == i64::MIN && max_y == i64::MIN,
        decreases strokes@.len() - s,
    {
        let stroke = &strokes[s];
        let ghost seen0 = exists|t: int| 0 <= t < s && #[trigger] strokes@[t].points@.len() > 0;
        let mut i: usize = 0;
        while i < stroke.points.len()
            invariant
                strokes_ok(strokes@),
                0 <= s < strokes@.len(),
                0 <= i <= stroke.points@.len(),
                *stroke == strokes@[s as int],
                seen0 == exists|t: int| 0 <= t < s && #[trigger] strokes@[t].points@.len() > 0,
                forall|t: int, j: int|
                    #[trigger] valid_pt(strokes@, t, j) && t < s ==> {
                        &&& min_x <= batch_pt(strokes@, t, j).x <= max_x
                        &&& min_y <= batch_pt(strokes@, t, j).y <= max_y
                    },
                forall|j: int|
                    0 <= j < i ==> {
                        &&& min_x <= (#[trigger] stroke.points@[j]).x <= max_x
                        &&& min_y <= stroke.points@[j].y <= max_y
                    },
                min_x != i64::MAX ==> exists|t: int, j: int|
                    #[trigger] valid_pt(strokes@, t, j) && (t < s || (t == s && j < i)) && batch_pt(
                        strokes@,
                        t,
                        j,
                    ).x == min_x,
                min_y != i64::MAX ==> exists|t: int, j: int|
                    #[trigger] valid_pt(strokes@, t, j) && (t < s || (t == s && j < i)) && batch_pt(
                        strokes@,
                        t,
                        j,
                    ).y == min_y,
                max_x != i64::MIN ==> exists|t: int, j: int|
                    #[trigger] valid_pt(strokes@, t, j) && (t < s || (t == s && j < i)) && batch_pt(
                        strokes@,
                        t,
                        j,
                    ).x == max_x,
                max_y != i64::MIN ==> exists|t: int, j: int|
                    #[trigger] valid_pt(strokes@, t, j) && (t < s || (t == s && j < i)) && batch_pt(
                        strokes@,
                        t,
                        j,
                    ).y == max_y,
                min_x == i64::MAX <==> !seen0 && i == 0,
                min_x == i64::MAX ==> min_y == i64::MAX && max_x == i64::MIN && max_y == i64::MIN,
            decreases stroke.points@.len() - i,
    {
            let p = &stroke.points[i];
            proof {
                assert(valid_pt(strokes@, s as int, i as int));
                assert(point_ok(strokes@[s as int].points@[i as int]));
            }
            if p.x < min_x {
                min_x = p.x;
            }
            if p.y < min_y {
                min_y = p.y;
            }
            if p.x > max_x {
                max_x = p.x;
            }
            if p.y > max_y {
                max_y = p.y;
            }
            i = i + 1;
        }
        proof {
            if min_x != i64::MAX {
                let (t, j) = choose|t: int, j: int|
                    #[trigger] valid_pt(strokes@, t, j) && (t < s || (t == s && j < i)) && batch_pt(
                        strokes@,
                        t,
                        j,
                    ).x == min_x;
                assert(valid_pt(strokes@, t, j) && t < s + 1 && batch_pt(strokes@, t, j).x
                    == min_x);
            }
            if min_y != i64::MAX {
                let (t, j) = choose|t: int, j: int|
                    #[trigger] valid_pt(strokes@, t, j) && (t < s || (t == s && j < i)) && batch_pt(
                        strokes@,
                        t,
                        j,
                    ).y == min_y;
                assert(valid_pt(strokes@, t, j) && t < s + 1 && batch_pt(strokes@, t, j).y
                    == min_y);
            }
            if max_x != i64::MIN {
                let (t, j) = choose|t: int, j: int|
                    #[trigger] valid_pt(strokes@, t, j) && (t < s || (t == s && j < i)) && batch_pt(
                        strokes@,
                        t,
                        j,
                    ).x == max_x;
                assert(valid_pt(strokes@, t, j) && t < s + 1 && batch_pt(strokes@, t, j).x
                    == max_x);
            }
            if max_y != i64::MIN {
                let (t, j) = choose|t: int, j: int|
                    #[trigger] valid_pt(strokes@, t, j) && (t < s || (t == s && j < i)) && batch_pt(
                        strokes@,
                        t,
                        j,
                    ).y == max_y;
                assert(valid_pt(strokes@, t, j) && t < s + 1 && batch_pt(strokes@, t, j).y
                    == max_y);
            }
        }
        s = s + 1;
    }
    Some((min_x, min_y, max_x, max_y))
}

// ---------------------------------------------------------------------
// Douglas-Peucker simplification
// ---------------------------------------------------------------------

/// Kept indices `idx[t]` and `idx[t + 1]` enclose position `j`, and
/// the point at `j` lies within `eps` of the line through them
/// (squared rational comparison, exact; point-to-point when the chord
/// endpoints coincide).
pub open spec fn chord_at(pts: Seq<Point>, idx: Seq<usize>, eps: int, j: int, t: int) -> bool {
    &&& 0 <= t < idx.len() - 1
    &&& idx[t] <= j <= idx[t + 1]
    &&& line_dist_sq_num(pts[j], pts[idx[t] as int], pts[idx[t + 1] as int]) <= eps * eps
        * seg_dist_sq_den(pts[idx[t] as int], pts[idx[t + 1] as int])
}

/// The point at position `j` is within `eps` of some kept chord.
pub open spec fn covered_at(pts: Seq<Point>, idx: Seq<usize>, eps: int, j: int) -> bool {
    exists|t: int| #[trigger] chord_at(pts, idx, eps, j, t)
}

/// Every input position of `[lo, hi]` is within `eps` of a kept
/// chord: the Douglas-Peucker approximation guarantee.
pub open spec fn covers(pts: Seq<Point>, idx: Seq<usize>, eps: int, lo: int, hi: int) -> bool {
    forall|j: int| lo <= j <= hi ==> #[trigger] covered_at(pts, idx, eps, j)
}

/// `r` reads the points of `pts` at the strictly increasing positions
/// `idx`: `r` is a subsequence of `pts`.
pub open spec fn sampled_by(r: Seq<Point>, pts: Seq<Point>, idx: Seq<usize>) -> bool {
    &&& idx.len() == r.len()
    &&& forall|i: int| 0 <= i < idx.len() ==> (#[trigger] idx[i]) < pts.len()
    &&& forall|i: int| 0 <= i < idx.len() - 1 ==> (#[trigger] idx[i]) < idx[i + 1]
    &&& forall|i: int| 0 <= i < idx.len() ==> (#[trigger] r[i]) == pts[idx[i] as int]
}

/// A strictly increasing index sequence starting at `lo` satisfies
/// `idx[t] >= lo + t`.
proof fn lemma_mono_at(idx: Seq<usize>, lo: int, t: int)
    requires
        0 <= t < idx.len(),
        idx[0] == lo,
        forall|u: int| 0 <= u < idx.len() - 1 ==> (#[trigger] idx[u]) < idx[u + 1],
    ensures
        idx[t] >= lo + t,
    decreases t,
{
    if t > 0 {
        lemma_mono_at(idx, lo, t - 1);
        assert(idx[t - 1] < idx[t]);
    }
}

/// The distance from either chord endpoint to the chord's line is
/// zero.
proof fn lemma_chord_endpoints(a: Point, b: Point)
    ensures
        line_dist_sq_num(a, a, b) == 0,
        line_dist_sq_num(b, a, b) == 0,
{
    assert(dist_sq(a, a) == 0) by (nonlinear_arith);
    lemma_dist_sq_nonneg(a, b);
    assert(dist_sq(b, a) == dist_sq(a, b)) by (nonlinear_arith);
    if seg_len_sq(a, b) != 0 {
        assert(seg_cross(a, a, b) == 0) by (nonlinear_arith);
        assert(seg_cross(b, a, b) == 0) by (nonlinear_arith);
        assert(seg_cross(a, a, b) * seg_cross(a, a, b) == 0) by (nonlinear_arith)
            requires
                seg_cross(a, a, b) == 0,
        ;
        assert(seg_cross(b, a, b) * seg_cross(b, a, b) == 0) by (nonlinear_arith)
            requires
                seg_cross(b, a, b) == 0,
        ;
    }
}

/// The squared distance between two points is nonnegative.
pub proof fn lemma_dist_sq_nonneg(a: Point, b: Point)
    ensures
        0 <= dist_sq(a, b),
{
    assert(0 <= dist_sq(a, b)) by (nonlinear_arith);
}

/// `eps * eps * den` is nonnegative for the chord's denominator.
proof fn lemma_thresh_nonneg(eps: int, a: Point, b: Point)
    ensures
        0 <= eps * eps * seg_dist_sq_den(a, b),
{
    lemma_dist_sq_nonneg(a, b);
    let den = seg_dist_sq_den(a, b);
    assert(0 <= eps * eps * den) by (nonlinear_arith)
        requires
            0 <= den,
    ;
}

/// The squared line distance of candidate `c` for the chord from `lo`
/// to `hi`; zero for the sentinel `c == lo` (no candidate yet).
pub open spec fn dp_best_num(s: Seq<Point>, lo: int, hi: int, c: int) -> int {
    if c == lo {
        0
    } else {
        line_dist_sq_num(s[c], s[lo], s[hi])
    }
}

/// The interior point of `(lo, upto)` farthest from the chord's line,
/// scanning left to right and replacing the best only on a strictly
/// larger distance (so ties keep the earliest index); `lo` when no
/// interior point deviates at all.
pub open spec fn dp_best(s: Seq<Point>, lo: int, hi: int, upto: int) -> int
    decreases upto - lo,
{
    if upto <= lo + 1 {
        lo
    } else {
        let prev = dp_best(s, lo, hi, upto - 1);
        if line_dist_sq_num(s[upto - 1], s[lo], s[hi]) > dp_best_num(s, lo, hi, prev) {
            upto - 1
        } else {
            prev
        }
    }
}

/// The farthest-point scan returns the sentinel or an interior index.
proof fn lemma_dp_best_range(s: Seq<Point>, lo: int, hi: int, upto: int)
    ensures
        dp_best(s, lo, hi, upto) == lo || lo < dp_best(s, lo, hi, upto) < upto,
    decreases upto - lo,
{
    if upto > lo + 1 {
        lemma_dp_best_range(s, lo, hi, upto - 1);
    }
}

/// The exact Douglas-Peucker keep set for the index range `[lo, hi]`:
/// both endpoints, plus — when the farthest interior point deviates
/// from the chord's line by more than `eps` — the keep sets of the two
/// halves split at that point, joined without repeating the junction.
/// (The farthest point can lie strictly inside the range whenever it
/// deviates at all, so the inner range check only discharges the
/// recursion's termination.)
pub open spec fn dp_keep_set(s: Seq<Point>, lo: int, hi: int, eps: int) -> Seq<int>
    decreases hi - lo,
{
    if hi - lo < 2 {
        seq![lo, hi]
    } else {
        let k = dp_best(s, lo, hi, hi);
        if dp_best_num(s, lo, hi, k) > eps * eps * seg_dist_sq_den(s[lo], s[hi]) && lo < k < hi {
            dp_keep_set(s, lo, k, eps).drop_last() + dp_keep_set(s, k, hi, eps)
        } else {
            seq![lo, hi]
        }
    }
}

/// Recursive Douglas-Peucker on the index range `[lo, hi]`: returns
/// exactly the indices of `dp_keep_set`, strictly increasing and
/// always including both ends. The interior point farthest from the
/// chord's line (exact rational comparison, first maximum kept on
/// ties) splits the range when its distance exceeds `eps`; otherwise
/// the whole range collapses to its endpoints.
#[verifier::rlimit(90)]
fn dp_keep(points: &[Point], lo: usize, hi: usize, eps: i64) -> (keep: Vec<usize>)
    requires
        points_ok(points@),
        lo < hi < points@.len(),
        0 <= eps <= COORD_LIMIT,
    ensures
        keep@.len() >= 2,
        keep@[0] == lo,
        keep@[keep@.len() - 1] == hi,
        forall|t: int| 0 <= t < keep@.len() - 1 ==> (#[trigger] keep@[t]) < keep@[t + 1],
        forall|t: int| 0 <= t < keep@.len() ==> lo <= (#[trigger] keep@[t]) <= hi,
        covers(points@, keep@, eps as int, lo as int, hi as int),
        keep@.len() == dp_keep_set(points@, lo as int, hi as int, eps as int).len(),
        forall|t: int|
            0 <= t < keep@.len() ==> (#[trigger] keep@[t]) == dp_keep_set(
                points@,
                lo as int,
                hi as int,
                eps as int,
            )[t],
    decreases hi - lo,
{
    let a: Point = points[lo];
    let b: Point = points[hi];
    if hi - lo < 2 {
        let mut v: Vec<usize> = Vec::new();
        v.push(lo);
        v.push(hi);
        proof {
            lemma_chord_endpoints(a, b);
            lemma_thresh_nonneg(eps as int, a, b);
            assert forall|j: int| lo <= j <= hi implies covered_at(
                points@,
                v@,
                eps as int,
                j,
            ) by {
                assert(chord_at(points@, v@, eps as int, j, 0));
            }
            assert(dp_keep_set(points@, lo as int, hi as int, eps as int) =~= seq![
                lo as int,
                hi as int,
            ]);
        }
        return v;
    }
    let mut max_num: i128 = 0;
    let mut max_idx: usize = lo;
    let mut i: usize = lo + 1;
    while i < hi
        invariant
            points_ok(points@),
            lo < hi < points@.len(),
            lo + 1 <= i <= hi,
            a == points@[lo as int],
            b == points@[hi as int],
            max_num >= 0,
            max_idx as int == dp_best(points@, lo as int, hi as int, i as int),
            max_num == dp_best_num(points@, lo as int, hi as int, max_idx as int),
            max_idx == lo || lo < max_idx < i,
            forall|j: int|
                lo < j < i ==> #[trigger] line_dist_sq_num(points@[j], a, b) <= max_num,
        decreases hi - i,
    {
        let r = line_dist_sq_rat(&points[i], &a, &b);
        if r.0 > max_num {
            max_num = r.0;
            max_idx = i;
        }
        i = i + 1;
    }
    let len_sq = dist_sq_i128(&a, &b);
    let den: i128 = if len_sq == 0 {
        1
    } else {
        len_sq
    };
    proof {
        assert(den == seg_dist_sq_den(a, b));
        assert((eps as i128) * (eps as i128) <= 100_000_000_000_000) by (nonlinear_arith)
            requires
                0 <= eps <= 10_000_000,
        ;
        assert(0 <= (eps as int) * (eps as int) * den <= 100_000_000_000_000
            * 800_000_000_000_000) by (nonlinear_arith)
            requires
                0 <= (eps as int) * (eps as int) <= 100_000_000_000_000,
                1 <= den <= 800_000_000_000_000,
        ;
    }
    let thresh: i128 = (eps as i128) * (eps as i128) * den;
    if max_num > thresh {
        let mut left = dp_keep(points, lo, max_idx, eps);
        let right = dp_keep(points, max_idx, hi, eps);
        let ghost left0 = left@;
        left.pop();
        let mut j: usize = 0;
        while j < right.len()
            invariant
                0 <= j <= right@.len(),
                left@ == left0.drop_last() + right@.subrange(0, j as int),
            decreases right@.len() - j,
        {
            left.push(right[j]);
            proof {
                assert(left@ =~= left0.drop_last() + right@.subrange(0, j as int + 1));
            }
            j = j + 1;
        }
        proof {
            assert(right@.subrange(0, right@.len() as int) =~= right@);
            assert(left@ == left0.drop_last() + right@);
            let k = max_idx;
            let nl = left0.len() as int;
            assert(left0[nl - 1] == k);
            assert(right@[0] == k);
            // endpoints
            assert(left@[0] == left0[0]);
            assert(left@[left@.len() - 1] == right@[right@.len() - 1]);
            // every index of the concatenation agrees with left0 or right
            assert forall|t: int| 0 <= t < left@.len() implies lo <= (#[trigger] left@[t])
                <= hi by {
                if t < nl - 1 {
                    assert(left@[t] == left0[t]);
                } else {
                    assert(left@[t] == right@[t - (nl - 1)]);
                }
            }
            // strict monotonicity across the junction
            assert forall|t: int| 0 <= t < left@.len() - 1 implies (#[trigger] left@[t])
                < left@[t + 1] by {
                if t + 1 < nl - 1 {
                    assert(left@[t] == left0[t] && left@[t + 1] == left0[t + 1]);
                } else if t + 1 == nl - 1 {
                    assert(left@[t] == left0[t] && left@[t + 1] == right@[0]);
                    assert(left0[t] < left0[t + 1]);
                    assert(left0[t + 1] == right@[0]);
                } else {
                    assert(left@[t] == right@[t - (nl - 1)]);
                    assert(left@[t + 1] == right@[t + 1 - (nl - 1)]);
                }
            }
            // the approximation guarantee carries over chord by chord
            assert forall|p: int| lo <= p <= hi implies covered_at(
                points@,
                left@,
                eps as int,
                p,
            ) by {
                if p <= k {
                    assert(covered_at(points@, left0, eps as int, p));
                    let t = choose|t: int| chord_at(points@, left0, eps as int, p, t);
                    assert(left@[t] == left0[t]);
                    if t + 1 < nl - 1 {
                        assert(left@[t + 1] == left0[t + 1]);
                    } else {
                        assert(t + 1 == nl - 1);
                        assert(left@[t + 1] == right@[0]);
                    }
                    assert(chord_at(points@, left@, eps as int, p, t));
                } else {
                    assert(covered_at(points@, right@, eps as int, p));
                    let t = choose|t: int| chord_at(points@, right@, eps as int, p, t);
                    assert(left@[t + nl - 1] == right@[t]);
                    assert(left@[t + nl - 1 + 1] == right@[t + 1]);
                    assert(chord_at(points@, left@, eps as int, p, t + nl - 1));
                }
            }
            // the kept indices are exactly the spec keep set
            lemma_thresh_nonneg(eps as int, a, b);
            assert(lo < max_idx < hi);
            let set = dp_keep_set(points@, lo as int, hi as int, eps as int);
            let lset = dp_keep_set(points@, lo as int, k as int, eps as int);
            let rset = dp_keep_set(points@, k as int, hi as int, eps as int);
            assert(set == lset.drop_last() + rset);
            assert(left@.len() == set.len());
            assert forall|t: int| 0 <= t < left@.len() implies (#[trigger] left@[t])
                == set[t] by {
                if t < nl - 1 {
                    assert(left@[t] == left0[t]);
                    assert(set[t] == lset.drop_last()[t]);
                } else {
                    assert(left@[t] == right@[t - (nl - 1)]);
                    assert(set[t] == rset[t - (nl - 1)]);
                }
            }
        }
        left
    } else {
        let mut v: Vec<usize> = Vec::new();
        v.push(lo);
        v.push(hi);
        proof {
            lemma_chord_endpoints(a, b);
            lemma_thresh_nonneg(eps as int, a, b);
            assert forall|j: int| lo <= j <= hi implies covered_at(
                points@,
                v@,
                eps as int,
                j,
            ) by {
                if lo < j < hi {
                    assert(line_dist_sq_num(points@[j], a, b) <= max_num);
                }
                assert(chord_at(points@, v@, eps as int, j, 0));
            }
            assert(dp_keep_set(points@, lo as int, hi as int, eps as int) =~= seq![
                lo as int,
                hi as int,
            ]);
        }
        v
    }
}

/// The full simplification result: fewer than three points pass
/// through unchanged; otherwise the result reads the input exactly at
/// the Douglas-Peucker keep set. This pins the output completely, as
/// a function of the points and the tolerance alone.
pub open spec fn simplify_post(pts: Seq<Point>, eps: int, r: Seq<Point>) -> bool {
    if pts.len() < 3 {
        r == pts
    } else {
        let keep = dp_keep_set(pts, 0, pts.len() - 1, eps);
        r.len() == keep.len() && forall|i: int|
            0 <= i < r.len() ==> (#[trigger] r[i]) == pts[keep[i]]
    }
}

/// Simplification is deterministic: the contract pins the kept index
/// set as a function of the points and the tolerance alone, so any two
/// results that satisfy it for the same input are equal, point for
/// point.
pub proof fn lemma_simplify_deterministic(
    pts: Seq<Point>,
    eps: int,
    r1: Seq<Point>,
    r2: Seq<Point>,
)
    requires
        simplify_post(pts, eps, r1),
        simplify_post(pts, eps, r2),
    ensures
        r1 == r2,
{
    if pts.len() >= 3 {
        let keep = dp_keep_set(pts, 0, pts.len() - 1, eps);
        assert forall|i: int| 0 <= i < r1.len() implies r1[i] == r2[i] by {
            assert(r1[i] == pts[keep[i]]);
            assert(r2[i] == pts[keep[i]]);
        }
        assert(r1 =~= r2);
    }
}

/// Simplify a polyline with the Douglas-Peucker algorithm. Fewer than
/// three points are returned unchanged. Otherwise the result is the
/// input read at exactly the `dp_keep_set` indices: a subsequence that
/// keeps the first and last point, never grows, leaves every dropped
/// point within `epsilon` (milliunits) of the line through a kept
/// chord, and collapses to the two endpoints alone whenever no
/// interior point deviates from the first-to-last chord's line by more
/// than `epsilon`.
#[verifier::rlimit(50)]
pub fn simplify_stroke(points: &[Point], epsilon: i64) -> (r: Vec<Point>)
    requires
        points_ok(points@),
        0 <= epsilon <= COORD_LIMIT,
    ensures
        simplify_post(points@, epsilon as int, r@),
        points@.len() < 3 ==> r@ == points@,
        r@.len() <= points@.len(),
        points@.len() > 0 ==> {
            &&& r@.len() >= 1
            &&& r@[0] == points@[0]
            &&& r@[r@.len() - 1] == points@[points@.len() - 1]
        },
        points@.len() >= 3 ==> {
            &&& r@.len() >= 2
            &&& exists|idx: Seq<usize>|
                #[trigger] sampled_by(r@, points@, idx) && covers(
                    points@,
                    idx,
                    epsilon as int,
                    0,
                    points@.len() - 1,
                )
        },
        points@.len() >= 3 && (forall|j: int|
            0 < j < points@.len() - 1 ==> #[trigger] line_dist_sq_num(
                points@[j],
                points@[0],
                points@[points@.len() - 1],
            ) <= epsilon * epsilon * seg_dist_sq_den(
                points@[0],
                points@[points@.len() - 1],
            )) ==> (r@.len() == 2 && r@[0] == points@[0] && r@[1] == points@[points@.len() - 1]),
{
    if points.len() < 3 {
        let mut out: Vec<Point> = Vec::new();
        let mut i: usize = 0;
        while i < points.len()
            invariant
                0 <= i <= points@.len(),
                out@ == points@.subrange(0, i as int),
            decreases points@.len() - i,
        {
            out.push(points[i]);
            proof {
                assert(out@ =~= points@.subrange(0, i as int + 1));
            }
            i = i + 1;
        }
        proof {
            assert(points@.subrange(0, points@.len() as int) =~= points@);
        }
        return out;
    }
    let keep = dp_keep(points, 0, points.len() - 1, epsilon);
    let mut out: Vec<Point> = Vec::new();
    let mut i: usize = 0;
    while i < keep.len()
        invariant
            points_ok(points@),
            0 <= i <= keep@.len(),
            out@.len() == i,
            forall|t: int| 0 <= t < keep@.len() ==> (#[trigger] keep@[t]) < points@.len(),
            forall|t: int| 0 <= t < i ==> (#[trigger] out@[t]) == points@[keep@[t] as int],
        decreases keep@.len() - i,
    {
        let ki = keep[i];
        out.push(points[ki]);
        i = i + 1;
    }
    proof {
        assert(sampled_by(out@, points@, keep@));
        lemma_mono_at(keep@, 0, keep@.len() - 1);
        assert(keep@[keep@.len() - 1] >= keep@.len() - 1);
        assert(out@[0] == points@[keep@[0] as int]);
        assert(out@[out@.len() - 1] == points@[keep@[keep@.len() - 1] as int]);
        let n = points@.len() as int;
        let set = dp_keep_set(points@, 0, n - 1, epsilon as int);
        assert forall|t: int| 0 <= t < out@.len() implies (#[trigger] out@[t])
            == points@[set[t]] by {
            assert(keep@[t] == set[t]);
            assert(out@[t] == points@[keep@[t] as int]);
        }
        assert(simplify_post(points@, epsilon as int, out@));
        // the collapse case: with no interior point beyond epsilon of
        // the first-to-last chord's line, the keep set is the two ends
        if forall|j: int|
            0 < j < n - 1 ==> #[trigger] line_dist_sq_num(points@[j], points@[0], points@[n - 1])
                <= (epsilon as int) * (epsilon as int) * seg_dist_sq_den(
                points@[0],
                points@[n - 1],
            ) {
            lemma_dp_best_range(points@, 0, n - 1, n - 1);
            lemma_thresh_nonneg(epsilon as int, points@[0], points@[n - 1]);
            let k = dp_best(points@, 0, n - 1, n - 1);
            if k != 0 {
                assert(line_dist_sq_num(points@[k], points@[0], points@[n - 1]) <= (epsilon
                    as int) * (epsilon as int) * seg_dist_sq_den(points@[0], points@[n - 1]));
            }
            assert(set =~= seq![0int, n - 1]);
            assert(out@.len() == 2);
            assert(out@[0] == points@[0] && out@[1] == points@[n - 1]);
        }
    }
    out
}

// ---------------------------------------------------------------------
// Viewport normalization
// ---------------------------------------------------------------------

/// Numerator of the uniform scale factor `min(scale_x, scale_y)` that
/// fits a `w` by `h` ink box into the padded `tw` by `th` viewport.
pub open spec fn scale_num(tw: int, th: int, p: int, w: int, h: int) -> int {
    if (tw - 2 * p) * h <= (th - 2 * p) * w {
        tw - 2 * p
    } else {
        th - 2 * p
    }
}

/// Denominator of the uniform scale factor: the ink span whose scale
/// was the smaller one.
pub open spec fn scale_den(tw: int, th: int, p: int, w: int, h: int) -> int {
    if (tw - 2 * p) * h <= (th - 2 * p) * w {
        w
    } else {
        h
    }
}

/// One normalized coordinate: scale `v - mn` by `sn / sd` and center
/// the scaled span inside the target extent, rounded down to a
/// milliunit. `(v - mn) * s + (target - span * s) / 2` over the common
/// denominator `2 * sd`.
pub open spec fn norm_coord(v: int, mn: int, span: int, target: int, sn: int, sd: int) -> int {
    (2 * sn * (v - mn) + sd * target - sn * span) / (2 * sd)
}

/// A value scaled by `sn / sd`, rounded down.
pub open spec fn scaled_value(v: int, sn: int, sd: int) -> int {
    v * sn / sd
}

/// The output stroke is the input stroke mapped through the normalizing
/// transform of the box `(mnx, mny, w, h)` into `tw` by `th`.
pub open spec fn normed_stroke(
    orig: Stroke,
    out: Stroke,
    mnx: int,
    mny: int,
    w: int,
    h: int,
    tw: int,
    th: int,
    p: int,
) -> bool {
    let sn = scale_num(tw, th, p, w, h);
    let sd = scale_den(tw, th, p, w, h);
    &&& out.id@ == orig.id@
    &&& out.color@ == orig.color@
    &&& out.tool@ == orig.tool@
    &&& out.width == scaled_value(orig.width as int, sn, sd)
    &&& out.points@.len() == orig.points@.len()
    &&& forall|i: int|
        0 <= i < orig.points@.len() ==> {
            &&& (#[trigger] out.points@[i]).x == norm_coord(
                orig.points@[i].x as int,
                mnx,
                w,
                tw,
                sn,
                sd,
            )
            &&& out.points@[i].y == norm_coord(orig.points@[i].y as int, mny, h, th, sn, sd)
            &&& out.points@[i].pressure == orig.points@[i].pressure
            &&& out.points@[i].timestamp == orig.points@[i].timestamp
        }
}

/// The two strokes hold the same data, field by field.
pub open spec fn same_stroke(a: Stroke, b: Stroke) -> bool {
    &&& a.id@ == b.id@
    &&& a.points@ == b.points@
    &&& a.color@ == b.color@
    &&& a.width == b.width
    &&& a.tool@ == b.tool@
}

/// The two batches hold the same strokes, element by element.
pub open spec fn same_strokes(a: Seq<Stroke>, b: Seq<Stroke>) -> bool {
    a.len() == b.len() && forall|i: int| 0 <= i < a.len() ==> #[trigger] same_stroke(a[i], b[i])
}

/// Field-by-field copy of a batch of strokes.
fn copy_strokes(strokes: &[Stroke]) -> (r: Vec<Stroke>)
    ensures
        same_strokes(r@, strokes@),
{
    let mut out: Vec<Stroke> = Vec::new();
    let mut s: usize = 0;
    while s < strokes.len()
        invariant
            0 <= s <= strokes@.len(),
            out@.len() == s,
            forall|t: int| 0 <= t < s ==> #[trigger] same_stroke(out@[t], strokes@[t]),
        decreases strokes@.len() - s,
    {
        let st = &strokes[s];
        let mut pts: Vec<Point> = Vec::new();
        let mut i: usize = 0;
        while i < st.points.len()
            invariant
                0 <= i <= st.points@.len(),
                pts@ == st.points@.subrange(0, i as int),
            decreases st.points@.len() - i,
        {
            pts.push(st.points[i]);
            proof {
                assert(pts@ =~= st.points@.subrange(0, i as int + 1));
            }
            i = i + 1;
        }
        proof {
            assert(st.points@.subrange(0, st.points@.len() as int) =~= st.points@);
        }
        out.push(
            Stroke {
                id: st.id.clone(),
                points: pts,
                color: st.color.clone(),
                width: st.width,
                tool: st.tool.clone(),
            },
        );
        proof {
            assert(same_stroke(out@.last(), strokes@[s as int]));
        }
        s = s + 1;
    }
    out
}

/// One normalized coordinate, executable; exact floor division.
fn norm_coord_exec(v: i64, mn: i64, span: i64, target: i64, sn: i64, sd: i64) -> (r: i64)
    requires
        mn <= v,
        v - mn <= span,
        0 < span <= 40_000_000,
        0 < target <= COORD_LIMIT,
        0 < sn <= COORD_LIMIT,
        0 < sd <= 40_000_000,
        sn * span <= sd * target,
    ensures
        r == norm_coord(v as int, mn as int, span as int, target as int, sn as int, sd as int),
        0 <= r <= target,
{
    proof {
        assert(0 <= 2 * (sn as int) * (v - mn) <= 2 * (sn as int) * span) by (nonlinear_arith)
            requires
                0 <= v - mn <= span,
                0 < sn,
        ;
        assert(2 * (sn as int) * span <= 800_000_000_000_000) by (nonlinear_arith)
            requires
                0 < sn <= 10_000_000,
                0 < span <= 40_000_000,
        ;
        assert(0 < (sd as int) * target <= 400_000_000_000_000) by (nonlinear_arith)
            requires
                0 < sd <= 40_000_000,
                0 < target <= 10_000_000,
        ;
        assert(0 <= (sn as int) * span) by (nonlinear_arith)
            requires
                0 < sn,
                0 < span,
        ;
    }
    let num: i128 = 2 * (sn as i128) * ((v as i128) - (mn as i128)) + (sd as i128) * (target
        as i128) - (sn as i128) * (span as i128);
    let den: i128 = 2 * (sd as i128);
    proof {
        assert(num >= 0);
        let q = (num as int) / (den as int);
        assert(0 <= q <= target) by (nonlinear_arith)
            requires
                q == (num as int) / (den as int),
                0 <= num,
                num <= 2 * (sn as int) * span + (sd as int) * target - (sn as int) * span,
                (sn as int) * span <= (sd as int) * target,
                den == 2 * (sd as int),
                0 < sd,
                0 < target,
        ;
    }
    let r = num / den;
    r as i64
}

/// A nonnegative value scaled by `sn / sd`, executable.
fn scaled_value_exec(v: i64, sn: i64, sd: i64) -> (r: i64)
    requires
        0 <= v <= COORD_LIMIT,
        0 < sn <= COORD_LIMIT,
        0 < sd <= 40_000_000,
    ensures
        r == scaled_value(v as int, sn as int, sd as int),
        0 <= r,
{
    proof {
        assert(0 <= (v as int) * (sn as int) <= 100_000_000_000_000) by (nonlinear_arith)
            requires
                0 <= v <= 10_000_000,
                0 < sn <= 10_000_000,
        ;
        assert(0 <= (v as int) * (sn as int) / (sd as int) <= (v as int) * (sn as int))
            by (nonlinear_arith)
            requires
                0 <= (v as int) * (sn as int),
                0 < sd,
        ;
    }
    let r: i128 = (v as i128) * (sn as i128) / (sd as i128);
    r as i64
}

/// Rescale and recenter a whole batch of strokes so that its union
/// bounding box fits the `target_width` by `target_height` viewport
/// with `padding` on every side, preserving the aspect ratio by using
/// the single scale factor `min(scale_x, scale_y)`. Stroke widths are
/// scaled by the same factor; pressure and timestamps pass through.
/// An empty batch, or one whose box has no width or no height, is
/// returned unchanged.
#[verifier::rlimit(60)]
pub fn normalize_strokes(
    strokes: &[Stroke],
    target_width: i64,
    target_height: i64,
    padding: i64,
) -> (r: Vec<Stroke>)
    requires
        strokes_ok(strokes@),
        0 <= padding,
        2 * padding < target_width <= COORD_LIMIT,
        2 * padding < target_height <= COORD_LIMIT,
    ensures
        strokes@.len() == 0 ==> r@.len() == 0,
        strokes@.len() > 0 ==> exists|bb: (i64, i64, i64, i64)|
            {
                &&& #[trigger] union_bbox(strokes@, bb)
                &&& if bb.2 <= bb.0 || bb.3 <= bb.1 {
                    same_strokes(r@, strokes@)
                } else {
                    &&& r@.len() == strokes@.len()
                    &&& forall|s: int|
                        0 <= s < strokes@.len() ==> normed_stroke(
                            strokes@[s],
                            #[trigger] r@[s],
                            bb.0 as int,
                            bb.1 as int,
                            bb.2 - bb.0,
                            bb.3 - bb.1,
                            target_width as int,
                            target_height as int,
                            padding as int,
                        )
                }
            },
{
    let bbox = calculate_bounding_box(strokes);
    let (mnx, mny, mxx, mxy) = match bbox {
        Some(bb) => bb,
        None => {
            return copy_strokes(strokes);
        },
    };
    if mxx <= mnx || mxy <= mny {
        let r = copy_strokes(strokes);
        proof {
            let bb = (mnx, mny, mxx, mxy);
            assert(union_bbox(strokes@, bb) && (bb.2 <= bb.0 || bb.3 <= bb.1) && same_strokes(
                r@,
                strokes@,
            ));
        }
        return r;
    }
    proof {
        if !has_any_point(strokes@) {
            assert((mnx, mny, mxx, mxy) == (i64::MAX, i64::MAX, i64::MIN, i64::MIN));
        }
        let (s0, i0) = choose|s: int, i: int|
            #[trigger] valid_pt(strokes@, s, i) && batch_pt(strokes@, s, i).x == mnx;
        assert(point_ok(batch_pt(strokes@, s0, i0)));
        let (s1, i1) = choose|s: int, i: int|
            #[trigger] valid_pt(strokes@, s, i) && batch_pt(strokes@, s, i).x == mxx;
        assert(point_ok(batch_pt(strokes@, s1, i1)));
        let (s2, i2) = choose|s: int, i: int|
            #[trigger] valid_pt(strokes@, s, i) && batch_pt(strokes@, s, i).y == mny;
        assert(point_ok(batch_pt(strokes@, s2, i2)));
        let (s3, i3) = choose|s: int, i: int|
            #[trigger] valid_pt(strokes@, s, i) && batch_pt(strokes@, s, i).y == mxy;
        assert(point_ok(batch_pt(strokes@, s3, i3)));
    }
    let w: i64 = mxx - mnx;
    let h: i64 = mxy - mny;
    let sxn: i64 = target_width - 2 * padding;
    let syn: i64 = target_height - 2 * padding;
    proof {
        crate::geom::lemma_mul_bound(sxn as int, h as int, 10_000_000, 40_000_000);
        crate::geom::lemma_mul_bound(syn as int, w as int, 10_000_000, 40_000_000);
    }
    let pick_x: bool = (sxn as i128) * (h as i128) <= (syn as i128) * (w as i128);
    let (sn, sd): (i64, i64) = if pick_x {
        (sxn, w)
    } else {
        (syn, h)
    };
    proof {
        let tw = target_width as int;
        let th = target_height as int;
        let p = padding as int;
        assert(sn == scale_num(tw, th, p, w as int, h as int));
        assert(sd == scale_den(tw, th, p, w as int, h as int));
        if pick_x {
            assert((sn as int) * (w as int) <= (sd as int) * tw) by (nonlinear_arith)
                requires
                    sn == tw - 2 * p,
                    sd == w,
                    0 <= p,
                    0 < w,
                    0 < tw,
            ;
            assert((sn as int) * (h as int) <= (sd as int) * th) by (nonlinear_arith)
                requires
                    (sn as int) * (h as int) <= (th - 2 * p) * (w as int),
                    sd == w,
                    0 <= p,
                    0 < w,
                    0 < th,
            ;
        } else {
            assert((sn as int) * (w as int) <= (sd as int) * tw) by (nonlinear_arith)
                requires
                    (tw - 2 * p) * (h as int) > (sn as int) * (w as int),
                    sn == th - 2 * p,
                    sd == h,
                    0 <= p,
                    0 < h,
                    0 < tw,
            ;
            assert((sn as int) * (h as int) <= (sd as int) * th) by (nonlinear_arith)
                requires
                    sn == th - 2 * p,
                    sd == h,
                    0 <= p,
                    0 < h,
                    0 < th,
            ;
        }
    }
    let mut out: Vec<Stroke> = Vec::new();
    let mut s: usize = 0;
    while s < strokes.len()
        invariant
            strokes_ok(strokes@),
            0 <= s <= strokes@.len(),
            out@.len() == s,
            0 <= padding,
            2 * padding < target_width <= COORD_LIMIT,
            2 * padding < target_height <= COORD_LIMIT,
            mnx < mxx,
            mny < mxy,
            w == mxx - mnx,
            h == mxy - mny,
            coord_ok(mnx) && coord_ok(mxx) && coord_ok(mny) && coord_ok(mxy),
            sn == scale_num(
                target_width as int,
                target_height as int,
                padding as int,
                w as int,
                h as int,
            ),
            sd == scale_den(
                target_width as int,
                target_height as int,
                padding as int,
                w as int,
                h as int,
            ),
            0 < sn <= COORD_LIMIT,
            sd == w || sd == h,
            (sn as int) * (w as int) <= (sd as int) * (target_width as int),
            (sn as int) * (h as int) <= (sd as int) * (target_height as int),
            forall|t: int, i: int|
                #[trigger] valid_pt(strokes@, t, i) ==> {
                    &&& mnx <= batch_pt(strokes@, t, i).x <= mxx
                    &&& mny <= batch_pt(strokes@, t, i).y <= mxy
                },
            forall|t: int|
                0 <= t < s ==> normed_stroke(
                    strokes@[t],
                    #[trigger] out@[t],
                    mnx as int,
                    mny as int,
                    w as int,
                    h as int,
                    target_width as int,
                    target_height as int,
                    padding as int,
                ),
        decreases strokes@.len() - s,
    {
        let st = &strokes[s];
        let mut pts: Vec<Point> = Vec::new();
        let mut i: usize = 0;
        while i < st.points.len()
            invariant
                strokes_ok(strokes@),
                0 <= s < strokes@.len(),
                *st == strokes@[s as int],
                0 <= i <= st.points@.len(),
                pts@.len() == i,
                0 <= padding,
                2 * padding < target_width <= COORD_LIMIT,
                2 * padding < target_height <= COORD_LIMIT,
                mnx < mxx,
                mny < mxy,
                w == mxx - mnx,
                h == mxy - mny,
                coord_ok(mnx) && coord_ok(mxx) && coord_ok(mny) && coord_ok(mxy),
                0 < sn <= COORD_LIMIT,
                sd == w || sd == h,
                (sn as int) * (w as int) <= (sd as int) * (target_width as int),
                (sn as int) * (h as int) <= (sd as int) * (target_height as int),
                forall|t: int, j: int|
                    #[trigger] valid_pt(strokes@, t, j) ==> {
                        &&& mnx <= batch_pt(strokes@, t, j).x <= mxx
                        &&& mny <= batch_pt(strokes@, t, j).y <= mxy
                    },
                forall|j: int|
                    0 <= j < i ==> {
                        &&& (#[trigger] pts@[j]).x == norm_coord(
                            st.points@[j].x as int,
                            mnx as int,
                            w as int,
                            target_width as int,
                            sn as int,
                            sd as int,
                        )
                        &&& pts@[j].y == norm_coord(
                            st.points@[j].y as int,
                            mny as int,
                            h as int,
                            target_height as int,
                            sn as int,
                            sd as int,
                        )
                        &&& pts@[j].pressure == st.points@[j].pressure
                        &&& pts@[j].timestamp == st.points@[j].timestamp
                    },
            decreases st.points@.len() - i,
        {
            let pt = st.points[i];
            proof {
                assert(valid_pt(strokes@, s as int, i as int));
                assert(batch_pt(strokes@, s as int, i as int) == st.points@[i as int]);
            }
            let nx = norm_coord_exec(pt.x, mnx, w, target_width, sn, sd);
            let ny = norm_coord_exec(pt.y, mny, h, target_height, sn, sd);
            pts.push(
                Point { x: nx, y: ny, pressure: pt.pressure, timestamp: pt.timestamp },
            );
            i = i + 1;
        }
        let nw = scaled_value_exec(st.width, sn, sd);
        out.push(
            Stroke {
                id: st.id.clone(),
                points: pts,
                color: st.color.clone(),
                width: nw,
                tool: st.tool.clone(),
            },
        );
        s = s + 1;
    }
    proof {
        let bb = (mnx, mny, mxx, mxy);
        assert(union_bbox(strokes@, bb) && !(bb.2 <= bb.0 || bb.3 <= bb.1));
    }
    out
}

/// Floor division brackets the dividend: `d * (n / d)` is at most `n`
/// and within `d` below it.
proof fn lemma_floor_div_bounds(n: int, d: int)
    requires
        d > 0,
    ensures
        d * (n / d) <= n < d * (n / d) + d,
{
    vstd::arithmetic::div_mod::lemma_fundamental_div_mod(n, d);
    vstd::arithmetic::div_mod::lemma_mod_division_less_than_divisor(n, d);
}

/// The normalizing transform is monotone in the coordinate: a point
/// further right (or down) never moves left of (or above) one before
/// it, so the normalized box spans are the transforms of the input
/// extremes.
pub proof fn lemma_norm_coord_monotone(
    v1: int,
    v2: int,
    mn: int,
    span: int,
    target: int,
    sn: int,
    sd: int,
)
    requires
        v1 <= v2,
        sn >= 0,
        sd > 0,
    ensures
        norm_coord(v1, mn, span, target, sn, sd) <= norm_coord(v2, mn, span, target, sn, sd),
{
    assert(2 * sn * (v1 - mn) <= 2 * sn * (v2 - mn)) by (nonlinear_arith)
        requires
            v1 <= v2,
            sn >= 0,
    ;
    vstd::arithmetic::div_mod::lemma_div_is_ordered(
        2 * sn * (v1 - mn) + sd * target - sn * span,
        2 * sn * (v2 - mn) + sd * target - sn * span,
        2 * sd,
    );
}

/// Normalization preserves aspect ratio: both spans of the ink box are
/// scaled by the one factor `scale_num / scale_den`, each to within
/// one milliunit of rounding — `sd * rw` lies strictly within `sd` of
/// `sn * w`, and likewise for the height — so the width-to-height
/// ratio of the normalized box matches the ink box's ratio up to that
/// rounding slack: cross-multiplied, `|rw * h - rh * w| < w + h`.
/// Here `rw` and `rh` are the normalized spans, the differences of the
/// transforms of the box extremes (which bound the whole output box,
/// by `lemma_norm_coord_monotone`).
pub proof fn lemma_normalize_preserves_aspect_ratio(
    tw: int,
    th: int,
    p: int,
    mnx: int,
    mny: int,
    w: int,
    h: int,
)
    requires
        0 < w,
        0 < h,
        0 <= p,
        2 * p < tw,
        2 * p < th,
    ensures
        ({
            let sn = scale_num(tw, th, p, w, h);
            let sd = scale_den(tw, th, p, w, h);
            let rw = norm_coord(mnx + w, mnx, w, tw, sn, sd) - norm_coord(
                mnx,
                mnx,
                w,
                tw,
                sn,
                sd,
            );
            let rh = norm_coord(mny + h, mny, h, th, sn, sd) - norm_coord(
                mny,
                mny,
                h,
                th,
                sn,
                sd,
            );
            &&& sn > 0
            &&& sd > 0
            &&& sn * w - sd < sd * rw < sn * w + sd
            &&& sn * h - sd < sd * rh < sn * h + sd
            &&& -(w + h) < rw * h - rh * w < w + h
        }),
{
    let sn = scale_num(tw, th, p, w, h);
    let sd = scale_den(tw, th, p, w, h);
    let nwhi = 2 * sn * ((mnx + w) - mnx) + sd * tw - sn * w;
    let nwlo = 2 * sn * (mnx - mnx) + sd * tw - sn * w;
    let nhhi = 2 * sn * ((mny + h) - mny) + sd * th - sn * h;
    let nhlo = 2 * sn * (mny - mny) + sd * th - sn * h;
    let rw = nwhi / (2 * sd) - nwlo / (2 * sd);
    let rh = nhhi / (2 * sd) - nhlo / (2 * sd);
    lemma_floor_div_bounds(nwhi, 2 * sd);
    lemma_floor_div_bounds(nwlo, 2 * sd);
    lemma_floor_div_bounds(nhhi, 2 * sd);
    lemma_floor_div_bounds(nhlo, 2 * sd);
    assert(sn * w - sd < sd * rw < sn * w + sd) by (nonlinear_arith)
        requires
            sd > 0,
            nwhi == 2 * sn * w + sd * tw - sn * w,
            nwlo == sd * tw - sn * w,
            2 * sd * (nwhi / (2 * sd)) <= nwhi < 2 * sd * (nwhi / (2 * sd)) + 2 * sd,
            2 * sd * (nwlo / (2 * sd)) <= nwlo < 2 * sd * (nwlo / (2 * sd)) + 2 * sd,
            rw == nwhi / (2 * sd) - nwlo / (2 * sd),
    ;
    assert(sn * h - sd < sd * rh < sn * h + sd) by (nonlinear_arith)
        requires
            sd > 0,
            nhhi == 2 * sn * h + sd * th - sn * h,
            nhlo == sd * th - sn * h,
            2 * sd * (nhhi / (2 * sd)) <= nhhi < 2 * sd * (nhhi / (2 * sd)) + 2 * sd,
            2 * sd * (nhlo / (2 * sd)) <= nhlo < 2 * sd * (nhlo / (2 * sd)) + 2 * sd,
            rh == nhhi / (2 * sd) - nhlo / (2 * sd),
    ;
    assert(-(w + h) < rw * h - rh * w < w + h) by (nonlinear_arith)
        requires
            sd > 0,
            0 < w,
            0 < h,
            sn * w - sd < sd * rw < sn * w + sd,
            sn * h - sd < sd * rh < sn * h + sd,
    ;
}

} // verus!
