//! Pure distance functions over points and point pairs.
//!
//! Points carry bounded integer coordinates, so squared norms, the integer
//! square root and path-length sums all stay inside `u64` range.

use vstd::prelude::*;

verus! {

/// Largest coordinate magnitude a point may carry.
pub const COORD_LIMIT: i64 = 1_000_000_000;

/// Largest number of points a single track may carry.
pub const MAX_TRACK_POINTS: usize = 1_000_000;

/// Upper bound on the distance between two valid points.
pub const MAX_POINT_DIST: u64 = 3_000_000_000;

/// A 2-D projected coordinate; immutable once read from the source track.
#[derive(Clone, Copy, PartialEq, Eq, Structural, Debug)]
pub struct Point {
    pub x: i64,
    pub y: i64,
}

/// Both coordinates within the configured magnitude bound.
pub open spec fn valid_point(p: Point) -> bool {
    -COORD_LIMIT <= p.x <= COORD_LIMIT && -COORD_LIMIT <= p.y <= COORD_LIMIT
}

/// Every point of the sequence is valid.
pub open spec fn valid_pts(s: Seq<Point>) -> bool {
    forall|k: int| 0 <= k < s.len() ==> valid_point(#[trigger] s[k])
}

/// `r` is the floor of the square root of `n`.
pub open spec fn is_sqrt(n: nat, r: nat) -> bool {
    r * r <= n < (r + 1) * (r + 1)
}

/// The floor of the square root of `n`.
pub closed spec fn sqrt_floor(n: nat) -> nat {
    choose|r: nat| #[trigger] is_sqrt(n, r)
}

pub proof fn lemma_sqrt_exists(n: nat)
    ensures
        exists|r: nat| #[trigger] is_sqrt(n, r),
    decreases n,
{
    if n == 0 {
        assert(0nat * 0nat == 0 && (0nat + 1) * (0nat + 1) == 1) by (nonlinear_arith);
        assert(is_sqrt(0, 0));
    } else {
        lemma_sqrt_exists((n - 1) as nat);
        let r = choose|r: nat| #[trigger] is_sqrt((n - 1) as nat, r);
        if n < (r + 1) * (r + 1) {
            assert(is_sqrt(n, r));
        } else {
            assert(n == (r + 1) * (r + 1));
            assert((r + 1) * (r + 1) < (r + 2) * (r + 2)) by (nonlinear_arith);
            assert(is_sqrt(n, r + 1));
        }
    }
}

pub proof fn lemma_sqrt_unique(n: nat, a: nat, b: nat)
    requires
        is_sqrt(n, a),
        is_sqrt(n, b),
    ensures
        a == b,
{
    if a < b {
        assert((a + 1) * (a + 1) <= b * b) by (nonlinear_arith)
            requires a + 1 <= b;
    }
    if b < a {
        assert((b + 1) * (b + 1) <= a * a) by (nonlinear_arith)
            requires b + 1 <= a;
    }
}

pub proof fn lemma_sqrt_floor_is(n: nat)
    ensures
        is_sqrt(n, sqrt_floor(n)),
{
    lemma_sqrt_exists(n);
}

/// Floor of the integer square root, by binary search.
pub fn isqrt(n: u64) -> (r: u64)
    requires
        n <= 8_000_000_000_000_000_000,
    ensures
        is_sqrt(n as nat, r as nat),
        r < MAX_POINT_DIST,
{
    let mut lo: u64 = 0;
    let mut hi: u64 = MAX_POINT_DIST;
    while lo + 1 < hi
        invariant
            lo < hi <= MAX_POINT_DIST,
            (lo as nat) * (lo as nat) <= n as nat,
            (n as nat) < (hi as nat) * (hi as nat),
        decreases hi - lo,
    {
        let mid = lo + (hi - lo) / 2;
        assert(mid * mid <= 9_000_000_000_000_000_000) by (nonlinear_arith)
            requires mid <= 3_000_000_000u64;
        if mid * mid <= n {
            lo = mid;
        } else {
            hi = mid;
        }
    }
    lo
}

/// Squared Euclidean distance, exact.
pub open spec fn sq_dist(p: Point, q: Point) -> nat {
    ((p.x - q.x) * (p.x - q.x) + (p.y - q.y) * (p.y - q.y)) as nat
}

/// Euclidean distance between two points, rounded down to an integer.
pub open spec fn dist(p: Point, q: Point) -> nat {
    sqrt_floor(sq_dist(p, q))
}

pub proof fn lemma_sq_dist_bound(p: Point, q: Point)
    requires
        valid_point(p),
        valid_point(q),
    ensures
        sq_dist(p, q) <= 8_000_000_000_000_000_000,
{
    let dx = p.x - q.x;
    let dy = p.y - q.y;
    assert(dx * dx <= 4_000_000_000_000_000_000) by (nonlinear_arith)
        requires -2_000_000_000 <= dx <= 2_000_000_000;
    assert(dy * dy <= 4_000_000_000_000_000_000) by (nonlinear_arith)
        requires -2_000_000_000 <= dy <= 2_000_000_000;
    assert(dx * dx >= 0) by (nonlinear_arith);
    assert(dy * dy >= 0) by (nonlinear_arith);
}

pub proof fn lemma_dist_symmetric(p: Point, q: Point)
    ensures
        dist(p, q) == dist(q, p),
{
    assert(sq_dist(p, q) == sq_dist(q, p)) by (nonlinear_arith);
}

pub proof fn lemma_dist_bound(p: Point, q: Point)
    requires
        valid_point(p),
        valid_point(q),
    ensures
        dist(p, q) < MAX_POINT_DIST,
{
    lemma_sq_dist_bound(p, q);
    lemma_sqrt_floor_is(sq_dist(p, q));
    let r = sqrt_floor(sq_dist(p, q));
    if r >= MAX_POINT_DIST {
        assert(r * r >= 9_000_000_000_000_000_000) by (nonlinear_arith)
            requires r >= 3_000_000_000;
    }
}

/// Euclidean distance between two points.
pub fn euclidean_distance(p1: &Point, p2: &Point) -> (d: u64)
    requires
        valid_point(*p1),
        valid_point(*p2),
    ensures
        d as nat == dist(*p1, *p2),
        d < MAX_POINT_DIST,
{
    proof {
        lemma_sq_dist_bound(*p1, *p2);
    }
    let dx = p1.x - p2.x;
    let dy = p1.y - p2.y;
    assert(dx * dx <= 4_000_000_000_000_000_000 && dx * dx >= 0) by (nonlinear_arith)
        requires -2_000_000_000 <= dx <= 2_000_000_000;
    assert(dy * dy <= 4_000_000_000_000_000_000 && dy * dy >= 0) by (nonlinear_arith)
        requires -2_000_000_000 <= dy <= 2_000_000_000;
    let sq = (dx * dx) as u64 + (dy * dy) as u64;
    let r = isqrt(sq);
    proof {
        lemma_sqrt_floor_is(sq_dist(*p1, *p2));
        lemma_sqrt_unique(sq_dist(*p1, *p2), r as nat, sqrt_floor(sq_dist(*p1, *p2)));
    }
    r
}

pub open spec fn min_nat(a: nat, b: nat) -> nat {
    if a <= b { a } else { b }
}

/// Distance between two line segments, approximated as the minimum of the
/// four endpoint-to-endpoint distances (deliberately not true
/// segment-to-segment distance; downstream behaviour depends on exactly this
/// approximation).
pub open spec fn spec_segments_distance(p11: Point, p12: Point, p21: Point, p22: Point) -> nat {
    min_nat(
        min_nat(dist(p11, p21), dist(p11, p22)),
        min_nat(dist(p12, p21), dist(p12, p22)),
    )
}

pub proof fn lemma_segments_distance_symmetric(p11: Point, p12: Point, p21: Point, p22: Point)
    ensures
        spec_segments_distance(p11, p12, p21, p22) == spec_segments_distance(p21, p22, p11, p12),
{
    lemma_dist_symmetric(p11, p21);
    lemma_dist_symmetric(p11, p22);
    lemma_dist_symmetric(p12, p21);
    lemma_dist_symmetric(p12, p22);
}

/// Minimum of the four endpoint-to-endpoint distances of two segments.
pub fn line_segments_distance(p11: &Point, p12: &Point, p21: &Point, p22: &Point) -> (d: u64)
    requires
        valid_point(*p11),
        valid_point(*p12),
        valid_point(*p21),
        valid_point(*p22),
    ensures
        d as nat == spec_segments_distance(*p11, *p12, *p21, *p22),
        d < MAX_POINT_DIST,
{
    let d1 = euclidean_distance(p11, p21);
    let d2 = euclidean_distance(p11, p22);
    let d3 = euclidean_distance(p12, p21);
    let d4 = euclidean_distance(p12, p22);
    let m1 = if d1 <= d2 { d1 } else { d2 };
    let m2 = if d3 <= d4 { d3 } else { d4 };
    if m1 <= m2 { m1 } else { m2 }
}

/// Sum of the distances between consecutive points of `pts` whose indices
/// both lie in `[i, j)`.
pub open spec fn path_len(pts: Seq<Point>, i: int, j: int) -> nat
    decreases j - i,
{
    if i < 0 || j > pts.len() || j - i < 2 {
        0
    } else {
        dist(pts[i], pts[i + 1]) + path_len(pts, i + 1, j)
    }
}

/// A path may be split at any interior point: the edge sets of the two halves
/// partition the edge set of the whole.
pub proof fn lemma_path_len_split(pts: Seq<Point>, a: int, m: int, b: int)
    requires
        0 <= a <= m < b <= pts.len(),
    ensures
        path_len(pts, a, b) == path_len(pts, a, m + 1) + path_len(pts, m, b),
    decreases m - a,
{
    if m == a {
        assert(path_len(pts, a, a + 1) == 0);
    } else {
        lemma_path_len_split(pts, a + 1, m, b);
    }
}

pub proof fn lemma_path_len_bound(pts: Seq<Point>, i: int, j: int)
    requires
        valid_pts(pts),
        0 <= i <= j <= pts.len(),
    ensures
        i < j ==> path_len(pts, i, j) <= (j - i - 1) * (MAX_POINT_DIST as nat),
        path_len(pts, i, j) <= (j - i) * (MAX_POINT_DIST as nat),
    decreases j - i,
{
    if j - i >= 2 {
        lemma_dist_bound(pts[i], pts[i + 1]);
        lemma_path_len_bound(pts, i + 1, j);
        assert((j - i - 2) * (MAX_POINT_DIST as nat) + MAX_POINT_DIST as nat
            == (j - i - 1) * (MAX_POINT_DIST as nat)) by (nonlinear_arith);
    } else if i < j {
        assert((j - i - 1) * (MAX_POINT_DIST as nat) >= 0) by (nonlinear_arith)
            requires j - i - 1 >= 0;
    }
    assert((j - i - 1) * (MAX_POINT_DIST as nat) <= (j - i) * (MAX_POINT_DIST as nat))
        by (nonlinear_arith)
        requires j - i - 1 >= 0 || j == i;
}

/// Path length over a window of a subrange equals path length over the
/// corresponding window of the full sequence.
pub proof fn lemma_path_len_subrange(pts: Seq<Point>, a: int, b: int, i: int, j: int)
    requires
        0 <= a <= b <= pts.len(),
        0 <= i,
        j <= b - a,
    ensures
        path_len(pts.subrange(a, b), i, j) == path_len(pts, a + i, a + j),
    decreases j - i,
{
    if j - i >= 2 {
        lemma_path_len_subrange(pts, a, b, i + 1, j);
    }
}

/// Path length of `pts` between indices `start` (inclusive) and `end`
/// (exclusive): the sum of the distances of consecutive point pairs that both
/// lie inside the window.
pub fn path_length(pts: &Vec<Point>, start: usize, end: usize) -> (total: u64)
    requires
        start <= end <= pts@.len(),
        pts@.len() <= MAX_TRACK_POINTS,
        valid_pts(pts@),
    ensures
        total as nat == path_len(pts@, start as int, end as int),
        total as nat <= (end - start) * (MAX_POINT_DIST as nat),
{
    proof {
        lemma_path_len_bound(pts@, start as int, end as int);
    }
    if end - start < 2 {
        return 0;
    }
    let mut total: u64 = 0;
    let mut k: usize = start;
    while k + 1 < end
        invariant
            start <= k < end <= pts@.len(),
            pts@.len() <= MAX_TRACK_POINTS,
            valid_pts(pts@),
            total as nat == path_len(pts@, start as int, k + 1),
            total as nat <= (k - start) * (MAX_POINT_DIST as nat),
        decreases end - k,
    {
        let d = euclidean_distance(&pts[k], &pts[k + 1]);
        proof {
            lemma_path_len_split(pts@, start as int, k as int, k + 2);
            assert(path_len(pts@, k as int, k + 2)
                == dist(pts@[k as int], pts@[k + 1]) + path_len(pts@, k + 1, k + 2));
            assert(path_len(pts@, k + 1, k + 2) == 0);
            lemma_path_len_bound(pts@, start as int, k + 2);
            assert((k - start) * (MAX_POINT_DIST as nat) + MAX_POINT_DIST as nat
                == (k + 1 - start) * (MAX_POINT_DIST as nat)) by (nonlinear_arith);
            assert((k + 1 - start) * (MAX_POINT_DIST as nat)
                <= 1_000_000 * (MAX_POINT_DIST as nat)) by (nonlinear_arith)
                requires k + 1 - start <= 1_000_000;
        }
        total = total + d;
        k = k + 1;
    }
    total
}

} // verus!
