//! Chunks — contiguous index sub-ranges of a track — and the proximity scan
//! that finds where one chunk passes close to another (or to itself).
//!
//! All thresholds are dimensionless multiples of a chunk's own average
//! neighbour distance, so behaviour is scale-invariant. Averages are never
//! divided out: every comparison `d < R * (total / edges)` is carried out
//! exactly as `d * edges < R * total`.

use vstd::prelude::*;

use crate::geom_utils::dist;
use crate::geom_utils::euclidean_distance;
use crate::geom_utils::line_segments_distance;
use crate::geom_utils::lemma_path_len_subrange;
use crate::geom_utils::path_len;
use crate::geom_utils::path_length;
use crate::geom_utils::spec_segments_distance;
use crate::geom_utils::valid_pts;
use crate::geom_utils::Point;
use crate::geom_utils::MAX_TRACK_POINTS;

verus! {

/// How close two path segments must be, in units of average neighbour
/// distance, to count as "the same place".
pub const POINT_DISTANCE_THRESHOLD: u64 = 2;

/// How far a point must have moved away, in units of average neighbour
/// distance, before it may be compared with its own track again.
pub const SELF_INTERSECTION_SAFETY_DISTANCE: u64 = 5;

/// Minimum path length of a surviving chunk, in units of average neighbour
/// distance.
pub const CHUNK_DISTANCE_THRESHOLD: u64 = 4;

/// A coalesced run of a chunk's edge indices found close to some other
/// geometry; a closed range, local to the scanned chunk.
#[derive(Clone, Copy, PartialEq, Eq, Structural, Debug)]
pub struct Intersection {
    pub start: usize,
    pub end: usize,
}

/// A contiguous sub-range `[start, end)` of the points of one parent track,
/// treated as a standalone geometric unit. Tracks live in an arena (a list of
/// point sequences) and are referenced by index.
#[derive(Clone, Copy, PartialEq, Eq, Structural, Debug)]
pub struct Chunk {
    pub parent: usize,
    pub start: usize,
    pub end: usize,
}

/// The point sequences of an arena of tracks.
pub open spec fn views(tracks: Seq<Vec<Point>>) -> Seq<Seq<Point>> {
    tracks.map_values(|t: Vec<Point>| t@)
}

/// A track the engine may work on: at least two points, bounded size, valid
/// coordinates.
pub open spec fn track_wf(s: Seq<Point>) -> bool {
    2 <= s.len() <= MAX_TRACK_POINTS && valid_pts(s)
}

pub open spec fn tracks_all_wf(ts: Seq<Seq<Point>>) -> bool {
    forall|i: int| 0 <= i < ts.len() ==> track_wf(#[trigger] ts[i])
}

/// A chunk that refers to an existing track and spans at least two points.
pub open spec fn chunk_valid(c: Chunk, ts: Seq<Seq<Point>>) -> bool {
    &&& (c.parent as int) < ts.len()
    &&& c.start + 2 <= c.end <= ts[c.parent as int].len()
}

/// Number of consecutive-point edges of a point sequence.
pub open spec fn edges_of(s: Seq<Point>) -> nat {
    if s.len() >= 1 { (s.len() - 1) as nat } else { 0 }
}

/// Total path length of a point sequence.
pub open spec fn total_len(s: Seq<Point>) -> nat {
    path_len(s, 0, s.len() as int)
}

/// `d` is below `POINT_DISTANCE_THRESHOLD` times the smaller of the two
/// chunks' average neighbour distances (compared exactly, cross-multiplied).
pub open spec fn within_point_threshold(d: nat, s: Seq<Point>, o: Seq<Point>) -> bool {
    &&& d * edges_of(s) < POINT_DISTANCE_THRESHOLD * total_len(s)
    &&& d * edges_of(o) < POINT_DISTANCE_THRESHOLD * total_len(o)
}

/// `d` exceeds `SELF_INTERSECTION_SAFETY_DISTANCE` times the chunk's average
/// neighbour distance.
pub open spec fn beyond_safety(d: nat, s: Seq<Point>) -> bool {
    d * edges_of(s) > SELF_INTERSECTION_SAFETY_DISTANCE * total_len(s)
}

/// Smallest index `>= j` whose point lies beyond the safety distance from
/// point `i`; the sequence length when there is none.
pub open spec fn first_beyond_from(s: Seq<Point>, i: int, j: int) -> int
    decreases s.len() - j,
{
    if j < 0 || j >= s.len() {
        s.len() as int
    } else if beyond_safety(dist(s[j], s[i]), s) {
        j
    } else {
        first_beyond_from(s, i, j + 1)
    }
}

pub open spec fn first_beyond_after(s: Seq<Point>, i: int) -> int {
    first_beyond_from(s, i, i + 1)
}

/// Largest index `<= j` whose point lies beyond the safety distance from
/// point `i`; `-1` when there is none.
pub open spec fn last_beyond_from(s: Seq<Point>, i: int, j: int) -> int
    decreases j + 1,
{
    if j < 0 {
        -1
    } else if j >= s.len() {
        -1
    } else if beyond_safety(dist(s[j], s[i]), s) {
        j
    } else {
        last_beyond_from(s, i, j - 1)
    }
}

pub open spec fn last_beyond_before(s: Seq<Point>, i: int) -> int {
    last_beyond_from(s, i, i - 1)
}

/// Whether edge `k` of `o` belongs to the search space for probe index `i`.
/// Scanning another chunk searches every edge; scanning a chunk against
/// itself searches only the two sub-ranges beyond the safety distance from
/// point `i`.
pub open spec fn edge_in_search(o: Seq<Point>, i: int, k: int, other_is_self: bool) -> bool {
    &&& 0 <= k
    &&& k + 1 < o.len()
    &&& (other_is_self ==> (k + 1 < last_beyond_before(o, i) || k >= first_beyond_after(o, i)))
}

/// Whether edge `i` of `s` passes within the point threshold of some searched
/// edge of `o`.
pub open spec fn is_close_at(s: Seq<Point>, o: Seq<Point>, i: int, other_is_self: bool) -> bool {
    exists|k: int|
        #[trigger] edge_in_search(o, i, k, other_is_self) && within_point_threshold(
            spec_segments_distance(s[i], s[i + 1], o[k], o[k + 1]),
            s,
            o,
        )
}

/// One step of the coalescing scan: when edge `i` is close, either extend the
/// preceding intersection (when point `i` is still within the point threshold
/// of its end point) or start a new one.
pub open spec fn merge_step(
    acc: Seq<Intersection>,
    s: Seq<Point>,
    o: Seq<Point>,
    i: int,
    other_is_self: bool,
) -> Seq<Intersection> {
    if !is_close_at(s, o, i, other_is_self) {
        acc
    } else if acc.len() > 0 && within_point_threshold(
        dist(s[acc.last().end as int], s[i]),
        s,
        o,
    ) {
        acc.update(acc.len() - 1, Intersection { start: acc.last().start, end: i as usize })
    } else {
        acc.push(Intersection { start: i as usize, end: i as usize })
    }
}

/// The coalesced intersections found by scanning edges `0 .. n` of `s`.
pub open spec fn close_ranges_upto(
    s: Seq<Point>,
    o: Seq<Point>,
    n: int,
    other_is_self: bool,
) -> Seq<Intersection>
    decreases n,
{
    if n <= 0 {
        Seq::empty()
    } else {
        merge_step(close_ranges_upto(s, o, n - 1, other_is_self), s, o, n - 1, other_is_self)
    }
}

/// The coalesced list of index ranges of `s` where it passes close to `o`:
/// maximal contiguous runs, never overlapping, in index order.
pub open spec fn close_ranges(s: Seq<Point>, o: Seq<Point>, other_is_self: bool) -> Seq<
    Intersection,
> {
    close_ranges_upto(s, o, s.len() - 1, other_is_self)
}

/// Intersection ranges that are ordered, disjoint and bounded.
pub open spec fn ranges_wf(rs: Seq<Intersection>, bound: int) -> bool {
    &&& forall|m: int| 0 <= m < rs.len() ==> (#[trigger] rs[m]).start <= rs[m].end < bound
    &&& forall|m: int| 0 <= m < rs.len() - 1 ==> (#[trigger] rs[m]).end < rs[m + 1].start
}

pub proof fn lemma_close_ranges_wf(s: Seq<Point>, o: Seq<Point>, n: int, other_is_self: bool)
    requires
        n <= usize::MAX,
    ensures
        ranges_wf(close_ranges_upto(s, o, n, other_is_self), n),
    decreases n,
{
    if n > 0 {
        lemma_close_ranges_wf(s, o, n - 1, other_is_self);
        let acc = close_ranges_upto(s, o, n - 1, other_is_self);
        let out = close_ranges_upto(s, o, n, other_is_self);
        if is_close_at(s, o, n - 1, other_is_self) {
            if acc.len() > 0 && within_point_threshold(
                dist(s[acc.last().end as int], s[n - 1]),
                s,
                o,
            ) {
                assert(out[out.len() - 1].end == n - 1);
                assert(forall|m: int| 0 <= m < out.len() - 1 ==> out[m] == acc[m]);
            } else {
                assert(forall|m: int| 0 <= m < acc.len() ==> out[m] == acc[m]);
            }
        }
    }
}

/// A scan that found nothing is exactly a scan with no close edge.
pub proof fn lemma_close_ranges_upto_empty(
    s: Seq<Point>,
    o: Seq<Point>,
    n: int,
    other_is_self: bool,
)
    ensures
        (close_ranges_upto(s, o, n, other_is_self).len() == 0) <==> (forall|i: int|
            0 <= i < n ==> !is_close_at(s, o, i, other_is_self)),
    decreases n,
{
    if n > 0 {
        lemma_close_ranges_upto_empty(s, o, n - 1, other_is_self);
    }
}

/// Whether `s` finds any close range against `o` (full scan, both ways) is
/// symmetric: the point threshold takes the smaller of the two averages and
/// the segment distance approximation is symmetric.
pub proof fn lemma_cross_close_symmetric(s: Seq<Point>, o: Seq<Point>)
    ensures
        (close_ranges(s, o, false).len() == 0) <==> (close_ranges(o, s, false).len() == 0),
{
    lemma_close_ranges_upto_empty(s, o, s.len() - 1, false);
    lemma_close_ranges_upto_empty(o, s, o.len() - 1, false);
    assert forall|i: int, k: int|
        0 <= i < s.len() - 1 && #[trigger] edge_in_search(o, i, k, false)
            && within_point_threshold(
            spec_segments_distance(s[i], s[i + 1], o[k], o[k + 1]),
            s,
            o,
        ) implies is_close_at(o, s, k, false) by {
        crate::geom_utils::lemma_segments_distance_symmetric(s[i], s[i + 1], o[k], o[k + 1]);
        assert(edge_in_search(s, k, i, false));
    }
    assert forall|i: int, k: int|
        0 <= i < o.len() - 1 && #[trigger] edge_in_search(s, i, k, false)
            && within_point_threshold(
            spec_segments_distance(o[i], o[i + 1], s[k], s[k + 1]),
            o,
            s,
        ) implies is_close_at(s, o, k, false) by {
        crate::geom_utils::lemma_segments_distance_symmetric(o[i], o[i + 1], s[k], s[k + 1]);
        assert(edge_in_search(o, k, i, false));
    }
}

/// Exact comparison `d * e < ratio * t` without overflow.
fn lt_scaled(d: u64, e: u64, ratio: u64, t: u64) -> (r: bool)
    ensures
        r == ((d as nat) * (e as nat) < (ratio as nat) * (t as nat)),
{
    assert((d as u128) * (e as u128) < 0x1_0000_0000_0000_0000_0000_0000_0000_0000)
        by (nonlinear_arith)
        requires d <= 0xffff_ffff_ffff_ffffu128, e <= 0xffff_ffff_ffff_ffffu128;
    assert((ratio as u128) * (t as u128) < 0x1_0000_0000_0000_0000_0000_0000_0000_0000)
        by (nonlinear_arith)
        requires ratio <= 0xffff_ffff_ffff_ffffu128, t <= 0xffff_ffff_ffff_ffffu128;
    (d as u128) * (e as u128) < (ratio as u128) * (t as u128)
}

/// Exact comparison `d * e > ratio * t` without overflow.
pub(crate) fn gt_scaled(d: u64, e: u64, ratio: u64, t: u64) -> (r: bool)
    ensures
        r == ((d as nat) * (e as nat) > (ratio as nat) * (t as nat)),
{
    assert((d as u128) * (e as u128) < 0x1_0000_0000_0000_0000_0000_0000_0000_0000)
        by (nonlinear_arith)
        requires d <= 0xffff_ffff_ffff_ffffu128, e <= 0xffff_ffff_ffff_ffffu128;
    assert((ratio as u128) * (t as u128) < 0x1_0000_0000_0000_0000_0000_0000_0000_0000)
        by (nonlinear_arith)
        requires ratio <= 0xffff_ffff_ffff_ffffu128, t <= 0xffff_ffff_ffff_ffffu128;
    (d as u128) * (e as u128) > (ratio as u128) * (t as u128)
}

/// The window `[lo, hi)` of a track.
pub open spec fn window(track: Seq<Point>, lo: int, hi: int) -> Seq<Point> {
    track.subrange(lo, hi)
}

/// Smallest index after `i` in the window whose point is beyond the safety
/// distance from point `i`; window length when there is none.
fn scan_first_beyond(track: &Vec<Point>, lo: usize, hi: usize, total: u64, i: usize) -> (r: usize)
    requires
        lo + 2 <= hi <= track@.len(),
        track@.len() <= MAX_TRACK_POINTS,
        valid_pts(track@),
        total as nat == total_len(window(track@, lo as int, hi as int)),
        i < hi - lo,
    ensures
        r as int == first_beyond_after(window(track@, lo as int, hi as int), i as int),
        i < r <= hi - lo,
{
    let ghost w = window(track@, lo as int, hi as int);
    let n = hi - lo;
    let edges = n - 1;
    let mut j = i + 1;
    while j < n
        invariant
            i < j <= n,
            n == hi - lo,
            edges == n - 1,
            lo + 2 <= hi <= track@.len(),
            track@.len() <= MAX_TRACK_POINTS,
            valid_pts(track@),
            total as nat == total_len(w),
            w == window(track@, lo as int, hi as int),
            first_beyond_after(w, i as int) == first_beyond_from(w, i as int, j as int),
        decreases n - j,
    {
        let d = euclidean_distance(&track[lo + j], &track[lo + i]);
        if gt_scaled(d, edges as u64, SELF_INTERSECTION_SAFETY_DISTANCE, total) {
            assert(beyond_safety(dist(w[j as int], w[i as int]), w));
            return j;
        }
        assert(!beyond_safety(dist(w[j as int], w[i as int]), w));
        j = j + 1;
    }
    n
}

/// Largest index before `i` in the window whose point is beyond the safety
/// distance from point `i`; `None` when there is none.
fn scan_last_beyond(track: &Vec<Point>, lo: usize, hi: usize, total: u64, i: usize) -> (r: Option<
    usize,
>)
    requires
        lo + 2 <= hi <= track@.len(),
        track@.len() <= MAX_TRACK_POINTS,
        valid_pts(track@),
        total as nat == total_len(window(track@, lo as int, hi as int)),
        i < hi - lo,
    ensures
        match r {
            Some(j) => j as int == last_beyond_before(
                window(track@, lo as int, hi as int),
                i as int,
            ) && j < i,
            None => last_beyond_before(window(track@, lo as int, hi as int), i as int) == -1,
        },
{
    let ghost w = window(track@, lo as int, hi as int);
    let n = hi - lo;
    let edges = n - 1;
    if i == 0 {
        return None;
    }
    let mut j = i - 1;
    loop
        invariant
            0 <= j < i < n,
            n == hi - lo,
            edges == n - 1,
            lo + 2 <= hi <= track@.len(),
            track@.len() <= MAX_TRACK_POINTS,
            valid_pts(track@),
            total as nat == total_len(w),
            w == window(track@, lo as int, hi as int),
            last_beyond_before(w, i as int) == last_beyond_from(w, i as int, j as int),
        decreases j,
    {
        let d = euclidean_distance(&track[lo + j], &track[lo + i]);
        if gt_scaled(d, edges as u64, SELF_INTERSECTION_SAFETY_DISTANCE, total) {
            assert(beyond_safety(dist(w[j as int], w[i as int]), w));
            return Some(j);
        }
        assert(!beyond_safety(dist(w[j as int], w[i as int]), w));
        if j == 0 {
            assert(last_beyond_from(w, i as int, 0) == last_beyond_from(w, i as int, -1));
            assert(last_beyond_from(w, i as int, -1) == -1);
            return None;
        }
        j = j - 1;
    }
}

/// Whether edge `i` of the `s` window passes within the point threshold of
/// some searched edge of the `o` window.
#[verifier::rlimit(30)]
fn edge_is_close(
    track_s: &Vec<Point>,
    lo_s: usize,
    hi_s: usize,
    ts: u64,
    track_o: &Vec<Point>,
    lo_o: usize,
    hi_o: usize,
    to: u64,
    i: usize,
    other_is_self: bool,
) -> (r: bool)
    requires
        lo_s + 2 <= hi_s <= track_s@.len(),
        track_s@.len() <= MAX_TRACK_POINTS,
        valid_pts(track_s@),
        lo_o + 2 <= hi_o <= track_o@.len(),
        track_o@.len() <= MAX_TRACK_POINTS,
        valid_pts(track_o@),
        ts as nat == total_len(window(track_s@, lo_s as int, hi_s as int)),
        to as nat == total_len(window(track_o@, lo_o as int, hi_o as int)),
        i + 1 < hi_s - lo_s,
        other_is_self ==> lo_o == lo_s && hi_o == hi_s && track_o@ == track_s@,
    ensures
        r == is_close_at(
            window(track_s@, lo_s as int, hi_s as int),
            window(track_o@, lo_o as int, hi_o as int),
            i as int,
            other_is_self,
        ),
{
    let ghost sw = window(track_s@, lo_s as int, hi_s as int);
    let ghost ow = window(track_o@, lo_o as int, hi_o as int);
    let ns = hi_s - lo_s;
    let no = hi_o - lo_o;
    let es = (ns - 1) as u64;
    let eo = (no - 1) as u64;
    let p11 = track_s[lo_s + i];
    let p12 = track_s[lo_s + i + 1];

    let mut bound_before: Option<usize> = None;
    let mut bound_after: usize = no;
    if other_is_self {
        bound_before = scan_last_beyond(track_o, lo_o, hi_o, to, i);
        bound_after = scan_first_beyond(track_o, lo_o, hi_o, to, i);
    }

    let mut k: usize = 0;
    while k < no - 1
        invariant
            k <= no - 1,
            ns == hi_s - lo_s,
            no == hi_o - lo_o,
            es == ns - 1,
            eo == no - 1,
            lo_s + 2 <= hi_s <= track_s@.len(),
            track_s@.len() <= MAX_TRACK_POINTS,
            valid_pts(track_s@),
            lo_o + 2 <= hi_o <= track_o@.len(),
            track_o@.len() <= MAX_TRACK_POINTS,
            valid_pts(track_o@),
            ts as nat == total_len(sw),
            to as nat == total_len(ow),
            i + 1 < ns,
            sw == window(track_s@, lo_s as int, hi_s as int),
            ow == window(track_o@, lo_o as int, hi_o as int),
            p11 == sw[i as int],
            p12 == sw[i + 1],
            other_is_self ==> match bound_before {
                Some(j) => j as int == last_beyond_before(ow, i as int),
                None => last_beyond_before(ow, i as int) == -1,
            },
            other_is_self ==> bound_after as int == first_beyond_after(ow, i as int),
            forall|m: int|
                0 <= m < k ==> !(#[trigger] edge_in_search(ow, i as int, m, other_is_self)
                    && within_point_threshold(
                    spec_segments_distance(sw[i as int], sw[i + 1], ow[m], ow[m + 1]),
                    sw,
                    ow,
                )),
        decreases no - 1 - k,
    {
        let in_search = if !other_is_self {
            true
        } else {
            let before_ok = match bound_before {
                Some(e) => k + 1 < e,
                None => false,
            };
            before_ok || k >= bound_after
        };
        assert(in_search == edge_in_search(ow, i as int, k as int, other_is_self));
        if in_search {
            let d = line_segments_distance(
                &p11,
                &p12,
                &track_o[lo_o + k],
                &track_o[lo_o + k + 1],
            );
            if lt_scaled(d, es, POINT_DISTANCE_THRESHOLD, ts) && lt_scaled(
                d,
                eo,
                POINT_DISTANCE_THRESHOLD,
                to,
            ) {
                assert(within_point_threshold(
                    spec_segments_distance(sw[i as int], sw[i + 1], ow[k as int], ow[k + 1]),
                    sw,
                    ow,
                ));
                assert(is_close_at(sw, ow, i as int, other_is_self));
                return true;
            }
        }
        k = k + 1;
    }
    assert(!is_close_at(sw, ow, i as int, other_is_self));
    false
}

impl Chunk {
    /// The points of this chunk: its sub-range of its parent track.
    pub open spec fn pts(self, tracks: Seq<Seq<Point>>) -> Seq<Point> {
        tracks[self.parent as int].subrange(self.start as int, self.end as int)
    }

    /// A chunk spanning every point of track `parent`.
    pub fn from_entire_segment(parent: usize, num_points: usize) -> (c: Chunk)
        ensures
            c == (Chunk { parent, start: 0, end: num_points }),
    {
        Chunk { parent, start: 0, end: num_points }
    }

    /// The central proximity scan: the coalesced list of index ranges of this
    /// chunk where it passes close to `other`. With `other_is_self` the
    /// search space excludes everything within the safety distance of the
    /// probed point, so a point never matches its own immediate neighbours.
    pub fn get_intersections_with(
        &self,
        tracks: &Vec<Vec<Point>>,
        other: &Chunk,
        other_is_self: bool,
    ) -> (r: Vec<Intersection>)
        requires
            tracks_all_wf(views(tracks@)),
            chunk_valid(*self, views(tracks@)),
            chunk_valid(*other, views(tracks@)),
            other_is_self ==> *other == *self,
        ensures
            r@ == close_ranges(
                self.pts(views(tracks@)),
                other.pts(views(tracks@)),
                other_is_self,
            ),
            ranges_wf(r@, self.pts(views(tracks@)).len() - 1),
    {
        let ghost sw = self.pts(views(tracks@));
        let ghost ow = other.pts(views(tracks@));
        let track_s = &tracks[self.parent];
        let track_o = &tracks[other.parent];
        proof {
            assert(views(tracks@)[self.parent as int] == track_s@);
            assert(views(tracks@)[other.parent as int] == track_o@);
            lemma_path_len_subrange(
                track_s@,
                self.start as int,
                self.end as int,
                0,
                self.end - self.start,
            );
            lemma_path_len_subrange(
                track_o@,
                other.start as int,
                other.end as int,
                0,
                other.end - other.start,
            );
        }
        let ts = path_length(track_s, self.start, self.end);
        let to = path_length(track_o, other.start, other.end);
        let ns = self.end - self.start;
        let es = (ns - 1) as u64;
        let eo = ((other.end - other.start) - 1) as u64;
        assert(ts as nat == total_len(sw));
        assert(to as nat == total_len(ow));

        let mut ranges: Vec<Intersection> = Vec::new();
        let mut i: usize = 0;
        while i < ns - 1
            invariant
                i <= ns - 1,
                ns == self.end - self.start,
                es == ns - 1,
                eo == (other.end - other.start) - 1,
                tracks_all_wf(views(tracks@)),
                chunk_valid(*self, views(tracks@)),
                chunk_valid(*other, views(tracks@)),
                other_is_self ==> *other == *self,
                track_s@ == views(tracks@)[self.parent as int],
                track_o@ == views(tracks@)[other.parent as int],
                sw == self.pts(views(tracks@)),
                ow == other.pts(views(tracks@)),
                ts as nat == total_len(sw),
                to as nat == total_len(ow),
                ranges@ == close_ranges_upto(sw, ow, i as int, other_is_self),
            decreases ns - 1 - i,
        {
            proof {
                lemma_close_ranges_wf(sw, ow, i as int, other_is_self);
            }
            let close = edge_is_close(
                track_s,
                self.start,
                self.end,
                ts,
                track_o,
                other.start,
                other.end,
                to,
                i,
                other_is_self,
            );
            if close {
                let mut merged = false;
                if ranges.len() > 0 {
                    let lastr = ranges[ranges.len() - 1];
                    assert(lastr == close_ranges_upto(sw, ow, i as int, other_is_self).last());
                    assert(lastr.end < i);
                    let dlast = euclidean_distance(
                        &track_s[self.start + lastr.end],
                        &track_s[self.start + i],
                    );
                    assert(dlast as nat == dist(sw[lastr.end as int], sw[i as int]));
                    if lt_scaled(dlast, es, POINT_DISTANCE_THRESHOLD, ts) && lt_scaled(
                        dlast,
                        eo,
                        POINT_DISTANCE_THRESHOLD,
                        to,
                    ) {
                        let ghost acc = ranges@;
                        let newlast = Intersection { start: lastr.start, end: i };
                        let _ = ranges.pop();
                        ranges.push(newlast);
                        proof {
                            assert(ranges@ =~= acc.update(acc.len() - 1, newlast));
                        }
                        merged = true;
                    }
                }
                if !merged {
                    ranges.push(Intersection { start: i, end: i });
                }
            }
            i = i + 1;
        }
        proof {
            assert(ranges@ == close_ranges(sw, ow, other_is_self));
            lemma_close_ranges_wf(sw, ow, ns - 1 as int, other_is_self);
        }
        ranges
    }
}

} // verus!
