//! Cutting chunks at their intersections, and the global fixpoint resolver
//! that keeps cutting until no two chunks of different parent tracks remain
//! close to each other.

use vstd::prelude::*;

use crate::chunk::chunk_valid;
use crate::chunk::close_ranges;
use crate::chunk::edges_of;
use crate::chunk::lemma_cross_close_symmetric;
use crate::chunk::ranges_wf;
use crate::chunk::total_len;
use crate::chunk::track_wf;
use crate::chunk::tracks_all_wf;
use crate::chunk::views;
use crate::chunk::Chunk;
use crate::chunk::Intersection;
use crate::chunk::CHUNK_DISTANCE_THRESHOLD;
use crate::geom_utils::lemma_path_len_split;
use crate::geom_utils::lemma_path_len_subrange;
use crate::geom_utils::path_len;
use crate::geom_utils::path_length;
use crate::geom_utils::Point;

verus! {

/// A candidate child spanning the closed local point range `[a, b]` survives
/// only when its path length exceeds `CHUNK_DISTANCE_THRESHOLD` times the cut
/// chunk's average neighbour distance (compared exactly, cross-multiplied).
pub open spec fn keep_candidate(s: Seq<Point>, a: int, b: int) -> bool {
    path_len(s, a, b + 1) * edges_of(s) > CHUNK_DISTANCE_THRESHOLD * total_len(s)
}

/// The chunk for the closed local point range `[a, b]`, kept or dropped.
pub open spec fn maybe_child(c: Chunk, s: Seq<Point>, a: int, b: int) -> Seq<Chunk> {
    if keep_candidate(s, a, b) {
        seq![
            Chunk {
                parent: c.parent,
                start: (c.start + a) as usize,
                end: (c.start + b + 1) as usize,
            },
        ]
    } else {
        Seq::empty()
    }
}

/// The two candidate children of one consecutive pair of intersection
/// boundaries: the first intersection's own span, then the gap between it and
/// the next.
pub open spec fn candidate_children(
    c: Chunk,
    s: Seq<Point>,
    r1: Intersection,
    r2: Intersection,
) -> Seq<Chunk> {
    maybe_child(c, s, r1.start as int, r1.end as int) + maybe_child(
        c,
        s,
        r1.end as int,
        r2.start as int,
    )
}

/// The intersections with synthetic boundary markers at index `0` and at the
/// last index.
pub open spec fn bounded_ranges(rs: Seq<Intersection>, n: int) -> Seq<Intersection> {
    seq![Intersection { start: 0, end: 0 }] + rs + seq![
        Intersection { start: (n - 1) as usize, end: (n - 1) as usize },
    ]
}

/// The children emitted by the first `t` consecutive boundary pairs.
pub open spec fn children_upto(c: Chunk, s: Seq<Point>, bs: Seq<Intersection>, t: int) -> Seq<
    Chunk,
>
    decreases t,
{
    if t <= 0 {
        Seq::empty()
    } else {
        children_upto(c, s, bs, t - 1) + candidate_children(c, s, bs[t - 1], bs[t])
    }
}

/// All children of cutting chunk `c` (with points `s`) at `rs`.
pub open spec fn spec_cut(c: Chunk, s: Seq<Point>, rs: Seq<Intersection>) -> Seq<Chunk> {
    children_upto(c, s, bounded_ranges(rs, s.len() as int), bounded_ranges(rs, s.len() as int).len() - 1)
}

/// Sum of the path lengths of a list of chunks.
pub open spec fn sum_chunks_len(cs: Seq<Chunk>, ts: Seq<Seq<Point>>) -> nat
    decreases cs.len(),
{
    if cs.len() == 0 {
        0
    } else {
        total_len(cs[0].pts(ts)) + sum_chunks_len(cs.subrange(1, cs.len() as int), ts)
    }
}

/// Sum of the path lengths of a list of tracks.
pub open spec fn sum_tracks_len(ts: Seq<Seq<Point>>) -> nat
    decreases ts.len(),
{
    if ts.len() == 0 {
        0
    } else {
        total_len(ts[0]) + sum_tracks_len(ts.subrange(1, ts.len() as int))
    }
}

pub proof fn lemma_sum_chunks_concat(a: Seq<Chunk>, b: Seq<Chunk>, ts: Seq<Seq<Point>>)
    ensures
        sum_chunks_len(a + b, ts) == sum_chunks_len(a, ts) + sum_chunks_len(b, ts),
    decreases a.len(),
{
    if a.len() == 0 {
        assert(a + b =~= b);
    } else {
        assert((a + b).subrange(1, (a + b).len() as int) =~= a.subrange(1, a.len() as int) + b);
        lemma_sum_chunks_concat(a.subrange(1, a.len() as int), b, ts);
    }
}

pub proof fn lemma_sum_chunks_single(c: Chunk, ts: Seq<Seq<Point>>)
    ensures
        sum_chunks_len(seq![c], ts) == total_len(c.pts(ts)),
{
    assert(seq![c].subrange(1, 1) =~= Seq::<Chunk>::empty());
    assert(sum_chunks_len(Seq::<Chunk>::empty(), ts) == 0);
    assert(seq![c][0] == c);
}

pub proof fn lemma_sum_chunks_push(cs: Seq<Chunk>, c: Chunk, ts: Seq<Seq<Point>>)
    ensures
        sum_chunks_len(cs.push(c), ts) == sum_chunks_len(cs, ts) + total_len(c.pts(ts)),
{
    assert(cs.push(c) =~= cs + seq![c]);
    lemma_sum_chunks_concat(cs, seq![c], ts);
    lemma_sum_chunks_single(c, ts);
}

pub proof fn lemma_sum_chunks_remove(cs: Seq<Chunk>, i: int, ts: Seq<Seq<Point>>)
    requires
        0 <= i < cs.len(),
    ensures
        sum_chunks_len(cs.remove(i), ts) + total_len(cs[i].pts(ts)) == sum_chunks_len(cs, ts),
{
    let left = cs.subrange(0, i);
    let mid = seq![cs[i]];
    let right = cs.subrange(i + 1, cs.len() as int);
    assert(cs =~= left + mid + right);
    assert(cs.remove(i) =~= left + right);
    lemma_sum_chunks_concat(left + mid, right, ts);
    lemma_sum_chunks_concat(left, mid, ts);
    lemma_sum_chunks_concat(left, right, ts);
    lemma_sum_chunks_single(cs[i], ts);
}

/// Adding a track does not change the length of any chunk of the existing
/// tracks.
pub proof fn lemma_sum_chunks_tracks_push(cs: Seq<Chunk>, ts: Seq<Seq<Point>>, t: Seq<Point>)
    requires
        forall|i: int| 0 <= i < cs.len() ==> chunk_valid(#[trigger] cs[i], ts),
    ensures
        sum_chunks_len(cs, ts.push(t)) == sum_chunks_len(cs, ts),
    decreases cs.len(),
{
    if cs.len() > 0 {
        assert(cs[0].pts(ts.push(t)) == cs[0].pts(ts));
        assert(forall|i: int|
            0 <= i < cs.len() - 1 ==> #[trigger] cs.subrange(1, cs.len() as int)[i] == cs[i + 1]);
        lemma_sum_chunks_tracks_push(cs.subrange(1, cs.len() as int), ts, t);
    }
}

pub proof fn lemma_sum_tracks_push(ts: Seq<Seq<Point>>, t: Seq<Point>)
    ensures
        sum_tracks_len(ts.push(t)) == sum_tracks_len(ts) + total_len(t),
    decreases ts.len(),
{
    if ts.len() == 0 {
        assert(ts.push(t).subrange(1, 1) =~= Seq::<Seq<Point>>::empty());
        assert(sum_tracks_len(Seq::<Seq<Point>>::empty()) == 0);
        assert(ts.push(t)[0] == t);
    } else {
        assert(ts.push(t).subrange(1, ts.len() as int + 1) =~= ts.subrange(
            1,
            ts.len() as int,
        ).push(t));
        lemma_sum_tracks_push(ts.subrange(1, ts.len() as int), t);
        assert(ts.push(t)[0] == ts[0]);
        assert(sum_tracks_len(ts.push(t)) == total_len(ts.push(t)[0]) + sum_tracks_len(
            ts.push(t).subrange(1, ts.len() as int + 1),
        ));
    }
}

pub proof fn lemma_sum_tracks_concat(a: Seq<Seq<Point>>, b: Seq<Seq<Point>>)
    ensures
        sum_tracks_len(a + b) == sum_tracks_len(a) + sum_tracks_len(b),
    decreases a.len(),
{
    if a.len() == 0 {
        assert(a + b =~= b);
    } else {
        assert((a + b).subrange(1, (a + b).len() as int) =~= a.subrange(1, a.len() as int) + b);
        lemma_sum_tracks_concat(a.subrange(1, a.len() as int), b);
    }
}

/// The sum over a prefix of the arena never exceeds the sum over the whole,
/// and admitting one more track extends it by exactly that track's length.
pub proof fn lemma_sum_tracks_prefix(ts: Seq<Seq<Point>>, k: int)
    requires
        0 <= k < ts.len(),
    ensures
        sum_tracks_len(ts.subrange(0, k + 1)) == sum_tracks_len(ts.subrange(0, k)) + total_len(
            ts[k],
        ),
        sum_tracks_len(ts.subrange(0, k + 1)) <= sum_tracks_len(ts),
{
    assert(ts.subrange(0, k + 1) =~= ts.subrange(0, k).push(ts[k]));
    lemma_sum_tracks_push(ts.subrange(0, k), ts[k]);
    assert(ts =~= ts.subrange(0, k + 1) + ts.subrange(k + 1, ts.len() as int));
    lemma_sum_tracks_concat(ts.subrange(0, k + 1), ts.subrange(k + 1, ts.len() as int));
}

/// What holds of every child a cut emits.
pub open spec fn cut_child_ok(c: Chunk, s: Seq<Point>, ts: Seq<Seq<Point>>, ch: Chunk) -> bool {
    &&& ch.parent == c.parent
    &&& c.start <= ch.start
    &&& ch.start + 2 <= ch.end <= c.end
    &&& chunk_valid(ch, ts)
    &&& total_len(ch.pts(ts)) * edges_of(s) > CHUNK_DISTANCE_THRESHOLD * total_len(s)
}

/// The length of a child chunk's own points, seen as a window of the cut
/// chunk's points.
proof fn lemma_child_window(c: Chunk, ts: Seq<Seq<Point>>, a: int, b: int)
    requires
        chunk_valid(c, ts),
        0 <= a,
        a + 2 <= b + 1,
        c.start + b + 1 <= c.end,
    ensures
        total_len(
            (Chunk { parent: c.parent, start: (c.start + a) as usize, end: (c.start + b + 1) as usize }).pts(ts),
        ) == path_len(c.pts(ts), a, b + 1),
{
    let track = ts[c.parent as int];
    lemma_path_len_subrange(track, c.start + a, c.start + b + 1, 0, b + 1 - a);
    lemma_path_len_subrange(track, c.start as int, c.end as int, a, b + 1);
}

/// Bounded, ordered intersection boundaries.
pub open spec fn bounds_sorted(bs: Seq<Intersection>, n: int) -> bool {
    &&& forall|u: int| 0 <= u < bs.len() ==> (#[trigger] bs[u]).start <= bs[u].end <= n - 1
    &&& forall|u: int| 0 <= u < bs.len() - 1 ==> (#[trigger] bs[u]).end <= bs[u + 1].start
}

proof fn lemma_candidate_ok(c: Chunk, s: Seq<Point>, ts: Seq<Seq<Point>>, a: int, b: int)
    requires
        chunk_valid(c, ts),
        s == c.pts(ts),
        0 <= a <= b <= s.len() - 1,
    ensures
        forall|m: int|
            0 <= m < maybe_child(c, s, a, b).len() ==> cut_child_ok(
                c,
                s,
                ts,
                #[trigger] maybe_child(c, s, a, b)[m],
            ),
        sum_chunks_len(maybe_child(c, s, a, b), ts) <= path_len(s, a, b + 1),
{
    if keep_candidate(s, a, b) {
        if b < a + 1 {
            assert(path_len(s, a, b + 1) == 0);
            assert(path_len(s, a, b + 1) * edges_of(s) == 0) by (nonlinear_arith)
                requires path_len(s, a, b + 1) == 0;
            assert(false);
        }
        lemma_child_window(c, ts, a, b);
        let ch = maybe_child(c, s, a, b)[0];
        assert(maybe_child(c, s, a, b) =~= seq![ch]);
        lemma_sum_chunks_single(ch, ts);
    }
}

proof fn lemma_children_upto_props(
    c: Chunk,
    s: Seq<Point>,
    ts: Seq<Seq<Point>>,
    bs: Seq<Intersection>,
    t: int,
)
    requires
        chunk_valid(c, ts),
        s == c.pts(ts),
        bounds_sorted(bs, s.len() as int),
        bs.len() >= 1,
        bs[0].start == 0,
        0 <= t < bs.len(),
    ensures
        sum_chunks_len(children_upto(c, s, bs, t), ts) <= path_len(s, 0, bs[t].start + 1),
        forall|m: int|
            0 <= m < children_upto(c, s, bs, t).len() ==> cut_child_ok(
                c,
                s,
                ts,
                #[trigger] children_upto(c, s, bs, t)[m],
            ),
    decreases t,
{
    if t == 0 {
        assert(path_len(s, 0, 1) == 0);
    } else {
        lemma_children_upto_props(c, s, ts, bs, t - 1);
        let r1 = bs[t - 1];
        let r2 = bs[t];
        let span = maybe_child(c, s, r1.start as int, r1.end as int);
        let gap = maybe_child(c, s, r1.end as int, r2.start as int);
        lemma_candidate_ok(c, s, ts, r1.start as int, r1.end as int);
        lemma_candidate_ok(c, s, ts, r1.end as int, r2.start as int);
        lemma_sum_chunks_concat(children_upto(c, s, bs, t - 1), span + gap, ts);
        lemma_sum_chunks_concat(span, gap, ts);
        if r1.start < r1.end {
            lemma_path_len_split(s, 0, r1.start as int, r1.end + 1);
        } else {
            assert(path_len(s, r1.start as int, r1.end + 1) == 0);
        }
        if r1.end < r2.start {
            lemma_path_len_split(s, 0, r1.end as int, r2.start + 1);
        } else {
            assert(path_len(s, r1.end as int, r2.start + 1) == 0);
        }
    }
}

/// Every child of a cut lies inside the cut chunk, is valid, and its path
/// length exceeds the significance threshold derived from the cut chunk; the
/// children's total length never exceeds the cut chunk's.
pub proof fn lemma_cut_ok(c: Chunk, s: Seq<Point>, ts: Seq<Seq<Point>>, rs: Seq<Intersection>)
    requires
        chunk_valid(c, ts),
        s == c.pts(ts),
        ranges_wf(rs, s.len() - 1),
    ensures
        forall|m: int|
            0 <= m < spec_cut(c, s, rs).len() ==> cut_child_ok(
                c,
                s,
                ts,
                #[trigger] spec_cut(c, s, rs)[m],
            ),
        sum_chunks_len(spec_cut(c, s, rs), ts) <= total_len(s),
{
    let n = s.len() as int;
    let bs = bounded_ranges(rs, n);
    assert(bs[0] == Intersection { start: 0, end: 0 });
    assert(bs[bs.len() - 1] == Intersection { start: (n - 1) as usize, end: (n - 1) as usize });
    assert(forall|u: int| 0 <= u < rs.len() ==> bs[u + 1] == rs[u]);
    assert(bounds_sorted(bs, n));
    lemma_children_upto_props(c, s, ts, bs, bs.len() - 1);
    assert(path_len(s, 0, n - 1 + 1) == total_len(s));
}

/// `c` lies inside `e`: same parent track, nested non-empty point range.
pub open spec fn chunk_within(c: Chunk, e: Chunk) -> bool {
    c.parent == e.parent && e.start <= c.start && c.start < c.end && c.end <= e.end
}

/// `c` occurs in `cs`.
pub open spec fn chunk_among(cs: Seq<Chunk>, c: Chunk) -> bool {
    exists|k: int| 0 <= k < cs.len() && cs[k] == c
}

/// Every chunk of `cs` is valid against the arena `ts`.
pub open spec fn chunks_all_valid(cs: Seq<Chunk>, ts: Seq<Seq<Point>>) -> bool {
    forall|m: int| 0 <= m < cs.len() ==> chunk_valid(#[trigger] cs[m], ts)
}

/// `c` lies inside some chunk of `pre`.
pub open spec fn within_some(c: Chunk, pre: Seq<Chunk>) -> bool {
    exists|k: int| 0 <= k < pre.len() && chunk_within(c, #[trigger] pre[k])
}

/// Every chunk of `post` lies inside some chunk of `pre`: `post` only refines
/// the decomposition `pre`, it never invents points.
pub open spec fn refines(post: Seq<Chunk>, pre: Seq<Chunk>) -> bool {
    forall|m: int| 0 <= m < post.len() ==> within_some(#[trigger] post[m], pre)
}

/// `c`'s path length exceeds the significance threshold of some valid chunk
/// it lies in — the chunk it was cut from.
pub open spec fn meets_min_length(c: Chunk, ts: Seq<Seq<Point>>) -> bool {
    exists|p: Chunk|
        #[trigger] chunk_valid(p, ts) && chunk_within(c, p) && total_len(c.pts(ts)) * edges_of(
            p.pts(ts),
        ) > CHUNK_DISTANCE_THRESHOLD * total_len(p.pts(ts))
}

/// One resolution step at the pair `(i, j)`: the two chunks come from
/// different parent tracks, the first finds a close range against the second,
/// both are removed, and the children of cutting each at its close ranges
/// against the other are appended.
pub open spec fn conflict_cut_at(
    ts: Seq<Seq<Point>>,
    pre: Seq<Chunk>,
    i: int,
    j: int,
    post: Seq<Chunk>,
) -> bool {
    &&& 0 <= i < j < pre.len()
    &&& pre[i].parent != pre[j].parent
    &&& close_ranges(pre[i].pts(ts), pre[j].pts(ts), false).len() > 0
    &&& post == pre.remove(j).remove(i) + spec_cut(
        pre[i],
        pre[i].pts(ts),
        close_ranges(pre[i].pts(ts), pre[j].pts(ts), false),
    ) + spec_cut(pre[j], pre[j].pts(ts), close_ranges(pre[j].pts(ts), pre[i].pts(ts), false))
}

/// One resolution step: some conflicting cross-track pair is cut.
pub open spec fn conflict_cut_step(ts: Seq<Seq<Point>>, pre: Seq<Chunk>, post: Seq<Chunk>) -> bool {
    exists|i: int, j: int| #[trigger] conflict_cut_at(ts, pre, i, j, post)
}

/// `post` arises from `pre` by exactly `n` resolution steps.
pub open spec fn resolution_reachable_n(
    ts: Seq<Seq<Point>>,
    pre: Seq<Chunk>,
    post: Seq<Chunk>,
    n: nat,
) -> bool
    decreases n,
{
    if n == 0 {
        post == pre
    } else {
        exists|mid: Seq<Chunk>|
            #[trigger] conflict_cut_step(ts, pre, mid) && resolution_reachable_n(
                ts,
                mid,
                post,
                (n - 1) as nat,
            )
    }
}

/// `post` arises from `pre` by zero or more resolution steps.
pub open spec fn resolution_reachable(
    ts: Seq<Seq<Point>>,
    pre: Seq<Chunk>,
    post: Seq<Chunk>,
) -> bool {
    exists|n: nat| #[trigger] resolution_reachable_n(ts, pre, post, n)
}

pub proof fn lemma_reachable_refl(ts: Seq<Seq<Point>>, cs: Seq<Chunk>)
    ensures
        resolution_reachable(ts, cs, cs),
{
    assert(resolution_reachable_n(ts, cs, cs, 0));
}

proof fn lemma_reachable_n_trans(
    ts: Seq<Seq<Point>>,
    a: Seq<Chunk>,
    b: Seq<Chunk>,
    c: Seq<Chunk>,
    n: nat,
    m: nat,
)
    requires
        resolution_reachable_n(ts, a, b, n),
        resolution_reachable_n(ts, b, c, m),
    ensures
        resolution_reachable_n(ts, a, c, n + m),
    decreases n,
{
    if n == 0 {
        assert(a == b);
    } else {
        let mid = choose|mid: Seq<Chunk>|
            #[trigger] conflict_cut_step(ts, a, mid) && resolution_reachable_n(
                ts,
                mid,
                b,
                (n - 1) as nat,
            );
        lemma_reachable_n_trans(ts, mid, b, c, (n - 1) as nat, m);
        assert(resolution_reachable_n(ts, a, c, n + m));
    }
}

pub proof fn lemma_reachable_trans(
    ts: Seq<Seq<Point>>,
    a: Seq<Chunk>,
    b: Seq<Chunk>,
    c: Seq<Chunk>,
)
    requires
        resolution_reachable(ts, a, b),
        resolution_reachable(ts, b, c),
    ensures
        resolution_reachable(ts, a, c),
{
    let n = choose|n: nat| #[trigger] resolution_reachable_n(ts, a, b, n);
    let m = choose|m: nat| #[trigger] resolution_reachable_n(ts, b, c, m);
    lemma_reachable_n_trans(ts, a, b, c, n, m);
    assert(resolution_reachable_n(ts, a, c, n + m));
}

pub proof fn lemma_step_reachable(ts: Seq<Seq<Point>>, pre: Seq<Chunk>, post: Seq<Chunk>)
    requires
        conflict_cut_step(ts, pre, post),
    ensures
        resolution_reachable(ts, pre, post),
{
    assert(resolution_reachable_n(ts, post, post, 0));
    assert(resolution_reachable_n(ts, pre, post, 1));
}

/// What one resolution step does to the chunks: survivors are unchanged
/// chunks of `pre`, and every new chunk is a cut child — inside the cut
/// chunk, valid, and above the cut chunk's significance threshold.
proof fn lemma_step_refines(ts: Seq<Seq<Point>>, pre: Seq<Chunk>, post: Seq<Chunk>)
    requires
        conflict_cut_step(ts, pre, post),
        chunks_all_valid(pre, ts),
    ensures
        chunks_all_valid(post, ts),
        refines(post, pre),
        forall|m: int|
            0 <= m < post.len() ==> chunk_among(pre, #[trigger] post[m]) || meets_min_length(
                post[m],
                ts,
            ),
{
    let (i, j): (int, int) = choose|i: int, j: int| #[trigger] conflict_cut_at(ts, pre, i, j, post);
    let ci = pre[i];
    let cj = pre[j];
    let ri = close_ranges(ci.pts(ts), cj.pts(ts), false);
    let rj = close_ranges(cj.pts(ts), ci.pts(ts), false);
    let base = pre.remove(j).remove(i);
    let cut_i = spec_cut(ci, ci.pts(ts), ri);
    let cut_j = spec_cut(cj, cj.pts(ts), rj);
    crate::chunk::lemma_close_ranges_wf(ci.pts(ts), cj.pts(ts), ci.pts(ts).len() - 1, false);
    crate::chunk::lemma_close_ranges_wf(cj.pts(ts), ci.pts(ts), cj.pts(ts).len() - 1, false);
    lemma_cut_ok(ci, ci.pts(ts), ts, ri);
    lemma_cut_ok(cj, cj.pts(ts), ts, rj);
    assert forall|m: int| 0 <= m < post.len() implies chunk_valid(#[trigger] post[m], ts)
        && within_some(post[m], pre) && (chunk_among(pre, post[m]) || meets_min_length(
        post[m],
        ts,
    )) by {
        if m < base.len() {
            let m1: int = if m < i { m } else { m + 1 };
            let m2: int = if m1 < j { m1 } else { m1 + 1 };
            assert(base[m] == pre.remove(j)[m1]);
            assert(base[m] == pre[m2]);
            assert(post[m] == pre[m2]);
            assert(chunk_valid(pre[m2], ts));
            assert(chunk_within(post[m], pre[m2]));
            assert(chunk_among(pre, post[m]));
        } else if m < base.len() + cut_i.len() {
            let ch = cut_i[m - base.len()];
            assert(post[m] == ch);
            assert(cut_child_ok(ci, ci.pts(ts), ts, ch));
            assert(chunk_within(ch, ci));
            assert(chunk_among(pre, ci));
            assert(meets_min_length(ch, ts));
        } else {
            let ch = cut_j[m - base.len() - cut_i.len()];
            assert(post[m] == ch);
            assert(cut_child_ok(cj, cj.pts(ts), ts, ch));
            assert(chunk_within(ch, cj));
            assert(chunk_among(pre, cj));
            assert(meets_min_length(ch, ts));
        }
    }
}

proof fn lemma_reachable_n_refines(ts: Seq<Seq<Point>>, pre: Seq<Chunk>, post: Seq<Chunk>, n: nat)
    requires
        resolution_reachable_n(ts, pre, post, n),
        chunks_all_valid(pre, ts),
    ensures
        chunks_all_valid(post, ts),
        refines(post, pre),
        forall|m: int|
            0 <= m < post.len() ==> chunk_among(pre, #[trigger] post[m]) || meets_min_length(
                post[m],
                ts,
            ),
    decreases n,
{
    if n == 0 {
        assert forall|m: int| 0 <= m < post.len() implies within_some(#[trigger] post[m], pre) by {
            assert(chunk_valid(pre[m], ts));
            assert(chunk_within(post[m], pre[m]));
        }
        assert forall|m: int| 0 <= m < post.len() implies chunk_among(
            pre,
            #[trigger] post[m],
        ) || meets_min_length(post[m], ts) by {
            assert(pre[m] == post[m]);
            assert(chunk_among(pre, post[m]));
        }
    } else {
        let mid = choose|mid: Seq<Chunk>|
            #[trigger] conflict_cut_step(ts, pre, mid) && resolution_reachable_n(
                ts,
                mid,
                post,
                (n - 1) as nat,
            );
        lemma_step_refines(ts, pre, mid);
        lemma_reachable_n_refines(ts, mid, post, (n - 1) as nat);
        assert forall|m: int| 0 <= m < post.len() implies within_some(#[trigger] post[m], pre) by {
            assert(within_some(post[m], mid));
            let k1 = choose|k1: int| 0 <= k1 < mid.len() && chunk_within(post[m], #[trigger] mid[k1]);
            assert(within_some(mid[k1], pre));
            let k2 = choose|k2: int| 0 <= k2 < pre.len() && chunk_within(mid[k1], #[trigger] pre[k2]);
            assert(chunk_within(post[m], pre[k2]));
        }
        assert forall|m: int| 0 <= m < post.len() implies chunk_among(
            pre,
            #[trigger] post[m],
        ) || meets_min_length(post[m], ts) by {
            if chunk_among(mid, post[m]) {
                let km = choose|km: int| 0 <= km < mid.len() && mid[km] == post[m];
                assert(chunk_among(pre, mid[km]) || meets_min_length(mid[km], ts));
            }
        }
    }
}

/// Every state the resolver can reach from `pre` only refines `pre`: each of
/// its chunks lies inside some chunk of `pre` with the same parent track, and
/// is either a chunk of `pre` itself or a cut child whose path length exceeds
/// the significance threshold of the chunk it was cut from.
pub proof fn lemma_resolution_refines(ts: Seq<Seq<Point>>, pre: Seq<Chunk>, post: Seq<Chunk>)
    requires
        resolution_reachable(ts, pre, post),
        chunks_all_valid(pre, ts),
    ensures
        chunks_all_valid(post, ts),
        refines(post, pre),
        forall|m: int|
            0 <= m < post.len() ==> chunk_among(pre, #[trigger] post[m]) || meets_min_length(
                post[m],
                ts,
            ),
{
    let n = choose|n: nat| #[trigger] resolution_reachable_n(ts, pre, post, n);
    lemma_reachable_n_refines(ts, pre, post, n);
}

/// `post` arises from `pre` by resolution steps, then pushing each chunk of
/// `cs` in order, with any number of resolution steps after each push.
pub open spec fn admission_reachable(
    ts: Seq<Seq<Point>>,
    pre: Seq<Chunk>,
    cs: Seq<Chunk>,
    post: Seq<Chunk>,
) -> bool
    decreases cs.len(),
{
    if cs.len() == 0 {
        resolution_reachable(ts, pre, post)
    } else {
        exists|mid: Seq<Chunk>|
            admission_reachable(ts, pre, cs.drop_last(), mid) && #[trigger] resolution_reachable(
                ts,
                mid.push(cs.last()),
                post,
            )
    }
}

/// Appending further resolution steps keeps an admission admissible.
pub proof fn lemma_admission_absorb(
    ts: Seq<Seq<Point>>,
    pre: Seq<Chunk>,
    cs: Seq<Chunk>,
    p1: Seq<Chunk>,
    p2: Seq<Chunk>,
)
    requires
        admission_reachable(ts, pre, cs, p1),
        resolution_reachable(ts, p1, p2),
    ensures
        admission_reachable(ts, pre, cs, p2),
{
    if cs.len() == 0 {
        lemma_reachable_trans(ts, pre, p1, p2);
    } else {
        let mid = choose|mid: Seq<Chunk>|
            admission_reachable(ts, pre, cs.drop_last(), mid) && #[trigger] resolution_reachable(
                ts,
                mid.push(cs.last()),
                p1,
            );
        lemma_reachable_trans(ts, mid.push(cs.last()), p1, p2);
        assert(admission_reachable(ts, pre, cs, p2));
    }
}

/// The children that admitting track `k` whole contributes: the track's
/// whole-chunk cut at its own self-intersections.
pub open spec fn whole_track_children(ts: Seq<Seq<Point>>, k: int) -> Seq<Chunk> {
    spec_cut(
        Chunk { parent: k as usize, start: 0, end: ts[k].len() as usize },
        ts[k],
        close_ranges(ts[k], ts[k], true),
    )
}

/// The first `k` tracks of the arena have been admitted in order: each
/// track's whole-chunk was cut at its self-intersections and the surviving
/// children pushed one at a time, with resolution steps in between.
pub open spec fn tracks_admitted_upto(ts: Seq<Seq<Point>>, k: int, post: Seq<Chunk>) -> bool
    decreases k,
{
    if k <= 0 {
        post.len() == 0
    } else {
        exists|mid: Seq<Chunk>|
            tracks_admitted_upto(ts, k - 1, mid) && #[trigger] admission_reachable(
                ts,
                mid,
                whole_track_children(ts, k - 1),
                post,
            )
    }
}

impl Chunk {
    /// This chunk's own sub-range of its parent track, read-only.
    pub fn points<'a>(&self, tracks: &'a Vec<Vec<Point>>) -> (r: &'a [Point])
        requires
            chunk_valid(*self, views(tracks@)),
        ensures
            r@ == self.pts(views(tracks@)),
    {
        let track = &tracks[self.parent];
        proof {
            assert(views(tracks@)[self.parent as int] == track@);
        }
        vstd::slice::slice_subrange(track.as_slice(), self.start, self.end)
    }

    /// Path length between the local indices `from` (inclusive) and `to`
    /// (exclusive) of this chunk's points.
    pub fn length_between(&self, tracks: &Vec<Vec<Point>>, from: usize, to: usize) -> (r: u64)
        requires
            tracks_all_wf(views(tracks@)),
            chunk_valid(*self, views(tracks@)),
            from <= to <= self.end - self.start,
        ensures
            r as nat == path_len(self.pts(views(tracks@)), from as int, to as int),
    {
        let track = &tracks[self.parent];
        proof {
            assert(views(tracks@)[self.parent as int] == track@);
            lemma_path_len_subrange(
                track@,
                self.start as int,
                self.end as int,
                from as int,
                to as int,
            );
        }
        path_length(track, self.start + from, self.start + to)
    }

    /// Total path length of the chunk divided by its number of edges,
    /// rounded down.
    pub fn get_average_distance_next_point(&self, tracks: &Vec<Vec<Point>>) -> (r: u64)
        requires
            tracks_all_wf(views(tracks@)),
            chunk_valid(*self, views(tracks@)),
        ensures
            r as nat == total_len(self.pts(views(tracks@))) / edges_of(self.pts(views(tracks@))),
    {
        let track = &tracks[self.parent];
        proof {
            assert(views(tracks@)[self.parent as int] == track@);
            lemma_path_len_subrange(
                track@,
                self.start as int,
                self.end as int,
                0,
                self.end - self.start,
            );
        }
        let total = path_length(track, self.start, self.end);
        let edges = (self.end - self.start - 1) as u64;
        total / edges
    }

    /// Cuts this chunk at the given intersections: inserts boundary markers
    /// at both ends, then emits, per consecutive boundary pair, the
    /// intersection span itself and the gap up to the next boundary, keeping
    /// only candidates whose path length exceeds the significance threshold.
    #[verifier::rlimit(100)]
    pub fn cut_into_chunks(&self, tracks: &Vec<Vec<Point>>, intersections: Vec<Intersection>) -> (r:
        Vec<Chunk>)
        requires
            tracks_all_wf(views(tracks@)),
            chunk_valid(*self, views(tracks@)),
            ranges_wf(intersections@, self.pts(views(tracks@)).len() - 1),
        ensures
            r@ == spec_cut(*self, self.pts(views(tracks@)), intersections@),
            forall|m: int|
                0 <= m < r@.len() ==> cut_child_ok(
                    *self,
                    self.pts(views(tracks@)),
                    views(tracks@),
                    #[trigger] r@[m],
                ),
            sum_chunks_len(r@, views(tracks@)) <= total_len(self.pts(views(tracks@))),
    {
        let ghost s = self.pts(views(tracks@));
        let ghost rs = intersections@;
        let track = &tracks[self.parent];
        proof {
            assert(views(tracks@)[self.parent as int] == track@);
            lemma_path_len_subrange(
                track@,
                self.start as int,
                self.end as int,
                0,
                self.end - self.start,
            );
        }
        let n = self.end - self.start;
        let total = path_length(track, self.start, self.end);
        let edges = (n - 1) as u64;
        assert(total as nat == total_len(s));

        let mut bs: Vec<Intersection> = Vec::new();
        bs.push(Intersection { start: 0, end: 0 });
        let mut intersections = intersections;
        bs.append(&mut intersections);
        bs.push(Intersection { start: n - 1, end: n - 1 });
        proof {
            assert(bs@ =~= bounded_ranges(rs, n as int));
            assert(bounded_ranges(rs, n as int)[0] == Intersection { start: 0, end: 0 });
            assert(forall|u: int| 0 <= u < rs.len() ==> bounded_ranges(rs, n as int)[u + 1] == rs[u]);
            assert(bounds_sorted(bs@, n as int));
        }

        let mut out: Vec<Chunk> = Vec::new();
        let mut t: usize = 1;
        while t < bs.len()
            invariant
                1 <= t <= bs@.len(),
                bs@.len() == rs.len() + 2,
                bs@ == bounded_ranges(rs, n as int),
                bounds_sorted(bs@, n as int),
                n == self.end - self.start,
                edges == n - 1,
                tracks_all_wf(views(tracks@)),
                chunk_valid(*self, views(tracks@)),
                track@ == views(tracks@)[self.parent as int],
                s == self.pts(views(tracks@)),
                total as nat == total_len(s),
                out@ == children_upto(*self, s, bs@, t - 1),
            decreases bs@.len() - t,
        {
            let r1 = bs[t - 1];
            let r2 = bs[t];
            let ghost out_before = out@;

            // the intersection span itself
            proof {
                lemma_path_len_subrange(
                    track@,
                    self.start as int,
                    self.end as int,
                    r1.start as int,
                    r1.end + 1,
                );
            }
            let plen1 = path_length(track, self.start + r1.start, self.start + r1.end + 1);
            assert(plen1 as nat == path_len(s, r1.start as int, r1.end + 1));
            if crate::chunk::gt_scaled(plen1, edges, CHUNK_DISTANCE_THRESHOLD, total) {
                out.push(
                    Chunk {
                        parent: self.parent,
                        start: self.start + r1.start,
                        end: self.start + r1.end + 1,
                    },
                );
            }
            assert(out@ == out_before + maybe_child(*self, s, r1.start as int, r1.end as int));

            // the gap between this intersection and the next
            let ghost out_mid = out@;
            proof {
                lemma_path_len_subrange(
                    track@,
                    self.start as int,
                    self.end as int,
                    r1.end as int,
                    r2.start + 1,
                );
            }
            let plen2 = path_length(track, self.start + r1.end, self.start + r2.start + 1);
            assert(plen2 as nat == path_len(s, r1.end as int, r2.start + 1));
            if crate::chunk::gt_scaled(plen2, edges, CHUNK_DISTANCE_THRESHOLD, total) {
                out.push(
                    Chunk {
                        parent: self.parent,
                        start: self.start + r1.end,
                        end: self.start + r2.start + 1,
                    },
                );
            }
            assert(out@ == out_mid + maybe_child(*self, s, r1.end as int, r2.start as int));
            proof {
                assert(out@ =~= out_before + candidate_children(*self, s, r1, r2));
            }
            t = t + 1;
        }
        proof {
            lemma_cut_ok(*self, s, views(tracks@), rs);
        }
        out
    }

    /// Cuts this chunk at its own self-intersections: the ranges where it
    /// passes close to itself outside the safety window.
    pub fn self_intersect(&self, tracks: &Vec<Vec<Point>>) -> (r: Vec<Chunk>)
        requires
            tracks_all_wf(views(tracks@)),
            chunk_valid(*self, views(tracks@)),
        ensures
            r@ == spec_cut(
                *self,
                self.pts(views(tracks@)),
                close_ranges(self.pts(views(tracks@)), self.pts(views(tracks@)), true),
            ),
            forall|m: int|
                0 <= m < r@.len() ==> cut_child_ok(
                    *self,
                    self.pts(views(tracks@)),
                    views(tracks@),
                    #[trigger] r@[m],
                ),
            sum_chunks_len(r@, views(tracks@)) <= total_len(self.pts(views(tracks@))),
    {
        let intersections = self.get_intersections_with(tracks, self, true);
        self.cut_into_chunks(tracks, intersections)
    }

    /// Cuts this chunk at the ranges where it passes close to `other`.
    pub fn intersect_with(&self, tracks: &Vec<Vec<Point>>, other: &Chunk) -> (r: Vec<Chunk>)
        requires
            tracks_all_wf(views(tracks@)),
            chunk_valid(*self, views(tracks@)),
            chunk_valid(*other, views(tracks@)),
        ensures
            r@ == spec_cut(
                *self,
                self.pts(views(tracks@)),
                close_ranges(self.pts(views(tracks@)), other.pts(views(tracks@)), false),
            ),
            forall|m: int|
                0 <= m < r@.len() ==> cut_child_ok(
                    *self,
                    self.pts(views(tracks@)),
                    views(tracks@),
                    #[trigger] r@[m],
                ),
            sum_chunks_len(r@, views(tracks@)) <= total_len(self.pts(views(tracks@))),
    {
        let intersections = self.get_intersections_with(tracks, other, false);
        self.cut_into_chunks(tracks, intersections)
    }
}

/// The working set of chunks across all input tracks, together with the
/// arena of the tracks themselves.
pub struct SegmentSplitter {
    pub tracks: Vec<Vec<Point>>,
    pub chunks: Vec<Chunk>,
}

impl SegmentSplitter {
    /// The point sequences of the track arena.
    pub open spec fn tracks_v(self) -> Seq<Seq<Point>> {
        views(self.tracks@)
    }

    /// Every track admissible, every chunk valid, and the chunks' total
    /// length within the tracks' total length (only trimming ever happens).
    pub open spec fn wf(self) -> bool {
        &&& tracks_all_wf(self.tracks_v())
        &&& chunks_all_valid(self.chunks@, self.tracks_v())
        &&& sum_chunks_len(self.chunks@, self.tracks_v()) <= sum_tracks_len(self.tracks_v())
    }

    /// No two chunks of different parent tracks find any close range against
    /// each other.
    pub open spec fn resolved(self) -> bool {
        forall|i: int, j: int|
            0 <= i < self.chunks@.len() && 0 <= j < self.chunks@.len() && i != j
                && (#[trigger] self.chunks@[i]).parent != (#[trigger] self.chunks@[j]).parent
                ==> close_ranges(
                self.chunks@[i].pts(self.tracks_v()),
                self.chunks@[j].pts(self.tracks_v()),
                false,
            ).len() == 0
    }

    /// Chunks `a` and `b` need no cut: same parent track, or no close range.
    pub open spec fn pair_clear(self, a: int, b: int) -> bool {
        self.chunks@[a].parent == self.chunks@[b].parent || close_ranges(
            self.chunks@[a].pts(self.tracks_v()),
            self.chunks@[b].pts(self.tracks_v()),
            false,
        ).len() == 0
    }

    pub fn new() -> (s: SegmentSplitter)
        ensures
            s.tracks@.len() == 0,
            s.chunks@.len() == 0,
            s.wf(),
    {
        SegmentSplitter { tracks: Vec::new(), chunks: Vec::new() }
    }

    proof fn lemma_resolved_from_scan(self)
        requires
            self.wf(),
            forall|a: int, b: int|
                0 <= a < b < self.chunks@.len() ==> #[trigger] self.pair_clear(a, b),
        ensures
            self.resolved(),
    {
        let cs = self.chunks@;
        let tv = self.tracks_v();
        assert forall|i: int, j: int|
            0 <= i < cs.len() && 0 <= j < cs.len() && i != j && (#[trigger] cs[i]).parent
                != (#[trigger] cs[j]).parent implies close_ranges(
            cs[i].pts(tv),
            cs[j].pts(tv),
            false,
        ).len() == 0 by {
            if i < j {
                assert(self.pair_clear(i, j));
            } else {
                assert(self.pair_clear(j, i));
                lemma_cross_close_symmetric(cs[j].pts(tv), cs[i].pts(tv));
            }
        }
    }

    /// The first pair of chunks from different parent tracks where the first
    /// finds a close range against the second; `None` when no pair conflicts.
    fn find_conflicting_pair(&self) -> (r: Option<(usize, usize)>)
        requires
            self.wf(),
        ensures
            match r {
                None => self.resolved(),
                Some(p) => {
                    &&& p.0 < p.1 < self.chunks@.len()
                    &&& self.chunks@[p.0 as int].parent != self.chunks@[p.1 as int].parent
                    &&& close_ranges(
                        self.chunks@[p.0 as int].pts(self.tracks_v()),
                        self.chunks@[p.1 as int].pts(self.tracks_v()),
                        false,
                    ).len() > 0
                },
            },
    {
        let n = self.chunks.len();
        let mut i: usize = 0;
        while i < n
            invariant
                i <= n,
                n == self.chunks@.len(),
                self.wf(),
                forall|a: int, b: int| 0 <= a < i && a < b < n ==> #[trigger] self.pair_clear(a, b),
            decreases n - i,
        {
            let mut j = i + 1;
            while j < n
                invariant
                    i < j <= n,
                    n == self.chunks@.len(),
                    self.wf(),
                    forall|a: int, b: int|
                        0 <= a < i && a < b < n ==> #[trigger] self.pair_clear(a, b),
                    forall|b: int| i < b < j ==> #[trigger] self.pair_clear(i as int, b),
                decreases n - j,
            {
                let ci = self.chunks[i];
                let cj = self.chunks[j];
                if ci.parent != cj.parent {
                    let ints = ci.get_intersections_with(&self.tracks, &cj, false);
                    if ints.len() > 0 {
                        return Some((i, j));
                    }
                }
                assert(self.pair_clear(i as int, j as int));
                j = j + 1;
            }
            i = i + 1;
        }
        proof {
            self.lemma_resolved_from_scan();
        }
        None
    }

    /// The fixpoint driver: repeatedly finds a pair of chunks from different
    /// parent tracks that are mutually close, removes both, re-cuts each
    /// using the other, reinserts the children, and rescans, until no such
    /// pair remains or the step budget `fuel` is spent. Returns whether the
    /// fixpoint was reached; once it was, running again changes nothing. A
    /// budget is needed because on some inputs no fixpoint exists — a cut can
    /// reproduce a chunk exactly, so the process can cycle — and a negative
    /// verdict comes only after `fuel` real cutting steps.
    #[verifier::rlimit(100)]
    pub fn split_at_all_intersections(&mut self, fuel: u64) -> (done: bool)
        requires
            old(self).wf(),
        ensures
            final(self).wf(),
            final(self).tracks@ == old(self).tracks@,
            sum_chunks_len(final(self).chunks@, final(self).tracks_v()) <= sum_chunks_len(
                old(self).chunks@,
                old(self).tracks_v(),
            ),
            done == final(self).resolved(),
            old(self).resolved() ==> final(self).chunks@ == old(self).chunks@ && done,
            resolution_reachable(
                final(self).tracks_v(),
                old(self).chunks@,
                final(self).chunks@,
            ),
            refines(final(self).chunks@, old(self).chunks@),
            forall|m: int|
                0 <= m < final(self).chunks@.len() ==> chunk_among(
                    old(self).chunks@,
                    #[trigger] final(self).chunks@[m],
                ) || meets_min_length(final(self).chunks@[m], final(self).tracks_v()),
            !done ==> resolution_reachable_n(
                final(self).tracks_v(),
                old(self).chunks@,
                final(self).chunks@,
                fuel as nat,
            ),
    {
        proof {
            lemma_reachable_refl(self.tracks_v(), self.chunks@);
            assert(resolution_reachable_n(self.tracks_v(), self.chunks@, self.chunks@, 0));
        }
        let mut steps = fuel;
        loop
            invariant
                self.wf(),
                self.tracks@ == old(self).tracks@,
                steps <= fuel,
                sum_chunks_len(self.chunks@, self.tracks_v()) <= sum_chunks_len(
                    old(self).chunks@,
                    old(self).tracks_v(),
                ),
                old(self).resolved() ==> self.chunks@ == old(self).chunks@,
                chunks_all_valid(old(self).chunks@, self.tracks_v()),
                resolution_reachable(self.tracks_v(), old(self).chunks@, self.chunks@),
                resolution_reachable_n(
                    self.tracks_v(),
                    old(self).chunks@,
                    self.chunks@,
                    (fuel - steps) as nat,
                ),
            decreases steps,
        {
            match self.find_conflicting_pair() {
                None => {
                    proof {
                        lemma_resolution_refines(
                            self.tracks_v(),
                            old(self).chunks@,
                            self.chunks@,
                        );
                    }
                    return true;
                },
                Some((i, j)) => {
                    proof {
                        if old(self).resolved() {
                            assert(self.resolved());
                            assert(false);
                        }
                    }
                    if steps == 0 {
                        proof {
                            assert(!self.resolved());
                            lemma_resolution_refines(
                                self.tracks_v(),
                                old(self).chunks@,
                                self.chunks@,
                            );
                        }
                        return false;
                    }
                    steps = steps - 1;
                    let ghost cs_before = self.chunks@;
                    let ghost tv = self.tracks_v();
                    let cj = self.chunks.remove(j);
                    let ci = self.chunks.remove(i);
                    proof {
                        lemma_sum_chunks_remove(cs_before, j as int, tv);
                        lemma_sum_chunks_remove(cs_before.remove(j as int), i as int, tv);
                        assert(cs_before.remove(j as int)[i as int] == cs_before[i as int]);
                    }
                    let ints1 = ci.get_intersections_with(&self.tracks, &cj, false);
                    let ints2 = cj.get_intersections_with(&self.tracks, &ci, false);
                    let mut n1 = ci.cut_into_chunks(&self.tracks, ints1);
                    let mut n2 = cj.cut_into_chunks(&self.tracks, ints2);
                    proof {
                        lemma_sum_chunks_concat(self.chunks@, n1@, tv);
                        lemma_sum_chunks_concat(self.chunks@ + n1@, n2@, tv);
                    }
                    self.chunks.append(&mut n1);
                    self.chunks.append(&mut n2);
                    proof {
                        assert(conflict_cut_at(tv, cs_before, i as int, j as int, self.chunks@));
                        assert(conflict_cut_step(tv, cs_before, self.chunks@));
                        lemma_step_reachable(tv, cs_before, self.chunks@);
                        lemma_reachable_trans(tv, old(self).chunks@, cs_before, self.chunks@);
                        assert(resolution_reachable_n(tv, self.chunks@, self.chunks@, 0));
                        assert(resolution_reachable_n(tv, cs_before, self.chunks@, 1));
                        lemma_reachable_n_trans(
                            tv,
                            old(self).chunks@,
                            cs_before,
                            self.chunks@,
                            (fuel - (steps + 1)) as nat,
                            1,
                        );
                    }
                },
            }
        }
    }

    /// Appends a chunk already known to be free of self-intersections, then
    /// re-resolves the whole working set.
    pub fn add_self_intersection_free_chunk(&mut self, new_chunk: Chunk, fuel: u64) -> (done: bool)
        requires
            old(self).wf(),
            chunk_valid(new_chunk, old(self).tracks_v()),
            sum_chunks_len(old(self).chunks@, old(self).tracks_v()) + total_len(
                new_chunk.pts(old(self).tracks_v()),
            ) <= sum_tracks_len(old(self).tracks_v()),
        ensures
            final(self).wf(),
            final(self).tracks@ == old(self).tracks@,
            sum_chunks_len(final(self).chunks@, final(self).tracks_v()) <= sum_chunks_len(
                old(self).chunks@,
                old(self).tracks_v(),
            ) + total_len(new_chunk.pts(old(self).tracks_v())),
            done == final(self).resolved(),
            resolution_reachable(
                final(self).tracks_v(),
                old(self).chunks@.push(new_chunk),
                final(self).chunks@,
            ),
    {
        proof {
            lemma_sum_chunks_push(self.chunks@, new_chunk, self.tracks_v());
        }
        self.chunks.push(new_chunk);
        self.split_at_all_intersections(fuel)
    }

    /// Admits a chunk: first cuts it at its own self-intersections, then
    /// adds each surviving child and re-resolves after each. Returns whether
    /// the final working set is known to be fully resolved (`false` when the
    /// chunk dissolved entirely or the step budget ran out).
    pub fn add_chunk(&mut self, new_chunk: Chunk, fuel: u64) -> (done: bool)
        requires
            old(self).wf(),
            chunk_valid(new_chunk, old(self).tracks_v()),
            sum_chunks_len(old(self).chunks@, old(self).tracks_v()) + total_len(
                new_chunk.pts(old(self).tracks_v()),
            ) <= sum_tracks_len(old(self).tracks_v()),
        ensures
            final(self).wf(),
            final(self).tracks@ == old(self).tracks@,
            done ==> final(self).resolved(),
            spec_cut(
                new_chunk,
                new_chunk.pts(old(self).tracks_v()),
                close_ranges(
                    new_chunk.pts(old(self).tracks_v()),
                    new_chunk.pts(old(self).tracks_v()),
                    true,
                ),
            ).len() == 0 ==> !done && final(self).chunks@ == old(self).chunks@,
            spec_cut(
                new_chunk,
                new_chunk.pts(old(self).tracks_v()),
                close_ranges(
                    new_chunk.pts(old(self).tracks_v()),
                    new_chunk.pts(old(self).tracks_v()),
                    true,
                ),
            ).len() > 0 ==> done == final(self).resolved(),
            admission_reachable(
                final(self).tracks_v(),
                old(self).chunks@,
                spec_cut(
                    new_chunk,
                    new_chunk.pts(old(self).tracks_v()),
                    close_ranges(
                        new_chunk.pts(old(self).tracks_v()),
                        new_chunk.pts(old(self).tracks_v()),
                        true,
                    ),
                ),
                final(self).chunks@,
            ),
            sum_chunks_len(final(self).chunks@, final(self).tracks_v()) <= sum_chunks_len(
                old(self).chunks@,
                old(self).tracks_v(),
            ) + total_len(new_chunk.pts(old(self).tracks_v())),
    {
        let ghost tv = self.tracks_v();
        let children = new_chunk.self_intersect(&self.tracks);
        proof {
            assert(children@.subrange(0, children@.len() as int) =~= children@);
            assert(children@.subrange(0, 0) =~= Seq::<Chunk>::empty());
            lemma_reachable_refl(tv, self.chunks@);
            assert(admission_reachable(tv, self.chunks@, children@.subrange(0, 0), self.chunks@));
        }
        let mut done = false;
        let mut idx: usize = 0;
        while idx < children.len()
            invariant
                idx <= children@.len(),
                self.wf(),
                self.tracks@ == old(self).tracks@,
                tv == self.tracks_v(),
                forall|m: int|
                    0 <= m < children@.len() ==> chunk_valid(#[trigger] children@[m], tv),
                sum_chunks_len(self.chunks@, tv) + sum_chunks_len(
                    children@.subrange(idx as int, children@.len() as int),
                    tv,
                ) <= sum_chunks_len(old(self).chunks@, tv) + total_len(new_chunk.pts(tv)),
                sum_chunks_len(old(self).chunks@, tv) + total_len(new_chunk.pts(tv))
                    <= sum_tracks_len(tv),
                idx == 0 ==> !done && self.chunks@ == old(self).chunks@,
                idx > 0 ==> done == self.resolved(),
                admission_reachable(
                    tv,
                    old(self).chunks@,
                    children@.subrange(0, idx as int),
                    self.chunks@,
                ),
            decreases children@.len() - idx,
        {
            let c = children[idx];
            proof {
                assert(children@.subrange(idx as int, children@.len() as int) =~= seq![c]
                    + children@.subrange(idx + 1, children@.len() as int));
                lemma_sum_chunks_concat(
                    seq![c],
                    children@.subrange(idx + 1, children@.len() as int),
                    tv,
                );
                assert(seq![c].subrange(1, 1) =~= Seq::<Chunk>::empty());
            }
            let ghost chunks_before = self.chunks@;
            done = self.add_self_intersection_free_chunk(c, fuel);
            proof {
                assert(children@.subrange(0, idx + 1).drop_last() =~= children@.subrange(
                    0,
                    idx as int,
                ));
                assert(children@.subrange(0, idx + 1).last() == c);
                assert(admission_reachable(
                    tv,
                    old(self).chunks@,
                    children@.subrange(0, idx + 1),
                    self.chunks@,
                ));
            }
            idx = idx + 1;
        }
        proof {
            assert(children@.subrange(0, children@.len() as int) =~= children@);
        }
        done
    }

    /// Builds a working set from a list of tracks: stores them all, admits
    /// each track's whole chunk in order, and finishes with one resolution
    /// pass (a pure scan when the set is already resolved) whose verdict —
    /// whether the working set is fully resolved — is returned beside the
    /// splitter.
    pub fn from_segments(segments: Vec<Vec<Point>>, fuel: u64) -> (r: (SegmentSplitter, bool))
        requires
            forall|i: int| 0 <= i < segments@.len() ==> track_wf((#[trigger] segments@[i])@),
        ensures
            r.0.wf(),
            r.0.tracks@ == segments@,
            tracks_admitted_upto(r.0.tracks_v(), segments@.len() as int, r.0.chunks@),
            r.1 == r.0.resolved(),
    {
        let ghost orig = segments@;
        let mut segments = segments;
        let mut sp = SegmentSplitter::new();
        assert(sp.tracks@ =~= orig.subrange(0, 0));
        assert(segments@ =~= orig.subrange(0, orig.len() as int));
        while segments.len() > 0
            invariant
                sp.wf(),
                sp.chunks@.len() == 0,
                segments@.len() <= orig.len(),
                sp.tracks@ == orig.subrange(0, orig.len() - segments@.len()),
                segments@ == orig.subrange(orig.len() - segments@.len(), orig.len() as int),
                forall|i: int| 0 <= i < orig.len() ==> track_wf((#[trigger] orig[i])@),
            decreases segments@.len(),
        {
            let ghost k = orig.len() - segments@.len();
            let ghost oldtv = sp.tracks_v();
            let t = segments.remove(0);
            proof {
                assert(t == orig[k]);
                assert(segments@ =~= orig.subrange(k + 1, orig.len() as int));
            }
            sp.tracks.push(t);
            proof {
                assert(sp.tracks@ =~= orig.subrange(0, k + 1));
                assert(sp.tracks_v() =~= oldtv.push(orig[k]@));
                assert(sum_chunks_len(sp.chunks@, sp.tracks_v()) == 0);
            }
        }
        proof {
            assert(sp.tracks@ =~= orig);
        }
        let ghost tv = sp.tracks_v();
        let n_tracks = sp.tracks.len();
        let mut k: usize = 0;
        assert(tracks_admitted_upto(tv, 0, sp.chunks@));
        while k < n_tracks
            invariant
                k <= n_tracks,
                n_tracks == sp.tracks@.len(),
                sp.tracks@ == orig,
                tv == sp.tracks_v(),
                sp.wf(),
                tracks_admitted_upto(tv, k as int, sp.chunks@),
                sum_chunks_len(sp.chunks@, tv) <= sum_tracks_len(tv.subrange(0, k as int)),
            decreases n_tracks - k,
        {
            let npts = sp.tracks[k].len();
            let whole = Chunk::from_entire_segment(k, npts);
            proof {
                assert(tv[k as int] == sp.tracks@[k as int]@);
                assert(whole.pts(tv) =~= tv[k as int]);
                lemma_sum_tracks_prefix(tv, k as int);
            }
            let ghost chunks_before = sp.chunks@;
            let _ = sp.add_chunk(whole, fuel);
            proof {
                assert(whole_track_children(tv, k as int) == spec_cut(
                    whole,
                    whole.pts(tv),
                    close_ranges(whole.pts(tv), whole.pts(tv), true),
                ));
                assert(admission_reachable(
                    tv,
                    chunks_before,
                    whole_track_children(tv, k as int),
                    sp.chunks@,
                ));
                assert(admission_reachable(
                    tv,
                    chunks_before,
                    whole_track_children(tv, (k + 1) - 1),
                    sp.chunks@,
                ));
                assert(tracks_admitted_upto(tv, k as int, chunks_before));
                assert(tracks_admitted_upto(tv, (k + 1) - 1, chunks_before));
                assert(tracks_admitted_upto(tv, k + 1, sp.chunks@));
            }
            k = k + 1;
        }
        let ghost sp_snap = sp;
        let fin = sp.split_at_all_intersections(fuel);
        proof {
            if sp_snap.resolved() {
                assert(sp.chunks@ == sp_snap.chunks@);
            } else {
                assert(sp_snap.chunks@.len() > 0);
                assert(n_tracks >= 1);
                let mid = choose|mid: Seq<Chunk>|
                    tracks_admitted_upto(tv, n_tracks - 1, mid) && #[trigger] admission_reachable(
                        tv,
                        mid,
                        whole_track_children(tv, n_tracks - 1),
                        sp_snap.chunks@,
                    );
                lemma_admission_absorb(
                    tv,
                    mid,
                    whole_track_children(tv, n_tracks - 1),
                    sp_snap.chunks@,
                    sp.chunks@,
                );
                assert(tracks_admitted_upto(tv, n_tracks as int, sp.chunks@));
            }
        }
        (sp, fin)
    }

    /// Admits a whole track: stores it in the arena, wraps it in a chunk and
    /// admits that chunk. Returns whether the final working set is known to
    /// be fully resolved.
    pub fn add_segment(&mut self, points: Vec<Point>, fuel: u64) -> (done: bool)
        requires
            old(self).wf(),
            track_wf(points@),
        ensures
            final(self).wf(),
            final(self).tracks@ == old(self).tracks@.push(points),
            done ==> final(self).resolved(),
            spec_cut(
                Chunk {
                    parent: old(self).tracks@.len() as usize,
                    start: 0,
                    end: points@.len() as usize,
                },
                points@,
                close_ranges(points@, points@, true),
            ).len() == 0 ==> !done && final(self).chunks@ == old(self).chunks@,
            spec_cut(
                Chunk {
                    parent: old(self).tracks@.len() as usize,
                    start: 0,
                    end: points@.len() as usize,
                },
                points@,
                close_ranges(points@, points@, true),
            ).len() > 0 ==> done == final(self).resolved(),
            admission_reachable(
                final(self).tracks_v(),
                old(self).chunks@,
                spec_cut(
                    Chunk {
                        parent: old(self).tracks@.len() as usize,
                        start: 0,
                        end: points@.len() as usize,
                    },
                    points@,
                    close_ranges(points@, points@, true),
                ),
                final(self).chunks@,
            ),
    {
        let ghost oldtv = self.tracks_v();
        let ghost pv = points@;
        let n = points.len();
        self.tracks.push(points);
        proof {
            assert(self.tracks_v() =~= oldtv.push(pv));
            lemma_sum_chunks_tracks_push(self.chunks@, oldtv, pv);
            lemma_sum_tracks_push(oldtv, pv);
            assert(forall|i: int|
                0 <= i < self.chunks@.len() ==> chunk_valid(
                    #[trigger] self.chunks@[i],
                    self.tracks_v(),
                ));
        }
        let parent = self.tracks.len() - 1;
        let c = Chunk::from_entire_segment(parent, n);
        proof {
            assert(c.pts(self.tracks_v()) =~= pv);
        }
        self.add_chunk(c, fuel)
    }
}

/// Coverage never grows: in any well-formed working set, the union of the
/// chunks' path lengths stays within the union of the input tracks' path
/// lengths; only trimming and dropping occur, never fabrication.
pub proof fn lemma_coverage_non_increase(s: SegmentSplitter)
    requires
        s.wf(),
    ensures
        sum_chunks_len(s.chunks@, s.tracks_v()) <= sum_tracks_len(s.tracks_v()),
{
}

} // verus!
