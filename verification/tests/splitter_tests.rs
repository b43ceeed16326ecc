use track_splitter::chunk::Chunk;
use track_splitter::chunk::Intersection;
use track_splitter::geom_utils::path_length;
use track_splitter::geom_utils::Point;
use track_splitter::segment_splitter::SegmentSplitter;

const FUEL: u64 = 10_000;

fn p(x: i64, y: i64) -> Point {
    Point { x, y }
}

/// A horizontal track y = 0 with points x = 3, 8, ..., 128 (spacing 5).
fn horizontal_track(n: usize) -> Vec<Point> {
    (0..n).map(|k| p(3 + 5 * k as i64, 0)).collect()
}

/// A vertical track at the given x with points y = -57, -52, ..., 68.
fn vertical_track(x: i64) -> Vec<Point> {
    (0..26).map(|k| p(x, -57 + 5 * k as i64)).collect()
}

/// A track that runs east, loops up and around, descends across its own
/// entry leg near (50, 0) and leaves south. Average spacing is exactly 5.
fn loop_track() -> Vec<Point> {
    let mut t = Vec::new();
    for x in (0..=100).step_by(5) {
        t.push(p(x, 0));
    }
    for y in (5..=50).step_by(5) {
        t.push(p(100, y));
    }
    let mut x = 95;
    while x >= 55 {
        t.push(p(x, 50));
        x -= 5;
    }
    t.push(p(52, 50));
    let mut y = 45;
    while y >= -30 {
        t.push(p(52, y));
        y -= 5;
    }
    t.push(p(52, -37));
    t
}

fn ranges(sp: &SegmentSplitter) -> Vec<(usize, usize, usize)> {
    sp.chunks.iter().map(|c| (c.parent, c.start, c.end)).collect()
}

#[test]
fn test_simple_intersection_1() {
    let mut sp = SegmentSplitter::new();
    assert!(sp.add_segment(horizontal_track(26), FUEL));
    assert!(sp.add_segment(vertical_track(50), FUEL));
    assert_eq!(sp.chunks.len(), 4);
    assert_eq!(ranges(&sp), vec![(0, 0, 8), (0, 11, 26), (1, 0, 10), (1, 13, 26)]);
}

#[test]
fn test_simple_intersection_2() {
    let mut sp = SegmentSplitter::new();
    assert!(sp.add_segment(horizontal_track(61), FUEL));
    assert!(sp.add_segment(vertical_track(50), FUEL));
    assert!(sp.add_segment(vertical_track(250), FUEL));
    assert_eq!(sp.chunks.len(), 7);
    assert_eq!(
        ranges(&sp),
        vec![
            (0, 0, 8),
            (1, 0, 10),
            (1, 13, 26),
            (0, 11, 48),
            (0, 51, 61),
            (2, 0, 10),
            (2, 13, 26),
        ]
    );
}

#[test]
fn test_self_intersection() {
    let mut sp = SegmentSplitter::new();
    sp.add_segment(loop_track(), FUEL);
    // entry leg, loop body, exit leg
    assert_eq!(sp.chunks.len(), 3);
    assert_eq!(ranges(&sp), vec![(0, 0, 9), (0, 12, 49), (0, 51, 58)]);
}

#[test]
fn test_no_residual_cross_proximity() {
    let mut sp = SegmentSplitter::new();
    assert!(sp.add_segment(horizontal_track(26), FUEL));
    assert!(sp.add_segment(vertical_track(50), FUEL));
    for i in 0..sp.chunks.len() {
        for j in 0..sp.chunks.len() {
            if i != j && sp.chunks[i].parent != sp.chunks[j].parent {
                let ints = sp.chunks[i].get_intersections_with(&sp.tracks, &sp.chunks[j], false);
                assert!(ints.is_empty());
            }
        }
    }
}

#[test]
fn test_no_residual_self_intersection() {
    let mut sp = SegmentSplitter::new();
    sp.add_segment(loop_track(), FUEL);
    assert!(sp.add_segment(horizontal_track(26), FUEL));
    for c in sp.chunks.iter() {
        let ints = c.get_intersections_with(&sp.tracks, c, true);
        assert!(ints.is_empty());
    }
}

#[test]
fn test_idempotent_resolution() {
    let mut sp = SegmentSplitter::new();
    assert!(sp.add_segment(horizontal_track(26), FUEL));
    assert!(sp.add_segment(vertical_track(50), FUEL));
    let before = ranges(&sp);
    assert!(sp.split_at_all_intersections(FUEL));
    assert_eq!(ranges(&sp), before);
}

#[test]
fn test_coverage_non_increase() {
    let mut sp = SegmentSplitter::new();
    assert!(sp.add_segment(horizontal_track(26), FUEL));
    assert!(sp.add_segment(vertical_track(50), FUEL));
    let chunk_total: u64 = sp
        .chunks
        .iter()
        .map(|c| c.length_between(&sp.tracks, 0, c.end - c.start))
        .sum();
    let track_total: u64 = sp.tracks.iter().map(|t| path_length(t, 0, t.len())).sum();
    assert!(chunk_total <= track_total);
}

#[test]
fn test_minimum_chunk_length() {
    let mut sp = SegmentSplitter::new();
    assert!(sp.add_segment(horizontal_track(26), FUEL));
    assert!(sp.add_segment(vertical_track(50), FUEL));
    sp.add_segment(loop_track(), FUEL);
    for c in sp.chunks.iter() {
        let n = c.end - c.start;
        let len = c.length_between(&sp.tracks, 0, n);
        let avg = c.get_average_distance_next_point(&sp.tracks);
        assert!(len >= 4 * avg);
    }
}

#[test]
fn test_get_intersections_exact() {
    let mut sp = SegmentSplitter::new();
    sp.tracks.push(horizontal_track(26));
    sp.tracks.push(vertical_track(50));
    let a = Chunk { parent: 0, start: 0, end: 26 };
    let b = Chunk { parent: 1, start: 0, end: 26 };
    let ab = a.get_intersections_with(&sp.tracks, &b, false);
    assert_eq!(ab.len(), 1);
    assert_eq!(ab[0], Intersection { start: 7, end: 11 });
    let ba = b.get_intersections_with(&sp.tracks, &a, false);
    assert_eq!(ba.len(), 1);
    assert_eq!(ba[0], Intersection { start: 9, end: 13 });
}

#[test]
fn test_cut_into_chunks_exact() {
    let tracks = vec![(0..21).map(|k| p(5 * k as i64, 0)).collect::<Vec<Point>>()];
    let c = Chunk { parent: 0, start: 0, end: 21 };
    let children = c.cut_into_chunks(&tracks, vec![Intersection { start: 8, end: 10 }]);
    assert_eq!(children.len(), 2);
    assert_eq!(children[0], Chunk { parent: 0, start: 0, end: 9 });
    assert_eq!(children[1], Chunk { parent: 0, start: 10, end: 21 });
}

#[test]
fn test_cut_without_intersections_keeps_whole() {
    let tracks = vec![(0..21).map(|k| p(5 * k as i64, 0)).collect::<Vec<Point>>()];
    let c = Chunk { parent: 0, start: 0, end: 21 };
    let children = c.cut_into_chunks(&tracks, Vec::new());
    assert_eq!(children, vec![Chunk { parent: 0, start: 0, end: 21 }]);
}

#[test]
fn test_self_intersect_on_straight_track_keeps_whole() {
    let tracks = vec![horizontal_track(26)];
    let c = Chunk { parent: 0, start: 0, end: 26 };
    let children = c.self_intersect(&tracks);
    assert_eq!(children, vec![c]);
}

#[test]
fn test_intersect_with_cuts_at_crossing() {
    let tracks = vec![horizontal_track(26), vertical_track(50)];
    let a = Chunk { parent: 0, start: 0, end: 26 };
    let b = Chunk { parent: 1, start: 0, end: 26 };
    let children = a.intersect_with(&tracks, &b);
    assert_eq!(children, vec![
        Chunk { parent: 0, start: 0, end: 8 },
        Chunk { parent: 0, start: 11, end: 26 },
    ]);
}

#[test]
fn test_empty_splitter_is_resolved() {
    let mut sp = SegmentSplitter::new();
    assert!(sp.chunks.is_empty());
    assert!(sp.tracks.is_empty());
    assert!(sp.split_at_all_intersections(0));
    assert!(sp.chunks.is_empty());
}

#[test]
fn test_degenerate_track_dissolves() {
    let mut sp = SegmentSplitter::new();
    // all points identical: zero length, every candidate below threshold
    sp.add_segment(vec![p(7, 7); 5], FUEL);
    assert_eq!(sp.tracks.len(), 1);
    assert!(sp.chunks.is_empty());
}

#[test]
fn test_fuel_exhaustion_reports_unfinished() {
    let mut sp = SegmentSplitter::new();
    assert!(sp.add_segment(horizontal_track(26), FUEL));
    // no budget to resolve the crossing: the resolver must say so
    assert!(!sp.add_segment(vertical_track(50), 0));
    // with budget restored the same state resolves to the 4 chunks
    assert!(sp.split_at_all_intersections(FUEL));
    assert_eq!(sp.chunks.len(), 4);
}

#[test]
fn test_minimum_edge_count_boundary() {
    // a whole track survives its own admission cut only when it has more
    // edges than CHUNK_DISTANCE_THRESHOLD (= 4)
    let mut sp = SegmentSplitter::new();
    sp.add_segment((0..5).map(|k| p(10 * k as i64, 0)).collect(), FUEL);
    assert!(sp.chunks.is_empty());
    sp.add_segment((0..6).map(|k| p(10 * k as i64, 1000)).collect(), FUEL);
    assert_eq!(ranges(&sp), vec![(1, 0, 6)]);
}

#[test]
fn test_points_slice() {
    let tracks = vec![horizontal_track(26)];
    let c = Chunk { parent: 0, start: 2, end: 5 };
    let pts = c.points(&tracks);
    assert_eq!(pts, &[p(13, 0), p(18, 0), p(23, 0)]);
}

#[test]
fn test_average_distance() {
    let tracks = vec![horizontal_track(26)];
    let c = Chunk { parent: 0, start: 0, end: 26 };
    assert_eq!(c.get_average_distance_next_point(&tracks), 5);
    assert_eq!(c.length_between(&tracks, 0, 26), 125);
    assert_eq!(c.length_between(&tracks, 3, 7), 15);
}

#[test]
fn test_from_segments() {
    let (sp, done) = SegmentSplitter::from_segments(
        vec![horizontal_track(26), vertical_track(50)],
        FUEL,
    );
    assert!(done);
    assert_eq!(sp.tracks.len(), 2);
    assert_eq!(sp.chunks.len(), 4);
}

#[test]
fn test_add_self_intersection_free_chunk() {
    let mut sp = SegmentSplitter::new();
    sp.tracks.push(horizontal_track(26));
    let c = Chunk { parent: 0, start: 0, end: 26 };
    assert!(sp.add_self_intersection_free_chunk(c, FUEL));
    assert_eq!(sp.chunks, vec![c]);
}
