use track_splitter::geom_utils::euclidean_distance;
use track_splitter::geom_utils::isqrt;
use track_splitter::geom_utils::line_segments_distance;
use track_splitter::geom_utils::path_length;
use track_splitter::geom_utils::Point;

fn p(x: i64, y: i64) -> Point {
    Point { x, y }
}

#[test]
fn test_euclidean_distance_exact() {
    assert_eq!(euclidean_distance(&p(0, 0), &p(3, 4)), 5);
    assert_eq!(euclidean_distance(&p(0, 0), &p(0, 0)), 0);
    // isqrt(5) = 2: the distance rounds down
    assert_eq!(euclidean_distance(&p(0, 0), &p(2, 1)), 2);
    // symmetric
    assert_eq!(
        euclidean_distance(&p(-7, 11), &p(20, -3)),
        euclidean_distance(&p(20, -3), &p(-7, 11))
    );
    // extremes of the coordinate range
    assert_eq!(
        euclidean_distance(&p(-1_000_000_000, 0), &p(1_000_000_000, 0)),
        2_000_000_000
    );
}

#[test]
fn test_isqrt_exact() {
    assert_eq!(isqrt(0), 0);
    assert_eq!(isqrt(3), 1);
    assert_eq!(isqrt(4), 2);
    assert_eq!(isqrt(5), 2);
    assert_eq!(isqrt(1_000_000_000_000), 1_000_000);
    assert_eq!(isqrt(8_000_000_000_000_000_000), 2_828_427_124);
}

#[test]
fn test_line_segments_distance_is_min_of_endpoints() {
    let p11 = p(0, 0);
    let p12 = p(10, 0);
    let p21 = p(13, 4);
    let p22 = p(100, 50);
    // nearest endpoint pair is (p12, p21): distance 5
    assert_eq!(line_segments_distance(&p11, &p12, &p21, &p22), 5);
    // symmetric under swapping the two segments
    assert_eq!(
        line_segments_distance(&p21, &p22, &p11, &p12),
        line_segments_distance(&p11, &p12, &p21, &p22)
    );
}

#[test]
fn test_path_length_windows() {
    let pts = vec![p(0, 0), p(5, 0), p(10, 0), p(10, 5), p(10, 10)];
    assert_eq!(path_length(&pts, 0, 5), 20);
    assert_eq!(path_length(&pts, 1, 4), 10);
    assert_eq!(path_length(&pts, 2, 3), 0);
    assert_eq!(path_length(&pts, 3, 3), 0);
}
