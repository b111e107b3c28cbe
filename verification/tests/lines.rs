use geo::{Closest, ClosestPoint, Coord, Distance, Euclidean, InterpolatableLine, LineString, Point};
use road_bundler::{line_slice, linestring_along_polygon, linestring_endpoints, ring_arc};

#[test]
fn ring_arc_goes_with_the_ring() {
    let ring = vec!['a', 'b', 'c', 'd', 'e', 'a'];
    assert_eq!(ring_arc(&ring, 1, 3, 'x', 'y'), vec!['x', 'c', 'd', 'y']);
    assert_eq!(ring_arc(&ring, 0, 1, 'x', 'y'), vec!['x', 'b', 'y']);
    assert_eq!(ring_arc(&ring, 2, 2, 'x', 'y'), vec!['x', 'y']);
    // Past the seam: the point at the seam once, then on to the segment of the end.
    assert_eq!(ring_arc(&ring, 3, 1, 'x', 'y'), vec!['x', 'e', 'a', 'b', 'y']);
    assert_eq!(ring_arc(&ring, 4, 0, 'x', 'y'), vec!['x', 'a', 'y']);
    assert_eq!(ring_arc(&ring, 4, 2, 'x', 'y'), vec!['x', 'a', 'b', 'c', 'y']);
}

#[test]
fn ring_arcs_of_a_square_lie_on_its_boundary() {
    let square = vec![(0, 0), (10, 0), (10, 10), (0, 10), (0, 0)];
    // From a place on the top side round to a place on the right side, and back.
    assert_eq!(
        ring_arc(&square, 2, 1, (5, 10), (10, 5)),
        vec![(5, 10), (0, 10), (0, 0), (10, 0), (10, 5)]
    );
    assert_eq!(ring_arc(&square, 1, 2, (10, 5), (5, 10)), vec![(10, 5), (10, 10), (5, 10)]);
}

#[test]
fn line_slice_runs_with_the_line() {
    let line = vec!['a', 'b', 'c', 'd', 'e'];
    assert_eq!(line_slice(&line, 1, 3, 'x', 'y'), vec!['x', 'c', 'd', 'y']);
    assert_eq!(line_slice(&line, 2, 2, 'x', 'y'), vec!['x', 'y']);
    // The place for the last end comes first on the line.
    assert_eq!(line_slice(&line, 3, 1, 'x', 'y'), vec!['y', 'c', 'd', 'x']);
    assert_eq!(line_slice(&line, 4, 0, 'x', 'y'), vec!['y', 'b', 'c', 'd', 'e', 'x']);
}

#[test]
fn linestring_endpoints_are_the_starts_and_the_last_end() {
    assert_eq!(linestring_endpoints(&vec![vec![1, 2, 3]]), vec![1, 3]);
    assert_eq!(linestring_endpoints(&vec![vec![1, 2], vec![2, 5, 6], vec![6, 9]]), vec![1, 2, 6, 9]);
    assert_eq!(linestring_endpoints(&vec![vec![4]]), vec![4, 4]);
}

#[test]
fn linestring_along_polygon_has_a_threshold_of_a_metre_and_a_half() {
    assert!(linestring_along_polygon(&vec![(1_500_000, 9_000_000)]));
    assert!(linestring_along_polygon(&vec![(9_000_000, 1_500_000)]));
    assert!(!linestring_along_polygon(&vec![(1_500_001, 1_500_001)]));
    // One ring is enough, hole or outer ring.
    assert!(linestring_along_polygon(&vec![(9_000_000, 9_000_000), (0, 9_000_000)]));
    assert!(!linestring_along_polygon(&vec![(9_000_000, 9_000_000), (2_000_000, 9_000_000)]));
    assert!(!linestring_along_polygon(&vec![]));
}

/// The place on the ring nearest to `to`: the segment and the point on it.
fn nearest_on_ring(ring: &LineString, to: Coord) -> (usize, Coord) {
    let mut best = (0, Coord { x: 0.0, y: 0.0 });
    let mut best_distance = f64::MAX;
    for (idx, segment) in ring.lines().enumerate() {
        let distance = Euclidean.distance(&segment, to);
        if distance < best_distance {
            match segment.closest_point(&Point(to)) {
                Closest::SinglePoint(p) | Closest::Intersection(p) => {
                    best_distance = distance;
                    best = (idx, p.0);
                }
                Closest::Indeterminate => {}
            }
        }
    }
    best
}

fn midpoint_distance_in_micrometres(ls: &LineString, arc: Vec<Coord>) -> u64 {
    let mut arc = arc;
    arc.dedup();
    let arc = LineString::new(arc);
    let a = ls.point_at_ratio_from_start(&Euclidean, 0.5).expect("midpoint of the linestring");
    let b = arc.point_at_ratio_from_start(&Euclidean, 0.5).expect("midpoint of the arc");
    (Euclidean.distance(a, b) * 1e6) as u64
}

#[test]
fn test_linestring_along_polygon() {
    let polygon: Vec<Coord> = vec![
        (190.27018273197035, 40.652921341231966),
        (190.64442074619154, 48.99255242185941),
        (190.76417696796278, 53.86289682226529),
        (195.98105752788405, 65.92756309347502),
        (200.80124533496718, 54.8858915789639),
        (200.82369983516554, 49.55964722471585),
        (200.8087302478395, 41.15329923467984),
        (200.50185478053908, 32.35776843862882),
        (200.09767759166579, 23.962539814284945),
        (195.78645360790114, 17.746734760574007),
        (190.76417696796278, 25.408075950912142),
        (190.49472558818678, 33.10277547674527),
        (190.27018273197035, 40.652921341231966),
    ]
    .into_iter()
    .map(|(x, y)| Coord { x, y })
    .collect();
    let ls = LineString::from(vec![
        (190.27018264451632, 40.65292133361041),
        (190.64442083873556, 48.99255235061214),
        (190.76417706118355, 53.862896864869825),
        (195.98105748674922, 65.92756307056125),
    ]);
    let ring = LineString::new(polygon.clone());
    let (first_idx, first_coord) = nearest_on_ring(&ring, ls.0[0]);
    let (last_idx, last_coord) = nearest_on_ring(&ring, ls.0[ls.0.len() - 1]);
    let forwards = ring_arc(&polygon, first_idx, last_idx, first_coord, last_coord);
    let backwards = ring_arc(&polygon, last_idx, first_idx, last_coord, first_coord);
    let distances = vec![(
        midpoint_distance_in_micrometres(&ls, forwards),
        midpoint_distance_in_micrometres(&ls, backwards),
    )];
    assert!(linestring_along_polygon(&distances));
}
