use road_bundler::{
    detect_dc_edges, detect_sidepath, detect_sidepaths, join_side, make_face, Bearing, DetectError,
    DualCarriageway, EdgeID, EdgeMeasure, FaceInput, FaceKind, Graph, IntersectionID, Measures,
    OsmEdge, OsmGraph, OsmIntersection, Polygon, Tags,
};

type P = (f64, f64);

fn tags_of(pairs: &[(&str, &str)]) -> Tags {
    let mut tags = Tags::new();
    for (k, v) in pairs {
        tags.insert(k, v);
    }
    tags
}

fn osm_edge(id: usize, src: usize, dst: usize, pts: Vec<P>, tags: &[(&str, &str)]) -> OsmEdge<P> {
    OsmEdge {
        id: EdgeID(id),
        src: IntersectionID(src),
        dst: IntersectionID(dst),
        linestring: pts,
        osm_way: id as i64,
        osm_node1: src as i64,
        osm_node2: dst as i64,
        osm_tags: tags_of(tags),
    }
}

fn osm_intersection(id: usize, edges: &[usize], point: P) -> OsmIntersection<P> {
    OsmIntersection {
        id: IntersectionID(id),
        edges: edges.iter().map(|e| EdgeID(*e)).collect(),
        point,
        osm_node: id as i64,
    }
}

fn build(edges: Vec<OsmEdge<P>>, intersections: Vec<OsmIntersection<P>>) -> Graph<P> {
    Graph::new(OsmGraph {
        edges,
        intersections,
        boundary_polygon: Polygon { exterior: Vec::new(), interiors: Vec::new() },
    })
    .expect("consistent")
}

fn ids(edges: &[usize]) -> Vec<EdgeID> {
    edges.iter().map(|e| EdgeID(*e)).collect()
}

fn face_input(boundary: &[usize]) -> FaceInput<P> {
    FaceInput {
        polygon: Polygon { exterior: Vec::new(), interiors: Vec::new() },
        boundary_edges: ids(boundary),
        internal_edges: Vec::new(),
        num_buildings: 0,
        num_other_areas: 0,
    }
}

fn measured(pairs: &[(usize, u32)]) -> Measures {
    let mut m = Measures::new();
    for (e, degrees) in pairs {
        m.set(
            EdgeID(*e),
            EdgeMeasure {
                length: 1_000_000,
                bearing: Bearing::from_degrees(*degrees),
                reverse_bearing: Bearing::from_degrees((*degrees + 180) % 360),
            },
        );
    }
    m
}

/// One carriageway runs east in two edges 0 and 1 (0 -> 1 -> 2), the
/// other west in two edges 2 and 3 (5 -> 4 -> 3); edges 4 and 5 close the
/// ends and are no oneways.
fn ring_road() -> Graph<P> {
    build(
        vec![
            osm_edge(0, 0, 1, vec![(0.0, 0.0), (50.0, 0.0)], &[("highway", "primary"), ("name", "Ring"), ("oneway", "yes")]),
            osm_edge(1, 1, 2, vec![(50.0, 0.0), (100.0, 1.0)], &[("highway", "primary"), ("name", "Ring"), ("oneway", "yes")]),
            osm_edge(2, 5, 4, vec![(100.0, 10.0), (50.0, 10.0)], &[("highway", "primary"), ("name", "Ring"), ("oneway", "yes")]),
            osm_edge(3, 4, 3, vec![(50.0, 10.0), (25.0, 11.0), (0.0, 10.0)], &[("highway", "primary"), ("name", "Ring"), ("oneway", "yes")]),
            osm_edge(4, 0, 3, vec![(0.0, 0.0), (0.0, 10.0)], &[("highway", "primary"), ("name", "Link"), ("oneway", "yes")]),
            osm_edge(5, 2, 5, vec![(100.0, 1.0), (100.0, 10.0)], &[("highway", "primary")]),
        ],
        vec![
            osm_intersection(0, &[0, 4], (0.0, 0.0)),
            osm_intersection(1, &[0, 1], (50.0, 0.0)),
            osm_intersection(2, &[1, 5], (100.0, 1.0)),
            osm_intersection(3, &[3, 4], (0.0, 10.0)),
            osm_intersection(4, &[2, 3], (50.0, 10.0)),
            osm_intersection(5, &[2, 5], (100.0, 10.0)),
        ],
    )
}

fn ring_measures() -> Measures {
    measured(&[(0, 90), (1, 89), (2, 270), (3, 270), (4, 0), (5, 0)])
}

#[test]
fn detect_dc_edges_takes_the_oneways_of_the_most_common_name() {
    let graph = ring_road();
    let face = make_face(&graph, &face_input(&[4, 0, 1, 5, 2, 3]));
    assert_eq!(face.kind, FaceKind::RoadArtifact);
    assert_eq!(detect_dc_edges(&graph, &face, &ring_measures()), Ok(ids(&[0, 1, 2, 3])));
}

#[test]
fn detect_dc_edges_says_why_there_is_none() {
    let graph = ring_road();
    let m = ring_measures();
    let mut face = make_face(&graph, &face_input(&[4, 0, 1, 5, 2, 3]));
    face.kind = FaceKind::UrbanBlock;
    assert_eq!(detect_dc_edges(&graph, &face, &m), Err(DetectError::NotRoadArtifact));
    // Edge 5 is no oneway with a name.
    let face = make_face(&graph, &face_input(&[5]));
    assert_eq!(detect_dc_edges(&graph, &face, &m), Err(DetectError::NoOneways));
    // One oneway of each name.
    let face = make_face(&graph, &face_input(&[4, 0, 5]));
    assert_eq!(detect_dc_edges(&graph, &face, &m), Err(DetectError::NotEnoughEdges));
    // What was not measured is no candidate.
    let face = make_face(&graph, &face_input(&[0, 1, 2, 3]));
    assert_eq!(detect_dc_edges(&graph, &face, &measured(&[(0, 90)])), Err(DetectError::NotEnoughEdges));
    assert_eq!(detect_dc_edges(&graph, &face, &Measures::new()), Err(DetectError::NoOneways));
}

#[test]
fn detect_dc_edges_takes_the_first_of_two_names_equally_common() {
    let graph = build(
        vec![
            osm_edge(0, 0, 1, vec![(0.0, 0.0), (1.0, 0.0)], &[("highway", "primary"), ("name", "B"), ("oneway", "yes")]),
            osm_edge(1, 1, 2, vec![(1.0, 0.0), (2.0, 0.0)], &[("highway", "primary"), ("name", "A"), ("oneway", "yes")]),
            osm_edge(2, 2, 3, vec![(2.0, 0.0), (3.0, 0.0)], &[("highway", "primary"), ("name", "A"), ("oneway", "yes")]),
            osm_edge(3, 3, 0, vec![(3.0, 0.0), (0.0, 0.0)], &[("highway", "primary"), ("name", "B"), ("oneway", "yes")]),
        ],
        vec![
            osm_intersection(0, &[0, 3], (0.0, 0.0)),
            osm_intersection(1, &[0, 1], (1.0, 0.0)),
            osm_intersection(2, &[1, 2], (2.0, 0.0)),
            osm_intersection(3, &[2, 3], (3.0, 0.0)),
        ],
    );
    let m = measured(&[(0, 90), (1, 90), (2, 90), (3, 270)]);
    let face = make_face(&graph, &face_input(&[0, 1, 2, 3]));
    assert_eq!(detect_dc_edges(&graph, &face, &m), Ok(ids(&[0, 3])));
    let face = make_face(&graph, &face_input(&[1, 0, 3, 2]));
    assert_eq!(detect_dc_edges(&graph, &face, &m), Ok(ids(&[1, 2])));
}

#[test]
fn join_side_joins_edges_end_to_end() {
    let graph = ring_road();
    assert_eq!(join_side(&graph, &ids(&[0, 1])), Some(vec![(0.0, 0.0), (50.0, 0.0), (100.0, 1.0)]));
    // The second edge comes before the first: it is put in front.
    assert_eq!(join_side(&graph, &ids(&[1, 0])), Some(vec![(0.0, 0.0), (50.0, 0.0), (100.0, 1.0)]));
    assert_eq!(
        join_side(&graph, &ids(&[3, 2])),
        Some(vec![(100.0, 10.0), (50.0, 10.0), (25.0, 11.0), (0.0, 10.0)])
    );
    // An edge that runs the other way is turned round.
    assert_eq!(
        join_side(&graph, &ids(&[0, 4])),
        Some(vec![(0.0, 10.0), (0.0, 0.0), (50.0, 0.0)])
    );
    assert_eq!(
        join_side(&graph, &ids(&[4, 3])),
        Some(vec![(0.0, 0.0), (0.0, 10.0), (25.0, 11.0), (50.0, 10.0)])
    );
    assert_eq!(join_side(&graph, &ids(&[2])), Some(vec![(100.0, 10.0), (50.0, 10.0)]));
}

#[test]
fn join_side_fails_on_edges_that_do_not_join_up() {
    let graph = ring_road();
    assert_eq!(join_side(&graph, &ids(&[])), None);
    assert_eq!(join_side(&graph, &ids(&[0, 2])), None);
    assert_eq!(join_side(&graph, &ids(&[0, 1, 3])), None);
}

#[test]
fn maybe_new_sorts_the_edges_into_two_directions() {
    let graph = ring_road();
    let face = make_face(&graph, &face_input(&[4, 0, 1, 5, 2, 3]));
    let dc = DualCarriageway::maybe_new(&graph, &face, &ring_measures()).expect("a dual carriageway");
    assert_eq!(dc.name, "Ring");
    // By rising bearing: 89 (edge 1), 90 (edge 0), then 270 (edges 2, 3).
    assert_eq!(dc.side1, ids(&[1, 0]));
    assert_eq!(dc.side2, ids(&[2, 3]));
    assert_eq!(dc.side1_line, vec![(0.0, 0.0), (50.0, 0.0), (100.0, 1.0)]);
    assert_eq!(dc.side2_line, vec![(100.0, 10.0), (50.0, 10.0), (25.0, 11.0), (0.0, 10.0)]);
}

#[test]
fn maybe_new_says_why_there_is_none() {
    let graph = ring_road();
    let face = make_face(&graph, &face_input(&[5]));
    assert_eq!(DualCarriageway::maybe_new(&graph, &face, &ring_measures()).err(), Some(DetectError::NoOneways));
    // All four edges head about east: one side is empty.
    let face = make_face(&graph, &face_input(&[0, 1, 2, 3]));
    let m = measured(&[(0, 90), (1, 89), (2, 91), (3, 92)]);
    assert_eq!(DualCarriageway::maybe_new(&graph, &face, &m).err(), Some(DetectError::SidesDidNotCoalesce));
    // Edges 0 and 2 on one side do not touch.
    let m = measured(&[(0, 90), (2, 91), (1, 270), (3, 271)]);
    assert_eq!(DualCarriageway::maybe_new(&graph, &face, &m).err(), Some(DetectError::SidesDidNotCoalesce));
}

/// A road 0 with a footway 1 beside it and a crossing 2 between them; a
/// road 3 runs across.
fn with_sidepath() -> Graph<P> {
    build(
        vec![
            osm_edge(0, 0, 1, vec![(0.0, 0.0), (100.0, 0.0)], &[("highway", "residential")]),
            osm_edge(1, 2, 3, vec![(0.0, 5.0), (100.0, 5.0)], &[("highway", "footway")]),
            osm_edge(2, 1, 3, vec![(100.0, 0.0), (100.0, 5.0)], &[("highway", "footway"), ("footway", "crossing")]),
            osm_edge(3, 0, 2, vec![(0.0, 0.0), (0.0, 5.0)], &[("highway", "residential")]),
        ],
        vec![
            osm_intersection(0, &[0, 3], (0.0, 0.0)),
            osm_intersection(1, &[0, 2], (100.0, 0.0)),
            osm_intersection(2, &[1, 3], (0.0, 5.0)),
            osm_intersection(3, &[1, 2], (100.0, 5.0)),
        ],
    )
}

#[test]
fn detect_sidepath_sorts_the_boundary() {
    let graph = with_sidepath();
    let face = make_face(&graph, &face_input(&[0, 2, 1, 3]));
    assert_eq!(face.kind, FaceKind::SidepathArtifact);
    let m = measured(&[(0, 90), (1, 270), (2, 0), (3, 0)]);
    let found = detect_sidepath(&graph, &face, &m).ok().expect("a sidepath");
    assert_eq!(found.sidepath_edges, ids(&[1]));
    assert_eq!(found.connector_edges, ids(&[2]));
    // Road 0 runs anti-parallel to the footway, road 3 across it.
    assert_eq!(found.road_edges, ids(&[0]));
    assert_eq!(found.clone().road_edges, ids(&[0]));
}

#[test]
fn detect_sidepath_says_why_there_is_none() {
    let graph = with_sidepath();
    let m = measured(&[(0, 90), (1, 270), (2, 0), (3, 0)]);
    let face = make_face(&graph, &face_input(&[0, 3]));
    assert_eq!(detect_sidepath(&graph, &face, &m).err(), Some(DetectError::NotSidepathArtifact));
    // Only a crossing on the boundary: no sidepath.
    let face = make_face(&graph, &face_input(&[0, 2]));
    assert_eq!(detect_sidepath(&graph, &face, &m).err(), Some(DetectError::SidepathOrRoadMissing));
    // No road runs parallel.
    let face = make_face(&graph, &face_input(&[1, 3]));
    assert_eq!(detect_sidepath(&graph, &face, &m).err(), Some(DetectError::SidepathOrRoadMissing));
    // A road that was not measured is not parallel to anything.
    let face = make_face(&graph, &face_input(&[0, 1]));
    assert_eq!(detect_sidepath(&graph, &face, &measured(&[(1, 270)])).err(), Some(DetectError::SidepathOrRoadMissing));
    assert!(detect_sidepath(&graph, &face, &m).is_ok());
}

#[test]
fn detect_sidepaths_passes_over_faces_without_one() {
    let graph = with_sidepath();
    let m = measured(&[(0, 90), (1, 270), (2, 0), (3, 0)]);
    let faces = vec![
        make_face(&graph, &face_input(&[0, 3])),
        make_face(&graph, &face_input(&[0, 2, 1, 3])),
        make_face(&graph, &face_input(&[1, 3])),
        make_face(&graph, &face_input(&[1, 0])),
    ];
    let plans = detect_sidepaths(&graph, &faces, &m);
    assert_eq!(plans.len(), 2);
    assert_eq!(plans[0].connector_edges, ids(&[2]));
    assert_eq!(plans[1].sidepath_edges, ids(&[1]));
    assert_eq!(plans[1].road_edges, ids(&[0]));
    assert!(plans[1].connector_edges.is_empty());
}
