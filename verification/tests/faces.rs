use road_bundler::{
    classify_face, find_connections, keep_edge, make_face, make_faces, AreaKind, DetectError,
    EdgeID, FaceInput, FaceKind, Graph, IntersectionID, OsmEdge, OsmGraph, OsmIntersection,
    Polygon, Tags,
};

type P = (f64, f64);

fn tags_of(pairs: &[(&str, &str)]) -> Tags {
    let mut tags = Tags::new();
    for (k, v) in pairs {
        tags.insert(k, v);
    }
    tags
}

fn osm_edge(id: usize, src: usize, dst: usize, pts: Vec<P>, tags: &[(&str, &str)]) -> OsmEdge<P> {
    OsmEdge {
        id: EdgeID(id),
        src: IntersectionID(src),
        dst: IntersectionID(dst),
        linestring: pts,
        osm_way: id as i64,
        osm_node1: src as i64,
        osm_node2: dst as i64,
        osm_tags: tags_of(tags),
    }
}

fn osm_intersection(id: usize, edges: &[usize], point: P) -> OsmIntersection<P> {
    OsmIntersection {
        id: IntersectionID(id),
        edges: edges.iter().map(|e| EdgeID(*e)).collect(),
        point,
        osm_node: id as i64,
    }
}

fn empty_polygon() -> Polygon<P> {
    Polygon { exterior: Vec::new(), interiors: Vec::new() }
}

/// A block of four edges 0..3 round the intersections 0..3; edge 3 is a
/// parking aisle, edge 2 a footway. Edge 4 leaves intersection 1, edge 5
/// leaves intersection 3, edge 6 lies apart.
fn block() -> Graph<P> {
    Graph::new(OsmGraph {
        edges: vec![
            osm_edge(0, 0, 1, vec![(0.0, 0.0), (10.0, 0.0)], &[("highway", "residential")]),
            osm_edge(1, 1, 2, vec![(10.0, 0.0), (10.0, 10.0)], &[("highway", "residential")]),
            osm_edge(2, 2, 3, vec![(10.0, 10.0), (0.0, 10.0)], &[("highway", "footway")]),
            osm_edge(3, 3, 0, vec![(0.0, 10.0), (0.0, 0.0)], &[("highway", "service"), ("service", "parking_aisle")]),
            osm_edge(4, 1, 4, vec![(10.0, 0.0), (20.0, 0.0)], &[("highway", "residential")]),
            osm_edge(5, 5, 3, vec![(0.0, 20.0), (0.0, 10.0)], &[("highway", "residential")]),
            osm_edge(6, 4, 6, vec![(20.0, 0.0), (30.0, 0.0)], &[("highway", "residential")]),
        ],
        intersections: vec![
            osm_intersection(0, &[0, 3], (0.0, 0.0)),
            osm_intersection(1, &[0, 1, 4], (10.0, 0.0)),
            osm_intersection(2, &[1, 2], (10.0, 10.0)),
            osm_intersection(3, &[2, 3, 5], (0.0, 10.0)),
            osm_intersection(4, &[4, 6], (20.0, 0.0)),
            osm_intersection(5, &[5], (0.0, 20.0)),
            osm_intersection(6, &[6], (30.0, 0.0)),
        ],
        boundary_polygon: empty_polygon(),
    })
    .expect("consistent")
}

fn ids(edges: &[usize]) -> Vec<EdgeID> {
    edges.iter().map(|e| EdgeID(*e)).collect()
}

fn input(boundary: &[usize], internal: &[usize], buildings: usize, others: usize) -> FaceInput<P> {
    FaceInput {
        polygon: Polygon { exterior: vec![(0.0, 0.0), (10.0, 0.0), (10.0, 10.0), (0.0, 0.0)], interiors: Vec::new() },
        boundary_edges: ids(boundary),
        internal_edges: ids(internal),
        num_buildings: buildings,
        num_other_areas: others,
    }
}

#[test]
fn face_kind_goes_by_precedence() {
    // A building beats everything.
    assert_eq!(classify_face(1, 1, true, true, true), FaceKind::UrbanBlock);
    assert_eq!(classify_face(3, 0, false, false, false), FaceKind::UrbanBlock);
    // Another area beats the boundary.
    assert_eq!(classify_face(0, 1, true, true, true), FaceKind::OtherArea);
    // A mixed boundary beats a parking aisle.
    assert_eq!(classify_face(0, 0, true, true, true), FaceKind::SidepathArtifact);
    assert_eq!(classify_face(0, 0, true, true, false), FaceKind::SidepathArtifact);
    // A parking aisle makes an urban block of what is left.
    assert_eq!(classify_face(0, 0, true, false, true), FaceKind::UrbanBlock);
    // And the rest are road artifacts.
    assert_eq!(classify_face(0, 0, true, false, false), FaceKind::RoadArtifact);
    assert_eq!(classify_face(0, 0, false, true, false), FaceKind::RoadArtifact);
    assert_eq!(classify_face(0, 0, false, false, false), FaceKind::RoadArtifact);
}

#[test]
fn a_face_with_a_building_an_area_and_a_parking_aisle_is_an_urban_block() {
    let graph = block();
    let face = make_face(&graph, &input(&[0, 1, 3], &[], 1, 1));
    assert_eq!(face.kind, FaceKind::UrbanBlock);
    // Without the building the other area decides, not the parking aisle.
    assert_eq!(make_face(&graph, &input(&[0, 1, 3], &[], 0, 1)).kind, FaceKind::OtherArea);
    // Without either the parking aisle decides.
    assert_eq!(make_face(&graph, &input(&[0, 1, 3], &[], 0, 0)).kind, FaceKind::UrbanBlock);
}

#[test]
fn make_face_reads_the_kind_off_the_boundary() {
    let graph = block();
    assert_eq!(make_face(&graph, &input(&[0, 1], &[], 0, 0)).kind, FaceKind::RoadArtifact);
    assert_eq!(make_face(&graph, &input(&[2], &[], 0, 0)).kind, FaceKind::RoadArtifact);
    assert_eq!(make_face(&graph, &input(&[0, 1, 2], &[], 0, 0)).kind, FaceKind::SidepathArtifact);
    // Sidepaths next to a parking aisle still make a sidepath artifact.
    assert_eq!(make_face(&graph, &input(&[0, 1, 2, 3], &[], 0, 0)).kind, FaceKind::SidepathArtifact);
    assert_eq!(make_face(&graph, &input(&[], &[], 0, 0)).kind, FaceKind::RoadArtifact);
}

#[test]
fn find_connections_lists_the_ends_and_what_else_ends_there() {
    let graph = block();
    let (intersections, connecting) = find_connections(&graph, &ids(&[0, 1, 2, 3]));
    assert_eq!(intersections, vec![IntersectionID(0), IntersectionID(1), IntersectionID(2), IntersectionID(3)]);
    assert_eq!(connecting, ids(&[4, 5]));
    let (intersections, connecting) = find_connections(&graph, &ids(&[1]));
    assert_eq!(intersections, vec![IntersectionID(1), IntersectionID(2)]);
    assert_eq!(connecting, ids(&[0, 2, 4]));
    // Whatever the order of the boundary, the lists rise.
    let (intersections, connecting) = find_connections(&graph, &ids(&[5, 0]));
    assert_eq!(intersections, vec![IntersectionID(0), IntersectionID(1), IntersectionID(3), IntersectionID(5)]);
    assert_eq!(connecting, ids(&[1, 2, 3, 4]));
    let (intersections, connecting) = find_connections(&graph, &ids(&[]));
    assert!(intersections.is_empty());
    assert!(connecting.is_empty());
}

#[test]
fn make_faces_gives_one_face_for_each_polygon_in_order() {
    let graph = block();
    let faces = make_faces(&graph, &vec![input(&[0, 1, 2, 3], &[], 2, 0), input(&[4, 6], &[5], 0, 0)]);
    assert_eq!(faces.len(), 2);
    assert_eq!(faces[0].kind, FaceKind::UrbanBlock);
    assert_eq!(faces[0].boundary_edges, ids(&[0, 1, 2, 3]));
    assert_eq!(faces[0].connecting_edges, ids(&[4, 5]));
    assert_eq!(faces[0].polygon.exterior.len(), 4);
    assert_eq!(faces[1].kind, FaceKind::RoadArtifact);
    assert_eq!(faces[1].boundary_edges, ids(&[4, 6]));
    assert_eq!(faces[1].internal_edges, ids(&[5]));
    assert_eq!(faces[1].boundary_intersections, vec![IntersectionID(1), IntersectionID(4), IntersectionID(6)]);
    assert_eq!(faces[1].connecting_edges, ids(&[0, 1]));
    let copy = faces[1].clone();
    assert_eq!(copy.boundary_edges, faces[1].boundary_edges);
    assert_eq!(copy.kind, faces[1].kind);
}

#[test]
fn an_edge_along_the_boundary_is_no_internal_edge() {
    let graph = block();
    let face = make_face(&graph, &input(&[0, 1], &[4, 1, 6, 0, 5], 0, 0));
    assert_eq!(face.boundary_edges, ids(&[0, 1]));
    assert_eq!(face.internal_edges, ids(&[4, 6, 5]));
    assert!(face.internal_edges.iter().all(|e| !face.boundary_edges.contains(e)));
}

#[test]
fn area_kind_follows_the_tags() {
    assert_eq!(AreaKind::from_tags(&tags_of(&[("building", "yes")])), Some(AreaKind::Building));
    assert_eq!(AreaKind::from_tags(&tags_of(&[("building", "shed"), ("leisure", "park")])), Some(AreaKind::Building));
    assert_eq!(AreaKind::from_tags(&tags_of(&[("leisure", "park"), ("natural", "water")])), Some(AreaKind::Park));
    assert_eq!(AreaKind::from_tags(&tags_of(&[("natural", "water")])), Some(AreaKind::Water));
    assert_eq!(AreaKind::from_tags(&tags_of(&[("leisure", "pitch")])), None);
    assert_eq!(AreaKind::from_tags(&tags_of(&[])), None);
    assert!(AreaKind::Building.is_building());
    assert!(!AreaKind::Water.is_building());
    assert!(!AreaKind::Park.is_building());
}

#[test]
fn keep_edge_wants_a_built_highway_that_is_no_area() {
    assert!(keep_edge(&tags_of(&[("highway", "residential")])));
    assert!(keep_edge(&tags_of(&[("highway", "footway"), ("area", "no")])));
    assert!(!keep_edge(&tags_of(&[("name", "Main")])));
    assert!(!keep_edge(&tags_of(&[("highway", "construction")])));
    assert!(!keep_edge(&tags_of(&[("highway", "proposed")])));
    assert!(!keep_edge(&tags_of(&[("highway", "pedestrian"), ("area", "yes")])));
}

#[test]
fn detect_errors_say_why() {
    assert_eq!(DetectError::NotRoadArtifact.message(), "not a road artifact");
    assert_eq!(DetectError::NoOneways.message(), "no oneways");
    assert_eq!(DetectError::NotEnoughEdges.message(), "not enough edges");
    assert_eq!(DetectError::SidesDidNotCoalesce.message(), "sides didn't coalesce");
    assert_eq!(DetectError::AverageNeedsTwoSamples.message(), "average needs ≥ 2 samples");
    assert_eq!(DetectError::NotSidepathArtifact.message(), "not a SidepathArtifact");
    assert_eq!(DetectError::SidepathOrRoadMissing.message(), "sidepath or matching road is missing");
}
