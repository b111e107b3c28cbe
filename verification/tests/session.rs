use road_bundler::{
    Bearing, Command, EdgeID, EdgeMeasure, FaceID, FaceInput, FaceKind, Graph, IntersectionID,
    Measures, OsmEdge, OsmGraph, OsmIntersection, Polygon, RoadBundler, Splits, Step, Tags,
};

type P = (f64, f64);

fn tags_of(pairs: &[(&str, &str)]) -> Tags {
    let mut tags = Tags::new();
    for (k, v) in pairs {
        tags.insert(k, v);
    }
    tags
}

fn osm_edge(id: usize, src: usize, dst: usize, pts: Vec<P>, tags: &[(&str, &str)]) -> OsmEdge<P> {
    OsmEdge {
        id: EdgeID(id),
        src: IntersectionID(src),
        dst: IntersectionID(dst),
        linestring: pts,
        osm_way: id as i64,
        osm_node1: src as i64,
        osm_node2: dst as i64,
        osm_tags: tags_of(tags),
    }
}

fn osm_intersection(id: usize, edges: &[usize], point: P) -> OsmIntersection<P> {
    OsmIntersection {
        id: IntersectionID(id),
        edges: edges.iter().map(|e| EdgeID(*e)).collect(),
        point,
        osm_node: id as i64,
    }
}

fn build(edges: Vec<OsmEdge<P>>, intersections: Vec<OsmIntersection<P>>) -> Graph<P> {
    Graph::new(OsmGraph {
        edges,
        intersections,
        boundary_polygon: Polygon { exterior: Vec::new(), interiors: Vec::new() },
    })
    .expect("consistent")
}

/// A chain 0 -0- 1 -1- 2 -2- 3 -3- 4 of roads, with a service road 4 from
/// 2 to 5 and a footway 5 from 5 to 6.
fn chain() -> Graph<P> {
    build(
        vec![
            osm_edge(0, 0, 1, vec![(0.0, 0.0), (10.0, 0.0)], &[("highway", "residential"), ("name", "Main")]),
            osm_edge(1, 1, 2, vec![(10.0, 0.0), (20.0, 0.0)], &[("highway", "residential"), ("name", "Main")]),
            osm_edge(2, 2, 3, vec![(20.0, 0.0), (30.0, 0.0)], &[("highway", "residential"), ("name", "Main")]),
            osm_edge(3, 3, 4, vec![(30.0, 0.0), (40.0, 0.0)], &[("highway", "residential"), ("name", "Main")]),
            osm_edge(4, 2, 5, vec![(20.0, 0.0), (20.0, 10.0)], &[("highway", "service")]),
            osm_edge(5, 5, 6, vec![(20.0, 10.0), (20.0, 20.0)], &[("highway", "footway")]),
        ],
        vec![
            osm_intersection(0, &[0], (0.0, 0.0)),
            osm_intersection(1, &[0, 1], (10.0, 0.0)),
            osm_intersection(2, &[1, 2, 4], (20.0, 0.0)),
            osm_intersection(3, &[2, 3], (30.0, 0.0)),
            osm_intersection(4, &[3], (40.0, 0.0)),
            osm_intersection(5, &[4, 5], (20.0, 10.0)),
            osm_intersection(6, &[5], (20.0, 20.0)),
        ],
    )
}

/// Everything that can be seen of a graph from outside.
fn snapshot(graph: &Graph<P>) -> Vec<String> {
    let mut out = Vec::new();
    for e in 0..graph.edge_id_bound() {
        if let Some(edge) = graph.edge(EdgeID(e)) {
            let mut members: Vec<usize> = match &edge.kind {
                road_bundler::EdgeKind::Motorized { roads, service_roads, sidepaths, connectors } => roads
                    .to_vec()
                    .iter()
                    .map(|o| o.0)
                    .chain(service_roads.to_vec().iter().map(|o| 1000 + o.0))
                    .chain(sidepaths.to_vec().iter().map(|o| 2000 + o.0))
                    .chain(connectors.to_vec().iter().map(|o| 3000 + o.0))
                    .collect(),
                road_bundler::EdgeKind::Nonmotorized(edges) => edges.to_vec().iter().map(|o| 4000 + o.0).collect(),
            };
            members.sort();
            out.push(format!("edge {} {:?}->{:?} {:?} {:?}", e, edge.src, edge.dst, edge.linestring, members));
        }
    }
    for i in 0..graph.intersection_id_bound() {
        if let Some(x) = graph.intersection(IntersectionID(i)) {
            out.push(format!("intersection {} {:?} {:?} {:?}", i, x.edges, x.point, x.provenance));
        }
    }
    out
}

fn commands_of(bundler: &RoadBundler<P>) -> Vec<Command> {
    bundler.commands().iter().map(|s| s.command()).collect()
}

#[test]
fn a_new_session_stands_on_its_graph() {
    let bundler = RoadBundler::new(chain());
    assert_eq!(snapshot(bundler.graph()), snapshot(&chain()));
    assert_eq!(snapshot(bundler.original_graph()), snapshot(&chain()));
    assert!(bundler.commands().is_empty());
    assert!(bundler.faces().is_empty());
}

#[test]
fn commands_are_logged_and_applied() {
    let mut bundler = RoadBundler::new(chain());
    assert!(bundler.remove_edge(EdgeID(5)));
    assert!(bundler.remove_all_service_roads());
    assert!(bundler.collapse_degenerate_intersection(IntersectionID(1)));
    assert_eq!(
        commands_of(&bundler),
        vec![
            Command::RemoveEdge(EdgeID(5)),
            Command::RemoveAllServiceRoads,
            Command::CollapseDegenerateIntersection(IntersectionID(1)),
        ]
    );
    let graph = bundler.graph();
    assert!(graph.edge(EdgeID(5)).is_none());
    assert!(graph.edge(EdgeID(4)).is_none());
    assert!(graph.intersection(IntersectionID(1)).is_none());
    assert!(graph.intersection(IntersectionID(5)).is_none());
    assert!(graph.is_consistent());
    // The original is as it was.
    assert_eq!(snapshot(bundler.original_graph()), snapshot(&chain()));
}

#[test]
fn a_command_that_cannot_be_applied_changes_nothing() {
    let mut bundler = RoadBundler::new(chain());
    assert!(!bundler.remove_edge(EdgeID(17)));
    assert!(!bundler.collapse_degenerate_intersection(IntersectionID(17)));
    assert_eq!(snapshot(bundler.graph()), snapshot(&chain()));
    assert!(!bundler.collapse_edge(EdgeID(17), (0.0, 0.0), &Measures::new(), (None, None)));
    assert!(!bundler.collapse_to_centroid(FaceID(0), (0.0, 0.0)));
    assert_eq!(snapshot(bundler.graph()), snapshot(&chain()));
}

#[test]
fn undo_gives_the_graph_before_the_last_command() {
    let mut shorter = RoadBundler::new(chain());
    shorter.remove_edge(EdgeID(5));
    shorter.collapse_degenerate_intersection(IntersectionID(1));

    let mut longer = RoadBundler::new(chain());
    longer.remove_edge(EdgeID(5));
    longer.collapse_degenerate_intersection(IntersectionID(1));
    longer.remove_all_service_roads();
    assert_ne!(snapshot(longer.graph()), snapshot(shorter.graph()));
    longer.undo();

    assert_eq!(snapshot(longer.graph()), snapshot(shorter.graph()));
    assert_eq!(commands_of(&longer), commands_of(&shorter));
    // The counters are where they were, too: the next edge gets the same id.
    longer.collapse_degenerate_intersection(IntersectionID(3));
    shorter.collapse_degenerate_intersection(IntersectionID(3));
    assert_eq!(snapshot(longer.graph()), snapshot(shorter.graph()));
}

#[test]
fn undo_of_everything_gives_the_original() {
    let mut bundler = RoadBundler::new(chain());
    bundler.remove_all_service_roads();
    bundler.collapse_edge(EdgeID(1), (15.0, 0.0), &Measures::new(), (None, None));
    bundler.undo();
    bundler.undo();
    assert_eq!(snapshot(bundler.graph()), snapshot(&chain()));
    assert!(bundler.commands().is_empty());
    // With nothing left to take back, nothing happens.
    bundler.undo();
    assert_eq!(snapshot(bundler.graph()), snapshot(&chain()));
}

#[test]
fn replaying_a_log_twice_gives_the_same_graph_twice() {
    let mut bundler = RoadBundler::new(chain());
    bundler.remove_edge(EdgeID(5));
    bundler.collapse_edge(EdgeID(0), (5.0, 0.0), &Measures::new(), (None, None));
    bundler.collapse_all_degenerate_intersections();
    bundler.remove_all_service_roads();
    let steps: Vec<Step<P>> = bundler.commands().iter().map(|s| s.clone()).collect();

    let mut first = chain();
    first.replay(&steps);
    let mut second = chain();
    second.replay(&steps);
    assert_eq!(snapshot(&first), snapshot(&second));
    assert_eq!(snapshot(&first), snapshot(bundler.graph()));
    assert!(first.is_consistent());

    // Step by step through a second session, too.
    let mut again = RoadBundler::new(chain());
    for step in steps {
        again.apply_cmd(step);
    }
    assert_eq!(snapshot(again.graph()), snapshot(bundler.graph()));
}

#[test]
fn collapse_all_degenerate_intersections_dissolves_what_had_two_edges() {
    let mut bundler = RoadBundler::new(chain());
    assert_eq!(
        bundler.degenerate_intersections(),
        vec![IntersectionID(1), IntersectionID(3), IntersectionID(5)]
    );
    assert_eq!(bundler.collapse_all_degenerate_intersections(), 3);
    assert_eq!(
        commands_of(&bundler),
        vec![
            Command::CollapseDegenerateIntersection(IntersectionID(1)),
            Command::CollapseDegenerateIntersection(IntersectionID(3)),
            Command::CollapseDegenerateIntersection(IntersectionID(5)),
        ]
    );
    let graph = bundler.graph();
    assert!(graph.intersection(IntersectionID(1)).is_none());
    assert!(graph.intersection(IntersectionID(3)).is_none());
    // A service road and a footway do not merge: 5 stays.
    assert!(graph.intersection(IntersectionID(5)).is_some());
    assert!(graph.is_consistent());
    // A second time there is only that one left to try.
    assert_eq!(bundler.collapse_all_degenerate_intersections(), 1);
}

fn face_input(boundary: &[usize], buildings: usize) -> FaceInput<P> {
    FaceInput {
        polygon: Polygon { exterior: Vec::new(), interiors: Vec::new() },
        boundary_edges: boundary.iter().map(|e| EdgeID(*e)).collect(),
        internal_edges: Vec::new(),
        num_buildings: buildings,
        num_other_areas: 0,
    }
}

#[test]
fn faces_are_set_for_the_current_graph_and_dropped_with_it() {
    let mut bundler = RoadBundler::new(chain());
    assert!(bundler.set_faces(&vec![face_input(&[0, 1], 0), face_input(&[4, 5], 1)]));
    assert_eq!(bundler.faces().len(), 2);
    assert_eq!(bundler.faces()[0].kind, FaceKind::RoadArtifact);
    assert_eq!(bundler.faces()[1].kind, FaceKind::UrbanBlock);
    // An edge that is not live: the faces stay as they are.
    assert!(!bundler.set_faces(&vec![face_input(&[0, 9], 0)]));
    assert_eq!(bundler.faces().len(), 2);
    bundler.remove_edge(EdgeID(5));
    assert!(bundler.faces().is_empty());
}

#[test]
fn collapse_to_centroid_takes_the_face_by_its_id() {
    let mut bundler = RoadBundler::new(chain());
    bundler.set_faces(&vec![face_input(&[0], 0), face_input(&[1, 2], 0)]);
    assert!(bundler.collapse_to_centroid(FaceID(1), (20.0, 1.0)));
    assert_eq!(commands_of(&bundler), vec![Command::CollapseToCentroid(FaceID(1))]);
    let graph = bundler.graph();
    assert!(graph.edge(EdgeID(1)).is_none());
    assert!(graph.edge(EdgeID(2)).is_none());
    for i in [1, 2, 3] {
        assert!(graph.intersection(IntersectionID(i)).is_none());
    }
    let centre = graph.intersection(IntersectionID(8)).expect("the centroid");
    assert_eq!(centre.point, (20.0, 1.0));
    assert_eq!(centre.edges, vec![EdgeID(0), EdgeID(4), EdgeID(3)]);
    assert_eq!(graph.edge(EdgeID(0)).expect("edge 0").linestring, vec![(0.0, 0.0), (10.0, 0.0), (20.0, 1.0)]);
    assert!(graph.is_consistent());
    // Taking it back and doing it again needs no faces.
    let before = snapshot(bundler.graph());
    bundler.remove_edge(EdgeID(0));
    bundler.undo();
    assert_eq!(snapshot(bundler.graph()), before);
}

fn measure(length: u64, bearing: u32, reverse: u32) -> EdgeMeasure {
    EdgeMeasure { length, bearing: Bearing::from_degrees(bearing), reverse_bearing: Bearing::from_degrees(reverse) }
}

/// Two dog-legs in a row on the road Main: the short edges 0 and 5.
fn two_dog_legs() -> Graph<P> {
    build(
        vec![
            osm_edge(0, 1, 2, vec![(0.0, 0.0), (0.0, 3.0)], &[("highway", "residential"), ("name", "Main")]),
            osm_edge(1, 0, 1, vec![(0.0, -50.0), (0.0, 0.0)], &[("highway", "residential"), ("name", "Main")]),
            osm_edge(2, 2, 3, vec![(0.0, 3.0), (0.0, 53.0)], &[("highway", "residential"), ("name", "Main")]),
            osm_edge(3, 4, 1, vec![(-40.0, 0.0), (0.0, 0.0)], &[("highway", "residential"), ("name", "West")]),
            osm_edge(4, 5, 2, vec![(40.0, 3.0), (0.0, 3.0)], &[("highway", "residential"), ("name", "East")]),
            osm_edge(5, 3, 6, vec![(0.0, 53.0), (0.0, 56.0)], &[("highway", "residential"), ("name", "Main")]),
            osm_edge(6, 6, 7, vec![(0.0, 56.0), (0.0, 100.0)], &[("highway", "residential"), ("name", "Main")]),
            osm_edge(7, 8, 3, vec![(-40.0, 53.0), (0.0, 53.0)], &[("highway", "residential"), ("name", "North")]),
            osm_edge(8, 9, 6, vec![(40.0, 56.0), (0.0, 56.0)], &[("highway", "residential"), ("name", "South")]),
        ],
        vec![
            osm_intersection(0, &[1], (0.0, -50.0)),
            osm_intersection(1, &[1, 0, 3], (0.0, 0.0)),
            osm_intersection(2, &[0, 2, 4], (0.0, 3.0)),
            osm_intersection(3, &[2, 5, 7], (0.0, 53.0)),
            osm_intersection(4, &[3], (-40.0, 0.0)),
            osm_intersection(5, &[4], (40.0, 3.0)),
            osm_intersection(6, &[5, 6, 8], (0.0, 56.0)),
            osm_intersection(7, &[6], (0.0, 100.0)),
            osm_intersection(8, &[7], (-40.0, 53.0)),
            osm_intersection(9, &[8], (40.0, 56.0)),
        ],
    )
}

fn measure_all(graph: &Graph<P>) -> Measures {
    // Lengths by the straight line between the ends, bearings by which of
    // the four ways an edge runs: enough for these graphs.
    let mut m = Measures::new();
    for e in 0..graph.edge_id_bound() {
        if let Some(edge) = graph.edge(EdgeID(e)) {
            let a = edge.linestring[0];
            let b = edge.linestring[edge.linestring.len() - 1];
            let (dx, dy) = (b.0 - a.0, b.1 - a.1);
            let length = ((dx * dx + dy * dy).sqrt() * 1e6) as u64;
            let bearing = if dx.abs() >= dy.abs() {
                if dx >= 0.0 { 90 } else { 270 }
            } else if dy >= 0.0 {
                0
            } else {
                180
            };
            m.set(EdgeID(e), measure(length, bearing, (bearing + 180) % 360));
        }
    }
    m
}

#[test]
fn fixing_all_dog_legs_ends_and_finds_none_the_second_time() {
    let mut bundler = RoadBundler::new(two_dog_legs());
    let fix_all = |bundler: &mut RoadBundler<P>| {
        let mut applied = 0;
        loop {
            let measures = measure_all(bundler.graph());
            let Some(e) = bundler.next_dog_leg(&measures) else { break };
            let edge = bundler.graph().edge(e).expect("a live edge");
            let (a, b) = (edge.linestring[0], edge.linestring[edge.linestring.len() - 1]);
            let midpt = ((a.0 + b.0) / 2.0, (a.1 + b.1) / 2.0);
            let edges_before = (0..bundler.graph().edge_id_bound())
                .filter(|x| bundler.graph().edge(EdgeID(*x)).is_some())
                .count();
            assert!(bundler.collapse_edge(e, midpt, &measures, (None, None)));
            let edges_after = (0..bundler.graph().edge_id_bound())
                .filter(|x| bundler.graph().edge(EdgeID(*x)).is_some())
                .count();
            assert_eq!(edges_after + 1, edges_before);
            applied += 1;
        }
        applied
    };
    assert_eq!(bundler.next_dog_leg(&measure_all(bundler.graph())), Some(EdgeID(0)));
    assert_eq!(fix_all(&mut bundler), 2);
    assert_eq!(commands_of(&bundler), vec![Command::CollapseEdge(EdgeID(0)), Command::CollapseEdge(EdgeID(5))]);
    assert_eq!(fix_all(&mut bundler), 0);
    assert!(bundler.graph().is_consistent());
}

#[test]
fn collapse_edge_decides_for_itself_whether_it_is_a_dog_leg() {
    let mut bundler = RoadBundler::new(two_dog_legs());
    let measures = measure_all(bundler.graph());
    let found = bundler.is_dog_leg(EdgeID(0), &measures).expect("a dog-leg");
    assert_eq!(found.side_roads, (EdgeID(3), EdgeID(4)));
    assert!(bundler.collapse_edge(EdgeID(0), (0.0, 1.5), &measures, (Some((-1.0, 0.0)), Some((1.0, 3.0)))));
    match &bundler.commands()[0] {
        Step::CollapseEdge { edge, dog_leg, .. } => {
            assert_eq!(*edge, EdgeID(0));
            assert_eq!(dog_leg.expect("logged as a dog-leg").side_roads, (EdgeID(3), EdgeID(4)));
        }
        _ => panic!("a collapse of an edge was logged"),
    }
    let graph = bundler.graph();
    assert_eq!(graph.edge(EdgeID(3)).expect("side road").linestring, vec![(-40.0, 0.0), (-1.0, 0.0), (0.0, 1.5)]);
    assert_eq!(graph.edge(EdgeID(1)).expect("main road").linestring, vec![(0.0, -50.0), (0.0, 0.0), (0.0, 1.5)]);
}

/// Two oneways of one name, closed at both ends, with a side road at
/// intersection 1.
fn carriageways() -> Graph<P> {
    build(
        vec![
            osm_edge(0, 0, 1, vec![(0.0, 0.0), (100.0, 0.0)], &[("highway", "primary"), ("name", "Ring"), ("oneway", "yes")]),
            osm_edge(1, 3, 2, vec![(100.0, 10.0), (0.0, 10.0)], &[("highway", "primary"), ("name", "Ring"), ("oneway", "yes")]),
            osm_edge(2, 0, 2, vec![(0.0, 0.0), (0.0, 10.0)], &[("highway", "primary")]),
            osm_edge(3, 1, 3, vec![(100.0, 0.0), (100.0, 10.0)], &[("highway", "primary")]),
            osm_edge(4, 4, 1, vec![(100.0, -50.0), (100.0, 0.0)], &[("highway", "residential"), ("name", "Side")]),
        ],
        vec![
            osm_intersection(0, &[0, 2], (0.0, 0.0)),
            osm_intersection(1, &[0, 3, 4], (100.0, 0.0)),
            osm_intersection(2, &[1, 2], (0.0, 10.0)),
            osm_intersection(3, &[1, 3], (100.0, 10.0)),
            osm_intersection(4, &[4], (100.0, -50.0)),
        ],
    )
}

#[test]
fn collapse_dual_carriageway_joins_each_junction_to_the_nearest_end_point() {
    let mut bundler = RoadBundler::new(carriageways());
    bundler.set_faces(&vec![face_input(&[0, 3, 1, 2], 0), face_input(&[4], 0)]);
    let measures = measure_all(bundler.graph());
    assert_eq!(bundler.next_dual_carriageway(&measures, 0), Some(FaceID(0)));
    assert_eq!(bundler.next_dual_carriageway(&measures, 1), None);
    assert_eq!(bundler.next_dual_carriageway(&measures, 7), None);
    let splits = || Splits {
        lines: vec![vec![(0.0, 5.0), (100.0, 5.0)]],
        new_endpts: vec![(0.0, 5.0), (100.0, 5.0)],
    };
    // Keys of the distances from the intersections 0, 1, 2, 3 to the two end points.
    let keys = vec![vec![50, 1000], vec![1000, 50], vec![50, 1000], vec![1000, 50]];
    // Face 1 holds no dual carriageway; face 9 is not there; keys must fit.
    assert!(!bundler.collapse_dual_carriageway(FaceID(1), &measures, splits(), &vec![vec![1, 2]]));
    assert!(!bundler.collapse_dual_carriageway(FaceID(9), &measures, splits(), &keys));
    assert!(!bundler.collapse_dual_carriageway(FaceID(0), &measures, splits(), &vec![vec![1, 2]]));
    assert!(!bundler.collapse_dual_carriageway(FaceID(0), &measures, splits(), &vec![vec![], vec![], vec![], vec![]]));
    assert!(bundler.commands().is_empty());
    assert!(bundler.collapse_dual_carriageway(FaceID(0), &measures, splits(), &keys));
    assert_eq!(commands_of(&bundler), vec![Command::CollapseDualCarriageway(FaceID(0))]);
    let graph = bundler.graph();
    let side = graph.edge(EdgeID(4)).expect("side road");
    assert_eq!((side.src, side.dst), (IntersectionID(4), IntersectionID(7)));
    assert_eq!(side.linestring, vec![(100.0, -50.0), (100.0, 0.0), (100.0, 5.0)]);
    let centre = graph.edge(EdgeID(6)).expect("centre line");
    assert_eq!((centre.src, centre.dst), (IntersectionID(6), IntersectionID(7)));
    assert!(graph.is_consistent());
    assert_eq!(bundler.next_dual_carriageway(&measures, 0), None);
}

#[test]
fn remove_all_sidepaths_goes_by_the_faces() {
    let graph = build(
        vec![
            osm_edge(0, 0, 1, vec![(0.0, 0.0), (100.0, 0.0)], &[("highway", "residential")]),
            osm_edge(1, 2, 3, vec![(0.0, 5.0), (100.0, 5.0)], &[("highway", "footway")]),
            osm_edge(2, 1, 3, vec![(100.0, 0.0), (100.0, 5.0)], &[("highway", "footway"), ("footway", "crossing")]),
            osm_edge(3, 0, 2, vec![(0.0, 0.0), (0.0, 5.0)], &[("highway", "residential")]),
        ],
        vec![
            osm_intersection(0, &[0, 3], (0.0, 0.0)),
            osm_intersection(1, &[0, 2], (100.0, 0.0)),
            osm_intersection(2, &[1, 3], (0.0, 5.0)),
            osm_intersection(3, &[1, 2], (100.0, 5.0)),
        ],
    );
    let mut bundler = RoadBundler::new(graph);
    bundler.set_faces(&vec![face_input(&[0, 2, 1, 3], 0)]);
    let measures = measure_all(bundler.graph());
    assert!(bundler.remove_all_sidepaths(&measures));
    assert_eq!(commands_of(&bundler), vec![Command::RemoveAllSidepaths]);
    let graph = bundler.graph();
    assert!(graph.edge(EdgeID(1)).is_none());
    assert!(graph.edge(EdgeID(2)).is_none());
    assert!(graph.intersection(IntersectionID(3)).is_none());
    match &graph.edge(EdgeID(0)).expect("the road").kind {
        road_bundler::EdgeKind::Motorized { sidepaths, connectors, .. } => {
            assert_eq!(sidepaths.to_vec().iter().map(|o| o.0).collect::<Vec<_>>(), vec![1]);
            assert_eq!(connectors.to_vec().iter().map(|o| o.0).collect::<Vec<_>>(), vec![2]);
        }
        _ => panic!("the road stays motorized"),
    }
    assert!(graph.is_consistent());
    // Without faces there is nothing to remove, but the command is logged.
    assert!(bundler.remove_all_sidepaths(&measures));
    assert_eq!(bundler.commands().len(), 2);
}

#[test]
fn undo_replays_commands_on_faces_without_the_faces() {
    // A dual carriageway is collapsed, then an edge removed and taken back.
    let mut bundler = RoadBundler::new(carriageways());
    bundler.set_faces(&vec![face_input(&[0, 3, 1, 2], 0)]);
    let measures = measure_all(bundler.graph());
    let splits = Splits {
        lines: vec![vec![(0.0, 5.0), (50.0, 5.0)], vec![(50.0, 5.0), (100.0, 5.0)]],
        new_endpts: vec![(0.0, 5.0), (50.0, 5.0), (100.0, 5.0)],
    };
    let keys = vec![vec![5, 50, 100], vec![100, 50, 5], vec![5, 50, 100], vec![100, 50, 5]];
    assert!(bundler.collapse_dual_carriageway(FaceID(0), &measures, splits, &keys));
    let after_collapse = snapshot(bundler.graph());
    assert!(bundler.remove_edge(EdgeID(4)));
    assert_ne!(snapshot(bundler.graph()), after_collapse);
    bundler.undo();
    assert_eq!(snapshot(bundler.graph()), after_collapse);
    assert_eq!(commands_of(&bundler), vec![Command::CollapseDualCarriageway(FaceID(0))]);
    bundler.undo();
    assert_eq!(snapshot(bundler.graph()), snapshot(&carriageways()));

    // The same with sidepaths.
    let graph = || {
        build(
            vec![
                osm_edge(0, 0, 1, vec![(0.0, 0.0), (100.0, 0.0)], &[("highway", "residential")]),
                osm_edge(1, 2, 3, vec![(0.0, 5.0), (100.0, 5.0)], &[("highway", "footway")]),
                osm_edge(2, 1, 3, vec![(100.0, 0.0), (100.0, 5.0)], &[("highway", "footway"), ("footway", "crossing")]),
                osm_edge(3, 0, 2, vec![(0.0, 0.0), (0.0, 5.0)], &[("highway", "residential")]),
            ],
            vec![
                osm_intersection(0, &[0, 3], (0.0, 0.0)),
                osm_intersection(1, &[0, 2], (100.0, 0.0)),
                osm_intersection(2, &[1, 3], (0.0, 5.0)),
                osm_intersection(3, &[1, 2], (100.0, 5.0)),
            ],
        )
    };
    let mut bundler = RoadBundler::new(graph());
    bundler.set_faces(&vec![face_input(&[0, 2, 1, 3], 0)]);
    let measures = measure_all(bundler.graph());
    bundler.remove_all_sidepaths(&measures);
    let after_sidepaths = snapshot(bundler.graph());
    assert_eq!(bundler.collapse_all_degenerate_intersections(), 1);
    assert_ne!(snapshot(bundler.graph()), after_sidepaths);
    bundler.undo();
    assert_eq!(snapshot(bundler.graph()), after_sidepaths);
    assert_eq!(commands_of(&bundler), vec![Command::RemoveAllSidepaths]);
    bundler.undo();
    assert_eq!(snapshot(bundler.graph()), snapshot(&graph()));
}
