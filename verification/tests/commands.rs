use road_bundler::{
    DogLeg, EdgeID, EdgeKind, EdgeMeasure, Bearing, Graph, IntersectionID, IntersectionProvenance,
    Measures, OriginalEdgeSet, OsmEdge, OsmGraph, OsmIntersection, Polygon, Sidepath, Splits, Tags,
};

type P = (f64, f64);

fn tags_of(pairs: &[(&str, &str)]) -> Tags {
    let mut tags = Tags::new();
    for (k, v) in pairs {
        tags.insert(k, v);
    }
    tags
}

fn osm_edge(id: usize, src: usize, dst: usize, pts: Vec<P>, tags: &[(&str, &str)]) -> OsmEdge<P> {
    OsmEdge {
        id: EdgeID(id),
        src: IntersectionID(src),
        dst: IntersectionID(dst),
        linestring: pts,
        osm_way: id as i64,
        osm_node1: src as i64,
        osm_node2: dst as i64,
        osm_tags: tags_of(tags),
    }
}

fn osm_intersection(id: usize, edges: &[usize], point: P) -> OsmIntersection<P> {
    OsmIntersection {
        id: IntersectionID(id),
        edges: edges.iter().map(|e| EdgeID(*e)).collect(),
        point,
        osm_node: id as i64,
    }
}

fn build(edges: Vec<OsmEdge<P>>, intersections: Vec<OsmIntersection<P>>) -> Graph<P> {
    Graph::new(OsmGraph {
        edges,
        intersections,
        boundary_polygon: Polygon { exterior: Vec::new(), interiors: Vec::new() },
    })
    .expect("consistent")
}

fn edges_at(graph: &Graph<P>, i: usize) -> Vec<usize> {
    graph.intersection(IntersectionID(i)).expect("live intersection").edges.iter().map(|e| e.0).collect()
}

fn live_edges(graph: &Graph<P>) -> Vec<usize> {
    (0..graph.edge_id_bound()).filter(|e| graph.edge(EdgeID(*e)).is_some()).collect()
}

fn live_intersections(graph: &Graph<P>) -> Vec<usize> {
    (0..graph.intersection_id_bound()).filter(|i| graph.intersection(IntersectionID(*i)).is_some()).collect()
}

fn sorted(set: &OriginalEdgeSet) -> Vec<usize> {
    let mut ids: Vec<usize> = set.to_vec().iter().map(|o| o.0).collect();
    ids.sort();
    ids
}

fn no_intersection_is_empty(graph: &Graph<P>) -> bool {
    live_intersections(graph).iter().all(|i| !edges_at(graph, *i).is_empty())
}

fn linestrings_are_attached(graph: &Graph<P>) -> bool {
    live_edges(graph).iter().all(|e| {
        let edge = graph.edge(EdgeID(*e)).expect("live edge");
        edge.linestring.len() >= 2
            && edge.linestring[0] == graph.intersection(edge.src).expect("source").point
            && edge.linestring[edge.linestring.len() - 1] == graph.intersection(edge.dst).expect("destination").point
    })
}

/// X(0) --A(0), three points--> I(1) --B(1), four points--> Y(2)
fn degenerate(b_highway: &str) -> Graph<P> {
    build(
        vec![
            osm_edge(0, 0, 1, vec![(0.0, 0.0), (5.0, 1.0), (10.0, 0.0)], &[("highway", "residential")]),
            osm_edge(1, 1, 2, vec![(10.0, 0.0), (12.0, 1.0), (15.0, 1.0), (20.0, 0.0)], &[("highway", b_highway)]),
        ],
        vec![
            osm_intersection(0, &[0], (0.0, 0.0)),
            osm_intersection(1, &[0, 1], (10.0, 0.0)),
            osm_intersection(2, &[1], (20.0, 0.0)),
        ],
    )
}

#[test]
fn collapse_degenerate_intersection_joins_the_two_edges() {
    let mut graph = degenerate("tertiary");
    graph.collapse_degenerate_intersection(IntersectionID(1));
    assert!(graph.intersection(IntersectionID(1)).is_none());
    assert!(graph.edge(EdgeID(0)).is_none());
    assert!(graph.edge(EdgeID(1)).is_none());
    assert_eq!(live_edges(&graph), vec![3]);
    let joined = graph.edge(EdgeID(3)).expect("the new edge");
    assert_eq!((joined.src, joined.dst), (IntersectionID(0), IntersectionID(2)));
    assert_eq!(
        joined.linestring,
        vec![(0.0, 0.0), (5.0, 1.0), (10.0, 0.0), (10.0, 0.0), (12.0, 1.0), (15.0, 1.0), (20.0, 0.0)]
    );
    match &joined.kind {
        EdgeKind::Motorized { roads, .. } => assert_eq!(sorted(roads), vec![0, 1]),
        _ => panic!("two roads make a road"),
    }
    assert_eq!(edges_at(&graph, 0), vec![3]);
    assert_eq!(edges_at(&graph, 2), vec![3]);
    assert!(graph.is_consistent());
    assert!(no_intersection_is_empty(&graph));
    assert!(linestrings_are_attached(&graph));
}

#[test]
fn collapse_degenerate_intersection_turns_edges_that_run_the_other_way() {
    // A runs I -> X and B runs Y -> I.
    let mut graph = build(
        vec![
            osm_edge(0, 1, 0, vec![(10.0, 0.0), (5.0, 1.0), (0.0, 0.0)], &[("highway", "residential")]),
            osm_edge(1, 2, 1, vec![(20.0, 0.0), (15.0, 1.0), (10.0, 0.0)], &[("highway", "residential")]),
        ],
        vec![
            osm_intersection(0, &[0], (0.0, 0.0)),
            osm_intersection(1, &[0, 1], (10.0, 0.0)),
            osm_intersection(2, &[1], (20.0, 0.0)),
        ],
    );
    graph.collapse_degenerate_intersection(IntersectionID(1));
    let joined = graph.edge(EdgeID(3)).expect("the new edge");
    assert_eq!((joined.src, joined.dst), (IntersectionID(0), IntersectionID(2)));
    assert_eq!(
        joined.linestring,
        vec![(0.0, 0.0), (5.0, 1.0), (10.0, 0.0), (10.0, 0.0), (15.0, 1.0), (20.0, 0.0)]
    );
    assert!(graph.is_consistent());
}

#[test]
fn collapse_degenerate_intersection_leaves_kinds_that_do_not_merge() {
    let mut graph = degenerate("footway");
    graph.collapse_degenerate_intersection(IntersectionID(1));
    assert_eq!(live_edges(&graph), vec![0, 1]);
    assert_eq!(live_intersections(&graph), vec![0, 1, 2]);
    assert_eq!(edges_at(&graph, 1), vec![0, 1]);
    assert_eq!(graph.edge(EdgeID(0)).expect("A").linestring.len(), 3);
    assert!(graph.is_consistent());
}

#[test]
fn collapse_degenerate_intersection_leaves_other_degrees_alone() {
    let mut graph = degenerate("tertiary");
    graph.collapse_degenerate_intersection(IntersectionID(0));
    assert_eq!(live_edges(&graph), vec![0, 1]);
    assert_eq!(live_intersections(&graph), vec![0, 1, 2]);
}

#[test]
fn collapse_degenerate_intersection_leaves_a_junction_with_a_loop() {
    // I has a loop and one other edge: two entries, but three ends.
    let mut graph = build(
        vec![
            osm_edge(0, 0, 1, vec![(0.0, 0.0), (10.0, 0.0)], &[("highway", "residential")]),
            osm_edge(1, 1, 1, vec![(10.0, 0.0), (12.0, 2.0), (10.0, 0.0)], &[("highway", "residential")]),
        ],
        vec![osm_intersection(0, &[0], (0.0, 0.0)), osm_intersection(1, &[0, 1], (10.0, 0.0))],
    );
    graph.collapse_degenerate_intersection(IntersectionID(1));
    assert_eq!(live_edges(&graph), vec![0, 1]);
    assert_eq!(live_intersections(&graph), vec![0, 1]);
    assert!(graph.is_consistent());
}

/// Roads 0 and 1, service roads 2 and 3. Intersection 3 hangs on service
/// roads only.
fn with_service_roads() -> Graph<P> {
    build(
        vec![
            osm_edge(0, 0, 1, vec![(0.0, 0.0), (10.0, 0.0)], &[("highway", "residential")]),
            osm_edge(1, 1, 2, vec![(10.0, 0.0), (20.0, 0.0)], &[("highway", "residential")]),
            osm_edge(2, 1, 3, vec![(10.0, 0.0), (10.0, 10.0)], &[("highway", "service")]),
            osm_edge(3, 3, 2, vec![(10.0, 10.0), (20.0, 0.0)], &[("highway", "corridor")]),
        ],
        vec![
            osm_intersection(0, &[0], (0.0, 0.0)),
            osm_intersection(1, &[0, 1, 2], (10.0, 0.0)),
            osm_intersection(2, &[1, 3], (20.0, 0.0)),
            osm_intersection(3, &[2, 3], (10.0, 10.0)),
        ],
    )
}

#[test]
fn remove_all_service_roads_removes_them_and_sweeps() {
    let mut graph = with_service_roads();
    assert_eq!(graph.service_roads(), vec![EdgeID(2), EdgeID(3)]);
    graph.remove_all_service_roads();
    assert_eq!(live_edges(&graph), vec![0, 1]);
    assert_eq!(live_intersections(&graph), vec![0, 1, 2]);
    assert_eq!(edges_at(&graph, 1), vec![0, 1]);
    assert_eq!(edges_at(&graph, 2), vec![1]);
    assert!(graph.is_consistent());
    assert!(no_intersection_is_empty(&graph));
    assert!(linestrings_are_attached(&graph));
}

#[test]
fn remove_all_service_roads_twice_is_once() {
    let mut once = with_service_roads();
    once.remove_all_service_roads();
    let mut twice = with_service_roads();
    twice.remove_all_service_roads();
    twice.remove_all_service_roads();
    assert_eq!(live_edges(&once), live_edges(&twice));
    assert_eq!(live_intersections(&once), live_intersections(&twice));
    for i in live_intersections(&once) {
        assert_eq!(edges_at(&once, i), edges_at(&twice, i));
    }
    assert!(twice.service_roads().is_empty());
    // The counters did not move either.
    assert_eq!(once.new_edge_id(), twice.new_edge_id());
}

#[test]
fn remove_edge_and_orphans_sweeps_the_ends_it_empties() {
    let mut graph = with_service_roads();
    graph.remove_edge_and_orphans(EdgeID(0));
    assert_eq!(live_edges(&graph), vec![1, 2, 3]);
    assert_eq!(live_intersections(&graph), vec![1, 2, 3]);
    assert!(graph.is_consistent());
    assert!(no_intersection_is_empty(&graph));
}

#[test]
fn remove_edge_and_orphans_on_a_loop_leaves_its_junction_consistent() {
    let mut graph = build(
        vec![
            osm_edge(0, 0, 1, vec![(0.0, 0.0), (10.0, 0.0)], &[("highway", "residential")]),
            osm_edge(1, 1, 1, vec![(10.0, 0.0), (12.0, 2.0), (10.0, 0.0)], &[("highway", "residential")]),
        ],
        vec![osm_intersection(0, &[0], (0.0, 0.0)), osm_intersection(1, &[0, 1], (10.0, 0.0))],
    );
    graph.remove_edge_and_orphans(EdgeID(1));
    assert_eq!(live_edges(&graph), vec![0]);
    assert_eq!(edges_at(&graph, 1), vec![0]);
    assert!(graph.is_consistent());
    // A loop that is all its junction has takes the junction with it.
    let mut alone = build(
        vec![osm_edge(0, 0, 0, vec![(0.0, 0.0), (1.0, 1.0), (0.0, 0.0)], &[("highway", "residential")])],
        vec![osm_intersection(0, &[0], (0.0, 0.0))],
    );
    alone.remove_edge_and_orphans(EdgeID(0));
    assert!(live_edges(&alone).is_empty());
    assert!(live_intersections(&alone).is_empty());
    assert!(alone.is_consistent());
}

/// The dog-leg of the scenario: J1(1) and J2(2) joined by the short edge
/// E(0) named Main; the main road arrives at J1 from A(0) and leaves J2
/// for B(3); side road S1(3) arrives at J1 heading east, side road S2(4)
/// arrives at J2 heading west.
fn dog_leg_graph() -> Graph<P> {
    build(
        vec![
            osm_edge(0, 1, 2, vec![(0.0, 0.0), (0.0, 3.0)], &[("highway", "residential"), ("name", "Main")]),
            osm_edge(1, 0, 1, vec![(0.0, -50.0), (0.0, 0.0)], &[("highway", "residential"), ("name", "Main")]),
            osm_edge(2, 2, 3, vec![(0.0, 3.0), (0.0, 53.0)], &[("highway", "residential"), ("name", "Main")]),
            osm_edge(3, 4, 1, vec![(-40.0, 0.0), (0.0, 0.0)], &[("highway", "residential"), ("name", "West")]),
            osm_edge(4, 5, 2, vec![(40.0, 3.0), (0.0, 3.0)], &[("highway", "residential"), ("name", "East")]),
        ],
        vec![
            osm_intersection(0, &[1], (0.0, -50.0)),
            osm_intersection(1, &[1, 0, 3], (0.0, 0.0)),
            osm_intersection(2, &[0, 2, 4], (0.0, 3.0)),
            osm_intersection(3, &[2], (0.0, 53.0)),
            osm_intersection(4, &[3], (-40.0, 0.0)),
            osm_intersection(5, &[4], (40.0, 3.0)),
        ],
    )
}

fn measure(length_m: u64, bearing: u32, reverse: u32) -> EdgeMeasure {
    EdgeMeasure {
        length: length_m * 1_000_000,
        bearing: Bearing::from_degrees(bearing),
        reverse_bearing: Bearing::from_degrees(reverse),
    }
}

fn dog_leg_measures() -> Measures {
    let mut m = Measures::new();
    m.set(EdgeID(0), measure(3, 0, 180));
    m.set(EdgeID(1), measure(50, 0, 180));
    m.set(EdgeID(2), measure(50, 0, 180));
    m.set(EdgeID(3), measure(40, 90, 270));
    m.set(EdgeID(4), measure(40, 270, 90));
    m
}

#[test]
fn is_dog_leg_finds_the_two_side_roads() {
    let graph = dog_leg_graph();
    let found = graph.is_dog_leg(EdgeID(0), &dog_leg_measures()).expect("a dog-leg");
    assert_eq!(found.side_roads, (EdgeID(3), EdgeID(4)));
    assert_eq!(graph.side_edges(IntersectionID(1), EdgeID(0)), vec![EdgeID(3)]);
    assert_eq!(graph.side_edges(IntersectionID(2), EdgeID(0)), vec![EdgeID(4)]);
}

#[test]
fn is_dog_leg_wants_a_short_edge() {
    let graph = dog_leg_graph();
    let mut m = dog_leg_measures();
    m.set(EdgeID(0), EdgeMeasure { length: 5_000_000, ..measure(3, 0, 180) });
    assert!(graph.is_dog_leg(EdgeID(0), &m).is_some());
    m.set(EdgeID(0), EdgeMeasure { length: 5_000_001, ..measure(3, 0, 180) });
    assert!(graph.is_dog_leg(EdgeID(0), &m).is_none());
}

#[test]
fn is_dog_leg_wants_side_roads_on_opposite_sides() {
    let graph = dog_leg_graph();
    let mut m = dog_leg_measures();
    // Both arrive heading about east: the same side.
    m.set(EdgeID(4), measure(40, 100, 280));
    assert!(graph.is_dog_leg(EdgeID(0), &m).is_none());
    // Thirty degrees apart is enough, a little less is not.
    m.set(EdgeID(4), measure(40, 120, 300));
    assert!(graph.is_dog_leg(EdgeID(0), &m).is_some());
    m.set(
        EdgeID(4),
        EdgeMeasure { length: 40_000_000, bearing: Bearing { micro_degrees: 119_999_999 }, reverse_bearing: Bearing::from_degrees(300) },
    );
    assert!(graph.is_dog_leg(EdgeID(0), &m).is_none());
}

#[test]
fn is_dog_leg_takes_the_bearing_of_a_side_road_as_it_runs_in() {
    // S2 now leaves J2: its reverse bearing is the one that runs in.
    let graph = build(
        vec![
            osm_edge(0, 1, 2, vec![(0.0, 0.0), (0.0, 3.0)], &[("highway", "residential"), ("name", "Main")]),
            osm_edge(1, 0, 1, vec![(0.0, -50.0), (0.0, 0.0)], &[("highway", "residential"), ("name", "Main")]),
            osm_edge(2, 2, 3, vec![(0.0, 3.0), (0.0, 53.0)], &[("highway", "residential"), ("name", "Main")]),
            osm_edge(3, 4, 1, vec![(-40.0, 0.0), (0.0, 0.0)], &[("highway", "residential"), ("name", "West")]),
            osm_edge(4, 2, 5, vec![(0.0, 3.0), (40.0, 3.0)], &[("highway", "residential"), ("name", "East")]),
        ],
        vec![
            osm_intersection(0, &[1], (0.0, -50.0)),
            osm_intersection(1, &[1, 0, 3], (0.0, 0.0)),
            osm_intersection(2, &[0, 2, 4], (0.0, 3.0)),
            osm_intersection(3, &[2], (0.0, 53.0)),
            osm_intersection(4, &[3], (-40.0, 0.0)),
            osm_intersection(5, &[4], (40.0, 3.0)),
        ],
    );
    let mut m = dog_leg_measures();
    m.set(EdgeID(4), measure(40, 90, 270));
    assert_eq!(graph.is_dog_leg(EdgeID(0), &m).expect("a dog-leg").side_roads, (EdgeID(3), EdgeID(4)));
    // Were the forward bearing taken, both would head east.
    m.set(EdgeID(4), measure(40, 270, 95));
    assert!(graph.is_dog_leg(EdgeID(0), &m).is_none());
}

#[test]
fn is_dog_leg_wants_three_edges_at_each_end_and_measurements() {
    let graph = dog_leg_graph();
    // The long main road is no dog-leg: its far end has one edge.
    assert!(graph.is_dog_leg(EdgeID(1), &dog_leg_measures()).is_none());
    // Nothing is a dog-leg that was not measured.
    assert!(graph.is_dog_leg(EdgeID(0), &Measures::new()).is_none());
    let mut m = dog_leg_measures();
    m = {
        let mut fewer = Measures::new();
        fewer.set(EdgeID(0), m.get(EdgeID(0)).expect("measured"));
        fewer.set(EdgeID(3), m.get(EdgeID(3)).expect("measured"));
        fewer
    };
    assert!(graph.is_dog_leg(EdgeID(0), &m).is_none());
}

#[test]
fn is_dog_leg_wants_one_side_road_at_each_end() {
    // All three edges at J1 are named Main: no side road there.
    let graph = build(
        vec![
            osm_edge(0, 1, 2, vec![(0.0, 0.0), (0.0, 3.0)], &[("highway", "residential"), ("name", "Main")]),
            osm_edge(1, 0, 1, vec![(0.0, -50.0), (0.0, 0.0)], &[("highway", "residential"), ("name", "Main")]),
            osm_edge(2, 2, 3, vec![(0.0, 3.0), (0.0, 53.0)], &[("highway", "residential"), ("name", "Main")]),
            osm_edge(3, 4, 1, vec![(-40.0, 0.0), (0.0, 0.0)], &[("highway", "residential"), ("name", "Main")]),
            osm_edge(4, 5, 2, vec![(40.0, 3.0), (0.0, 3.0)], &[("highway", "residential"), ("name", "East")]),
        ],
        vec![
            osm_intersection(0, &[1], (0.0, -50.0)),
            osm_intersection(1, &[1, 0, 3], (0.0, 0.0)),
            osm_intersection(2, &[0, 2, 4], (0.0, 3.0)),
            osm_intersection(3, &[2], (0.0, 53.0)),
            osm_intersection(4, &[3], (-40.0, 0.0)),
            osm_intersection(5, &[4], (40.0, 3.0)),
        ],
    );
    assert!(graph.is_dog_leg(EdgeID(0), &dog_leg_measures()).is_none());
}

#[test]
fn collapse_edge_on_a_dog_leg_trims_the_side_roads() {
    let mut graph = dog_leg_graph();
    let dog_leg = graph.is_dog_leg(EdgeID(0), &dog_leg_measures());
    let mid = graph.collapse_edge(EdgeID(0), (0.0, 1.5), dog_leg, (Some((-1.0, 0.0)), Some((1.0, 3.0))));
    // One new synthetic intersection at the midpoint; J1 and J2 are gone.
    assert_eq!(mid, IntersectionID(7));
    assert_eq!(live_intersections(&graph), vec![0, 3, 4, 5, 7]);
    let made = graph.intersection(mid).expect("the midpoint");
    assert_eq!(made.point, (0.0, 1.5));
    assert_eq!(made.provenance, IntersectionProvenance::Synthetic);
    assert_eq!(edges_at(&graph, 7), vec![1, 3, 2, 4]);
    assert_eq!(live_edges(&graph), vec![1, 2, 3, 4]);
    // The main road is drawn out to the midpoint.
    let m1 = graph.edge(EdgeID(1)).expect("main road south");
    assert_eq!((m1.src, m1.dst), (IntersectionID(0), mid));
    assert_eq!(m1.linestring, vec![(0.0, -50.0), (0.0, 0.0), (0.0, 1.5)]);
    let m2 = graph.edge(EdgeID(2)).expect("main road north");
    assert_eq!((m2.src, m2.dst), (mid, IntersectionID(3)));
    assert_eq!(m2.linestring, vec![(0.0, 1.5), (0.0, 3.0), (0.0, 53.0)]);
    // The side roads lose a metre at the tip and get a stub to the midpoint.
    let s1 = graph.edge(EdgeID(3)).expect("side road west");
    assert_eq!((s1.src, s1.dst), (IntersectionID(4), mid));
    assert_eq!(s1.linestring, vec![(-40.0, 0.0), (-1.0, 0.0), (0.0, 1.5)]);
    let s2 = graph.edge(EdgeID(4)).expect("side road east");
    assert_eq!((s2.src, s2.dst), (IntersectionID(5), mid));
    assert_eq!(s2.linestring, vec![(40.0, 3.0), (1.0, 3.0), (0.0, 1.5)]);
    assert!(graph.is_consistent());
    assert!(no_intersection_is_empty(&graph));
    assert!(linestrings_are_attached(&graph));
}

#[test]
fn collapse_edge_on_a_dog_leg_trims_a_side_road_that_leaves_the_junction() {
    let mut graph = build(
        vec![
            osm_edge(0, 1, 2, vec![(0.0, 0.0), (0.0, 3.0)], &[("highway", "residential"), ("name", "Main")]),
            osm_edge(1, 1, 3, vec![(0.0, 0.0), (-20.0, 0.0), (-40.0, 0.0)], &[("highway", "residential"), ("name", "West")]),
            osm_edge(2, 4, 2, vec![(40.0, 3.0), (0.0, 3.0)], &[("highway", "residential"), ("name", "East")]),
        ],
        vec![
            osm_intersection(1, &[0, 1], (0.0, 0.0)),
            osm_intersection(2, &[0, 2], (0.0, 3.0)),
            osm_intersection(3, &[1], (-40.0, 0.0)),
            osm_intersection(4, &[2], (40.0, 3.0)),
        ],
    );
    let dog_leg = Some(DogLeg { side_roads: (EdgeID(1), EdgeID(2)) });
    let mid = graph.collapse_edge(EdgeID(0), (0.0, 1.5), dog_leg, (Some((-1.0, 0.0)), None));
    let s1 = graph.edge(EdgeID(1)).expect("side road west");
    assert_eq!((s1.src, s1.dst), (mid, IntersectionID(3)));
    assert_eq!(s1.linestring, vec![(0.0, 1.5), (-1.0, 0.0), (-20.0, 0.0), (-40.0, 0.0)]);
    // Without a trim point a side road stays as it is.
    let s2 = graph.edge(EdgeID(2)).expect("side road east");
    assert_eq!(s2.linestring, vec![(40.0, 3.0), (0.0, 3.0)]);
    assert!(graph.is_consistent());
}

#[test]
fn collapse_edge_on_another_edge_draws_everything_to_the_midpoint() {
    let mut graph = dog_leg_graph();
    let mid = graph.collapse_edge(EdgeID(0), (0.0, 1.5), None, (None, None));
    assert_eq!(live_edges(&graph), vec![1, 2, 3, 4]);
    assert_eq!(live_intersections(&graph), vec![0, 3, 4, 5, 7]);
    assert_eq!(graph.edge(EdgeID(1)).expect("edge").linestring, vec![(0.0, -50.0), (0.0, 0.0), (0.0, 1.5)]);
    assert_eq!(graph.edge(EdgeID(2)).expect("edge").linestring, vec![(0.0, 1.5), (0.0, 3.0), (0.0, 53.0)]);
    assert_eq!(graph.edge(EdgeID(3)).expect("edge").linestring, vec![(-40.0, 0.0), (0.0, 0.0), (0.0, 1.5)]);
    assert_eq!(graph.edge(EdgeID(4)).expect("edge").linestring, vec![(40.0, 3.0), (0.0, 3.0), (0.0, 1.5)]);
    assert_eq!(edges_at(&graph, mid.0), vec![1, 3, 2, 4]);
    assert!(graph.is_consistent());
    assert!(linestrings_are_attached(&graph));
}

#[test]
fn collapse_edge_on_a_lone_edge_leaves_a_lone_midpoint() {
    let mut graph = build(
        vec![osm_edge(0, 0, 1, vec![(0.0, 0.0), (2.0, 0.0)], &[("highway", "residential")])],
        vec![osm_intersection(0, &[0], (0.0, 0.0)), osm_intersection(1, &[0], (2.0, 0.0))],
    );
    let mid = graph.collapse_edge(EdgeID(0), (1.0, 0.0), None, (None, None));
    assert!(live_edges(&graph).is_empty());
    assert_eq!(live_intersections(&graph), vec![mid.0]);
    assert!(edges_at(&graph, mid.0).is_empty());
    assert!(graph.is_consistent());
}

/// A triangle 0-1-2 of boundary edges 0, 1, 2, with a connecting edge 3
/// from intersection 0 out to 3 and a connecting edge 4 from 4 into 1.
fn roundabout() -> Graph<P> {
    build(
        vec![
            osm_edge(0, 0, 1, vec![(0.0, 0.0), (6.0, 0.0)], &[("highway", "residential")]),
            osm_edge(1, 1, 2, vec![(6.0, 0.0), (3.0, 6.0)], &[("highway", "residential")]),
            osm_edge(2, 2, 0, vec![(3.0, 6.0), (0.0, 0.0)], &[("highway", "residential")]),
            osm_edge(3, 0, 3, vec![(0.0, 0.0), (-20.0, 0.0)], &[("highway", "residential")]),
            osm_edge(4, 4, 1, vec![(26.0, 0.0), (6.0, 0.0)], &[("highway", "residential")]),
        ],
        vec![
            osm_intersection(0, &[0, 2, 3], (0.0, 0.0)),
            osm_intersection(1, &[0, 1, 4], (6.0, 0.0)),
            osm_intersection(2, &[1, 2], (3.0, 6.0)),
            osm_intersection(3, &[3], (-20.0, 0.0)),
            osm_intersection(4, &[4], (26.0, 0.0)),
        ],
    )
}

#[test]
fn collapse_to_centroid_folds_the_face_into_one_point() {
    let mut graph = roundabout();
    let boundary_edges = vec![EdgeID(0), EdgeID(1), EdgeID(2)];
    let boundary_intersections = vec![IntersectionID(0), IntersectionID(1), IntersectionID(2)];
    let centre = graph.collapse_to_centroid(&boundary_edges, &boundary_intersections, (3.0, 2.0));
    assert_eq!(centre, IntersectionID(6));
    assert_eq!(live_edges(&graph), vec![3, 4]);
    assert_eq!(live_intersections(&graph), vec![3, 4, 6]);
    let made = graph.intersection(centre).expect("the centroid");
    assert_eq!(made.point, (3.0, 2.0));
    assert_eq!(made.provenance, IntersectionProvenance::Synthetic);
    assert_eq!(edges_at(&graph, 6), vec![3, 4]);
    let e3 = graph.edge(EdgeID(3)).expect("edge 3");
    assert_eq!((e3.src, e3.dst), (centre, IntersectionID(3)));
    assert_eq!(e3.linestring, vec![(3.0, 2.0), (0.0, 0.0), (-20.0, 0.0)]);
    let e4 = graph.edge(EdgeID(4)).expect("edge 4");
    assert_eq!((e4.src, e4.dst), (IntersectionID(4), centre));
    assert_eq!(e4.linestring, vec![(26.0, 0.0), (6.0, 0.0), (3.0, 2.0)]);
    assert!(graph.is_consistent());
    assert!(linestrings_are_attached(&graph));
}

#[test]
fn collapse_to_centroid_without_connecting_edges_leaves_a_lone_point() {
    let mut graph = build(
        vec![
            osm_edge(0, 0, 1, vec![(0.0, 0.0), (6.0, 0.0)], &[("highway", "residential")]),
            osm_edge(1, 1, 0, vec![(6.0, 0.0), (3.0, 6.0), (0.0, 0.0)], &[("highway", "residential")]),
        ],
        vec![osm_intersection(0, &[0, 1], (0.0, 0.0)), osm_intersection(1, &[0, 1], (6.0, 0.0))],
    );
    let centre = graph.collapse_to_centroid(
        &vec![EdgeID(0), EdgeID(1)],
        &vec![IntersectionID(0), IntersectionID(1)],
        (3.0, 2.0),
    );
    assert!(live_edges(&graph).is_empty());
    assert_eq!(live_intersections(&graph), vec![centre.0]);
    assert!(graph.is_consistent());
    assert!(!no_intersection_is_empty(&graph));
}

/// A road 0 from 0 to 1, a footway 1 beside it from 2 to 3, a crossing 2
/// from 1 to 3, and a road 3 across from 0 to 2.
fn with_sidepath() -> Graph<P> {
    build(
        vec![
            osm_edge(0, 0, 1, vec![(0.0, 0.0), (100.0, 0.0)], &[("highway", "residential"), ("name", "Main")]),
            osm_edge(1, 2, 3, vec![(0.0, 5.0), (100.0, 5.0)], &[("highway", "footway")]),
            osm_edge(2, 1, 3, vec![(100.0, 0.0), (100.0, 5.0)], &[("highway", "footway"), ("footway", "crossing")]),
            osm_edge(3, 0, 2, vec![(0.0, 0.0), (0.0, 5.0)], &[("highway", "residential"), ("name", "Cross")]),
        ],
        vec![
            osm_intersection(0, &[0, 3], (0.0, 0.0)),
            osm_intersection(1, &[0, 2], (100.0, 0.0)),
            osm_intersection(2, &[1, 3], (0.0, 5.0)),
            osm_intersection(3, &[1, 2], (100.0, 5.0)),
        ],
    )
}

#[test]
fn remove_all_sidepaths_attributes_them_to_the_road() {
    let mut graph = with_sidepath();
    let plan = Sidepath {
        sidepath_edges: vec![EdgeID(1)],
        connector_edges: vec![EdgeID(2)],
        road_edges: vec![EdgeID(0)],
    };
    graph.remove_all_sidepaths(&vec![plan]);
    assert_eq!(live_edges(&graph), vec![0, 3]);
    assert_eq!(live_intersections(&graph), vec![0, 1, 2]);
    match &graph.edge(EdgeID(0)).expect("the road").kind {
        EdgeKind::Motorized { roads, service_roads, sidepaths, connectors } => {
            assert_eq!(sorted(roads), vec![0]);
            assert!(service_roads.is_empty());
            assert_eq!(sorted(sidepaths), vec![1]);
            assert_eq!(sorted(connectors), vec![2]);
        }
        _ => panic!("the road stays motorized"),
    }
    match &graph.edge(EdgeID(3)).expect("the other road").kind {
        EdgeKind::Motorized { sidepaths, connectors, .. } => {
            assert!(sidepaths.is_empty());
            assert!(connectors.is_empty());
        }
        _ => panic!("the road stays motorized"),
    }
    assert!(graph.is_consistent());
    assert!(no_intersection_is_empty(&graph));
    assert!(linestrings_are_attached(&graph));
}

#[test]
fn remove_all_sidepaths_takes_an_edge_of_two_plans_once() {
    let mut graph = with_sidepath();
    let plan = || Sidepath {
        sidepath_edges: vec![EdgeID(1)],
        connector_edges: vec![EdgeID(2)],
        road_edges: vec![EdgeID(0), EdgeID(3)],
    };
    graph.remove_all_sidepaths(&vec![plan(), plan()]);
    assert_eq!(live_edges(&graph), vec![0, 3]);
    for road in [0, 3] {
        match &graph.edge(EdgeID(road)).expect("a road").kind {
            EdgeKind::Motorized { sidepaths, connectors, .. } => {
                assert_eq!(sorted(sidepaths), vec![1]);
                assert_eq!(sorted(connectors), vec![2]);
            }
            _ => panic!("the road stays motorized"),
        }
    }
    assert!(graph.is_consistent());
}

/// Two oneways 0 and 1 of one name between 0-1 and 2-3, closed by the
/// short edges 2 and 3 at the ends; a side road 4 joins at intersection 1.
fn carriageways() -> Graph<P> {
    build(
        vec![
            osm_edge(0, 0, 1, vec![(0.0, 0.0), (100.0, 0.0)], &[("highway", "primary"), ("name", "Ring"), ("oneway", "yes")]),
            osm_edge(1, 3, 2, vec![(100.0, 10.0), (0.0, 10.0)], &[("highway", "primary"), ("name", "Ring"), ("oneway", "yes")]),
            osm_edge(2, 0, 2, vec![(0.0, 0.0), (0.0, 10.0)], &[("highway", "primary")]),
            osm_edge(3, 1, 3, vec![(100.0, 0.0), (100.0, 10.0)], &[("highway", "primary")]),
            osm_edge(4, 4, 1, vec![(100.0, -50.0), (100.0, 0.0)], &[("highway", "residential"), ("name", "Side")]),
        ],
        vec![
            osm_intersection(0, &[0, 2], (0.0, 0.0)),
            osm_intersection(1, &[0, 3, 4], (100.0, 0.0)),
            osm_intersection(2, &[1, 2], (0.0, 10.0)),
            osm_intersection(3, &[1, 3], (100.0, 10.0)),
            osm_intersection(4, &[4], (100.0, -50.0)),
        ],
    )
}

#[test]
fn collapse_dual_carriageway_puts_the_centre_line_in_its_place() {
    let mut graph = carriageways();
    let splits = Splits {
        lines: vec![vec![(0.0, 5.0), (50.0, 5.0)], vec![(50.0, 5.0), (100.0, 5.0)]],
        new_endpts: vec![(0.0, 5.0), (50.0, 5.0), (100.0, 5.0)],
    };
    let boundary_edges = vec![EdgeID(0), EdgeID(1), EdgeID(2), EdgeID(3)];
    let boundary_intersections = vec![IntersectionID(0), IntersectionID(1), IntersectionID(2), IntersectionID(3)];
    let applied = graph.collapse_dual_carriageway(&boundary_edges, &boundary_intersections, &splits, &vec![0, 2, 0, 2]);
    assert!(applied);
    // New intersections 6, 7, 8 and new edges 6, 7.
    assert_eq!(live_intersections(&graph), vec![4, 6, 7, 8]);
    assert_eq!(live_edges(&graph), vec![4, 6, 7]);
    for (i, point) in [(6, (0.0, 5.0)), (7, (50.0, 5.0)), (8, (100.0, 5.0))] {
        let made = graph.intersection(IntersectionID(i)).expect("an end point");
        assert_eq!(made.point, point);
        assert_eq!(made.provenance, IntersectionProvenance::Synthetic);
    }
    let first = graph.edge(EdgeID(6)).expect("first piece");
    assert_eq!((first.src, first.dst), (IntersectionID(6), IntersectionID(7)));
    assert_eq!(first.linestring, vec![(0.0, 5.0), (50.0, 5.0)]);
    let second = graph.edge(EdgeID(7)).expect("second piece");
    assert_eq!((second.src, second.dst), (IntersectionID(7), IntersectionID(8)));
    for piece in [first, second] {
        match &piece.kind {
            EdgeKind::Motorized { roads, .. } => assert_eq!(sorted(roads), vec![0, 1, 2, 3]),
            _ => panic!("the centre line is motorized"),
        }
    }
    // The side road now meets the centre line.
    let side = graph.edge(EdgeID(4)).expect("side road");
    assert_eq!((side.src, side.dst), (IntersectionID(4), IntersectionID(8)));
    assert_eq!(side.linestring, vec![(100.0, -50.0), (100.0, 0.0), (100.0, 5.0)]);
    assert_eq!(edges_at(&graph, 8), vec![7, 4]);
    assert!(graph.is_consistent());
    assert!(no_intersection_is_empty(&graph));
    assert!(linestrings_are_attached(&graph));
}

#[test]
fn collapse_dual_carriageway_refuses_a_centre_line_that_does_not_fit() {
    let boundary_edges = vec![EdgeID(0), EdgeID(1), EdgeID(2), EdgeID(3)];
    let boundary_intersections = vec![IntersectionID(0), IntersectionID(1), IntersectionID(2), IntersectionID(3)];
    let good_lines = || vec![vec![(0.0, 5.0), (100.0, 5.0)]];
    let cases: Vec<(Splits<P>, Vec<usize>)> = vec![
        // No piece.
        (Splits { lines: vec![], new_endpts: vec![(0.0, 5.0)] }, vec![0, 0, 0, 0]),
        // Not one end point more than pieces.
        (Splits { lines: good_lines(), new_endpts: vec![(0.0, 5.0)] }, vec![0, 0, 0, 0]),
        // A piece of one point.
        (Splits { lines: vec![vec![(0.0, 5.0)]], new_endpts: vec![(0.0, 5.0), (100.0, 5.0)] }, vec![0, 1, 0, 1]),
        // Not an end point for every boundary intersection.
        (Splits { lines: good_lines(), new_endpts: vec![(0.0, 5.0), (100.0, 5.0)] }, vec![0, 1, 0]),
        // An end point that is not there.
        (Splits { lines: good_lines(), new_endpts: vec![(0.0, 5.0), (100.0, 5.0)] }, vec![0, 1, 0, 2]),
    ];
    for (splits, attach) in cases {
        let mut graph = carriageways();
        assert!(!graph.collapse_dual_carriageway(&boundary_edges, &boundary_intersections, &splits, &attach));
        assert_eq!(live_edges(&graph), vec![0, 1, 2, 3, 4]);
        assert_eq!(live_intersections(&graph), vec![0, 1, 2, 3, 4]);
    }
}

#[test]
fn merged_motorized_unites_the_motorized_edges() {
    let graph = with_sidepath();
    match graph.merged_motorized(&vec![EdgeID(0), EdgeID(1), EdgeID(3), EdgeID(9)]) {
        EdgeKind::Motorized { roads, service_roads, sidepaths, connectors } => {
            assert_eq!(sorted(&roads), vec![0, 3]);
            assert!(service_roads.is_empty());
            assert!(sidepaths.is_empty());
            assert!(connectors.is_empty());
        }
        _ => panic!("the merged kind is motorized"),
    }
}

#[test]
fn tip_at_start_tells_from_which_end_a_side_road_is_trimmed() {
    let graph = dog_leg_graph();
    // Both side roads run into the junctions: their tips are their ends.
    assert_eq!(graph.tip_at_start(EdgeID(0), EdgeID(3)), Some(false));
    assert_eq!(graph.tip_at_start(EdgeID(0), EdgeID(4)), Some(false));
    // The main road north leaves the far junction: its tip is its start.
    assert_eq!(graph.tip_at_start(EdgeID(0), EdgeID(2)), Some(true));
    assert_eq!(graph.tip_at_start(EdgeID(0), EdgeID(1)), Some(false));
    assert_eq!(graph.tip_at_start(EdgeID(0), EdgeID(9)), None);
    assert_eq!(graph.tip_at_start(EdgeID(9), EdgeID(3)), None);
}

#[test]
fn boundary_end_is_the_end_on_the_boundary() {
    let graph = carriageways();
    let boundary = vec![IntersectionID(0), IntersectionID(1), IntersectionID(2), IntersectionID(3)];
    // The side road runs from 4 into the boundary intersection 1.
    assert_eq!(graph.boundary_end(&boundary, EdgeID(4)), Some(IntersectionID(1)));
    // An edge that leaves the boundary at its source.
    assert_eq!(graph.boundary_end(&vec![IntersectionID(4)], EdgeID(4)), Some(IntersectionID(4)));
    // With both ends on the boundary it is the source.
    assert_eq!(graph.boundary_end(&boundary, EdgeID(3)), Some(IntersectionID(1)));
    assert_eq!(graph.boundary_end(&boundary, EdgeID(9)), None);
}
