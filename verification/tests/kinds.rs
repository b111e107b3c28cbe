use road_bundler::{EdgeID, EdgeKind, OriginalEdgeID, OriginalEdgeSet, Tags};

fn set_of(ids: &[usize]) -> OriginalEdgeSet {
    let mut set = OriginalEdgeSet::new();
    for id in ids {
        set.insert(OriginalEdgeID(*id));
    }
    set
}

fn motorized(roads: &[usize], service: &[usize], sidepaths: &[usize], connectors: &[usize]) -> EdgeKind {
    EdgeKind::Motorized {
        roads: set_of(roads),
        service_roads: set_of(service),
        sidepaths: set_of(sidepaths),
        connectors: set_of(connectors),
    }
}

fn sorted(set: &OriginalEdgeSet) -> Vec<usize> {
    let mut ids: Vec<usize> = set.to_vec().iter().map(|o| o.0).collect();
    ids.sort();
    ids
}

#[test]
fn merge_of_two_motorized_kinds_unites_every_bucket() {
    let a = motorized(&[1, 2], &[10], &[], &[30]);
    let b = motorized(&[2, 3], &[], &[20], &[30, 31]);
    match a.merge(&b) {
        Some(EdgeKind::Motorized { roads, service_roads, sidepaths, connectors }) => {
            assert_eq!(sorted(&roads), vec![1, 2, 3]);
            assert_eq!(sorted(&service_roads), vec![10]);
            assert_eq!(sorted(&sidepaths), vec![20]);
            assert_eq!(sorted(&connectors), vec![30, 31]);
        }
        _ => panic!("two motorized kinds must merge into a motorized kind"),
    }
}

#[test]
fn merge_of_two_nonmotorized_kinds_unites_their_edges() {
    let a = EdgeKind::Nonmotorized(set_of(&[5, 6]));
    let b = EdgeKind::Nonmotorized(set_of(&[6, 7]));
    match a.merge(&b) {
        Some(EdgeKind::Nonmotorized(edges)) => assert_eq!(sorted(&edges), vec![5, 6, 7]),
        _ => panic!("two nonmotorized kinds must merge into a nonmotorized kind"),
    }
}

#[test]
fn merge_across_variants_is_refused() {
    let a = motorized(&[1], &[], &[], &[]);
    let b = EdgeKind::Nonmotorized(set_of(&[2]));
    assert!(a.merge(&b).is_none());
    assert!(b.merge(&a).is_none());
}

#[test]
fn merged_sets_hold_nothing_twice() {
    let a = motorized(&[1, 2, 3], &[], &[], &[]);
    let b = motorized(&[3, 2, 1], &[], &[], &[]);
    match a.merge(&b) {
        Some(EdgeKind::Motorized { roads, .. }) => {
            assert_eq!(roads.len(), 3);
            assert_eq!(roads.to_vec().len(), 3);
        }
        _ => panic!("expected a motorized kind"),
    }
}

#[test]
fn to_simple_names_the_first_bucket_that_is_not_empty() {
    assert_eq!(motorized(&[1], &[2], &[3], &[4]).to_simple(), "road");
    assert_eq!(motorized(&[], &[2], &[3], &[4]).to_simple(), "service road");
    assert_eq!(motorized(&[], &[], &[3], &[4]).to_simple(), "sidepath");
    assert_eq!(motorized(&[], &[], &[], &[4]).to_simple(), "connector");
    assert_eq!(motorized(&[], &[], &[], &[]).to_simple(), "connector");
    assert_eq!(EdgeKind::Nonmotorized(set_of(&[1])).to_simple(), "nonmotorized");
}

#[test]
fn service_road_has_service_roads_and_no_carriageway() {
    assert!(motorized(&[], &[2], &[], &[]).is_service_road());
    assert!(!motorized(&[1], &[2], &[], &[]).is_service_road());
    assert!(!motorized(&[1], &[], &[], &[]).is_service_road());
    assert!(!motorized(&[], &[], &[3], &[]).is_service_road());
    assert!(!EdgeKind::Nonmotorized(set_of(&[1])).is_service_road());
}

fn tags_of(pairs: &[(&str, &str)]) -> Tags {
    let mut tags = Tags::new();
    for (k, v) in pairs {
        tags.insert(k, v);
    }
    tags
}

#[test]
fn initial_classification_follows_the_highway_tag() {
    for highway in ["footway", "cycleway", "elevator", "path", "pedestrian", "platform", "steps", "track"] {
        match EdgeKind::initially_classify(EdgeID(7), &tags_of(&[("highway", highway)])) {
            EdgeKind::Nonmotorized(edges) => assert_eq!(sorted(&edges), vec![7]),
            _ => panic!("{highway} must be nonmotorized"),
        }
    }
    for highway in ["corridor", "service"] {
        match EdgeKind::initially_classify(EdgeID(8), &tags_of(&[("highway", highway)])) {
            EdgeKind::Motorized { roads, service_roads, sidepaths, connectors } => {
                assert!(roads.is_empty());
                assert_eq!(sorted(&service_roads), vec![8]);
                assert!(sidepaths.is_empty());
                assert!(connectors.is_empty());
            }
            _ => panic!("{highway} must be motorized"),
        }
    }
    for tags in [tags_of(&[("highway", "residential")]), tags_of(&[("name", "Main")]), tags_of(&[])] {
        match EdgeKind::initially_classify(EdgeID(9), &tags) {
            EdgeKind::Motorized { roads, service_roads, sidepaths, connectors } => {
                assert_eq!(sorted(&roads), vec![9]);
                assert!(service_roads.is_empty());
                assert!(sidepaths.is_empty());
                assert!(connectors.is_empty());
            }
            _ => panic!("anything else must be a carriageway"),
        }
    }
}

#[test]
fn tags_answer_for_the_last_value_set() {
    let mut tags = Tags::new();
    assert!(!tags.has("highway"));
    assert!(tags.get("highway").is_none());
    tags.insert("highway", "service");
    tags.insert("name", "Main");
    tags.insert("highway", "footway");
    assert!(tags.has("highway"));
    assert_eq!(tags.get("highway").map(|s| s.as_str()), Some("footway"));
    assert!(tags.is("highway", "footway"));
    assert!(!tags.is("highway", "service"));
    assert!(!tags.is("oneway", "yes"));
    assert!(tags.is_any("highway", vec!["cycleway", "footway"]));
    assert!(!tags.is_any("highway", vec!["cycleway", "path"]));
    assert!(!tags.is_any("highway", vec![]));
    assert!(!tags.is_any("surface", vec!["paved"]));
    assert_eq!(tags.len(), 2);
    let copy = tags.clone();
    assert_eq!(copy.get("name").map(|s| s.as_str()), Some("Main"));
}
