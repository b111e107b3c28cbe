use road_bundler::dual_carriageway::sort_by_bearing;
use road_bundler::{
    classify_bearings, nearest_index, roughly_parallel, sample_distances, split_positions, Bearing,
    EdgeID, EdgeMeasure, Measures,
};

fn bearings(degrees: &[u32]) -> Vec<Bearing> {
    degrees.iter().map(|d| Bearing::from_degrees(*d)).collect()
}

#[test]
fn test_classify_bearings() {
    for (input, expected) in vec![
        (vec![90, 90, 91, 98, 265, 271], vec![0, 0, 0, 0, 1, 1]),
        (vec![90, 270], vec![0, 1]),
        (vec![85, 90, 90, 90, 270, 274], vec![0, 0, 0, 0, 1, 1]),
        (vec![179, 358, 359, 359, 359, 360], vec![0, 1, 1, 1, 1, 1]),
        // Wrap around angle case
        (vec![1, 179, 184, 352, 353, 359], vec![0, 1, 1, 0, 0, 0]),
    ] {
        let got1 = classify_bearings(&bearings(&input));
        // Classes 0 and 1 are arbitrary; the opposite is also fine
        let got2: Vec<usize> = got1.iter().map(|c| if *c == 0 { 1 } else { 0 }).collect();
        if got1 != expected && got2 != expected {
            panic!("For bearings {input:?},\n  got  {got1:?}\n  want {expected:?}");
        }
    }
}

#[test]
fn test_roughly_parallel() {
    let b = Bearing::from_degrees;
    assert!(roughly_parallel(b(359), b(360)));
    assert!(roughly_parallel(b(359), b(0)));
    assert!(roughly_parallel(b(354), b(2)));
    assert!(roughly_parallel(b(179), b(359)));

    assert!(!roughly_parallel(b(179), b(271)));
    // south vs west
}

#[test]
fn classify_bearings_starts_at_class_zero() {
    assert_eq!(classify_bearings(&bearings(&[])), Vec::<usize>::new());
    assert_eq!(classify_bearings(&bearings(&[200])), vec![0]);
    assert_eq!(classify_bearings(&bearings(&[90, 90, 91, 98, 265, 271])), vec![0, 0, 0, 0, 1, 1]);
    assert_eq!(classify_bearings(&bearings(&[1, 179, 184, 352, 353, 359])), vec![0, 1, 1, 0, 0, 0]);
}

#[test]
fn classify_bearings_changes_class_past_forty_five_degrees() {
    let at = |micro| Bearing { micro_degrees: micro };
    assert_eq!(classify_bearings(&vec![at(0), at(45_000_000)]), vec![0, 0]);
    assert_eq!(classify_bearings(&vec![at(0), at(45_000_001)]), vec![0, 1]);
    // The gap counts in either direction.
    assert_eq!(classify_bearings(&vec![at(100_000_000), at(54_999_999)]), vec![0, 1]);
    assert_eq!(classify_bearings(&vec![at(100_000_000), at(55_000_000)]), vec![0, 0]);
}

#[test]
fn roughly_parallel_has_a_tolerance_of_thirty_degrees() {
    let at = |micro| Bearing { micro_degrees: micro };
    assert!(roughly_parallel(at(0), at(29_999_999)));
    assert!(!roughly_parallel(at(0), at(30_000_000)));
    assert!(!roughly_parallel(at(0), at(90_000_000)));
    assert!(!roughly_parallel(at(0), at(150_000_000)));
    assert!(roughly_parallel(at(0), at(150_000_001)));
    assert!(roughly_parallel(at(0), at(180_000_000)));
    assert!(roughly_parallel(at(0), at(209_999_999)));
    assert!(!roughly_parallel(at(0), at(210_000_000)));
    assert!(roughly_parallel(at(0), at(330_000_001)));
    // It does not matter which of the two is named first.
    for (a, b) in [(10, 200), (200, 10), (10, 100), (100, 10), (350, 5), (5, 350)] {
        assert_eq!(
            roughly_parallel(Bearing::from_degrees(a), Bearing::from_degrees(b)),
            roughly_parallel(Bearing::from_degrees(b), Bearing::from_degrees(a))
        );
    }
}

#[test]
fn bearing_from_degrees_counts_in_millionths() {
    assert_eq!(Bearing::from_degrees(0).micro_degrees, 0);
    assert_eq!(Bearing::from_degrees(90).micro_degrees, 90_000_000);
    assert_eq!(Bearing::from_degrees(360).micro_degrees, 360_000_000);
    assert_eq!(Bearing::from_degrees(10).gap(Bearing::from_degrees(350)), 340_000_000);
    assert_eq!(Bearing::from_degrees(350).gap(Bearing::from_degrees(10)), 340_000_000);
}

#[test]
fn sort_by_bearing_is_stable() {
    let item = |e: usize, d: u32| (EdgeID(e), Bearing::from_degrees(d));
    let sorted = sort_by_bearing(&vec![item(0, 270), item(1, 90), item(2, 180), item(3, 90), item(4, 0), item(5, 270)]);
    let edges: Vec<usize> = sorted.iter().map(|(e, _)| e.0).collect();
    assert_eq!(edges, vec![4, 1, 3, 2, 0, 5]);
    let degrees: Vec<u64> = sorted.iter().map(|(_, b)| b.micro_degrees / 1_000_000).collect();
    assert_eq!(degrees, vec![0, 90, 90, 180, 270, 270]);
    assert!(sort_by_bearing(&vec![]).is_empty());
}

#[test]
fn nearest_index_is_the_first_least_key() {
    assert_eq!(nearest_index(&vec![7]), 0);
    assert_eq!(nearest_index(&vec![7, 3, 9]), 1);
    assert_eq!(nearest_index(&vec![7, 3, 9, 3]), 1);
    assert_eq!(nearest_index(&vec![0, 0, 0]), 0);
    assert_eq!(nearest_index(&vec![5, 4, 3, 2, 1]), 4);
}

#[test]
fn split_positions_rise_without_repeats() {
    assert_eq!(split_positions(&vec![]), Vec::<u64>::new());
    assert_eq!(split_positions(&vec![5_000_000_000, 0, 10_000_000_000, 5_000_000_000, 0]), vec![0, 5_000_000_000, 10_000_000_000]);
    assert_eq!(split_positions(&vec![3, 2, 1]), vec![1, 2, 3]);
}

#[test]
fn sample_distances_include_the_start_and_the_exact_end() {
    assert_eq!(sample_distances(25, 10), vec![0, 10, 20, 25]);
    assert_eq!(sample_distances(30, 10), vec![0, 10, 20, 30]);
    assert_eq!(sample_distances(7, 10), vec![0, 7]);
    assert_eq!(sample_distances(10, 10), vec![0, 10]);
    assert_eq!(sample_distances(0, 10), vec![0]);
    assert_eq!(sample_distances(u64::MAX, u64::MAX - 1), vec![0, u64::MAX - 1, u64::MAX]);
    // Ten-metre steps along 25.5 metres, in micrometres.
    assert_eq!(sample_distances(25_500_000, 10_000_000), vec![0, 10_000_000, 20_000_000, 25_500_000]);
}

#[test]
fn measures_are_kept_by_edge() {
    let mut m = Measures::new();
    assert!(m.get(EdgeID(3)).is_none());
    let one = EdgeMeasure { length: 1, bearing: Bearing::from_degrees(10), reverse_bearing: Bearing::from_degrees(190) };
    let two = EdgeMeasure { length: 2, bearing: Bearing::from_degrees(20), reverse_bearing: Bearing::from_degrees(200) };
    m.set(EdgeID(3), one);
    m.set(EdgeID(0), two);
    assert_eq!(m.get(EdgeID(3)), Some(one));
    assert_eq!(m.get(EdgeID(0)), Some(two));
    assert!(m.get(EdgeID(1)).is_none());
    assert!(m.get(EdgeID(4)).is_none());
    m.set(EdgeID(3), two);
    assert_eq!(m.get(EdgeID(3)), Some(two));
    assert_eq!(m.clone().get(EdgeID(0)), Some(two));
}
