//! The scenario suite: the rank primitive, `apply`, totals, `between` and
//! the flip cases, on the two-level list and on the array reference.

use lkn::node::MetricKind;
use lkn::tour::array::Array;
use lkn::tour::tests::{
    apply, array_tour_order, between, create_container, flip, test_tour_order, total_dist,
};
use lkn::tour::tll::TwoLevelList;
use lkn::tour::TourOrder;

#[test]
fn test_between() {
    // 1 -> 2 -> 3 -> 4 -> 5
    assert!(lkn::tour::between(1, 3, 4)); // true
    assert!(!lkn::tour::between(1, 5, 4)); // false
    assert!(lkn::tour::between(5, 1, 3)); // true
    assert!(!lkn::tour::between(5, 3, 1)); // false
}

#[test]
fn test_apply() {
    let container = create_container(10);
    let mut tour = TwoLevelList::new(&container, 4);
    assert!(apply(&mut tour));
    // the applied order: 3 0 4 1 6 8 7 9 5 2
    let six = tour.get(6).expect("city 6");
    assert_eq!(tour.predecessor(six).expect("pred").index(), 1);
    assert_eq!(tour.successor(six).expect("succ").index(), 8);
}

#[test]
fn test_total_dist() {
    let container = create_container(4);
    let mut tour = TwoLevelList::new(&container, 3);
    assert_eq!(4, tour.len());
    assert!(total_dist(&mut tour));

    // cities at (0,0), (1,1), (2,2), (3,3) under the squared plane metric
    let o1 = TourOrder::new(vec![0, 1, 2, 3]);
    assert!(tour.apply(&o1).is_ok());
    assert_eq!(tour.total_distance(), 2 + 2 + 2 + 18);
    // the Euclidean length of the same cycle is 6 * sqrt(2)
    assert!((walk_euclidean(&tour) - 6.0 * (2.0f64).sqrt()).abs() < 1e-9);

    let o2 = TourOrder::new(vec![1, 3, 0, 2]);
    assert!(tour.apply(&o2).is_ok());
    assert_eq!(tour.total_distance(), 8 + 18 + 8 + 2);
    // and of this one, 8 * sqrt(2)
    assert!((walk_euclidean(&tour) - 8.0 * (2.0f64).sqrt()).abs() < 1e-9);
}

/// The Euclidean length of the tour, recomputed edge by edge from a
/// successor walk over the real coordinates.
fn walk_euclidean(tour: &TwoLevelList) -> f64 {
    let n = tour.len();
    let mut total = 0.0f64;
    let mut v = 0usize;
    for _ in 0..n {
        let u = tour.successor_at(v).expect("successor").index();
        let a = tour.container.get(v).expect("node");
        let b = tour.container.get(u).expect("node");
        let dx = (a.x() - b.x()) as f64;
        let dy = (a.y() - b.y()) as f64;
        total += (dx * dx + dy * dy).sqrt();
        v = u;
    }
    assert_eq!(v, 0);
    total
}

#[test]
fn tests_test_between() {
    let container = create_container(10);
    let mut tour = TwoLevelList::new(&container, 3);
    assert!(between(&mut tour));
}

#[test]
fn test_flip_cases() {
    let container = create_container(100);
    let mut tour = TwoLevelList::new(&container, 10);
    assert!(flip(&mut tour));
}

#[test]
fn tests_test_apply() {
    let container = create_container(10);
    let mut tour = Array::new(&container);
    let expected = TourOrder::new(vec![3, 0, 4, 1, 6, 8, 7, 9, 5, 2]);
    assert!(tour.apply(&expected).is_ok());
    assert!(array_tour_order(&tour, &expected));
    assert_eq!(tour.predecessor_at(6), Some(1));
    assert_eq!(tour.successor_at(6), Some(8));
}

#[test]
fn tests_test_total_dist() {
    let container = create_container(4);
    let mut tour = Array::new(&container);
    assert_eq!(4, tour.len());
    assert!(tour.apply(&TourOrder::new(vec![0, 1, 2, 3])).is_ok());
    assert_eq!(tour.total_distance(), 24);
    assert!(tour.apply(&TourOrder::new(vec![1, 3, 0, 2])).is_ok());
    assert_eq!(tour.total_distance(), 36);
}

#[test]
fn test_between_array() {
    let container = create_container(10);
    let mut tour = Array::new(&container);
    assert!(tour.apply(&TourOrder::new((0..10).collect())).is_ok());
    assert!(tour.between_at(0, 1, 2));
    assert!(!tour.between_at(0, 2, 1));
    assert!(!tour.between_at(2, 1, 0));
    assert!(tour.between_at(2, 0, 1));
    assert!(tour.between_at(2, 3, 7));
    assert!(!tour.between_at(2, 7, 3));
    assert!(!tour.between_at(7, 3, 2));
    assert!(tour.between_at(7, 2, 3));
    assert!(tour.between_at(3, 5, 8));
    assert!(!tour.between_at(3, 8, 5));
    assert!(!tour.between_at(8, 5, 3));
    assert!(tour.between_at(8, 3, 5));
    assert!(tour.try_flip_at(2, 3, 5, 6));
    assert!(!tour.between_at(3, 4, 5));
    assert!(tour.between_at(5, 4, 3));
    assert!(!tour.between_at(3, 5, 8));
    assert!(tour.between_at(3, 8, 5));
}

#[test]
fn tests_test_flip_cases() {
    let container = create_container(100);
    let mut tour = Array::new(&container);
    assert!(tour.apply(&TourOrder::new((0..100).collect())).is_ok());

    // inside one chunk of the cycle
    assert!(tour.try_flip_at(3, 4, 8, 9));
    let mut expected = vec![0, 1, 2, 3, 8, 7, 6, 5, 4, 9];
    expected.append(&mut (10..100).collect());
    assert!(array_tour_order(&tour, &TourOrder::new(expected)));
    assert!(tour.try_flip_at(3, 8, 4, 9));
    assert!(array_tour_order(&tour, &TourOrder::new((0..100).collect())));

    // a longer arc
    assert!(tour.try_flip_at(9, 10, 39, 40));
    let mut expected: Vec<usize> = (0..10).collect();
    expected.append(&mut (10..40).rev().collect());
    expected.append(&mut (40..100).collect());
    assert!(array_tour_order(&tour, &TourOrder::new(expected)));
    assert!(tour.try_flip_at(10, 40, 9, 39));
    assert!(array_tour_order(&tour, &TourOrder::new((0..100).collect())));

    // the shorter arc wraps around the seam
    assert!(tour.try_flip_at(9, 10, 89, 90));
    let mut expected: Vec<usize> = (90..100).rev().collect();
    expected.append(&mut (10..90).collect());
    expected.append(&mut (0..10).rev().collect());
    assert!(array_tour_order(&tour, &TourOrder::new(expected)));
    assert!(tour.try_flip_at(90, 10, 89, 9));
    assert!(array_tour_order(&tour, &TourOrder::new((0..100).collect())));
}

#[test]
fn test_with_default_order() {
    let container = create_container(10);
    let tour = TwoLevelList::with_default_order(&container, 3);
    let ident = TourOrder::new((0..10).collect());
    assert!(test_tour_order(&tour, &ident));
}

#[test]
fn test_apply_rejects_bad_input() {
    let container = create_container(4);
    let mut tour = TwoLevelList::new(&container, 2);
    // size mismatch
    assert_eq!(
        tour.apply(&TourOrder::new(vec![0, 1, 2])),
        Err(lkn::tour::UpdateTourError::BadPermutation)
    );
    // an id that names no city
    assert_eq!(
        tour.apply(&TourOrder::new(vec![0, 1, 2, 7])),
        Err(lkn::tour::UpdateTourError::NodeNotFound)
    );
    // a repeated id
    assert_eq!(
        tour.apply(&TourOrder::new(vec![0, 1, 2, 2])),
        Err(lkn::tour::UpdateTourError::BadPermutation)
    );
    // the tour is untouched by the failures
    let ident = TourOrder::new((0..4).collect());
    assert!(test_tour_order(&tour, &ident));
}

#[test]
fn test_manhattan_metric() {
    let mut container = lkn::node::Container::new(MetricKind::Man2d);
    container.add(0, 0, 0);
    container.add(2, 3, 0);
    container.add(5, 5, 0);
    let n0 = *container.get(0).expect("node");
    let n1 = *container.get(1).expect("node");
    assert_eq!(container.distance(&n0, &n1), 5);
    assert_eq!(container.distance_at(1, 2), 5);
    let tour = TwoLevelList::new(&container, 2);
    // 5 + 5 + 10 around the triangle
    assert_eq!(tour.total_distance(), 20);
}
