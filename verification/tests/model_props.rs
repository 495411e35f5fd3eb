//! Concrete checks of the tour laws: Hamiltonian walks, inverse neighbour
//! queries, `between` orientation, flip round trips, the differential
//! comparison of the two representations, totals, and greedy construction.

use lkn::node::Node;
use lkn::tour::array::Array;
use lkn::tour::tests::{array_tour_order, create_container, test_tour_order};
use lkn::tour::tll::TwoLevelList;
use lkn::tour::TourOrder;

#[test]
fn test_hamiltonian_walk() {
    let container = create_container(10);
    let mut tour = TwoLevelList::new(&container, 3);
    assert!(tour
        .apply(&TourOrder::new(vec![3, 0, 4, 1, 6, 8, 7, 9, 5, 2]))
        .is_ok());
    for start in 0..10usize {
        let mut seen = vec![false; 10];
        let mut v = start;
        for _ in 0..10 {
            assert!(!seen[v]);
            seen[v] = true;
            v = tour.successor_at(v).expect("successor").index();
        }
        assert_eq!(v, start);
        assert!(seen.iter().all(|&s| s));
    }
}

#[test]
fn test_successor_predecessor_inverse() {
    let container = create_container(10);
    let mut tour = TwoLevelList::new(&container, 3);
    assert!(tour
        .apply(&TourOrder::new(vec![9, 7, 5, 3, 1, 0, 2, 4, 6, 8]))
        .is_ok());
    for v in 0..10usize {
        let s = tour.successor_at(v).expect("successor").index();
        let p = tour.predecessor_at(v).expect("predecessor").index();
        assert_eq!(tour.predecessor_at(s).expect("pred").index(), v);
        assert_eq!(tour.successor_at(p).expect("succ").index(), v);
    }
}

#[test]
fn test_between_orientation() {
    let container = create_container(12);
    let mut tour = TwoLevelList::new(&container, 4);
    assert!(tour
        .apply(&TourOrder::new(vec![5, 2, 9, 0, 11, 4, 7, 1, 10, 3, 8, 6]))
        .is_ok());
    let triples = [
        (5usize, 2usize, 9usize),
        (0, 4, 8),
        (11, 1, 6),
        (3, 10, 7),
        (2, 6, 10),
    ];
    for &(a, b, c) in triples.iter() {
        // exactly one orientation holds
        assert!(tour.between_at(a, b, c) != tour.between_at(a, c, b));
        // the relation is invariant under cyclic rotation of the triple
        assert_eq!(tour.between_at(a, b, c), tour.between_at(b, c, a));
        assert_eq!(tour.between_at(a, b, c), tour.between_at(c, a, b));
    }
}

#[test]
fn test_flip_round_trip() {
    let container = create_container(10);
    let mut tour = TwoLevelList::new(&container, 3);
    let ident = TourOrder::new((0..10).collect());
    assert!(tour.apply(&ident).is_ok());
    // the arc 3 -> 5 is the shorter one, so it is the one reversed
    assert!(tour.try_flip_at(2, 3, 5, 6));
    assert!(tour.try_flip_at(2, 5, 3, 6));
    assert!(test_tour_order(&tour, &ident));
}

#[test]
fn test_differential() {
    let container = create_container(60);
    let mut tll = TwoLevelList::new(&container, 8);
    let mut arr = Array::new(&container);
    let order = TourOrder::new((0..60).collect());
    assert!(tll.apply(&order).is_ok());
    assert!(arr.apply(&order).is_ok());
    let moves = [
        (3usize, 4usize, 9usize, 10usize),
        (20, 21, 41, 42),
        (55, 56, 2, 3),
        (9, 3, 21, 41),
    ];
    for &(a, b, c, d) in moves.iter() {
        let f1 = tll.try_flip_at(a, b, c, d);
        let f2 = arr.try_flip_at(a, b, c, d);
        assert_eq!(f1, f2);
        // identical successor sequences and identical totals
        let mut v = 0usize;
        for _ in 0..60 {
            let s1 = tll.successor_at(v).expect("successor").index();
            let s2 = arr.successor_at(v).expect("successor");
            assert_eq!(s1, s2);
            v = s1;
        }
        assert_eq!(tll.total_distance(), arr.total_distance());
    }
}

#[test]
fn test_total_follows_flips() {
    let container = create_container(30);
    let mut tour = TwoLevelList::new(&container, 5);
    assert!(tour.apply(&TourOrder::new((0..30).collect())).is_ok());
    assert!(tour.try_flip_at(4, 5, 12, 13));
    assert!(tour.try_flip_at(20, 21, 27, 28));
    // recompute the total from a successor walk over the squared metric
    let mut fresh: u128 = 0;
    let mut v = 0usize;
    for _ in 0..30 {
        let u = tour.successor_at(v).expect("successor").index();
        fresh += tour.distance_at(v, u) as u128;
        v = u;
    }
    assert_eq!(v, 0);
    assert_eq!(tour.total_distance(), fresh);
}

#[test]
fn test_solve_greedy_line() {
    let container = create_container(6);
    let mut tour = TwoLevelList::new(&container, 3);
    assert!(lkn::alg::solver::solve_greedy(&mut tour, None).is_ok());
    // on collinear cities the greedy tour from 0 is the identity
    assert!(test_tour_order(&tour, &TourOrder::new((0..6).collect())));
}

#[test]
fn test_solve_greedy_inner_start() {
    let container = create_container(5);
    let mut tour = TwoLevelList::new(&container, 2);
    assert!(lkn::alg::solver::solve_greedy(&mut tour, Some(2)).is_ok());
    // from 2: ties break to the lower id, then the walk runs outward
    assert!(test_tour_order(&tour, &TourOrder::new(vec![2, 1, 0, 3, 4])));
}

#[test]
fn test_solve_greedy_bad_starter() {
    let container = create_container(4);
    let mut tour = TwoLevelList::new(&container, 2);
    assert_eq!(
        lkn::alg::solver::solve_greedy(&mut tour, Some(9)),
        Err(lkn::tour::UpdateTourError::NodeNotFound)
    );
    // the failed run left the tour alone
    assert!(test_tour_order(&tour, &TourOrder::new((0..4).collect())));
}

#[test]
fn test_node_accessors() {
    let node = Node::new(3, 7, -2, 11);
    assert_eq!(node.index(), 3);
    assert_eq!(node.x(), 7);
    assert_eq!(node.y(), -2);
    assert_eq!(node.z(), 11);
    let container = create_container(5);
    assert_eq!(container.len(), 5);
    assert!(container.get(4).is_some());
    assert!(container.get(5).is_none());
    // squared plane distance between (0,0) and (1,1)
    let a = *container.get(0).expect("node");
    let b = *container.get(1).expect("node");
    assert_eq!(container.distance(&a, &b), 2);
}

#[test]
fn test_visited_flags() {
    let container = create_container(4);
    let mut tour = TwoLevelList::new(&container, 2);
    assert!(!tour.get(1).expect("vertex").is_visited());
    tour.visited_at(1, true);
    assert!(tour.get(1).expect("vertex").is_visited());
    assert!(!tour.get(0).expect("vertex").is_visited());
    tour.reset();
    assert!(!tour.get(1).expect("vertex").is_visited());
    // out-of-range ids are ignored
    tour.visited_at(17, true);
    assert_eq!(tour.len(), 4);
}

#[test]
fn test_flip_round_trip_array() {
    let container = create_container(10);
    let mut tour = Array::new(&container);
    let ident = TourOrder::new((0..10).collect());
    assert!(tour.apply(&ident).is_ok());
    assert!(tour.try_flip_at(2, 3, 5, 6));
    assert!(tour.try_flip_at(2, 5, 3, 6));
    assert!(array_tour_order(&tour, &ident));
}

#[test]
fn test_invalid_flip_refused() {
    let container = create_container(10);
    let mut tour = TwoLevelList::new(&container, 3);
    assert!(tour.apply(&TourOrder::new((0..10).collect())).is_ok());
    // 5 is not the successor of 2
    assert!(!tour.try_flip_at(2, 5, 6, 7));
    // ids out of range
    assert!(!tour.try_flip_at(2, 3, 10, 11));
    // ids not distinct
    assert!(!tour.try_flip_at(2, 3, 2, 3));
    assert!(test_tour_order(&tour, &TourOrder::new((0..10).collect())));
}
