use goko::query::KnnQueryHeap;
use goko::scale::ScaleBase;

fn unit_base() -> ScaleBase {
    // Scales -1, 0 and 1 have radii 5, 10 and 20.
    ScaleBase::new(-1, vec![5, 10, 20])
}

#[test]
fn candidates_stay_sorted_and_bounded() {
    let mut heap = KnnQueryHeap::new(3, unit_base());
    heap.push_outliers(&vec![7, 3, 9, 1, 4], &vec![50, 10, 30, 10, 5]);
    assert_eq!(heap.unpack(), vec![(5, 4), (10, 1), (10, 3)]);
    assert_eq!(heap.len(), 3);
    heap.push_outlier(2, 100);
    assert_eq!(heap.unpack(), vec![(5, 4), (10, 1), (10, 3)]);
    heap.push_outlier(8, 0);
    assert_eq!(heap.unpack(), vec![(0, 8), (5, 4), (10, 1)]);
}

#[test]
fn a_candidate_is_held_once() {
    let mut heap = KnnQueryHeap::new(4, unit_base());
    heap.push_outlier(6, 12);
    heap.push_outlier(6, 12);
    heap.push_outlier(2, 12);
    assert_eq!(heap.unpack(), vec![(12, 2), (12, 6)]);
}

#[test]
fn lower_bounds_subtract_the_radius() {
    let mut heap = KnnQueryHeap::new(2, unit_base());
    heap.push_nodes(&vec![(1, 4), (-1, 5), (0, 6), (3, 7)], &vec![23, 23, 4, 1000], Some((2, 0)));
    assert_eq!(heap.node_len(), 4);
    // The centers are candidates too.
    assert_eq!(heap.unpack(), vec![(4, 6), (23, 4)]);
    let a = heap.pop_closest_unvisited().unwrap();
    assert_eq!((a.lower_bound, a.address, a.parent), (0, (0, 6), Some((2, 0))));
    let b = heap.pop_closest_unvisited().unwrap();
    assert_eq!((b.lower_bound, b.address), (0, (3, 7)));
    let c = heap.pop_closest_unvisited().unwrap();
    assert_eq!((c.lower_bound, c.address), (3, (1, 4)));
    let d = heap.pop_closest_unvisited().unwrap();
    assert_eq!((d.lower_bound, d.address), (18, (-1, 5)));
    assert!(heap.pop_closest_unvisited().is_none());
}

#[test]
fn ties_go_to_the_closer_center_then_the_deeper_node() {
    let mut heap = KnnQueryHeap::new(1, ScaleBase::new(0, vec![0, 0, 0]));
    heap.push_nodes(&vec![(2, 1), (1, 2), (1, 3)], &vec![7, 7, 6], None);
    let order: Vec<(i32, usize)> = (0..3).map(|_| heap.pop_closest_unvisited().unwrap().address).collect();
    assert_eq!(order, vec![(1, 3), (1, 2), (2, 1)]);
}

#[test]
fn stop_once_the_frontier_cannot_improve() {
    let mut heap = KnnQueryHeap::new(2, unit_base());
    assert!(!heap.should_stop());
    heap.push_outliers(&vec![1, 2], &vec![3, 8]);
    assert!(!heap.should_stop());
    heap.push_nodes(&vec![(-1, 9)], &vec![14], None);
    // Lower bound 14 - 5 = 9 is past the worst candidate, 8.
    assert_eq!(heap.unpack(), vec![(3, 1), (8, 2)]);
    assert!(heap.should_stop());
    heap.push_nodes(&vec![(1, 10)], &vec![25], None);
    // Lower bound 25 - 20 = 5 could still improve on 8.
    assert!(!heap.should_stop());
}

#[test]
fn radii_outside_the_table() {
    let b = unit_base();
    assert_eq!(b.radius(-1), 5);
    assert_eq!(b.radius(1), 20);
    assert_eq!(b.radius(-2), 0);
    assert_eq!(b.radius(2), u64::MAX);
}

#[test]
fn offering_everything_keeps_the_k_best() {
    let data = [0.0f32, 0.49, 0.48, 0.5, 0.1, 0.2, 0.3, 0.493, 0.9];
    let query = 0.494f32;
    let dists: Vec<u64> = data.iter().map(|x| ((x - query).abs() as f64 * 1.0e6).round() as u64).collect();
    let indexes: Vec<usize> = (0..data.len()).collect();
    for k in 1..=data.len() {
        let mut heap = KnnQueryHeap::new(k, unit_base());
        // Offer every point twice, in two orders.
        heap.push_outliers(&indexes, &dists);
        let rev_i: Vec<usize> = indexes.iter().rev().cloned().collect();
        let rev_d: Vec<u64> = dists.iter().rev().cloned().collect();
        heap.push_outliers(&rev_i, &rev_d);
        let mut brute: Vec<(u64, usize)> = dists.iter().cloned().zip(indexes.iter().cloned()).collect();
        brute.sort();
        brute.truncate(k);
        assert_eq!(heap.unpack(), brute);
    }
}
