use goko::address::Distance;
use goko::categorical::Categorical;
use goko::errors::GokoError;
use goko::node::CoverNode;
use goko::proto::NodeProto;
use goko::query::KnnQueryHeap;
use goko::scale::ScaleBase;

fn fx(x: f32) -> Distance {
    (x as f64 * 1.0e6).round() as Distance
}

fn base(b: f32) -> ScaleBase {
    ScaleBase::new(-10, (-10..=10).map(|s| fx(b.powi(s))).collect())
}

fn dists(data: &[f32], point: f32, idx: &[usize]) -> Vec<Distance> {
    idx.iter().map(|&i| fx((data[i] - point).abs())).collect()
}

fn create_test_node() -> CoverNode {
    let mut node = CoverNode::new((0, 0));
    node.set_radius(fx(1.0));
    node.insert_nested_child(0, 0).unwrap();
    node.insert_child((-4, 1), 0).unwrap();
    node.insert_child((-4, 2), 0).unwrap();
    node.insert_child((-4, 3), 0).unwrap();
    node.insert_singletons(vec![4, 5, 6]);
    node
}

fn create_test_leaf_node() -> CoverNode {
    let mut node = CoverNode::new((0, 0));
    node.set_radius(fx(1.0));
    node.insert_singletons(vec![1, 2, 3, 4, 5, 6]);
    node
}

fn run_knn(node: &CoverNode, heap: &mut KnnQueryHeap) {
    let data = vec![0.0f32, 0.49, 0.48, 0.5, 0.1, 0.2, 0.3];
    let point = 0.494f32;
    let centers: Vec<usize> = match node.children() {
        Some((_, c)) => c.iter().map(|a| a.1).collect(),
        None => vec![],
    };
    node.knn(
        dists(&data, point, &[0])[0],
        &dists(&data, point, node.singletons()),
        &dists(&data, point, &centers),
        heap,
    );
}

#[test]
fn knn_node_children_mixed() {
    // Tests the mixed uppacking
    let test_node = create_test_node();
    let mut heap = KnnQueryHeap::new(5, base(2.0));
    run_knn(&test_node, &mut heap);
    println!("{:?}", heap);
    println!("There shoud be 4 node addresses on the heap here");
    assert!(heap.node_len() == 4);
    println!("There shoud be only 3 singleton indexes on the heap");
    assert!(heap.len() == 5);
    let results = heap.unpack();
    println!("There should be 5 results, {:?}", results);
    assert!(results.len() == 5);
    println!("The first result should be 1 but is {:?}", results[0].1);
    assert!(results[0].1 == 1);
    println!("The first result should be 3 but is {:?}", results[1].1);
    assert!(results[1].1 == 3);
}

#[test]
fn knn_node_children_only() {
    let test_node = create_test_node();
    let mut heap = KnnQueryHeap::new(5, base(2.0));
    run_knn(&test_node, &mut heap);
    println!("{:?}", heap);
    println!("There shoud be 4 node addresses on the heap here");
    assert!(heap.node_len() == 4);
    println!("There shoud be only 3 singleton indexes on the heap");
    assert!(heap.len() == 5);
    let results = heap.unpack();
    println!("There should be 5 results, {:?}", results);
    assert!(results.len() == 5);
    println!("The first result should be 1 but is {:?}", results[0].1);
    assert!((results[0].1) == 1);
    println!("The first result should be 3 but is {:?}", results[1].1);
    assert!((results[1].1) == 3);
}

#[test]
fn knn_node_leaf() {
    let test_node = create_test_leaf_node();
    let mut heap = KnnQueryHeap::new(5, base(2.0));
    run_knn(&test_node, &mut heap);
    println!("{:?}", heap);
    println!("There shoudn't be any node addresses on the heap here");
    assert!(heap.node_len() == 0);
    println!("There shoud be only 2 singleton indexes on the heap");
    assert!(heap.len() == 5);
    let results = heap.unpack();
    println!("There should be 5 results");
    assert!(results.len() == 5);
    println!("The first result should be 1 but is {:?}", results[0].1);
    assert!(results[0].1 == 1);
    println!("The first result should be 3 but is {:?}", results[1].1);
    assert!(results[1].1 == 3);
}

#[test]
fn knn_pushes_children_in_frontier_order() {
    let test_node = create_test_node();
    let mut heap = KnnQueryHeap::new(5, base(2.0));
    run_knn(&test_node, &mut heap);
    // Every lower bound is zero here, so the distance to the center decides.
    let mut order = Vec::new();
    while let Some(q) = heap.pop_closest_unvisited() {
        order.push((q.lower_bound, q.address, q.parent));
    }
    assert_eq!(
        order,
        vec![
            (0, (-4, 1), Some((0, 0))),
            (0, (-4, 3), Some((0, 0))),
            (0, (-4, 2), Some((0, 0))),
            (0, (0, 0), Some((0, 0))),
        ]
    );
}

#[test]
fn insert_errors() {
    let mut node = CoverNode::new((2, 5));
    assert_eq!(node.insert_child((1, 6), 1), Err(GokoError::InsertBeforeNest));
    assert!(node.is_leaf());
    assert_eq!(node.insert_nested_child(1, 2), Ok(()));
    assert_eq!(node.insert_nested_child(0, 1), Err(GokoError::DoubleNest));
    assert_eq!(node.children().map(|(s, c)| (s, c.to_vec())), Some((1, vec![])));
    assert_eq!(node.insert_child((1, 6), 3), Ok(()));
    node.insert_singleton(9);
    assert_eq!(node.cover_count(), 8);
    assert_eq!(node.children_len(), 2);
    assert_eq!(node.child_list(), vec![(1, 5), (1, 6)]);
    assert_eq!(*node.center_index(), 5);
    assert_eq!(*node.scale_index(), 2);
    assert_eq!(node.singleton_len(), 1);
}

#[test]
fn covering_child_prefers_the_self_child() {
    let node = create_test_node();
    let b = base(2.0);
    // The self-child (scale 0, radius 1) covers a point 0.494 from the center.
    assert_eq!(
        node.covering_child(&b, fx(0.494), &vec![fx(0.004), fx(0.014), fx(0.006)]),
        Some((fx(0.494), (0, 0)))
    );
    // Outside the self-child: the first child whose radius (1/16) covers wins.
    assert_eq!(
        node.covering_child(&b, fx(1.5), &vec![fx(0.5), fx(0.05), fx(0.01)]),
        Some((fx(0.05), (-4, 2)))
    );
    assert_eq!(node.covering_child(&b, fx(1.5), &vec![fx(0.5), fx(0.5), fx(0.5)]), None);
    assert_eq!(create_test_leaf_node().covering_child(&b, fx(0.1), &vec![]), None);
}

#[test]
fn nearest_covering_child_takes_the_closest() {
    let node = create_test_node();
    let b = base(2.0);
    assert_eq!(
        node.nearest_covering_child(&b, fx(0.494), &vec![fx(0.004), fx(0.014), fx(0.006)]),
        Some((fx(0.004), (-4, 1)))
    );
    assert_eq!(
        node.nearest_covering_child(&b, fx(0.01), &vec![fx(0.5), fx(0.05), fx(0.02)]),
        Some((fx(0.01), (0, 0)))
    );
    assert_eq!(
        node.nearest_covering_child(&b, fx(1.5), &vec![fx(0.5), fx(0.05), fx(0.02)]),
        Some((fx(0.02), (-4, 3)))
    );
    assert_eq!(node.nearest_covering_child(&b, fx(1.5), &vec![fx(0.5), fx(0.5), fx(0.5)]), None);
}

#[test]
fn separation_is_checked_on_every_point() {
    let node = create_test_node();
    assert_eq!(node.separation_points(), vec![4, 5, 6, 0, 1, 2, 3]);
    assert!(node.check_seperation(10, &vec![10, 12, 40]));
    assert!(!node.check_seperation(11, &vec![10, 12, 40]));
    assert!(node.check_seperation(11, &vec![]));
}

#[test]
fn save_then_load_gives_the_node_back() {
    let mut node = create_test_node();
    node.set_radius(777);
    let proto = node.save();
    assert_eq!(proto.center_index, 0);
    assert!(!proto.is_leaf);
    assert_eq!(proto.children_scale_indexes, vec![-4, -4, -4]);
    assert_eq!(proto.children_point_indexes, vec![1, 2, 3]);
    assert_eq!(proto.outlier_point_indexes, vec![4, 5, 6]);
    let back = CoverNode::load(0, &proto);
    assert_eq!(back.radius(), 777);
    assert_eq!(back.cover_count(), node.cover_count());
    assert_eq!(back.singletons(), node.singletons());
    assert_eq!(back.child_list(), node.child_list());
    let leaf = create_test_leaf_node().save();
    assert!(leaf.is_leaf);
    assert!(CoverNode::load(3, &leaf).is_leaf());
}

#[test]
fn load_pairs_child_lists_to_the_shorter() {
    let proto = NodeProto {
        center_index: 4,
        radius: 9,
        cover_count: 3,
        is_leaf: false,
        nested_scale_index: 1,
        children_scale_indexes: vec![1, 0, -1],
        children_point_indexes: vec![7, 8],
        outlier_point_indexes: vec![2],
    };
    let node = CoverNode::load(2, &proto);
    assert_eq!(node.child_list(), vec![(1, 4), (1, 7), (0, 8)]);
    assert_eq!(node.cover_count(), 3);
}

#[test]
fn clone_keeps_the_node_but_not_the_plugin() {
    let mut node = create_test_node();
    let mut c = Categorical::new();
    c.add_child_pop(None, 3);
    node.insert_plugin(c);
    assert_eq!(node.get_plugin_and(|p: &Categorical| p.total()), Some(3));
    let copy = node.clone();
    assert_eq!(copy.get_plugin_and(|p: &Categorical| p.total()), None);
    assert_eq!(copy.child_list(), node.child_list());
    assert_eq!(copy.singletons(), node.singletons());
    assert_eq!(copy.radius(), node.radius());
}

#[test]
fn a_covering_path_descends_through_children() {
    // Points on a line; the query sits at 0.3.
    let data = [0.0f32, 0.9, 0.3, 0.35];
    let q = 0.3f32;
    let b = base(2.0);
    let mut root = CoverNode::new((1, 0));
    root.insert_nested_child(0, 0).unwrap();
    root.insert_child((-1, 2), 0).unwrap();
    let mut nested = CoverNode::new((0, 0));
    nested.insert_nested_child(-1, 0).unwrap();
    nested.insert_child((-2, 3), 0).unwrap();
    let d = |i: usize| fx((data[i] - q).abs());
    // From the root, the self-child at scale 0 (radius 1) covers 0.3 first.
    let step1 = root.covering_child(&b, d(0), &vec![d(2)]).unwrap();
    assert_eq!(step1, (d(0), (0, 0)));
    assert!(root.child_list().contains(&step1.1));
    // From there the self-child at scale -1 (radius 1/2) still covers it.
    let step2 = nested.covering_child(&b, d(0), &vec![d(3)]).unwrap();
    assert_eq!(step2, (d(0), (-1, 0)));
    assert!(step2.0 < b.radius(step2.1 .0));
}

#[test]
fn a_query_at_exactly_the_radius_is_covered() {
    let node = create_test_node();
    let b = base(2.0);
    // The self-child (scale 0) has radius 1; the children (scale -4) 1/16.
    assert_eq!(
        node.covering_child(&b, fx(1.0), &vec![fx(0.5), fx(0.5), fx(0.5)]),
        Some((fx(1.0), (0, 0)))
    );
    assert_eq!(
        node.covering_child(&b, fx(1.5), &vec![fx(0.0625), fx(0.01), fx(0.5)]),
        Some((fx(0.0625), (-4, 1)))
    );
    assert_eq!(
        node.nearest_covering_child(&b, fx(1.0), &vec![fx(0.5), fx(0.5), fx(0.5)]),
        Some((fx(1.0), (0, 0)))
    );
    assert_eq!(
        node.nearest_covering_child(&b, fx(1.5), &vec![fx(0.5), fx(0.0625), fx(0.5)]),
        Some((fx(0.0625), (-4, 2)))
    );
}
