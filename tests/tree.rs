use goko::address::Distance;
use goko::errors::GokoError;
use goko::layer::CoverLayerWriter;
use goko::node::CoverNode;
use goko::scale::ScaleBase;
use goko::tree::{path_step, CoverTreeReader, CoverTreeWriter};

fn fx(x: f32) -> Distance {
    (x as f64 * 1.0e6).round() as Distance
}

/// Points on a line, and a three-layer tree over them:
/// (1,0) -> self-child (0,0) and child (0,3); (0,0) -> self-child (-1,0) and child (-1,1).
fn build() -> (Vec<CoverLayerWriter>, CoverTreeReader) {
    let base = ScaleBase::new(-4, (-4..=4).map(|s| fx(2f32.powi(s))).collect());
    let mut low = CoverLayerWriter::new(-1);
    let mut mid = CoverLayerWriter::new(0);
    let mut top = CoverLayerWriter::new(1);

    let mut root = CoverNode::new((1, 0));
    root.insert_nested_child(0, 0).unwrap();
    root.insert_child((0, 3), 0).unwrap();
    top.insert_raw(0, root);

    let mut nested = CoverNode::new((0, 0));
    nested.insert_nested_child(-1, 0).unwrap();
    nested.insert_child((-1, 1), 0).unwrap();
    mid.insert_raw(0, nested);
    let mut far = CoverNode::new((0, 3));
    far.insert_singletons(vec![4]);
    mid.insert_raw(3, far);

    let mut leaf0 = CoverNode::new((-1, 0));
    leaf0.insert_singletons(vec![2]);
    low.insert_raw(0, leaf0);
    low.insert_raw(1, CoverNode::new((-1, 1)));

    for w in [&mut low, &mut mid, &mut top] {
        w.refresh();
    }
    let readers = vec![low.reader(), mid.reader(), top.reader()];
    let tree = CoverTreeReader::new(base, (1, 0), -1, readers);
    (vec![low, mid, top], tree)
}

const POINTS: [f32; 5] = [0.0, 0.7, 0.1, 1.5, 1.6];

#[test]
fn path_goes_down_covering_children() {
    let (_writers, tree) = build();
    let q = 0.65f32;
    let path = tree.path(|p| fx((POINTS[p] - q).abs())).unwrap();
    let addrs: Vec<(i32, usize)> = path.iter().map(|(_, a)| *a).collect();
    // The root; its self-child (radius 1 covers 0.65); there the self-child at
    // scale -1 (radius 1/2) does not cover, but the child centered at 0.7 does.
    assert_eq!(addrs, vec![(1, 0), (0, 0), (-1, 1)]);
    assert_eq!(path[2].0, fx(0.05));
}

#[test]
fn path_stops_where_nothing_covers() {
    let (_writers, tree) = build();
    let q = 1.55f32;
    let path = tree.path(|p| fx((POINTS[p] - q).abs())).unwrap();
    let addrs: Vec<(i32, usize)> = path.iter().map(|(_, a)| *a).collect();
    // The self-child (radius 1) misses 1.55; the child centered at 1.5 covers
    // it, and is a leaf.
    assert_eq!(addrs, vec![(1, 0), (0, 3)]);
}

#[test]
fn path_fails_on_a_missing_node() {
    let (_writers, tree) = build();
    let broken = CoverTreeReader::new(
        ScaleBase::new(0, vec![fx(1.0)]),
        (5, 9),
        -1,
        vec![],
    );
    assert_eq!(broken.path(|_| 0).err(), Some(GokoError::IndexNotInTree));
    assert_eq!(tree.root_address(), (1, 0));
    assert_eq!(tree.get_node_and((0, 3), |n: &CoverNode| n.singletons().to_vec()), Some(vec![4]));
    assert_eq!(tree.get_node_and((0, 9), |n: &CoverNode| n.singleton_len()), None);
    assert_eq!(tree.layer(0).map(|l| l.node_count()), Some(2));
    assert!(tree.layer(2).is_none());
}

fn brute_knn(q: f32, k: usize) -> Vec<(Distance, usize)> {
    let mut all: Vec<(Distance, usize)> = POINTS.iter().enumerate().map(|(i, x)| (fx((x - q).abs()), i)).collect();
    all.sort();
    all.truncate(k);
    all
}

#[test]
fn knn_matches_a_brute_force_sort() {
    let (_writers, tree) = build();
    for &q in &[0.65f32, 0.0, 1.55, 0.2, 1.0] {
        for k in 1..=5 {
            let found = tree.knn(k, |p| fx((POINTS[p] - q).abs())).unwrap();
            assert_eq!(found, brute_knn(q, k), "query {} k {}", q, k);
        }
    }
}

#[test]
fn knn_rejects_zero_neighbours() {
    let (_writers, tree) = build();
    assert_eq!(tree.knn(0, |_| 0).err(), Some(GokoError::MalformedQuery));
}

fn build_writer() -> CoverTreeWriter {
    let base = ScaleBase::new(-4, (-4..=4).map(|s| fx(2f32.powi(s))).collect());
    let mut tree = CoverTreeWriter::new(base, (1, 0), -1, 1);
    let mut root = CoverNode::new((1, 0));
    root.insert_nested_child(0, 0).unwrap();
    root.insert_child((0, 3), 0).unwrap();
    tree.insert_raw(root).unwrap();
    let mut nested = CoverNode::new((0, 0));
    nested.insert_nested_child(-1, 0).unwrap();
    nested.insert_child((-1, 1), 0).unwrap();
    tree.insert_raw(nested).unwrap();
    let mut far = CoverNode::new((0, 3));
    far.insert_singletons(vec![4]);
    tree.insert_raw(far).unwrap();
    let mut leaf0 = CoverNode::new((-1, 0));
    leaf0.insert_singletons(vec![2]);
    tree.insert_raw(leaf0).unwrap();
    tree.insert_raw(CoverNode::new((-1, 1))).unwrap();
    tree
}

#[test]
fn a_tree_writer_publishes_all_layers_at_once() {
    let mut writer = build_writer();
    let reader = writer.reader();
    assert_eq!(reader.get_node_and((1, 0), |n: &CoverNode| n.children_len()), None);
    writer.refresh();
    assert_eq!(reader.get_node_and((1, 0), |n: &CoverNode| n.children_len()), Some(2));
    let found = reader.knn(3, |p| fx((POINTS[p] - 0.65).abs())).unwrap();
    assert_eq!(found, brute_knn(0.65, 3));
    assert_eq!(writer.insert_raw(CoverNode::new((5, 0))), Err(GokoError::IndexNotInTree));
    assert_eq!(writer.insert_raw(CoverNode::new((-2, 0))), Err(GokoError::IndexNotInTree));
}

#[test]
fn save_then_load_answers_queries_alike() {
    let mut writer = build_writer();
    writer.refresh();
    let proto = writer.save();
    assert_eq!(proto.layers.len(), 3);
    assert_eq!((proto.root_scale, proto.root_center_index), (1, 0));
    let loaded = CoverTreeWriter::load(&proto).unwrap();
    let (a, b) = (writer.reader(), loaded.reader());
    for &q in &[0.65f32, 0.0, 1.55, 0.2] {
        let d = |p: usize| fx((POINTS[p] - q).abs());
        assert_eq!(a.knn(4, d).unwrap(), b.knn(4, d).unwrap());
        assert_eq!(a.path(d).unwrap(), b.path(d).unwrap());
    }
    let mut shuffled = proto.clone();
    shuffled.layers.swap(0, 2);
    assert_eq!(CoverTreeWriter::load(&shuffled).err(), Some(GokoError::IndexNotInTree));
}

#[test]
fn routing_knn_counts_only_centers() {
    let (_writers, tree) = build();
    for &q in &[0.65f32, 0.0, 1.55, 0.2] {
        let mut centers: Vec<(Distance, usize)> = [0usize, 1, 3].iter().map(|&i| (fx((POINTS[i] - q).abs()), i)).collect();
        centers.sort();
        for k in 1..=3 {
            let found = tree.routing_knn(k, |p| fx((POINTS[p] - q).abs())).unwrap();
            assert_eq!(found, centers[..k].to_vec(), "query {} k {}", q, k);
        }
    }
    assert_eq!(tree.routing_knn(0, |_| 0).err(), Some(GokoError::MalformedQuery));
}

#[test]
fn path_step_follows_covering_child() {
    let (_writers, tree) = build();
    let q = 0.65f32;
    let d = |p: usize| fx((POINTS[p] - q).abs());
    let base = ScaleBase::new(-4, (-4..=4).map(|s| fx(2f32.powi(s))).collect());
    let mut nested = CoverNode::new((0, 0));
    nested.insert_nested_child(-1, 0).unwrap();
    nested.insert_child((-1, 1), 0).unwrap();
    assert_eq!(path_step(&base, &nested, (d(0), (0, 0)), &d), Some((d(1), (-1, 1))));
    // A child at a scale that is not lower ends the path.
    let mut odd = CoverNode::new((0, 0));
    odd.insert_nested_child(0, 0).unwrap();
    assert_eq!(path_step(&base, &odd, (d(0), (0, 0)), &d), None);
    assert_eq!(tree.path(d).unwrap().len(), 3);
}

#[test]
fn categoricals_are_built_bottom_up() {
    let mut writer = build_writer();
    writer.attach_categoricals();
    writer.refresh();
    let reader = writer.reader();
    let total = |scale: i32, center: usize| {
        reader
            .layer(scale)
            .and_then(|l| l.get_node_plugin_and(center, |p: &goko::categorical::Categorical| p.total()))
    };
    assert_eq!(total(-1, 0), Some(2));
    assert_eq!(total(-1, 1), Some(1));
    assert_eq!(total(0, 3), Some(2));
    assert_eq!(total(0, 0), Some(3));
    // The root's categorical counts every point of the cloud.
    assert_eq!(total(1, 0), Some(5));
    let root_shares = reader
        .layer(1)
        .and_then(|l| l.get_node_plugin_and(0, |p: &goko::categorical::Categorical| p.prob_vector()))
        .unwrap()
        .unwrap();
    assert_eq!(root_shares.0, vec![((0, 0), 3), ((0, 3), 2)]);
}

#[test]
fn copies_of_a_saved_and_a_reloaded_tree_give_the_same_paths() {
    let writer = build_writer();
    let loaded = CoverTreeWriter::load(&writer.save()).unwrap();
    let (a, b) = (writer.snapshot(), loaded.snapshot());
    for &q in &[0.65f32, 0.0, 1.55, 0.2] {
        let d = |p: usize| fx((POINTS[p] - q).abs());
        assert_eq!(a.path(d).unwrap(), b.path(d).unwrap());
    }
}
