use goko::categorical::Categorical;
use goko::layer::CoverLayerWriter;
use goko::node::CoverNode;

fn node_with(scale: i32, center: usize, singles: Vec<usize>) -> CoverNode {
    let mut node = CoverNode::new((scale, center));
    node.insert_singletons(singles);
    node
}

#[test]
fn readers_see_a_write_only_after_refresh() {
    let mut writer = CoverLayerWriter::new(-2);
    let reader = writer.reader();
    writer.insert_raw(5, node_with(-2, 5, vec![1, 2]));
    assert_eq!(reader.get_node_and(5, |n: &CoverNode| n.singleton_len()), None);
    assert_eq!(reader.node_count(), 0);
    writer.refresh();
    assert_eq!(reader.get_node_and(5, |n: &CoverNode| n.singleton_len()), Some(2));
    assert_eq!(reader.node_count(), 1);
    let second = reader.reader();
    assert_eq!(second.get_node_and(5, |n: &CoverNode| *n.center_index()), Some(5));
    assert_eq!(second.scale_index(), -2);
}

#[test]
fn snapshots_follow_the_writer() {
    let mut writer = CoverLayerWriter::new(0);
    let reader = writer.reader();
    for round in 0..5usize {
        writer.insert_raw(round, node_with(0, round, vec![]));
        writer.refresh();
        assert_eq!(reader.node_count(), round + 1);
        let centers = reader.node_center_indexes();
        assert_eq!(centers, (0..=round).collect::<Vec<usize>>());
        for c in centers {
            assert_eq!(reader.get_node_and(c, |n: &CoverNode| *n.scale_index()), Some(0));
        }
    }
}

#[test]
fn update_node_replaces_the_node() {
    let mut writer = CoverLayerWriter::new(1);
    writer.insert_raw(3, node_with(1, 3, vec![4]));
    writer.update_node(3, |n: &CoverNode| {
        let mut m = n.clone();
        m.set_radius(42);
        m
    });
    writer.update_node(9, |n: &CoverNode| n.clone());
    writer.refresh();
    let reader = writer.reader();
    assert_eq!(reader.get_node_and(3, |n: &CoverNode| n.radius()), Some(42));
    assert_eq!(reader.get_node_and(9, |n: &CoverNode| n.radius()), None);
}

#[test]
fn plugins_and_children_are_read_through_the_layer() {
    let mut writer = CoverLayerWriter::new(1);
    let mut node = node_with(1, 3, vec![]);
    node.insert_nested_child(0, 0).unwrap();
    node.insert_child((0, 8), 0).unwrap();
    let mut c = Categorical::new();
    c.add_child_pop(None, 6);
    node.insert_plugin(c);
    writer.insert_raw(3, node);
    writer.insert_raw(4, node_with(1, 4, vec![]));
    writer.refresh();
    let reader = writer.reader();
    assert_eq!(reader.get_node_plugin_and(3, |p: &Categorical| p.total()), Some(6));
    assert_eq!(reader.get_node_plugin_and(4, |p: &Categorical| p.total()), None);
    assert_eq!(
        reader.get_node_children_and(3, |a, c: &[(i32, usize)]| (a, c.to_vec())),
        Some(((0, 3), vec![(0, 8)]))
    );
    assert_eq!(reader.get_node_children_and(4, |a, _c: &[(i32, usize)]| a), None);
    let mut counts = reader.map_nodes(|k: &usize, n: &CoverNode| (*k, n.children_len()));
    counts.sort();
    assert_eq!(counts, vec![(3, 2), (4, 0)]);
}

#[test]
fn save_then_load_gives_the_layer_back() {
    let mut writer = CoverLayerWriter::new(-1);
    writer.insert_raw(2, node_with(-1, 2, vec![5, 6]));
    writer.insert_raw(7, node_with(-1, 7, vec![]));
    writer.insert_raw(2, node_with(-1, 2, vec![5]));
    let proto = writer.save();
    assert_eq!(proto.scale_index, -1);
    assert_eq!(proto.nodes.len(), 2);
    let back = CoverLayerWriter::load(&proto);
    assert_eq!(back.scale_index(), -1);
    let reader = back.reader();
    assert_eq!(reader.node_center_indexes(), vec![2, 7]);
    assert_eq!(reader.get_node_and(2, |n: &CoverNode| n.singletons().to_vec()), Some(vec![5]));
    assert_eq!(reader.get_node_and(7, |n: &CoverNode| n.cover_count()), Some(0));
}

#[test]
fn a_snapshot_stays_as_it_was_read() {
    let mut writer = CoverLayerWriter::new(0);
    writer.insert_raw(4, node_with(0, 4, vec![7]));
    writer.refresh();
    let reader = writer.reader();
    let snap = reader.snapshot();
    writer.insert_raw(5, node_with(0, 5, vec![]));
    writer.refresh();
    assert_eq!(snap.node_count(), 1);
    assert_eq!(snap.node_center_indexes(), vec![4]);
    assert_eq!(snap.get_node_and(4, |n: &CoverNode| n.singletons().to_vec()), Some(vec![7]));
    assert_eq!(snap.get_node_and(5, |n: &CoverNode| n.singleton_len()), None);
    assert_eq!(snap.get_node_plugin_and(4, |p: &Categorical| p.total()), None);
    assert_eq!(snap.get_node_children_and(4, |a, _c: &[(i32, usize)]| a), None);
    assert_eq!(reader.snapshot().node_count(), 2);
}
