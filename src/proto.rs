//! The persisted form of the tree: one record per node, grouped by layer.
use vstd::prelude::*;
use crate::address::Distance;

verus! {

/// The persisted form of one node.
#[derive(Debug, Clone)]
pub struct NodeProto {
    pub center_index: u64,
    pub radius: Distance,
    pub cover_count: u64,
    pub is_leaf: bool,
    /// The self-child's scale; zero for a leaf.
    pub nested_scale_index: i32,
    pub children_scale_indexes: Vec<i32>,
    pub children_point_indexes: Vec<u64>,
    pub outlier_point_indexes: Vec<u64>,
}

/// The persisted form of one layer.
#[derive(Debug, Clone)]
pub struct LayerProto {
    pub scale_index: i32,
    pub nodes: Vec<NodeProto>,
}

/// The persisted form of a tree: its covering radii, its root, and its
/// layers, lowest scale first.
#[derive(Debug, Clone)]
pub struct CoverTreeProto {
    pub scale_min: i32,
    pub scale_radii: Vec<Distance>,
    pub root_scale: i32,
    pub root_center_index: u64,
    pub layers: Vec<LayerProto>,
}

} // verus!
