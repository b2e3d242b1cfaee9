//! The ways in which an operation on the tree can fail.
use vstd::prelude::*;

verus! {

/// An error of the cover tree.
#[derive(Debug, Clone, Copy, PartialEq, Eq, Structural)]
pub enum GokoError {
    /// A distance or label query on the point cloud failed.
    PointCloudError,
    /// A nested child was inserted into a node that already has one.
    DoubleNest,
    /// A child was inserted into a node that has no nested child yet.
    InsertBeforeNest,
    /// A query named an address that is not in the current snapshot.
    IndexNotInTree,
    /// A query asked for no neighbours, or gave an empty point.
    MalformedQuery,
}

} // verus!
