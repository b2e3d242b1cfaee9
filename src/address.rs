//! Point indexes and node addresses, with the order in which nodes are kept.
use vstd::prelude::*;

verus! {

/// Identifies a point of the point cloud.
pub type PointIndex = usize;

/// A distance in the metric of the point cloud, as a non-negative fixed-point
/// number. The front end that evaluates the metric fixes the unit.
pub type Distance = u64;

/// A node is named by its scale index and the index of its center point.
pub type NodeAddress = (i32, PointIndex);

/// Lexicographic order on addresses: first by scale, then by center.
pub open spec fn addr_lt(a: NodeAddress, b: NodeAddress) -> bool {
    a.0 < b.0 || (a.0 == b.0 && a.1 < b.1)
}

/// Executable form of `addr_lt`.
pub fn addr_less(a: &NodeAddress, b: &NodeAddress) -> (r: bool)
    ensures
        r == addr_lt(*a, *b),
{
    a.0 < b.0 || (a.0 == b.0 && a.1 < b.1)
}

/// Equality of addresses, field by field.
pub fn addr_eq(a: &NodeAddress, b: &NodeAddress) -> (r: bool)
    ensures
        r == (*a == *b),
{
    a.0 == b.0 && a.1 == b.1
}

} // verus!
