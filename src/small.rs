//! Inline-first vectors of the `smallvec` crate, in which a node keeps its
//! singletons and its children. Each vector is held in a struct of this
//! module, for one element type, and its contents are named by a spec
//! function.
use vstd::prelude::*;
use smallvec::SmallVec;
use crate::address::{NodeAddress, PointIndex};

verus! {

/// The singletons of a node: up to twenty inline, more on the heap.
#[verifier::external_body]
#[derive(Debug)]
pub struct SmallSingles {
    items: SmallVec<[PointIndex; 20]>,
}

/// The children of a node: up to ten inline, more on the heap.
#[verifier::external_body]
#[derive(Debug)]
pub struct SmallChildren {
    items: SmallVec<[NodeAddress; 10]>,
}

/// The points held by a singleton list, in order.
pub uninterp spec fn singles_of(v: SmallSingles) -> Seq<PointIndex>;

/// The addresses held by a child list, in order.
pub uninterp spec fn children_of(v: SmallChildren) -> Seq<NodeAddress>;

/// Relies on `SmallVec::from_vec`: the vector's items, in order.
#[verifier::external_body]
pub(crate) fn singles_from_vec(v: Vec<PointIndex>) -> (r: SmallSingles)
    ensures
        singles_of(r) == v@,
{
    SmallSingles { items: SmallVec::from_vec(v) }
}

/// Relies on `Clone for SmallVec`: a copy built from the items' slice.
#[verifier::external_body]
pub(crate) fn singles_clone(v: &SmallSingles) -> (r: SmallSingles)
    ensures
        singles_of(r) == singles_of(*v),
{
    SmallSingles { items: v.items.clone() }
}

/// Relies on `SmallVec::push`: appends one item. It panics when the grown
/// capacity, the next power of two above the length, takes more than
/// `isize::MAX` bytes; an item takes at most 8 bytes and that power of two is
/// at most twice the new length.
#[verifier::external_body]
pub(crate) fn singles_push(v: &mut SmallSingles, x: PointIndex)
    requires
        (singles_of(*old(v)).len() + 1) * 16 <= isize::MAX,
    ensures
        singles_of(*final(v)) == singles_of(*old(v)).push(x),
{
    v.items.push(x)
}

/// Relies on `SmallVec::as_slice`: the items, in order.
#[verifier::external_body]
pub(crate) fn singles_slice(v: &SmallSingles) -> (r: &[PointIndex])
    ensures
        r@ == singles_of(*v),
{
    v.items.as_slice()
}

/// Relies on `SmallVec::from_vec`: the vector's items, in order.
#[verifier::external_body]
pub(crate) fn children_from_vec(v: Vec<NodeAddress>) -> (r: SmallChildren)
    ensures
        children_of(r) == v@,
{
    SmallChildren { items: SmallVec::from_vec(v) }
}

/// Relies on `Clone for SmallVec`: a copy built from the items' slice.
#[verifier::external_body]
pub(crate) fn children_clone(v: &SmallChildren) -> (r: SmallChildren)
    ensures
        children_of(r) == children_of(*v),
{
    SmallChildren { items: v.items.clone() }
}

/// Relies on `SmallVec::push`: appends one item. It panics when the grown
/// capacity, the next power of two above the length, takes more than
/// `isize::MAX` bytes; an item takes at most 16 bytes and that power of two
/// is at most twice the new length.
#[verifier::external_body]
pub(crate) fn children_push(v: &mut SmallChildren, x: NodeAddress)
    requires
        (children_of(*old(v)).len() + 1) * 32 <= isize::MAX,
    ensures
        children_of(*final(v)) == children_of(*old(v)).push(x),
{
    v.items.push(x)
}

/// Relies on `SmallVec::as_slice`: the items, in order.
#[verifier::external_body]
pub(crate) fn children_slice(v: &SmallChildren) -> (r: &[NodeAddress])
    ensures
        r@ == children_of(*v),
{
    v.items.as_slice()
}

} // verus!
