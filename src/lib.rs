//! A cover-tree index over a metric point cloud: nodes, layers published by
//! one writer to many readers, the tree with its k-nearest-neighbour and
//! covering-path queries over a bounded query heap, the persisted form of all
//! of it, and the categorical plugin that summarises each node's children.
use vstd::prelude::*;

pub mod address;
pub mod api;
pub mod categorical;
pub mod errors;
pub mod layer;
pub mod node;
pub mod proto;
pub mod query;
pub mod scale;
pub mod small;
pub mod tree;

verus! {

/// A copy of a vector of plain values.
pub fn copy_vec<T: Copy>(v: &Vec<T>) -> (r: Vec<T>)
    ensures
        r@ == v@,
{
    let mut out: Vec<T> = Vec::new();
    let mut i: usize = 0;
    while i < v.len()
        invariant
            0 <= i <= v@.len(),
            out@ == v@.take(i as int),
        decreases v@.len() - i,
    {
        out.push(v[i]);
        proof {
            assert(out@ =~= v@.take(i as int + 1));
        }
        i = i + 1;
    }
    proof {
        assert(out@ =~= v@);
    }
    out
}

} // verus!
