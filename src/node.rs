//! The cover node: its address, cached radius and cover count, its children
//! (a nested self-child and other child nodes), the singleton points it covers
//! directly, and its plugin state.
use vstd::prelude::*;
use crate::address::{Distance, NodeAddress, PointIndex};
use crate::categorical::Categorical;
use crate::errors::GokoError;
use crate::query::{bounded_insert, centers_of, frontier_entries, frontier_entry, offer_all, KnnQueryHeap, QueryAddress};
use crate::proto::NodeProto;
use crate::small::{
    children_clone, children_from_vec, children_of, children_push, children_slice, singles_clone,
    singles_from_vec, singles_of, singles_push, singles_slice, SmallChildren, SmallSingles,
};
use crate::scale::ScaleBase;

verus! {

/// Whether a node at `a` whose center is `d` away from the query covers it:
/// the query lies within the node's covering radius.
pub open spec fn covers(base: ScaleBase, a: NodeAddress, d: Distance) -> bool {
    d <= base.radius_spec(a.0)
}

/// Child `i` covers the query and no earlier child does.
pub open spec fn first_covering(base: ScaleBase, cs: Seq<NodeAddress>, cd: Seq<Distance>, i: int) -> bool {
    &&& 0 <= i < cs.len()
    &&& covers(base, cs[i], cd[i])
    &&& forall|j: int| 0 <= j < i ==> !covers(base, #[trigger] cs[j], cd[j])
}

/// The children of a routing node: the scale of its self-child (which shares
/// its center) and the addresses of the other children.
#[derive(Debug)]
pub struct NodeChildren {
    pub nested_scale: i32,
    pub addresses: SmallChildren,
}

/// A node of the cover tree.
#[derive(Debug)]
pub struct CoverNode {
    address: NodeAddress,
    radius: Distance,
    cover_count: usize,
    children: Option<NodeChildren>,
    singles_indexes: SmallSingles,
    plugins: Option<Categorical>,
}

impl CoverNode {
    /// The node's address: its scale and center.
    pub closed spec fn address_spec(&self) -> NodeAddress {
        self.address
    }

    /// The largest distance from the center to anything the node covers.
    pub closed spec fn radius_spec(&self) -> Distance {
        self.radius
    }

    /// The number of points the node covers.
    pub closed spec fn cover_count_spec(&self) -> nat {
        self.cover_count as nat
    }

    /// `None` for a leaf, else the self-child's scale and the other children.
    pub closed spec fn children_spec(&self) -> Option<(i32, Seq<NodeAddress>)> {
        match self.children {
            Some(c) => Some((c.nested_scale, children_of(c.addresses))),
            None => None,
        }
    }

    /// The points the node covers directly.
    pub closed spec fn singletons_spec(&self) -> Seq<PointIndex> {
        singles_of(self.singles_indexes)
    }

    /// The categorical plugin attached to the node, if any.
    pub closed spec fn plugin_spec(&self) -> Option<Categorical> {
        self.plugins
    }

    /// The addresses of the children other than the self-child.
    pub open spec fn child_addresses_spec(&self) -> Seq<NodeAddress> {
        match self.children_spec() {
            Some((_, cs)) => cs,
            None => Seq::empty(),
        }
    }

    /// Creates a blank leaf at `address`.
    pub fn new(address: NodeAddress) -> (r: CoverNode)
        ensures
            r.address_spec() == address,
            r.radius_spec() == 0,
            r.cover_count_spec() == 0,
            r.children_spec() is None,
            r.singletons_spec() == Seq::<PointIndex>::empty(),
            r.plugin_spec() is None,
    {
        CoverNode {
            address,
            radius: 0,
            cover_count: 0,
            children: None,
            singles_indexes: singles_from_vec(Vec::new()),
            plugins: None,
        }
    }

    /// Whether the node is a leaf, that is has no self-child.
    pub fn is_leaf(&self) -> (r: bool)
        ensures
            r == self.children_spec() is None,
    {
        self.children.is_none()
    }

    /// The cached radius.
    pub fn radius(&self) -> (r: Distance)
        ensures
            r == self.radius_spec(),
    {
        self.radius
    }

    /// The cached cover count.
    pub fn cover_count(&self) -> (r: usize)
        ensures
            r == self.cover_count_spec(),
    {
        self.cover_count
    }

    /// Adds a self-child at `scale_index`, turning the leaf into a routing
    /// node, and adds `coverage` to the cover count. Fails with `DoubleNest`,
    /// changing nothing else, when the node already has a self-child.
    pub fn insert_nested_child(&mut self, scale_index: i32, coverage: usize) -> (r: Result<(), GokoError>)
        requires
            old(self).cover_count_spec() + coverage <= usize::MAX,
        ensures
            final(self).cover_count_spec() == old(self).cover_count_spec() + coverage,
            old(self).children_spec() is Some ==> r == Err::<(), GokoError>(GokoError::DoubleNest)
                && final(self).children_spec() == old(self).children_spec(),
            old(self).children_spec() is None ==> r == Ok::<(), GokoError>(())
                && final(self).children_spec() == Some((scale_index, Seq::<NodeAddress>::empty())),
            final(self).address_spec() == old(self).address_spec(),
            final(self).radius_spec() == old(self).radius_spec(),
            final(self).singletons_spec() == old(self).singletons_spec(),
            final(self).plugin_spec() == old(self).plugin_spec(),
    {
        self.cover_count = self.cover_count + coverage;
        if self.children.is_some() {
            Err(GokoError::DoubleNest)
        } else {
            self.children = Some(NodeChildren { nested_scale: scale_index, addresses: children_from_vec(Vec::new()) });
            Ok(())
        }
    }

    /// Applies `transform_fn` to the node's categorical plugin, if one is attached.
    pub fn get_plugin_and<S, F: FnOnce(&Categorical) -> S>(&self, transform_fn: F) -> (r: Option<S>)
        requires
            self.plugin_spec() matches Some(p) ==> transform_fn.requires((&p,)),
        ensures
            self.plugin_spec() is None ==> r is None,
            self.plugin_spec() matches Some(p) ==> (r matches Some(s) && transform_fn.ensures(
                (&p,),
                s,
            )),
    {
        match &self.plugins {
            Some(p) => Some(transform_fn(p)),
            None => None,
        }
    }

    /// Takes the children away, leaving a leaf, and returns them.
    pub fn remove_children(&mut self) -> (r: Option<NodeChildren>)
        ensures
            match (r, old(self).children_spec()) {
                (Some(c), Some((ns, cs))) => c.nested_scale == ns && children_of(c.addresses) == cs,
                (None, None) => true,
                _ => false,
            },
            final(self).children_spec() is None,
            final(self).address_spec() == old(self).address_spec(),
            final(self).radius_spec() == old(self).radius_spec(),
            final(self).cover_count_spec() == old(self).cover_count_spec(),
            final(self).singletons_spec() == old(self).singletons_spec(),
            final(self).plugin_spec() == old(self).plugin_spec(),
    {
        self.children.take()
    }

    /// The number of singletons.
    pub fn singleton_len(&self) -> (r: usize)
        ensures
            r == self.singletons_spec().len(),
    {
        singles_slice(&self.singles_indexes).len()
    }

    /// The singletons.
    pub fn singletons(&self) -> (r: &[PointIndex])
        ensures
            r@ == self.singletons_spec(),
    {
        singles_slice(&self.singles_indexes)
    }

    /// The index of the center point.
    pub fn center_index(&self) -> (r: &PointIndex)
        ensures
            *r == self.address_spec().1,
    {
        &self.address.1
    }

    /// The scale index.
    pub fn scale_index(&self) -> (r: &i32)
        ensures
            *r == self.address_spec().0,
    {
        &self.address.0
    }

    /// The number of children, the self-child included.
    pub fn children_len(&self) -> (r: usize)
        requires
            self.child_addresses_spec().len() < usize::MAX,
        ensures
            r == match self.children_spec() {
                Some((_, cs)) => cs.len() + 1,
                None => 0,
            },
    {
        match &self.children {
            Some(children) => children_slice(&children.addresses).len() + 1,
            None => 0,
        }
    }

    /// The frontier entries that visiting this node adds: the self-child, at
    /// the center's distance, then the other children, each with this node as
    /// parent.
    pub open spec fn child_frontier(
        &self,
        base: ScaleBase,
        dist_to_center: Distance,
        child_dists: Seq<Distance>,
    ) -> Seq<QueryAddress> {
        match self.children_spec() {
            Some((ns, cs)) => seq![frontier_entry(base, (ns, self.address_spec().1), dist_to_center, Some(self.address_spec()))]
                + frontier_entries(base, cs, child_dists, Some(self.address_spec())),
            None => Seq::empty(),
        }
    }

    /// Offers every singleton to the heap, `dists[i]` being the distance from
    /// the query to singleton `i`.
    pub fn singleton_knn(&self, dists: &[Distance], query_heap: &mut KnnQueryHeap)
        requires
            old(query_heap).wf(),
            dists.len() == self.singletons_spec().len(),
        ensures
            final(query_heap).wf(),
            final(query_heap).known_spec() == offer_all(
                old(query_heap).known_spec(),
                self.singletons_spec(),
                dists@,
                old(query_heap).k_spec(),
                dists.len() as nat,
            ),
            final(query_heap).k_spec() == old(query_heap).k_spec(),
            final(query_heap).base_spec() == old(query_heap).base_spec(),
            final(query_heap).frontier_spec() == old(query_heap).frontier_spec(),
    {
        query_heap.push_outliers(singles_slice(&self.singles_indexes), dists);
    }

    /// The candidates after the children are pushed: the center, then the
    /// other children's centers, offered in order.
    pub open spec fn child_known(
        &self,
        known: Seq<(Distance, PointIndex)>,
        k: nat,
        dist_to_center: Distance,
        child_dists: Seq<Distance>,
    ) -> Seq<(Distance, PointIndex)> {
        match self.children_spec() {
            Some((ns, cs)) => offer_all(
                bounded_insert(known, (dist_to_center, self.address_spec().1), k),
                centers_of(cs),
                child_dists,
                k,
                cs.len(),
            ),
            None => known,
        }
    }

    /// Pushes the children onto the heap's frontier, offering their centers
    /// as candidates; does nothing for a leaf. `child_dists[i]` is the
    /// distance from the query to the center of the `i`-th child other than
    /// the self-child.
    pub fn child_knn(&self, dist_to_center: Distance, child_dists: &[Distance], query_heap: &mut KnnQueryHeap)
        requires
            old(query_heap).wf(),
            child_dists.len() == self.child_addresses_spec().len(),
        ensures
            final(query_heap).wf(),
            final(query_heap).known_spec() == self.child_known(
                old(query_heap).known_spec(),
                old(query_heap).k_spec(),
                dist_to_center,
                child_dists@,
            ),
            final(query_heap).frontier_spec() == old(query_heap).frontier_spec() + self.child_frontier(
                old(query_heap).base_spec(),
                dist_to_center,
                child_dists@,
            ),
            final(query_heap).k_spec() == old(query_heap).k_spec(),
            final(query_heap).base_spec() == old(query_heap).base_spec(),
    {
        if let Some(children) = &self.children {
            let addrs = children_slice(&children.addresses);
            let mut nested: Vec<NodeAddress> = Vec::new();
            nested.push((children.nested_scale, self.address.1));
            let mut nested_dist: Vec<Distance> = Vec::new();
            nested_dist.push(dist_to_center);
            let ghost f0 = query_heap.frontier_spec();
            let ghost k0 = query_heap.known_spec();
            query_heap.push_nodes(nested.as_slice(), nested_dist.as_slice(), Some(self.address));
            proof {
                let k = query_heap.k_spec();
                assert(centers_of(nested@)[0] == self.address.1);
                assert(offer_all(k0, centers_of(nested@), nested_dist@, k, 0) == k0);
                assert(query_heap.known_spec() == bounded_insert(k0, (dist_to_center, self.address.1), k));
            }
            let ghost f1 = query_heap.frontier_spec();
            query_heap.push_nodes(addrs, child_dists, Some(self.address));
            proof {
                let base = old(query_heap).base_spec();
                assert(frontier_entries(base, nested@, nested_dist@, Some(self.address)) =~= seq![
                    frontier_entry(base, (children.nested_scale, self.address.1), dist_to_center, Some(self.address)),
                ]);
                assert(query_heap.frontier_spec() =~= f0 + self.child_frontier(
                    base,
                    dist_to_center,
                    child_dists@,
                ));
            }
        }
    }

    /// The candidates after a visit: the singletons offered in order, then,
    /// for a leaf, its own center, and for a routing node the children's
    /// centers.
    pub open spec fn knn_known(
        &self,
        known: Seq<(Distance, PointIndex)>,
        k: nat,
        dist_to_center: Distance,
        singleton_dists: Seq<Distance>,
        child_dists: Seq<Distance>,
    ) -> Seq<(Distance, PointIndex)> {
        let after = offer_all(known, self.singletons_spec(), singleton_dists, k, singleton_dists.len());
        if self.children_spec() is None {
            bounded_insert(after, (dist_to_center, self.address_spec().1), k)
        } else {
            self.child_known(after, k, dist_to_center, child_dists)
        }
    }

    /// Visits the node in a k-nearest-neighbour search: offers its singletons
    /// as candidates, then its center if it is a leaf; a routing node instead
    /// pushes its children onto the frontier and offers their centers. `dist_to_center`, `singleton_dists` and
    /// `child_dists` are the distances from the query to the center, to each
    /// singleton and to each child's center.
    pub fn knn(
        &self,
        dist_to_center: Distance,
        singleton_dists: &[Distance],
        child_dists: &[Distance],
        query_heap: &mut KnnQueryHeap,
    )
        requires
            old(query_heap).wf(),
            singleton_dists.len() == self.singletons_spec().len(),
            child_dists.len() == self.child_addresses_spec().len(),
        ensures
            final(query_heap).wf(),
            final(query_heap).known_spec() == self.knn_known(
                old(query_heap).known_spec(),
                old(query_heap).k_spec(),
                dist_to_center,
                singleton_dists@,
                child_dists@,
            ),
            final(query_heap).frontier_spec() == old(query_heap).frontier_spec() + self.child_frontier(
                old(query_heap).base_spec(),
                dist_to_center,
                child_dists@,
            ),
            final(query_heap).k_spec() == old(query_heap).k_spec(),
            final(query_heap).base_spec() == old(query_heap).base_spec(),
    {
        self.singleton_knn(singleton_dists, query_heap);
        self.child_knn(dist_to_center, child_dists, query_heap);
        if self.children.is_none() {
            query_heap.push_outlier(self.address.1, dist_to_center);
        }
    }

    /// Among the children (self-child included) that cover the query, the
    /// closest one, with its distance; on a tie the earliest other child wins,
    /// and any other child wins over the self-child. `None` for a leaf and
    /// where no child covers the query.
    pub fn nearest_covering_child(
        &self,
        base: &ScaleBase,
        dist_to_center: Distance,
        child_dists: &[Distance],
    ) -> (r: Option<(Distance, NodeAddress)>)
        requires
            child_dists.len() == self.child_addresses_spec().len(),
        ensures
            match self.children_spec() {
                None => r is None,
                Some((ns, cs)) => {
                    let me = (ns, self.address_spec().1);
                    let cd = child_dists@;
                    &&& r is None <==> (!covers(*base, me, dist_to_center) && forall|i: int|
                        0 <= i < cs.len() ==> !covers(*base, #[trigger] cs[i], cd[i]))
                    &&& r matches Some((d, a)) ==> {
                        ||| (a == me && d == dist_to_center && covers(*base, me, dist_to_center)
                            && forall|i: int|
                            0 <= i < cs.len() && covers(*base, #[trigger] cs[i], cd[i])
                                ==> dist_to_center < cd[i])
                        ||| exists|i: int|
                            0 <= i < cs.len() && covers(*base, #[trigger] cs[i], cd[i]) && a == cs[i]
                                && d == cd[i] && (forall|j: int|
                                0 <= j < cs.len() && covers(*base, #[trigger] cs[j], cd[j]) ==> cd[i]
                                    <= cd[j]) && (forall|j: int|
                                0 <= j < i && covers(*base, #[trigger] cs[j], cd[j]) ==> cd[i]
                                    < cd[j]) && (covers(*base, me, dist_to_center) ==> cd[i]
                                <= dist_to_center)
                    }
                },
            },
    {
        match &self.children {
            None => None,
            Some(children) => {
                let addrs = children_slice(&children.addresses);
                let ghost cs = addrs@;
                let ghost cd = child_dists@;
                let mut best: Option<usize> = None;
                let mut i: usize = 0;
                while i < addrs.len()
                    invariant
                        cs == addrs@,
                        cd == child_dists@,
                        cs.len() == cd.len(),
                        0 <= i <= cs.len(),
                        best is None ==> forall|j: int| 0 <= j < i ==> !covers(*base, #[trigger] cs[j], cd[j]),
                        best matches Some(b) ==> {
                            &&& b < i
                            &&& covers(*base, cs[b as int], cd[b as int])
                            &&& forall|j: int| 0 <= j < i && covers(*base, #[trigger] cs[j], cd[j]) ==> cd[b as int] <= cd[j]
                            &&& forall|j: int| 0 <= j < b && covers(*base, #[trigger] cs[j], cd[j]) ==> cd[b as int] < cd[j]
                        },
                    decreases cs.len() - i,
                {
                    let a = addrs[i];
                    let d = child_dists[i];
                    if d <= base.radius(a.0) {
                        match best {
                            None => {
                                best = Some(i);
                            },
                            Some(b) => {
                                if d < child_dists[b] {
                                    best = Some(i);
                                }
                            },
                        }
                    }
                    i = i + 1;
                }
                let me: NodeAddress = (children.nested_scale, self.address.1);
                let self_covers = dist_to_center <= base.radius(children.nested_scale);
                match best {
                    None => {
                        if self_covers {
                            Some((dist_to_center, me))
                        } else {
                            None
                        }
                    },
                    Some(b) => {
                        if self_covers && dist_to_center < child_dists[b] {
                            Some((dist_to_center, me))
                        } else {
                            proof {
                                let bi = b as int;
                                assert(covers(*base, cs[bi], cd[bi]) && addrs@[bi] == cs[bi]);
                            }
                            Some((child_dists[b], addrs[b]))
                        }
                    },
                }
            },
        }
    }

    /// What `covering_child` returns: for a leaf nothing; else the self-child
    /// if it covers the query, else the first other child that does, with its
    /// distance; else nothing.
    pub open spec fn covering_child_result(
        &self,
        base: ScaleBase,
        dist_to_center: Distance,
        cd: Seq<Distance>,
        r: Option<(Distance, NodeAddress)>,
    ) -> bool {
        match self.children_spec() {
            None => r is None,
            Some((ns, cs)) => {
                let me = (ns, self.address_spec().1);
                &&& covers(base, me, dist_to_center) ==> r == Some((dist_to_center, me))
                &&& !covers(base, me, dist_to_center) ==> (r is None <==> (forall|i: int|
                    0 <= i < cs.len() ==> !covers(base, #[trigger] cs[i], cd[i])))
                &&& !covers(base, me, dist_to_center) ==> (r matches Some((d, a)) ==> (exists|i: int|
                    #[trigger] first_covering(base, cs, cd, i) && a == cs[i] && d == cd[i]))
            },
        }
    }

    /// The first child that covers the query: the self-child if it does,
    /// else the earliest other child that does; `None` for a leaf and where
    /// no child covers the query.
    pub fn covering_child(
        &self,
        base: &ScaleBase,
        dist_to_center: Distance,
        child_dists: &[Distance],
    ) -> (r: Option<(Distance, NodeAddress)>)
        requires
            child_dists.len() == self.child_addresses_spec().len(),
        ensures
            self.covering_child_result(*base, dist_to_center, child_dists@, r),
    {
        match &self.children {
            None => None,
            Some(children) => {
                let addrs = children_slice(&children.addresses);
                let me: NodeAddress = (children.nested_scale, self.address.1);
                if dist_to_center <= base.radius(children.nested_scale) {
                    return Some((dist_to_center, me));
                }
                let ghost cs = addrs@;
                let ghost cd = child_dists@;
                let mut i: usize = 0;
                while i < addrs.len()
                    invariant
                        cs == addrs@,
                        cd == child_dists@,
                        cs.len() == cd.len(),
                        0 <= i <= cs.len(),
                        forall|j: int| 0 <= j < i ==> !covers(*base, #[trigger] cs[j], cd[j]),
                    ensures
                        0 <= i <= cs.len(),
                        forall|j: int| 0 <= j < i ==> !covers(*base, #[trigger] cs[j], cd[j]),
                        i < cs.len() ==> covers(*base, cs[i as int], cd[i as int]),
                    decreases cs.len() - i,
                {
                    if child_dists[i] <= base.radius(addrs[i].0) {
                        break;
                    }
                    i = i + 1;
                }
                if i < addrs.len() {
                    proof {
                        assert(first_covering(*base, cs, cd, i as int));
                    }
                    Some((child_dists[i], addrs[i]))
                } else {
                    None
                }
            },
        }
    }

    /// Appends a child other than the self-child and adds `coverage` to the
    /// cover count. Fails with `InsertBeforeNest`, changing nothing else, when
    /// the node has no self-child yet.
    pub fn insert_child(&mut self, address: NodeAddress, coverage: usize) -> (r: Result<(), GokoError>)
        requires
            old(self).cover_count_spec() + coverage <= usize::MAX,
            (old(self).child_addresses_spec().len() + 1) * 32 <= isize::MAX,
        ensures
            final(self).cover_count_spec() == old(self).cover_count_spec() + coverage,
            old(self).children_spec() is None ==> r == Err::<(), GokoError>(GokoError::InsertBeforeNest)
                && final(self).children_spec() is None,
            old(self).children_spec() matches Some((ns, cs)) ==> r == Ok::<(), GokoError>(())
                && final(self).children_spec() == Some((ns, cs.push(address))),
            final(self).address_spec() == old(self).address_spec(),
            final(self).radius_spec() == old(self).radius_spec(),
            final(self).singletons_spec() == old(self).singletons_spec(),
            final(self).plugin_spec() == old(self).plugin_spec(),
    {
        self.cover_count = self.cover_count + coverage;
        match &mut self.children {
            Some(children) => {
                children_push(&mut children.addresses, address);
                Ok(())
            },
            None => Err(GokoError::InsertBeforeNest),
        }
    }

    /// Appends singletons, adding their number to the cover count.
    pub fn insert_singletons(&mut self, addresses: Vec<PointIndex>)
        requires
            old(self).cover_count_spec() + addresses.len() <= usize::MAX,
            (old(self).singletons_spec().len() + addresses.len()) * 16 <= isize::MAX,
        ensures
            final(self).cover_count_spec() == old(self).cover_count_spec() + addresses.len(),
            final(self).singletons_spec() == old(self).singletons_spec() + addresses@,
            final(self).address_spec() == old(self).address_spec(),
            final(self).radius_spec() == old(self).radius_spec(),
            final(self).children_spec() == old(self).children_spec(),
            final(self).plugin_spec() == old(self).plugin_spec(),
    {
        self.cover_count = self.cover_count + addresses.len();
        let ghost s0 = self.singletons_spec();
        let mut i: usize = 0;
        while i < addresses.len()
            invariant
                0 <= i <= addresses@.len(),
                (s0.len() + addresses@.len()) * 16 <= isize::MAX,
                singles_of(self.singles_indexes) == s0 + addresses@.take(i as int),
                s0 == old(self).singletons_spec(),
                self.cover_count == old(self).cover_count + addresses.len(),
                self.address == old(self).address,
                self.radius == old(self).radius,
                self.children == old(self).children,
                self.plugins == old(self).plugins,
            decreases addresses@.len() - i,
        {
            singles_push(&mut self.singles_indexes, addresses[i]);
            proof {
                assert(singles_of(self.singles_indexes) =~= s0 + addresses@.take(i as int + 1));
            }
            i = i + 1;
        }
        proof {
            assert(addresses@.take(i as int) =~= addresses@);
        }
    }

    /// Appends one singleton, adding one to the cover count.
    pub fn insert_singleton(&mut self, pi: PointIndex)
        requires
            old(self).cover_count_spec() + 1 <= usize::MAX,
            (old(self).singletons_spec().len() + 1) * 16 <= isize::MAX,
        ensures
            final(self).cover_count_spec() == old(self).cover_count_spec() + 1,
            final(self).singletons_spec() == old(self).singletons_spec().push(pi),
            final(self).address_spec() == old(self).address_spec(),
            final(self).radius_spec() == old(self).radius_spec(),
            final(self).children_spec() == old(self).children_spec(),
            final(self).plugin_spec() == old(self).plugin_spec(),
    {
        self.cover_count = self.cover_count + 1;
        singles_push(&mut self.singles_indexes, pi);
    }

    /// Attaches the categorical plugin, replacing any earlier one.
    pub fn insert_plugin(&mut self, plugin: Categorical)
        ensures
            final(self).plugin_spec() == Some(plugin),
            final(self).address_spec() == old(self).address_spec(),
            final(self).radius_spec() == old(self).radius_spec(),
            final(self).cover_count_spec() == old(self).cover_count_spec(),
            final(self).children_spec() == old(self).children_spec(),
            final(self).singletons_spec() == old(self).singletons_spec(),
    {
        self.plugins = Some(plugin);
    }

    /// Sets the cached radius.
    pub fn set_radius(&mut self, radius: Distance)
        ensures
            final(self).radius_spec() == radius,
            final(self).address_spec() == old(self).address_spec(),
            final(self).cover_count_spec() == old(self).cover_count_spec(),
            final(self).children_spec() == old(self).children_spec(),
            final(self).singletons_spec() == old(self).singletons_spec(),
            final(self).plugin_spec() == old(self).plugin_spec(),
    {
        self.radius = radius;
    }

    /// The points whose pairwise distances separation is checked on: the
    /// singletons, the center, then the centers of the other children.
    pub open spec fn separation_points_spec(&self) -> Seq<PointIndex> {
        self.singletons_spec().push(self.address_spec().1) + self.child_addresses_spec().map_values(
            |a: NodeAddress| a.1,
        )
    }

    /// The points whose pairwise distances `check_seperation` is given.
    pub fn separation_points(&self) -> (r: Vec<PointIndex>)
        ensures
            r@ == self.separation_points_spec(),
    {
        let singles = singles_slice(&self.singles_indexes);
        let mut nodes: Vec<PointIndex> = Vec::new();
        let mut i: usize = 0;
        while i < singles.len()
            invariant
                0 <= i <= singles@.len(),
                nodes@ == singles@.take(i as int),
            decreases singles@.len() - i,
        {
            nodes.push(singles[i]);
            proof {
                assert(nodes@ =~= singles@.take(i as int + 1));
            }
            i = i + 1;
        }
        proof {
            assert(singles@.take(i as int) =~= singles@);
        }
        nodes.push(self.address.1);
        let ghost head = nodes@;
        if let Some(children) = &self.children {
            let addrs = children_slice(&children.addresses);
            let mut j: usize = 0;
            while j < addrs.len()
                invariant
                    0 <= j <= addrs@.len(),
                    nodes@ == head + addrs@.take(j as int).map_values(|a: NodeAddress| a.1),
                decreases addrs@.len() - j,
            {
                nodes.push(addrs[j].1);
                proof {
                    assert(nodes@ =~= head + addrs@.take(j as int + 1).map_values(
                        |a: NodeAddress| a.1,
                    ));
                }
                j = j + 1;
            }
            proof {
                assert(addrs@.take(j as int) =~= addrs@);
            }
        }
        proof {
            assert(nodes@ =~= self.separation_points_spec());
        }
        nodes
    }

    /// Whether the points of `separation_points` are at least `scale` apart:
    /// `pairwise` holds the distance between each two of them, and the answer
    /// is whether none is below `scale`.
    pub fn check_seperation(&self, scale: Distance, pairwise: &[Distance]) -> (r: bool)
        ensures
            r == forall|i: int| 0 <= i < pairwise@.len() ==> #[trigger] pairwise@[i] >= scale,
    {
        let mut i: usize = 0;
        while i < pairwise.len()
            invariant
                0 <= i <= pairwise@.len(),
                forall|j: int| 0 <= j < i ==> #[trigger] pairwise@[j] >= scale,
            decreases pairwise@.len() - i,
        {
            if pairwise[i] < scale {
                return false;
            }
            i = i + 1;
        }
        true
    }

    /// What `save` writes for this node.
    pub open spec fn saved_as(&self, p: NodeProto) -> bool {
        &&& p.center_index == self.address_spec().1 as u64
        &&& p.radius == self.radius_spec()
        &&& p.cover_count == self.cover_count_spec() as u64
        &&& p.outlier_point_indexes@ == self.singletons_spec().map_values(|i: PointIndex| i as u64)
        &&& match self.children_spec() {
            Some((ns, cs)) => {
                &&& !p.is_leaf
                &&& p.nested_scale_index == ns
                &&& p.children_scale_indexes@ == cs.map_values(|a: NodeAddress| a.0)
                &&& p.children_point_indexes@ == cs.map_values(|a: NodeAddress| a.1 as u64)
            },
            None => {
                &&& p.is_leaf
                &&& p.nested_scale_index == 0
                &&& p.children_scale_indexes@.len() == 0
                &&& p.children_point_indexes@.len() == 0
            },
        }
    }

    /// What `load` builds from the record `p` of a node at `scale_index`:
    /// the child lists are paired up to the shorter one's length, and no
    /// plugin is attached.
    pub open spec fn loaded_from(&self, scale_index: i32, p: NodeProto) -> bool {
        &&& self.address_spec() == (scale_index, p.center_index as usize)
        &&& self.radius_spec() == p.radius
        &&& self.cover_count_spec() == p.cover_count as usize
        &&& self.singletons_spec() == p.outlier_point_indexes@.map_values(|i: u64| i as usize)
        &&& self.plugin_spec() is None
        &&& if p.is_leaf {
            self.children_spec() is None
        } else {
            let si = p.children_scale_indexes@;
            let pi = p.children_point_indexes@;
            let n = if si.len() < pi.len() {
                si.len()
            } else {
                pi.len()
            };
            self.children_spec() == Some(
                (p.nested_scale_index, Seq::new(n, |i: int| (si[i], pi[i] as usize))),
            )
        }
    }

    /// Rebuilds a node of the layer at `scale_index` from its record.
    pub fn load(scale_index: i32, node_proto: &NodeProto) -> (r: CoverNode)
        ensures
            r.loaded_from(scale_index, *node_proto),
    {
        let mut singles_indexes: Vec<PointIndex> = Vec::new();
        let ghost op = node_proto.outlier_point_indexes@;
        let mut i: usize = 0;
        while i < node_proto.outlier_point_indexes.len()
            invariant
                op == node_proto.outlier_point_indexes@,
                0 <= i <= op.len(),
                singles_indexes@ == op.take(i as int).map_values(|x: u64| x as usize),
            decreases op.len() - i,
        {
            singles_indexes.push(node_proto.outlier_point_indexes[i] as PointIndex);
            proof {
                assert(singles_indexes@ =~= op.take(i as int + 1).map_values(|x: u64| x as usize));
            }
            i = i + 1;
        }
        proof {
            assert(op.take(i as int) =~= op);
        }
        let children = if node_proto.is_leaf {
            None
        } else {
            let si = &node_proto.children_scale_indexes;
            let pi = &node_proto.children_point_indexes;
            let n = if si.len() < pi.len() {
                si.len()
            } else {
                pi.len()
            };
            let mut addresses: Vec<NodeAddress> = Vec::new();
            let mut j: usize = 0;
            while j < n
                invariant
                    n <= si@.len(),
                    n <= pi@.len(),
                    0 <= j <= n,
                    addresses@ == Seq::new(j as nat, |k: int| (si@[k], pi@[k] as usize)),
                decreases n - j,
            {
                addresses.push((si[j], pi[j] as PointIndex));
                proof {
                    assert(addresses@ =~= Seq::new((j + 1) as nat, |k: int| (si@[k], pi@[k] as usize)));
                }
                j = j + 1;
            }
            Some(NodeChildren { nested_scale: node_proto.nested_scale_index, addresses: children_from_vec(addresses) })
        };
        CoverNode {
            address: (scale_index, node_proto.center_index as PointIndex),
            radius: node_proto.radius,
            cover_count: node_proto.cover_count as usize,
            children,
            singles_indexes: singles_from_vec(singles_indexes),
            plugins: None,
        }
    }

    /// The record of this node.
    pub fn save(&self) -> (r: NodeProto)
        ensures
            self.saved_as(r),
    {
        let singles = singles_slice(&self.singles_indexes);
        let mut outliers: Vec<u64> = Vec::new();
        let mut i: usize = 0;
        while i < singles.len()
            invariant
                0 <= i <= singles@.len(),
                outliers@ == singles@.take(i as int).map_values(|x: PointIndex| x as u64),
            decreases singles@.len() - i,
        {
            outliers.push(singles[i] as u64);
            proof {
                assert(outliers@ =~= singles@.take(i as int + 1).map_values(
                    |x: PointIndex| x as u64,
                ));
            }
            i = i + 1;
        }
        proof {
            assert(singles@.take(i as int) =~= singles@);
        }
        let mut scales: Vec<i32> = Vec::new();
        let mut points: Vec<u64> = Vec::new();
        let mut is_leaf = true;
        let mut nested: i32 = 0;
        if let Some(children) = &self.children {
            let addrs = children_slice(&children.addresses);
            is_leaf = false;
            nested = children.nested_scale;
            let ghost cs = addrs@;
            let mut j: usize = 0;
            while j < addrs.len()
                invariant
                    cs == addrs@,
                    0 <= j <= cs.len(),
                    scales@ == cs.take(j as int).map_values(|a: NodeAddress| a.0),
                    points@ == cs.take(j as int).map_values(|a: NodeAddress| a.1 as u64),
                decreases cs.len() - j,
            {
                let a = addrs[j];
                scales.push(a.0);
                points.push(a.1 as u64);
                proof {
                    assert(scales@ =~= cs.take(j as int + 1).map_values(|a: NodeAddress| a.0));
                    assert(points@ =~= cs.take(j as int + 1).map_values(|a: NodeAddress| a.1 as u64));
                }
                j = j + 1;
            }
            proof {
                assert(cs.take(j as int) =~= cs);
            }
        }
        NodeProto {
            center_index: self.address.1 as u64,
            radius: self.radius,
            cover_count: self.cover_count as u64,
            is_leaf,
            nested_scale_index: nested,
            children_scale_indexes: scales,
            children_point_indexes: points,
            outlier_point_indexes: outliers,
        }
    }

    /// Every child: the self-child first, then the others in order; empty
    /// for a leaf.
    pub open spec fn child_list_spec(&self) -> Seq<NodeAddress> {
        match self.children_spec() {
            Some((ns, cs)) => seq![(ns, self.address_spec().1)] + cs,
            None => Seq::empty(),
        }
    }

    /// Every child: the self-child first, then the others in order.
    pub fn child_list(&self) -> (r: Vec<NodeAddress>)
        ensures
            r@ == self.child_list_spec(),
    {
        let mut v: Vec<NodeAddress> = Vec::new();
        if let Some(children) = &self.children {
            let addrs = children_slice(&children.addresses);
            v.push((children.nested_scale, self.address.1));
            let mut i: usize = 0;
            while i < addrs.len()
                invariant
                    0 <= i <= addrs@.len(),
                    v@ == seq![(children.nested_scale, self.address.1)] + addrs@.take(i as int),
                decreases addrs@.len() - i,
            {
                v.push(addrs[i]);
                proof {
                    assert(v@ =~= seq![(children.nested_scale, self.address.1)] + addrs@.take(
                        i as int + 1,
                    ));
                }
                i = i + 1;
            }
            proof {
                assert(addrs@.take(i as int) =~= addrs@);
            }
        }
        proof {
            assert(v@ =~= self.child_list_spec());
        }
        v
    }

    /// The self-child's scale and the other children, unless this is a leaf.
    pub fn children(&self) -> (r: Option<(i32, &[NodeAddress])>)
        ensures
            match (r, self.children_spec()) {
                (Some((s, v)), Some((cs, cv))) => s == cs && v@ == cv,
                (None, None) => true,
                _ => false,
            },
    {
        match &self.children {
            Some(c) => Some((c.nested_scale, children_slice(&c.addresses))),
            None => None,
        }
    }
}

impl Clone for CoverNode {
    /// A copy of the node without its plugin, which is derived state.
    fn clone(&self) -> (r: Self)
        ensures
            r.address_spec() == self.address_spec(),
            r.radius_spec() == self.radius_spec(),
            r.cover_count_spec() == self.cover_count_spec(),
            r.children_spec() == self.children_spec(),
            r.singletons_spec() == self.singletons_spec(),
            r.plugin_spec() is None,
    {
        let children = match &self.children {
            Some(c) => Some(NodeChildren { nested_scale: c.nested_scale, addresses: children_clone(&c.addresses) }),
            None => None,
        };
        CoverNode {
            address: self.address,
            radius: self.radius,
            cover_count: self.cover_count,
            children,
            singles_indexes: singles_clone(&self.singles_indexes),
            plugins: None,
        }
    }
}

/// Each step of a covering path goes from a node to one of its children, and
/// that child covers the query: its center is within its covering radius.
pub proof fn lemma_path_step(
    n: &CoverNode,
    base: ScaleBase,
    dist_to_center: Distance,
    child_dists: Seq<Distance>,
    d: Distance,
    a: NodeAddress,
)
    requires
        child_dists.len() == n.child_addresses_spec().len(),
        n.covering_child_result(base, dist_to_center, child_dists, Some((d, a))),
    ensures
        n.child_list_spec().contains(a),
        covers(base, a, d),
{
    let (ns, cs) = n.children_spec().unwrap();
    let me = (ns, n.address_spec().1);
    let list = n.child_list_spec();
    if covers(base, me, dist_to_center) {
        assert(list[0] == me);
    } else {
        let i = choose|i: int| #[trigger] first_covering(base, cs, child_dists, i) && a == cs[i] && d == child_dists[i];
        assert(list[i + 1] == a);
    }
}

/// Saving a node and loading the record at the node's scale gives back the
/// node: the same address, radius, cover count, children and singletons
/// (plugins are not saved).
pub proof fn lemma_node_save_load(n: CoverNode, p: NodeProto, m: CoverNode)
    requires
        n.saved_as(p),
        m.loaded_from(n.address_spec().0, p),
    ensures
        m.address_spec() == n.address_spec(),
        m.radius_spec() == n.radius_spec(),
        m.cover_count_spec() == n.cover_count_spec(),
        m.children_spec() == n.children_spec(),
        m.singletons_spec() == n.singletons_spec(),
{
    assert(m.singletons_spec() =~= n.singletons_spec());
    if let Some((ns, cs)) = n.children_spec() {
        let (ms, mcs) = m.children_spec().unwrap();
        assert(mcs =~= cs);
    }
}

} // verus!

verus! {

/// `covering_child` has one answer for given distances.
pub proof fn lemma_covering_child_unique(
    n: CoverNode,
    base: ScaleBase,
    dist_to_center: Distance,
    cd: Seq<Distance>,
    r1: Option<(Distance, NodeAddress)>,
    r2: Option<(Distance, NodeAddress)>,
)
    requires
        n.covering_child_result(base, dist_to_center, cd, r1),
        n.covering_child_result(base, dist_to_center, cd, r2),
    ensures
        r1 == r2,
{
    if let Some((ns, cs)) = n.children_spec() {
        let me = (ns, n.address_spec().1);
        if !covers(base, me, dist_to_center) {
            if r1 is Some && r2 is Some {
                let (d1, a1) = r1.unwrap();
                let (d2, a2) = r2.unwrap();
                let i1 = choose|i: int| #[trigger] first_covering(base, cs, cd, i) && a1 == cs[i] && d1 == cd[i];
                let i2 = choose|i: int| #[trigger] first_covering(base, cs, cd, i) && a2 == cs[i] && d2 == cd[i];
                if i1 < i2 {
                    assert(!covers(base, cs[i1], cd[i1]));
                } else if i2 < i1 {
                    assert(!covers(base, cs[i2], cd[i2]));
                }
            } else if r1 is Some {
                let (d1, a1) = r1.unwrap();
                let i1 = choose|i: int| #[trigger] first_covering(base, cs, cd, i) && a1 == cs[i] && d1 == cd[i];
                assert(covers(base, cs[i1], cd[i1]));
            } else if r2 is Some {
                let (d2, a2) = r2.unwrap();
                let i2 = choose|i: int| #[trigger] first_covering(base, cs, cd, i) && a2 == cs[i] && d2 == cd[i];
                assert(covers(base, cs[i2], cd[i2]));
            }
        }
    }
}

} // verus!

verus! {

proof fn lemma_least_covering(base: ScaleBase, cs: Seq<NodeAddress>, cd: Seq<Distance>, i: int)
    requires
        0 <= i < cs.len(),
        covers(base, cs[i], cd[i]),
    ensures
        exists|m: int| #[trigger] first_covering(base, cs, cd, m),
    decreases i,
{
    if exists|j: int| 0 <= j < i && covers(base, #[trigger] cs[j], cd[j]) {
        let j = choose|j: int| 0 <= j < i && covers(base, #[trigger] cs[j], cd[j]);
        lemma_least_covering(base, cs, cd, j);
    } else {
        assert(first_covering(base, cs, cd, i));
    }
}

/// `covering_child` has an answer for any distances of the right length.
pub proof fn lemma_covering_child_exists(n: CoverNode, base: ScaleBase, dist_to_center: Distance, cd: Seq<Distance>)
    requires
        cd.len() == n.child_addresses_spec().len(),
    ensures
        exists|r: Option<(Distance, NodeAddress)>| n.covering_child_result(base, dist_to_center, cd, r),
{
    match n.children_spec() {
        None => {
            assert(n.covering_child_result(base, dist_to_center, cd, None));
        },
        Some((ns, cs)) => {
            let me = (ns, n.address_spec().1);
            if covers(base, me, dist_to_center) {
                assert(n.covering_child_result(base, dist_to_center, cd, Some((dist_to_center, me))));
            } else if forall|i: int| 0 <= i < cs.len() ==> !covers(base, #[trigger] cs[i], cd[i]) {
                assert(n.covering_child_result(base, dist_to_center, cd, None));
            } else {
                let i = choose|i: int| 0 <= i < cs.len() && covers(base, #[trigger] cs[i], cd[i]);
                lemma_least_covering(base, cs, cd, i);
                let m = choose|m: int| #[trigger] first_covering(base, cs, cd, m);
                assert(forall|j: int| #[trigger] first_covering(base, cs, cd, j) ==> j == m) by {
                    assert forall|j: int| #[trigger] first_covering(base, cs, cd, j) implies j == m by {
                        if j < m {
                            assert(!covers(base, cs[j], cd[j]));
                        } else if m < j {
                            assert(!covers(base, cs[m], cd[m]));
                        }
                    }
                }
                assert(n.covering_child_result(base, dist_to_center, cd, Some((cd[m], cs[m]))));
            }
        },
    }
}

} // verus!
