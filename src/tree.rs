//! A read handle on a whole tree: its layers, by scale, and its root; and the
//! covering path of a query.
use vstd::prelude::*;
use std::sync::Arc;
use crate::address::{Distance, NodeAddress, PointIndex};
use crate::errors::GokoError;
use crate::api::ParametersResponse;
use crate::layer::{lemma_layer_save_load, same_structure, LayerNodes, CoverLayerReader, CoverLayerWriter};
use crate::proto::{CoverTreeProto, LayerProto};
use crate::node::{covers, first_covering, CoverNode};
use crate::query::{
    bounded_insert, centers_of, frontier_entries, holds_best, lemma_bounded_insert_best, lemma_offer_all_best,
    lemma_offer_all_from, lemma_offered_set_members, offer_all, offered_set, qa_lt, frontier_entry, KnnQueryHeap, QueryAddress,
};
use crate::scale::ScaleBase;
use crate::categorical::{has_entry, sum_present, weight_from, Categorical, GokoCategorical};
use std::collections::HashMap;

verus! {

/// One step of a covering path: from a node at `from` to the child that its
/// `covering_child` gives, with the distances that `dist` gives for the
/// children's centers; that child is at a lower scale and its covering radius
/// holds the query.
pub open spec fn covering_step<D: Fn(PointIndex) -> Distance>(
    base: ScaleBase,
    dist: D,
    from: (Distance, NodeAddress),
    to: (Distance, NodeAddress),
) -> bool {
    &&& to.1.0 < from.1.0
    &&& covers(base, to.1, to.0)
    &&& exists|n: CoverNode, cd: Seq<Distance>|
        {
            &&& n.address_spec() == from.1
            &&& measured_children(n, dist, cd)
            &&& #[trigger] n.covering_child_result(base, from.0, cd, Some(to))
            &&& n.child_list_spec().contains(to.1)
        }
}

/// `cd` holds the distances that `dist` gives for the centers of `n`'s
/// children other than the self-child.
pub open spec fn measured_children<D: Fn(PointIndex) -> Distance>(n: CoverNode, dist: D, cd: Seq<Distance>) -> bool {
    &&& cd.len() == n.child_addresses_spec().len()
    &&& forall|m: int| 0 <= m < cd.len() ==> dist.ensures((n.child_addresses_spec()[m].1,), #[trigger] cd[m])
}

/// Where a covering path ends: at the node at `last`, `covering_child` gives
/// nothing (as for a leaf) or a child whose scale is not lower.
pub open spec fn path_ends<D: Fn(PointIndex) -> Distance>(base: ScaleBase, dist: D, last: (Distance, NodeAddress)) -> bool {
    exists|n: CoverNode, cd: Seq<Distance>, r: Option<(Distance, NodeAddress)>|
        {
            &&& n.address_spec() == last.1
            &&& measured_children(n, dist, cd)
            &&& #[trigger] n.covering_child_result(base, last.0, cd, r)
            &&& (r matches Some(to) ==> to.1.0 >= last.1.0)
        }
}

/// The next step of a covering path that has reached the node `nd` at
/// `cur`: what `nd.covering_child` gives with the distances that `dist` gives
/// for the centers of `nd`'s children, unless that child's scale is not lower
/// than `nd`'s, where the path ends.
pub fn path_step<D: Fn(PointIndex) -> Distance>(
    base: &ScaleBase,
    nd: &CoverNode,
    cur: (Distance, NodeAddress),
    dist: &D,
) -> (r: Option<(Distance, NodeAddress)>)
    requires
        nd.address_spec() == cur.1,
        forall|p: PointIndex| dist.requires((p,)),
    ensures
        exists|cd: Seq<Distance>|
            measured_children(*nd, *dist, cd) && exists|c: Option<(Distance, NodeAddress)>|
                #[trigger] nd.covering_child_result(*base, cur.0, cd, c) && r == match c {
                    Some(to) => if to.1.0 < cur.1.0 {
                        Some(to)
                    } else {
                        None
                    },
                    None => None,
                },
{
    let children: &[NodeAddress] = match nd.children() {
        Some((_, c)) => c,
        None => &[],
    };
    let mut child_dists: Vec<Distance> = Vec::new();
    let mut j: usize = 0;
    while j < children.len()
        invariant
            0 <= j <= children@.len(),
            children@ == nd.child_addresses_spec(),
            child_dists@.len() == j,
            forall|p: PointIndex| dist.requires((p,)),
            forall|m: int| 0 <= m < j ==> dist.ensures((children@[m].1,), #[trigger] child_dists@[m]),
        decreases children@.len() - j,
    {
        child_dists.push(dist(children[j].1));
        j = j + 1;
    }
    let next = nd.covering_child(base, cur.0, &child_dists);
    proof {
        assert(measured_children(*nd, *dist, child_dists@));
        assert(nd.covering_child_result(*base, cur.0, child_dists@, next));
    }
    match next {
        Some((d, a)) => if a.0 < cur.1.0 {
            Some((d, a))
        } else {
            None
        },
        None => None,
    }
}

/// The total recorded for the child at `a`, if its layer has one.
fn child_total(totals: &Vec<HashMap<PointIndex, u64>>, min_scale: i32, a: NodeAddress) -> (r: Option<u64>)
    ensures
        r == if min_scale <= a.0 && a.0 - min_scale < totals@.len() && totals@[a.0 - min_scale]@.contains_key(a.1) {
            Some(totals@[a.0 - min_scale]@[a.1])
        } else {
            None::<u64>
        },
{
    broadcast use vstd::std_specs::hash::group_hash_axioms;
    if a.0 < min_scale {
        return None;
    }
    let off = (a.0 as i64 - min_scale as i64) as usize;
    if off >= totals.len() {
        return None;
    }
    match totals[off].get(&a.1) {
        Some(t) => Some(*t),
        None => None,
    }
}

/// What a search for `k` candidates returns: `MalformedQuery` exactly
/// when `k` is zero, else `IndexNotInTree` when a node is missing, or a
/// list that holds the `k` best (closest first, ties by point index) of
/// a set of candidates, each at the distance `dist` gives for its point,
/// among them the root's center; so the list is never empty.
pub open spec fn search_result<D: Fn(PointIndex) -> Distance>(
    root: NodeAddress,
    k: usize,
    dist: D,
    r: Result<Vec<(Distance, PointIndex)>, GokoError>,
) -> bool {
    &&& (r == Err::<Vec<(Distance, PointIndex)>, GokoError>(GokoError::MalformedQuery)) <==> k == 0
    &&& r matches Err(e) ==> e == GokoError::MalformedQuery || e == GokoError::IndexNotInTree
    &&& r matches Ok(v) ==> {
        &&& 1 <= v@.len() <= k
        &&& forall|i: int| 0 <= i < v@.len() ==> dist.ensures(((#[trigger] v@[i]).1,), v@[i].0)
        &&& exists|big: Set<(Distance, PointIndex)>|
            {
                &&& big.finite()
                &&& holds_best(v@, big, k as nat)
                &&& forall|x: (Distance, PointIndex)| #[trigger] big.contains(x) ==> dist.ensures((x.1,), x.0)
                &&& exists|d0: Distance| #[trigger] big.contains((d0, root.1))
            }
    }
}

/// The query distances are a function of the point: `dist` gives one
/// distance for each point.
pub open spec fn functional<D: Fn(PointIndex) -> Distance>(dist: D) -> bool {
    forall|p: PointIndex, d1: Distance, d2: Distance|
        dist.ensures((p,), d1) && dist.ensures((p,), d2) ==> d1 == d2
}

/// The distance that `dist` gives for each point.
pub open spec fn oracle<D: Fn(PointIndex) -> Distance>(dist: D) -> spec_fn(PointIndex) -> Distance {
    |p: PointIndex| choose|d: Distance| dist.ensures((p,), d)
}

/// What `covering_child` gives on `n` for the given distances.
pub open spec fn covering_choice(n: CoverNode, base: ScaleBase, dist_to_center: Distance, cd: Seq<Distance>) -> Option<
    (Distance, NodeAddress),
> {
    choose|r: Option<(Distance, NodeAddress)>| n.covering_child_result(base, dist_to_center, cd, r)
}

/// The distances that `f` gives for the centers of `n`'s children other
/// than the self-child.
pub open spec fn child_dists_of(n: CoverNode, f: spec_fn(PointIndex) -> Distance) -> Seq<Distance> {
    n.child_addresses_spec().map_values(|a: NodeAddress| f(a.1))
}

/// `p` followed by the sequence in `o`, if there is one.
pub open spec fn prepend<T>(p: Seq<T>, o: Option<Seq<T>>) -> Option<Seq<T>> {
    match o {
        Some(t) => Some(p + t),
        None => None,
    }
}


/// Whether a search for `k` candidates stops with `known` and `frontier`
/// (as `KnnQueryHeap::should_stop_spec`).
pub open spec fn stops(known: Seq<(Distance, PointIndex)>, frontier: Seq<QueryAddress>, k: nat) -> bool {
    &&& known.len() == k
    &&& frontier.len() > 0
    &&& forall|j: int| 0 <= j < frontier.len() ==> (#[trigger] frontier[j]).lower_bound >= known.last().0
}

/// The frontier entry that comes first in the frontier order, the earliest
/// among equals (as `KnnQueryHeap::pop_closest_unvisited`).
pub open spec fn first_min(frontier: Seq<QueryAddress>) -> int {
    choose|i: int| #[trigger] is_first_min(frontier, i)
}

/// Entry `i` comes first in the frontier order, and no earlier entry ties it.
pub open spec fn is_first_min(frontier: Seq<QueryAddress>, i: int) -> bool {
    &&& 0 <= i < frontier.len()
    &&& forall|j: int| 0 <= j < frontier.len() ==> !qa_lt(#[trigger] frontier[j], frontier[i])
    &&& forall|j: int| 0 <= j < i ==> qa_lt(frontier[i], #[trigger] frontier[j])
}

/// The candidates after visiting `n`, popped as `e`, with query distances
/// `f`: for a k-nearest-neighbour search its singletons, then its center (a
/// leaf) or its children's centers; for a search over centers, its center
/// and its children's centers.
pub open spec fn visit_known(
    n: CoverNode,
    e: QueryAddress,
    f: spec_fn(PointIndex) -> Distance,
    known: Seq<(Distance, PointIndex)>,
    k: nat,
    singletons: bool,
) -> Seq<(Distance, PointIndex)> {
    let cd = child_dists_of(n, f);
    if singletons {
        n.knn_known(known, k, e.dist_to_center, n.singletons_spec().map_values(|p: PointIndex| f(p)), cd)
    } else {
        let c = n.child_known(known, k, e.dist_to_center, cd);
        if n.children_spec() is None {
            bounded_insert(c, (e.dist_to_center, n.address_spec().1), k)
        } else {
            c
        }
    }
}

/// The number of node visits a search allows over layers `ls`: one more than
/// they hold nodes, or the largest `usize`.
pub open spec fn visit_budget(ls: Seq<Arc<LayerNodes>>) -> nat
    decreases ls.len(),
{
    if ls.len() == 0 {
        1
    } else {
        let b = visit_budget(ls.drop_last());
        let c = ls.last().centers_spec().len();
        if c > usize::MAX - b {
            usize::MAX as nat
        } else {
            b + c
        }
    }
}

/// The total that the child at `a` gives a node of layer `i` when the tree's
/// categoricals are built: that of the categorical attached to the child, if
/// the child lies in a lower layer and has one.
pub open spec fn child_total_spec(w: CoverTreeWriter, i: int, a: NodeAddress) -> Option<u64> {
    let j = a.0 - w.min_scale_spec();
    if 0 <= j < i && j < w.layers_spec().len() && w.layers_spec()[j].nodes_spec().contains_key(a.1) {
        match w.layers_spec()[j].nodes_spec()[a.1].plugin_spec() {
            Some(c) => Some(c.total_spec() as u64),
            None => None,
        }
    } else {
        None
    }
}

/// The child totals of `n`, a node of layer `i`, one per child (the
/// self-child first).
pub open spec fn child_totals_spec(w: CoverTreeWriter, i: int, n: CoverNode) -> Seq<Option<u64>> {
    n.child_list_spec().map_values(|a: NodeAddress| child_total_spec(w, i, a))
}

/// `c` is the categorical of `n` for the child totals `t`, as
/// `GokoCategorical::node_component` builds it.
pub open spec fn is_component(c: Categorical, n: CoverNode, t: Seq<Option<u64>>) -> bool {
    &&& c.wf()
    &&& c.weight_of(None) == n.singletons_spec().len() + if n.children_spec() is None {
        1nat
    } else {
        0nat
    }
    &&& forall|a: NodeAddress| #[trigger] c.weight_of(Some(a)) == weight_from(n.child_list_spec(), t, a)
    &&& forall|a: NodeAddress|
        #[trigger] has_entry(c.entries(), a) <==> exists|i: int|
            0 <= i < t.len() && #[trigger] n.child_list_spec()[i] == a && t[i] is Some
}

/// The node `n` of layer `i` carries what the categorical pass gives it: its
/// categorical when its counts fit in a `u64`, else none.
pub open spec fn built(w: CoverTreeWriter, i: int, n: CoverNode) -> bool {
    let t = child_totals_spec(w, i, n);
    if sum_present(t) + n.singletons_spec().len() + 1 <= u64::MAX {
        n.plugin_spec() matches Some(c) && is_component(c, n, t)
    } else {
        n.plugin_spec() is None
    }
}

/// The node under `k` in the writer's copy of layer `l`.
pub open spec fn node_of(l: CoverLayerWriter, k: PointIndex) -> CoverNode {
    *l.nodes_spec()[k]
}

/// `count` is the number of nodes of a well-formed copy of a layer at `scale`.
pub open spec fn counted_in_copy(count: usize, scale: i32) -> bool {
    exists|snap: LayerNodes| #[trigger] snap.wf(scale) && count == snap.centers_spec().len()
}

proof fn lemma_visit_budget_sizes(a: Seq<Arc<LayerNodes>>, b: Seq<Arc<LayerNodes>>)
    requires
        a.map_values(|l: Arc<LayerNodes>| l.centers_spec().len()) == b.map_values(|l: Arc<LayerNodes>| l.centers_spec().len()),
    ensures
        visit_budget(a) == visit_budget(b),
    decreases a.len(),
{
    let sa = a.map_values(|l: Arc<LayerNodes>| l.centers_spec().len());
    let sb = b.map_values(|l: Arc<LayerNodes>| l.centers_spec().len());
    assert(sa.len() == a.len() && sb.len() == b.len());
    assert(sa.len() == sb.len());
    if a.len() > 0 {
        assert(a.drop_last().map_values(|l: Arc<LayerNodes>| l.centers_spec().len()) =~= sa.drop_last());
        assert(b.drop_last().map_values(|l: Arc<LayerNodes>| l.centers_spec().len()) =~= sb.drop_last());
        assert(sa[a.len() - 1] == sb[a.len() - 1]);
        assert(a.last().centers_spec().len() == sa[a.len() - 1]);
        assert(b.last().centers_spec().len() == sb[a.len() - 1]);
        lemma_visit_budget_sizes(a.drop_last(), b.drop_last());
        assert(b.len() == a.len());
        assert(visit_budget(a.drop_last()) == visit_budget(b.drop_last()));
    } else {
        assert(b.len() == 0);
    }
}

/// Readers on the layers of a tree, lowest scale first, with the tree's root
/// and covering radii.
pub struct CoverTreeReader {
    base: Arc<ScaleBase>,
    root_address: NodeAddress,
    min_scale: i32,
    layers: Vec<CoverLayerReader>,
}

impl CoverTreeReader {
    /// Layer `i` has the scale `min_scale + i`.
    pub closed spec fn wf(&self) -> bool {
        forall|i: int| 0 <= i < self.layers@.len() ==> (#[trigger] self.layers@[i]).scale_spec() == self.min_scale + i
    }

    /// The covering radii.
    pub closed spec fn base_spec(&self) -> ScaleBase {
        *self.base
    }

    /// The root's address.
    pub closed spec fn root_spec(&self) -> NodeAddress {
        self.root_address
    }

    /// The lowest scale.
    pub closed spec fn min_scale_spec(&self) -> int {
        self.min_scale as int
    }

    /// The number of layers.
    pub closed spec fn layer_count_spec(&self) -> nat {
        self.layers@.len()
    }

    /// A tree of the layers `layers`, the `i`-th at scale `min_scale + i`.
    pub fn new(base: ScaleBase, root_address: NodeAddress, min_scale: i32, layers: Vec<CoverLayerReader>) -> (r: CoverTreeReader)
        requires
            forall|i: int| 0 <= i < layers@.len() ==> (#[trigger] layers@[i]).scale_spec() == min_scale + i,
        ensures
            r.wf(),
            r.base_spec() == base,
            r.root_spec() == root_address,
    {
        CoverTreeReader { base: Arc::new(base), root_address, min_scale, layers }
    }

    /// The lowest and highest scale and the node count of each layer, by
    /// scale: that of a published copy of the layer.
    pub fn parameters(&self) -> (r: ParametersResponse)
        requires
            self.wf(),
        ensures
            r.min_scale == self.min_scale_spec(),
            r.node_counts@.len() == self.layer_count_spec(),
            forall|i: int| 0 <= i < r.node_counts@.len() ==> (#[trigger] r.node_counts@[i]).0 == self.min_scale_spec() + i,
            forall|i: int|
                0 <= i < r.node_counts@.len() ==> counted_in_copy((#[trigger] r.node_counts@[i]).1, (self.min_scale_spec() + i) as i32),
            r.max_scale == if self.layer_count_spec() == 0 {
                self.min_scale_spec()
            } else {
                self.min_scale_spec() + self.layer_count_spec() - 1
            },
    {
        let mut node_counts: Vec<(i32, usize)> = Vec::new();
        let mut i: usize = 0;
        while i < self.layers.len()
            invariant
                self.wf(),
                0 <= i <= self.layers@.len(),
                node_counts@.len() == i,
                forall|j: int| 0 <= j < i ==> (#[trigger] node_counts@[j]).0 == self.min_scale + j,
                forall|j: int| 0 <= j < i ==> counted_in_copy((#[trigger] node_counts@[j]).1, (self.min_scale + j) as i32),
            decreases self.layers@.len() - i,
        {
            let l = &self.layers[i];
            let ghost before = node_counts@;
            let cnt = l.node_count();
            let ghost sn = choose|sn: LayerNodes| #[trigger] sn.wf(l.scale_spec()) && cnt == sn.centers_spec().len();
            proof {
                assert(l.scale_spec() == self.min_scale + i);
                assert(l.scale_spec() == (self.min_scale + i) as i32);
            }
            node_counts.push((l.scale_index(), cnt));
            proof {
                assert forall|j: int| 0 <= j < i + 1 implies counted_in_copy((#[trigger] node_counts@[j]).1, (self.min_scale + j) as i32) by {
                    if j < i {
                        assert(node_counts@[j] == before[j]);
                    } else {
                        assert(sn.wf((self.min_scale + j) as i32) && node_counts@[j].1 == sn.centers_spec().len());
                    }
                }
            }
            i = i + 1;
        }
        let max_scale = match node_counts.last() {
            Some(last) => last.0,
            None => self.min_scale,
        };
        ParametersResponse { min_scale: self.min_scale, max_scale, node_counts }
    }

    /// The root's address.
    pub fn root_address(&self) -> (r: NodeAddress)
        ensures
            r == self.root_spec(),
    {
        self.root_address
    }

    /// The reader of the layer at scale `scale`, if the tree has one.
    pub fn layer(&self, scale: i32) -> (r: Option<&CoverLayerReader>)
        requires
            self.wf(),
        ensures
            r matches Some(l) ==> l.scale_spec() == scale,
    {
        if scale < self.min_scale {
            return None;
        }
        let off = scale as i64 - self.min_scale as i64;
        if off >= self.layers.len() as i64 {
            return None;
        }
        Some(&self.layers[off as usize])
    }

    /// Applies `f` to the node at `address`, if the tree has it.
    pub fn get_node_and<T, F: FnOnce(&CoverNode) -> T>(&self, address: NodeAddress, f: F) -> (r: Option<T>)
        requires
            self.wf(),
            forall|n: CoverNode| n.address_spec() == address ==> f.requires((&n,)),
        ensures
            r matches Some(t) ==> exists|n: CoverNode| n.address_spec() == address && f.ensures((&n,), t),
    {
        match self.layer(address.0) {
            Some(l) => l.get_node_and(address.1, f),
            None => None,
        }
    }

    /// The `k` nearest points to a query, closest first (ties by point
    /// index): from the root, visit the frontier node with the smallest lower
    /// bound, offering its singletons and children as candidates and pushing
    /// its children, until the frontier is empty or cannot improve on the
    /// `k`-th candidate. `dist(p)` is the distance from the query to point
    /// `p`. No more nodes are visited than the layers hold. Fails with
    /// `MalformedQuery` for `k == 0` and with `IndexNotInTree` when a node on
    /// the frontier is missing. The search reads one snapshot of the tree,
    /// and where the distances are a function of the point its result is
    /// exactly `TreeSnapshot::search_spec` on that snapshot.
    pub fn knn<D: Fn(PointIndex) -> Distance>(&self, k: usize, dist: D) -> (r: Result<Vec<(Distance, PointIndex)>, GokoError>)
        requires
            self.wf(),
            forall|p: PointIndex| dist.requires((p,)),
        ensures
            search_result(self.root_spec(), k, dist, r),
            exists|snap: TreeSnapshot|
                {
                    &&& snap.wf()
                    &&& snap.root_spec() == self.root_spec()
                    &&& snap.base_spec() == self.base_spec()
                    &&& functional(dist) && k > 0 ==> match (r, #[trigger] snap.search_spec(oracle(dist), true, k as nat)) {
                        (Ok(v), Some(p)) => v@ == p,
                        (Err(e), None) => e == GokoError::IndexNotInTree,
                        _ => false,
                    }
                },
    {
        let snap = self.snapshot();
        let r = snap.search(k, dist, true);
        proof {
            assert(snap.wf() && snap.root_spec() == self.root_spec() && snap.base_spec() == self.base_spec()
                && (functional(dist) && k > 0 ==> match (r, snap.search_spec(oracle(dist), true, k as nat)) {
                    (Ok(v), Some(p)) => v@ == p,
                    (Err(e), None) => e == GokoError::IndexNotInTree,
                    _ => false,
                }));
        }
        r
    }

    /// The `k` nearest node centers to a query, closest first (ties by point
    /// index): the search of `knn`, with only node centers as candidates, on
    /// one snapshot of the tree (`TreeSnapshot::search_spec`).
    pub fn routing_knn<D: Fn(PointIndex) -> Distance>(&self, k: usize, dist: D) -> (r: Result<Vec<(Distance, PointIndex)>, GokoError>)
        requires
            self.wf(),
            forall|p: PointIndex| dist.requires((p,)),
        ensures
            search_result(self.root_spec(), k, dist, r),
            exists|snap: TreeSnapshot|
                {
                    &&& snap.wf()
                    &&& snap.root_spec() == self.root_spec()
                    &&& snap.base_spec() == self.base_spec()
                    &&& functional(dist) && k > 0 ==> match (r, #[trigger] snap.search_spec(oracle(dist), false, k as nat)) {
                        (Ok(v), Some(p)) => v@ == p,
                        (Err(e), None) => e == GokoError::IndexNotInTree,
                        _ => false,
                    }
                },
    {
        let snap = self.snapshot();
        let r = snap.search(k, dist, false);
        proof {
            assert(snap.wf() && snap.root_spec() == self.root_spec() && snap.base_spec() == self.base_spec()
                && (functional(dist) && k > 0 ==> match (r, snap.search_spec(oracle(dist), false, k as nat)) {
                    (Ok(v), Some(p)) => v@ == p,
                    (Err(e), None) => e == GokoError::IndexNotInTree,
                    _ => false,
                }));
        }
        r
    }

    /// Every candidate and every frontier entry of `heap` carries the
    /// distance that `dist` gives for its point.
    pub open spec fn measured<D: Fn(PointIndex) -> Distance>(heap: KnnQueryHeap, dist: D) -> bool {
        &&& forall|i: int| 0 <= i < heap.known_spec().len() ==> dist.ensures(((#[trigger] heap.known_spec()[i]).1,), heap.known_spec()[i].0)
        &&& forall|i: int| 0 <= i < heap.frontier_spec().len() ==> dist.ensures(((#[trigger] heap.frontier_spec()[i]).address.1,), heap.frontier_spec()[i].dist_to_center)
    }

    /// A snapshot of the tree: each layer's copy published last, taken once,
    /// so that one query reads one state of every layer.
    pub fn snapshot(&self) -> (r: TreeSnapshot)
        requires
            self.wf(),
        ensures
            r.wf(),
            r.base_spec() == self.base_spec(),
            r.root_spec() == self.root_spec(),
    {
        let mut layers: Vec<Arc<LayerNodes>> = Vec::new();
        let mut i: usize = 0;
        while i < self.layers.len()
            invariant
                self.wf(),
                0 <= i <= self.layers@.len(),
                layers@.len() == i,
                forall|j: int| 0 <= j < i ==> (#[trigger] layers@[j]).wf((self.min_scale + j) as i32),
            decreases self.layers@.len() - i,
        {
            layers.push(self.layers[i].snapshot());
            i = i + 1;
        }
        TreeSnapshot { base: self.base.clone(), root_address: self.root_address, min_scale: self.min_scale, layers }
    }

    /// The covering path of a query, root first: from each node, the step
    /// that `path_step` gives (the first child that covers the query, at a
    /// lower scale), until it gives none. `dist(p)` is the distance from the
    /// query to point `p`. Each step is what `covering_child` returns on the
    /// node reached, and the path ends only where `covering_child` gives
    /// nothing or a child whose scale is not lower. Fails with
    /// `IndexNotInTree` when a node on the way is missing. The path reads
    /// one snapshot of the tree, and where the distances are a function of
    /// the point it is exactly `TreeSnapshot::path_spec` on that snapshot:
    /// it succeeds whenever every node it reaches is there.
    pub fn path<D: Fn(PointIndex) -> Distance>(&self, dist: D) -> (r: Result<Vec<(Distance, NodeAddress)>, GokoError>)
        requires
            self.wf(),
            forall|p: PointIndex| dist.requires((p,)),
        ensures
            r matches Err(e) ==> e == GokoError::IndexNotInTree,
            r matches Ok(path) ==> {
                &&& path@.len() >= 1
                &&& path@[0].1 == self.root_spec()
                &&& forall|i: int| 0 <= i < path@.len() ==> dist.ensures((path@[i].1.1,), #[trigger] path@[i].0)
                &&& forall|i: int| 1 <= i < path@.len() ==> covering_step(self.base_spec(), dist, path@[i - 1], #[trigger] path@[i])
                &&& path_ends(self.base_spec(), dist, path@.last())
            },
            exists|snap: TreeSnapshot|
                {
                    &&& snap.wf()
                    &&& snap.root_spec() == self.root_spec()
                    &&& snap.base_spec() == self.base_spec()
                    &&& functional(dist) ==> match (r, #[trigger] snap.path_spec(oracle(dist))) {
                        (Ok(v), Some(p)) => v@ == p,
                        (Err(_), None) => true,
                        _ => false,
                    }
                },
    {
        let snap = self.snapshot();
        let r = snap.path(dist);
        proof {
            assert(snap.wf() && snap.root_spec() == self.root_spec() && snap.base_spec() == self.base_spec()
                && (functional(dist) ==> match (r, snap.path_spec(oracle(dist))) {
                    (Ok(v), Some(p)) => v@ == p,
                    (Err(_), None) => true,
                    _ => false,
                }));
        }
        r
    }
}

/// One state of every layer of a tree, with the tree's root and radii.
pub struct TreeSnapshot {
    base: Arc<ScaleBase>,
    root_address: NodeAddress,
    min_scale: i32,
    layers: Vec<Arc<LayerNodes>>,
}

impl TreeSnapshot {
    /// Layer `i` is a well-formed layer at scale `min_scale + i`.
    pub closed spec fn wf(&self) -> bool {
        forall|i: int| 0 <= i < self.layers@.len() ==> (#[trigger] self.layers@[i]).wf((self.min_scale + i) as i32)
    }

    /// The covering radii.
    pub closed spec fn base_spec(&self) -> ScaleBase {
        *self.base
    }

    /// The root's address.
    pub closed spec fn root_spec(&self) -> NodeAddress {
        self.root_address
    }

    /// The node at `a`, if the snapshot holds one.
    pub closed spec fn node_spec(&self, a: NodeAddress) -> Option<CoverNode> {
        let off = a.0 - self.min_scale;
        if 0 <= off < self.layers@.len() && self.layers@[off].nodes_spec().contains_key(a.1) {
            Some(*self.layers@[off].nodes_spec()[a.1])
        } else {
            None
        }
    }

    /// The node at `a`, if the snapshot holds one.
    pub fn node(&self, a: NodeAddress) -> (r: Option<&CoverNode>)
        requires
            self.wf(),
        ensures
            match self.node_spec(a) {
                Some(n) => r matches Some(x) && *x == n,
                None => r is None,
            },
            r matches Some(x) ==> x.address_spec() == a,
    {
        if a.0 < self.min_scale {
            return None;
        }
        let off = (a.0 as i64 - self.min_scale as i64) as usize;
        if off >= self.layers.len() {
            return None;
        }
        proof {
            assert(self.layers@[off as int].wf((self.min_scale + off) as i32));
        }
        self.layers[off].node_at(a.1)
    }

    /// The covering path from `cur` on, with the query distances `f`: `cur`,
    /// then, if `covering_child` on the node at `cur` gives a child at a lower
    /// scale, the path from that child; `None` when a node on the way is
    /// missing from the snapshot.
    pub open spec fn path_from(&self, f: spec_fn(PointIndex) -> Distance, cur: (Distance, NodeAddress)) -> Option<
        Seq<(Distance, NodeAddress)>,
    >
        decreases cur.1.0 - i32::MIN,
    {
        match self.node_spec(cur.1) {
            None => None,
            Some(n) => match covering_choice(n, self.base_spec(), cur.0, child_dists_of(n, f)) {
                Some(to) => if to.1.0 < cur.1.0 {
                    prepend(seq![cur], self.path_from(f, to))
                } else {
                    Some(seq![cur])
                },
                None => Some(seq![cur]),
            },
        }
    }

    /// Two snapshots alike in all a query reads: the same radii and root,
    /// the same visit budget, and at each address nodes alike but for their
    /// plugins, or no node in either.
    pub open spec fn alike(&self, o: &TreeSnapshot) -> bool {
        &&& self.base_spec().min_scale_spec() == o.base_spec().min_scale_spec()
        &&& self.base_spec().radii_spec() == o.base_spec().radii_spec()
        &&& self.root_spec() == o.root_spec()
        &&& self.budget_spec() == o.budget_spec()
        &&& forall|a: NodeAddress| #[trigger] self.node_spec(a) is Some <==> o.node_spec(a) is Some
        &&& forall|a: NodeAddress|
            #[trigger] self.node_spec(a) is Some ==> same_structure(self.node_spec(a).unwrap(), o.node_spec(a).unwrap())
    }

    /// The number of node visits a search on this snapshot allows.
    pub closed spec fn budget_spec(&self) -> nat {
        visit_budget(self.layers@)
    }

    /// This snapshot is a copy of the writer's own copy of every layer.
    pub open spec fn copy_of(&self, w: CoverTreeWriter) -> bool {
        &&& self.wf()
        &&& self.base_spec().min_scale_spec() == w.base_spec().min_scale_spec()
        &&& self.base_spec().radii_spec() == w.base_spec().radii_spec()
        &&& self.root_spec() == w.root_spec()
        &&& forall|a: NodeAddress| #[trigger] self.node_spec(a) == w.node_spec(a)
        &&& self.layer_sizes() == w.layer_sizes()
    }

    /// The number of nodes of each layer, lowest scale first.
    pub closed spec fn layer_sizes(&self) -> Seq<nat> {
        self.layers@.map_values(|l: Arc<LayerNodes>| l.centers_spec().len())
    }

    /// Snapshots whose layers have the same sizes allow the same visits.
    pub proof fn lemma_budget_by_sizes(&self, o: &TreeSnapshot)
        requires
            self.layer_sizes() == o.layer_sizes(),
        ensures
            self.budget_spec() == o.budget_spec(),
    {
        lemma_visit_budget_sizes(self.layers@, o.layers@);
    }

    /// A search from the state `known`, `frontier`, with `budget` visits
    /// left and query distances `f`: it stops when the budget is spent, when
    /// the frontier cannot improve on the `k`-th candidate, or when it is
    /// empty, giving the candidates; else it visits the first frontier entry
    /// (`None` when that node is missing from the snapshot) and goes on.
    pub open spec fn search_from(
        &self,
        f: spec_fn(PointIndex) -> Distance,
        singletons: bool,
        k: nat,
        known: Seq<(Distance, PointIndex)>,
        frontier: Seq<QueryAddress>,
        budget: nat,
    ) -> Option<Seq<(Distance, PointIndex)>>
        decreases budget,
    {
        if budget == 0 || stops(known, frontier, k) || frontier.len() == 0 {
            Some(known)
        } else {
            let i = first_min(frontier);
            let e = frontier[i];
            match self.node_spec(e.address) {
                None => None,
                Some(n) => self.search_from(
                    f,
                    singletons,
                    k,
                    visit_known(n, e, f, known, k, singletons),
                    frontier.remove(i) + n.child_frontier(self.base_spec(), e.dist_to_center, child_dists_of(n, f)),
                    (budget - 1) as nat,
                ),
            }
        }
    }

    /// A search for `k` candidates with query distances `f`, from the root:
    /// its center is the first candidate and it is the first frontier entry.
    pub open spec fn search_spec(&self, f: spec_fn(PointIndex) -> Distance, singletons: bool, k: nat) -> Option<
        Seq<(Distance, PointIndex)>,
    > {
        let root = self.root_spec();
        let d0 = f(root.1);
        self.search_from(
            f,
            singletons,
            k,
            seq![(d0, root.1)],
            seq![frontier_entry(self.base_spec(), root, d0, None)],
            self.budget_spec(),
        )
    }

    /// The covering path of a query whose distances `f` gives, from the root.
    pub open spec fn path_spec(&self, f: spec_fn(PointIndex) -> Distance) -> Option<Seq<(Distance, NodeAddress)>> {
        self.path_from(f, (f(self.root_spec().1), self.root_spec()))
    }

    fn search<D: Fn(PointIndex) -> Distance>(&self, k: usize, dist: D, singletons: bool) -> (r: Result<Vec<(Distance, PointIndex)>, GokoError>)
        requires
            self.wf(),
            forall|p: PointIndex| dist.requires((p,)),
        ensures
            search_result(self.root_spec(), k, dist, r),
            functional(dist) && k > 0 ==> match (r, self.search_spec(oracle(dist), singletons, k as nat)) {
                (Ok(v), Some(p)) => v@ == p,
                (Err(e), None) => e == GokoError::IndexNotInTree,
                _ => false,
            },
    {
        if k == 0 {
            return Err(GokoError::MalformedQuery);
        }
        let mut budget: usize = 1;
        let mut l: usize = 0;
        while l < self.layers.len()
            invariant
                0 <= l <= self.layers@.len(),
                budget == visit_budget(self.layers@.take(l as int)),
            decreases self.layers@.len() - l,
        {
            proof {
                assert(self.layers@.take(l as int + 1).drop_last() =~= self.layers@.take(l as int));
            }
            let c = self.layers[l].node_count();
            budget = if c > usize::MAX - budget {
                usize::MAX
            } else {
                budget + c
            };
            l = l + 1;
        }
        proof {
            assert(self.layers@.take(l as int) =~= self.layers@);
        }
        let mut heap = KnnQueryHeap::new(k, self.base.duplicate());
        let root = self.root_address;
        let d0 = dist(root.1);
        let roots: Vec<NodeAddress> = vec![root];
        let root_dists: Vec<Distance> = vec![d0];
        proof {
            lemma_offer_all_from(heap.known_spec(), centers_of(roots@), root_dists@, k as nat, 1);
        }
        let ghost known_before = heap.known_spec();
        heap.push_nodes(roots.as_slice(), root_dists.as_slice(), None);
        let ghost mut offered: Set<(Distance, PointIndex)> = Set::empty().insert((d0, root.1));
        proof {
            if functional(dist) {
                let f = oracle(dist);
                assert(f(root.1) == d0);
                let x = (d0, root.1);
                assert(crate::query::insert_pos(Seq::empty(), x) == 0);
                assert(Seq::<(Distance, PointIndex)>::empty().insert(0, x) =~= seq![x]);
                assert(offer_all(known_before, centers_of(roots@), root_dists@, k as nat, 0) == known_before);
                assert(heap.known_spec() =~= seq![x]);
                assert(heap.frontier_spec() =~= seq![frontier_entry(self.base_spec(), root, d0, None)]);
            }
        }
        proof {
            assert forall|i: int| 0 <= i < heap.known_spec().len() implies dist.ensures(((#[trigger] heap.known_spec()[i]).1,), heap.known_spec()[i].0) by {
                assert(heap.known_spec().contains(heap.known_spec()[i]));
            }
            assert(holds_best(known_before, Set::empty(), k as nat));
            lemma_offer_all_best(known_before, Set::empty(), centers_of(roots@), root_dists@, k as nat, 1);
            assert(roots@[0] == root && root_dists@[0] == d0);
            assert(centers_of(roots@)[0] == root.1);
            assert(offered_set(centers_of(roots@), root_dists@, 1) == offered_set(centers_of(roots@), root_dists@, 0).insert((d0, root.1)));
            assert(Set::<(Distance, PointIndex)>::empty().union(offered_set(centers_of(roots@), root_dists@, 1)) =~= offered);
        }
        while budget > 0 && !heap.should_stop()
            invariant
                self.wf(),
                forall|p: PointIndex| dist.requires((p,)),
                heap.wf(),
                heap.k_spec() == k,
                CoverTreeReader::measured(heap, dist),
                offered.finite(),
                holds_best(heap.known_spec(), offered, k as nat),
                offered.contains((d0, self.root_spec().1)),
                dist.ensures((self.root_spec().1,), d0),
                forall|x: (Distance, PointIndex)| #[trigger] offered.contains(x) ==> dist.ensures((x.1,), x.0),
                heap.base_spec().min_scale_spec() == self.base_spec().min_scale_spec(),
                heap.base_spec().radii_spec() == self.base_spec().radii_spec(),
                functional(dist) ==> self.search_spec(oracle(dist), singletons, k as nat) == self.search_from(
                    oracle(dist),
                    singletons,
                    k as nat,
                    heap.known_spec(),
                    heap.frontier_spec(),
                    budget as nat,
                ),
            ensures
                heap.wf(),
                heap.k_spec() == k,
                offered.finite(),
                holds_best(heap.known_spec(), offered, k as nat),
                offered.contains((d0, self.root_spec().1)),
                dist.ensures((self.root_spec().1,), d0),
                forall|x: (Distance, PointIndex)| #[trigger] offered.contains(x) ==> dist.ensures((x.1,), x.0),
                CoverTreeReader::measured(heap, dist),
                functional(dist) ==> self.search_spec(oracle(dist), singletons, k as nat) == Some(heap.known_spec()),
            decreases budget,
        {
            let ghost f0 = heap.frontier_spec();
            let ghost k0 = heap.known_spec();
            let e = match heap.pop_closest_unvisited() {
                Some(e) => e,
                None => {
                    break;
                },
            };
            proof {
                let w = choose|w: int| 0 <= w < f0.len() && f0[w] == e && heap.frontier_spec() == f0.remove(w) && (forall|j: int| 0 <= j < f0.len() ==> !crate::query::qa_lt(#[trigger] f0[j], e)) && (forall|j: int| 0 <= j < w ==> crate::query::qa_lt(e, #[trigger] f0[j]));
                assert(dist.ensures((f0[w].address.1,), f0[w].dist_to_center));
                assert(is_first_min(f0, w));
                lemma_first_min_unique(f0, w);
                assert forall|i: int| 0 <= i < heap.frontier_spec().len() implies dist.ensures(((#[trigger] heap.frontier_spec()[i]).address.1,), heap.frontier_spec()[i].dist_to_center) by {
                    if i < w {
                        assert(heap.frontier_spec()[i] == f0[i]);
                    } else {
                        assert(heap.frontier_spec()[i] == f0[i + 1]);
                    }
                }
            }
            let node = match self.node(e.address) {
                Some(n) => n,
                None => {
                    return Err(GokoError::IndexNotInTree);
                },
            };
            let nd: &CoverNode = &node;
            let ghost before = offered;
            let ghost fr1 = heap.frontier_spec();
            let ghost hb = heap.base_spec();
            let Ghost(next) = if singletons {
                visit_knn(nd, e, &dist, &mut heap, Ghost(offered))
            } else {
                visit_routing(nd, e, &dist, &mut heap, Ghost(offered))
            };
            proof {
                offered = next;
                assert(before.contains((d0, self.root_spec().1)));
                if functional(dist) {
                    let f = oracle(dist);
                    lemma_child_frontier_base(*nd, hb, self.base_spec(), e.dist_to_center, child_dists_of(*nd, f));
                    assert(heap.frontier_spec() == f0.remove(first_min(f0)) + nd.child_frontier(self.base_spec(), e.dist_to_center, child_dists_of(*nd, f)));
                }
            }
            budget = budget - 1;
        }
        let v = heap.unpack();
        proof {
            assert(k > 0);
            assert(offered.contains((d0, self.root_spec().1)));
            assert(offered.len() >= 1) by {
                vstd::set_lib::lemma_len_subset(Set::empty().insert((d0, self.root_spec().1)), offered);
            }
        }
        Ok(v)
    }

    /// The covering path of a query, root first: from each node, the step
    /// that `path_step` gives (the first child that covers the query, at a
    /// lower scale), until it gives none. `dist(p)` is the distance from the
    /// query to point `p`. Each step is what `covering_child` returns on the
    /// node reached, and the path ends only where `covering_child` gives
    /// nothing or a child whose scale is not lower. Fails with
    /// `IndexNotInTree` when a node on the way is missing. The path reads
    /// one snapshot of the tree, and where the distances are a function of
    /// the point it is exactly `TreeSnapshot::path_spec` on that snapshot:
    /// it succeeds whenever every node it reaches is there.
    pub fn path<D: Fn(PointIndex) -> Distance>(&self, dist: D) -> (r: Result<Vec<(Distance, NodeAddress)>, GokoError>)
        requires
            self.wf(),
            forall|p: PointIndex| dist.requires((p,)),
        ensures
            r matches Err(e) ==> e == GokoError::IndexNotInTree,
            r matches Ok(path) ==> {
                &&& path@.len() >= 1
                &&& path@[0].1 == self.root_spec()
                &&& forall|i: int| 0 <= i < path@.len() ==> dist.ensures((path@[i].1.1,), #[trigger] path@[i].0)
                &&& forall|i: int| 1 <= i < path@.len() ==> covering_step(self.base_spec(), dist, path@[i - 1], #[trigger] path@[i])
                &&& path_ends(self.base_spec(), dist, path@.last())
            },
            functional(dist) ==> match (r, self.path_spec(oracle(dist))) {
                (Ok(v), Some(p)) => v@ == p,
                (Err(_), None) => true,
                _ => false,
            },
    {
        let root = self.root_address;
        let d0 = dist(root.1);
        let mut path: Vec<(Distance, NodeAddress)> = Vec::new();
        path.push((d0, root));
        let mut cur: (Distance, NodeAddress) = (d0, root);
        proof {
            if functional(dist) {
                assert(oracle(dist)(root.1) == d0);
                assert(path@.drop_last() =~= Seq::<(Distance, NodeAddress)>::empty());
                if let Some(t) = self.path_from(oracle(dist), cur) {
                    assert(Seq::<(Distance, NodeAddress)>::empty() + t =~= t);
                }
            }
        }
        loop
            invariant
                self.wf(),
                forall|p: PointIndex| dist.requires((p,)),
                path@.len() >= 1,
                path@[0].1 == self.root_spec(),
                cur == path@.last(),
                forall|i: int| 0 <= i < path@.len() ==> dist.ensures((path@[i].1.1,), #[trigger] path@[i].0),
                forall|i: int| 1 <= i < path@.len() ==> covering_step(self.base_spec(), dist, path@[i - 1], #[trigger] path@[i]),
                functional(dist) ==> self.path_spec(oracle(dist)) == prepend(path@.drop_last(), self.path_from(oracle(dist), cur)),
            ensures
                functional(dist) ==> self.path_spec(oracle(dist)) == Some(path@),
                path@.len() >= 1,
                path@[0].1 == self.root_spec(),
                forall|i: int| 0 <= i < path@.len() ==> dist.ensures((path@[i].1.1,), #[trigger] path@[i].0),
                forall|i: int| 1 <= i < path@.len() ==> covering_step(self.base_spec(), dist, path@[i - 1], #[trigger] path@[i]),
                path_ends(self.base_spec(), dist, path@.last()),
            decreases cur.1.0 - i32::MIN,
        {
            let node = match self.node(cur.1) {
                Some(n) => n,
                None => {
                    proof {
                        assert(self.path_from(oracle(dist), cur) is None);
                    }
                    return Err(GokoError::IndexNotInTree);
                },
            };
            let nd: &CoverNode = &node;
            let next = path_step(&*self.base, nd, cur, &dist);
            proof {
                let cd = choose|cd: Seq<Distance>| measured_children(*nd, dist, cd) && exists|c: Option<(Distance, NodeAddress)>|
                    #[trigger] nd.covering_child_result(self.base_spec(), cur.0, cd, c) && next == match c {
                        Some(to) => if to.1.0 < cur.1.0 { Some(to) } else { None },
                        None => None,
                    };
                let c = choose|c: Option<(Distance, NodeAddress)>| #[trigger] nd.covering_child_result(self.base_spec(), cur.0, cd, c) && next == match c {
                        Some(to) => if to.1.0 < cur.1.0 { Some(to) } else { None },
                        None => None,
                    };
                if functional(dist) {
                    lemma_path_from_step(self, dist, cur, *nd, cd, c, next);
                }
                if next is None {
                    assert(path_ends(self.base_spec(), dist, cur));
                } else {
                    let (d, a) = next.unwrap();
                    crate::node::lemma_path_step(nd, self.base_spec(), cur.0, cd, d, a);
                    assert(covering_step(self.base_spec(), dist, cur, (d, a)));
                }
            }
            match next {
                Some((d, a)) => {
                    let ghost prev = path@;
                    let ghost was = cur;
                    path.push((d, a));
                    cur = (d, a);
                    proof {
                        if functional(dist) {
                            assert(prev.drop_last() + seq![was] =~= path@.drop_last());
                            if let Some(t) = self.path_from(oracle(dist), cur) {
                                assert(prev.drop_last() + (seq![was] + t) =~= path@.drop_last() + t);
                            }
                        }
                        assert forall|i: int| 1 <= i < path@.len() implies covering_step(self.base_spec(), dist, path@[i - 1], #[trigger] path@[i]) by {
                            if i < path@.len() - 1 {
                                assert(path@[i] == prev[i] && path@[i - 1] == prev[i - 1]);
                            } else {
                                assert(path@[i - 1] == prev.last());
                            }
                        }
                    }
                },
                None => {
                    proof {
                        assert(path_ends(self.base_spec(), dist, cur));
                        if functional(dist) {
                            assert(path@.drop_last() + seq![cur] =~= path@);
                        }
                    }
                    break;
                },
            }
        }
        Ok(path)
    }
}

} // verus!

verus! {

/// The write handle on a tree: one layer writer per scale, lowest first.
pub struct CoverTreeWriter {
    base: ScaleBase,
    root_address: NodeAddress,
    min_scale: i32,
    layers: Vec<CoverLayerWriter>,
}

impl CoverTreeWriter {
    /// Layer `i` is well formed and has the scale `min_scale + i`.
    pub closed spec fn wf(&self) -> bool {
        forall|i: int|
            0 <= i < self.layers@.len() ==> (#[trigger] self.layers@[i]).wf() && self.layers@[i].scale_spec()
                == self.min_scale + i
    }

    /// The covering radii.
    pub closed spec fn base_spec(&self) -> ScaleBase {
        self.base
    }

    /// The root's address.
    pub closed spec fn root_spec(&self) -> NodeAddress {
        self.root_address
    }

    /// The lowest scale.
    pub closed spec fn min_scale_spec(&self) -> int {
        self.min_scale as int
    }

    /// The layer writers, lowest scale first.
    pub closed spec fn layers_spec(&self) -> Seq<CoverLayerWriter> {
        self.layers@
    }

    /// An empty tree with one layer per scale from `min_scale` to `max_scale`.
    pub fn new(base: ScaleBase, root_address: NodeAddress, min_scale: i32, max_scale: i32) -> (r: CoverTreeWriter)
        requires
            min_scale <= max_scale,
        ensures
            r.wf(),
            r.base_spec() == base,
            r.root_spec() == root_address,
            r.min_scale_spec() == min_scale,
            r.layers_spec().len() == max_scale - min_scale + 1,
            forall|i: int| 0 <= i < r.layers_spec().len() ==> (#[trigger] r.layers_spec()[i]).nodes_spec().is_empty(),
    {
        let mut layers: Vec<CoverLayerWriter> = Vec::new();
        let mut s: i64 = min_scale as i64;
        while s <= max_scale as i64
            invariant
                min_scale <= s <= max_scale + 1,
                layers@.len() == s - min_scale,
                forall|i: int| 0 <= i < layers@.len() ==> (#[trigger] layers@[i]).wf() && layers@[i].scale_spec() == min_scale + i,
                forall|i: int| 0 <= i < layers@.len() ==> (#[trigger] layers@[i]).nodes_spec().is_empty(),
            decreases max_scale + 1 - s,
        {
            let w = CoverLayerWriter::new(s as i32);
            layers.push(w);
            s = s + 1;
        }
        CoverTreeWriter { base, root_address, min_scale, layers }
    }

    /// Puts `node` in the layer of its scale, under its center. Fails with
    /// `IndexNotInTree` when the tree has no layer at that scale.
    pub fn insert_raw(&mut self, node: CoverNode) -> (r: Result<(), GokoError>)
        requires
            old(self).wf(),
        ensures
            final(self).wf(),
            final(self).base_spec() == old(self).base_spec(),
            final(self).root_spec() == old(self).root_spec(),
            final(self).min_scale_spec() == old(self).min_scale_spec(),
            final(self).layers_spec().len() == old(self).layers_spec().len(),
            ({
                let i = node.address_spec().0 - old(self).min_scale_spec();
                &&& (0 <= i < old(self).layers_spec().len()) == (r is Ok)
                &&& r is Ok ==> final(self).layers_spec()[i].nodes_spec() == old(self).layers_spec()[i].nodes_spec().insert(
                    node.address_spec().1,
                    Arc::new(node),
                )
                &&& forall|j: int|
                    0 <= j < old(self).layers_spec().len() && j != i ==> #[trigger] final(self).layers_spec()[j]
                        == old(self).layers_spec()[j]
                &&& r is Err ==> final(self).layers_spec() == old(self).layers_spec()
            }),
    {
        let scale = *node.scale_index();
        let center = *node.center_index();
        if scale < self.min_scale {
            return Err(GokoError::IndexNotInTree);
        }
        let i = (scale as i64 - self.min_scale as i64) as usize;
        if i >= self.layers.len() {
            return Err(GokoError::IndexNotInTree);
        }
        proof {
            assert(self.layers@[i as int].wf());
        }
        self.layers[i].insert_raw(center, node);
        Ok(())
    }

    /// Publishes every layer: lookups that start after this see every write
    /// made before it.
    pub fn refresh(&mut self)
        requires
            old(self).wf(),
        ensures
            final(self).wf(),
            final(self).base_spec() == old(self).base_spec(),
            final(self).root_spec() == old(self).root_spec(),
            final(self).min_scale_spec() == old(self).min_scale_spec(),
            final(self).layers_spec().len() == old(self).layers_spec().len(),
            forall|j: int|
                0 <= j < old(self).layers_spec().len() ==> (#[trigger] final(self).layers_spec()[j]).nodes_spec()
                    == old(self).layers_spec()[j].nodes_spec() && final(self).layers_spec()[j].centers_spec()
                    == old(self).layers_spec()[j].centers_spec() && final(self).layers_spec()[j].scale_spec()
                    == old(self).layers_spec()[j].scale_spec(),
    {
        let mut i: usize = 0;
        while i < self.layers.len()
            invariant
                0 <= i <= self.layers@.len(),
                self.layers@.len() == old(self).layers@.len(),
                self.base == old(self).base,
                self.root_address == old(self).root_address,
                self.min_scale == old(self).min_scale,
                forall|j: int| 0 <= j < self.layers@.len() ==> (#[trigger] self.layers@[j]).wf() && self.layers@[j].scale_spec() == self.min_scale + j,
                forall|j: int|
                    0 <= j < self.layers@.len() ==> (#[trigger] self.layers@[j]).nodes_spec()
                        == old(self).layers@[j].nodes_spec() && self.layers@[j].centers_spec()
                        == old(self).layers@[j].centers_spec() && self.layers@[j].scale_spec()
                        == old(self).layers@[j].scale_spec(),
            decreases self.layers@.len() - i,
        {
            self.layers[i].refresh();
            i = i + 1;
        }
    }

    /// A read handle on the tree.
    pub fn reader(&self) -> (r: CoverTreeReader)
        requires
            self.wf(),
        ensures
            r.wf(),
            r.base_spec().min_scale_spec() == self.base_spec().min_scale_spec(),
            r.base_spec().radii_spec() == self.base_spec().radii_spec(),
            r.root_spec() == self.root_spec(),
    {
        let mut readers: Vec<CoverLayerReader> = Vec::new();
        let mut i: usize = 0;
        while i < self.layers.len()
            invariant
                self.wf(),
                0 <= i <= self.layers@.len(),
                readers@.len() == i,
                forall|j: int| 0 <= j < i ==> (#[trigger] readers@[j]).scale_spec() == self.min_scale + j,
            decreases self.layers@.len() - i,
        {
            proof {
                assert(self.layers@[i as int].wf());
            }
            readers.push(self.layers[i].reader());
            i = i + 1;
        }
        CoverTreeReader::new(self.base.duplicate(), self.root_address, self.min_scale, readers)
    }

    /// Attaches to every node its categorical (`GokoCategorical::node_component`),
    /// lowest scale first, so that a node reads the totals of the categoricals
    /// its children in lower layers got before it; a child without one is left
    /// out. A node whose counts would not fit in a `u64` is left without a
    /// categorical. Only plugins change: every node keeps its address, radius,
    /// cover count, children and singletons. The result is published by the
    /// next `refresh`.
    pub fn attach_categoricals(&mut self)
        requires
            old(self).wf(),
        ensures
            final(self).wf(),
            final(self).base_spec() == old(self).base_spec(),
            final(self).root_spec() == old(self).root_spec(),
            final(self).min_scale_spec() == old(self).min_scale_spec(),
            final(self).layers_spec().len() == old(self).layers_spec().len(),
            forall|i: int, k: PointIndex|
                0 <= i < old(self).layers_spec().len() ==> (#[trigger] final(self).layers_spec()[i].nodes_spec().contains_key(k)
                    <==> old(self).layers_spec()[i].nodes_spec().contains_key(k)),
            forall|i: int, k: PointIndex|
                0 <= i < old(self).layers_spec().len() && #[trigger] old(self).layers_spec()[i].nodes_spec().contains_key(k)
                    ==> same_structure(*final(self).layers_spec()[i].nodes_spec()[k], *old(self).layers_spec()[i].nodes_spec()[k]),
            forall|i: int, k: PointIndex|
                0 <= i < final(self).layers_spec().len() && #[trigger] final(self).layers_spec()[i].nodes_spec().contains_key(k)
                    ==> built(*final(self), i, *final(self).layers_spec()[i].nodes_spec()[k]),
    {
        broadcast use vstd::std_specs::hash::group_hash_axioms;
        let mut totals: Vec<HashMap<PointIndex, u64>> = Vec::new();
        let mut i: usize = 0;
        while i < self.layers.len()
            invariant
                self.wf(),
                0 <= i <= self.layers@.len(),
                self.base == old(self).base,
                self.root_address == old(self).root_address,
                self.min_scale == old(self).min_scale,
                self.layers@.len() == old(self).layers@.len(),
                forall|i2: int, k: PointIndex|
                    0 <= i2 < self.layers@.len() ==> (#[trigger] self.layers@[i2].nodes_spec().contains_key(k)
                        <==> old(self).layers@[i2].nodes_spec().contains_key(k)),
                forall|i2: int, k: PointIndex|
                    0 <= i2 < self.layers@.len() && #[trigger] old(self).layers@[i2].nodes_spec().contains_key(k)
                        ==> same_structure(*self.layers@[i2].nodes_spec()[k], *old(self).layers@[i2].nodes_spec()[k]),
                totals@.len() == i,
                forall|j2: int, k: PointIndex|
                    0 <= j2 < i ==> (#[trigger] totals@[j2]@.contains_key(k) <==> (self.layers@[j2].nodes_spec().contains_key(k)
                        && self.layers@[j2].nodes_spec()[k].plugin_spec() is Some)),
                forall|j2: int, k: PointIndex|
                    0 <= j2 < i && #[trigger] totals@[j2]@.contains_key(k) ==> (self.layers@[j2].nodes_spec()[k].plugin_spec()
                        matches Some(c) && totals@[j2]@[k] == c.total_spec()),
                forall|j2: int, k: PointIndex|
                    0 <= j2 < i && #[trigger] self.layers@[j2].nodes_spec().contains_key(k) ==> built(*self, j2, *self.layers@[j2].nodes_spec()[k]),
            decreases self.layers@.len() - i,
        {
            proof {
                assert(self.layers@[i as int].wf());
            }
            let centers = self.layers[i].centers();
            let mut layer_totals: HashMap<PointIndex, u64> = HashMap::new();
            let mut j: usize = 0;
            while j < centers.len()
                invariant
                    self.wf(),
                    0 <= i < self.layers@.len(),
                    0 <= j <= centers@.len(),
                    centers@ == self.layers@[i as int].centers_spec(),
                    self.base == old(self).base,
                    self.root_address == old(self).root_address,
                    self.min_scale == old(self).min_scale,
                    self.layers@.len() == old(self).layers@.len(),
                    forall|i2: int, k: PointIndex|
                        0 <= i2 < self.layers@.len() ==> (#[trigger] self.layers@[i2].nodes_spec().contains_key(k)
                            <==> old(self).layers@[i2].nodes_spec().contains_key(k)),
                    forall|i2: int, k: PointIndex|
                        0 <= i2 < self.layers@.len() && #[trigger] old(self).layers@[i2].nodes_spec().contains_key(k)
                            ==> same_structure(*self.layers@[i2].nodes_spec()[k], *old(self).layers@[i2].nodes_spec()[k]),
                    totals@.len() == i,
                    forall|j2: int, k: PointIndex|
                        0 <= j2 < i ==> (#[trigger] totals@[j2]@.contains_key(k) <==> (self.layers@[j2].nodes_spec().contains_key(k)
                            && self.layers@[j2].nodes_spec()[k].plugin_spec() is Some)),
                    forall|j2: int, k: PointIndex|
                        0 <= j2 < i && #[trigger] totals@[j2]@.contains_key(k) ==> (self.layers@[j2].nodes_spec()[k].plugin_spec()
                            matches Some(c) && totals@[j2]@[k] == c.total_spec()),
                    forall|j2: int, k: PointIndex|
                        0 <= j2 < i && #[trigger] self.layers@[j2].nodes_spec().contains_key(k) ==> built(*self, j2, *self.layers@[j2].nodes_spec()[k]),
                    forall|k: PointIndex|
                        #[trigger] layer_totals@.contains_key(k) <==> (centers@.take(j as int).contains(k)
                            && self.layers@[i as int].nodes_spec()[k].plugin_spec() is Some),
                    forall|k: PointIndex|
                        #[trigger] layer_totals@.contains_key(k) ==> (self.layers@[i as int].nodes_spec()[k].plugin_spec()
                            matches Some(c) && layer_totals@[k] == c.total_spec()),
                    forall|k: PointIndex|
                        #[trigger] centers@.take(j as int).contains(k) ==> built(*self, i as int, *self.layers@[i as int].nodes_spec()[k]),
                decreases centers@.len() - j,
            {
                let c = centers[j];
                proof {
                    assert(self.layers@[i as int].wf());
                    self.layers@[i as int].lemma_shadow_wf();
                    assert(centers@.contains(c));
                    assert(centers@.take(j as int + 1) =~= centers@.take(j as int).push(c));
                    assert(!centers@.take(j as int).contains(c)) by {
                        if centers@.take(j as int).contains(c) {
                            let w = choose|w: int| 0 <= w < j && centers@.take(j as int)[w] == c;
                            assert(centers@[w] == centers@[j as int]);
                        }
                    }
                }
                let ghost ws = *self;
                let component: Option<Categorical> = match self.layers[i].node(c) {
                    Some(node) => {
                        let list = node.child_list();
                        let mut child_totals: Vec<Option<u64>> = Vec::new();
                        let mut sum: u64 = 0;
                        let mut fits = true;
                        let mut m: usize = 0;
                        while m < list.len()
                            invariant
                                0 <= m <= list@.len(),
                                list@ == node.child_list_spec(),
                                child_totals@ == child_totals_spec(ws, i as int, *node).take(m as int),
                                fits ==> sum == sum_present(child_totals@),
                                !fits ==> sum_present(child_totals@) > u64::MAX,
                                totals@.len() == i,
                                ws == *self,
                                forall|j2: int, k: PointIndex|
                                    0 <= j2 < i ==> (#[trigger] totals@[j2]@.contains_key(k) <==> (self.layers@[j2].nodes_spec().contains_key(k)
                                        && self.layers@[j2].nodes_spec()[k].plugin_spec() is Some)),
                                forall|j2: int, k: PointIndex|
                                    0 <= j2 < i && #[trigger] totals@[j2]@.contains_key(k) ==> (self.layers@[j2].nodes_spec()[k].plugin_spec()
                                        matches Some(c) && totals@[j2]@[k] == c.total_spec()),
                                self.layers@.len() == old(self).layers@.len(),
                                self.min_scale == old(self).min_scale,
                                0 <= i < self.layers@.len(),
                            decreases list@.len() - m,
                        {
                            let a = list[m];
                            let t: Option<u64> = child_total(&totals, self.min_scale, a);
                            proof {
                                assert(t == child_total_spec(ws, i as int, a));
                            }
                            let ghost before = child_totals@;
                            child_totals.push(t);
                            proof {
                                assert(child_totals@.drop_last() =~= before);
                                assert(child_totals@ =~= child_totals_spec(ws, i as int, *node).take(m as int + 1));
                            }
                            if let Some(t) = t {
                                if fits && sum <= u64::MAX - t {
                                    sum = sum + t;
                                } else {
                                    fits = false;
                                }
                            }
                            m = m + 1;
                        }
                        proof {
                            assert(child_totals@ =~= child_totals_spec(ws, i as int, *node));
                        }
                        let singles = node.singleton_len() as u64;
                        if fits && singles < u64::MAX && sum <= u64::MAX - singles - 1 {
                            GokoCategorical::node_component(&GokoCategorical {}, node, &child_totals)
                        } else {
                            None
                        }
                    },
                    None => None,
                };
                let ghost layers_before = self.layers@;
                let ghost node0 = node_of(self.layers@[i as int], c);
                proof {
                    assert(self.layers@[i as int].nodes_spec().contains_key(c));
                    let t = child_totals_spec(ws, i as int, node0);
                    if sum_present(t) + node0.singletons_spec().len() + 1 <= u64::MAX {
                        assert(component is Some);
                        assert(is_component(component.unwrap(), node0, t));
                    } else {
                        assert(component is None);
                    }
                }
                let ghost comp_some = component is Some;
                let ghost layer_totals_before = layer_totals@;
                match component {
                    Some(cat) => {
                        let total = cat.total();
                        self.layers[i].insert_plugin(c, cat);
                        layer_totals.insert(c, total);
                    },
                    None => {
                        self.layers[i].clear_plugin(c);
                    },
                }
                proof {
                    assert forall|i2: int| 0 <= i2 < self.layers@.len() && i2 != i implies #[trigger] self.layers@[i2] == layers_before[i2] by {}
                    lemma_totals_stable(ws, *self, i as int);
                    let node1 = node_of(self.layers@[i as int], c);
                    assert(same_structure(node1, node0));
                    assert(node1.child_list_spec() == node0.child_list_spec());
                    assert(child_totals_spec(*self, i as int, node1) =~= child_totals_spec(ws, i as int, node0));
                    assert(built(*self, i as int, node1));
                    assert forall|k: PointIndex|
                        #[trigger] layer_totals@.contains_key(k) <==> (centers@.take(j as int + 1).contains(k)
                            && self.layers@[i as int].nodes_spec()[k].plugin_spec() is Some) by {
                        if k != c {
                            assert(centers@.take(j as int + 1).contains(k) == centers@.take(j as int).contains(k));
                            if layers_before[i as int].nodes_spec().contains_key(k) {
                                assert(self.layers@[i as int].nodes_spec()[k] == layers_before[i as int].nodes_spec()[k]);
                            }
                        } else {
                            assert(centers@.take(j as int + 1)[j as int] == c);
                            assert(centers@.take(j as int + 1).contains(c));
                            if comp_some {
                                assert(layer_totals@.contains_key(c));
                            } else {
                                assert(!layer_totals_before.contains_key(c));
                                assert(!layer_totals@.contains_key(c));
                            }
                        }
                    }
                    assert forall|k: PointIndex|
                        #[trigger] layer_totals@.contains_key(k) implies (self.layers@[i as int].nodes_spec()[k].plugin_spec()
                            matches Some(cc) && layer_totals@[k] == cc.total_spec()) by {
                        if k != c {
                            if layers_before[i as int].nodes_spec().contains_key(k) {
                                assert(self.layers@[i as int].nodes_spec()[k] == layers_before[i as int].nodes_spec()[k]);
                            }
                        }
                    }
                    assert forall|i2: int, k: PointIndex|
                        0 <= i2 < self.layers@.len() && #[trigger] old(self).layers@[i2].nodes_spec().contains_key(k)
                            implies same_structure(*self.layers@[i2].nodes_spec()[k], *old(self).layers@[i2].nodes_spec()[k]) by {
                        if i2 != i || k != c {
                            assert(self.layers@[i2].nodes_spec().contains_key(k) == layers_before[i2].nodes_spec().contains_key(k));
                        }
                    }
                    assert forall|j2: int, k: PointIndex|
                        0 <= j2 < i && #[trigger] self.layers@[j2].nodes_spec().contains_key(k) implies built(*self, j2, *self.layers@[j2].nodes_spec()[k]) by {
                        lemma_totals_stable(ws, *self, j2);
                        let n = node_of(self.layers@[j2], k);
                        assert(child_totals_spec(*self, j2, n) =~= child_totals_spec(ws, j2, n));
                    }
                    assert forall|k: PointIndex| #[trigger] centers@.take(j as int + 1).contains(k) implies built(*self, i as int, *self.layers@[i as int].nodes_spec()[k]) by {
                        if k != c {
                            assert(centers@.take(j as int).contains(k));
                            let w = choose|w: int| 0 <= w < j && centers@.take(j as int)[w] == k;
                            assert(centers@[w] == k);
                            assert(centers@.contains(k));
                            assert(layers_before[i as int].nodes_spec().contains_key(k));
                            let n = node_of(self.layers@[i as int], k);
                            assert(n == node_of(layers_before[i as int], k));
                            assert(child_totals_spec(*self, i as int, n) =~= child_totals_spec(ws, i as int, n));
                        }
                    }
                }
                j = j + 1;
            }
            proof {
                assert(centers@.take(j as int) =~= centers@);
                self.layers@[i as int].lemma_shadow_wf();
                assert forall|k: PointIndex| #[trigger] layer_totals@.contains_key(k) <==> (self.layers@[i as int].nodes_spec().contains_key(k)
                    && self.layers@[i as int].nodes_spec()[k].plugin_spec() is Some) by {
                    assert(self.layers@[i as int].nodes_spec().contains_key(k) <==> centers@.contains(k));
                }
                assert forall|k: PointIndex| #[trigger] self.layers@[i as int].nodes_spec().contains_key(k) implies built(*self, i as int, *self.layers@[i as int].nodes_spec()[k]) by {
                    assert(centers@.contains(k));
                }
            }
            let ghost totals_before = totals@;
            totals.push(layer_totals);
            proof {
                assert forall|j2: int| 0 <= j2 < i implies #[trigger] totals@[j2] == totals_before[j2] by {}
            }
            i = i + 1;
        }
    }

    /// The node at `a` in the writer's copy, if there is one.
    pub open spec fn node_spec(&self, a: NodeAddress) -> Option<CoverNode> {
        let off = a.0 - self.min_scale_spec();
        if 0 <= off < self.layers_spec().len() && self.layers_spec()[off].nodes_spec().contains_key(a.1) {
            Some(*self.layers_spec()[off].nodes_spec()[a.1])
        } else {
            None
        }
    }

    /// The number of nodes of each layer of the writer's copy.
    pub open spec fn layer_sizes(&self) -> Seq<nat> {
        self.layers_spec().map_values(|l: CoverLayerWriter| l.centers_spec().len())
    }

    /// A snapshot of the writer's own copy of every layer.
    pub fn snapshot(&self) -> (r: TreeSnapshot)
        requires
            self.wf(),
        ensures
            r.copy_of(*self),
    {
        let mut layers: Vec<Arc<LayerNodes>> = Vec::new();
        let mut i: usize = 0;
        while i < self.layers.len()
            invariant
                self.wf(),
                0 <= i <= self.layers@.len(),
                layers@.len() == i,
                forall|j: int| 0 <= j < i ==> (#[trigger] layers@[j]).wf((self.min_scale + j) as i32)
                    && layers@[j].nodes_spec() == self.layers@[j].nodes_spec()
                    && layers@[j].centers_spec() == self.layers@[j].centers_spec(),
            decreases self.layers@.len() - i,
        {
            proof {
                assert(self.layers@[i as int].wf());
            }
            layers.push(self.layers[i].copy());
            i = i + 1;
        }
        let r = TreeSnapshot { base: Arc::new(self.base.duplicate()), root_address: self.root_address, min_scale: self.min_scale, layers };
        proof {
            assert forall|a: NodeAddress| #[trigger] r.node_spec(a) == self.node_spec(a) by {
                let off = a.0 - self.min_scale;
                if 0 <= off < self.layers@.len() {
                    assert(r.layers@[off].nodes_spec() == self.layers@[off].nodes_spec());
                }
            }
            assert(r.layer_sizes() =~= self.layer_sizes());
        }
        r
    }

    /// What `save` writes for this tree: its radii, its root, and one layer
    /// record per layer, lowest scale first.
    pub open spec fn saved_as(&self, p: CoverTreeProto) -> bool {
        &&& p.scale_min == self.base_spec().min_scale_spec()
        &&& p.scale_radii@ == self.base_spec().radii_spec()
        &&& p.root_scale == self.root_spec().0
        &&& p.root_center_index == self.root_spec().1 as u64
        &&& p.layers@.len() == self.layers_spec().len()
        &&& forall|i: int| 0 <= i < p.layers@.len() ==> (#[trigger] self.layers_spec()[i]).saved_as(p.layers@[i])
    }

    /// The record of this tree.
    pub fn save(&self) -> (r: CoverTreeProto)
        requires
            self.wf(),
        ensures
            self.saved_as(r),
            forall|i: int| 0 <= i < self.layers_spec().len() ==> (#[trigger] self.layers_spec()[i]).shadow_wf(),
    {
        let mut layers: Vec<LayerProto> = Vec::new();
        let mut i: usize = 0;
        while i < self.layers.len()
            invariant
                self.wf(),
                0 <= i <= self.layers@.len(),
                layers@.len() == i,
                forall|j: int| 0 <= j < i ==> (#[trigger] self.layers@[j]).saved_as(layers@[j]) && self.layers@[j].shadow_wf(),
            decreases self.layers@.len() - i,
        {
            proof {
                assert(self.layers@[i as int].wf());
            }
            layers.push(self.layers[i].save());
            i = i + 1;
        }
        CoverTreeProto {
            scale_min: self.base.min_scale(),
            scale_radii: self.base.radii(),
            root_scale: self.root_address.0,
            root_center_index: self.root_address.1 as u64,
            layers,
        }
    }

    /// What `load` builds from a tree record: the same radii and root, and
    /// each layer rebuilt from its record.
    pub open spec fn loaded_from(&self, p: CoverTreeProto) -> bool {
        &&& self.base_spec().min_scale_spec() == p.scale_min
        &&& self.base_spec().radii_spec() == p.scale_radii@
        &&& self.root_spec() == (p.root_scale, p.root_center_index as usize)
        &&& self.layers_spec().len() == p.layers@.len()
        &&& forall|i: int| 0 <= i < p.layers@.len() ==> (#[trigger] self.layers_spec()[i]).loaded_from(p.layers@[i])
    }

    /// Rebuilds a tree from its record, and publishes it. Fails with
    /// `IndexNotInTree` unless the layer records have consecutive scales.
    pub fn load(proto: &CoverTreeProto) -> (r: Result<CoverTreeWriter, GokoError>)
        ensures
            r is Ok <==> forall|j: int|
                0 <= j < proto.layers@.len() ==> (#[trigger] proto.layers@[j]).scale_index == proto.layers@[0].scale_index + j,
            r matches Err(e) ==> e == GokoError::IndexNotInTree,
            r matches Ok(w) ==> w.wf() && w.loaded_from(*proto),
    {
        let ps = &proto.layers;
        let min_scale: i32 = if ps.len() > 0 {
            ps[0].scale_index
        } else {
            proto.root_scale
        };
        let mut layers: Vec<CoverLayerWriter> = Vec::new();
        let mut expected: i64 = min_scale as i64;
        let mut i: usize = 0;
        while i < ps.len()
            invariant
                0 <= i <= ps@.len(),
                layers@.len() == i,
                ps@ == proto.layers@,
                expected == min_scale + i,
                expected <= i32::MAX + 1,
                ps@.len() > 0 ==> min_scale == ps@[0].scale_index,
                forall|j: int| 0 <= j < i ==> (#[trigger] ps@[j]).scale_index == min_scale + j,
                forall|j: int| 0 <= j < i ==> (#[trigger] layers@[j]).wf() && layers@[j].scale_spec() == min_scale + j
                    && layers@[j].loaded_from(ps@[j]),
            decreases ps@.len() - i,
        {
            if ps[i].scale_index as i64 != expected {
                proof {
                    assert(ps@ == proto.layers@);
                    assert(proto.layers@[i as int].scale_index != proto.layers@[0].scale_index + i);
                }
                return Err(GokoError::IndexNotInTree);
            }
            layers.push(CoverLayerWriter::load(&ps[i]));
            expected = expected + 1;
            i = i + 1;
        }
        let base = ScaleBase::new(proto.scale_min, crate::copy_vec(&proto.scale_radii));
        let root_address: NodeAddress = (proto.root_scale, proto.root_center_index as PointIndex);
        Ok(CoverTreeWriter { base, root_address, min_scale, layers })
    }
}

/// No two nodes of a tree share an address: a node's address names its layer
/// (by scale) and its place in the layer (by center).
pub proof fn lemma_addresses_unique(w: CoverTreeWriter, i: int, j: int, ki: PointIndex, kj: PointIndex)
    requires
        w.wf(),
        0 <= i < w.layers_spec().len(),
        0 <= j < w.layers_spec().len(),
        w.layers_spec()[i].nodes_spec().contains_key(ki),
        w.layers_spec()[j].nodes_spec().contains_key(kj),
        w.layers_spec()[i].nodes_spec()[ki].address_spec() == w.layers_spec()[j].nodes_spec()[kj].address_spec(),
    ensures
        i == j,
        ki == kj,
{
    w.layers_spec()[i].lemma_shadow_wf();
    w.layers_spec()[j].lemma_shadow_wf();
}

/// Saving a tree and loading its record gives back the same tree: the same
/// radii and root, and in every layer the same centers, under each a node
/// with the same address, radius, cover count, children and singletons
/// (plugins are not saved).
pub proof fn lemma_tree_save_load(w: CoverTreeWriter, p: CoverTreeProto, v: CoverTreeWriter)
    requires
        forall|i: int| 0 <= i < w.layers_spec().len() ==> (#[trigger] w.layers_spec()[i]).shadow_wf(),
        w.saved_as(p),
        v.loaded_from(p),
    ensures
        v.base_spec().min_scale_spec() == w.base_spec().min_scale_spec(),
        v.base_spec().radii_spec() == w.base_spec().radii_spec(),
        v.root_spec() == w.root_spec(),
        v.layers_spec().len() == w.layers_spec().len(),
        forall|i: int, k: PointIndex|
            0 <= i < w.layers_spec().len() ==> (#[trigger] v.layers_spec()[i].nodes_spec().contains_key(k)
                <==> w.layers_spec()[i].nodes_spec().contains_key(k)),
        forall|i: int, k: PointIndex|
            0 <= i < w.layers_spec().len() && #[trigger] w.layers_spec()[i].nodes_spec().contains_key(k) ==> {
                let a = w.layers_spec()[i].nodes_spec()[k];
                let b = v.layers_spec()[i].nodes_spec()[k];
                &&& b.address_spec() == a.address_spec()
                &&& b.radius_spec() == a.radius_spec()
                &&& b.cover_count_spec() == a.cover_count_spec()
                &&& b.children_spec() == a.children_spec()
                &&& b.singletons_spec() == a.singletons_spec()
            },
{
    assert forall|i: int| 0 <= i < w.layers_spec().len() implies {
        &&& v.layers_spec()[i].scale_spec() == w.layers_spec()[i].scale_spec()
        &&& forall|k: PointIndex| #[trigger] v.layers_spec()[i].nodes_spec().contains_key(k)
            <==> w.layers_spec()[i].nodes_spec().contains_key(k)
        &&& forall|k: PointIndex| #[trigger] w.layers_spec()[i].nodes_spec().contains_key(k) ==> {
            let a = w.layers_spec()[i].nodes_spec()[k];
            let b = v.layers_spec()[i].nodes_spec()[k];
            &&& b.address_spec() == a.address_spec()
            &&& b.radius_spec() == a.radius_spec()
            &&& b.cover_count_spec() == a.cover_count_spec()
            &&& b.children_spec() == a.children_spec()
            &&& b.singletons_spec() == a.singletons_spec()
        }
    } by {
        lemma_layer_save_load(w.layers_spec()[i], p.layers@[i], v.layers_spec()[i]);
    }
}

} // verus!

verus! {

/// The distances from the query to the center of each child other than the
/// self-child.
fn child_distances<D: Fn(PointIndex) -> Distance>(nd: &CoverNode, dist: &D) -> (r: Vec<Distance>)
    requires
        forall|p: PointIndex| dist.requires((p,)),
    ensures
        r@.len() == nd.child_addresses_spec().len(),
        forall|m: int| 0 <= m < r@.len() ==> dist.ensures((nd.child_addresses_spec()[m].1,), #[trigger] r@[m]),
{
    let children: &[NodeAddress] = match nd.children() {
        Some((_, c)) => c,
        None => &[],
    };
    let mut child_dists: Vec<Distance> = Vec::new();
    let mut j: usize = 0;
    while j < children.len()
        invariant
            0 <= j <= children@.len(),
            children@ == nd.child_addresses_spec(),
            child_dists@.len() == j,
            forall|p: PointIndex| dist.requires((p,)),
            forall|m: int| 0 <= m < j ==> dist.ensures((children@[m].1,), #[trigger] child_dists@[m]),
        decreases children@.len() - j,
    {
        child_dists.push(dist(children[j].1));
        j = j + 1;
    }
    child_dists
}

proof fn lemma_frontier_measured<D: Fn(PointIndex) -> Distance>(
    nd: &CoverNode,
    e: QueryAddress,
    dist: D,
    child_dists: Seq<Distance>,
    front0: Seq<QueryAddress>,
    base0: ScaleBase,
    front: Seq<QueryAddress>,
)
    requires
        nd.address_spec() == e.address,
        dist.ensures((e.address.1,), e.dist_to_center),
        child_dists.len() == nd.child_addresses_spec().len(),
        forall|m: int| 0 <= m < child_dists.len() ==> dist.ensures((nd.child_addresses_spec()[m].1,), #[trigger] child_dists[m]),
        forall|i: int| 0 <= i < front0.len() ==> dist.ensures(((#[trigger] front0[i]).address.1,), front0[i].dist_to_center),
        front == front0 + nd.child_frontier(base0, e.dist_to_center, child_dists),
    ensures
        forall|i: int| 0 <= i < front.len() ==> dist.ensures(((#[trigger] front[i]).address.1,), front[i].dist_to_center),
{
    let added = nd.child_frontier(base0, e.dist_to_center, child_dists);
    assert forall|i: int| 0 <= i < front.len() implies dist.ensures(((#[trigger] front[i]).address.1,), front[i].dist_to_center) by {
        if i >= front0.len() {
            let m = i - front0.len();
            assert(front[i] == added[m]);
            if m > 0 {
                assert(added[m] == frontier_entries(base0, nd.child_addresses_spec(), child_dists, Some(nd.address_spec()))[m - 1]);
            }
        } else {
            assert(front[i] == front0[i]);
        }
    }
}

/// Visits `nd`, popped as `e`, in a k-nearest-neighbour search.
fn visit_knn<D: Fn(PointIndex) -> Distance>(
    nd: &CoverNode,
    e: QueryAddress,
    dist: &D,
    heap: &mut KnnQueryHeap,
    offered: Ghost<Set<(Distance, PointIndex)>>,
) -> (r: Ghost<Set<(Distance, PointIndex)>>)
    requires
        nd.address_spec() == e.address,
        dist.ensures((e.address.1,), e.dist_to_center),
        forall|p: PointIndex| dist.requires((p,)),
        old(heap).wf(),
        CoverTreeReader::measured(*old(heap), *dist),
        offered@.finite(),
        holds_best(old(heap).known_spec(), offered@, old(heap).k_spec()),
        forall|x: (Distance, PointIndex)| #[trigger] offered@.contains(x) ==> dist.ensures((x.1,), x.0),
    ensures
        final(heap).wf(),
        final(heap).k_spec() == old(heap).k_spec(),
        CoverTreeReader::measured(*final(heap), *dist),
        r@.finite(),
        holds_best(final(heap).known_spec(), r@, final(heap).k_spec()),
        offered@.subset_of(r@),
        forall|x: (Distance, PointIndex)| #[trigger] r@.contains(x) ==> dist.ensures((x.1,), x.0),
        final(heap).base_spec() == old(heap).base_spec(),
        functional(*dist) ==> final(heap).known_spec() == visit_known(*nd, e, oracle(*dist), old(heap).known_spec(), old(heap).k_spec(), true),
        functional(*dist) ==> final(heap).frontier_spec() == old(heap).frontier_spec() + nd.child_frontier(
            old(heap).base_spec(),
            e.dist_to_center,
            child_dists_of(*nd, oracle(*dist)),
        ),
{
    let singles = nd.singletons();
    let mut singleton_dists: Vec<Distance> = Vec::new();
    let mut j: usize = 0;
    while j < singles.len()
        invariant
            0 <= j <= singles@.len(),
            singleton_dists@.len() == j,
            forall|p: PointIndex| dist.requires((p,)),
            forall|m: int| 0 <= m < j ==> dist.ensures((singles@[m],), #[trigger] singleton_dists@[m]),
        decreases singles@.len() - j,
    {
        singleton_dists.push(dist(singles[j]));
        j = j + 1;
    }
    let child_dists = child_distances(nd, dist);
    let ghost known0 = heap.known_spec();
    let ghost front0 = heap.frontier_spec();
    let ghost base0 = heap.base_spec();
    let ghost k = heap.k_spec();
    proof {
        let after = offer_all(known0, nd.singletons_spec(), singleton_dists@, k, singleton_dists@.len());
        lemma_offer_all_from(known0, nd.singletons_spec(), singleton_dists@, k, singleton_dists@.len());
        crate::query::lemma_bounded_insert_from(after, (e.dist_to_center, nd.address_spec().1), k);
        let bi = bounded_insert(after, (e.dist_to_center, nd.address_spec().1), k);
        lemma_offer_all_from(bi, centers_of(nd.child_addresses_spec()), child_dists@, k, nd.child_addresses_spec().len());
    }
    nd.knn(e.dist_to_center, singleton_dists.as_slice(), child_dists.as_slice(), heap);
    proof {
        let after = offer_all(known0, nd.singletons_spec(), singleton_dists@, k, singleton_dists@.len());
        let bi = bounded_insert(after, (e.dist_to_center, nd.address_spec().1), k);
        assert forall|i: int| 0 <= i < heap.known_spec().len() implies dist.ensures(((#[trigger] heap.known_spec()[i]).1,), heap.known_spec()[i].0) by {
            let y = heap.known_spec()[i];
            assert(heap.known_spec().contains(y));
            if known0.contains(y) {
                let w = choose|w: int| 0 <= w < known0.len() && known0[w] == y;
                assert(dist.ensures((known0[w].1,), known0[w].0));
            }
            if nd.children_spec() is Some {
                if bi.contains(y) && !after.contains(y) {
                    assert(y == (e.dist_to_center, nd.address_spec().1));
                }
                if !bi.contains(y) {
                    let m = choose|m: int| 0 <= m < nd.child_addresses_spec().len() && y == (child_dists@[m], centers_of(nd.child_addresses_spec())[m]);
                    assert(dist.ensures((nd.child_addresses_spec()[m].1,), child_dists@[m]));
                }
            } else {
                if !after.contains(y) {
                    assert(y == (e.dist_to_center, nd.address_spec().1));
                }
            }
        }
        lemma_frontier_measured(nd, e, *dist, child_dists@, front0, base0, heap.frontier_spec());
    }
    let ghost cs = nd.child_addresses_spec();
    let ghost x = (e.dist_to_center, nd.address_spec().1);
    let ghost s1 = offered@.union(offered_set(nd.singletons_spec(), singleton_dists@, singleton_dists@.len()));
    let ghost s2 = s1.insert(x);
    let ghost s3 = s2.union(offered_set(centers_of(cs), child_dists@, cs.len()));
    proof {
        let after = offer_all(known0, nd.singletons_spec(), singleton_dists@, k, singleton_dists@.len());
        let bi = bounded_insert(after, x, k);
        lemma_offer_all_best(known0, offered@, nd.singletons_spec(), singleton_dists@, k, singleton_dists@.len());
        lemma_bounded_insert_best(after, s1, x, k);
        lemma_offer_all_best(bi, s2, centers_of(cs), child_dists@, k, cs.len());
        lemma_offered_set_members(nd.singletons_spec(), singleton_dists@, singleton_dists@.len());
        lemma_offered_set_members(centers_of(cs), child_dists@, cs.len());
        if nd.children_spec() is None {
            assert(cs.len() == 0);
            assert(s3 =~= s2);
            assert(offer_all(bi, centers_of(cs), child_dists@, k, cs.len()) == bi);
        }
        assert forall|y: (Distance, PointIndex)| #[trigger] s3.contains(y) implies dist.ensures((y.1,), y.0) by {
            if offered_set(nd.singletons_spec(), singleton_dists@, singleton_dists@.len()).contains(y) {
                let m = choose|m: int| 0 <= m < singleton_dists@.len() && y == (singleton_dists@[m], nd.singletons_spec()[m]);
                assert(dist.ensures((singles@[m],), singleton_dists@[m]));
            }
            if offered_set(centers_of(cs), child_dists@, cs.len()).contains(y) {
                let m = choose|m: int| 0 <= m < cs.len() && y == (child_dists@[m], centers_of(cs)[m]);
                assert(dist.ensures((cs[m].1,), child_dists@[m]));
            }
        }
        assert(offered@.subset_of(s3));
    }
    proof {
        if functional(*dist) {
            let f = oracle(*dist);
            assert forall|m: int| 0 <= m < singleton_dists@.len() implies f(nd.singletons_spec()[m]) == singleton_dists@[m] by {
                assert(dist.ensures((singles@[m],), singleton_dists@[m]));
            }
            assert(singleton_dists@ =~= nd.singletons_spec().map_values(|p: PointIndex| f(p)));
            assert forall|m: int| 0 <= m < child_dists@.len() implies f(nd.child_addresses_spec()[m].1) == child_dists@[m] by {
                assert(dist.ensures((nd.child_addresses_spec()[m].1,), child_dists@[m]));
            }
            assert(child_dists@ =~= child_dists_of(*nd, f));
        }
    }
    Ghost(s3)
}

/// Visits `nd`, popped as `e`, in a search over node centers alone.
fn visit_routing<D: Fn(PointIndex) -> Distance>(
    nd: &CoverNode,
    e: QueryAddress,
    dist: &D,
    heap: &mut KnnQueryHeap,
    offered: Ghost<Set<(Distance, PointIndex)>>,
) -> (r: Ghost<Set<(Distance, PointIndex)>>)
    requires
        nd.address_spec() == e.address,
        dist.ensures((e.address.1,), e.dist_to_center),
        forall|p: PointIndex| dist.requires((p,)),
        old(heap).wf(),
        CoverTreeReader::measured(*old(heap), *dist),
        offered@.finite(),
        holds_best(old(heap).known_spec(), offered@, old(heap).k_spec()),
        forall|x: (Distance, PointIndex)| #[trigger] offered@.contains(x) ==> dist.ensures((x.1,), x.0),
    ensures
        final(heap).wf(),
        final(heap).k_spec() == old(heap).k_spec(),
        CoverTreeReader::measured(*final(heap), *dist),
        r@.finite(),
        holds_best(final(heap).known_spec(), r@, final(heap).k_spec()),
        offered@.subset_of(r@),
        forall|x: (Distance, PointIndex)| #[trigger] r@.contains(x) ==> dist.ensures((x.1,), x.0),
        final(heap).base_spec() == old(heap).base_spec(),
        functional(*dist) ==> final(heap).known_spec() == visit_known(*nd, e, oracle(*dist), old(heap).known_spec(), old(heap).k_spec(), false),
        functional(*dist) ==> final(heap).frontier_spec() == old(heap).frontier_spec() + nd.child_frontier(
            old(heap).base_spec(),
            e.dist_to_center,
            child_dists_of(*nd, oracle(*dist)),
        ),
{
    let child_dists = child_distances(nd, dist);
    let ghost known0 = heap.known_spec();
    let ghost front0 = heap.frontier_spec();
    let ghost base0 = heap.base_spec();
    let ghost k = heap.k_spec();
    proof {
        crate::query::lemma_bounded_insert_from(known0, (e.dist_to_center, nd.address_spec().1), k);
        let bi = bounded_insert(known0, (e.dist_to_center, nd.address_spec().1), k);
        lemma_offer_all_from(bi, centers_of(nd.child_addresses_spec()), child_dists@, k, nd.child_addresses_spec().len());
    }
    nd.child_knn(e.dist_to_center, child_dists.as_slice(), heap);
    if nd.is_leaf() {
        heap.push_outlier(*nd.center_index(), e.dist_to_center);
    }
    proof {
        let bi = bounded_insert(known0, (e.dist_to_center, nd.address_spec().1), k);
        assert forall|i: int| 0 <= i < heap.known_spec().len() implies dist.ensures(((#[trigger] heap.known_spec()[i]).1,), heap.known_spec()[i].0) by {
            let y = heap.known_spec()[i];
            assert(heap.known_spec().contains(y));
            if known0.contains(y) {
                let w = choose|w: int| 0 <= w < known0.len() && known0[w] == y;
                assert(dist.ensures((known0[w].1,), known0[w].0));
            }
            if !known0.contains(y) {
                if bi.contains(y) {
                    assert(y == (e.dist_to_center, nd.address_spec().1));
                } else {
                    let m = choose|m: int| 0 <= m < nd.child_addresses_spec().len() && y == (child_dists@[m], centers_of(nd.child_addresses_spec())[m]);
                    assert(dist.ensures((nd.child_addresses_spec()[m].1,), child_dists@[m]));
                }
            }
        }
        lemma_frontier_measured(nd, e, *dist, child_dists@, front0, base0, heap.frontier_spec());
    }
    let ghost cs = nd.child_addresses_spec();
    let ghost x = (e.dist_to_center, nd.address_spec().1);
    let ghost s2 = offered@.insert(x);
    let ghost s3 = s2.union(offered_set(centers_of(cs), child_dists@, cs.len()));
    proof {
        let bi = bounded_insert(known0, x, k);
        lemma_bounded_insert_best(known0, offered@, x, k);
        lemma_offer_all_best(bi, s2, centers_of(cs), child_dists@, k, cs.len());
        lemma_offered_set_members(centers_of(cs), child_dists@, cs.len());
        if nd.children_spec() is None {
            assert(cs.len() == 0);
            assert(s3 =~= s2);
            assert(offer_all(bi, centers_of(cs), child_dists@, k, cs.len()) == bi);
        }
        assert forall|y: (Distance, PointIndex)| #[trigger] s3.contains(y) implies dist.ensures((y.1,), y.0) by {
            if offered_set(centers_of(cs), child_dists@, cs.len()).contains(y) {
                let m = choose|m: int| 0 <= m < cs.len() && y == (child_dists@[m], centers_of(cs)[m]);
                assert(dist.ensures((cs[m].1,), child_dists@[m]));
            }
        }
        assert(offered@.subset_of(s3));
    }
    proof {
        if functional(*dist) {
            let f = oracle(*dist);
            assert forall|m: int| 0 <= m < child_dists@.len() implies f(nd.child_addresses_spec()[m].1) == child_dists@[m] by {
                assert(dist.ensures((nd.child_addresses_spec()[m].1,), child_dists@[m]));
            }
            assert(child_dists@ =~= child_dists_of(*nd, f));
        }
    }
    Ghost(s3)
}

} // verus!

verus! {

proof fn lemma_path_from_step<D: Fn(PointIndex) -> Distance>(
    snap: &TreeSnapshot,
    dist: D,
    cur: (Distance, NodeAddress),
    n: CoverNode,
    cd: Seq<Distance>,
    c: Option<(Distance, NodeAddress)>,
    next: Option<(Distance, NodeAddress)>,
)
    requires
        functional(dist),
        snap.node_spec(cur.1) == Some(n),
        measured_children(n, dist, cd),
        n.covering_child_result(snap.base_spec(), cur.0, cd, c),
        next == match c {
            Some(to) => if to.1.0 < cur.1.0 {
                Some(to)
            } else {
                None
            },
            None => None,
        },
    ensures
        snap.path_from(oracle(dist), cur) == match next {
            Some(to) => prepend(seq![cur], snap.path_from(oracle(dist), to)),
            None => Some(seq![cur]),
        },
{
    let f = oracle(dist);
    assert forall|m: int| 0 <= m < cd.len() implies f(n.child_addresses_spec()[m].1) == cd[m] by {
        assert(dist.ensures((n.child_addresses_spec()[m].1,), cd[m]));
    }
    assert(child_dists_of(n, f) =~= cd);
    let r = covering_choice(n, snap.base_spec(), cur.0, cd);
    assert(n.covering_child_result(snap.base_spec(), cur.0, cd, r));
    crate::node::lemma_covering_child_unique(n, snap.base_spec(), cur.0, cd, r, c);
}

} // verus!

verus! {

proof fn lemma_first_min_unique(frontier: Seq<QueryAddress>, i: int)
    requires
        is_first_min(frontier, i),
    ensures
        first_min(frontier) == i,
{
    let j = first_min(frontier);
    assert(is_first_min(frontier, j));
    if j < i {
        assert(qa_lt(frontier[i], frontier[j]));
    } else if i < j {
        assert(qa_lt(frontier[j], frontier[i]));
    }
}

proof fn lemma_child_frontier_base(n: CoverNode, b1: ScaleBase, b2: ScaleBase, d: Distance, cd: Seq<Distance>)
    requires
        b1.min_scale_spec() == b2.min_scale_spec(),
        b1.radii_spec() == b2.radii_spec(),
    ensures
        n.child_frontier(b1, d, cd) == n.child_frontier(b2, d, cd),
{
    if let Some((ns, cs)) = n.children_spec() {
        assert(frontier_entries(b1, cs, cd, Some(n.address_spec())) =~= frontier_entries(b2, cs, cd, Some(n.address_spec())));
        assert(frontier_entry(b1, (ns, n.address_spec().1), d, Some(n.address_spec())) == frontier_entry(b2, (ns, n.address_spec().1), d, Some(n.address_spec())));
    }
}

} // verus!

verus! {

proof fn lemma_search_from_alike(
    s1: &TreeSnapshot,
    s2: &TreeSnapshot,
    f: spec_fn(PointIndex) -> Distance,
    singletons: bool,
    k: nat,
    known: Seq<(Distance, PointIndex)>,
    frontier: Seq<QueryAddress>,
    budget: nat,
)
    requires
        s1.alike(s2),
    ensures
        s1.search_from(f, singletons, k, known, frontier, budget) == s2.search_from(f, singletons, k, known, frontier, budget),
    decreases budget,
{
    if !(budget == 0 || stops(known, frontier, k) || frontier.len() == 0) {
        let i = first_min(frontier);
        let e = frontier[i];
        if s1.node_spec(e.address) is Some {
            let n1 = s1.node_spec(e.address).unwrap();
            let n2 = s2.node_spec(e.address).unwrap();
            assert(same_structure(n1, n2));
            assert(child_dists_of(n1, f) == child_dists_of(n2, f));
            assert(visit_known(n1, e, f, known, k, singletons) == visit_known(n2, e, f, known, k, singletons));
            lemma_child_frontier_base(n1, s1.base_spec(), s2.base_spec(), e.dist_to_center, child_dists_of(n1, f));
            assert(n1.child_frontier(s2.base_spec(), e.dist_to_center, child_dists_of(n1, f)) == n2.child_frontier(
                s2.base_spec(),
                e.dist_to_center,
                child_dists_of(n2, f),
            ));
            lemma_search_from_alike(
                s1,
                s2,
                f,
                singletons,
                k,
                visit_known(n1, e, f, known, k, singletons),
                frontier.remove(i) + n1.child_frontier(s1.base_spec(), e.dist_to_center, child_dists_of(n1, f)),
                (budget - 1) as nat,
            );
        }
    }
}

/// Two snapshots alike in all a query reads answer every k-nearest-neighbour
/// and center search alike: a reloaded tree answers as the saved one did.
pub proof fn lemma_search_alike(s1: &TreeSnapshot, s2: &TreeSnapshot, f: spec_fn(PointIndex) -> Distance, singletons: bool, k: nat)
    requires
        s1.alike(s2),
    ensures
        s1.search_spec(f, singletons, k) == s2.search_spec(f, singletons, k),
{
    let root = s1.root_spec();
    let d0 = f(root.1);
    assert(frontier_entry(s1.base_spec(), root, d0, None) == frontier_entry(s2.base_spec(), root, d0, None));
    assert(seq![frontier_entry(s1.base_spec(), root, d0, None)] == seq![frontier_entry(s2.base_spec(), root, d0, None)]);
    lemma_search_from_alike(s1, s2, f, singletons, k, seq![(d0, root.1)], seq![frontier_entry(s1.base_spec(), root, d0, None)], s1.budget_spec());
}

} // verus!

verus! {

proof fn lemma_covering_choice_alike(n1: CoverNode, n2: CoverNode, b1: ScaleBase, b2: ScaleBase, d: Distance, cd: Seq<Distance>)
    requires
        same_structure(n1, n2),
        b1.min_scale_spec() == b2.min_scale_spec(),
        b1.radii_spec() == b2.radii_spec(),
        cd.len() == n1.child_addresses_spec().len(),
    ensures
        covering_choice(n1, b1, d, cd) == covering_choice(n2, b2, d, cd),
{
    assert forall|a: NodeAddress, x: Distance| covers(b1, a, x) == covers(b2, a, x) by {}
    let cs = n1.child_addresses_spec();
    assert forall|i: int| first_covering(b1, cs, cd, i) == first_covering(b2, cs, cd, i) by {}
    assert forall|r: Option<(Distance, NodeAddress)>|
        n1.covering_child_result(b1, d, cd, r) == n2.covering_child_result(b2, d, cd, r) by {
        if let Some((ns, cs2)) = n1.children_spec() {
            if let Some((dd, aa)) = r {
                if exists|i: int| #[trigger] first_covering(b1, cs2, cd, i) && aa == cs2[i] && dd == cd[i] {
                    let i = choose|i: int| #[trigger] first_covering(b1, cs2, cd, i) && aa == cs2[i] && dd == cd[i];
                    assert(first_covering(b2, cs2, cd, i));
                }
                if exists|i: int| #[trigger] first_covering(b2, cs2, cd, i) && aa == cs2[i] && dd == cd[i] {
                    let i = choose|i: int| #[trigger] first_covering(b2, cs2, cd, i) && aa == cs2[i] && dd == cd[i];
                    assert(first_covering(b1, cs2, cd, i));
                }
            }
        }
    }
    crate::node::lemma_covering_child_exists(n1, b1, d, cd);
    let r1 = covering_choice(n1, b1, d, cd);
    let r2 = covering_choice(n2, b2, d, cd);
    assert(n1.covering_child_result(b1, d, cd, r1));
    assert(n2.covering_child_result(b2, d, cd, r1));
    assert(n2.covering_child_result(b2, d, cd, r2));
    crate::node::lemma_covering_child_unique(n2, b2, d, cd, r1, r2);
}

proof fn lemma_path_from_alike(s1: &TreeSnapshot, s2: &TreeSnapshot, f: spec_fn(PointIndex) -> Distance, cur: (Distance, NodeAddress))
    requires
        s1.alike(s2),
    ensures
        s1.path_from(f, cur) == s2.path_from(f, cur),
    decreases cur.1.0 - i32::MIN,
{
    if s1.node_spec(cur.1) is Some {
        let n1 = s1.node_spec(cur.1).unwrap();
        let n2 = s2.node_spec(cur.1).unwrap();
        assert(child_dists_of(n1, f) == child_dists_of(n2, f));
        lemma_covering_choice_alike(n1, n2, s1.base_spec(), s2.base_spec(), cur.0, child_dists_of(n1, f));
        let c = covering_choice(n1, s1.base_spec(), cur.0, child_dists_of(n1, f));
        if let Some(to) = c {
            if to.1.0 < cur.1.0 {
                lemma_path_from_alike(s1, s2, f, to);
            }
        }
    }
}

/// Two snapshots alike in all a query reads give every query the same
/// covering path: a reloaded tree answers as the saved one did.
pub proof fn lemma_path_alike(s1: &TreeSnapshot, s2: &TreeSnapshot, f: spec_fn(PointIndex) -> Distance)
    requires
        s1.alike(s2),
    ensures
        s1.path_spec(f) == s2.path_spec(f),
{
    lemma_path_from_alike(s1, s2, f, (f(s1.root_spec().1), s1.root_spec()));
}

} // verus!

verus! {

proof fn lemma_totals_stable(w1: CoverTreeWriter, w2: CoverTreeWriter, i: int)
    requires
        w1.min_scale_spec() == w2.min_scale_spec(),
        w1.layers_spec().len() == w2.layers_spec().len(),
        forall|j: int| 0 <= j < i && j < w1.layers_spec().len() ==> #[trigger] w1.layers_spec()[j] == w2.layers_spec()[j],
    ensures
        forall|a: NodeAddress| #[trigger] child_total_spec(w1, i, a) == child_total_spec(w2, i, a),
{
    assert forall|a: NodeAddress| #[trigger] child_total_spec(w1, i, a) == child_total_spec(w2, i, a) by {
        let j = a.0 - w1.min_scale_spec();
        if 0 <= j < i && j < w1.layers_spec().len() {
            assert(w1.layers_spec()[j] == w2.layers_spec()[j]);
        }
    }
}

} // verus!

verus! {

proof fn lemma_same_size(a: Seq<PointIndex>, b: Seq<PointIndex>)
    requires
        a.no_duplicates(),
        b.no_duplicates(),
        forall|k: PointIndex| a.contains(k) <==> b.contains(k),
    ensures
        a.len() == b.len(),
{
    a.unique_seq_to_set();
    b.unique_seq_to_set();
    assert(a.to_set() =~= b.to_set());
}

/// A tree reloaded from the saved form of another answers every query as the
/// other does: on copies of the two writers, every k-nearest-neighbour and
/// center search and every covering path come out the same.
pub proof fn lemma_reload_answers_alike(
    w: CoverTreeWriter,
    p: CoverTreeProto,
    v: CoverTreeWriter,
    sw: &TreeSnapshot,
    sv: &TreeSnapshot,
    f: spec_fn(PointIndex) -> Distance,
    singletons: bool,
    k: nat,
)
    requires
        w.wf(),
        v.wf(),
        w.saved_as(p),
        v.loaded_from(p),
        sw.copy_of(w),
        sv.copy_of(v),
    ensures
        sw.search_spec(f, singletons, k) == sv.search_spec(f, singletons, k),
        sw.path_spec(f) == sv.path_spec(f),
{
    assert forall|i: int| 0 <= i < w.layers_spec().len() implies (#[trigger] w.layers_spec()[i]).shadow_wf() by {
        assert(w.layers_spec()[i].wf());
        w.layers_spec()[i].lemma_shadow_wf();
    }
    lemma_tree_save_load(w, p, v);
    let n = w.layers_spec().len();
    if n > 0 {
        assert(w.layers_spec()[0].saved_as(p.layers@[0]));
        assert(v.layers_spec()[0].loaded_from(p.layers@[0]));
        assert(w.layers_spec()[0].scale_spec() == w.min_scale_spec());
        assert(v.layers_spec()[0].scale_spec() == v.min_scale_spec());
    }
    assert forall|a: NodeAddress| #[trigger] sw.node_spec(a) is Some <==> sv.node_spec(a) is Some by {
        let off = a.0 - w.min_scale_spec();
        if 0 <= off < n {
            assert(v.layers_spec()[off].nodes_spec().contains_key(a.1) <==> w.layers_spec()[off].nodes_spec().contains_key(a.1));
        }
    }
    assert forall|a: NodeAddress| #[trigger] sw.node_spec(a) is Some implies same_structure(sw.node_spec(a).unwrap(), sv.node_spec(a).unwrap()) by {
        let off = a.0 - w.min_scale_spec();
        assert(w.layers_spec()[off].nodes_spec().contains_key(a.1));
    }
    assert forall|i: int| 0 <= i < n implies #[trigger] w.layer_sizes()[i] == v.layer_sizes()[i] by {
        let lw = w.layers_spec()[i];
        let lv = v.layers_spec()[i];
        assert(lv.wf());
        lv.lemma_shadow_wf();
        assert forall|c: PointIndex| lw.centers_spec().contains(c) <==> lv.centers_spec().contains(c) by {
            assert(lw.nodes_spec().contains_key(c) <==> lv.nodes_spec().contains_key(c));
        }
        lemma_same_size(lw.centers_spec(), lv.centers_spec());
    }
    assert(w.layer_sizes() =~= v.layer_sizes());
    sw.lemma_budget_by_sizes(sv);
    assert(sw.alike(sv));
    lemma_search_alike(sw, sv, f, singletons, k);
    lemma_path_alike(sw, sv, f);
}

} // verus!
