//! A layer: the nodes of one scale, keyed by center index. One writer edits a
//! private copy and publishes it whole with `refresh`; readers look nodes up
//! in the last published copy, which they share behind a read-write lock.
use vstd::prelude::*;
use vstd::rwlock::{RwLock, RwLockPredicate};
use std::collections::HashMap;
use std::sync::Arc;
use crate::address::{NodeAddress, PointIndex};
use crate::categorical::Categorical;
use crate::node::CoverNode;
use crate::copy_vec;
use crate::proto::{LayerProto, NodeProto};

verus! {

broadcast use vstd::std_specs::hash::group_hash_axioms;

/// Two nodes alike but for their plugins.
pub open spec fn same_structure(a: CoverNode, b: CoverNode) -> bool {
    &&& a.address_spec() == b.address_spec()
    &&& a.radius_spec() == b.radius_spec()
    &&& a.cover_count_spec() == b.cover_count_spec()
    &&& a.children_spec() == b.children_spec()
    &&& a.singletons_spec() == b.singletons_spec()
}

/// The nodes of a layer by center index, with the centers in insertion order.
pub struct LayerNodes {
    nodes: HashMap<PointIndex, Arc<CoverNode>>,
    centers: Vec<PointIndex>,
}

impl LayerNodes {
    /// The nodes, by center index.
    pub closed spec fn nodes_spec(&self) -> Map<PointIndex, Arc<CoverNode>> {
        self.nodes@
    }

    /// The center indexes, in insertion order.
    pub closed spec fn centers_spec(&self) -> Seq<PointIndex> {
        self.centers@
    }

    /// Each center occurs once and has a node, and the node under center `k`
    /// has the address `(scale_index, k)`.
    pub open spec fn wf(&self, scale_index: i32) -> bool {
        &&& self.centers_spec().no_duplicates()
        &&& forall|k: PointIndex|
            #[trigger] self.nodes_spec().contains_key(k) <==> self.centers_spec().contains(k)
        &&& forall|k: PointIndex|
            #[trigger] self.nodes_spec().contains_key(k) ==> self.nodes_spec()[k].address_spec() == (
                scale_index,
                k,
            )
    }

    /// The node under `pi`, if any.
    pub(crate) fn node_at(&self, pi: PointIndex) -> (r: Option<&CoverNode>)
        ensures
            r matches Some(n) ==> self.nodes_spec().contains_key(pi) && *n == *self.nodes_spec()[pi],
            r is None ==> !self.nodes_spec().contains_key(pi),
    {
        match self.nodes.get(&pi) {
            Some(n) => {
                let node: &CoverNode = n;
                Some(node)
            },
            None => None,
        }
    }

    /// The number of nodes.
    pub fn node_count(&self) -> (r: usize)
        ensures
            r == self.centers_spec().len(),
    {
        self.centers.len()
    }

    /// The center indexes of the nodes, in insertion order.
    pub fn node_center_indexes(&self) -> (r: Vec<PointIndex>)
        ensures
            r@ == self.centers_spec(),
    {
        copy_vec(&self.centers)
    }

    /// Applies `f` to the node under `pi`; `None` exactly when there is none.
    pub fn get_node_and<T, F: FnOnce(&CoverNode) -> T>(&self, pi: PointIndex, f: F) -> (r: Option<T>)
        requires
            self.nodes_spec().contains_key(pi) ==> f.requires((&*self.nodes_spec()[pi],)),
        ensures
            r is None <==> !self.nodes_spec().contains_key(pi),
            r matches Some(t) ==> f.ensures((&*self.nodes_spec()[pi],), t),
    {
        match self.node_at(pi) {
            Some(node) => Some(f(node)),
            None => None,
        }
    }

    /// Applies `transform_fn` to the plugin of the node under `pi`; `None`
    /// exactly when there is no such node or it has no plugin.
    pub fn get_node_plugin_and<S, F: FnOnce(&Categorical) -> S>(&self, pi: PointIndex, transform_fn: F) -> (r: Option<S>)
        requires
            self.nodes_spec().contains_key(pi) ==> (self.nodes_spec()[pi].plugin_spec() matches Some(c)
                ==> transform_fn.requires((&c,))),
        ensures
            r is None <==> !(self.nodes_spec().contains_key(pi) && self.nodes_spec()[pi].plugin_spec() is Some),
            r matches Some(s) ==> (self.nodes_spec()[pi].plugin_spec() matches Some(c) && transform_fn.ensures((&c,), s)),
    {
        match self.node_at(pi) {
            Some(node) => node.get_plugin_and(transform_fn),
            None => None,
        }
    }

    /// Applies `f` to the self-child's address and the other children of the
    /// node under `pi`; `None` exactly when there is no such node or it is a
    /// leaf.
    pub fn get_node_children_and<T, F: FnOnce(NodeAddress, &[NodeAddress]) -> T>(&self, pi: PointIndex, f: F) -> (r: Option<T>)
        requires
            forall|a: NodeAddress, v: &[NodeAddress]| a.1 == pi ==> f.requires((a, v)),
        ensures
            r is None <==> !(self.nodes_spec().contains_key(pi) && self.nodes_spec()[pi].children_spec() is Some),
    {
        match self.node_at(pi) {
            Some(node) => match node.children() {
                Some((si, c)) => Some(f((si, pi), c)),
                None => None,
            },
            None => None,
        }
    }

    fn empty() -> (r: LayerNodes)
        ensures
            r.nodes_spec() == Map::<PointIndex, Arc<CoverNode>>::empty(),
            r.centers_spec() == Seq::<PointIndex>::empty(),
    {
        LayerNodes { nodes: HashMap::new(), centers: Vec::new() }
    }

    /// A copy that shares the nodes.
    fn duplicate(&self) -> (r: LayerNodes)
        ensures
            r.nodes_spec() == self.nodes_spec(),
            r.centers_spec() == self.centers_spec(),
    {
        LayerNodes { nodes: self.nodes.clone(), centers: copy_vec(&self.centers) }
    }
}

/// What a layer's lock holds: a well-formed published copy of the layer.
pub struct LayerPred {
    pub scale_index: i32,
}

impl RwLockPredicate<Arc<LayerNodes>> for LayerPred {
    open spec fn inv(self, v: Arc<LayerNodes>) -> bool {
        v.wf(self.scale_index)
    }
}

/// A read handle on a layer. Every lookup reads the copy published last.
pub struct CoverLayerReader {
    scale_index: i32,
    node_reader: Arc<RwLock<Arc<LayerNodes>, LayerPred>>,
}

impl CoverLayerReader {
    #[verifier::type_invariant]
    spec fn inv(self) -> bool {
        self.node_reader.pred() == LayerPred { scale_index: self.scale_index }
    }

    /// The layer's scale index.
    pub closed spec fn scale_spec(&self) -> i32 {
        self.scale_index
    }

    /// The lock through which the layer is published.
    pub closed spec fn lock_spec(&self) -> RwLock<Arc<LayerNodes>, LayerPred> {
        *self.node_reader
    }

    /// A snapshot of the layer: the copy published last, which stays as it
    /// is while the writer goes on.
    pub fn snapshot(&self) -> (r: Arc<LayerNodes>)
        ensures
            r.wf(self.scale_spec()),
    {
        proof {
            use_type_invariant(self);
        }
        let handle = self.node_reader.acquire_read();
        let snap = handle.borrow().clone();
        handle.release_read();
        snap
    }

    /// Applies `f` to the node centered at `pi`, if the layer has one. The
    /// node that `f` sees has the address `(scale, pi)`.
    pub fn get_node_and<T, F: FnOnce(&CoverNode) -> T>(&self, pi: PointIndex, f: F) -> (r: Option<T>)
        requires
            forall|n: CoverNode| n.address_spec() == (self.scale_spec(), pi) ==> f.requires((&n,)),
        ensures
            r matches Some(t) ==> exists|n: CoverNode|
                n.address_spec() == (self.scale_spec(), pi) && f.ensures((&n,), t),
            exists|snap: LayerNodes|
                #[trigger] snap.wf(self.scale_spec()) && (r is None <==> !snap.nodes_spec().contains_key(pi)) && (r matches Some(
                    t,
                ) ==> f.ensures((&*snap.nodes_spec()[pi],), t)),
    {
        let snap = self.snapshot();
        proof {
            if snap.nodes_spec().contains_key(pi) {
                assert(snap.nodes_spec()[pi].address_spec() == (self.scale_spec(), pi));
            }
        }
        let r = snap.get_node_and(pi, f);
        proof {
            assert(snap.wf(self.scale_spec()));
        }
        r
    }

    /// Applies `transform_fn` to the plugin of the node centered at `pi`, if
    /// the layer has that node and it has a plugin.
    pub fn get_node_plugin_and<S, F: FnOnce(&Categorical) -> S>(&self, center_index: PointIndex, transform_fn: F) -> (r: Option<S>)
        requires
            forall|c: Categorical| transform_fn.requires((&c,)),
        ensures
            r matches Some(s) ==> exists|c: Categorical| transform_fn.ensures((&c,), s),
            exists|snap: LayerNodes|
                #[trigger] snap.wf(self.scale_spec()) && (r is None <==> !(snap.nodes_spec().contains_key(center_index)
                    && snap.nodes_spec()[center_index].plugin_spec() is Some)),
    {
        let snap = self.snapshot();
        let r = snap.get_node_plugin_and(center_index, transform_fn);
        proof {
            assert(snap.wf(self.scale_spec()));
        }
        r
    }

    /// Applies `f` to the address and the children of the node centered at
    /// `pi`, if the layer has that node and it is not a leaf. The address is
    /// that of the self-child.
    pub fn get_node_children_and<T, F: FnOnce(NodeAddress, &[NodeAddress]) -> T>(&self, pi: PointIndex, f: F) -> (r: Option<T>)
        requires
            forall|a: NodeAddress, v: &[NodeAddress]| a.1 == pi ==> f.requires((a, v)),
        ensures
            exists|snap: LayerNodes|
                #[trigger] snap.wf(self.scale_spec()) && (r is None <==> !(snap.nodes_spec().contains_key(pi)
                    && snap.nodes_spec()[pi].children_spec() is Some)),
    {
        let snap = self.snapshot();
        let r = snap.get_node_children_and(pi, f);
        proof {
            assert(snap.wf(self.scale_spec()));
        }
        r
    }

    /// Applies `f` to every node, in insertion order, and collects the results.
    /// The node that `f` sees under `k` has the address `(scale, k)`.
    pub fn map_nodes<T, F: Fn(&PointIndex, &CoverNode) -> T>(&self, f: F) -> (r: Vec<T>)
        requires
            forall|k: PointIndex, n: CoverNode| n.address_spec() == (self.scale_spec(), k) ==> f.requires((&k, &n)),
        ensures
            exists|snap: LayerNodes|
                #[trigger] snap.wf(self.scale_spec()) && r@.len() == snap.centers_spec().len() && forall|i: int|
                    0 <= i < r@.len() ==> f.ensures((&snap.centers_spec()[i], &*snap.nodes_spec()[snap.centers_spec()[i]]), #[trigger] r@[i]),
    {
        let snap = self.snapshot();
        let mut out: Vec<T> = Vec::new();
        let mut i: usize = 0;
        while i < snap.centers.len()
            invariant
                snap.wf(self.scale_spec()),
                0 <= i <= snap.centers@.len(),
                out@.len() == i,
                forall|m: int| 0 <= m < i ==> f.ensures((&snap.centers_spec()[m], &*snap.nodes_spec()[snap.centers_spec()[m]]), #[trigger] out@[m]),
                forall|k: PointIndex, n: CoverNode| n.address_spec() == (self.scale_spec(), k) ==> f.requires((&k, &n)),
            decreases snap.centers@.len() - i,
        {
            let k = snap.centers[i];
            proof {
                assert(snap.centers@.contains(k));
            }
            match snap.node_at(k) {
                Some(node) => {
                    let t = f(&k, node);
                    out.push(t);
                },
                None => {
                    proof {
                        assert(false);
                    }
                },
            }
            i = i + 1;
        }
        proof {
            assert(snap.wf(self.scale_spec()));
        }
        out
    }

    /// Calls `f` on every node, in insertion order. The node that `f` sees
    /// under `k` has the address `(scale, k)`.
    pub fn for_each_node<F: FnMut(&PointIndex, &CoverNode)>(&self, f: F)
        requires
            forall|k: PointIndex, n: CoverNode| n.address_spec() == (self.scale_spec(), k) ==> f.requires((&k, &n)),
    {
        let mut f = f;
        let snap = self.snapshot();
        let mut i: usize = 0;
        while i < snap.centers.len()
            invariant
                snap.wf(self.scale_spec()),
                0 <= i <= snap.centers@.len(),
                forall|k: PointIndex, n: CoverNode| n.address_spec() == (self.scale_spec(), k) ==> f.requires((&k, &n)),
            decreases snap.centers@.len() - i,
        {
            let k = snap.centers[i];
            proof {
                assert(snap.centers@.contains(k));
            }
            match snap.node_at(k) {
                Some(node) => {
                    f(&k, node);
                },
                None => {},
            }
            i = i + 1;
        }
    }

    /// As `for_each_node`, for a closure that may be shared between threads.
    pub fn par_for_each_node<F: FnMut(&PointIndex, &CoverNode) + Send + Sync>(&self, f: F)
        requires
            forall|k: PointIndex, n: CoverNode| n.address_spec() == (self.scale_spec(), k) ==> f.requires((&k, &n)),
    {
        self.for_each_node(f)
    }

    /// As `map_nodes`, for a closure that may be shared between threads.
    pub fn par_map_nodes<T: Send + Sync, F: Fn(&PointIndex, &CoverNode) -> T + Send + Sync>(&self, f: F) -> Vec<T>
        requires
            forall|k: PointIndex, n: CoverNode| n.address_spec() == (self.scale_spec(), k) ==> f.requires((&k, &n)),
    {
        self.map_nodes(f)
    }

    /// The center indexes of the nodes, each once.
    pub fn node_center_indexes(&self) -> (r: Vec<PointIndex>)
        ensures
            r@.no_duplicates(),
            exists|snap: LayerNodes| #[trigger] snap.wf(self.scale_spec()) && r@ == snap.centers_spec(),
    {
        let snap = self.snapshot();
        let r = snap.node_center_indexes();
        proof {
            assert(snap.wf(self.scale_spec()));
        }
        r
    }

    /// The number of nodes.
    pub fn node_count(&self) -> (r: usize)
        ensures
            exists|snap: LayerNodes| #[trigger] snap.wf(self.scale_spec()) && r == snap.centers_spec().len(),
    {
        let snap = self.snapshot();
        let r = snap.node_count();
        proof {
            assert(snap.wf(self.scale_spec()));
        }
        r
    }

    /// The layer's scale index.
    pub fn scale_index(&self) -> (r: i32)
        ensures
            r == self.scale_spec(),
    {
        self.scale_index
    }

    /// Another read handle on the same layer.
    pub fn reader(&self) -> (r: CoverLayerReader)
        ensures
            r.scale_spec() == self.scale_spec(),
            r.lock_spec() == self.lock_spec(),
    {
        proof {
            use_type_invariant(self);
        }
        CoverLayerReader { scale_index: self.scale_index, node_reader: self.node_reader.clone() }
    }
}

/// The write handle on a layer: the writer's own copy of the nodes, and the
/// lock through which it publishes them.
pub struct CoverLayerWriter {
    scale_index: i32,
    shadow: LayerNodes,
    node_writer: Arc<RwLock<Arc<LayerNodes>, LayerPred>>,
}

impl CoverLayerWriter {
    /// The lock publishes copies of this layer's scale, and the writer's copy
    /// is well formed.
    pub closed spec fn wf(&self) -> bool {
        &&& self.node_writer.pred() == LayerPred { scale_index: self.scale_index }
        &&& self.shadow.wf(self.scale_index)
    }

    /// The layer's scale index.
    pub closed spec fn scale_spec(&self) -> i32 {
        self.scale_index
    }

    /// The lock through which the layer is published.
    pub closed spec fn lock_spec(&self) -> RwLock<Arc<LayerNodes>, LayerPred> {
        *self.node_writer
    }

    /// The writer's nodes, by center index.
    pub closed spec fn nodes_spec(&self) -> Map<PointIndex, Arc<CoverNode>> {
        self.shadow.nodes_spec()
    }

    /// The writer's center indexes, in insertion order.
    pub closed spec fn centers_spec(&self) -> Seq<PointIndex> {
        self.shadow.centers_spec()
    }

    /// A well-formed writer's copy is well formed.
    pub proof fn lemma_shadow_wf(&self)
        requires
            self.wf(),
        ensures
            self.shadow_wf(),
    {
    }

    /// The writer's copy is well formed: the node under center `k` has the
    /// address `(scale, k)`, and the centers are those of the nodes, each once.
    pub open spec fn shadow_wf(&self) -> bool {
        &&& self.centers_spec().no_duplicates()
        &&& forall|k: PointIndex|
            #[trigger] self.nodes_spec().contains_key(k) <==> self.centers_spec().contains(k)
        &&& forall|k: PointIndex|
            #[trigger] self.nodes_spec().contains_key(k) ==> self.nodes_spec()[k].address_spec() == (
                self.scale_spec(),
                k,
            )
    }

    /// A read handle on this layer.
    pub fn reader(&self) -> (r: CoverLayerReader)
        requires
            self.wf(),
        ensures
            r.scale_spec() == self.scale_spec(),
            r.lock_spec() == self.lock_spec(),
    {
        CoverLayerReader { scale_index: self.scale_index, node_reader: self.node_writer.clone() }
    }

    /// An empty layer at `scale_index`, published empty.
    pub fn new(scale_index: i32) -> (r: CoverLayerWriter)
        ensures
            r.wf(),
            r.scale_spec() == scale_index,
            r.nodes_spec() == Map::<PointIndex, Arc<CoverNode>>::empty(),
            r.centers_spec() == Seq::<PointIndex>::empty(),
    {
        let published = Arc::new(LayerNodes::empty());
        let lock = RwLock::new(published, Ghost(LayerPred { scale_index }));
        CoverLayerWriter { scale_index, shadow: LayerNodes::empty(), node_writer: Arc::new(lock) }
    }

    /// The layer's scale index.
    pub fn scale_index(&self) -> (r: i32)
        ensures
            r == self.scale_spec(),
    {
        self.scale_index
    }

    /// Puts `node` under `index` in the writer's copy, replacing any node
    /// there; a new center goes at the end of the centers.
    pub fn insert_raw(&mut self, index: PointIndex, node: CoverNode)
        requires
            old(self).wf(),
            node.address_spec() == (old(self).scale_spec(), index),
        ensures
            final(self).wf(),
            final(self).scale_spec() == old(self).scale_spec(),
            final(self).lock_spec() == old(self).lock_spec(),
            final(self).nodes_spec() == old(self).nodes_spec().insert(index, Arc::new(node)),
            final(self).centers_spec() == if old(self).centers_spec().contains(index) {
                old(self).centers_spec()
            } else {
                old(self).centers_spec().push(index)
            },
    {
        let present = self.shadow.nodes.contains_key(&index);
        self.shadow.nodes.insert(index, Arc::new(node));
        proof {
            let scale = self.scale_index;
            assert forall|k: PointIndex| #[trigger] self.shadow.nodes_spec().contains_key(k) implies self.shadow.nodes_spec()[k].address_spec() == (scale, k) by {
                if k != index {
                    assert(old(self).shadow.nodes_spec().contains_key(k));
                }
            }
            if present {
                assert forall|k: PointIndex| #[trigger] self.shadow.nodes_spec().contains_key(k) <==> self.shadow.centers_spec().contains(k) by {
                    assert(old(self).shadow.nodes_spec().contains_key(k) <==> old(self).shadow.centers_spec().contains(k));
                }
            }
        }
        if !present {
            self.shadow.centers.push(index);
            proof {
                let c = self.shadow.centers@;
                let oc = old(self).shadow.centers@;
                assert(c == oc.push(index));
                assert(!old(self).shadow.nodes_spec().contains_key(index));
                assert(!oc.contains(index));
                assert forall|i: int, j: int| 0 <= i < j < c.len() implies c[i] != c[j] by {
                    assert(c[i] == oc[i]);
                    if j == c.len() - 1 {
                        assert(oc.contains(c[i]));
                    } else {
                        assert(c[j] == oc[j]);
                    }
                }
                assert forall|k: PointIndex| #[trigger] self.shadow.nodes_spec().contains_key(k) <==> c.contains(k) by {
                    assert(old(self).shadow.nodes_spec().contains_key(k) <==> oc.contains(k));
                    if k != index && old(self).shadow.centers@.contains(k) {
                        let w = choose|w: int| 0 <= w < old(self).shadow.centers@.len() && old(self).shadow.centers@[w] == k;
                        assert(c[w] == k);
                    }
                    if c.contains(k) && k != index {
                        let w = choose|w: int| 0 <= w < c.len() && c[w] == k;
                        assert(old(self).shadow.centers@[w] == k);
                    }
                    if k == index {
                        assert(c[c.len() - 1] == k);
                    }
                }
            }
        }
    }

    /// The node under `pi` in the writer's copy, if there is one.
    pub fn node(&self, pi: PointIndex) -> (r: Option<&CoverNode>)
        ensures
            r matches Some(n) ==> self.nodes_spec().contains_key(pi) && *n == *self.nodes_spec()[pi],
            r is None ==> !self.nodes_spec().contains_key(pi),
    {
        self.shadow.node_at(pi)
    }

    /// The centers of the writer's copy, in insertion order.
    pub fn centers(&self) -> (r: Vec<PointIndex>)
        ensures
            r@ == self.centers_spec(),
    {
        copy_vec(&self.shadow.centers)
    }

    /// Attaches `plugin` to the node under `pi`, if there is one, changing
    /// nothing else.
    pub fn insert_plugin(&mut self, pi: PointIndex, plugin: Categorical)
        requires
            old(self).wf(),
        ensures
            final(self).wf(),
            final(self).scale_spec() == old(self).scale_spec(),
            final(self).lock_spec() == old(self).lock_spec(),
            final(self).centers_spec() == old(self).centers_spec(),
            forall|k: PointIndex| #[trigger] final(self).nodes_spec().contains_key(k) == old(self).nodes_spec().contains_key(k),
            forall|k: PointIndex|
                #[trigger] old(self).nodes_spec().contains_key(k) && k != pi ==> final(self).nodes_spec()[k] == old(self).nodes_spec()[k],
            old(self).nodes_spec().contains_key(pi) ==> same_structure(*final(self).nodes_spec()[pi], *old(self).nodes_spec()[pi])
                && final(self).nodes_spec()[pi].plugin_spec() == Some(plugin),
    {
        let updated = match self.shadow.node_at(pi) {
            Some(node) => {
                let mut copy = node.clone();
                copy.insert_plugin(plugin);
                Some(copy)
            },
            None => None,
        };
        if let Some(m) = updated {
            self.shadow.nodes.insert(pi, Arc::new(m));
        }
    }

    /// A copy of the writer's nodes, as a snapshot.
    pub fn copy(&self) -> (r: Arc<LayerNodes>)
        requires
            self.wf(),
        ensures
            r.wf(self.scale_spec()),
            r.nodes_spec() == self.nodes_spec(),
            r.centers_spec() == self.centers_spec(),
    {
        Arc::new(self.shadow.duplicate())
    }

    /// Takes the plugin off the node under `pi`, if there is one, changing
    /// nothing else.
    pub fn clear_plugin(&mut self, pi: PointIndex)
        requires
            old(self).wf(),
        ensures
            final(self).wf(),
            final(self).scale_spec() == old(self).scale_spec(),
            final(self).lock_spec() == old(self).lock_spec(),
            final(self).centers_spec() == old(self).centers_spec(),
            forall|k: PointIndex| #[trigger] final(self).nodes_spec().contains_key(k) == old(self).nodes_spec().contains_key(k),
            forall|k: PointIndex|
                #[trigger] old(self).nodes_spec().contains_key(k) && k != pi ==> final(self).nodes_spec()[k] == old(self).nodes_spec()[k],
            old(self).nodes_spec().contains_key(pi) ==> same_structure(*final(self).nodes_spec()[pi], *old(self).nodes_spec()[pi])
                && final(self).nodes_spec()[pi].plugin_spec() is None,
    {
        let updated = match self.shadow.node_at(pi) {
            Some(node) => Some(node.clone()),
            None => None,
        };
        if let Some(m) = updated {
            self.shadow.nodes.insert(pi, Arc::new(m));
        }
    }

    /// Replaces the node under `pi`, if there is one, by what `update_fn`
    /// makes of it; `update_fn` keeps the address.
    pub fn update_node<F: FnOnce(&CoverNode) -> CoverNode>(&mut self, pi: PointIndex, update_fn: F)
        requires
            old(self).wf(),
            forall|n: CoverNode| n.address_spec() == (old(self).scale_spec(), pi) ==> update_fn.requires((&n,)),
            forall|n: CoverNode, m: CoverNode| update_fn.ensures((&n,), m) ==> m.address_spec() == n.address_spec(),
        ensures
            final(self).wf(),
            final(self).scale_spec() == old(self).scale_spec(),
            final(self).lock_spec() == old(self).lock_spec(),
            final(self).centers_spec() == old(self).centers_spec(),
            !old(self).nodes_spec().contains_key(pi) ==> final(self).nodes_spec() == old(self).nodes_spec(),
            old(self).nodes_spec().contains_key(pi) ==> exists|m: CoverNode|
                update_fn.ensures((&*old(self).nodes_spec()[pi],), m) && final(self).nodes_spec()
                    == old(self).nodes_spec().insert(pi, Arc::new(m)),
    {
        let updated = match self.shadow.node_at(pi) {
            Some(node) => Some(update_fn(node)),
            None => None,
        };
        if let Some(m) = updated {
            self.shadow.nodes.insert(pi, Arc::new(m));
        }
    }

    /// Publishes the writer's copy: every lookup that starts after this sees
    /// all of it.
    pub fn refresh(&mut self)
        requires
            old(self).wf(),
        ensures
            final(self).wf(),
            final(self).scale_spec() == old(self).scale_spec(),
            final(self).lock_spec() == old(self).lock_spec(),
            final(self).nodes_spec() == old(self).nodes_spec(),
            final(self).centers_spec() == old(self).centers_spec(),
    {
        let published = Arc::new(self.shadow.duplicate());
        let (_previous, handle) = self.node_writer.acquire_write();
        handle.release_write(published);
    }

    /// What `save` writes for this layer: its scale, and one record per node
    /// in the order of the centers.
    pub open spec fn saved_as(&self, p: LayerProto) -> bool {
        &&& p.scale_index == self.scale_spec()
        &&& p.nodes@.len() == self.centers_spec().len()
        &&& forall|i: int|
            0 <= i < p.nodes@.len() ==> self.nodes_spec()[self.centers_spec()[i]].saved_as(
                #[trigger] p.nodes@[i],
            )
    }

    /// The record of this layer.
    pub fn save(&self) -> (r: LayerProto)
        requires
            self.wf(),
        ensures
            self.saved_as(r),
            self.shadow_wf(),
    {
        let mut node_protos: Vec<NodeProto> = Vec::new();
        let mut i: usize = 0;
        while i < self.shadow.centers.len()
            invariant
                self.shadow.wf(self.scale_index),
                0 <= i <= self.centers_spec().len(),
                node_protos@.len() == i,
                forall|j: int|
                    0 <= j < i ==> self.nodes_spec()[self.centers_spec()[j]].saved_as(
                        #[trigger] node_protos@[j],
                    ),
            decreases self.centers_spec().len() - i,
        {
            let k = self.shadow.centers[i];
            proof {
                assert(self.shadow.centers@.contains(k));
            }
            match self.shadow.node_at(k) {
                Some(node) => {
                    node_protos.push(node.save());
                },
                None => {},
            }
            i = i + 1;
        }
        LayerProto { scale_index: self.scale_index, nodes: node_protos }
    }

    /// What `load` builds from a layer record whose nodes have distinct
    /// centers: one node per record, under its center, rebuilt from it.
    pub open spec fn loaded_from(&self, p: LayerProto) -> bool {
        &&& self.scale_spec() == p.scale_index
        &&& distinct_centers(p.nodes@) ==> {
            &&& forall|k: PointIndex|
                #[trigger] self.nodes_spec().contains_key(k) <==> exists|i: int|
                    0 <= i < p.nodes@.len() && (#[trigger] p.nodes@[i]).center_index as usize == k
            &&& forall|i: int|
                0 <= i < p.nodes@.len() ==> self.nodes_spec()[(#[trigger] p.nodes@[i]).center_index as usize].loaded_from(
                    p.scale_index,
                    p.nodes@[i],
                )
        }
    }

    /// Rebuilds a layer from its record, and publishes it.
    pub fn load(layer_proto: &LayerProto) -> (r: CoverLayerWriter)
        ensures
            r.wf(),
            r.loaded_from(*layer_proto),
    {
        let scale_index = layer_proto.scale_index;
        let ghost ps = layer_proto.nodes@;
        let mut writer = CoverLayerWriter::new(scale_index);
        let mut i: usize = 0;
        while i < layer_proto.nodes.len()
            invariant
                ps == layer_proto.nodes@,
                0 <= i <= ps.len(),
                writer.wf(),
                writer.scale_spec() == scale_index,
                forall|k: PointIndex|
                    #[trigger] writer.nodes_spec().contains_key(k) <==> exists|j: int|
                        0 <= j < i && (#[trigger] ps[j]).center_index as usize == k,
                distinct_centers(ps) ==> forall|j: int|
                    0 <= j < i ==> writer.nodes_spec()[(#[trigger] ps[j]).center_index as usize].loaded_from(
                        scale_index,
                        ps[j],
                    ),
            decreases ps.len() - i,
        {
            let node_proto = &layer_proto.nodes[i];
            let index = node_proto.center_index as PointIndex;
            let node = CoverNode::load(scale_index, node_proto);
            let ghost before = writer.nodes_spec();
            writer.insert_raw(index, node);
            proof {
                assert forall|k: PointIndex|
                    #[trigger] writer.nodes_spec().contains_key(k) <==> exists|j: int|
                        0 <= j < i + 1 && (#[trigger] ps[j]).center_index as usize == k by {
                    if k == index {
                        assert(ps[i as int].center_index as usize == k);
                    } else if before.contains_key(k) {
                        let j = choose|j: int| 0 <= j < i && (#[trigger] ps[j]).center_index as usize == k;
                        assert(0 <= j < i + 1 && ps[j].center_index as usize == k);
                    } else if exists|j: int| 0 <= j < i + 1 && (#[trigger] ps[j]).center_index as usize == k {
                        let j = choose|j: int| 0 <= j < i + 1 && (#[trigger] ps[j]).center_index as usize == k;
                        assert(j < i ==> before.contains_key(k));
                    }
                }
                if distinct_centers(ps) {
                    assert forall|j: int|
                        0 <= j < i + 1 implies writer.nodes_spec()[(#[trigger] ps[j]).center_index as usize].loaded_from(
                            scale_index,
                            ps[j],
                        ) by {
                        if j < i {
                            assert(ps[j].center_index as usize != ps[i as int].center_index as usize);
                        }
                    }
                }
            }
            i = i + 1;
        }
        writer.refresh();
        writer
    }
}

/// No two records name the same center.
pub open spec fn distinct_centers(ps: Seq<NodeProto>) -> bool {
    forall|i: int, j: int|
        0 <= i < j < ps.len() ==> (#[trigger] ps[i]).center_index as usize != (#[trigger] ps[j]).center_index as usize
}

} // verus!

verus! {

/// Saving a layer and loading its record gives back the same layer: the same
/// scale, the same centers, and under each center a node with the same
/// address, radius, cover count, children and singletons (plugins are not
/// saved).
pub proof fn lemma_layer_save_load(w: CoverLayerWriter, p: LayerProto, v: CoverLayerWriter)
    requires
        w.shadow_wf(),
        w.saved_as(p),
        v.loaded_from(p),
    ensures
        v.scale_spec() == w.scale_spec(),
        forall|k: PointIndex| #[trigger] v.nodes_spec().contains_key(k) <==> w.nodes_spec().contains_key(k),
        forall|k: PointIndex|
            #[trigger] w.nodes_spec().contains_key(k) ==> {
                let a = w.nodes_spec()[k];
                let b = v.nodes_spec()[k];
                &&& b.address_spec() == a.address_spec()
                &&& b.radius_spec() == a.radius_spec()
                &&& b.cover_count_spec() == a.cover_count_spec()
                &&& b.children_spec() == a.children_spec()
                &&& b.singletons_spec() == a.singletons_spec()
            },
{
    let c = w.centers_spec();
    let ps = p.nodes@;
    assert forall|i: int| 0 <= i < ps.len() implies (#[trigger] ps[i]).center_index as usize == c[i] by {
        assert(w.nodes_spec().contains_key(c[i]));
        assert(w.nodes_spec()[c[i]].saved_as(ps[i]));
    }
    assert(distinct_centers(ps)) by {
        assert forall|i: int, j: int| 0 <= i < j < ps.len() implies (#[trigger] ps[i]).center_index as usize
            != (#[trigger] ps[j]).center_index as usize by {
            assert(ps[i].center_index as usize == c[i]);
            assert(ps[j].center_index as usize == c[j]);
        }
    }
    assert forall|k: PointIndex| #[trigger] v.nodes_spec().contains_key(k) <==> w.nodes_spec().contains_key(k) by {
        if v.nodes_spec().contains_key(k) {
            let i = choose|i: int| 0 <= i < ps.len() && (#[trigger] ps[i]).center_index as usize == k;
            assert(c[i] == k);
            assert(c.contains(k));
        }
        if w.nodes_spec().contains_key(k) {
            assert(c.contains(k));
            let i = choose|i: int| 0 <= i < c.len() && c[i] == k;
            assert(ps[i].center_index as usize == k);
        }
    }
    assert forall|k: PointIndex| #[trigger] w.nodes_spec().contains_key(k) implies {
        let a = w.nodes_spec()[k];
        let b = v.nodes_spec()[k];
        &&& b.address_spec() == a.address_spec()
        &&& b.radius_spec() == a.radius_spec()
        &&& b.cover_count_spec() == a.cover_count_spec()
        &&& b.children_spec() == a.children_spec()
        &&& b.singletons_spec() == a.singletons_spec()
    } by {
        assert(c.contains(k));
        let i = choose|i: int| 0 <= i < c.len() && c[i] == k;
        assert(ps[i].center_index as usize == k);
        assert(w.nodes_spec()[k].saved_as(ps[i]));
        assert(v.nodes_spec()[k].loaded_from(p.scale_index, ps[i]));
        crate::node::lemma_node_save_load(*w.nodes_spec()[k], ps[i], *v.nodes_spec()[k]);
    }
}

} // verus!
