//! The query heap: a bounded list of the best candidates found so far, and a
//! frontier of nodes still to visit, ordered by a lower bound on the distance
//! from the query to anything they cover.
use vstd::prelude::*;
use crate::address::{Distance, NodeAddress, PointIndex};
use crate::copy_vec;
use crate::scale::ScaleBase;

verus! {

/// Order on candidates: by distance, then by point index.
pub open spec fn cand_lt(a: (Distance, PointIndex), b: (Distance, PointIndex)) -> bool {
    a.0 < b.0 || (a.0 == b.0 && a.1 < b.1)
}

/// Position at which `x` enters a candidate list: after every entry that does
/// not exceed it.
pub open spec fn insert_pos(s: Seq<(Distance, PointIndex)>, x: (Distance, PointIndex)) -> nat
    decreases s.len(),
{
    if s.len() == 0 {
        0
    } else if cand_lt(x, s[0]) {
        0
    } else {
        1 + insert_pos(s.drop_first(), x)
    }
}

/// The candidate list after offering `x`, keeping at most `k` entries. A
/// candidate already held is not added twice.
pub open spec fn bounded_insert(s: Seq<(Distance, PointIndex)>, x: (Distance, PointIndex), k: nat) -> Seq<
    (Distance, PointIndex),
> {
    let p = insert_pos(s, x) as int;
    let t = s.insert(p, x);
    if p > 0 && s[p - 1] == x {
        s
    } else if t.len() > k {
        t.take(k as int)
    } else {
        t
    }
}

/// The candidate list after offering the first `n` pairs `(dists[i], indexes[i])`
/// in order.
pub open spec fn offer_all(
    s: Seq<(Distance, PointIndex)>,
    indexes: Seq<PointIndex>,
    dists: Seq<Distance>,
    k: nat,
    n: nat,
) -> Seq<(Distance, PointIndex)>
    decreases n,
{
    if n == 0 {
        s
    } else {
        bounded_insert(
            offer_all(s, indexes, dists, k, (n - 1) as nat),
            (dists[n - 1], indexes[n - 1]),
            k,
        )
    }
}

/// The center of each address.
pub open spec fn centers_of(addresses: Seq<NodeAddress>) -> Seq<PointIndex> {
    addresses.map_values(|a: NodeAddress| a.1)
}

/// Candidates in non-decreasing order.
pub open spec fn cands_sorted(s: Seq<(Distance, PointIndex)>) -> bool {
    forall|i: int, j: int| 0 <= i < j < s.len() ==> !cand_lt(#[trigger] s[j], #[trigger] s[i])
}

proof fn lemma_insert_pos(s: Seq<(Distance, PointIndex)>, x: (Distance, PointIndex), i: int)
    requires
        0 <= i <= s.len(),
        forall|j: int| 0 <= j < i ==> !cand_lt(x, #[trigger] s[j]),
        i == s.len() || cand_lt(x, s[i]),
    ensures
        insert_pos(s, x) == i,
    decreases i,
{
    if i > 0 {
        let d = s.drop_first();
        assert forall|j: int| 0 <= j < i - 1 implies !cand_lt(x, #[trigger] d[j]) by {
            assert(d[j] == s[j + 1]);
        }
        if i < s.len() {
            assert(d[i - 1] == s[i]);
        }
        lemma_insert_pos(d, x, i - 1);
    }
}

/// A node waiting on the frontier.
#[derive(Debug, Clone, Copy)]
pub struct QueryAddress {
    /// `max(0, dist_to_center - radius(scale))`: no point the node covers is closer.
    pub lower_bound: Distance,
    /// Distance from the query to the node's center.
    pub dist_to_center: Distance,
    /// The node.
    pub address: NodeAddress,
    /// The node that pushed it, for nodes other than a self-child.
    pub parent: Option<NodeAddress>,
}

/// Frontier order: by lower bound, then distance to center, then scale (the
/// deeper node first), then center index.
pub open spec fn qa_lt(a: QueryAddress, b: QueryAddress) -> bool {
    ||| a.lower_bound < b.lower_bound
    ||| a.lower_bound == b.lower_bound && a.dist_to_center < b.dist_to_center
    ||| a.lower_bound == b.lower_bound && a.dist_to_center == b.dist_to_center && a.address.0
        < b.address.0
    ||| a.lower_bound == b.lower_bound && a.dist_to_center == b.dist_to_center && a.address.0
        == b.address.0 && a.address.1 < b.address.1
}

fn qa_less(a: &QueryAddress, b: &QueryAddress) -> (r: bool)
    ensures
        r == qa_lt(*a, *b),
{
    a.lower_bound < b.lower_bound || (a.lower_bound == b.lower_bound && (a.dist_to_center
        < b.dist_to_center || (a.dist_to_center == b.dist_to_center && (a.address.0 < b.address.0
        || (a.address.0 == b.address.0 && a.address.1 < b.address.1)))))
}

/// The frontier entry for a node at `address` whose center is `d` away.
pub open spec fn frontier_entry(
    base: ScaleBase,
    address: NodeAddress,
    d: Distance,
    parent: Option<NodeAddress>,
) -> QueryAddress {
    QueryAddress {
        lower_bound: if d < base.radius_spec(address.0) {
            0
        } else {
            (d - base.radius_spec(address.0)) as u64
        },
        dist_to_center: d,
        address,
        parent,
    }
}

/// The frontier entries for the nodes `addresses[i]` at distances `dists[i]`.
pub open spec fn frontier_entries(
    base: ScaleBase,
    addresses: Seq<NodeAddress>,
    dists: Seq<Distance>,
    parent: Option<NodeAddress>,
) -> Seq<QueryAddress> {
    Seq::new(addresses.len(), |i: int| frontier_entry(base, addresses[i], dists[i], parent))
}

/// The query heap of a k-nearest-neighbour search.
#[derive(Debug, Clone)]
pub struct KnnQueryHeap {
    k: usize,
    base: ScaleBase,
    known: Vec<(Distance, PointIndex)>,
    frontier: Vec<QueryAddress>,
}

impl KnnQueryHeap {
    /// The number of neighbours sought.
    pub closed spec fn k_spec(&self) -> nat {
        self.k as nat
    }

    /// The covering radii used for lower bounds.
    pub closed spec fn base_spec(&self) -> ScaleBase {
        self.base
    }

    /// The best candidates so far, closest first.
    pub closed spec fn known_spec(&self) -> Seq<(Distance, PointIndex)> {
        self.known@
    }

    /// The nodes not yet visited, in the order they were pushed.
    pub closed spec fn frontier_spec(&self) -> Seq<QueryAddress> {
        self.frontier@
    }

    /// At least one neighbour is sought, and the candidates are sorted and
    /// at most `k`.
    pub open spec fn wf(&self) -> bool {
        &&& self.k_spec() > 0
        &&& self.known_spec().len() <= self.k_spec()
        &&& cands_sorted(self.known_spec())
    }

    /// An empty heap that seeks `k` neighbours, with the radii of `base`.
    pub fn new(k: usize, base: ScaleBase) -> (r: KnnQueryHeap)
        requires
            k > 0,
        ensures
            r.wf(),
            r.k_spec() == k,
            r.base_spec() == base,
            r.known_spec() == Seq::<(Distance, PointIndex)>::empty(),
            r.frontier_spec() == Seq::<QueryAddress>::empty(),
    {
        KnnQueryHeap { k, base, known: Vec::new(), frontier: Vec::new() }
    }

    /// Offers one candidate.
    pub fn push_outlier(&mut self, pi: PointIndex, d: Distance)
        requires
            old(self).wf(),
        ensures
            final(self).wf(),
            final(self).known_spec() == bounded_insert(
                old(self).known_spec(),
                (d, pi),
                old(self).k_spec(),
            ),
            final(self).k_spec() == old(self).k_spec(),
            final(self).base_spec() == old(self).base_spec(),
            final(self).frontier_spec() == old(self).frontier_spec(),
    {
        let ghost s = self.known@;
        let x = (d, pi);
        let mut i: usize = 0;
        while i < self.known.len()
            invariant
                s == self.known@,
                x == (d, pi),
                0 <= i <= s.len(),
                forall|j: int| 0 <= j < i ==> !cand_lt(x, #[trigger] s[j]),
            ensures
                0 <= i <= s.len(),
                forall|j: int| 0 <= j < i ==> !cand_lt(x, #[trigger] s[j]),
                i == s.len() || cand_lt(x, s[i as int]),
            decreases s.len() - i,
        {
            let c = self.known[i];
            if d < c.0 || (d == c.0 && pi < c.1) {
                break;
            }
            i = i + 1;
        }
        proof {
            lemma_insert_pos(s, x, i as int);
        }
        if i > 0 && self.known[i - 1].0 == d && self.known[i - 1].1 == pi {
            return;
        }
        if i < self.k {
            self.known.insert(i, x);
            let ghost t = self.known@;
            proof {
                assert forall|a: int, b: int| 0 <= a < b < t.len() implies !cand_lt(
                    #[trigger] t[b],
                    #[trigger] t[a],
                ) by {
                    if b < i {
                    } else if b == i {
                        assert(t[a] == s[a]);
                    } else if a < i {
                        assert(t[b] == s[b - 1]);
                        if b - 1 > i {
                            assert(!cand_lt(s[b - 1], s[i as int]));
                        }
                    } else if a == i {
                        assert(t[b] == s[b - 1]);
                        if b - 1 > i {
                            assert(!cand_lt(s[b - 1], s[i as int]));
                        }
                    } else {
                        assert(t[a] == s[a - 1] && t[b] == s[b - 1]);
                    }
                }
            }
            if self.known.len() > self.k {
                self.known.pop();
                proof {
                    assert(self.known@ =~= t.take(self.k as int));
                }
            }
        } else {
            proof {
                assert(s.insert(i as int, x).take(self.k as int) =~= s);
            }
        }
    }

    /// Offers the candidates `(dists[i], indexes[i])` in order.
    pub fn push_outliers(&mut self, indexes: &[PointIndex], dists: &[Distance])
        requires
            old(self).wf(),
            indexes.len() == dists.len(),
        ensures
            final(self).wf(),
            final(self).known_spec() == offer_all(
                old(self).known_spec(),
                indexes@,
                dists@,
                old(self).k_spec(),
                indexes.len() as nat,
            ),
            final(self).k_spec() == old(self).k_spec(),
            final(self).base_spec() == old(self).base_spec(),
            final(self).frontier_spec() == old(self).frontier_spec(),
    {
        let ghost s0 = self.known@;
        let mut i: usize = 0;
        while i < indexes.len()
            invariant
                self.wf(),
                0 <= i <= indexes.len(),
                indexes.len() == dists.len(),
                self.k_spec() == old(self).k_spec(),
                self.base_spec() == old(self).base_spec(),
                self.frontier_spec() == old(self).frontier_spec(),
                s0 == old(self).known_spec(),
                self.known_spec() == offer_all(s0, indexes@, dists@, self.k_spec(), i as nat),
            decreases indexes.len() - i,
        {
            self.push_outlier(indexes[i], dists[i]);
            i = i + 1;
        }
    }

    /// Pushes the nodes `addresses[i]`, whose centers are `dists[i]` away, onto
    /// the frontier, each with `parent`, and offers each center as a candidate.
    pub fn push_nodes(
        &mut self,
        addresses: &[NodeAddress],
        dists: &[Distance],
        parent: Option<NodeAddress>,
    )
        requires
            old(self).wf(),
            addresses.len() == dists.len(),
        ensures
            final(self).wf(),
            final(self).frontier_spec() == old(self).frontier_spec() + frontier_entries(
                old(self).base_spec(),
                addresses@,
                dists@,
                parent,
            ),
            final(self).k_spec() == old(self).k_spec(),
            final(self).base_spec() == old(self).base_spec(),
            final(self).known_spec() == offer_all(
                old(self).known_spec(),
                centers_of(addresses@),
                dists@,
                old(self).k_spec(),
                addresses.len() as nat,
            ),
    {
        let ghost f0 = self.frontier@;
        let mut i: usize = 0;
        while i < addresses.len()
            invariant
                0 <= i <= addresses.len(),
                addresses.len() == dists.len(),
                self.wf(),
                self.k == old(self).k,
                self.base == old(self).base,
                self.known@ == offer_all(
                    old(self).known@,
                    centers_of(addresses@),
                    dists@,
                    self.k as nat,
                    i as nat,
                ),
                f0 == old(self).frontier@,
                self.frontier@ == f0 + frontier_entries(
                    self.base,
                    addresses@.take(i as int),
                    dists@.take(i as int),
                    parent,
                ),
            decreases addresses.len() - i,
        {
            let a = addresses[i];
            let d = dists[i];
            let r = self.base.radius(a.0);
            let lb: Distance = if d < r {
                0
            } else {
                d - r
            };
            self.push_outlier(a.1, d);
            self.frontier.push(QueryAddress { lower_bound: lb, dist_to_center: d, address: a, parent });
            proof {
                assert(self.frontier@ =~= f0 + frontier_entries(
                    self.base,
                    addresses@.take(i as int + 1),
                    dists@.take(i as int + 1),
                    parent,
                ));
            }
            i = i + 1;
        }
        proof {
            assert(addresses@.take(i as int) =~= addresses@);
            assert(dists@.take(i as int) =~= dists@);
        }
    }

    /// Removes and returns the frontier entry that comes first in the frontier
    /// order (the earliest pushed among equals); `None` when the frontier is empty.
    pub fn pop_closest_unvisited(&mut self) -> (r: Option<QueryAddress>)
        ensures
            final(self).k_spec() == old(self).k_spec(),
            final(self).base_spec() == old(self).base_spec(),
            final(self).known_spec() == old(self).known_spec(),
            old(self).frontier_spec().len() == 0 <==> r is None,
            r matches Some(e) ==> exists|i: int|
                0 <= i < old(self).frontier_spec().len() && old(self).frontier_spec()[i] == e
                    && final(self).frontier_spec() == old(self).frontier_spec().remove(i) && (forall|
                    j: int,
                |
                    0 <= j < old(self).frontier_spec().len() ==> !qa_lt(
                        #[trigger] old(self).frontier_spec()[j],
                        e,
                    )) && (forall|j: int|
                    0 <= j < i ==> qa_lt(e, #[trigger] old(self).frontier_spec()[j])),
            r is None ==> final(self).frontier_spec() == old(self).frontier_spec(),
    {
        if self.frontier.len() == 0 {
            return None;
        }
        let ghost f = self.frontier@;
        let mut best: usize = 0;
        let mut i: usize = 1;
        while i < self.frontier.len()
            invariant
                f == self.frontier@,
                1 <= i <= f.len(),
                0 <= best < i,
                forall|j: int| 0 <= j < i ==> !qa_lt(#[trigger] f[j], f[best as int]),
                forall|j: int| 0 <= j < best ==> qa_lt(f[best as int], #[trigger] f[j]),
            decreases f.len() - i,
        {
            if qa_less(&self.frontier[i], &self.frontier[best]) {
                proof {
                    assert forall|j: int| 0 <= j < i + 1 implies !qa_lt(#[trigger] f[j], f[i as int]) by {
                        if j < i {
                            assert(!qa_lt(f[j], f[best as int]));
                        }
                    }
                    assert forall|j: int| 0 <= j < i implies qa_lt(f[i as int], #[trigger] f[j]) by {
                        assert(!qa_lt(f[j], f[best as int]));
                    }
                }
                best = i;
            }
            i = i + 1;
        }
        let e = self.frontier.remove(best);
        proof {
            assert(self.frontier@ == f.remove(best as int));
            assert(f[best as int] == e);
            let of = old(self).frontier_spec();
            assert(of == f);
            assert(0 <= best < of.len() && of[best as int] == e && self.frontier_spec() == of.remove(
                best as int,
            ) && (forall|j: int| 0 <= j < of.len() ==> !qa_lt(#[trigger] of[j], e)) && (forall|j: int|
                0 <= j < best ==> qa_lt(e, #[trigger] of[j])));
        }
        Some(e)
    }

    /// Whether the search can stop: `k` candidates are known and no frontier
    /// node can hold anything closer than the worst of them.
    pub open spec fn should_stop_spec(&self) -> bool {
        &&& self.known_spec().len() == self.k_spec()
        &&& self.frontier_spec().len() > 0
        &&& forall|j: int|
            0 <= j < self.frontier_spec().len() ==> (#[trigger] self.frontier_spec()[j]).lower_bound
                >= self.known_spec().last().0
    }

    /// Whether the search can stop; see `should_stop_spec`.
    pub fn should_stop(&self) -> (r: bool)
        requires
            self.wf(),
        ensures
            r == self.should_stop_spec(),
    {
        if self.known.len() < self.k || self.frontier.len() == 0 {
            return false;
        }
        let worst = self.known[self.known.len() - 1].0;
        let mut i: usize = 0;
        while i < self.frontier.len()
            invariant
                0 <= i <= self.frontier@.len(),
                self.known@.len() > 0,
                worst == self.known@.last().0,
                forall|j: int| 0 <= j < i ==> (#[trigger] self.frontier@[j]).lower_bound >= worst,
            decreases self.frontier@.len() - i,
        {
            if self.frontier[i].lower_bound < worst {
                return false;
            }
            i = i + 1;
        }
        true
    }

    /// Number of candidates held.
    pub fn len(&self) -> (r: usize)
        ensures
            r == self.known_spec().len(),
    {
        self.known.len()
    }

    /// Number of nodes on the frontier.
    pub fn node_len(&self) -> (r: usize)
        ensures
            r == self.frontier_spec().len(),
    {
        self.frontier.len()
    }

    /// The candidates, closest first.
    pub fn unpack(&self) -> (r: Vec<(Distance, PointIndex)>)
        ensures
            r@ == self.known_spec(),
    {
        copy_vec(&self.known)
    }
}

} // verus!

verus! {

/// Candidates in strictly increasing order.
pub open spec fn cands_strict(s: Seq<(Distance, PointIndex)>) -> bool {
    forall|i: int, j: int| 0 <= i < j < s.len() ==> cand_lt(#[trigger] s[i], #[trigger] s[j])
}

/// The distinct candidates among the first `n` pairs `(dists[i], indexes[i])`.
pub open spec fn offered_set(indexes: Seq<PointIndex>, dists: Seq<Distance>, n: nat) -> Set<
    (Distance, PointIndex),
>
    decreases n,
{
    if n == 0 {
        Set::empty()
    } else {
        offered_set(indexes, dists, (n - 1) as nat).insert((dists[n - 1], indexes[n - 1]))
    }
}

/// `s` holds the `k` best of the candidates `offered`, closest first: it is
/// strictly increasing, drawn from `offered`, as long as `k` allows, and every
/// candidate left out is farther than all of those kept.
pub open spec fn holds_best(s: Seq<(Distance, PointIndex)>, offered: Set<(Distance, PointIndex)>, k: nat) -> bool {
    &&& cands_strict(s)
    &&& forall|i: int| 0 <= i < s.len() ==> offered.contains(#[trigger] s[i])
    &&& s.len() == if offered.len() < k {
        offered.len()
    } else {
        k
    }
    &&& forall|x: (Distance, PointIndex)|
        offered.contains(x) && !s.contains(x) ==> forall|i: int|
            0 <= i < s.len() ==> cand_lt(#[trigger] s[i], x)
}

proof fn lemma_insert_pos_props(s: Seq<(Distance, PointIndex)>, x: (Distance, PointIndex))
    ensures
        insert_pos(s, x) <= s.len(),
        forall|j: int| 0 <= j < insert_pos(s, x) ==> !cand_lt(x, #[trigger] s[j]),
        insert_pos(s, x) < s.len() ==> cand_lt(x, s[insert_pos(s, x) as int]),
    decreases s.len(),
{
    if s.len() > 0 && !cand_lt(x, s[0]) {
        let d = s.drop_first();
        lemma_insert_pos_props(d, x);
        assert forall|j: int| 0 <= j < insert_pos(s, x) implies !cand_lt(x, #[trigger] s[j]) by {
            if j > 0 {
                assert(s[j] == d[j - 1]);
            }
        }
    }
}

proof fn lemma_strict_no_dup(s: Seq<(Distance, PointIndex)>)
    requires
        cands_strict(s),
    ensures
        s.no_duplicates(),
{
    assert forall|i: int, j: int| 0 <= i < s.len() && 0 <= j < s.len() && i != j implies s[i] != s[j] by {
        if i < j {
            assert(cand_lt(s[i], s[j]));
        } else {
            assert(cand_lt(s[j], s[i]));
        }
    }
}

/// A list of distinct members of `big`, as long as `big`, holds every member.
proof fn lemma_covers_all(s: Seq<(Distance, PointIndex)>, big: Set<(Distance, PointIndex)>)
    requires
        big.finite(),
        s.no_duplicates(),
        forall|i: int| 0 <= i < s.len() ==> big.contains(#[trigger] s[i]),
        s.len() == big.len(),
    ensures
        forall|z: (Distance, PointIndex)| big.contains(z) ==> s.contains(z),
{
    assert forall|z: (Distance, PointIndex)| big.contains(z) implies s.contains(z) by {
        if !s.contains(z) {
            s.unique_seq_to_set();
            assert(s.to_set().subset_of(big.remove(z)));
            vstd::set_lib::lemma_len_subset(s.to_set(), big.remove(z));
        }
    }
}

pub(crate) proof fn lemma_bounded_insert_best(
    s: Seq<(Distance, PointIndex)>,
    big: Set<(Distance, PointIndex)>,
    x: (Distance, PointIndex),
    k: nat,
)
    requires
        k > 0,
        big.finite(),
        holds_best(s, big, k),
    ensures
        holds_best(bounded_insert(s, x, k), big.insert(x), k),
{
    let p = insert_pos(s, x) as int;
    lemma_insert_pos_props(s, x);
    lemma_strict_no_dup(s);
    let r = bounded_insert(s, x, k);
    let big2 = big.insert(x);
    if p > 0 && s[p - 1] == x {
        assert(big2 =~= big);
    } else {
        // `x` is not held: entries before `p` are below it, the rest above.
        assert forall|j: int| 0 <= j < p implies cand_lt(#[trigger] s[j], x) by {
            assert(!cand_lt(x, s[j]));
            if s[j] == x {
                assert(cand_lt(s[j], s[p - 1]) || j == p - 1);
            }
        }
        assert forall|j: int| p <= j < s.len() implies cand_lt(x, #[trigger] s[j]) by {
            if j > p {
                assert(cand_lt(s[p], s[j]));
            }
        }
        assert(!s.contains(x));
        if big.contains(x) {
            // Left out before, so `s` is full and `x` is past its end.
            s.unique_seq_to_set();
            assert(s.to_set().subset_of(big.remove(x)));
            vstd::set_lib::lemma_len_subset(s.to_set(), big.remove(x));
            assert(s.len() == k);
            assert(p == s.len()) by {
                if p < s.len() {
                    assert(cand_lt(s[p], x));
                }
            }
            assert(s.insert(p, x).take(k as int) =~= s);
            assert(big2 =~= big);
        } else {
            let t = s.insert(p, x);
            assert(big2.len() == big.len() + 1);
            assert(cands_strict(t)) by {
                assert forall|i: int, j: int| 0 <= i < j < t.len() implies cand_lt(#[trigger] t[i], #[trigger] t[j]) by {
                    if j < p {
                    } else if j == p {
                    } else if i < p {
                        assert(t[j] == s[j - 1]);
                        assert(cand_lt(s[i], x));
                    } else if i == p {
                        assert(t[j] == s[j - 1]);
                    } else {
                        assert(t[i] == s[i - 1] && t[j] == s[j - 1]);
                    }
                }
            }
            assert forall|i: int| 0 <= i < t.len() implies big2.contains(#[trigger] t[i]) by {
                if i < p {
                    assert(t[i] == s[i]);
                } else if i > p {
                    assert(t[i] == s[i - 1]);
                }
            }
            if s.len() < k {
                assert(s.len() == big.len());
                lemma_covers_all(s, big);
                assert(r == t);
                assert forall|z: (Distance, PointIndex)| big2.contains(z) && !t.contains(z) implies forall|i: int|
                    0 <= i < t.len() ==> cand_lt(#[trigger] t[i], z) by {
                    if z != x {
                        let w = choose|w: int| 0 <= w < s.len() && s[w] == z;
                        if w < p {
                            assert(t[w] == z);
                        } else {
                            assert(t[w + 1] == z);
                        }
                    } else {
                        assert(t[p] == x);
                    }
                }
            } else {
                assert(s.len() == k);
                assert(r == t.take(k as int));
                assert forall|i: int| 0 <= i < r.len() implies big2.contains(#[trigger] r[i]) by {
                    assert(r[i] == t[i]);
                }
                assert forall|i: int, j: int| 0 <= i < j < r.len() implies cand_lt(#[trigger] r[i], #[trigger] r[j]) by {
                    assert(r[i] == t[i] && r[j] == t[j]);
                }
                assert forall|z: (Distance, PointIndex)| big2.contains(z) && !r.contains(z) implies forall|i: int|
                    0 <= i < r.len() ==> cand_lt(#[trigger] r[i], z) by {
                    assert forall|i: int| 0 <= i < r.len() implies cand_lt(#[trigger] r[i], z) by {
                        assert(r[i] == t[i]);
                        if z == t[k as int] {
                            assert(cand_lt(t[i], t[k as int]));
                        } else if z == x {
                            assert(t[p] == x);
                            assert(p < k);
                            assert(r[p] == x);
                        } else {
                            // `z` was left out of `s` or is the entry pushed off the end.
                            if s.contains(z) {
                                let w = choose|w: int| 0 <= w < s.len() && s[w] == z;
                                if w < p {
                                    assert(t[w] == z);
                                    assert(r[w] == z);
                                } else if w + 1 < k {
                                    assert(t[w + 1] == z);
                                    assert(r[w + 1] == z);
                                } else {
                                    assert(t[w + 1] == z);
                                }
                            } else {
                                assert(forall|m: int| 0 <= m < s.len() ==> cand_lt(#[trigger] s[m], z));
                                if i < p {
                                    assert(t[i] == s[i]);
                                } else if i == p {
                                    assert(cand_lt(x, s[p]));
                                    assert(cand_lt(s[p], z));
                                } else {
                                    assert(t[i] == s[i - 1]);
                                }
                            }
                        }
                    }
                }
            }
        }
    }
}

/// Offering candidates one at a time to an empty candidate list leaves the
/// `k` best distinct candidates offered, closest first: the first `k` of them
/// in sorted order (ties broken by point index).
pub proof fn lemma_offer_all_keeps_best(indexes: Seq<PointIndex>, dists: Seq<Distance>, k: nat, n: nat)
    requires
        k > 0,
        n <= indexes.len(),
        n <= dists.len(),
    ensures
        offered_set(indexes, dists, n).finite(),
        holds_best(offer_all(Seq::empty(), indexes, dists, k, n), offered_set(indexes, dists, n), k),
    decreases n,
{
    if n > 0 {
        lemma_offer_all_keeps_best(indexes, dists, k, (n - 1) as nat);
        lemma_bounded_insert_best(
            offer_all(Seq::empty(), indexes, dists, k, (n - 1) as nat),
            offered_set(indexes, dists, (n - 1) as nat),
            (dists[n - 1], indexes[n - 1]),
            k,
        );
    }
}

} // verus!

verus! {

pub(crate) proof fn lemma_bounded_insert_from(s: Seq<(Distance, PointIndex)>, x: (Distance, PointIndex), k: nat)
    ensures
        forall|y: (Distance, PointIndex)| #[trigger] bounded_insert(s, x, k).contains(y) ==> s.contains(y) || y == x,
{
    let p = insert_pos(s, x) as int;
    lemma_insert_pos_props(s, x);
    let t = s.insert(p, x);
    assert forall|y: (Distance, PointIndex)| #[trigger] bounded_insert(s, x, k).contains(y) implies s.contains(y) || y == x by {
        let r = bounded_insert(s, x, k);
        let w = choose|w: int| 0 <= w < r.len() && r[w] == y;
        if !(p > 0 && s[p - 1] == x) {
            assert(r[w] == t[w]);
            if w < p {
                assert(s[w] == y);
            } else if w > p {
                assert(s[w - 1] == y);
            }
        }
    }
}

/// Every candidate held after a run of offers was held before or offered.
pub proof fn lemma_offer_all_from(
    s: Seq<(Distance, PointIndex)>,
    indexes: Seq<PointIndex>,
    dists: Seq<Distance>,
    k: nat,
    n: nat,
)
    requires
        n <= indexes.len(),
        n <= dists.len(),
    ensures
        forall|y: (Distance, PointIndex)|
            #[trigger] offer_all(s, indexes, dists, k, n).contains(y) ==> s.contains(y) || exists|j: int|
                0 <= j < n && y == (dists[j], indexes[j]),
    decreases n,
{
    if n > 0 {
        let prev = offer_all(s, indexes, dists, k, (n - 1) as nat);
        lemma_offer_all_from(s, indexes, dists, k, (n - 1) as nat);
        lemma_bounded_insert_from(prev, (dists[n - 1], indexes[n - 1]), k);
        assert forall|y: (Distance, PointIndex)| #[trigger] offer_all(s, indexes, dists, k, n).contains(y) implies s.contains(y)
            || exists|j: int| 0 <= j < n && y == (dists[j], indexes[j]) by {
            if !prev.contains(y) {
                assert(y == (dists[n - 1], indexes[n - 1]));
            } else if !s.contains(y) {
                let j = choose|j: int| 0 <= j < n - 1 && y == (dists[j], indexes[j]);
                assert(0 <= j < n && y == (dists[j], indexes[j]));
            }
        }
    }
}

} // verus!

verus! {

/// The distinct candidates offered are the pairs offered.
pub proof fn lemma_offered_set_members(indexes: Seq<PointIndex>, dists: Seq<Distance>, n: nat)
    requires
        n <= indexes.len(),
        n <= dists.len(),
    ensures
        offered_set(indexes, dists, n).finite(),
        forall|x: (Distance, PointIndex)|
            #[trigger] offered_set(indexes, dists, n).contains(x) ==> exists|j: int|
                0 <= j < n && x == (dists[j], indexes[j]),
    decreases n,
{
    if n > 0 {
        lemma_offered_set_members(indexes, dists, (n - 1) as nat);
        assert forall|x: (Distance, PointIndex)| #[trigger] offered_set(indexes, dists, n).contains(x) implies exists|j: int|
            0 <= j < n && x == (dists[j], indexes[j]) by {
            if x != (dists[n - 1], indexes[n - 1]) {
                let j = choose|j: int| 0 <= j < n - 1 && x == (dists[j], indexes[j]);
                assert(0 <= j < n && x == (dists[j], indexes[j]));
            }
        }
    }
}

/// Offering candidates to a list that holds the `k` best of `big` leaves the
/// `k` best of `big` and the candidates offered.
pub proof fn lemma_offer_all_best(
    s: Seq<(Distance, PointIndex)>,
    big: Set<(Distance, PointIndex)>,
    indexes: Seq<PointIndex>,
    dists: Seq<Distance>,
    k: nat,
    n: nat,
)
    requires
        k > 0,
        big.finite(),
        holds_best(s, big, k),
        n <= indexes.len(),
        n <= dists.len(),
    ensures
        big.union(offered_set(indexes, dists, n)).finite(),
        holds_best(offer_all(s, indexes, dists, k, n), big.union(offered_set(indexes, dists, n)), k),
    decreases n,
{
    lemma_offered_set_members(indexes, dists, n);
    if n == 0 {
        assert(big.union(offered_set(indexes, dists, n)) =~= big);
    } else {
        lemma_offer_all_best(s, big, indexes, dists, k, (n - 1) as nat);
        let prev = big.union(offered_set(indexes, dists, (n - 1) as nat));
        lemma_bounded_insert_best(offer_all(s, indexes, dists, k, (n - 1) as nat), prev, (dists[n - 1], indexes[n - 1]), k);
        assert(prev.insert((dists[n - 1], indexes[n - 1])) =~= big.union(offered_set(indexes, dists, n)));
    }
}

} // verus!
