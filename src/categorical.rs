//! A categorical distribution over a node's children: how much of the node's
//! cover goes to each child and how much stays with the node as singletons.
//!
//! Weights are whole counts. The distribution is kept as a list of
//! `(child address, weight)` entries sorted by address, and a singleton weight.
use vstd::prelude::*;
use crate::address::{addr_eq, addr_less, addr_lt, NodeAddress};
use crate::copy_vec;
use crate::node::CoverNode;
use rand::rngs::StdRng;
use rand::Rng;

verus! {

/// `rand`'s standard generator, handed through to `draw_below`.
#[verifier::external_type_specification]
#[verifier::external_body]
pub struct ExStdRng(StdRng);

/// Relies on `rand::Rng::gen_range`: a value drawn uniformly from `0..n`.
/// It panics on an empty range, hence `n > 0`.
#[verifier::external_body]
fn draw_below(rng: &mut StdRng, n: u64) -> (r: u64)
    requires
        n > 0,
    ensures
        r < n,
{
    rng.gen_range(0..n)
}

/// The pairs `(p, q)`: for each entry of `s` with positive weight `p`, that
/// weight and the weight `q` that `other` gives to the same address.
pub open spec fn kl_child_pairs(s: Seq<(NodeAddress, u64)>, other: Categorical) -> Seq<(u64, u64)>
    decreases s.len(),
{
    if s.len() == 0 {
        Seq::empty()
    } else {
        let rest = kl_child_pairs(s.drop_last(), other);
        if s.last().1 > 0 {
            rest.push((s.last().1, other.weight_of(Some(s.last().0)) as u64))
        } else {
            rest
        }
    }
}

/// Sum of the weights of a list of entries.
pub open spec fn sum_weights(s: Seq<(NodeAddress, u64)>) -> nat
    decreases s.len(),
{
    if s.len() == 0 {
        0
    } else {
        sum_weights(s.drop_last()) + s.last().1 as nat
    }
}

/// The weight that a list of entries records for the address `a`.
pub open spec fn weight_in(s: Seq<(NodeAddress, u64)>, a: NodeAddress) -> nat
    decreases s.len(),
{
    if s.len() == 0 {
        0
    } else {
        weight_in(s.drop_last(), a) + if s.last().0 == a {
            s.last().1 as nat
        } else {
            0nat
        }
    }
}

/// Whether some entry of the list carries the address `a`.
pub open spec fn has_entry(s: Seq<(NodeAddress, u64)>, a: NodeAddress) -> bool {
    exists|i: int| 0 <= i < s.len() && s[i].0 == a
}

/// Entries strictly increase by address (so each address occurs at most once).
pub open spec fn sorted_by_address(s: Seq<(NodeAddress, u64)>) -> bool {
    forall|i: int, j: int| 0 <= i < j < s.len() ==> addr_lt(#[trigger] s[i].0, #[trigger] s[j].0)
}

/// `x - y`, or zero when `y` exceeds `x`.
pub open spec fn sat_sub(x: nat, y: nat) -> nat {
    if x < y {
        0
    } else {
        (x - y) as nat
    }
}

/// The outcome that a draw in `[0, total)` lands on when the entries are laid
/// end to end in order: the entry whose span holds the draw, or `None` when the
/// draw falls past every entry (the singleton outcome).
pub open spec fn outcome_at(s: Seq<(NodeAddress, u64)>, draw: nat) -> Option<NodeAddress>
    decreases s.len(),
{
    if s.len() == 0 {
        None
    } else if draw < sum_weights(s.drop_last()) {
        outcome_at(s.drop_last(), draw)
    } else if draw < sum_weights(s) {
        Some(s.last().0)
    } else {
        None
    }
}

proof fn lemma_insert_weights(s: Seq<(NodeAddress, u64)>, i: int, x: (NodeAddress, u64))
    requires
        0 <= i <= s.len(),
    ensures
        sum_weights(s.insert(i, x)) == sum_weights(s) + x.1,
        forall|b: NodeAddress|
            weight_in(#[trigger] s.insert(i, x), b) == weight_in(s, b) + if x.0 == b {
                x.1 as nat
            } else {
                0nat
            },
    decreases s.len(),
{
    let t = s.insert(i, x);
    if i == s.len() {
        assert(t.drop_last() =~= s);
    } else {
        assert(t.drop_last() =~= s.drop_last().insert(i, x));
        lemma_insert_weights(s.drop_last(), i, x);
    }
    assert forall|b: NodeAddress|
        weight_in(#[trigger] s.insert(i, x), b) == weight_in(s, b) + if x.0 == b {
            x.1 as nat
        } else {
            0nat
        } by {
        if i < s.len() {
            assert(weight_in(s.drop_last().insert(i, x), b) == weight_in(s.drop_last(), b) + if x.0
                == b {
                x.1 as nat
            } else {
                0nat
            });
        }
    }
}

proof fn lemma_update_weights(s: Seq<(NodeAddress, u64)>, i: int, w: u64)
    requires
        0 <= i < s.len(),
    ensures
        sum_weights(s.update(i, (s[i].0, w))) + s[i].1 == sum_weights(s) + w,
        forall|b: NodeAddress|
            #![trigger weight_in(s.update(i, (s[i].0, w)), b)]
            weight_in(s.update(i, (s[i].0, w)), b) + (if s[i].0 == b {
                s[i].1 as nat
            } else {
                0nat
            }) == weight_in(s, b) + if s[i].0 == b {
                w as nat
            } else {
                0nat
            },
    decreases s.len(),
{
    let t = s.update(i, (s[i].0, w));
    if i == s.len() - 1 {
        assert(t.drop_last() =~= s.drop_last());
    } else {
        assert(t.drop_last() =~= s.drop_last().update(i, (s[i].0, w)));
        lemma_update_weights(s.drop_last(), i, w);
    }
    assert forall|b: NodeAddress|
        #![trigger weight_in(s.update(i, (s[i].0, w)), b)]
        weight_in(s.update(i, (s[i].0, w)), b) + (if s[i].0 == b {
            s[i].1 as nat
        } else {
            0nat
        }) == weight_in(s, b) + if s[i].0 == b {
            w as nat
        } else {
            0nat
        } by {
        if i < s.len() - 1 {
            let d = s.drop_last();
            assert(d[i] == s[i]);
            assert(weight_in(d.update(i, (d[i].0, w)), b) + (if d[i].0 == b {
                d[i].1 as nat
            } else {
                0nat
            }) == weight_in(d, b) + if d[i].0 == b {
                w as nat
            } else {
                0nat
            });
        }
    }
}

/// In a sorted list the weight of an entry's address is that entry's weight.
proof fn lemma_weight_of_entry(s: Seq<(NodeAddress, u64)>, i: int)
    requires
        sorted_by_address(s),
        0 <= i < s.len(),
    ensures
        weight_in(s, s[i].0) == s[i].1,
    decreases s.len(),
{
    if i < s.len() - 1 {
        let d = s.drop_last();
        assert(addr_lt(s[i].0, s[s.len() - 1].0));
        assert(d[i] == s[i]);
        lemma_weight_of_entry(d, i);
    } else {
        lemma_weight_absent(s.drop_last(), s[i].0);
    }
}

proof fn lemma_weight_le_sum(s: Seq<(NodeAddress, u64)>, a: NodeAddress)
    ensures
        weight_in(s, a) <= sum_weights(s),
    decreases s.len(),
{
    if s.len() > 0 {
        lemma_weight_le_sum(s.drop_last(), a);
    }
}

/// An address with no entry has weight zero.
proof fn lemma_weight_absent(s: Seq<(NodeAddress, u64)>, a: NodeAddress)
    requires
        !has_entry(s, a),
    ensures
        weight_in(s, a) == 0,
    decreases s.len(),
{
    if s.len() > 0 {
        let d = s.drop_last();
        assert(!has_entry(d, a)) by {
            if has_entry(d, a) {
                let k = choose|k: int| 0 <= k < d.len() && d[k].0 == a;
                assert(s[k].0 == a);
            }
        }
        lemma_weight_absent(d, a);
    }
}

proof fn lemma_prefix_sum_step(s: Seq<(NodeAddress, u64)>, i: int)
    requires
        0 <= i < s.len(),
    ensures
        sum_weights(s.take(i + 1)) == sum_weights(s.take(i)) + s[i].1,
        forall|b: NodeAddress|
            #[trigger] weight_in(s.take(i + 1), b) == weight_in(s.take(i), b) + if s[i].0 == b {
                s[i].1 as nat
            } else {
                0nat
            },
{
    assert(s.take(i + 1).drop_last() =~= s.take(i));
}

proof fn lemma_prefix_sum_le(s: Seq<(NodeAddress, u64)>, i: int)
    requires
        0 <= i <= s.len(),
    ensures
        sum_weights(s.take(i)) <= sum_weights(s),
    decreases s.len() - i,
{
    if i < s.len() {
        lemma_prefix_sum_step(s, i);
        lemma_prefix_sum_le(s, i + 1);
    } else {
        assert(s.take(i) =~= s);
    }
}

/// A draw below the weight of a prefix lands where it lands in the prefix.
proof fn lemma_outcome_in_prefix(s: Seq<(NodeAddress, u64)>, n: int, draw: nat)
    requires
        0 <= n <= s.len(),
        draw < sum_weights(s.take(n)),
    ensures
        outcome_at(s, draw) == outcome_at(s.take(n), draw),
    decreases s.len() - n,
{
    if n == s.len() {
        assert(s.take(n) =~= s);
    } else {
        let d = s.drop_last();
        assert(d.take(n) =~= s.take(n));
        lemma_prefix_sum_le(d, n);
        lemma_outcome_in_prefix(d, n, draw);
    }
}

/// A categorical distribution with whole-number weights. Every weight the
/// tree produces is a count (of singletons, or of what a child covers), so
/// weights are `u64` counts; probabilities and logarithms are taken from them
/// as exact fractions (`pdf`, `prob_vector`, `kl_terms`).
#[derive(Debug, Clone)]
pub struct Categorical {
    child_counts: Vec<(NodeAddress, u64)>,
    singleton_count: u64,
}

impl Categorical {
    /// The child entries, sorted by address.
    pub closed spec fn entries(&self) -> Seq<(NodeAddress, u64)> {
        self.child_counts@
    }

    /// The weight of the singleton outcome.
    pub closed spec fn singleton_weight(&self) -> nat {
        self.singleton_count as nat
    }

    /// Total weight over all outcomes.
    pub open spec fn total_spec(&self) -> nat {
        self.singleton_weight() + sum_weights(self.entries())
    }

    /// The weight of one outcome: a child address, or `None` for the singletons.
    pub open spec fn weight_of(&self, loc: Option<NodeAddress>) -> nat {
        match loc {
            Some(a) => weight_in(self.entries(), a),
            None => self.singleton_weight(),
        }
    }

    /// Entries sorted by address, and the total fits in a `u64`.
    pub open spec fn wf(&self) -> bool {
        &&& sorted_by_address(self.entries())
        &&& self.total_spec() <= u64::MAX
    }

    /// Creates a new empty distribution.
    pub fn new() -> (r: Categorical)
        ensures
            r.wf(),
            r.entries() == Seq::<(NodeAddress, u64)>::empty(),
            r.singleton_weight() == 0,
            r.total_spec() == 0,
    {
        Categorical { child_counts: Vec::new(), singleton_count: 0 }
    }

    /// Total weight of this distribution.
    pub fn total(&self) -> (r: u64)
        requires
            self.wf(),
        ensures
            r == self.total_spec(),
    {
        let mut sum: u64 = self.singleton_count;
        let mut i: usize = 0;
        while i < self.child_counts.len()
            invariant
                self.wf(),
                0 <= i <= self.child_counts.len(),
                sum == self.singleton_weight() + sum_weights(self.entries().take(i as int)),
            decreases self.child_counts.len() - i,
        {
            proof {
                lemma_prefix_sum_step(self.entries(), i as int);
                lemma_prefix_sum_le(self.entries(), i as int + 1);
            }
            sum = sum + self.child_counts[i].1;
            i = i + 1;
        }
        proof {
            assert(self.entries().take(i as int) =~= self.entries());
        }
        sum
    }

    /// Looks up an address: `Ok(i)` where entry `i` carries it, otherwise
    /// `Err(i)` where `i` is the position at which it would be inserted.
    fn find(&self, a: &NodeAddress) -> (r: Result<usize, usize>)
        requires
            self.wf(),
        ensures
            match r {
                Ok(i) => i < self.entries().len() && self.entries()[i as int].0 == *a,
                Err(i) => {
                    &&& i <= self.entries().len()
                    &&& forall|k: int| 0 <= k < i ==> addr_lt(#[trigger] self.entries()[k].0, *a)
                    &&& forall|k: int|
                        i <= k < self.entries().len() ==> addr_lt(*a, #[trigger] self.entries()[k].0)
                    &&& !has_entry(self.entries(), *a)
                },
            },
    {
        let mut lo: usize = 0;
        let mut hi: usize = self.child_counts.len();
        while lo < hi
            invariant
                self.wf(),
                0 <= lo <= hi <= self.child_counts.len(),
                forall|k: int| 0 <= k < lo ==> addr_lt(#[trigger] self.entries()[k].0, *a),
                forall|k: int| hi <= k < self.entries().len() ==> addr_lt(*a, #[trigger] self.entries()[k].0),
            decreases hi - lo,
        {
            let mid = lo + (hi - lo) / 2;
            let m = &self.child_counts[mid].0;
            if addr_eq(m, a) {
                return Ok(mid);
            } else if addr_less(m, a) {
                proof {
                    assert forall|k: int| 0 <= k < mid + 1 implies addr_lt(#[trigger] self.entries()[k].0, *a) by {
                        if k < mid {
                            assert(addr_lt(self.entries()[k].0, self.entries()[mid as int].0));
                        }
                    }
                }
                lo = mid + 1;
            } else {
                proof {
                    assert forall|k: int| mid <= k < self.entries().len() implies addr_lt(*a, #[trigger] self.entries()[k].0) by {
                        if k > mid {
                            assert(addr_lt(self.entries()[mid as int].0, self.entries()[k].0));
                        }
                    }
                }
                hi = mid;
            }
        }
        proof {
            assert(!has_entry(self.entries(), *a)) by {
                if has_entry(self.entries(), *a) {
                    let k = choose|k: int| 0 <= k < self.entries().len() && self.entries()[k].0 == *a;
                    if k < lo {
                        assert(addr_lt(self.entries()[k].0, *a));
                    } else {
                        assert(addr_lt(*a, self.entries()[k].0));
                    }
                }
            }
        }
        Err(lo)
    }

    /// Probability of one outcome as a fraction `(weight, total)`, or `None`
    /// when the distribution is empty.
    pub fn pdf(&self, loc: Option<NodeAddress>) -> (r: Option<(u64, u64)>)
        requires
            self.wf(),
        ensures
            r == if self.total_spec() > 0 {
                Some((self.weight_of(loc) as u64, self.total_spec() as u64))
            } else {
                None::<(u64, u64)>
            },
    {
        let total = self.total();
        if total > 0 {
            let ax: u64 = match loc {
                Some(ca) => match self.find(&ca) {
                    Ok(i) => {
                        proof {
                            lemma_weight_of_entry(self.entries(), i as int);
                        }
                        self.child_counts[i].1
                    },
                    Err(_) => {
                        proof {
                            lemma_weight_absent(self.entries(), ca);
                        }
                        0
                    },
                },
                None => self.singleton_count,
            };
            Some((ax, total))
        } else {
            None
        }
    }

    /// The probability vector, as fractions over a common denominator.
    pub open spec fn prob_vector_spec(&self) -> Option<(Seq<(NodeAddress, u64)>, u64, u64)> {
        if self.total_spec() > 0 {
            Some((self.entries(), self.singleton_weight() as u64, self.total_spec() as u64))
        } else {
            None
        }
    }

    /// The child weights, the singleton weight and the total, which is their
    /// common denominator; `None` when the distribution is empty.
    pub fn prob_vector(&self) -> (r: Option<(Vec<(NodeAddress, u64)>, u64, u64)>)
        requires
            self.wf(),
        ensures
            match (r, self.prob_vector_spec()) {
                (Some((v, s, t)), Some((vs, ss, ts))) => v@ == vs && s == ss && t == ts,
                (None, None) => true,
                _ => false,
            },
    {
        let total = self.total();
        if total > 0 {
            let v = copy_vec(&self.child_counts);
            Some((v, self.singleton_count, total))
        } else {
            None
        }
    }

    /// The weight pairs `(p, q)` over the outcomes that `self` gives positive
    /// weight: the singleton outcome first, then the children in address order.
    pub open spec fn kl_pairs(&self, other: Categorical) -> Seq<(u64, u64)> {
        let head = if self.singleton_weight() > 0 {
            seq![(self.singleton_weight() as u64, other.singleton_weight() as u64)]
        } else {
            Seq::empty()
        };
        head + kl_child_pairs(self.entries(), other)
    }

    /// `KL(self || other)` is finite: both are non-empty and every outcome
    /// with weight in `self` has weight in `other`.
    pub open spec fn kl_defined(&self, other: Categorical) -> bool {
        &&& self.total_spec() > 0
        &&& other.total_spec() > 0
        &&& forall|l: Option<NodeAddress>| #[trigger] self.weight_of(l) > 0 ==> other.weight_of(l) > 0
    }

    /// The terms of `KL(self || other) = sum (p/P) (ln p - ln q - ln P + ln Q)`:
    /// the pairs `(p, q)` of `kl_pairs` and the totals `P` and `Q`; `None`
    /// when the divergence is not finite.
    pub fn kl_terms(&self, other: &Categorical) -> (r: Option<(Vec<(u64, u64)>, u64, u64)>)
        requires
            self.wf(),
            other.wf(),
        ensures
            r.is_some() == self.kl_defined(*other),
            r matches Some((v, p, q)) ==> v@ == self.kl_pairs(*other) && p == self.total_spec()
                && q == other.total_spec(),
    {
        let my_total = self.total();
        let other_total = other.total();
        if my_total == 0 || other_total == 0 {
            return None;
        }
        let ghost s = self.entries();
        let ghost head = if self.singleton_weight() > 0 {
            seq![(self.singleton_weight() as u64, other.singleton_weight() as u64)]
        } else {
            Seq::empty()
        };
        let mut terms: Vec<(u64, u64)> = Vec::new();
        if self.singleton_count > 0 {
            if other.singleton_count == 0 {
                proof {
                    assert(self.weight_of(None) > 0 && other.weight_of(None) == 0);
                }
                return None;
            }
            terms.push((self.singleton_count, other.singleton_count));
        }
        proof {
            assert(terms@ =~= head + kl_child_pairs(s.take(0), *other));
        }
        let mut i: usize = 0;
        while i < self.child_counts.len()
            invariant
                self.wf(),
                other.wf(),
                s == self.entries(),
                0 <= i <= s.len(),
                terms@ == head + kl_child_pairs(s.take(i as int), *other),
                forall|k: int| 0 <= k < i ==> (#[trigger] s[k]).1 > 0 ==> other.weight_of(Some(s[k].0)) > 0,
            decreases s.len() - i,
        {
            let (a, w) = self.child_counts[i];
            proof {
                assert(s.take(i as int + 1).drop_last() =~= s.take(i as int));
                lemma_weight_of_entry(s, i as int);
            }
            if w > 0 {
                match other.find(&a) {
                    Ok(j) => {
                        let q = other.child_counts[j].1;
                        proof {
                            lemma_weight_of_entry(other.entries(), j as int);
                        }
                        if q == 0 {
                            proof {
                                assert(self.weight_of(Some(a)) > 0 && other.weight_of(Some(a)) == 0);
                            }
                            return None;
                        }
                        terms.push((w, q));
                    },
                    Err(_) => {
                        proof {
                            lemma_weight_absent(other.entries(), a);
                            assert(self.weight_of(Some(a)) > 0 && other.weight_of(Some(a)) == 0);
                        }
                        return None;
                    },
                }
            }
            proof {
                assert(terms@ =~= head + kl_child_pairs(s.take(i as int + 1), *other));
            }
            i = i + 1;
        }
        proof {
            assert(s.take(i as int) =~= s);
            assert forall|l: Option<NodeAddress>| #[trigger] self.weight_of(l) > 0 implies other.weight_of(l) > 0 by {
                if let Some(a) = l {
                    if !has_entry(s, a) {
                        lemma_weight_absent(s, a);
                    } else {
                        let k = choose|k: int| 0 <= k < s.len() && s[k].0 == a;
                        lemma_weight_of_entry(s, k);
                    }
                }
            }
        }
        Some((terms, my_total, other_total))
    }

    /// The outcome that a draw lands on when the child entries are laid end to
    /// end, in order, and the singletons after them.
    pub fn sample_at(&self, draw: u64) -> (r: Option<NodeAddress>)
        requires
            self.wf(),
        ensures
            r == outcome_at(self.entries(), draw as nat),
    {
        let ghost s = self.entries();
        let mut c: u64 = 0;
        let mut i: usize = 0;
        while i < self.child_counts.len()
            invariant
                self.wf(),
                s == self.entries(),
                0 <= i <= s.len(),
                c == sum_weights(s.take(i as int)),
                draw >= c,
            decreases s.len() - i,
        {
            let (a, w) = self.child_counts[i];
            proof {
                lemma_prefix_sum_step(s, i as int);
                lemma_prefix_sum_le(s, i as int + 1);
            }
            if draw < c + w {
                proof {
                    lemma_outcome_in_prefix(s, i as int + 1, draw as nat);
                    assert(s.take(i as int + 1).drop_last() =~= s.take(i as int));
                }
                return Some(a);
            }
            c = c + w;
            i = i + 1;
        }
        proof {
            assert(s.take(i as int) =~= s);
        }
        None
    }

    /// Draws an outcome with probability proportional to its weight: a child
    /// address, or `None` for the singleton outcome (and for an empty
    /// distribution).
    pub fn sample(&self, rng: &mut StdRng) -> (r: Option<NodeAddress>)
        requires
            self.wf(),
        ensures
            self.total_spec() == 0 ==> r == None::<NodeAddress>,
            self.total_spec() > 0 ==> exists|d: nat|
                d < self.total_spec() && r == outcome_at(self.entries(), d),
    {
        let total = self.total();
        if total == 0 {
            return None;
        }
        let d = draw_below(rng, total);
        self.sample_at(d)
    }

    /// Adds `count` to the weight of `loc` (a child address, or `None` for the
    /// singletons). A child address not yet present gets an entry, at its place
    /// in the address order.
    pub fn add_child_pop(&mut self, loc: Option<NodeAddress>, count: u64)
        requires
            old(self).wf(),
            old(self).total_spec() + count <= u64::MAX,
        ensures
            final(self).wf(),
            final(self).total_spec() == old(self).total_spec() + count,
            forall|l: Option<NodeAddress>|
                #[trigger] final(self).weight_of(l) == old(self).weight_of(l) + if l == loc {
                    count as nat
                } else {
                    0nat
                },
            forall|a: NodeAddress|
                #[trigger] has_entry(final(self).entries(), a) <==> (has_entry(old(self).entries(), a)
                    || loc == Some(a)),
    {
        match loc {
            Some(ca) => match self.find(&ca) {
                Ok(index) => {
                    let ghost s = self.entries();
                    let w = self.child_counts[index].1;
                    proof {
                        lemma_weight_of_entry(s, index as int);
                        lemma_weight_le_sum(s, ca);
                        lemma_update_weights(s, index as int, (w + count) as u64);
                    }
                    self.child_counts.set(index, (ca, w + count));
                    proof {
                        let t = self.entries();
                        assert(t =~= s.update(index as int, (s[index as int].0, (w + count) as u64)));
                        assert forall|a: NodeAddress| #[trigger]
                            has_entry(t, a) <==> (has_entry(s, a) || loc == Some(a)) by {
                            if has_entry(t, a) {
                                let k = choose|k: int| 0 <= k < t.len() && t[k].0 == a;
                                assert(s[k].0 == a);
                            }
                            if has_entry(s, a) {
                                let k = choose|k: int| 0 <= k < s.len() && s[k].0 == a;
                                assert(t[k].0 == a);
                            }
                        }
                    }
                },
                Err(index) => {
                    let ghost s = self.entries();
                    proof {
                        lemma_insert_weights(s, index as int, (ca, count));
                    }
                    self.child_counts.insert(index, (ca, count));
                    proof {
                        let t = self.entries();
                        assert(t =~= s.insert(index as int, (ca, count)));
                        assert forall|i: int, j: int| 0 <= i < j < t.len() implies addr_lt(
                            #[trigger] t[i].0,
                            #[trigger] t[j].0,
                        ) by {
                            if j < index {
                            } else if j == index {
                            } else if i < index {
                                assert(t[j] == s[j - 1]);
                            } else if i == index {
                                assert(t[j] == s[j - 1]);
                            } else {
                                assert(t[i] == s[i - 1] && t[j] == s[j - 1]);
                            }
                        }
                        assert forall|a: NodeAddress| #[trigger]
                            has_entry(t, a) <==> (has_entry(s, a) || loc == Some(a)) by {
                            if has_entry(t, a) {
                                let k = choose|k: int| 0 <= k < t.len() && t[k].0 == a;
                                if k < index {
                                    assert(s[k].0 == a);
                                } else if k > index {
                                    assert(s[k - 1].0 == a);
                                }
                            }
                            if has_entry(s, a) {
                                let k = choose|k: int| 0 <= k < s.len() && s[k].0 == a;
                                if k < index {
                                    assert(t[k].0 == a);
                                } else {
                                    assert(t[k + 1].0 == a);
                                }
                            }
                            if loc == Some(a) {
                                assert(t[index as int].0 == a);
                            }
                        }
                    }
                },
            },
            None => {
                self.singleton_count = self.singleton_count + count;
            },
        }
    }

    /// Takes `count` away from the weight of `loc`, stopping at zero. An
    /// address without an entry is left alone.
    pub fn remove_child_pop(&mut self, loc: Option<NodeAddress>, count: u64)
        requires
            old(self).wf(),
        ensures
            final(self).wf(),
            forall|l: Option<NodeAddress>|
                #[trigger] final(self).weight_of(l) == if l == loc {
                    sat_sub(old(self).weight_of(l), count as nat)
                } else {
                    old(self).weight_of(l)
                },
            forall|a: NodeAddress|
                #[trigger] has_entry(final(self).entries(), a) == has_entry(old(self).entries(), a),
    {
        match loc {
            Some(ca) => {
                if let Ok(index) = self.find(&ca) {
                    let ghost s = self.entries();
                    let w = self.child_counts[index].1;
                    let nw: u64 = if w < count {
                        0
                    } else {
                        w - count
                    };
                    proof {
                        lemma_update_weights(s, index as int, nw);
                        lemma_weight_of_entry(s, index as int);
                    }
                    self.child_counts.set(index, (ca, nw));
                    proof {
                        let t = self.entries();
                        assert(t =~= s.update(index as int, (s[index as int].0, nw)));
                        assert forall|a: NodeAddress| #[trigger] has_entry(t, a) == has_entry(s, a) by {
                            if has_entry(t, a) {
                                let k = choose|k: int| 0 <= k < t.len() && t[k].0 == a;
                                assert(s[k].0 == a);
                            }
                            if has_entry(s, a) {
                                let k = choose|k: int| 0 <= k < s.len() && s[k].0 == a;
                                assert(t[k].0 == a);
                            }
                        }
                    }
                } else {
                    proof {
                        lemma_weight_absent(self.entries(), ca);
                    }
                }
            },
            None => {
                if self.singleton_count < count {
                    self.singleton_count = 0;
                } else {
                    self.singleton_count = self.singleton_count - count;
                }
            },
        }
    }

    /// Adds every weight of `other` to this distribution.
    pub fn merge(&mut self, other: &Categorical)
        requires
            old(self).wf(),
            other.wf(),
            old(self).total_spec() + other.total_spec() <= u64::MAX,
        ensures
            final(self).wf(),
            final(self).total_spec() == old(self).total_spec() + other.total_spec(),
            forall|l: Option<NodeAddress>|
                #[trigger] final(self).weight_of(l) == old(self).weight_of(l) + other.weight_of(l),
            forall|a: NodeAddress|
                #[trigger] has_entry(final(self).entries(), a) <==> (has_entry(old(self).entries(), a)
                    || has_entry(other.entries(), a)),
    {
        let ghost s0 = *self;
        let ghost o = other.entries();
        let mut i: usize = 0;
        while i < other.child_counts.len()
            invariant
                self.wf(),
                other.wf(),
                o == other.entries(),
                0 <= i <= o.len(),
                s0.total_spec() + other.total_spec() <= u64::MAX,
                self.total_spec() == s0.total_spec() + sum_weights(o.take(i as int)),
                self.weight_of(None) == s0.weight_of(None),
                forall|a: NodeAddress|
                    #[trigger] self.weight_of(Some(a)) == s0.weight_of(Some(a)) + weight_in(
                        o.take(i as int),
                        a,
                    ),
                forall|a: NodeAddress|
                    #[trigger] has_entry(self.entries(), a) <==> (has_entry(s0.entries(), a)
                        || has_entry(o.take(i as int), a)),
            decreases o.len() - i,
        {
            let (na, c) = other.child_counts[i];
            proof {
                lemma_prefix_sum_step(o, i as int);
                lemma_prefix_sum_le(o, i as int + 1);
            }
            let ghost before = *self;
            self.add_child_pop(Some(na), c);
            proof {
                let ti = o.take(i as int);
                let tn = o.take(i as int + 1);
                assert forall|a: NodeAddress| #[trigger] has_entry(tn, a) <==> (has_entry(ti, a) || na == a) by {
                    if has_entry(tn, a) {
                        let k = choose|k: int| 0 <= k < tn.len() && tn[k].0 == a;
                        if k < i {
                            assert(ti[k].0 == a);
                        }
                    }
                    if has_entry(ti, a) {
                        let k = choose|k: int| 0 <= k < ti.len() && ti[k].0 == a;
                        assert(tn[k].0 == a);
                    }
                    if na == a {
                        assert(tn[i as int].0 == a);
                    }
                }
                assert forall|a: NodeAddress|
                    #[trigger] self.weight_of(Some(a)) == s0.weight_of(Some(a)) + weight_in(tn, a) by {
                    assert(self.weight_of(Some(a)) == before.weight_of(Some(a)) + if Some(a) == Some(
                        na,
                    ) {
                        c as nat
                    } else {
                        0nat
                    });
                }
            }
            i = i + 1;
        }
        proof {
            assert(o.take(i as int) =~= o);
        }
        let sc = other.singleton_count;
        self.add_child_pop(None, sc);
    }
}

} // verus!

verus! {

proof fn lemma_self_pairs_equal(p: Categorical, n: int)
    requires
        p.wf(),
        0 <= n <= p.entries().len(),
    ensures
        forall|i: int|
            0 <= i < kl_child_pairs(p.entries().take(n), p).len() ==> (#[trigger] kl_child_pairs(
                p.entries().take(n),
                p,
            )[i]).0 == kl_child_pairs(p.entries().take(n), p)[i].1,
    decreases n,
{
    if n > 0 {
        let s = p.entries();
        assert(s.take(n).drop_last() =~= s.take(n - 1));
        lemma_self_pairs_equal(p, n - 1);
        lemma_weight_of_entry(s, n - 1);
        let prev = kl_child_pairs(s.take(n - 1), p);
        let cur = kl_child_pairs(s.take(n), p);
        assert(s.take(n).last() == s[n - 1]);
        assert forall|i: int| 0 <= i < cur.len() implies (#[trigger] cur[i]).0 == cur[i].1 by {
            if i < prev.len() {
                assert(cur[i] == prev[i]);
            }
        }
    }
}

/// The divergence of a non-empty distribution from itself is zero: it is
/// finite, and in every term `p == q` (with `P == Q`), so each term
/// `(p/P)(ln p - ln q - ln P + ln Q)` vanishes.
pub proof fn lemma_kl_self_is_zero(p: Categorical)
    requires
        p.wf(),
        p.total_spec() > 0,
    ensures
        p.kl_defined(p),
        forall|i: int|
            0 <= i < p.kl_pairs(p).len() ==> (#[trigger] p.kl_pairs(p)[i]).0 == p.kl_pairs(p)[i].1,
{
    let s = p.entries();
    lemma_self_pairs_equal(p, s.len() as int);
    assert(s.take(s.len() as int) =~= s);
    let head = if p.singleton_weight() > 0 {
        seq![(p.singleton_weight() as u64, p.singleton_weight() as u64)]
    } else {
        Seq::empty()
    };
    let tail = kl_child_pairs(s, p);
    assert forall|i: int| 0 <= i < p.kl_pairs(p).len() implies (#[trigger] p.kl_pairs(p)[i]).0
        == p.kl_pairs(p)[i].1 by {
        if i >= head.len() {
            assert(p.kl_pairs(p)[i] == tail[i - head.len()]);
        }
    }
}

/// Where the support of `p` lies within that of `q`, the divergence of `p`
/// from `q` is undefined exactly when one of the two is empty.
pub proof fn lemma_kl_undefined_iff_empty(p: Categorical, q: Categorical)
    requires
        p.wf(),
        q.wf(),
        forall|l: Option<NodeAddress>| #[trigger] p.weight_of(l) > 0 ==> q.weight_of(l) > 0,
    ensures
        !p.kl_defined(q) <==> (p.total_spec() == 0 || q.total_spec() == 0),
{
}

/// The probability vector sums to one: the child weights and the singleton
/// weight add up to the common denominator, which is positive.
pub proof fn lemma_prob_vector_sums_to_one(c: Categorical)
    requires
        c.wf(),
        c.total_spec() > 0,
    ensures
        c.prob_vector_spec() matches Some((w, s, t)) && sum_weights(w) + s == t && t > 0,
{
}

} // verus!

verus! {

/// Sum of the totals present in `totals`.
pub open spec fn sum_present(totals: Seq<Option<u64>>) -> nat
    decreases totals.len(),
{
    if totals.len() == 0 {
        0
    } else {
        sum_present(totals.drop_last()) + match totals.last() {
            Some(t) => t as nat,
            None => 0nat,
        }
    }
}

/// The weight that the pairs `(addrs[i], totals[i])` with a present total
/// give to the address `a`.
pub open spec fn weight_from(addrs: Seq<NodeAddress>, totals: Seq<Option<u64>>, a: NodeAddress) -> nat
    decreases totals.len(),
{
    if totals.len() == 0 {
        0
    } else {
        let n = totals.len() - 1;
        weight_from(addrs, totals.drop_last(), a) + match totals.last() {
            Some(t) => if addrs[n] == a {
                t as nat
            } else {
                0nat
            },
            None => 0nat,
        }
    }
}

/// The plugin that attaches a `Categorical` to every node.
#[derive(Debug, Clone, Copy)]
pub struct GokoCategorical {}

impl GokoCategorical {
    /// The categorical of a node. For a routing node: one entry per child
    /// (the self-child first, as in `CoverNode::child_list_spec`) whose own
    /// categorical is known, weighted by that categorical's total, and the
    /// singletons as the singleton weight. For a leaf: the singletons and the
    /// center as the singleton weight. `child_totals[i]` is the total of the
    /// categorical of child `i`, or `None` where none is attached.
    pub fn node_component(
        _parameters: &GokoCategorical,
        my_node: &CoverNode,
        child_totals: &Vec<Option<u64>>,
    ) -> (r: Option<Categorical>)
        requires
            child_totals.len() == my_node.child_list_spec().len(),
            sum_present(child_totals@) + my_node.singletons_spec().len() + 1 <= u64::MAX,
        ensures
            r matches Some(c) && {
                &&& c.wf()
                &&& c.weight_of(None) == my_node.singletons_spec().len() + if my_node.children_spec() is None {
                    1nat
                } else {
                    0nat
                }
                &&& forall|a: NodeAddress|
                    #[trigger] c.weight_of(Some(a)) == weight_from(my_node.child_list_spec(), child_totals@, a)
                &&& forall|a: NodeAddress|
                    #[trigger] has_entry(c.entries(), a) <==> exists|i: int|
                        0 <= i < child_totals.len() && #[trigger] my_node.child_list_spec()[i] == a
                            && child_totals@[i] is Some
            },
    {
        let mut bucket = Categorical::new();
        let ghost list = my_node.child_list_spec();
        let ghost tot = child_totals@;
        let children = my_node.child_list();
        let mut i: usize = 0;
        while i < child_totals.len()
            invariant
                list == my_node.child_list_spec(),
                children@ == list,
                tot == child_totals@,
                tot.len() == list.len(),
                0 <= i <= tot.len(),
                bucket.wf(),
                sum_present(tot) + my_node.singletons_spec().len() + 1 <= u64::MAX,
                bucket.total_spec() == sum_present(tot.take(i as int)),
                bucket.weight_of(None) == 0,
                forall|a: NodeAddress|
                    #[trigger] bucket.weight_of(Some(a)) == weight_from(list, tot.take(i as int), a),
                forall|a: NodeAddress|
                    #[trigger] has_entry(bucket.entries(), a) <==> exists|k: int|
                        0 <= k < i && #[trigger] list[k] == a && tot[k] is Some,
            decreases tot.len() - i,
        {
            proof {
                assert(tot.take(i as int + 1).drop_last() =~= tot.take(i as int));
                lemma_sum_present_prefix_le(tot, i as int + 1);
            }
            let ghost before = bucket;
            if let Some(t) = child_totals[i] {
                bucket.add_child_pop(Some(children[i]), t);
            }
            proof {
                assert forall|a: NodeAddress|
                    #[trigger] bucket.weight_of(Some(a)) == weight_from(list, tot.take(i as int + 1), a) by {
                    assert(before.weight_of(Some(a)) == weight_from(list, tot.take(i as int), a));
                }
                assert forall|a: NodeAddress|
                    #[trigger] has_entry(bucket.entries(), a) <==> exists|k: int|
                        0 <= k < i + 1 && #[trigger] list[k] == a && tot[k] is Some by {
                    if has_entry(bucket.entries(), a) && !has_entry(before.entries(), a) {
                        assert(list[i as int] == a && tot[i as int] is Some);
                    }
                    if exists|k: int| 0 <= k < i + 1 && #[trigger] list[k] == a && tot[k] is Some {
                        let k = choose|k: int| 0 <= k < i + 1 && #[trigger] list[k] == a && tot[k] is Some;
                        if k < i {
                            assert(has_entry(before.entries(), a));
                        }
                    }
                }
            }
            i = i + 1;
        }
        proof {
            assert(tot.take(i as int) =~= tot);
        }
        let singles = my_node.singleton_len() as u64;
        if my_node.is_leaf() {
            bucket.add_child_pop(None, singles + 1);
        } else {
            bucket.add_child_pop(None, singles);
        }
        Some(bucket)
    }
}

proof fn lemma_sum_present_prefix_le(s: Seq<Option<u64>>, i: int)
    requires
        0 <= i <= s.len(),
    ensures
        sum_present(s.take(i)) <= sum_present(s),
    decreases s.len() - i,
{
    if i < s.len() {
        assert(s.take(i + 1).drop_last() =~= s.take(i));
        lemma_sum_present_prefix_le(s, i + 1);
    } else {
        assert(s.take(i) =~= s);
    }
}

} // verus!
