use goko::address::NodeAddress;
use goko::categorical::{Categorical, GokoCategorical};
use goko::node::CoverNode;
use rand::rngs::StdRng;
use rand::SeedableRng;

fn ln_pdf(c: &Categorical, loc: Option<NodeAddress>) -> Option<f64> {
    c.pdf(loc).map(|(w, t)| (w as f64).ln() - (t as f64).ln())
}

fn kl_divergence(p: &Categorical, q: &Categorical) -> Option<f64> {
    p.kl_terms(q).map(|(terms, pt, qt)| {
        let ln_total = (pt as f64).ln() - (qt as f64).ln();
        terms
            .iter()
            .map(|&(a, b)| (a as f64 / pt as f64) * ((a as f64).ln() - (b as f64).ln() - ln_total))
            .sum()
    })
}

fn close(a: f64, b: f64) -> bool {
    (a - b).abs() < 1e-6
}

#[test]
fn empty_bucket_sanity_test() {
    let buckets = Categorical::new();
    assert_eq!(ln_pdf(&buckets, None), None);
    assert_eq!(ln_pdf(&buckets, Some((0, 0))), None);
    assert_eq!(kl_divergence(&buckets, &buckets), None)
}

#[test]
fn singleton_bucket_sanity_test() {
    let mut buckets = Categorical::new();
    buckets.add_child_pop(None, 5);
    assert!(close(ln_pdf(&buckets, None).unwrap(), 0.0));
    assert!(close(kl_divergence(&buckets, &buckets).unwrap(), 0.0));
    assert_eq!(ln_pdf(&buckets, Some((0, 0))), Some(std::f64::NEG_INFINITY));
}

#[test]
fn child_bucket_sanity_test() {
    let mut buckets = Categorical::new();
    buckets.add_child_pop(Some((0, 0)), 5);
    assert!(close(ln_pdf(&buckets, Some((0, 0))).unwrap(), 0.0));
    assert!(close(kl_divergence(&buckets, &buckets).unwrap(), 0.0));
    assert_eq!(ln_pdf(&buckets, None).unwrap(), std::f64::NEG_INFINITY);
}

#[test]
fn mixed_bucket_sanity_test() {
    let mut bucket1 = Categorical::new();
    bucket1.add_child_pop(None, 6);
    bucket1.add_child_pop(Some((0, 0)), 6);
    println!("{:?}", bucket1);

    let mut bucket2 = Categorical::new();
    bucket2.add_child_pop(None, 4);
    bucket2.add_child_pop(Some((0, 0)), 8);
    println!("{:?}", bucket2);

    assert!(close(ln_pdf(&bucket1, None).unwrap(), (0.5f64).ln()));
    assert!(close(ln_pdf(&bucket2, Some((0, 0))).unwrap(), (0.666666666f64).ln()));
    assert!(close(kl_divergence(&bucket1, &bucket1).unwrap(), 0.0));

    assert!(close(kl_divergence(&bucket1, &bucket2).unwrap(), 0.05889151782));
    assert!(close(kl_divergence(&bucket2, &bucket1).unwrap(), 0.05663301226));
}

#[test]
fn total_counts_every_outcome() {
    let mut c = Categorical::new();
    assert_eq!(c.total(), 0);
    c.add_child_pop(Some((1, 4)), 3);
    c.add_child_pop(None, 2);
    c.add_child_pop(Some((-2, 7)), 5);
    c.add_child_pop(Some((1, 4)), 1);
    assert_eq!(c.total(), 11);
    assert_eq!(c.pdf(Some((1, 4))), Some((4, 11)));
    assert_eq!(c.pdf(Some((-2, 7))), Some((5, 11)));
    assert_eq!(c.pdf(None), Some((2, 11)));
    assert_eq!(c.pdf(Some((9, 9))), Some((0, 11)));
}

#[test]
fn entries_stay_sorted_by_address() {
    let mut c = Categorical::new();
    c.add_child_pop(Some((2, 0)), 1);
    c.add_child_pop(Some((0, 5)), 1);
    c.add_child_pop(Some((0, 3)), 1);
    c.add_child_pop(Some((-1, 9)), 1);
    let (v, s, t) = c.prob_vector().unwrap();
    let addrs: Vec<NodeAddress> = v.iter().map(|(a, _)| *a).collect();
    assert_eq!(addrs, vec![(-1, 9), (0, 3), (0, 5), (2, 0)]);
    assert_eq!(s, 0);
    assert_eq!(t, 4);
}

#[test]
fn remove_child_pop_stops_at_zero() {
    let mut c = Categorical::new();
    c.add_child_pop(Some((0, 1)), 4);
    c.add_child_pop(None, 3);
    c.remove_child_pop(Some((0, 1)), 10);
    c.remove_child_pop(None, 1);
    c.remove_child_pop(Some((5, 5)), 2);
    assert_eq!(c.pdf(Some((0, 1))), Some((0, 2)));
    assert_eq!(c.pdf(None), Some((2, 2)));
    let (v, _, _) = c.prob_vector().unwrap();
    assert_eq!(v, vec![((0, 1), 0)]);
}

#[test]
fn merge_adds_weights() {
    let mut a = Categorical::new();
    a.add_child_pop(Some((0, 1)), 2);
    a.add_child_pop(None, 1);
    let mut b = Categorical::new();
    b.add_child_pop(Some((0, 1)), 3);
    b.add_child_pop(Some((0, 2)), 4);
    b.add_child_pop(None, 5);
    a.merge(&b);
    assert_eq!(a.total(), 15);
    let (v, s, t) = a.prob_vector().unwrap();
    assert_eq!(v, vec![((0, 1), 5), ((0, 2), 4)]);
    assert_eq!(s, 6);
    assert_eq!(t, 15);
}

#[test]
fn prob_vector_sums_to_one() {
    let mut c = Categorical::new();
    c.add_child_pop(Some((0, 1)), 3);
    c.add_child_pop(Some((0, 2)), 7);
    c.add_child_pop(None, 2);
    let (v, s, t) = c.prob_vector().unwrap();
    let sum: f64 = v.iter().map(|(_, w)| *w as f64 / t as f64).sum::<f64>() + s as f64 / t as f64;
    assert!(close(sum, 1.0));
    assert_eq!(v.iter().map(|(_, w)| *w).sum::<u64>() + s, t);
    assert_eq!(Categorical::new().prob_vector(), None);
}

#[test]
fn kl_of_self_is_zero() {
    let mut c = Categorical::new();
    c.add_child_pop(Some((0, 1)), 3);
    c.add_child_pop(Some((0, 2)), 7);
    c.add_child_pop(None, 2);
    let (terms, p, q) = c.kl_terms(&c).unwrap();
    assert_eq!(p, q);
    assert!(terms.iter().all(|(a, b)| a == b));
    assert_eq!(terms, vec![(2, 2), (3, 3), (7, 7)]);
    assert!(close(kl_divergence(&c, &c).unwrap(), 0.0));
}

#[test]
fn kl_is_undefined_when_either_is_empty() {
    let mut c = Categorical::new();
    c.add_child_pop(None, 2);
    let e = Categorical::new();
    assert!(c.kl_terms(&e).is_none());
    assert!(e.kl_terms(&c).is_none());
    assert!(e.kl_terms(&e).is_none());
}

#[test]
fn kl_is_undefined_off_the_support() {
    let mut p = Categorical::new();
    p.add_child_pop(Some((0, 0)), 1);
    let mut q = Categorical::new();
    q.add_child_pop(None, 1);
    assert!(p.kl_terms(&q).is_none());
    // Once `q` also weighs that child, the divergence is finite.
    q.add_child_pop(Some((0, 0)), 1);
    assert_eq!(p.kl_terms(&q), Some((vec![(1, 1)], 1, 2)));
}

#[test]
fn sample_at_walks_the_cumulative_weights() {
    let mut c = Categorical::new();
    c.add_child_pop(Some((0, 1)), 2);
    c.add_child_pop(Some((0, 2)), 3);
    c.add_child_pop(None, 4);
    assert_eq!(c.sample_at(0), Some((0, 1)));
    assert_eq!(c.sample_at(1), Some((0, 1)));
    assert_eq!(c.sample_at(2), Some((0, 2)));
    assert_eq!(c.sample_at(4), Some((0, 2)));
    assert_eq!(c.sample_at(5), None);
    assert_eq!(c.sample_at(8), None);
}

#[test]
fn sample_draws_within_the_support() {
    let mut rng = StdRng::seed_from_u64(17);
    let mut c = Categorical::new();
    c.add_child_pop(Some((0, 1)), 2);
    c.add_child_pop(Some((0, 2)), 3);
    for _ in 0..100 {
        let s = c.sample(&mut rng);
        assert!(s == Some((0, 1)) || s == Some((0, 2)));
    }
    assert_eq!(Categorical::new().sample(&mut rng), None);
}

#[test]
fn node_component_of_a_leaf() {
    let mut node = CoverNode::new((0, 3));
    node.insert_singletons(vec![4, 5]);
    let c = GokoCategorical::node_component(&GokoCategorical {}, &node, &vec![]).unwrap();
    assert_eq!(c.pdf(None), Some((3, 3)));
}

#[test]
fn node_component_of_a_routing_node() {
    let mut node = CoverNode::new((0, 3));
    node.insert_nested_child(-1, 0).unwrap();
    node.insert_child((-1, 7), 0).unwrap();
    node.insert_child((-2, 9), 0).unwrap();
    node.insert_singletons(vec![4]);
    let c = GokoCategorical::node_component(&GokoCategorical {}, &node, &vec![Some(5), None, Some(2)])
        .unwrap();
    assert_eq!(c.total(), 8);
    let (v, s, _) = c.prob_vector().unwrap();
    assert_eq!(v, vec![((-2, 9), 2), ((-1, 3), 5)]);
    assert_eq!(s, 1);
}
