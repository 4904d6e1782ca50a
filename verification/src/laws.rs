//! Properties of the library as a whole: what every well-formed network
//! satisfies, and how the queries relate to one another.

use vstd::prelude::*;
use crate::weight::TernaryWeight;
use crate::network::{TernaryNetwork, Edge, count_of, weight_count, target_count, total_len, added_adjacency, lemma_list_within_total};
use crate::paths::{lemma_count_of_positive, lemma_count_of_witness, lemma_target_count_witness};

verus! {

/// Every adjacency entry has exactly one of the three weights, so the
/// positive, negative and zero degrees of a node add up to its degree.
pub proof fn lemma_weight_counts_partition(s: Seq<Edge>)
    ensures
        weight_count(s, TernaryWeight::Positive) + weight_count(s, TernaryWeight::Negative)
            + weight_count(s, TernaryWeight::Zero) == s.len(),
    decreases s.len(),
{
    if s.len() > 0 {
        lemma_weight_counts_partition(s.drop_last());
    }
}

/// In an undirected network every edge is stored in both directions: the
/// entries `(b, w)` in the list of `a` are as many as the entries `(a, w)`
/// in the list of `b`.
pub proof fn lemma_undirected_multiplicity(net: TernaryNetwork, a: usize, b: usize, w: TernaryWeight)
    requires
        net.wf(),
        !net.is_directed(),
    ensures
        net.multiplicity(a, b, w) == net.multiplicity(b, a, w),
{
}

/// In an undirected network the number of edges is half the number of
/// adjacency entries, which is even.
pub proof fn lemma_undirected_edge_count(net: TernaryNetwork)
    requires
        net.wf(),
        !net.is_directed(),
    ensures
        2 * net.spec_edge_count() == net.total_degree(),
{
}

/// In an undirected network `a` links to `b` exactly when `b` links to `a`,
/// and stepping either way costs the same.
pub proof fn lemma_undirected_links(net: TernaryNetwork, a: usize, b: usize)
    requires
        net.wf(),
        !net.is_directed(),
    ensures
        net.links(a, b) == net.links(b, a),
        net.step_cost(a, b) == net.step_cost(b, a),
{
    assert(net.multiplicity(a, b, TernaryWeight::Zero) == net.multiplicity(b, a, TernaryWeight::Zero));
    if net.links(a, b) {
        lemma_links_one_way(net, a, b);
    }
    if net.links(b, a) {
        lemma_links_one_way(net, b, a);
    }
}

proof fn lemma_links_one_way(net: TernaryNetwork, a: usize, b: usize)
    requires
        net.wf(),
        !net.is_directed(),
        net.links(a, b),
    ensures
        net.links(b, a),
{
    let k = lemma_target_count_witness(net.adjacency(a), b);
    let w = net.adjacency(a)[k].1;
    lemma_count_of_positive(net.adjacency(a), k);
    assert(net.multiplicity(a, b, w) > 0);
    assert(net.multiplicity(b, a, w) > 0);
    let k2 = lemma_count_of_witness(net.adjacency(b), (a, w));
    crate::network::lemma_target_count_positive(net.adjacency(b), k2, a);
}

/// The cost of a walk with a node put in front of it.
proof fn lemma_walk_cost_prepend(net: TernaryNetwork, x: usize, v: Seq<usize>)
    requires
        v.len() >= 1,
    ensures
        net.walk_cost(seq![x] + v) == net.step_cost(x, v[0]) + net.walk_cost(v),
    decreases v.len(),
{
    let u = seq![x] + v;
    let n = v.len() as int;
    assert(u.len() == n + 1);
    assert(u.last() == v[n - 1]);
    assert(u[n - 1] == if n == 1 { x } else { v[n - 2] });
    if v.len() == 1 {
        assert(u.drop_last() =~= seq![x]);
        assert(net.walk_cost(seq![x]) == 0);
    } else {
        assert(u.drop_last() =~= seq![x] + v.drop_last());
        lemma_walk_cost_prepend(net, x, v.drop_last());
        assert(v.drop_last()[0] == v[0]);
    }
}

/// In an undirected network a walk read backwards is a walk of the same cost.
pub proof fn lemma_walk_reverse(net: TernaryNetwork, w: Seq<usize>)
    requires
        net.wf(),
        !net.is_directed(),
        net.is_walk(w),
    ensures
        net.is_walk(w.reverse()),
        net.walk_cost(w.reverse()) == net.walk_cost(w),
    decreases w.len(),
{
    let r = w.reverse();
    let len = w.len() as int;
    assert forall|i: int| 0 <= i < r.len() - 1 implies #[trigger] net.step_ok(r, i) by {
        assert(net.step_ok(w, len - 2 - i));
        lemma_undirected_links(net, w[len - 2 - i], w[len - 1 - i]);
    }
    if w.len() > 1 {
        let d = w.drop_last();
        assert forall|i: int| 0 <= i < d.len() - 1 implies #[trigger] net.step_ok(d, i) by {
            assert(net.step_ok(w, i));
        }
        lemma_walk_reverse(net, d);
        assert(r =~= seq![w.last()] + d.reverse());
        lemma_walk_cost_prepend(net, w.last(), d.reverse());
        lemma_undirected_links(net, w[len - 2], w[len - 1]);
    }
}

/// In an undirected network `b` is reachable from `a` exactly when `a` is
/// reachable from `b`, and then the distances agree.
pub proof fn lemma_undirected_distance(net: TernaryNetwork, a: usize, b: usize)
    requires
        net.wf(),
        !net.is_directed(),
    ensures
        net.reachable(a, b) == net.reachable(b, a),
        net.reachable(a, b) ==> net.distance(a, b) == net.distance(b, a),
{
    if net.reachable(a, b) {
        lemma_reachable_reverse(net, a, b);
        let d = lemma_distance_exists(net, a, b);
        lemma_distance_reverse(net, a, b, d);
        net.lemma_distance_unique(b, a, d);
    }
    if net.reachable(b, a) {
        lemma_reachable_reverse(net, b, a);
    }
}

proof fn lemma_reachable_reverse(net: TernaryNetwork, a: usize, b: usize)
    requires
        net.wf(),
        !net.is_directed(),
        net.reachable(a, b),
    ensures
        net.reachable(b, a),
{
    let w = choose|w: Seq<usize>| #[trigger] net.is_path_between(w, a, b);
    lemma_walk_reverse(net, w);
    assert(net.is_path_between(w.reverse(), b, a));
}

/// The least cost from `a` to `b` is also the least cost from `b` to `a`.
proof fn lemma_distance_reverse(net: TernaryNetwork, a: usize, b: usize, d: int)
    requires
        net.wf(),
        !net.is_directed(),
        net.is_distance(a, b, d),
    ensures
        net.is_distance(b, a, d),
{
    let w = choose|w: Seq<usize>| #[trigger] net.is_path_between(w, a, b) && net.walk_cost(w) == d;
    lemma_walk_reverse(net, w);
    assert(net.is_path_between(w.reverse(), b, a));
    assert forall|v: Seq<usize>| #[trigger] net.is_path_between(v, b, a) implies net.walk_cost(v) >= d by {
        lemma_walk_reverse(net, v);
        assert(net.is_path_between(v.reverse(), a, b));
    }
}

/// A reachable node has a least walk cost.
pub proof fn lemma_distance_exists(net: TernaryNetwork, a: usize, b: usize) -> (d: int)
    requires
        net.reachable(a, b),
    ensures
        net.is_distance(a, b, d),
        net.distance(a, b) == d,
{
    let w = choose|w: Seq<usize>| #[trigger] net.is_path_between(w, a, b);
    net.lemma_walk_cost_bounds(w);
    let d = lemma_least_cost_below(net, a, b, net.walk_cost(w));
    net.lemma_distance_unique(a, b, d);
    d
}

/// Some walk costs at most `c`, so a least cost exists (by descent on `c`).
proof fn lemma_least_cost_below(net: TernaryNetwork, a: usize, b: usize, c: int) -> (d: int)
    requires
        c >= 0,
        exists|w: Seq<usize>| #[trigger] net.is_path_between(w, a, b) && net.walk_cost(w) <= c,
    ensures
        net.is_distance(a, b, d),
    decreases c,
{
    if net.cost_at_least(a, b, c) {
        let w = choose|w: Seq<usize>| #[trigger] net.is_path_between(w, a, b) && net.walk_cost(w) <= c;
        assert(net.walk_cost(w) == c);
        c
    } else {
        let w = choose|w: Seq<usize>| #[trigger] net.is_path_between(w, a, b) && net.walk_cost(w) < c;
        net.lemma_walk_cost_bounds(w);
        lemma_least_cost_below(net, a, b, c - 1)
    }
}

/// The sum of `degree_frequency(k, d)` over the degrees `d < dmax`.
pub open spec fn frequency_sum(net: TernaryNetwork, k: int, dmax: nat) -> nat
    decreases dmax,
{
    if dmax == 0 {
        0
    } else {
        frequency_sum(net, k, (dmax - 1) as nat) + net.degree_frequency(k, (dmax - 1) as nat)
    }
}

proof fn lemma_frequency_sum_step(net: TernaryNetwork, k: int, dmax: nat)
    requires
        k >= 1,
    ensures
        frequency_sum(net, k, dmax) == frequency_sum(net, k - 1, dmax) + if net.adjacency(
            net.node_seq()[k - 1],
        ).len() < dmax {
            1nat
        } else {
            0nat
        },
    decreases dmax,
{
    if dmax > 0 {
        lemma_frequency_sum_step(net, k, (dmax - 1) as nat);
    }
}

/// Every node is counted exactly once in the degree distribution: the
/// frequencies of all degrees (each at most the total number of adjacency
/// entries) add up to the number of nodes.
pub proof fn lemma_degree_frequencies_total(net: TernaryNetwork)
    requires
        net.wf(),
    ensures
        frequency_sum(net, net.num_nodes() as int, net.total_degree() + 1) == net.num_nodes(),
{
    lemma_frequency_sum_below(net, net.num_nodes() as int);
}

proof fn lemma_frequency_sum_below(net: TernaryNetwork, k: int)
    requires
        net.wf(),
        0 <= k <= net.num_nodes(),
    ensures
        frequency_sum(net, k, net.total_degree() + 1) == k,
    decreases k,
{
    let dmax = net.total_degree() + 1;
    if k == 0 {
        lemma_frequency_sum_zero(net, dmax);
    } else {
        lemma_frequency_sum_below(net, k - 1);
        lemma_frequency_sum_step(net, k, dmax);
        net.lemma_adjacency_at(k - 1);
        lemma_list_within_total(net.list_seq(), k - 1);
    }
}

proof fn lemma_frequency_sum_zero(net: TernaryNetwork, dmax: nat)
    ensures
        frequency_sum(net, 0, dmax) == 0,
    decreases dmax,
{
    if dmax > 0 {
        lemma_frequency_sum_zero(net, (dmax - 1) as nat);
    }
}

/// Adding an edge to an undirected network (as `add_edge` does, whatever
/// the sizes involved) keeps every edge stored both ways, and keeps every
/// adjacency entry leading to a node.
pub proof fn lemma_add_edge_keeps_symmetry(
    before: TernaryNetwork,
    after: TernaryNetwork,
    from: usize,
    to: usize,
    weight: TernaryWeight,
)
    requires
        before.wf(),
        !before.is_directed(),
        forall|m: usize| #[trigger] after.has_node(m) <==> before.has_node(m) || m == from || m == to,
        forall|m: usize|
            #[trigger] after.adjacency(m) == added_adjacency(before.adjacency(m), m, from, to, weight, false),
    ensures
        forall|a: usize, b: usize, w: TernaryWeight|
            #[trigger] after.multiplicity(a, b, w) == after.multiplicity(b, a, w),
        forall|u: usize, k: int|
            0 <= k < after.adjacency(u).len() ==> after.has_node(#[trigger] after.adjacency(u)[k].0),
{
    assert forall|a: usize, b: usize, w: TernaryWeight|
        #[trigger] after.multiplicity(a, b, w) == after.multiplicity(b, a, w) by {
        before.lemma_added_multiplicity(a, b, w, from, to, weight);
        before.lemma_added_multiplicity(b, a, w, from, to, weight);
        assert(before.multiplicity(a, b, w) == before.multiplicity(b, a, w));
        assert(after.adjacency(a) == added_adjacency(before.adjacency(a), a, from, to, weight, false));
        assert(after.adjacency(b) == added_adjacency(before.adjacency(b), b, from, to, weight, false));
    }
    assert forall|u: usize, k: int|
        0 <= k < after.adjacency(u).len() implies after.has_node(#[trigger] after.adjacency(u)[k].0) by {
        let adj = before.adjacency(u);
        assert(after.adjacency(u) == added_adjacency(adj, u, from, to, weight, false));
        if k < adj.len() {
            assert(after.adjacency(u)[k] == adj[k]);
            assert(adj.len() > 0);
            let v = before.pos(u);
            crate::network::lemma_index_of_increasing(before.node_seq(), v);
            assert(before.node_seq()[v] == u);
            before.lemma_entry_target(v, k);
            let t = adj[k].0;
            let j = before.pos(t);
            assert(before.node_seq()[j] == t);
            assert(before.has_node(t));
        }
    }
}

/// The linked-pair count behind the clustering coefficient counts every
/// index pair `a < b` of the node's adjacency list whose first entry's node
/// has an edge to the second entry's node, whatever the ids of the two
/// nodes and whatever the order in which the entries were added. In
/// particular, when every two entries are joined, it is the number of
/// pairs `k * (k - 1) / 2`.
pub proof fn lemma_clustering_linked_pairs(net: TernaryNetwork, node: usize)
    requires
        net.wf(),
    ensures
        ({
            let nb = net.adjacency(node);
            let k = nb.len() as int;
            net.linked_pairs(nb, k) == Set::new(
                |p: (int, int)| 0 <= p.0 < p.1 < k && net.links(nb[p.0].0, nb[p.1].0),
            ).len()
        }),
        ({
            let nb = net.adjacency(node);
            let k = nb.len() as int;
            (forall|a: int, b: int| 0 <= a < b < k ==> #[trigger] net.links(nb[a].0, nb[b].0))
                ==> net.linked_pairs(nb, k) == k * (k - 1) / 2
        }),
{
    let nb = net.adjacency(node);
    let k = nb.len() as int;
    net.lemma_linked_pairs_set(nb, k);
    assert(net.linked_index_pairs(nb, k) =~= Set::new(
        |p: (int, int)| 0 <= p.0 < p.1 < k && net.links(nb[p.0].0, nb[p.1].0),
    ));
    if forall|a: int, b: int| 0 <= a < b < k ==> #[trigger] net.links(nb[a].0, nb[b].0) {
        net.lemma_linked_pairs_all(nb, k);
        assert(2 * k * k - k * (k + 1) == k * (k - 1)) by (nonlinear_arith);
    }
}

/// Closeness adds up least walk costs: at each node `b` other than `node`
/// that `node` reaches, the distance total grows by the cost of some walk
/// from `node` to `b` that no walk from `node` to `b` undercuts (so a
/// `Zero` edge adds nothing); at `node` itself and at the nodes it does not
/// reach, the total stays as it was.
pub proof fn lemma_closeness_terms(net: TernaryNetwork, node: usize, k: int)
    requires
        net.wf(),
        1 <= k <= net.num_nodes(),
    ensures
        ({
            let b = net.node_seq()[k - 1];
            let d = net.distance_sum_from(node, k) - net.distance_sum_from(node, k - 1);
            &&& (b == node || !net.reachable(node, b)) ==> d == 0
            &&& (b != node && net.reachable(node, b)) ==> {
                &&& exists|w: Seq<usize>| #[trigger] net.is_path_between(w, node, b) && net.walk_cost(w) == d
                &&& forall|w: Seq<usize>| #[trigger] net.is_path_between(w, node, b) ==> d <= net.walk_cost(w)
            }
        }),
{
    let b = net.node_seq()[k - 1];
    if b != node && net.reachable(node, b) {
        lemma_distance_exists(net, node, b);
    }
}

/// The reach count of closeness is the number of nodes other than `node`
/// that some walk from `node` reaches.
pub proof fn lemma_closeness_reach_count(net: TernaryNetwork, node: usize)
    requires
        net.wf(),
    ensures
        net.reach_count_from(node, net.num_nodes() as int) == Set::new(
            |p: int|
                0 <= p < net.num_nodes() && net.node_seq()[p] != node && net.reachable(node, net.node_seq()[p]),
        ).len(),
{
    net.lemma_reach_count_set(node, net.num_nodes() as int);
    assert(net.reached_positions(node, net.num_nodes() as int) =~= Set::new(
        |p: int|
            0 <= p < net.num_nodes() && net.node_seq()[p] != node && net.reachable(node, net.node_seq()[p]),
    ));
}

/// The path-length total of small-world detection adds up least walk
/// costs: at each pair of positions `i < j - 1`, it grows by the cost of
/// some walk from the node at `i` to the node at `j - 1` that no such walk
/// undercuts, when there is one, and by nothing otherwise.
pub proof fn lemma_pair_path_terms(net: TernaryNetwork, i: int, j: int)
    requires
        net.wf(),
        0 <= i,
        i + 1 < j <= net.num_nodes(),
    ensures
        ({
            let a = net.node_seq()[i];
            let b = net.node_seq()[j - 1];
            let d = net.distance_sum_after(i, j) - net.distance_sum_after(i, j - 1);
            &&& !net.reachable(a, b) ==> d == 0
            &&& net.reachable(a, b) ==> {
                &&& exists|w: Seq<usize>| #[trigger] net.is_path_between(w, a, b) && net.walk_cost(w) == d
                &&& forall|w: Seq<usize>| #[trigger] net.is_path_between(w, a, b) ==> d <= net.walk_cost(w)
            }
        }),
{
    let a = net.node_seq()[i];
    let b = net.node_seq()[j - 1];
    if net.reachable(a, b) {
        lemma_distance_exists(net, a, b);
    }
}

/// The pair count of small-world detection is the number of pairs of
/// positions `p < q` (each unordered pair of distinct nodes once, from the
/// smaller id to the larger) such that some walk leads from the node at `p`
/// to the node at `q`.
pub proof fn lemma_pair_path_count(net: TernaryNetwork)
    requires
        net.wf(),
    ensures
        net.reachable_pairs(net.num_nodes() as int) == Set::new(
            |x: (int, int)|
                0 <= x.0 < x.1 < net.num_nodes() && net.reachable(net.node_seq()[x.0], net.node_seq()[x.1]),
        ).len(),
{
    net.lemma_reachable_pairs_set(net.num_nodes() as int);
    assert(net.reachable_position_pairs(net.num_nodes() as int) =~= Set::new(
        |x: (int, int)|
            0 <= x.0 < x.1 < net.num_nodes() && net.reachable(net.node_seq()[x.0], net.node_seq()[x.1]),
    ));
}

/// In a network whose edges all have weight `Zero`, every walk is free:
/// the closeness distance total of any node and the path-length total of
/// small-world detection are both 0, however many nodes are reached.
pub proof fn lemma_free_network_totals(net: TernaryNetwork, node: usize)
    requires
        net.wf(),
        forall|x: usize, e: int|
            0 <= e < net.adjacency(x).len() ==> (#[trigger] net.adjacency(x)[e]).1 == TernaryWeight::Zero,
    ensures
        net.distance_sum_from(node, net.num_nodes() as int) == 0,
        net.pair_distance_sum(net.num_nodes() as int) == 0,
{
    lemma_free_distance_sum_from(net, node, net.num_nodes() as int);
    lemma_free_pair_distance_sum(net, net.num_nodes() as int);
}

/// With only `Zero` edges, a walk costs nothing.
proof fn lemma_free_walk(net: TernaryNetwork, w: Seq<usize>)
    requires
        net.is_walk(w),
        forall|x: usize, e: int|
            0 <= e < net.adjacency(x).len() ==> (#[trigger] net.adjacency(x)[e]).1 == TernaryWeight::Zero,
    ensures
        net.walk_cost(w) == 0,
    decreases w.len(),
{
    if w.len() > 1 {
        let v = w.drop_last();
        assert forall|i: int| 0 <= i < v.len() - 1 implies #[trigger] net.step_ok(v, i) by {
            assert(net.step_ok(w, i));
        }
        lemma_free_walk(net, v);
        assert(net.step_ok(w, w.len() - 2));
        let e = net.lemma_step_entry(w[w.len() - 2], w.last());
        assert(net.adjacency(w[w.len() - 2])[e].1 == TernaryWeight::Zero);
    }
}

/// With only `Zero` edges, a reachable node is at distance 0.
proof fn lemma_free_distance(net: TernaryNetwork, a: usize, b: usize)
    requires
        net.reachable(a, b),
        forall|x: usize, e: int|
            0 <= e < net.adjacency(x).len() ==> (#[trigger] net.adjacency(x)[e]).1 == TernaryWeight::Zero,
    ensures
        net.distance(a, b) == 0,
{
    let d = lemma_distance_exists(net, a, b);
    let w = choose|w: Seq<usize>| #[trigger] net.is_path_between(w, a, b) && net.walk_cost(w) == d;
    lemma_free_walk(net, w);
}

proof fn lemma_free_distance_sum_from(net: TernaryNetwork, node: usize, k: int)
    requires
        0 <= k <= net.num_nodes(),
        forall|x: usize, e: int|
            0 <= e < net.adjacency(x).len() ==> (#[trigger] net.adjacency(x)[e]).1 == TernaryWeight::Zero,
    ensures
        net.distance_sum_from(node, k) == 0,
    decreases k,
{
    if k > 0 {
        lemma_free_distance_sum_from(net, node, k - 1);
        let b = net.node_seq()[k - 1];
        if b != node && net.reachable(node, b) {
            lemma_free_distance(net, node, b);
        }
    }
}

proof fn lemma_free_distance_sum_after(net: TernaryNetwork, i: int, j: int)
    requires
        0 <= i,
        j <= net.num_nodes(),
        forall|x: usize, e: int|
            0 <= e < net.adjacency(x).len() ==> (#[trigger] net.adjacency(x)[e]).1 == TernaryWeight::Zero,
    ensures
        net.distance_sum_after(i, j) == 0,
    decreases j - i,
{
    if j > i + 1 {
        lemma_free_distance_sum_after(net, i, j - 1);
        let a = net.node_seq()[i];
        let b = net.node_seq()[j - 1];
        if net.reachable(a, b) {
            lemma_free_distance(net, a, b);
        }
    }
}

proof fn lemma_free_pair_distance_sum(net: TernaryNetwork, i: int)
    requires
        0 <= i <= net.num_nodes(),
        forall|x: usize, e: int|
            0 <= e < net.adjacency(x).len() ==> (#[trigger] net.adjacency(x)[e]).1 == TernaryWeight::Zero,
    ensures
        net.pair_distance_sum(i) == 0,
    decreases i,
{
    if i > 0 {
        lemma_free_pair_distance_sum(net, i - 1);
        lemma_free_distance_sum_after(net, i - 1, net.num_nodes() as int);
    }
}

} // verus!
