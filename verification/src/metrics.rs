//! The integer parts of the network measures: triangle counts for the
//! clustering coefficient, and sums of shortest-path costs for closeness,
//! betweenness and small-world detection. The ratios themselves are floating
//! point and are formed by the callers.

use vstd::prelude::*;
use crate::network::{TernaryNetwork, Edge, target_count, total_len, strictly_increasing};
use std::collections::HashMap;

verus! {

broadcast use vstd::std_specs::hash::group_hash_axioms;

/// The community of `n` in the assignment `c`; a node missing from it is
/// in community 0.
pub open spec fn community(c: Map<usize, usize>, n: usize) -> usize {
    if c.contains_key(n) {
        c[n]
    } else {
        0
    }
}

/// The community of `node` in `communities`, 0 where it is missing.
pub fn community_of(communities: &HashMap<usize, usize>, node: usize) -> (r: usize)
    ensures
        r == community(communities@, node),
{
    match communities.get(&node) {
        Some(c) => *c,
        None => 0,
    }
}

/// Over the first `j` entries of `ids`, the number of entries of `s` that
/// lead to each, summed.
pub open spec fn targets_over(s: Seq<Edge>, ids: Seq<usize>, j: int) -> nat
    decreases j,
{
    if j <= 0 {
        0
    } else {
        targets_over(s, ids, j - 1) + target_count(s, ids[j - 1])
    }
}

/// The number of positions among the first `j` of `ids` holding `x`.
pub open spec fn occurrences(ids: Seq<usize>, j: int, x: usize) -> nat
    decreases j,
{
    if j <= 0 {
        0
    } else {
        occurrences(ids, j - 1, x) + if ids[j - 1] == x { 1nat } else { 0nat }
    }
}

proof fn lemma_occurrences_at_most_one(ids: Seq<usize>, j: int, x: usize)
    requires
        strictly_increasing(ids),
        j <= ids.len(),
    ensures
        occurrences(ids, j, x) <= 1,
        occurrences(ids, j, x) == 1 ==> j >= 1 && ids[j - 1] >= x,
    decreases j,
{
    if j > 0 {
        lemma_occurrences_at_most_one(ids, j - 1, x);
        if occurrences(ids, j - 1, x) == 1 {
            assert(ids[j - 2] < ids[j - 1]);
        }
    }
}

/// Over distinct ids, the entries of a list are counted at most once.
proof fn lemma_targets_over_bound(s: Seq<Edge>, ids: Seq<usize>, j: int)
    requires
        strictly_increasing(ids),
        0 <= j <= ids.len(),
    ensures
        targets_over(s, ids, j) <= s.len(),
    decreases s.len(),
{
    if s.len() > 0 {
        lemma_targets_over_split(s, ids, j);
        lemma_targets_over_bound(s.drop_last(), ids, j);
        lemma_occurrences_at_most_one(ids, j, s.last().0);
    } else {
        lemma_targets_over_empty(s, ids, j);
    }
}

proof fn lemma_targets_over_empty(s: Seq<Edge>, ids: Seq<usize>, j: int)
    requires
        s.len() == 0,
    ensures
        targets_over(s, ids, j) == 0,
    decreases j,
{
    if j > 0 {
        lemma_targets_over_empty(s, ids, j - 1);
    }
}

proof fn lemma_targets_over_split(s: Seq<Edge>, ids: Seq<usize>, j: int)
    requires
        s.len() > 0,
    ensures
        targets_over(s, ids, j) == targets_over(s.drop_last(), ids, j) + occurrences(ids, j, s.last().0),
    decreases j,
{
    if j > 0 {
        lemma_targets_over_split(s, ids, j - 1);
    }
}

impl TernaryNetwork {
    /// Among the entries of `nb` after index `i` and before index `j`, the
    /// number whose node is linked from the node of entry `i`.
    pub open spec fn links_after(&self, nb: Seq<Edge>, i: int, j: int) -> nat
        decreases j - i,
    {
        if j <= i + 1 {
            0
        } else {
            self.links_after(nb, i, j - 1) + if self.links(nb[i].0, nb[j - 1].0) { 1nat } else { 0nat }
        }
    }

    /// The number of index pairs `a < b` of `nb` with `a < i` such that the
    /// node of entry `a` links to the node of entry `b`.
    pub open spec fn linked_pairs(&self, nb: Seq<Edge>, i: int) -> nat
        decreases i,
    {
        if i <= 0 {
            0
        } else {
            self.linked_pairs(nb, i - 1) + self.links_after(nb, i - 1, nb.len() as int)
        }
    }

    /// The index pairs `(a, b)` of `nb`, with `a < b` and `a < i`, such
    /// that the node of entry `a` links to the node of entry `b`.
    pub open spec fn linked_index_pairs(&self, nb: Seq<Edge>, i: int) -> Set<(int, int)> {
        Set::new(|p: (int, int)| 0 <= p.0 < i && p.0 < p.1 < nb.len() && self.links(nb[p.0].0, nb[p.1].0))
    }

    /// The pairs of `linked_index_pairs` whose first index is `i` and whose
    /// second index is below `j`.
    spec fn linked_row(&self, nb: Seq<Edge>, i: int, j: int) -> Set<(int, int)> {
        Set::new(|p: (int, int)| p.0 == i && i < p.1 < j && self.links(nb[i].0, nb[p.1].0))
    }

    proof fn lemma_links_after_row(&self, nb: Seq<Edge>, i: int, j: int)
        requires
            0 <= i,
            j <= nb.len(),
        ensures
            self.linked_row(nb, i, j).finite(),
            self.links_after(nb, i, j) == self.linked_row(nb, i, j).len(),
        decreases j - i,
    {
        if j <= i + 1 {
            assert(self.linked_row(nb, i, j) =~= Set::empty());
        } else {
            self.lemma_links_after_row(nb, i, j - 1);
            let prev = self.linked_row(nb, i, j - 1);
            if self.links(nb[i].0, nb[j - 1].0) {
                assert(self.linked_row(nb, i, j) =~= prev.insert((i, j - 1)));
                assert(!prev.contains((i, j - 1)));
            } else {
                assert(self.linked_row(nb, i, j) =~= prev);
            }
        }
    }

    /// The recursive count of linked pairs is the size of the set of
    /// linked index pairs.
    pub proof fn lemma_linked_pairs_set(&self, nb: Seq<Edge>, i: int)
        requires
            0 <= i <= nb.len(),
        ensures
            self.linked_index_pairs(nb, i).finite(),
            self.linked_pairs(nb, i) == self.linked_index_pairs(nb, i).len(),
        decreases i,
    {
        if i == 0 {
            assert(self.linked_index_pairs(nb, i) =~= Set::empty());
        } else {
            self.lemma_linked_pairs_set(nb, i - 1);
            self.lemma_links_after_row(nb, i - 1, nb.len() as int);
            let before = self.linked_index_pairs(nb, i - 1);
            let row = self.linked_row(nb, i - 1, nb.len() as int);
            assert(self.linked_index_pairs(nb, i) =~= before + row);
            assert(before.disjoint(row));
            vstd::set_lib::lemma_set_disjoint_lens(before, row);
        }
    }

    /// When every two entries of `nb` are linked (earlier to later), the
    /// first `i` rows hold `i * len - i * (i + 1) / 2` linked pairs.
    pub proof fn lemma_linked_pairs_all(&self, nb: Seq<Edge>, i: int)
        requires
            0 <= i <= nb.len(),
            forall|a: int, b: int| 0 <= a < b < nb.len() ==> #[trigger] self.links(nb[a].0, nb[b].0),
        ensures
            2 * self.linked_pairs(nb, i) == 2 * i * nb.len() - i * (i + 1),
        decreases i,
    {
        if i > 0 {
            self.lemma_linked_pairs_all(nb, i - 1);
            self.lemma_links_after_all(nb, i - 1, nb.len() as int);
            let k = nb.len() as int;
            assert(self.linked_pairs(nb, i) == self.linked_pairs(nb, i - 1) + (k - i));
            assert(2 * i * k - i * (i + 1) == 2 * (i - 1) * k - (i - 1) * i + 2 * (k - i)) by (nonlinear_arith);
            assert(2 * i * nb.len() == 2 * i * k);
            assert(2 * (i - 1) * nb.len() == 2 * (i - 1) * k);
            assert((i - 1) * ((i - 1) + 1) == (i - 1) * i);
        } else {
            assert(2 * i * nb.len() - i * (i + 1) == 0) by (nonlinear_arith)
                requires
                    i == 0,
            ;
        }
    }

    proof fn lemma_links_after_all(&self, nb: Seq<Edge>, i: int, j: int)
        requires
            0 <= i < j <= nb.len(),
            forall|a: int, b: int| 0 <= a < b < nb.len() ==> #[trigger] self.links(nb[a].0, nb[b].0),
        ensures
            self.links_after(nb, i, j) == j - i - 1,
        decreases j - i,
    {
        if j > i + 1 {
            self.lemma_links_after_all(nb, i, j - 1);
            assert(self.links(nb[i].0, nb[j - 1].0));
        }
    }

    /// The triangle count behind the clustering coefficient of `node`: over
    /// the pairs of entries of its adjacency list (neighbours counted with
    /// multiplicity), how many are linked, and how many pairs there are.
    /// The coefficient is the first over the second, and 0 when there are
    /// no pairs (fewer than two entries).
    pub fn clustering_counts(&self, node: usize) -> (r: (usize, usize))
        requires
            self.wf(),
            self.adjacency(node).len() * (self.adjacency(node).len() - 1) <= usize::MAX,
        ensures
            r.0 == self.linked_pairs(self.adjacency(node), self.adjacency(node).len() as int),
            r.0 == self.linked_index_pairs(self.adjacency(node), self.adjacency(node).len() as int).len(),
            r.1 == self.adjacency(node).len() * (self.adjacency(node).len() - 1) / 2,
            r.0 <= r.1,
            (forall|a: int, b: int|
                0 <= a < b < self.adjacency(node).len() ==> #[trigger] self.links(
                    self.adjacency(node)[a].0,
                    self.adjacency(node)[b].0,
                )) ==> r.0 == r.1,
    {
        let edges = self.neighbors(node);
        let k = edges.len();
        let ghost nb = edges@;
        proof {
            self.lemma_linked_pairs_set(nb, nb.len() as int);
            if forall|a: int, b: int| 0 <= a < b < nb.len() ==> #[trigger] self.links(nb[a].0, nb[b].0) {
                self.lemma_linked_pairs_all(nb, nb.len() as int);
                assert(2 * k * k - k * (k + 1) == k * (k - 1)) by (nonlinear_arith);
            }
        }
        if k < 2 {
            proof {
                assert(k * (k - 1) == 0) by (nonlinear_arith)
                    requires
                        k < 2,
                ;
                assert(self.linked_pairs(nb, 0) == 0);
                if k == 1 {
                    assert(self.links_after(nb, 0, 1) == 0);
                }
            }
            return (0, 0);
        }
        let mut triangles: usize = 0;
        let mut i: usize = 0;
        while i < k
            invariant
                self.wf(),
                nb == edges@,
                k == nb.len(),
                k * (k - 1) <= usize::MAX,
                i <= k,
                triangles == self.linked_pairs(nb, i as int),
                2 * triangles <= 2 * i * k - i * (i + 1),
            decreases k - i,
        {
            let mut j: usize = i + 1;
            let mut inner: usize = 0;
            while j < k
                invariant
                    self.wf(),
                    nb == edges@,
                    k == nb.len(),
                    k * (k - 1) <= usize::MAX,
                    i < k,
                    i + 1 <= j <= k,
                    triangles == self.linked_pairs(nb, i as int),
                    2 * triangles <= 2 * i * k - i * (i + 1),
                    inner == self.links_after(nb, i as int, j as int),
                    inner <= j - i - 1,
                decreases k - j,
            {
                if self.has_edge(edges[i].0, edges[j].0) {
                    inner = inner + 1;
                }
                j = j + 1;
            }
            proof {
                assert(2 * (triangles + inner) <= 2 * (i + 1) * k - (i + 1) * (i + 2)) by (nonlinear_arith)
                    requires
                        2 * triangles <= 2 * i * k - i * (i + 1),
                        inner <= k - i - 1,
                ;
                assert((i + 1) * (i + 2) <= 2 * (i + 1) * k) by (nonlinear_arith)
                    requires
                        i + 1 <= k,
                ;
                assert(k * (k - 1) == 2 * k * k - k * (k + 1)) by (nonlinear_arith);
                assert(2 * (i + 1) * k - (i + 1) * (i + 2) <= k * (k - 1)) by (nonlinear_arith)
                    requires
                        i + 1 <= k,
                ;
            }
            triangles = triangles + inner;
            i = i + 1;
        }
        proof {
            assert(2 * k * k - k * (k + 1) == k * (k - 1)) by (nonlinear_arith);
        }
        (triangles, k * (k - 1) / 2)
    }
    /// Among the first `k` nodes, the number of nodes other than `a` that
    /// can be reached from `a`.
    pub open spec fn reach_count_from(&self, a: usize, k: int) -> nat
        decreases k,
    {
        if k <= 0 {
            0
        } else {
            let b = self.node_seq()[k - 1];
            self.reach_count_from(a, k - 1) + if b != a && self.reachable(a, b) { 1nat } else { 0nat }
        }
    }

    /// Among the first `k` nodes, the sum of the distances from `a` to the
    /// nodes other than `a` that can be reached from it.
    pub open spec fn distance_sum_from(&self, a: usize, k: int) -> int
        decreases k,
    {
        if k <= 0 {
            0
        } else {
            let b = self.node_seq()[k - 1];
            self.distance_sum_from(a, k - 1) + if b != a && self.reachable(a, b) {
                self.distance(a, b)
            } else {
                0
            }
        }
    }

    /// The positions `p < k` of the nodes other than `a` that `a` reaches.
    pub open spec fn reached_positions(&self, a: usize, k: int) -> Set<int> {
        Set::new(|p: int| 0 <= p < k && self.node_seq()[p] != a && self.reachable(a, self.node_seq()[p]))
    }

    /// The recursive reach count is the number of reached positions.
    pub proof fn lemma_reach_count_set(&self, a: usize, k: int)
        requires
            0 <= k <= self.num_nodes(),
        ensures
            self.reached_positions(a, k).finite(),
            self.reach_count_from(a, k) == self.reached_positions(a, k).len(),
        decreases k,
    {
        if k == 0 {
            assert(self.reached_positions(a, k) =~= Set::empty());
        } else {
            self.lemma_reach_count_set(a, k - 1);
            let prev = self.reached_positions(a, k - 1);
            let b = self.node_seq()[k - 1];
            if b != a && self.reachable(a, b) {
                assert(self.reached_positions(a, k) =~= prev.insert(k - 1));
                assert(!prev.contains(k - 1));
            } else {
                assert(self.reached_positions(a, k) =~= prev);
            }
        }
    }

    /// The sums behind the closeness centrality of `node`: the total of the
    /// shortest-path costs from `node` to every other node it reaches, and
    /// the number of those nodes.
    pub fn closeness_totals(&self, node: usize) -> (r: (u64, usize))
        requires
            self.wf(),
            self.num_nodes() < i32::MAX,
        ensures
            r.0 == self.distance_sum_from(node, self.num_nodes() as int),
            r.1 == self.reach_count_from(node, self.num_nodes() as int),
            r.1 == self.reached_positions(node, self.num_nodes() as int).len(),
    {
        proof {
            self.lemma_reach_count_set(node, self.num_nodes() as int);
        }
        let ids = self.nodes();
        let n = ids.len();
        let mut total: u64 = 0;
        let mut reachable: usize = 0;
        let mut i: usize = 0;
        while i < n
            invariant
                self.wf(),
                self.num_nodes() < i32::MAX,
                ids@ == self.node_seq(),
                n == ids@.len(),
                i <= n,
                total == self.distance_sum_from(node, i as int),
                reachable == self.reach_count_from(node, i as int),
                total <= i * n,
                reachable <= i,
            decreases n - i,
        {
            let other = ids[i];
            if other != node {
                match self.shortest_path(node, other) {
                    Some((_, cost)) => {
                        proof {
                            self.lemma_distance_unique(node, other, cost as int);
                            assert((i + 1) * n == i * n + n) by (nonlinear_arith);
                            assert(i * n + n <= n * n) by (nonlinear_arith)
                                requires
                                    i < n,
                            ;
                            assert(n * n < 0x1_0000_0000_0000_0000) by (nonlinear_arith)
                                requires
                                    n < 0x8000_0000,
                            ;
                        }
                        total = total + cost as u64;
                        reachable = reachable + 1;
                    },
                    None => {},
                }
            }
            proof {
                assert((i + 1) * n == i * n + n) by (nonlinear_arith);
            }
            i = i + 1;
        }
        (total, reachable)
    }

    /// Among the nodes after position `i` and before position `j`, the
    /// number reachable from the node at position `i`.
    pub open spec fn reach_count_after(&self, i: int, j: int) -> nat
        decreases j - i,
    {
        if j <= i + 1 {
            0
        } else {
            self.reach_count_after(i, j - 1) + if self.reachable(self.node_seq()[i], self.node_seq()[j - 1]) {
                1nat
            } else {
                0nat
            }
        }
    }

    /// Among the nodes after position `i` and before position `j`, the sum
    /// of the distances from the node at position `i` to those it reaches.
    pub open spec fn distance_sum_after(&self, i: int, j: int) -> int
        decreases j - i,
    {
        if j <= i + 1 {
            0
        } else {
            self.distance_sum_after(i, j - 1) + if self.reachable(self.node_seq()[i], self.node_seq()[j - 1]) {
                self.distance(self.node_seq()[i], self.node_seq()[j - 1])
            } else {
                0
            }
        }
    }

    /// Over the position pairs `a < b` with `a < i`, the number of pairs
    /// whose second node is reachable from the first.
    pub open spec fn reachable_pairs(&self, i: int) -> nat
        decreases i,
    {
        if i <= 0 {
            0
        } else {
            self.reachable_pairs(i - 1) + self.reach_count_after(i - 1, self.num_nodes() as int)
        }
    }

    /// Over the position pairs `a < b` with `a < i`, the sum of the
    /// distances from the first node to the second where it is reachable.
    pub open spec fn pair_distance_sum(&self, i: int) -> int
        decreases i,
    {
        if i <= 0 {
            0
        } else {
            self.pair_distance_sum(i - 1) + self.distance_sum_after(i - 1, self.num_nodes() as int)
        }
    }

    /// The position pairs `(p, q)` with `p < q`, `p < i` and `q` below the
    /// number of nodes, such that the node at `q` is reachable from the node
    /// at `p`.
    pub open spec fn reachable_position_pairs(&self, i: int) -> Set<(int, int)> {
        Set::new(
            |x: (int, int)|
                0 <= x.0 < i && x.0 < x.1 < self.num_nodes() && self.reachable(
                    self.node_seq()[x.0],
                    self.node_seq()[x.1],
                ),
        )
    }

    /// The pairs of `reachable_position_pairs` with first position `i` and
    /// second position below `j`.
    spec fn reachable_row(&self, i: int, j: int) -> Set<(int, int)> {
        Set::new(
            |x: (int, int)| x.0 == i && i < x.1 < j && self.reachable(self.node_seq()[i], self.node_seq()[x.1]),
        )
    }

    proof fn lemma_reach_count_after_row(&self, i: int, j: int)
        requires
            0 <= i,
            j <= self.num_nodes(),
        ensures
            self.reachable_row(i, j).finite(),
            self.reach_count_after(i, j) == self.reachable_row(i, j).len(),
        decreases j - i,
    {
        if j <= i + 1 {
            assert(self.reachable_row(i, j) =~= Set::empty());
        } else {
            self.lemma_reach_count_after_row(i, j - 1);
            let prev = self.reachable_row(i, j - 1);
            if self.reachable(self.node_seq()[i], self.node_seq()[j - 1]) {
                assert(self.reachable_row(i, j) =~= prev.insert((i, j - 1)));
                assert(!prev.contains((i, j - 1)));
            } else {
                assert(self.reachable_row(i, j) =~= prev);
            }
        }
    }

    /// The recursive count of reachable pairs is the number of reachable
    /// position pairs.
    pub proof fn lemma_reachable_pairs_set(&self, i: int)
        requires
            0 <= i <= self.num_nodes(),
        ensures
            self.reachable_position_pairs(i).finite(),
            self.reachable_pairs(i) == self.reachable_position_pairs(i).len(),
        decreases i,
    {
        if i == 0 {
            assert(self.reachable_position_pairs(i) =~= Set::empty());
        } else {
            self.lemma_reachable_pairs_set(i - 1);
            self.lemma_reach_count_after_row(i - 1, self.num_nodes() as int);
            let before = self.reachable_position_pairs(i - 1);
            let row = self.reachable_row(i - 1, self.num_nodes() as int);
            assert(self.reachable_position_pairs(i) =~= before + row);
            assert(before.disjoint(row));
            vstd::set_lib::lemma_set_disjoint_lens(before, row);
        }
    }

    /// The sums behind the average shortest-path length used by small-world
    /// detection: over the unordered pairs of distinct nodes (each pair taken
    /// once, from the smaller id to the larger), the total cost of the
    /// shortest paths that exist and the number of pairs that have one.
    pub fn pair_path_totals(&self) -> (r: (u128, u64))
        requires
            self.wf(),
            self.num_nodes() < i32::MAX,
        ensures
            r.0 == self.pair_distance_sum(self.num_nodes() as int),
            r.1 == self.reachable_pairs(self.num_nodes() as int),
            r.1 == self.reachable_position_pairs(self.num_nodes() as int).len(),
    {
        proof {
            self.lemma_reachable_pairs_set(self.num_nodes() as int);
        }
        let ids = self.nodes();
        let n = ids.len();
        let mut total: u128 = 0;
        let mut count: u64 = 0;
        let mut i: usize = 0;
        proof {
            assert(n * n < 0x1_0000_0000_0000_0000) by (nonlinear_arith)
                requires
                    n < 0x8000_0000,
            ;
            assert(n * n * n < 0x1_0000_0000_0000_0000_0000_0000_0000_0000) by (nonlinear_arith)
                requires
                    n < 0x8000_0000,
            ;
        }
        while i < n
            invariant
                self.wf(),
                self.num_nodes() < i32::MAX,
                ids@ == self.node_seq(),
                n == ids@.len(),
                i <= n,
                n * n < 0x1_0000_0000_0000_0000,
                n * n * n < 0x1_0000_0000_0000_0000_0000_0000_0000_0000,
                total == self.pair_distance_sum(i as int),
                count == self.reachable_pairs(i as int),
                total <= i * n * n,
                count <= i * n,
            decreases n - i,
        {
            let mut j: usize = i + 1;
            let mut inner_total: u128 = 0;
            let mut inner_count: u64 = 0;
            while j < n
                invariant
                    self.wf(),
                    self.num_nodes() < i32::MAX,
                    ids@ == self.node_seq(),
                    n == ids@.len(),
                    i < n,
                    i + 1 <= j <= n,
                    n * n < 0x1_0000_0000_0000_0000,
                    n * n * n < 0x1_0000_0000_0000_0000_0000_0000_0000_0000,
                    total == self.pair_distance_sum(i as int),
                    count == self.reachable_pairs(i as int),
                    total <= i * n * n,
                    count <= i * n,
                    inner_total == self.distance_sum_after(i as int, j as int),
                    inner_count == self.reach_count_after(i as int, j as int),
                    inner_total <= j * n,
                    inner_count <= j,
                decreases n - j,
            {
                match self.shortest_path(ids[i], ids[j]) {
                    Some((_, cost)) => {
                        proof {
                            assert(ids@[i as int] != ids@[j as int]) by {
                                assert(ids@[i as int] < ids@[j as int]);
                            }
                            self.lemma_distance_unique(ids@[i as int], ids@[j as int], cost as int);
                            assert((j + 1) * n == j * n + n) by (nonlinear_arith);
                            assert(j * n + n <= n * n) by (nonlinear_arith)
                                requires
                                    j < n,
                            ;
                        }
                        inner_total = inner_total + cost as u128;
                        inner_count = inner_count + 1;
                    },
                    None => {
                        proof {
                            assert(ids@[i as int] != ids@[j as int]) by {
                                assert(ids@[i as int] < ids@[j as int]);
                            }
                        }
                    },
                }
                proof {
                    assert((j + 1) * n == j * n + n) by (nonlinear_arith);
                }
                j = j + 1;
            }
            proof {
                assert((i + 1) * n * n == i * n * n + n * n) by (nonlinear_arith);
                assert(i * n * n + n * n <= n * n * n) by (nonlinear_arith)
                    requires
                        i < n,
                ;
                assert((i + 1) * n == i * n + n) by (nonlinear_arith);
                assert(i * n + n <= n * n) by (nonlinear_arith)
                    requires
                        i < n,
                ;
            }
            total = total + inner_total;
            count = count + inner_count;
            i = i + 1;
        }
        (total, count)
    }
    /// `w` is a cheapest walk from `s` to `t`.
    pub open spec fn is_cheapest_walk(&self, w: Seq<usize>, s: usize, t: usize) -> bool {
        &&& self.is_path_between(w, s, t)
        &&& self.walk_cost(w) == self.distance(s, t)
    }

    /// `s`, `t` and `target` are distinct, and some cheapest walk from `s`
    /// to `t` runs through `target`.
    pub open spec fn may_pass_through(&self, s: usize, t: usize, target: usize) -> bool {
        &&& s != t
        &&& s != target
        &&& t != target
        &&& exists|w: Seq<usize>| #[trigger] self.is_cheapest_walk(w, s, t) && w.contains(target)
    }

    /// `s`, `t` and `target` are distinct, `t` is reachable from `s`, and
    /// every cheapest walk from `s` to `t` runs through `target`.
    pub open spec fn must_pass_through(&self, s: usize, t: usize, target: usize) -> bool {
        &&& s != t
        &&& s != target
        &&& t != target
        &&& self.reachable(s, t)
        &&& forall|w: Seq<usize>| #[trigger] self.is_cheapest_walk(w, s, t) ==> w.contains(target)
    }

    /// For the node at position `i` as source, the number of nodes among the
    /// first `j` for which `must` (or else `may`) pass through `target` holds.
    pub open spec fn through_count_row(&self, target: usize, i: int, j: int, must: bool) -> nat
        decreases j,
    {
        if j <= 0 {
            0
        } else {
            let s = self.node_seq()[i];
            let t = self.node_seq()[j - 1];
            let holds = if must {
                self.must_pass_through(s, t, target)
            } else {
                self.may_pass_through(s, t, target)
            };
            self.through_count_row(target, i, j - 1, must) + if holds { 1nat } else { 0nat }
        }
    }

    /// Over the sources among the first `i` nodes, the number of ordered
    /// pairs of nodes for which `must` (or else `may`) pass through `target`.
    pub open spec fn through_count(&self, target: usize, i: int, must: bool) -> nat
        decreases i,
    {
        if i <= 0 {
            0
        } else {
            self.through_count(target, i - 1, must) + self.through_count_row(
                target,
                i - 1,
                self.num_nodes() as int,
                must,
            )
        }
    }

    /// `s`, `t` and `target` are distinct, and the path that `shortest_path`
    /// returns from `s` to `t` runs through `target`.
    pub open spec fn returned_path_passes(&self, s: usize, t: usize, target: usize) -> bool {
        &&& s != t
        &&& s != target
        &&& t != target
        &&& self.bfs_path(s, t) matches Some((p, _)) && p.contains(target)
    }

    /// For the node at position `i` as source, the number of nodes among the
    /// first `j` whose returned path from it runs through `target`.
    pub open spec fn returned_count_row(&self, target: usize, i: int, j: int) -> nat
        decreases j,
    {
        if j <= 0 {
            0
        } else {
            self.returned_count_row(target, i, j - 1) + if self.returned_path_passes(
                self.node_seq()[i],
                self.node_seq()[j - 1],
                target,
            ) {
                1nat
            } else {
                0nat
            }
        }
    }

    /// Over the sources among the first `i` nodes, the number of ordered
    /// pairs of nodes whose returned path runs through `target`.
    pub open spec fn returned_count(&self, target: usize, i: int) -> nat
        decreases i,
    {
        if i <= 0 {
            0
        } else {
            self.returned_count(target, i - 1) + self.returned_count_row(target, i - 1, self.num_nodes() as int)
        }
    }

    /// Position of `x` in `v`, if it occurs.
    fn find_in(v: &Vec<usize>, x: usize) -> (r: Option<usize>)
        ensures
            match r {
                Some(m) => m < v@.len() && v@[m as int] == x,
                None => !v@.contains(x),
            },
    {
        let mut m: usize = 0;
        while m < v.len()
            invariant
                m <= v@.len(),
                forall|t: int| 0 <= t < m ==> v@[t] != x,
            decreases v@.len() - m,
        {
            if v[m] == x {
                return Some(m);
            }
            m = m + 1;
        }
        None
    }

    /// The count behind the betweenness centrality of `target`: the number of
    /// ordered pairs of distinct nodes, both other than `target`, whose
    /// shortest path (as `shortest_path` returns it) runs through `target`.
    /// It lies between the number of pairs all of whose cheapest walks run
    /// through `target` and the number of pairs some of whose cheapest walks
    /// do, and equals both where cheapest walks are unique.
    pub fn betweenness_count(&self, target: usize) -> (r: u64)
        requires
            self.wf(),
            self.num_nodes() < i32::MAX,
        ensures
            r == self.returned_count(target, self.num_nodes() as int),
            self.through_count(target, self.num_nodes() as int, true) <= r,
            r <= self.through_count(target, self.num_nodes() as int, false),
            r <= self.num_nodes() * self.num_nodes(),
    {
        let ids = self.nodes();
        let n = ids.len();
        let mut count: u64 = 0;
        let mut i: usize = 0;
        proof {
            assert(n * n < 0x1_0000_0000_0000_0000) by (nonlinear_arith)
                requires
                    n < 0x8000_0000,
            ;
        }
        while i < n
            invariant
                self.wf(),
                self.num_nodes() < i32::MAX,
                ids@ == self.node_seq(),
                n == ids@.len(),
                i <= n,
                n * n < 0x1_0000_0000_0000_0000,
                count == self.returned_count(target, i as int),
                self.through_count(target, i as int, true) <= count,
                count <= self.through_count(target, i as int, false),
                count <= i * n,
            decreases n - i,
        {
            let mut j: usize = 0;
            let mut row: u64 = 0;
            while j < n
                invariant
                    self.wf(),
                    self.num_nodes() < i32::MAX,
                    ids@ == self.node_seq(),
                    n == ids@.len(),
                    i < n,
                    j <= n,
                    n * n < 0x1_0000_0000_0000_0000,
                    self.through_count(target, i as int, true) <= count,
                    count <= self.through_count(target, i as int, false),
                    count <= i * n,
                    count == self.returned_count(target, i as int),
                    row == self.returned_count_row(target, i as int, j as int),
                    self.through_count_row(target, i as int, j as int, true) <= row,
                    row <= self.through_count_row(target, i as int, j as int, false),
                    row <= j,
                decreases n - j,
            {
                let s = ids[i];
                let t = ids[j];
                if !(s == t || s == target || t == target) {
                    match self.shortest_path(s, t) {
                        Some((path, cost)) => {
                            proof {
                                self.lemma_distance_unique(s, t, cost as int);
                                assert(self.is_cheapest_walk(path@, s, t));
                            }
                            match Self::find_in(&path, target) {
                                Some(m) => {
                                    proof {
                                        assert(path@[m as int] == target);
                                        assert(path@.contains(target));
                                    }
                                    row = row + 1;
                                },
                                None => {},
                            }
                        },
                        None => {},
                    }
                }
                j = j + 1;
            }
            proof {
                assert((i + 1) * n == i * n + n) by (nonlinear_arith);
                assert(i * n + n <= n * n) by (nonlinear_arith)
                    requires
                        i < n,
                ;
            }
            count = count + row;
            i = i + 1;
        }
        count
    }
    /// The sum of the degrees (adjacency lengths) of the first `j` nodes.
    pub open spec fn degree_sum(&self, j: int) -> nat
        decreases j,
    {
        if j <= 0 {
            0
        } else {
            self.degree_sum(j - 1) + self.adjacency(self.node_seq()[j - 1]).len()
        }
    }

    proof fn lemma_degree_sum_total(&self, j: int)
        requires
            self.wf(),
            0 <= j <= self.num_nodes(),
        ensures
            self.degree_sum(j) == total_len(self.list_seq().take(j)),
        decreases j,
    {
        if j > 0 {
            self.lemma_degree_sum_total(j - 1);
            self.lemma_adjacency_at(j - 1);
            assert(self.list_seq().take(j).drop_last() =~= self.list_seq().take(j - 1));
        } else {
            assert(self.list_seq().take(0) =~= Seq::<Seq<Edge>>::empty());
        }
    }

    /// Nodes `a` and `b` are in the same community of `c`.
    pub open spec fn same_community(&self, c: Map<usize, usize>, a: usize, b: usize) -> bool {
        community(c, a) == community(c, b)
    }

    /// For the node at position `i`, the sum of `A[i][t]` (edges from it to
    /// the node at position `t`) over the positions `t < j` in its community.
    pub open spec fn within_links_row(&self, c: Map<usize, usize>, i: int, j: int) -> nat
        decreases j,
    {
        if j <= 0 {
            0
        } else {
            let a = self.node_seq()[i];
            let b = self.node_seq()[j - 1];
            self.within_links_row(c, i, j - 1) + if self.same_community(c, a, b) {
                target_count(self.adjacency(a), b)
            } else {
                0
            }
        }
    }

    /// The sum of `A[a][b]` over the ordered pairs of nodes in one community,
    /// with `a` among the first `i` nodes.
    pub open spec fn within_links(&self, c: Map<usize, usize>, i: int) -> nat
        decreases i,
    {
        if i <= 0 {
            0
        } else {
            self.within_links(c, i - 1) + self.within_links_row(c, i - 1, self.num_nodes() as int)
        }
    }

    /// For the node at position `i`, the sum of `k_i * k_t` (products of
    /// degrees) over the positions `t < j` in its community.
    pub open spec fn degree_products_row(&self, c: Map<usize, usize>, i: int, j: int) -> nat
        decreases j,
    {
        if j <= 0 {
            0
        } else {
            let a = self.node_seq()[i];
            let b = self.node_seq()[j - 1];
            self.degree_products_row(c, i, j - 1) + if self.same_community(c, a, b) {
                self.adjacency(a).len() * self.adjacency(b).len()
            } else {
                0
            }
        }
    }

    /// The sum of `k_a * k_b` over the ordered pairs of nodes in one
    /// community, with `a` among the first `i` nodes.
    pub open spec fn degree_products(&self, c: Map<usize, usize>, i: int) -> nat
        decreases i,
    {
        if i <= 0 {
            0
        } else {
            self.degree_products(c, i - 1) + self.degree_products_row(c, i - 1, self.num_nodes() as int)
        }
    }

    /// The exact sums behind modularity for a community assignment, where a
    /// node missing from `communities` is in community 0: the sum of `A_ij`
    /// and the sum of `k_i * k_j` over the ordered pairs of nodes in one
    /// community. With `m` edges, the modularity is
    /// `(2m * first - second) / (4 m^2)`.
    pub fn modularity_sums(&self, communities: &HashMap<usize, usize>) -> (r: (usize, u128))
        requires
            self.wf(),
        ensures
            r.0 == self.within_links(communities@, self.num_nodes() as int),
            r.1 == self.degree_products(communities@, self.num_nodes() as int),
    {
        let ids = self.nodes();
        let n = ids.len();
        let ghost c = communities@;
        let ghost total = self.total_degree();
        proof {
            self.lemma_degree_sum_total(n as int);
            assert(self.list_seq().take(n as int) =~= self.list_seq());
            assert(total * total < 0x1_0000_0000_0000_0000_0000_0000_0000_0000) by (nonlinear_arith)
                requires
                    total <= usize::MAX,
            ;
        }
        let mut links: usize = 0;
        let mut products: u128 = 0;
        let mut i: usize = 0;
        while i < n
            invariant
                self.wf(),
                ids@ == self.node_seq(),
                n == ids@.len(),
                i <= n,
                c == communities@,
                total == self.total_degree(),
                self.degree_sum(n as int) == total,
                total * total < 0x1_0000_0000_0000_0000_0000_0000_0000_0000,
                links == self.within_links(c, i as int),
                products == self.degree_products(c, i as int),
                links <= self.degree_sum(i as int),
                products <= self.degree_sum(i as int) * total,
            decreases n - i,
        {
            let a = ids[i];
            let ca = community_of(communities, a);
            let ka = self.neighbors(a).len();
            let mut j: usize = 0;
            let mut row_links: usize = 0;
            let mut row_products: u128 = 0;
            proof {
                self.lemma_degree_sum_mono(i as int + 1, n as int);
            }
            while j < n
                invariant
                    self.wf(),
                    ids@ == self.node_seq(),
                    n == ids@.len(),
                    i < n,
                    j <= n,
                    a == ids@[i as int],
                    c == communities@,
                    ca == community(c, a),
                    ka == self.adjacency(a).len(),
                    total == self.total_degree(),
                    self.degree_sum(n as int) == total,
                    self.degree_sum(i as int) + ka <= total,
                    total * total < 0x1_0000_0000_0000_0000_0000_0000_0000_0000,
                    links == self.within_links(c, i as int),
                    products == self.degree_products(c, i as int),
                    links <= self.degree_sum(i as int),
                    products <= self.degree_sum(i as int) * total,
                    row_links == self.within_links_row(c, i as int, j as int),
                    row_products == self.degree_products_row(c, i as int, j as int),
                    row_links <= targets_over(self.adjacency(a), ids@, j as int),
                    row_products <= ka * self.degree_sum(j as int),
                decreases n - j,
            {
                let b = ids[j];
                proof {
                    self.lemma_degree_sum_mono(j as int + 1, n as int);
                    lemma_targets_over_bound(self.adjacency(a), ids@, j as int + 1);
                    assert(ka * self.degree_sum(j + 1) <= ka * total) by (nonlinear_arith)
                        requires
                            self.degree_sum(j + 1) <= total,
                    ;
                    assert(ka * total <= total * total) by (nonlinear_arith)
                        requires
                            ka <= total,
                    ;
                    assert(ka * self.degree_sum(j + 1) == ka * self.degree_sum(j as int)
                        + ka * self.adjacency(b).len()) by (nonlinear_arith)
                        requires
                            self.degree_sum(j + 1) == self.degree_sum(j as int) + self.adjacency(b).len(),
                    ;
                }
                if community_of(communities, b) == ca {
                    let kb = self.neighbors(b).len();
                    row_links = row_links + self.edge_multiplicity(a, b);
                    row_products = row_products + (ka as u128) * (kb as u128);
                }
                j = j + 1;
            }
            proof {
                lemma_targets_over_bound(self.adjacency(a), ids@, n as int);
                assert(self.degree_sum(i + 1) == self.degree_sum(i as int) + ka);
                assert(products + row_products <= self.degree_sum(i + 1) * total) by (nonlinear_arith)
                    requires
                        products <= self.degree_sum(i as int) * total,
                        row_products <= ka * self.degree_sum(n as int),
                        self.degree_sum(n as int) == total,
                        self.degree_sum(i + 1) == self.degree_sum(i as int) + ka,
                ;
                self.lemma_degree_sum_mono(i as int + 1, n as int);
                assert(self.degree_sum(i + 1) * total <= total * total) by (nonlinear_arith)
                    requires
                        self.degree_sum(i + 1) <= total,
                ;
            }
            links = links + row_links;
            products = products + row_products;
            i = i + 1;
        }
        (links, products)
    }

    proof fn lemma_degree_sum_mono(&self, j: int, k: int)
        requires
            0 <= j <= k,
        ensures
            self.degree_sum(j) <= self.degree_sum(k),
        decreases k - j,
    {
        if j < k {
            self.lemma_degree_sum_mono(j, k - 1);
        }
    }
}

} // verus!
