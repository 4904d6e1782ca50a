//! Community detection by label propagation.

use vstd::prelude::*;
use crate::network::{TernaryNetwork, Edge, count_of, lemma_count_of_push, lemma_index_of_increasing};
use crate::paths::{lemma_count_of_positive, lemma_count_of_witness};
use std::collections::HashMap;

verus! {

broadcast use vstd::std_specs::hash::group_hash_axioms;

/// Occurrences counted over a prefix grow by one entry at a time.
proof fn lemma_count_of_take<A>(s: Seq<A>, k: int, x: A)
    requires
        0 <= k < s.len(),
    ensures
        count_of(s.take(k + 1), x) == count_of(s.take(k), x) + if s[k] == x { 1nat } else { 0nat },
        count_of(s.take(k + 1), x) <= k + 1,
    decreases k,
{
    assert(s.take(k + 1) =~= s.take(k).push(s[k]));
    lemma_count_of_push(s.take(k), s[k], x);
    if k > 0 {
        lemma_count_of_take(s, k - 1, x);
    } else {
        assert(s.take(0) =~= Seq::<A>::empty());
    }
}

/// The most common value of `values`: one that occurs there, and at least
/// as often as any other value. Where several values tie, the last of them
/// in the iteration order of the counting map is taken.
pub fn most_common_label(values: &Vec<usize>) -> (r: usize)
    requires
        values@.len() > 0,
    ensures
        values@.contains(r),
        forall|x: usize| count_of(values@, x) <= count_of(values@, r),
{
    let mut counts: HashMap<usize, usize> = HashMap::new();
    let mut k: usize = 0;
    while k < values.len()
        invariant
            k <= values@.len(),
            forall|x: usize| #[trigger] counts@.contains_key(x) <==> count_of(values@.take(k as int), x) > 0,
            forall|x: usize| #[trigger] counts@.contains_key(x)
                ==> counts@[x] == count_of(values@.take(k as int), x),
            forall|x: usize| #[trigger] count_of(values@.take(k as int), x) <= k,
        decreases values@.len() - k,
    {
        let label = values[k];
        proof {
            assert forall|x: usize| #[trigger] count_of(values@.take(k + 1), x) <= k + 1 by {
                lemma_count_of_take(values@, k as int, x);
            }
            lemma_count_of_take(values@, k as int, label);
        }
        let c: usize = match counts.get(&label) {
            Some(c) => *c,
            None => 0,
        };
        counts.insert(label, c + 1);
        proof {
            assert forall|x: usize| #[trigger] counts@.contains_key(x)
                <==> count_of(values@.take(k + 1), x) > 0 by {
                lemma_count_of_take(values@, k as int, x);
            }
            assert forall|x: usize| #[trigger] counts@.contains_key(x)
                implies counts@[x] == count_of(values@.take(k + 1), x) by {
                lemma_count_of_take(values@, k as int, x);
            }
        }
        k = k + 1;
    }
    proof {
        assert(values@.take(k as int) =~= values@);
        lemma_count_of_positive(values@, 0);
        assert(counts@.contains_key(values@[0]));
    }
    let ghost m = counts@;
    let mut best: usize = 0;
    let mut best_count: usize = 0;
    let ghost mut done: Set<usize> = Set::empty();
    for (label, count) in it: counts.iter()
        invariant
            m == counts@,
            best_count == 0 ==> it.index() == 0,
            best_count > 0 ==> m.contains_key(best) && m[best] == best_count,
            forall|t: int| 0 <= t < it.index() ==> *(#[trigger] it.seq()[t]).1 <= best_count,
            forall|x: usize| #[trigger] m.contains_key(x) ==> m[x] > 0,
            forall|t: int| 0 <= t < it.seq().len() ==> m.contains_key(*(#[trigger] it.seq()[t]).0)
                && m[*it.seq()[t].0] == *it.seq()[t].1,
            forall|x: usize| #[trigger] done.contains(x) ==> m.contains_key(x) && m[x] <= best_count,
            forall|x: usize| #[trigger] m.contains_key(x) ==> done.contains(x) || exists|t: int|
                it.index() <= t < it.seq().len() && #[trigger] it.seq()[t] == (&x, &m[x]),
    {
        if *count >= best_count {
            best = *label;
            best_count = *count;
        }
        proof {
            done = done.insert(*label);
        }
    }
    proof {
        assert forall|x: usize| count_of(values@, x) <= count_of(values@, best) by {
            if m.contains_key(x) {
                assert(done.contains(x));
            }
        }
        let k = lemma_count_of_witness(values@, best);
        assert(values@[k] == best);
    }
    best
}

/// The labels a node sees during a round of propagation over positions in
/// ascending order: the new labels of the positions before `p`, the old
/// labels of `p` and the positions after it.
pub open spec fn seen_labels(before: Seq<usize>, after: Seq<usize>, p: int) -> Seq<usize> {
    after.take(p) + before.skip(p)
}

impl TernaryNetwork {
    /// The labels of the entries of the adjacency list of the node at
    /// position `p` (one per entry, so neighbours count with multiplicity),
    /// where `labels[i]` is the label of the node at position `i`.
    pub open spec fn neighbour_labels(&self, labels: Seq<usize>, p: int) -> Seq<usize> {
        self.adjacency(self.node_seq()[p]).map_values(|e: Edge| labels[self.pos(e.0)])
    }

    /// In a round that turns `before` into `after`, the node at position `p`
    /// keeps its label when it has no neighbours, and otherwise takes a label
    /// that its neighbours carry (as it sees them) and that no other label
    /// outnumbers among them.
    pub open spec fn takes_common_label(&self, before: Seq<usize>, after: Seq<usize>, p: int) -> bool {
        let nl = self.neighbour_labels(seen_labels(before, after, p), p);
        if nl.len() == 0 {
            after[p] == before[p]
        } else {
            &&& nl.contains(after[p])
            &&& forall|x: usize| #[trigger] count_of(nl, x) <= count_of(nl, after[p])
        }
    }

    /// One round of label propagation over all positions in ascending order.
    pub open spec fn round_step(&self, before: Seq<usize>, after: Seq<usize>) -> bool {
        &&& before.len() == self.num_nodes()
        &&& after.len() == self.num_nodes()
        &&& forall|p: int| 0 <= p < self.num_nodes() ==> #[trigger] self.takes_common_label(before, after, p)
    }

    /// Labels of the positions that name positions, each reachable from the
    /// node it labels.
    pub open spec fn labels_ok(&self, labels: Seq<usize>) -> bool {
        &&& labels.len() == self.num_nodes()
        &&& forall|i: int| 0 <= i < labels.len() ==> #[trigger] labels[i] < self.num_nodes()
            && self.reachable(self.node_seq()[i], self.node_seq()[labels[i] as int])
    }

    /// A walk from `v` extended in front by a node linked to `v`.
    proof fn lemma_reachable_prepend(&self, u: usize, v: usize, t: usize)
        requires
            self.links(u, v),
            self.reachable(v, t),
        ensures
            self.reachable(u, t),
    {
        let w = choose|w: Seq<usize>| #[trigger] self.is_path_between(w, v, t);
        let w2 = seq![u] + w;
        assert forall|i: int| 0 <= i < w2.len() - 1 implies #[trigger] self.step_ok(w2, i) by {
            if i > 0 {
                assert(self.step_ok(w, i - 1));
            }
        }
        assert(self.is_path_between(w2, u, t));
    }

    /// The node at position `p` takes a most common label among its
    /// neighbours' current labels; positions from `p` on still carry the
    /// labels `before` of the start of the round. Returns whether its label
    /// changed.
    fn propagate_at(&self, ids: &Vec<usize>, labels: &mut Vec<usize>, p: usize, Ghost(before): Ghost<Seq<usize>>) -> (changed: bool)
        requires
            self.wf(),
            ids@ == self.node_seq(),
            p < ids@.len(),
            self.labels_ok(old(labels)@),
            before.len() == ids@.len(),
            forall|q: int| p <= q < ids@.len() ==> #[trigger] old(labels)@[q] == before[q],
        ensures
            self.labels_ok(final(labels)@),
            final(labels)@ == old(labels)@.update(p as int, final(labels)@[p as int]),
            self.takes_common_label(before, final(labels)@, p as int),
            changed == (final(labels)@[p as int] != before[p as int]),
    {
        let n = ids.len();
        let ghost cur = labels@;
        let edges = self.neighbors(ids[p]);
        let ghost adj = edges@;
        let mut neighbor_labels: Vec<usize> = Vec::new();
        let mut k: usize = 0;
        while k < edges.len()
            invariant
                self.wf(),
                ids@ == self.node_seq(),
                n == ids@.len(),
                p < n,
                edges@ == adj,
                adj == self.adjacency(ids@[p as int]),
                k <= adj.len(),
                labels@ == cur,
                cur.len() == n,
                neighbor_labels@ == adj.take(k as int).map_values(|e: Edge| cur[self.pos(e.0)]),
            decreases adj.len() - k,
        {
            proof {
                self.lemma_entry_target(p as int, k as int);
                lemma_index_of_increasing(self.node_seq(), self.pos(adj[k as int].0));
            }
            let j = match self.position(edges[k].0) {
                Some(j) => j,
                None => 0,
            };
            proof {
                lemma_index_of_increasing(self.node_seq(), j as int);
            }
            neighbor_labels.push(labels[j]);
            k = k + 1;
            proof {
                assert(neighbor_labels@ =~= adj.take(k as int).map_values(|e: Edge| cur[self.pos(e.0)]));
            }
        }
        proof {
            assert(adj.take(k as int) =~= adj);
            assert(seen_labels(before, cur, p as int) =~= cur);
            assert(neighbor_labels@ == self.neighbour_labels(seen_labels(before, cur, p as int), p as int));
        }
        if neighbor_labels.len() > 0 {
            let best = most_common_label(&neighbor_labels);
            proof {
                let t = neighbor_labels@.index_of(best);
                let e = adj[t];
                let j = self.pos(e.0);
                self.lemma_entry_target(p as int, t);
                self.lemma_entry_step(ids@[p as int], t);
                assert(best == cur[j]);
                assert(cur[j] < n && self.reachable(self.node_seq()[j], self.node_seq()[cur[j] as int]));
                self.lemma_reachable_prepend(ids@[p as int], e.0, self.node_seq()[best as int]);
            }
            let changed = best != labels[p];
            labels.set(p, best);
            proof {
                assert(labels@ =~= cur.update(p as int, best));
                assert(seen_labels(before, labels@, p as int) =~= cur);
                assert forall|i: int| 0 <= i < labels@.len() implies #[trigger] labels@[i] < self.num_nodes()
                    && self.reachable(self.node_seq()[i], self.node_seq()[labels@[i] as int]) by {
                    if i != p {
                        assert(cur[i] < self.num_nodes());
                    }
                }
            }
            changed
        } else {
            proof {
                assert(labels@ =~= cur.update(p as int, cur[p as int]));
            }
            false
        }
    }

    /// One round of label propagation, over the positions in ascending
    /// order. Returns whether some label changed.
    fn propagate_round(&self, ids: &Vec<usize>, labels: &mut Vec<usize>) -> (changed: bool)
        requires
            self.wf(),
            ids@ == self.node_seq(),
            self.labels_ok(old(labels)@),
        ensures
            self.labels_ok(final(labels)@),
            self.round_step(old(labels)@, final(labels)@),
            !changed ==> final(labels)@ == old(labels)@,
    {
        let n = ids.len();
        let ghost before = labels@;
        let mut changed = false;
        let mut p: usize = 0;
        while p < n
            invariant
                self.wf(),
                ids@ == self.node_seq(),
                n == ids@.len(),
                p <= n,
                before.len() == n,
                self.labels_ok(labels@),
                forall|q: int| p <= q < n ==> #[trigger] labels@[q] == before[q],
                forall|q: int| 0 <= q < p ==> #[trigger] self.takes_common_label(before, labels@, q),
                !changed ==> forall|q: int| 0 <= q < p ==> #[trigger] labels@[q] == before[q],
            decreases n - p,
        {
            let ghost prev = labels@;
            let c = self.propagate_at(ids, labels, p, Ghost(before));
            proof {
                assert forall|q: int| 0 <= q < p + 1 implies #[trigger] self.takes_common_label(before, labels@, q) by {
                    if q < p {
                        assert(self.takes_common_label(before, prev, q));
                        assert(seen_labels(before, labels@, q) =~= seen_labels(before, prev, q));
                        assert(labels@[q] == prev[q]);
                    }
                }
            }
            if c {
                changed = true;
            }
            p = p + 1;
        }
        proof {
            if !changed {
                assert(labels@ =~= before);
            }
        }
        changed
    }

    /// A node without neighbours keeps its label through every round.
    proof fn lemma_isolated_keeps_label(&self, ls: Seq<Seq<usize>>, k: int, j: int)
        requires
            0 <= k < ls.len(),
            0 <= j < self.num_nodes(),
            self.adjacency(self.node_seq()[j]).len() == 0,
            forall|i: int| 0 <= i < self.num_nodes() ==> #[trigger] ls[0][i] == i,
            forall|t: int| 0 <= t < k ==> #[trigger] self.round_step(ls[t], ls[t + 1]),
        ensures
            ls[k][j] == j,
        decreases k,
    {
        if k > 0 {
            self.lemma_isolated_keeps_label(ls, k - 1, j);
            let t = k - 1;
            assert(self.round_step(ls[t], ls[t + 1]));
            assert(self.takes_common_label(ls[t], ls[t + 1], j));
        }
    }

    /// Simple community detection via label propagation.
    ///
    /// Every node starts with its position in `node_seq()` as label. In each
    /// round every node, in ascending order, takes a most common label among
    /// its neighbours' current labels (see `round_step`); rounds repeat until
    /// one changes no label, and at most ten are run. Every node is labelled
    /// with the position of a node reachable from it; a node without
    /// neighbours keeps its own position. When fewer than ten rounds ran, the
    /// result is stable: every node carries a most common label of its
    /// neighbours.
    pub fn detect_communities(&self) -> (r: HashMap<usize, usize>)
        requires
            self.wf(),
        ensures
            forall|n: usize| #[trigger] r@.contains_key(n) <==> self.has_node(n),
            forall|n: usize| #[trigger] r@.contains_key(n) ==> r@[n] < self.num_nodes()
                && self.reachable(n, self.node_seq()[r@[n] as int]),
            forall|i: int|
                0 <= i < self.num_nodes() && self.adjacency(#[trigger] self.node_seq()[i]).len() == 0
                    ==> r@[self.node_seq()[i]] == i,
            exists|ls: Seq<Seq<usize>>, k: int| {
                &&& 1 <= k <= 10
                &&& ls.len() == k + 1
                &&& forall|i: int| 0 <= i < self.num_nodes() ==> #[trigger] ls[0][i] == i
                &&& forall|t: int| 0 <= t < k ==> #[trigger] self.round_step(ls[t], ls[t + 1])
                &&& forall|i: int| 0 <= i < self.num_nodes() ==> #[trigger] r@[self.node_seq()[i]] == ls[k][i]
                &&& k < 10 ==> self.round_step(ls[k], ls[k])
            },
    {
        let ids = self.nodes();
        let n = ids.len();
        let mut labels: Vec<usize> = Vec::new();
        let mut i: usize = 0;
        while i < n
            invariant
                ids@ == self.node_seq(),
                n == ids@.len(),
                i <= n,
                labels@.len() == i,
                forall|j: int| 0 <= j < i ==> #[trigger] labels@[j] == j,
            decreases n - i,
        {
            labels.push(i);
            i = i + 1;
        }
        proof {
            assert forall|j: int| 0 <= j < labels@.len() implies #[trigger] labels@[j] < self.num_nodes()
                && self.reachable(self.node_seq()[j], self.node_seq()[labels@[j] as int]) by {
                let x = self.node_seq()[j];
                assert(self.is_path_between(seq![x], x, x));
            }
        }
        let ghost mut ls: Seq<Seq<usize>> = seq![labels@];
        let mut round: usize = 0;
        let mut stable = false;
        while round < 10 && !stable
            invariant
                self.wf(),
                ids@ == self.node_seq(),
                n == ids@.len(),
                round <= 10,
                self.labels_ok(labels@),
                ls.len() == round + 1,
                ls[round as int] == labels@,
                forall|j: int| 0 <= j < n ==> #[trigger] ls[0][j] == j,
                forall|t: int| 0 <= t < round ==> #[trigger] self.round_step(ls[t], ls[t + 1]),
                stable ==> round >= 1 && ls[round - 1] == ls[round as int],
            decreases 10 - round,
        {
            let changed = self.propagate_round(&ids, &mut labels);
            proof {
                let old_ls = ls;
                ls = ls.push(labels@);
                assert forall|t: int| 0 <= t < round + 1 implies #[trigger] self.round_step(ls[t], ls[t + 1]) by {
                    if t < round {
                        assert(self.round_step(old_ls[t], old_ls[t + 1]));
                    }
                }
                assert forall|j: int| 0 <= j < n implies #[trigger] ls[0][j] == j by {
                    assert(old_ls[0][j] == j);
                }
            }
            stable = !changed;
            round = round + 1;
        }
        proof {
            if round < 10 {
                let t = round - 1;
                assert(self.round_step(ls[t], ls[t + 1]));
            }
            assert forall|j: int| 0 <= j < n implies #[trigger] labels@[j] < n by {
                assert(labels@[j] < self.num_nodes());
            }
        }
        let mut result: HashMap<usize, usize> = HashMap::new();
        let mut i: usize = 0;
        while i < n
            invariant
                self.wf(),
                ids@ == self.node_seq(),
                n == ids@.len(),
                i <= n,
                labels@.len() == n,
                forall|x: usize| #[trigger] result@.contains_key(x) <==> ids@.take(i as int).contains(x),
                forall|j: int| 0 <= j < i ==> #[trigger] result@[ids@[j]] == labels@[j],
            decreases n - i,
        {
            proof {
                assert forall|j: int| 0 <= j < i implies ids@[j] != ids@[i as int] by {
                    assert(ids@[j] < ids@[i as int]);
                }
            }
            result.insert(ids[i], labels[i]);
            i = i + 1;
            proof {
                assert forall|x: usize| #[trigger] result@.contains_key(x) <==> ids@.take(i as int).contains(x) by {
                    if ids@.take(i as int).contains(x) && x != ids@[i - 1] {
                        let t = ids@.take(i as int).index_of(x);
                        assert(ids@.take(i - 1)[t] == x);
                    }
                    if ids@.take(i - 1).contains(x) {
                        let t = ids@.take(i - 1).index_of(x);
                        assert(ids@.take(i as int)[t] == x);
                    }
                    if x == ids@[i - 1] {
                        assert(ids@.take(i as int)[i - 1] == x);
                    }
                }
            }
        }
        proof {
            assert(ids@.take(n as int) =~= ids@);
            assert forall|x: usize| #[trigger] result@.contains_key(x) implies result@[x] < self.num_nodes()
                && self.reachable(x, self.node_seq()[result@[x] as int]) by {
                let t = ids@.index_of(x);
                assert(result@[ids@[t]] == labels@[t]);
                assert(labels@[t] < self.num_nodes());
            }
            assert forall|j: int|
                0 <= j < self.num_nodes() && self.adjacency(#[trigger] self.node_seq()[j]).len() == 0
                    implies result@[self.node_seq()[j]] == j by {
                self.lemma_isolated_keeps_label(ls, round as int, j);
            }
            assert forall|j: int| 0 <= j < self.num_nodes() implies #[trigger] result@[self.node_seq()[j]] == ls[round as int][j] by {
                assert(result@[ids@[j]] == labels@[j]);
            }
        }
        result
    }
}

} // verus!
