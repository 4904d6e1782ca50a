//! The ternary-weighted network: its model, construction and degree queries.
//!
//! A network is kept as the strictly increasing sequence of its node ids and,
//! beside it, one adjacency list per node. The increasing order stands for the
//! set of keys of an adjacency map: no node occurs twice, and `nodes()` reads
//! the ids in ascending order.

use vstd::prelude::*;
use crate::weight::TernaryWeight;
use std::collections::HashMap;

verus! {

broadcast use vstd::std_specs::hash::group_hash_axioms;

/// An adjacency entry: the neighbouring node and the weight of the edge.
pub type Edge = (usize, TernaryWeight);

/// Number of occurrences of `x` in `s`.
pub open spec fn count_of<A>(s: Seq<A>, x: A) -> nat
    decreases s.len(),
{
    if s.len() == 0 {
        0
    } else {
        count_of(s.drop_last(), x) + if s.last() == x { 1nat } else { 0nat }
    }
}

/// Number of entries of `s` whose edge has weight `w`.
pub open spec fn weight_count(s: Seq<Edge>, w: TernaryWeight) -> nat
    decreases s.len(),
{
    if s.len() == 0 {
        0
    } else {
        weight_count(s.drop_last(), w) + if s.last().1 == w { 1nat } else { 0nat }
    }
}

/// Number of entries of `s` that lead to node `to`.
pub open spec fn target_count(s: Seq<Edge>, to: usize) -> nat
    decreases s.len(),
{
    if s.len() == 0 {
        0
    } else {
        target_count(s.drop_last(), to) + if s.last().0 == to { 1nat } else { 0nat }
    }
}

/// Sum of the lengths of the lists in `s`.
pub open spec fn total_len(s: Seq<Seq<Edge>>) -> nat
    decreases s.len(),
{
    if s.len() == 0 {
        0
    } else {
        total_len(s.drop_last()) + s.last().len()
    }
}

/// `s` is sorted in strictly increasing order (so no element occurs twice).
pub open spec fn strictly_increasing(s: Seq<usize>) -> bool {
    forall|i: int, j: int| 0 <= i < j < s.len() ==> s[i] < s[j]
}

/// The list `adj` after `add_edge(from, to, w)` on a network with the given
/// directedness, seen from node `n`: `from` gains `(to, w)`, and in an
/// undirected network `to` gains `(from, w)` as well.
pub open spec fn added_adjacency(
    adj: Seq<Edge>,
    n: usize,
    from: usize,
    to: usize,
    w: TernaryWeight,
    directed: bool,
) -> Seq<Edge> {
    let first = if n == from { adj.push((to, w)) } else { adj };
    if !directed && n == to { first.push((from, w)) } else { first }
}


/// In a strictly increasing sequence, the element at `i` is found at `i`.
pub proof fn lemma_index_of_increasing(s: Seq<usize>, i: int)
    requires
        strictly_increasing(s),
        0 <= i < s.len(),
    ensures
        s.contains(s[i]),
        s.index_of(s[i]) == i,
{
    assert(s.contains(s[i]));
    let j = s.index_of(s[i]);
    assert(0 <= j < s.len() && s[j] == s[i]);
    if j < i {
        assert(s[j] < s[i]);
    } else if i < j {
        assert(s[i] < s[j]);
    }
}

/// The total length of two concatenated sequences of lists.
pub proof fn lemma_total_len_concat(a: Seq<Seq<Edge>>, b: Seq<Seq<Edge>>)
    ensures
        total_len(a + b) == total_len(a) + total_len(b),
    decreases b.len(),
{
    if b.len() == 0 {
        assert(a + b =~= a);
    } else {
        assert((a + b).drop_last() =~= a + b.drop_last());
        lemma_total_len_concat(a, b.drop_last());
    }
}

/// Inserting a list adds its length to the total.
pub proof fn lemma_total_len_insert(s: Seq<Seq<Edge>>, p: int, e: Seq<Edge>)
    requires
        0 <= p <= s.len(),
    ensures
        total_len(s.insert(p, e)) == total_len(s) + e.len(),
{
    let a = s.take(p);
    let b = s.skip(p);
    assert(s =~= a + b);
    assert(s.insert(p, e) =~= (a + seq![e]) + b);
    lemma_total_len_concat(a, b);
    lemma_total_len_concat(a + seq![e], b);
    lemma_total_len_concat(a, seq![e]);
    assert(seq![e].drop_last() =~= Seq::<Seq<Edge>>::empty());
    reveal_with_fuel(total_len, 2);
    assert(total_len(seq![e]) == e.len());
}

/// Replacing a list changes the total by the difference of the lengths.
pub proof fn lemma_total_len_update(s: Seq<Seq<Edge>>, i: int, e: Seq<Edge>)
    requires
        0 <= i < s.len(),
    ensures
        total_len(s.update(i, e)) + s[i].len() == total_len(s) + e.len(),
{
    let a = s.take(i);
    let b = s.skip(i + 1);
    assert(s =~= (a + seq![s[i]]) + b);
    assert(s.update(i, e) =~= (a + seq![e]) + b);
    lemma_total_len_concat(a + seq![s[i]], b);
    lemma_total_len_concat(a + seq![e], b);
    lemma_total_len_concat(a, seq![e]);
    lemma_total_len_concat(a, seq![s[i]]);
    assert(seq![e].drop_last() =~= Seq::<Seq<Edge>>::empty());
    assert(seq![s[i]].drop_last() =~= Seq::<Seq<Edge>>::empty());
    reveal_with_fuel(total_len, 2);
    assert(total_len(seq![e]) == e.len());
    assert(total_len(seq![s[i]]) == s[i].len());
}

/// A list holding an entry to `to` at index `k` counts at least one such entry.
pub proof fn lemma_target_count_positive(s: Seq<Edge>, k: int, to: usize)
    requires
        0 <= k < s.len(),
        s[k].0 == to,
    ensures
        target_count(s, to) > 0,
    decreases s.len(),
{
    if k < s.len() - 1 {
        lemma_target_count_positive(s.drop_last(), k, to);
    }
}

/// A single list is no longer than all lists together.
pub proof fn lemma_list_within_total(s: Seq<Seq<Edge>>, i: int)
    requires
        0 <= i < s.len(),
    ensures
        s[i].len() <= total_len(s),
    decreases s.len(),
{
    if i < s.len() - 1 {
        lemma_list_within_total(s.drop_last(), i);
    }
}

/// Counting occurrences after a push.
pub proof fn lemma_count_of_push<A>(s: Seq<A>, x: A, y: A)
    ensures
        count_of(s.push(x), y) == count_of(s, y) + if x == y { 1nat } else { 0nat },
{
    assert(s.push(x).drop_last() =~= s);
}

/// A ternary-weighted network graph.
#[derive(Clone, Debug)]
pub struct TernaryNetwork {
    /// Node ids in strictly increasing order.
    ids: Vec<usize>,
    /// `lists[i]` holds the outgoing entries `(neighbor, weight)` of `ids[i]`.
    lists: Vec<Vec<Edge>>,
    /// One more than the largest node id ever added (0 while empty).
    node_bound: usize,
    directed: bool,
}

impl TernaryNetwork {
    /// The node ids, in strictly increasing order.
    pub closed spec fn node_seq(&self) -> Seq<usize> {
        self.ids@
    }

    /// The adjacency lists, the `i`-th one belonging to `node_seq()[i]`.
    pub closed spec fn list_seq(&self) -> Seq<Seq<Edge>> {
        Seq::new(self.lists@.len(), |i: int| self.lists@[i]@)
    }

    /// Whether edges are one-way.
    pub closed spec fn is_directed(&self) -> bool {
        self.directed
    }

    /// One more than the largest node id, or 0 for the empty network.
    pub closed spec fn id_bound(&self) -> nat {
        self.node_bound as nat
    }

    /// `n` is a node of the network.
    pub open spec fn has_node(&self, n: usize) -> bool {
        self.node_seq().contains(n)
    }

    /// The number of nodes.
    pub open spec fn num_nodes(&self) -> nat {
        self.node_seq().len()
    }

    /// The adjacency list of `n`: the entries `(neighbor, weight)` in the
    /// order they were added, and the empty list for a node that is absent.
    pub open spec fn adjacency(&self, n: usize) -> Seq<Edge> {
        if self.has_node(n) {
            self.list_seq()[self.node_seq().index_of(n)]
        } else {
            Seq::empty()
        }
    }

    /// The number of adjacency entries, over all nodes.
    pub open spec fn total_degree(&self) -> nat {
        total_len(self.list_seq())
    }

    /// The number of edges: every adjacency entry in a directed network, and
    /// half of them in an undirected one, where each edge is stored twice.
    pub open spec fn spec_edge_count(&self) -> nat {
        if self.is_directed() {
            self.total_degree()
        } else {
            self.total_degree() / 2
        }
    }

    /// The number of entries of type `(b, w)` in the adjacency list of `a`.
    pub open spec fn multiplicity(&self, a: usize, b: usize, w: TernaryWeight) -> nat {
        count_of(self.adjacency(a), (b, w))
    }

    /// The structural part of well-formedness: ids strictly increasing, one
    /// list per node, every entry leading to a node, and the id bound.
    pub open spec fn wf_shape(&self) -> bool {
        &&& strictly_increasing(self.node_seq())
        &&& self.node_seq().len() == self.list_seq().len()
        &&& forall|i: int, k: int|
            #![trigger self.list_seq()[i][k]]
            0 <= i < self.list_seq().len() && 0 <= k < self.list_seq()[i].len()
                ==> self.has_node(self.list_seq()[i][k].0)
        &&& if self.node_seq().len() == 0 {
            self.id_bound() == 0
        } else {
            self.id_bound() == self.node_seq().last() + 1
        }
    }

    /// Some edge leads from `a` to `b`.
    pub open spec fn links(&self, a: usize, b: usize) -> bool {
        target_count(self.adjacency(a), b) > 0
    }

    /// The number of nodes whose adjacency list has exactly `d` entries,
    /// among the first `k` nodes in ascending order.
    pub open spec fn degree_frequency(&self, k: int, d: nat) -> nat
        decreases k,
    {
        if k <= 0 {
            0
        } else {
            self.degree_frequency(k - 1, d) + if self.adjacency(self.node_seq()[k - 1]).len() == d {
                1nat
            } else {
                0nat
            }
        }
    }

    /// Well-formedness: ids strictly increasing, one list per node, every
    /// entry leading to a node, the id bound, the entry total fitting in a
    /// `usize`, and for an undirected network each edge stored both ways.
    pub open spec fn wf(&self) -> bool {
        &&& self.wf_shape()
        &&& self.total_degree() <= usize::MAX
        &&& !self.is_directed() ==> self.total_degree() % 2 == 0
        &&& !self.is_directed() ==> forall|a: usize, b: usize, w: TernaryWeight|
            #[trigger] self.multiplicity(a, b, w) == self.multiplicity(b, a, w)
    }

    /// In a well-formed network, the list at position `i` is the adjacency of
    /// the node at position `i`.
    pub proof fn lemma_adjacency_at(&self, i: int)
        requires
            self.wf_shape(),
            0 <= i < self.node_seq().len(),
        ensures
            self.has_node(self.node_seq()[i]),
            self.adjacency(self.node_seq()[i]) == self.list_seq()[i],
            self.node_seq().index_of(self.node_seq()[i]) == i,
    {
        lemma_index_of_increasing(self.node_seq(), i);
    }

    pub fn new(directed: bool) -> (r: Self)
        ensures
            r.wf(),
            r.node_seq() == Seq::<usize>::empty(),
            r.is_directed() == directed,
            forall|n: usize| !r.has_node(n),
    {
        let r = TernaryNetwork { ids: Vec::new(), lists: Vec::new(), node_bound: 0, directed };
        proof {
            assert(r.list_seq() =~= Seq::<Seq<Edge>>::empty());
            assert forall|a: usize, b: usize, w: TernaryWeight|
                #[trigger] r.multiplicity(a, b, w) == r.multiplicity(b, a, w) by {
                assert(!r.has_node(a));
                assert(!r.has_node(b));
            }
        }
        r
    }

    /// The position at which `node` stands or would be inserted: every id
    /// before it is smaller than `node`, and every id from it on is not.
    fn lower_bound(&self, node: usize) -> (r: usize)
        requires
            self.wf_shape(),
        ensures
            r <= self.node_seq().len(),
            forall|i: int| 0 <= i < r ==> self.node_seq()[i] < node,
            forall|i: int| r <= i < self.node_seq().len() ==> self.node_seq()[i] >= node,
    {
        let mut lo: usize = 0;
        let mut hi: usize = self.ids.len();
        while lo < hi
            invariant
                self.wf_shape(),
                0 <= lo <= hi <= self.ids@.len(),
                forall|i: int| 0 <= i < lo ==> self.ids@[i] < node,
                forall|i: int| hi <= i < self.ids@.len() ==> self.ids@[i] >= node,
            decreases hi - lo,
        {
            let mid = lo + (hi - lo) / 2;
            if self.ids[mid] < node {
                lo = mid + 1;
            } else {
                hi = mid;
            }
        }
        lo
    }

    /// The position of `node` among the nodes, if it is one.
    pub fn position(&self, node: usize) -> (r: Option<usize>)
        requires
            self.wf_shape(),
        ensures
            match r {
                Some(i) => i < self.node_seq().len() && self.node_seq()[i as int] == node,
                None => !self.has_node(node),
            },
    {
        let p = self.lower_bound(node);
        if p < self.ids.len() && self.ids[p] == node {
            Some(p)
        } else {
            proof {
                if self.has_node(node) {
                    let j = self.node_seq().index_of(node);
                    assert(self.node_seq()[j] == node);
                    if j >= p as int && p < self.ids@.len() {
                        assert(self.node_seq()[p as int] < node || self.node_seq()[p as int]
                            == node) by {
                            if j > p {
                                assert(self.node_seq()[p as int] < self.node_seq()[j]);
                            }
                        }
                    }
                }
            }
            None
        }
    }
    /// Symmetry of multiplicities carries over to a network with the same
    /// adjacency lists.
    proof fn lemma_symmetry_transfer(self, new: Self)
        requires
            !self.is_directed(),
            forall|a: usize, b: usize, w: TernaryWeight|
                #[trigger] self.multiplicity(a, b, w) == self.multiplicity(b, a, w),
            forall|m: usize| #[trigger] new.adjacency(m) == self.adjacency(m),
        ensures
            forall|a: usize, b: usize, w: TernaryWeight|
                #[trigger] new.multiplicity(a, b, w) == new.multiplicity(b, a, w),
    {
        assert forall|a: usize, b: usize, w: TernaryWeight|
            #[trigger] new.multiplicity(a, b, w) == new.multiplicity(b, a, w) by {
            assert(new.adjacency(a) == self.adjacency(a));
            assert(new.adjacency(b) == self.adjacency(b));
            assert(self.multiplicity(a, b, w) == self.multiplicity(b, a, w));
        }
    }

    /// Inserting a new node with an empty list at its sorted position keeps
    /// the network well formed and leaves every adjacency list as it was.
    proof fn lemma_insert_node(self, new: Self, p: int, node: usize)
        requires
            self.wf(),
            !self.has_node(node),
            0 <= p <= self.node_seq().len(),
            forall|i: int| 0 <= i < p ==> self.node_seq()[i] < node,
            forall|i: int| p <= i < self.node_seq().len() ==> self.node_seq()[i] >= node,
            new.node_seq() == self.node_seq().insert(p, node),
            new.list_seq() == self.list_seq().insert(p, Seq::<Edge>::empty()),
            new.is_directed() == self.is_directed(),
            new.id_bound() == if self.id_bound() < node + 1 { node + 1 } else { self.id_bound() as int },
        ensures
            new.wf(),
            forall|m: usize| #[trigger] new.has_node(m) <==> self.has_node(m) || m == node,
            forall|m: usize| #[trigger] new.adjacency(m) == self.adjacency(m),
            new.total_degree() == self.total_degree(),
    {
        let os = self.node_seq();
        let ns = new.node_seq();
        assert forall|i: int| p <= i < os.len() implies os[i] > node by {
            if os[i] == node {
                assert(os.contains(node));
            }
        }
        assert(strictly_increasing(ns)) by {
            assert forall|i: int, j: int| 0 <= i < j < ns.len() implies ns[i] < ns[j] by {
                if p < i {
                    assert(os[i - 1] < os[j - 1]);
                }
            }
        }
        assert forall|m: usize| #[trigger] new.has_node(m) <==> self.has_node(m) || m == node by {
            if m == node {
                assert(ns[p] == node);
            }
            if self.has_node(m) {
                let j = os.index_of(m);
                if j < p {
                    assert(ns[j] == m);
                } else {
                    assert(ns[j + 1] == m);
                }
            }
            if new.has_node(m) && m != node {
                let j = ns.index_of(m);
                if j < p {
                    assert(os[j] == m);
                } else if j > p {
                    assert(os[j - 1] == m);
                }
            }
        }
        assert forall|m: usize| #[trigger] new.adjacency(m) == self.adjacency(m) by {
            if m == node {
                lemma_index_of_increasing(ns, p);
            } else if self.has_node(m) {
                let j = os.index_of(m);
                lemma_index_of_increasing(os, j);
                if j < p {
                    lemma_index_of_increasing(ns, j);
                } else {
                    lemma_index_of_increasing(ns, j + 1);
                }
            }
        }
        lemma_total_len_insert(self.list_seq(), p, Seq::<Edge>::empty());
        assert forall|i: int, k: int|
            #![trigger new.list_seq()[i][k]]
            0 <= i < new.list_seq().len() && 0 <= k < new.list_seq()[i].len()
                implies new.has_node(new.list_seq()[i][k].0) by {
            if i < p {
                assert(new.list_seq()[i] == self.list_seq()[i]);
                assert(self.has_node(self.list_seq()[i][k].0));
            } else if i > p {
                assert(new.list_seq()[i] == self.list_seq()[i - 1]);
                assert(self.has_node(self.list_seq()[i - 1][k].0));
            }
        }
        if !new.is_directed() {
            self.lemma_symmetry_transfer(new);
        }
        if ns.len() > 0 {
            if p == os.len() {
                assert(ns.last() == node);
            } else {
                assert(ns.last() == os.last());
            }
        }
    }

    /// Ensure a node exists in the graph.
    pub fn add_node(&mut self, node: usize)
        requires
            old(self).wf(),
            !old(self).has_node(node) ==> node < usize::MAX,
        ensures
            final(self).wf(),
            final(self).is_directed() == old(self).is_directed(),
            forall|m: usize| #[trigger] final(self).has_node(m) <==> old(self).has_node(m) || m == node,
            forall|m: usize| #[trigger] final(self).adjacency(m) == old(self).adjacency(m),
            final(self).total_degree() == old(self).total_degree(),
            final(self).num_nodes() == old(self).num_nodes() + if old(self).has_node(node) { 0int } else { 1int },
            old(self).has_node(node) ==> *final(self) == *old(self),
    {
        let p = self.lower_bound(node);
        if p < self.ids.len() && self.ids[p] == node {
            proof {
                assert(self.has_node(node));
            }
            return;
        }
        let ghost old_self = *self;
        proof {
            if old_self.has_node(node) {
                let j = old_self.node_seq().index_of(node);
                if j > p {
                    assert(old_self.node_seq()[p as int] < old_self.node_seq()[j]);
                }
            }
        }
        self.ids.insert(p, node);
        self.lists.insert(p, Vec::new());
        proof {
            assert(self.node_seq() =~= old_self.node_seq().insert(p as int, node));
            assert(self.list_seq() =~= old_self.list_seq().insert(p as int, Seq::<Edge>::empty()));
        }
        if self.node_bound < node + 1 {
            self.node_bound = node + 1;
        }
        proof {
            old_self.lemma_insert_node(*self, p as int, node);
        }
    }
    /// Appending entry `e` to the list at position `i` keeps the shape and
    /// adds `e` to the adjacency of that node alone.
    proof fn lemma_push_entry(self, new: Self, i: int, e: Edge)
        requires
            self.wf_shape(),
            0 <= i < self.node_seq().len(),
            self.has_node(e.0),
            new.node_seq() == self.node_seq(),
            new.list_seq() == self.list_seq().update(i, self.list_seq()[i].push(e)),
            new.id_bound() == self.id_bound(),
        ensures
            new.wf_shape(),
            forall|m: usize| #[trigger] new.has_node(m) <==> self.has_node(m),
            forall|m: usize|
                #[trigger] new.adjacency(m) == if m == self.node_seq()[i] {
                    self.adjacency(m).push(e)
                } else {
                    self.adjacency(m)
                },
            new.total_degree() == self.total_degree() + 1,
    {
        let ns = self.node_seq();
        self.lemma_adjacency_at(i);
        assert forall|m: usize|
            #[trigger] new.adjacency(m) == if m == ns[i] {
                self.adjacency(m).push(e)
            } else {
                self.adjacency(m)
            } by {
            if self.has_node(m) {
                let j = ns.index_of(m);
                lemma_index_of_increasing(ns, j);
            }
        }
        assert forall|a: int, k: int|
            #![trigger new.list_seq()[a][k]]
            0 <= a < new.list_seq().len() && 0 <= k < new.list_seq()[a].len()
                implies new.has_node(new.list_seq()[a][k].0) by {
            if a != i || k < self.list_seq()[i].len() {
                assert(self.has_node(self.list_seq()[a][k].0));
            }
        }
        lemma_total_len_update(self.list_seq(), i, self.list_seq()[i].push(e));
    }

    /// Add an edge with ternary weight. For undirected graphs, adds both directions.
    pub fn add_edge(&mut self, from: usize, to: usize, weight: TernaryWeight)
        requires
            old(self).wf(),
            !old(self).has_node(from) ==> from < usize::MAX,
            !old(self).has_node(to) ==> to < usize::MAX,
            old(self).total_degree() + 2 <= usize::MAX,
        ensures
            final(self).wf(),
            final(self).is_directed() == old(self).is_directed(),
            forall|m: usize| #[trigger] final(self).has_node(m)
                <==> old(self).has_node(m) || m == from || m == to,
            forall|m: usize|
                #[trigger] final(self).adjacency(m) == added_adjacency(
                    old(self).adjacency(m),
                    m,
                    from,
                    to,
                    weight,
                    old(self).is_directed(),
                ),
            final(self).spec_edge_count() == old(self).spec_edge_count() + 1,
            final(self).total_degree() == old(self).total_degree() + if old(self).is_directed() { 1int } else { 2int },
            final(self).num_nodes() == old(self).num_nodes() + (if old(self).has_node(from) { 0int } else { 1int })
                + (if old(self).has_node(to) || to == from { 0int } else { 1int }),
    {
        let ghost s0 = *self;
        self.add_node(from);
        self.add_node(to);
        let ghost s1 = *self;
        let i = match self.position(from) {
            Some(i) => i,
            None => {
                assert(false);
                0
            },
        };
        self.lists[i].push((to, weight));
        proof {
            assert(self.list_seq() =~= s1.list_seq().update(i as int, s1.list_seq()[i as int].push((to, weight))));
            s1.lemma_push_entry(*self, i as int, (to, weight));
        }
        let ghost s2 = *self;
        if !self.directed {
            let j = match self.position(to) {
                Some(j) => j,
                None => {
                    assert(false);
                    0
                },
            };
            self.lists[j].push((from, weight));
            proof {
                assert(self.list_seq() =~= s2.list_seq().update(j as int, s2.list_seq()[j as int].push((from, weight))));
                s2.lemma_push_entry(*self, j as int, (from, weight));
            }
        }
        proof {
            assert forall|m: usize|
                #[trigger] self.adjacency(m) == added_adjacency(
                    s0.adjacency(m),
                    m,
                    from,
                    to,
                    weight,
                    s0.is_directed(),
                ) by {
                assert(s1.adjacency(m) == s0.adjacency(m));
            }
            if !self.is_directed() {
                assert forall|a: usize, b: usize, w: TernaryWeight|
                    #[trigger] self.multiplicity(a, b, w) == self.multiplicity(b, a, w) by {
                    s0.lemma_added_multiplicity(a, b, w, from, to, weight);
                    s0.lemma_added_multiplicity(b, a, w, from, to, weight);
                    assert(s0.multiplicity(a, b, w) == s0.multiplicity(b, a, w));
                    assert(self.adjacency(a) == added_adjacency(s0.adjacency(a), a, from, to, weight, false));
                    assert(self.adjacency(b) == added_adjacency(s0.adjacency(b), b, from, to, weight, false));
                }
            }
        }
    }

    /// How an undirected `add_edge` changes one multiplicity.
    pub proof fn lemma_added_multiplicity(
        self,
        a: usize,
        b: usize,
        w: TernaryWeight,
        from: usize,
        to: usize,
        weight: TernaryWeight,
    )
        ensures
            count_of(added_adjacency(self.adjacency(a), a, from, to, weight, false), (b, w))
                == self.multiplicity(a, b, w)
                + (if a == from && to == b && weight == w { 1nat } else { 0nat })
                + (if a == to && from == b && weight == w { 1nat } else { 0nat }),
    {
        let adj = self.adjacency(a);
        let first = if a == from { adj.push((to, weight)) } else { adj };
        lemma_count_of_push(adj, (to, weight), (b, w));
        lemma_count_of_push(first, (from, weight), (b, w));
    }
    /// The position of node `n` in `node_seq()`.
    pub open spec fn pos(&self, n: usize) -> int {
        self.node_seq().index_of(n)
    }

    /// Entry `k` of the node at position `v` leads to a node, at position `pos`.
    pub proof fn lemma_entry_target(&self, v: int, k: int)
        requires
            self.wf(),
            0 <= v < self.node_seq().len(),
            0 <= k < self.adjacency(self.node_seq()[v]).len(),
        ensures
            0 <= self.pos(self.adjacency(self.node_seq()[v])[k].0) < self.node_seq().len(),
            self.node_seq()[self.pos(self.adjacency(self.node_seq()[v])[k].0)]
                == self.adjacency(self.node_seq()[v])[k].0,
    {
        let ids = self.node_seq();
        self.lemma_adjacency_at(v);
        assert(self.list_seq()[v][k] == self.adjacency(ids[v])[k]);
        let t = self.adjacency(ids[v])[k].0;
        assert(self.has_node(t));
        let j = self.pos(t);
        assert(0 <= j < ids.len() && ids[j] == t);
    }

    /// No adjacency list is longer than all of them together.
    pub proof fn lemma_degree_within_total(&self, node: usize)
        requires
            self.wf(),
        ensures
            self.adjacency(node).len() <= self.total_degree(),
    {
        if self.has_node(node) {
            let i = self.node_seq().index_of(node);
            lemma_list_within_total(self.list_seq(), i);
        }
    }

    /// The nodes, in ascending order.
    pub fn nodes(&self) -> (r: Vec<usize>)
        requires
            self.wf(),
        ensures
            r@ == self.node_seq(),
            strictly_increasing(r@),
            forall|n: usize| r@.contains(n) <==> self.has_node(n),
    {
        let mut r: Vec<usize> = Vec::new();
        let mut i: usize = 0;
        while i < self.ids.len()
            invariant
                i <= self.ids@.len(),
                r@ == self.ids@.take(i as int),
            decreases self.ids@.len() - i,
        {
            r.push(self.ids[i]);
            i = i + 1;
            proof {
                assert(r@ =~= self.ids@.take(i as int));
            }
        }
        proof {
            assert(r@ =~= self.ids@);
        }
        r
    }

    pub fn node_count(&self) -> (r: usize)
        requires
            self.wf(),
        ensures
            r == self.num_nodes(),
    {
        self.ids.len()
    }

    pub fn edge_count(&self) -> (r: usize)
        requires
            self.wf(),
        ensures
            r == self.spec_edge_count(),
    {
        let mut count: usize = 0;
        let mut i: usize = 0;
        let ghost ls = self.list_seq();
        while i < self.lists.len()
            invariant
                self.wf(),
                ls == self.list_seq(),
                i <= ls.len(),
                count == total_len(ls.take(i as int)),
            decreases ls.len() - i,
        {
            proof {
                assert(ls.take(i + 1).drop_last() =~= ls.take(i as int));
                lemma_total_len_concat(ls.take(i + 1), ls.skip(i + 1));
                assert(ls =~= ls.take(i + 1) + ls.skip(i + 1));
            }
            count = count + self.lists[i].len();
            i = i + 1;
        }
        proof {
            assert(ls.take(i as int) =~= ls);
        }
        if self.directed {
            count
        } else {
            count / 2
        }
    }

    /// The adjacency list of `node`, empty when `node` is absent.
    pub fn neighbors(&self, node: usize) -> (r: &[Edge])
        requires
            self.wf(),
        ensures
            r@ == self.adjacency(node),
    {
        match self.position(node) {
            Some(i) => {
                proof {
                    self.lemma_adjacency_at(i as int);
                }
                self.lists[i].as_slice()
            },
            None => &[],
        }
    }

    /// Number of entries of `edges` with weight `w`.
    fn count_weight(edges: &[Edge], w: TernaryWeight) -> (r: usize)
        ensures
            r == weight_count(edges@, w),
    {
        let mut count: usize = 0;
        let mut k: usize = 0;
        while k < edges.len()
            invariant
                k <= edges@.len(),
                count == weight_count(edges@.take(k as int), w),
                count <= k,
            decreases edges@.len() - k,
        {
            proof {
                assert(edges@.take(k + 1).drop_last() =~= edges@.take(k as int));
            }
            if edges[k].1 == w {
                count = count + 1;
            }
            k = k + 1;
        }
        proof {
            assert(edges@.take(k as int) =~= edges@);
        }
        count
    }

    /// Positive degree: number of edges with Positive weight.
    pub fn positive_degree(&self, node: usize) -> (r: usize)
        requires
            self.wf(),
        ensures
            r == weight_count(self.adjacency(node), TernaryWeight::Positive),
    {
        Self::count_weight(self.neighbors(node), TernaryWeight::Positive)
    }

    /// Negative degree: number of edges with Negative weight.
    pub fn negative_degree(&self, node: usize) -> (r: usize)
        requires
            self.wf(),
        ensures
            r == weight_count(self.adjacency(node), TernaryWeight::Negative),
    {
        Self::count_weight(self.neighbors(node), TernaryWeight::Negative)
    }

    /// The number of edges stored from `from` to `to` (the entry `A[from][to]`
    /// of the adjacency matrix).
    pub fn edge_multiplicity(&self, from: usize, to: usize) -> (r: usize)
        requires
            self.wf(),
        ensures
            r == target_count(self.adjacency(from), to),
    {
        let edges = self.neighbors(from);
        let mut count: usize = 0;
        let mut k: usize = 0;
        while k < edges.len()
            invariant
                k <= edges@.len(),
                count == target_count(edges@.take(k as int), to),
                count <= k,
            decreases edges@.len() - k,
        {
            proof {
                assert(edges@.take(k + 1).drop_last() =~= edges@.take(k as int));
            }
            if edges[k].0 == to {
                count = count + 1;
            }
            k = k + 1;
        }
        proof {
            assert(edges@.take(k as int) =~= edges@);
        }
        count
    }

    /// Whether some edge leads from `from` to `to`.
    pub fn has_edge(&self, from: usize, to: usize) -> (r: bool)
        requires
            self.wf(),
        ensures
            r == self.links(from, to),
    {
        let edges = self.neighbors(from);
        let mut k: usize = 0;
        while k < edges.len()
            invariant
                k <= edges@.len(),
                edges@ == self.adjacency(from),
                target_count(edges@.take(k as int), to) == 0,
            decreases edges@.len() - k,
        {
            proof {
                assert(edges@.take(k + 1).drop_last() =~= edges@.take(k as int));
            }
            if edges[k].0 == to {
                proof {
                    lemma_target_count_positive(edges@, k as int, to);
                }
                return true;
            }
            k = k + 1;
        }
        proof {
            assert(edges@.take(k as int) =~= edges@);
        }
        false
    }
    /// Degree distribution: maps each degree that occurs to the number of
    /// nodes with that degree.
    pub fn degree_distribution(&self) -> (r: HashMap<usize, usize>)
        requires
            self.wf(),
        ensures
            forall|d: usize| #[trigger] r@.contains_key(d)
                <==> self.degree_frequency(self.num_nodes() as int, d as nat) > 0,
            forall|d: usize| #[trigger] r@.contains_key(d)
                ==> r@[d] == self.degree_frequency(self.num_nodes() as int, d as nat),
    {
        let mut dist: HashMap<usize, usize> = HashMap::new();
        let mut i: usize = 0;
        while i < self.ids.len()
            invariant
                self.wf(),
                i <= self.ids@.len(),
                forall|d: usize| #[trigger] dist@.contains_key(d)
                    <==> self.degree_frequency(i as int, d as nat) > 0,
                forall|d: usize| #[trigger] dist@.contains_key(d)
                    ==> dist@[d] == self.degree_frequency(i as int, d as nat),
                forall|d: nat| #[trigger] self.degree_frequency(i as int, d) <= i,
            decreases self.ids@.len() - i,
        {
            let deg = self.lists[i].len();
            proof {
                self.lemma_adjacency_at(i as int);
                assert(self.adjacency(self.node_seq()[i as int]).len() == deg);
                assert forall|d: nat| #[trigger] self.degree_frequency(i + 1, d) <= i + 1 by {
                    assert(self.degree_frequency(i as int, d) <= i);
                }
            }
            let c: usize = match dist.get(&deg) {
                Some(c) => *c,
                None => 0,
            };
            proof {
                assert(c == self.degree_frequency(i as int, deg as nat));
            }
            dist.insert(deg, c + 1);
            i = i + 1;
            proof {
                assert forall|d: usize| #[trigger] dist@.contains_key(d)
                    <==> self.degree_frequency(i as int, d as nat) > 0 by {
                    assert(self.degree_frequency(i - 1, d as nat) > 0 ==> dist@.contains_key(d));
                }
            }
        }
        dist
    }
}

} // verus!
