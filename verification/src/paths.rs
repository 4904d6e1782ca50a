//! Walks, their costs, and the shortest-path search (0-1 BFS).
//!
//! A walk is a non-empty sequence of node ids in which every id is linked to
//! the next by some edge. Stepping from `a` to `b` costs 0 when a `Zero` edge
//! leads from `a` to `b`, and 1 otherwise: `Positive` and `Negative` edges
//! both cost one.

use vstd::prelude::*;
use crate::weight::{TernaryWeight, weight_cost};
use crate::network::{TernaryNetwork, Edge, count_of, target_count, lemma_index_of_increasing};
use std::collections::VecDeque;

verus! {

/// The number of occurrences of `s[k]` in `s` is positive.
pub proof fn lemma_count_of_positive<A>(s: Seq<A>, k: int)
    requires
        0 <= k < s.len(),
    ensures
        count_of(s, s[k]) > 0,
    decreases s.len(),
{
    if k < s.len() - 1 {
        lemma_count_of_positive(s.drop_last(), k);
    }
}

/// An entry occurring in `s` has an index.
pub proof fn lemma_count_of_witness<A>(s: Seq<A>, x: A) -> (k: int)
    requires
        count_of(s, x) > 0,
    ensures
        0 <= k < s.len(),
        s[k] == x,
    decreases s.len(),
{
    if s.last() == x {
        s.len() - 1
    } else {
        lemma_count_of_witness(s.drop_last(), x)
    }
}

/// A target occurring in `s` has an index.
pub proof fn lemma_target_count_witness(s: Seq<Edge>, to: usize) -> (k: int)
    requires
        target_count(s, to) > 0,
    ensures
        0 <= k < s.len(),
        s[k].0 == to,
    decreases s.len(),
{
    if s.last().0 == to {
        s.len() - 1
    } else {
        lemma_target_count_witness(s.drop_last(), to)
    }
}

/// A sequence of distinct integers in `[0, n)` has at most `n` elements.
pub proof fn lemma_distinct_bound(s: Seq<int>, n: int)
    requires
        s.no_duplicates(),
        0 <= n,
        forall|i: int| 0 <= i < s.len() ==> 0 <= #[trigger] s[i] < n,
    ensures
        s.len() <= n,
{
    s.unique_seq_to_set();
    vstd::set_lib::lemma_int_range(0, n);
    assert(s.to_set().subset_of(vstd::set_lib::set_int_range(0, n)));
    vstd::set_lib::lemma_len_subset(s.to_set(), vstd::set_lib::set_int_range(0, n));
}

impl TernaryNetwork {
    /// Step `i` of `w` follows an edge.
    pub open spec fn step_ok(&self, w: Seq<usize>, i: int) -> bool {
        self.links(w[i], w[i + 1])
    }

    /// `w` is a walk: non-empty, and each node linked to the next.
    pub open spec fn is_walk(&self, w: Seq<usize>) -> bool {
        &&& w.len() >= 1
        &&& forall|i: int| 0 <= i < w.len() - 1 ==> #[trigger] self.step_ok(w, i)
    }

    /// The cost of stepping from `a` to `b`: 0 when a `Zero` edge leads from
    /// `a` to `b`, else 1.
    pub open spec fn step_cost(&self, a: usize, b: usize) -> int {
        if self.multiplicity(a, b, TernaryWeight::Zero) > 0 {
            0
        } else {
            1
        }
    }

    /// The total cost of the steps of `w`.
    pub open spec fn walk_cost(&self, w: Seq<usize>) -> int
        decreases w.len(),
    {
        if w.len() <= 1 {
            0
        } else {
            self.walk_cost(w.drop_last()) + self.step_cost(w[w.len() - 2], w.last())
        }
    }

    /// `w` is a walk from `a` to `b`.
    pub open spec fn is_path_between(&self, w: Seq<usize>, a: usize, b: usize) -> bool {
        &&& self.is_walk(w)
        &&& w[0] == a
        &&& w.last() == b
    }

    /// Some walk leads from `a` to `b`.
    pub open spec fn reachable(&self, a: usize, b: usize) -> bool {
        exists|w: Seq<usize>| #[trigger] self.is_path_between(w, a, b)
    }

    /// No walk from `a` to `b` costs less than `d`.
    pub open spec fn cost_at_least(&self, a: usize, b: usize, d: int) -> bool {
        forall|w: Seq<usize>| #[trigger] self.is_path_between(w, a, b) ==> self.walk_cost(w) >= d
    }

    /// `d` is the least cost of a walk from `a` to `b`.
    pub open spec fn is_distance(&self, a: usize, b: usize, d: int) -> bool {
        &&& exists|w: Seq<usize>| #[trigger] self.is_path_between(w, a, b) && self.walk_cost(w) == d
        &&& self.cost_at_least(a, b, d)
    }

    /// The least cost of a walk from `a` to `b`, when `b` is reachable from `a`.
    pub open spec fn distance(&self, a: usize, b: usize) -> int {
        choose|d: int| self.is_distance(a, b, d)
    }

    /// The least cost is unique: when `d` is it, `distance` names it.
    pub proof fn lemma_distance_unique(&self, a: usize, b: usize, d: int)
        requires
            self.is_distance(a, b, d),
        ensures
            self.distance(a, b) == d,
    {
        let d2 = self.distance(a, b);
        assert(self.is_distance(a, b, d2));
        let w1 = choose|w: Seq<usize>| #[trigger] self.is_path_between(w, a, b) && self.walk_cost(w) == d;
        let w2 = choose|w: Seq<usize>| #[trigger] self.is_path_between(w, a, b) && self.walk_cost(w) == d2;
        assert(self.walk_cost(w1) >= d2);
        assert(self.walk_cost(w2) >= d);
    }

    /// Every step costs 0 or 1, so a walk costs between 0 and its number of steps.
    pub proof fn lemma_walk_cost_bounds(&self, w: Seq<usize>)
        ensures
            0 <= self.walk_cost(w),
            w.len() >= 1 ==> self.walk_cost(w) <= w.len() - 1,
        decreases w.len(),
    {
        if w.len() > 1 {
            self.lemma_walk_cost_bounds(w.drop_last());
        }
    }

    /// A prefix of a walk is a walk that costs no more.
    pub proof fn lemma_walk_prefix(&self, w: Seq<usize>, k: int)
        requires
            self.is_walk(w),
            1 <= k <= w.len(),
        ensures
            self.is_walk(w.take(k)),
            self.walk_cost(w.take(k)) <= self.walk_cost(w),
        decreases w.len(),
    {
        assert forall|i: int| 0 <= i < k - 1 implies #[trigger] self.step_ok(w.take(k), i) by {
            assert(self.step_ok(w, i));
        }
        if k < w.len() {
            let d = w.drop_last();
            assert forall|i: int| 0 <= i < d.len() - 1 implies #[trigger] self.step_ok(d, i) by {
                assert(self.step_ok(w, i));
            }
            self.lemma_walk_prefix(d, k);
            assert(d.take(k) =~= w.take(k));
            self.lemma_walk_cost_bounds(w);
        } else {
            assert(w.take(k) =~= w);
        }
    }

    /// Extending a walk by a linked node adds the cost of that step.
    pub proof fn lemma_walk_push(&self, w: Seq<usize>, x: usize)
        requires
            self.is_walk(w),
            self.links(w.last(), x),
        ensures
            self.is_walk(w.push(x)),
            self.walk_cost(w.push(x)) == self.walk_cost(w) + self.step_cost(w.last(), x),
    {
        let v = w.push(x);
        assert(v.drop_last() =~= w);
        assert forall|i: int| 0 <= i < v.len() - 1 implies #[trigger] self.step_ok(v, i) by {
            if i < w.len() - 1 {
                assert(self.step_ok(w, i));
            }
        }
    }

    /// The entry at index `k` of the adjacency of `a` links `a` to its target,
    /// and stepping there costs no more than the entry's weight cost.
    pub proof fn lemma_entry_step(&self, a: usize, k: int)
        requires
            0 <= k < self.adjacency(a).len(),
        ensures
            self.links(a, self.adjacency(a)[k].0),
            self.step_cost(a, self.adjacency(a)[k].0) <= weight_cost(self.adjacency(a)[k].1),
    {
        let s = self.adjacency(a);
        crate::network::lemma_target_count_positive(s, k, s[k].0);
        if s[k].1 == TernaryWeight::Zero {
            lemma_count_of_positive(s, k);
        }
    }

    /// A link from `a` to `b` is carried by some entry of the adjacency of
    /// `a` whose weight cost equals the step cost.
    pub proof fn lemma_step_entry(&self, a: usize, b: usize) -> (k: int)
        requires
            self.links(a, b),
        ensures
            0 <= k < self.adjacency(a).len(),
            self.adjacency(a)[k].0 == b,
            weight_cost(self.adjacency(a)[k].1) == self.step_cost(a, b),
    {
        let s = self.adjacency(a);
        if self.multiplicity(a, b, TernaryWeight::Zero) > 0 {
            lemma_count_of_witness(s, (b, TernaryWeight::Zero))
        } else {
            let k = lemma_target_count_witness(s, b);
            if s[k].1 == TernaryWeight::Zero {
                lemma_count_of_positive(s, k);
                assert(s[k] == (b, TernaryWeight::Zero));
            }
            k
        }
    }

    /// A walk of two or more nodes runs through nodes of the network only.
    pub proof fn lemma_walk_nodes(&self, w: Seq<usize>, i: int)
        requires
            self.wf(),
            self.is_walk(w),
            w.len() >= 2,
            0 <= i < w.len(),
        ensures
            self.has_node(w[i]),
    {
        if i < w.len() - 1 {
            assert(self.step_ok(w, i));
            let k = self.lemma_step_entry(w[i], w[i + 1]);
            assert(self.adjacency(w[i]).len() > 0);
        } else {
            assert(self.step_ok(w, i - 1));
            let k = self.lemma_step_entry(w[i - 1], w[i]);
            assert(self.adjacency(w[i - 1]).len() > 0);
            let j = self.node_seq().index_of(w[i - 1]);
            assert(self.list_seq()[j][k] == self.adjacency(w[i - 1])[k]);
        }
    }
}

/// Visiting a node not yet visited extends the visit order without repeats.
proof fn lemma_order_push(order: Seq<int>, visited: Seq<bool>, cur: int, n: int)
    requires
        order.no_duplicates(),
        forall|i: int| 0 <= i < order.len() ==> 0 <= #[trigger] order[i] < n && visited[order[i]],
        0 <= cur < n,
        !visited[cur],
    ensures
        order.push(cur).no_duplicates(),
        order.push(cur).len() <= n,
{
    let o2 = order.push(cur);
    assert forall|i: int, j: int| 0 <= i < o2.len() && 0 <= j < o2.len() && i != j implies o2[i] != o2[j] by {
        if i < order.len() && j < order.len() {
        } else if i == order.len() {
            assert(visited[order[j]]);
        } else {
            assert(visited[order[i]]);
        }
    }
    assert forall|i: int| 0 <= i < o2.len() implies 0 <= #[trigger] o2[i] < n by {
        if i < order.len() {
            assert(0 <= order[i] < n);
        }
    }
    lemma_distinct_bound(o2, n);
}

/// A chain of positions whose ranks strictly decrease holds no repeats.
proof fn lemma_rank_chain_distinct(chain: Seq<int>, rank: Seq<int>)
    requires
        forall|a: int, b: int| 0 <= a < b < chain.len() ==> rank[chain[b]] < rank[chain[a]],
    ensures
        chain.no_duplicates(),
{
    assert forall|a: int, b: int| 0 <= a < chain.len() && 0 <= b < chain.len() && a != b
        implies chain[a] != chain[b] by {
        if a < b {
            assert(rank[chain[b]] < rank[chain[a]]);
        } else {
            assert(rank[chain[a]] < rank[chain[b]]);
        }
    }
}

/// The state of the 0-1 breadth-first search, on node positions: the best
/// known costs (`i32::MAX` where none is known), the predecessors, the
/// visited marks, the double-ended queue, and the position of the target
/// once it has been popped.
pub struct BfsState {
    pub dist: Seq<i32>,
    pub prev: Seq<Option<usize>>,
    pub visited: Seq<bool>,
    pub queue: Seq<usize>,
    pub found: Option<usize>,
}

/// The search has ended: the queue is empty or the target was popped.
pub open spec fn bfs_done(s: BfsState) -> bool {
    s.queue.len() == 0 || s.found is Some
}

impl TernaryNetwork {
    /// The search state before the first step, from position `src`.
    pub open spec fn bfs_start(&self, src: int) -> BfsState {
        let n = self.num_nodes();
        BfsState {
            dist: Seq::new(n, |v: int| if v == src { 0i32 } else { i32::MAX }),
            prev: Seq::new(n, |v: int| None),
            visited: Seq::new(n, |v: int| false),
            queue: seq![src as usize],
            found: None,
        }
    }

    /// Relaxing the first `k` entries of the node at position `cur`, in
    /// order: an entry that lowers the cost of its target records `cur` as
    /// its predecessor and queues the target, at the front for a free edge
    /// and at the back for a unit edge.
    pub open spec fn bfs_relax(&self, s: BfsState, cur: int, k: int) -> BfsState
        decreases k,
    {
        if k <= 0 {
            s
        } else {
            let s1 = self.bfs_relax(s, cur, k - 1);
            let e = self.adjacency(self.node_seq()[cur])[k - 1];
            let j = self.pos(e.0);
            let c = weight_cost(e.1);
            let nd = s1.dist[cur] + c;
            if nd < s1.dist[j] {
                BfsState {
                    dist: s1.dist.update(j, nd as i32),
                    prev: s1.prev.update(j, Some(cur as usize)),
                    queue: if c == 0 { seq![j as usize] + s1.queue } else { s1.queue.push(j as usize) },
                    ..s1
                }
            } else {
                s1
            }
        }
    }

    /// One step of the search looking for `to`: pop the front of the queue;
    /// skip it if visited; otherwise mark it, stop if it is `to`, and else
    /// relax all its entries.
    pub open spec fn bfs_step(&self, to: usize, s: BfsState) -> BfsState {
        let cur = s.queue[0] as int;
        let s1 = BfsState { queue: s.queue.drop_first(), ..s };
        if s.visited[cur] {
            s1
        } else {
            let s2 = BfsState { visited: s.visited.update(cur, true), ..s1 };
            if self.node_seq()[cur] == to {
                BfsState { found: Some(cur as usize), ..s2 }
            } else {
                self.bfs_relax(s2, cur, self.adjacency(self.node_seq()[cur]).len() as int)
            }
        }
    }

    /// At most `fuel` steps of the search, stopping when it is done.
    pub open spec fn bfs_run(&self, to: usize, s: BfsState, fuel: nat) -> BfsState
        decreases fuel,
    {
        if fuel == 0 || bfs_done(s) {
            s
        } else {
            self.bfs_run(to, self.bfs_step(to, s), (fuel - 1) as nat)
        }
    }

    /// A number of steps by which every search has ended.
    pub open spec fn bfs_fuel(&self) -> nat {
        self.num_nodes() * (self.total_degree() + 2) + 1
    }

    /// The node ids met following the predecessors back from position `v`
    /// (at most `fuel` times), listed from the first on.
    pub open spec fn path_back(&self, prev: Seq<Option<usize>>, v: int, fuel: nat) -> Seq<usize>
        decreases fuel,
    {
        if fuel == 0 || prev[v] is None {
            seq![self.node_seq()[v]]
        } else {
            self.path_back(prev, prev[v].unwrap() as int, (fuel - 1) as nat).push(self.node_seq()[v])
        }
    }

    /// What the search returns: `([from], 0)` when `from == to`; nothing
    /// when `from` is no node; else, once the search has ended, the walk
    /// back along the predecessors from `to` and its cost, or nothing when
    /// `to` was never popped.
    pub open spec fn bfs_path(&self, from: usize, to: usize) -> Option<(Seq<usize>, i32)> {
        if from == to {
            Some((seq![from], 0i32))
        } else if !self.has_node(from) {
            None
        } else {
            let s = self.bfs_run(to, self.bfs_start(self.pos(from)), self.bfs_fuel());
            match s.found {
                Some(cur) => Some((self.path_back(s.prev, cur as int, self.num_nodes()), s.dist[cur as int])),
                None => None,
            }
        }
    }
}

/// The ghost picture of the search: distances, predecessors, the visited
/// marks, the queue with the distance each entry was pushed with, the level
/// of the last popped entry, and the order in which nodes were visited.
/// Nodes are named by their position in `node_seq()`.
struct SearchState {
    dist: Seq<i32>,
    prev: Seq<Option<usize>>,
    visited: Seq<bool>,
    queue: Seq<usize>,
    labels: Seq<int>,
    level: int,
    order: Seq<int>,
    rank: Seq<int>,
}

/// Position `v` has been given a distance.
spec fn reached(st: SearchState, v: int) -> bool {
    st.dist[v] < i32::MAX
}

impl TernaryNetwork {
    /// Entry `k` of the node at position `v` has been relaxed: its target
    /// has a distance no greater than that of `v` plus the entry's cost.
    spec fn relaxed(&self, dist: Seq<i32>, v: int, k: int) -> bool {
        let e = self.adjacency(self.node_seq()[v])[k];
        let j = self.pos(e.0);
        &&& dist[j] < i32::MAX
        &&& dist[j] <= dist[v] + weight_cost(e.1)
    }

    /// `u` may serve as the predecessor of `v` on a cheapest walk.
    spec fn pred_ok(&self, st: SearchState, v: int, u: int) -> bool {
        let ids = self.node_seq();
        &&& 0 <= u < ids.len()
        &&& st.visited[u]
        &&& self.links(ids[u], ids[v])
        &&& self.step_cost(ids[u], ids[v]) <= st.dist[v] - st.dist[u]
        &&& (st.visited[v] ==> st.rank[u] < st.rank[v])
    }

    /// The invariant of the search from position `src` (node `from`)
    /// looking for `to`; the entries of position `except` from index `upto`
    /// on may not be relaxed yet.
    spec fn search_inv(
        &self,
        st: SearchState,
        from: usize,
        to: usize,
        src: int,
        except: int,
        upto: int,
    ) -> bool {
        let ids = self.node_seq();
        let n = ids.len();
        &&& self.wf()
        &&& n < i32::MAX
        &&& st.dist.len() == n
        &&& st.prev.len() == n
        &&& st.visited.len() == n
        &&& st.rank.len() == n
        &&& 0 <= src < n
        &&& ids[src] == from
        &&& st.dist[src] == 0
        &&& st.prev[src] is None
        &&& forall|v: int| 0 <= v < n && reached(st, v) ==> 0 <= #[trigger] st.dist[v] <= st.order.len()
        &&& st.order.len() < n + 1
        &&& st.order.no_duplicates()
        &&& forall|i: int| 0 <= i < st.order.len() ==> 0 <= #[trigger] st.order[i] < n && st.visited[st.order[i]]
        &&& forall|v: int| 0 <= v < n && #[trigger] st.visited[v] ==> {
            &&& 0 <= st.rank[v] < st.order.len()
            &&& st.order[st.rank[v]] == v
            &&& reached(st, v)
            &&& st.dist[v] <= st.level
            &&& ids[v] != to
            &&& self.cost_at_least(from, ids[v], st.dist[v] as int)
        }
        &&& st.visited[src] || (st.queue == seq![src as usize] && st.labels == seq![0int] && st.order.len() == 0 && st.level == 0)
        &&& st.queue.len() == st.labels.len()
        &&& forall|k: int| 0 <= k < st.queue.len() ==> {
            &&& #[trigger] st.queue[k] < n
            &&& reached(st, st.queue[k] as int)
            &&& st.dist[st.queue[k] as int] <= st.labels[k]
            &&& st.level <= st.labels[k] <= st.level + 1
        }
        &&& forall|k1: int, k2: int| 0 <= k1 <= k2 < st.labels.len() ==> st.labels[k1] <= st.labels[k2]
        &&& forall|v: int| 0 <= v < n && !st.visited[v] && #[trigger] reached(st, v) ==>
            exists|k: int| 0 <= k < st.queue.len() && st.queue[k] == v && st.labels[k] == st.dist[v]
        &&& forall|v: int, k: int|
            0 <= v < n && st.visited[v] && 0 <= k < self.adjacency(ids[v]).len() && (v != except || k < upto)
                ==> #[trigger] self.relaxed(st.dist, v, k)
        &&& forall|v: int| 0 <= v < n && #[trigger] reached(st, v) && v != src ==>
            st.prev[v] is Some && self.pred_ok(st, v, st.prev[v].unwrap() as int)
    }
    /// A walk that starts at the (visited) source and ends outside the
    /// visited nodes leaves them somewhere: some unvisited node has a
    /// distance no greater than the cost of the walk.
    #[verifier::spinoff_prover]
    #[verifier::rlimit(40)]
    proof fn lemma_frontier(
        &self,
        st: SearchState,
        from: usize,
        to: usize,
        src: int,
        w: Seq<usize>,
    )
        requires
            self.search_inv(st, from, to, src, -1, 0),
            st.visited[src],
            self.is_walk(w),
            w[0] == from,
            forall|v: int| 0 <= v < self.node_seq().len() && st.visited[v] ==> self.node_seq()[v] != w.last(),
        ensures
            exists|y: int|
                0 <= y < self.node_seq().len() && !st.visited[y] && reached(st, y) && st.dist[y] <= self.walk_cost(w),
        decreases w.len(),
    {
        let ids = self.node_seq();
        let n = ids.len();
        let len = w.len();
        if len == 1 {
            assert(ids[src] == w.last());
        }
        let d = w.drop_last();
        let x = w.last();
        let xp = w[len - 2];
        assert(self.step_ok(w, len - 2));
        self.lemma_walk_prefix(w, len - 1);
        assert(w.take(len - 1) =~= d);
        assert(d.last() == xp);
        self.lemma_walk_nodes(w, len - 1);
        let j = self.pos(x);
        lemma_index_of_increasing(ids, j);
        assert(ids.contains(x));
        assert(0 <= j < n && ids[j] == x);
        lemma_index_of_increasing(ids, self.pos(x));
        if exists|v: int| 0 <= v < n && st.visited[v] && ids[v] == xp {
            let v = choose|v: int| 0 <= v < n && st.visited[v] && ids[v] == xp;
            assert(self.cost_at_least(from, ids[v], st.dist[v] as int));
            assert(self.is_path_between(d, from, xp));
            let k = self.lemma_step_entry(xp, x);
            assert(self.relaxed(st.dist, v, k));
            assert(!st.visited[j]);
            assert(reached(st, j) && st.dist[j] <= self.walk_cost(w));
        } else {
            self.lemma_frontier(st, from, to, src, d);
            let y = choose|y: int|
                0 <= y < n && !st.visited[y] && reached(st, y) && st.dist[y] <= self.walk_cost(d);
            assert(st.dist[y] <= self.walk_cost(w));
        }
    }

    /// Popping an entry for a node that was visited already keeps the
    /// invariant, with the popped label as the new level.
    #[verifier::spinoff_prover]
    #[verifier::rlimit(40)]
    proof fn lemma_pop_seen(&self, st: SearchState, from: usize, to: usize, src: int)
        requires
            self.search_inv(st, from, to, src, -1, 0),
            st.queue.len() > 0,
            st.visited[st.queue[0] as int],
        ensures
            self.search_inv(
                SearchState {
                    queue: st.queue.drop_first(),
                    labels: st.labels.drop_first(),
                    level: st.labels[0],
                    ..st
                },
                from,
                to,
                src,
                -1,
                0,
            ),
    {
        let st2 = SearchState {
            queue: st.queue.drop_first(),
            labels: st.labels.drop_first(),
            level: st.labels[0],
            ..st
        };
        let n = self.node_seq().len();
        assert(st.level <= st.labels[0]);
        assert forall|k: int| 0 <= k < st2.queue.len() implies {
            &&& #[trigger] st2.queue[k] < n
            &&& reached(st2, st2.queue[k] as int)
            &&& st2.dist[st2.queue[k] as int] <= st2.labels[k]
            &&& st2.level <= st2.labels[k] <= st2.level + 1
        } by {
            assert(st.queue[k + 1] == st2.queue[k]);
            assert(st.labels[0] <= st.labels[k + 1]);
        }
        assert forall|v: int| 0 <= v < n && !st2.visited[v] && #[trigger] reached(st2, v) implies
            exists|k: int| 0 <= k < st2.queue.len() && st2.queue[k] == v && st2.labels[k] == st2.dist[v] by {
            assert(reached(st, v));
            assert(!st.visited[v]);
            let k = choose|k: int| 0 <= k < st.queue.len() && st.queue[k] == v && st.labels[k] == st.dist[v];
            assert(k != 0);
            assert(st2.queue[k - 1] == v);
        }
    }
    /// The front entry of the queue for a node not yet visited carries its
    /// distance, and no walk to that node costs less.
    #[verifier::spinoff_prover]
    #[verifier::rlimit(40)]
    proof fn lemma_fresh_label(&self, st: SearchState, from: usize, to: usize, src: int)
        requires
            self.search_inv(st, from, to, src, -1, 0),
            st.queue.len() > 0,
            !st.visited[st.queue[0] as int],
        ensures
            st.dist[st.queue[0] as int] == st.labels[0],
            self.cost_at_least(from, self.node_seq()[st.queue[0] as int], st.dist[st.queue[0] as int] as int),
    {
        let ids = self.node_seq();
        let n = ids.len();
        let cur = st.queue[0] as int;
        assert(st.queue[0] < n);
        assert(reached(st, cur));
        let k = choose|k: int| 0 <= k < st.queue.len() && st.queue[k] == cur && st.labels[k] == st.dist[cur];
        assert(st.labels[0] <= st.labels[k]);
        assert forall|w: Seq<usize>| #[trigger] self.is_path_between(w, from, ids[cur]) implies
            self.walk_cost(w) >= st.dist[cur] by {
            self.lemma_walk_cost_bounds(w);
            if cur != src {
                assert(st.visited[src]);
                assert forall|v: int| 0 <= v < n && st.visited[v] implies ids[v] != w.last() by {
                    if ids[v] == ids[cur] {
                        lemma_index_of_increasing(ids, v);
                        lemma_index_of_increasing(ids, cur);
                    }
                }
                self.lemma_frontier(st, from, to, src, w);
                let y = choose|y: int|
                    0 <= y < n && !st.visited[y] && reached(st, y) && st.dist[y] <= self.walk_cost(w);
                let ky = choose|ky: int| 0 <= ky < st.queue.len() && st.queue[ky] == y && st.labels[ky] == st.dist[y];
                assert(st.labels[0] <= st.labels[ky]);
            }
        }
    }

    /// Popping the entry of a node not yet visited, other than the target,
    /// and marking it visited keeps the invariant, with none of its entries
    /// relaxed yet.
    #[verifier::spinoff_prover]
    #[verifier::rlimit(40)]
    proof fn lemma_pop_fresh(&self, st: SearchState, from: usize, to: usize, src: int)
        requires
            self.search_inv(st, from, to, src, -1, 0),
            st.queue.len() > 0,
            !st.visited[st.queue[0] as int],
            self.node_seq()[st.queue[0] as int] != to,
        ensures
            ({
                let cur = st.queue[0] as int;
                let st2 = SearchState {
                    visited: st.visited.update(cur, true),
                    queue: st.queue.drop_first(),
                    labels: st.labels.drop_first(),
                    level: st.labels[0],
                    order: st.order.push(cur),
                    rank: st.rank.update(cur, st.order.len() as int),
                    ..st
                };
                &&& self.search_inv(st2, from, to, src, cur, 0)
                &&& st2.dist[cur] == st2.level
                &&& st2.level + 1 <= st2.order.len()
            }),
    {
        let ids = self.node_seq();
        let n = ids.len();
        let cur = st.queue[0] as int;
        let st2 = SearchState {
            visited: st.visited.update(cur, true),
            queue: st.queue.drop_first(),
            labels: st.labels.drop_first(),
            level: st.labels[0],
            order: st.order.push(cur),
            rank: st.rank.update(cur, st.order.len() as int),
            ..st
        };
        assert(st.queue[0] < n);
        self.lemma_fresh_label(st, from, to, src);
        assert(st.level <= st.labels[0]);
        assert(!st.order.contains(cur));
        lemma_order_push(st.order, st.visited, cur, n as int);
        lemma_distinct_bound(st2.order, n as int);
        assert forall|i: int| 0 <= i < st2.order.len() implies 0 <= #[trigger] st2.order[i] < n && st2.visited[st2.order[i]] by {
            if i < st.order.len() {
                assert(st.visited[st.order[i]]);
            }
        }
        assert forall|v: int| 0 <= v < n && #[trigger] st2.visited[v] implies {
            &&& 0 <= st2.rank[v] < st2.order.len()
            &&& st2.order[st2.rank[v]] == v
            &&& reached(st2, v)
            &&& st2.dist[v] <= st2.level
            &&& ids[v] != to
            &&& self.cost_at_least(from, ids[v], st2.dist[v] as int)
        } by {
            if v != cur {
                assert(st.visited[v]);
            }
        }
        assert forall|k: int| 0 <= k < st2.queue.len() implies {
            &&& #[trigger] st2.queue[k] < n
            &&& reached(st2, st2.queue[k] as int)
            &&& st2.dist[st2.queue[k] as int] <= st2.labels[k]
            &&& st2.level <= st2.labels[k] <= st2.level + 1
        } by {
            assert(st.queue[k + 1] == st2.queue[k]);
            assert(st.labels[0] <= st.labels[k + 1]);
        }
        assert forall|v: int| 0 <= v < n && !st2.visited[v] && #[trigger] reached(st2, v) implies
            exists|k: int| 0 <= k < st2.queue.len() && st2.queue[k] == v && st2.labels[k] == st2.dist[v] by {
            assert(reached(st, v));
            assert(!st.visited[v]);
            let k = choose|k: int| 0 <= k < st.queue.len() && st.queue[k] == v && st.labels[k] == st.dist[v];
            assert(k != 0);
            assert(st2.queue[k - 1] == v);
        }
        assert forall|v: int, k: int|
            0 <= v < n && st2.visited[v] && 0 <= k < self.adjacency(ids[v]).len() && (v != cur || k < 0)
                implies #[trigger] self.relaxed(st2.dist, v, k) by {
            assert(st.visited[v]);
            assert(self.relaxed(st.dist, v, k));
        }
        assert forall|v: int| 0 <= v < n && #[trigger] reached(st2, v) && v != src implies
            st2.prev[v] is Some && self.pred_ok(st2, v, st2.prev[v].unwrap() as int) by {
            assert(reached(st, v));
            let u = st.prev[v].unwrap() as int;
            assert(self.pred_ok(st, v, u));
            assert(st.visited[u]);
            if v != cur {
                if st2.visited[v] {
                    assert(st.visited[v]);
                }
            }
        }
        if !st.visited[src] {
            assert(cur == src);
        }
    }
    /// Relaxing entry `k` of the node being expanded, when it does not
    /// improve the distance of its target, only extends the relaxed prefix.
    #[verifier::spinoff_prover]
    #[verifier::rlimit(40)]
    proof fn lemma_relax_keep(&self, st: SearchState, from: usize, to: usize, src: int, cur: int, k: int)
        requires
            self.search_inv(st, from, to, src, cur, k),
            0 <= cur < self.node_seq().len(),
            st.visited[cur],
            st.dist[cur] == st.level,
            st.level + 1 <= st.order.len(),
            0 <= k < self.adjacency(self.node_seq()[cur]).len(),
            st.dist[cur] + weight_cost(self.adjacency(self.node_seq()[cur])[k].1)
                >= st.dist[self.pos(self.adjacency(self.node_seq()[cur])[k].0)],
        ensures
            self.search_inv(st, from, to, src, cur, k + 1),
    {
        let ids = self.node_seq();
        let e = self.adjacency(ids[cur])[k];
        let j = self.pos(e.0);
        self.lemma_entry_target(cur, k);
        assert(st.visited[cur]);
        assert(st.dist[cur] <= st.order.len());
        assert(self.relaxed(st.dist, cur, k));
    }

    /// Relaxing entry `k` of the node being expanded, when it improves the
    /// distance of its target: the target takes the new distance and the
    /// node as predecessor, and is queued at the front for a free edge or
    /// at the back for a unit edge.
    #[verifier::spinoff_prover]
    #[verifier::rlimit(40)]
    proof fn lemma_relax_improve(
        &self,
        st: SearchState,
        from: usize,
        to: usize,
        src: int,
        cur: int,
        k: int,
    )
        requires
            self.search_inv(st, from, to, src, cur, k),
            0 <= cur < self.node_seq().len(),
            st.visited[cur],
            st.dist[cur] == st.level,
            st.level + 1 <= st.order.len(),
            0 <= k < self.adjacency(self.node_seq()[cur]).len(),
            st.dist[cur] + weight_cost(self.adjacency(self.node_seq()[cur])[k].1)
                < st.dist[self.pos(self.adjacency(self.node_seq()[cur])[k].0)],
        ensures
            ({
                let e = self.adjacency(self.node_seq()[cur])[k];
                let j = self.pos(e.0);
                let nd = st.dist[cur] + weight_cost(e.1);
                let st2 = SearchState {
                    dist: st.dist.update(j, nd as i32),
                    prev: st.prev.update(j, Some(cur as usize)),
                    queue: if weight_cost(e.1) == 0 { seq![j as usize] + st.queue } else { st.queue.push(j as usize) },
                    labels: if weight_cost(e.1) == 0 { seq![nd] + st.labels } else { st.labels.push(nd) },
                    ..st
                };
                &&& self.search_inv(st2, from, to, src, cur, k + 1)
                &&& st2.dist[cur] == st2.level
                &&& 0 <= j < self.node_seq().len()
                &&& nd < i32::MAX
            }),
    {
        let ids = self.node_seq();
        let n = ids.len();
        let e = self.adjacency(ids[cur])[k];
        let j = self.pos(e.0);
        let c = weight_cost(e.1);
        let nd = st.dist[cur] + c;
        let front = c == 0;
        let st2 = SearchState {
            dist: st.dist.update(j, nd as i32),
            prev: st.prev.update(j, Some(cur as usize)),
            queue: if front { seq![j as usize] + st.queue } else { st.queue.push(j as usize) },
            labels: if front { seq![nd] + st.labels } else { st.labels.push(nd) },
            ..st
        };
        self.lemma_entry_target(cur, k);
        self.lemma_entry_step(ids[cur], k);
        assert(st.dist[cur] <= st.order.len());
        assert(!st.visited[j]);
        assert(j != cur);
        assert(j != src);
        assert(st.visited[src]);
        assert(nd < i32::MAX);
        assert(st2.dist[j] == nd);
        // queue entries
        assert forall|q: int| 0 <= q < st2.queue.len() implies {
            &&& #[trigger] st2.queue[q] < n
            &&& reached(st2, st2.queue[q] as int)
            &&& st2.dist[st2.queue[q] as int] <= st2.labels[q]
            &&& st2.level <= st2.labels[q] <= st2.level + 1
        } by {
            if front {
                if q > 0 {
                    assert(st2.queue[q] == st.queue[q - 1]);
                    assert(st2.labels[q] == st.labels[q - 1]);
                }
            } else {
                if q < st.queue.len() {
                    assert(st2.queue[q] == st.queue[q]);
                    assert(st2.labels[q] == st.labels[q]);
                }
            }
        }
        assert forall|k1: int, k2: int| 0 <= k1 <= k2 < st2.labels.len() implies st2.labels[k1] <= st2.labels[k2] by {
            if front {
                if k1 > 0 {
                    assert(st.labels[k1 - 1] <= st.labels[k2 - 1]);
                } else if k2 > 0 {
                    assert(st.queue[k2 - 1] < n);
                    assert(st.level <= st.labels[k2 - 1]);
                }
            } else {
                if k2 < st.labels.len() {
                    assert(st.labels[k1] <= st.labels[k2]);
                } else if k1 < st.labels.len() {
                    assert(st.queue[k1] < n);
                    assert(st.labels[k1] <= st.level + 1);
                }
            }
        }
        assert forall|v: int| 0 <= v < n && !st2.visited[v] && #[trigger] reached(st2, v) implies
            exists|q: int| 0 <= q < st2.queue.len() && st2.queue[q] == v && st2.labels[q] == st2.dist[v] by {
            if v == j {
                if front {
                    assert(st2.queue[0] == v);
                } else {
                    assert(st2.queue[st.queue.len() as int] == v);
                }
            } else {
                assert(reached(st, v));
                let q = choose|q: int| 0 <= q < st.queue.len() && st.queue[q] == v && st.labels[q] == st.dist[v];
                if front {
                    assert(st2.queue[q + 1] == v);
                } else {
                    assert(st2.queue[q] == v);
                }
            }
        }
        assert forall|v: int, kk: int|
            0 <= v < n && st2.visited[v] && 0 <= kk < self.adjacency(ids[v]).len() && (v != cur || kk < k + 1)
                implies #[trigger] self.relaxed(st2.dist, v, kk) by {
            if v == cur && kk == k {
            } else {
                assert(self.relaxed(st.dist, v, kk));
            }
        }
        assert forall|v: int| 0 <= v < n && #[trigger] reached(st2, v) && v != src implies
            st2.prev[v] is Some && self.pred_ok(st2, v, st2.prev[v].unwrap() as int) by {
            if v != j {
                assert(reached(st, v));
                let u = st.prev[v].unwrap() as int;
                assert(self.pred_ok(st, v, u));
                assert(u != j);
            }
        }
        assert forall|v: int| 0 <= v < n && #[trigger] st2.visited[v] implies {
            &&& 0 <= st2.rank[v] < st2.order.len()
            &&& st2.order[st2.rank[v]] == v
            &&& reached(st2, v)
            &&& st2.dist[v] <= st2.level
            &&& ids[v] != to
            &&& self.cost_at_least(from, ids[v], st2.dist[v] as int)
        } by {
            assert(st.visited[v]);
        }
        assert forall|v: int| 0 <= v < n && reached(st2, v) implies 0 <= #[trigger] st2.dist[v] <= st2.order.len() by {
            if v != j {
                assert(reached(st, v));
            }
        }
    }
    /// With the queue empty, `to` cannot be reached from `from`.
    #[verifier::spinoff_prover]
    #[verifier::rlimit(40)]
    proof fn lemma_exhausted(&self, st: SearchState, from: usize, to: usize, src: int)
        requires
            self.search_inv(st, from, to, src, -1, 0),
            st.queue.len() == 0,
        ensures
            !self.reachable(from, to),
    {
        let ids = self.node_seq();
        let n = ids.len();
        assert(reached(st, src));
        if !st.visited[src] {
            let k = choose|k: int| 0 <= k < st.queue.len() && st.queue[k] == src && st.labels[k] == st.dist[src];
        }
        if self.reachable(from, to) {
            let w = choose|w: Seq<usize>| #[trigger] self.is_path_between(w, from, to);
            self.lemma_frontier(st, from, to, src, w);
            let y = choose|y: int|
                0 <= y < n && !st.visited[y] && reached(st, y) && st.dist[y] <= self.walk_cost(w);
            let k = choose|k: int| 0 <= k < st.queue.len() && st.queue[k] == y && st.labels[k] == st.dist[y];
        }
    }

    /// What the walk back along the predecessors needs: every visited node
    /// has a distance, and every visited node but the source a predecessor.
    spec fn tree_inv(&self, st: SearchState, from: usize, src: int) -> bool {
        let ids = self.node_seq();
        let n = ids.len();
        &&& n < i32::MAX
        &&& st.dist.len() == n
        &&& st.prev.len() == n
        &&& st.visited.len() == n
        &&& st.rank.len() == n
        &&& 0 <= src < n
        &&& ids[src] == from
        &&& st.visited[src]
        &&& st.dist[src] == 0
        &&& st.prev[src] is None
        &&& forall|v: int| 0 <= v < n && #[trigger] st.visited[v] ==> {
            &&& reached(st, v)
            &&& 0 <= st.dist[v]
            &&& 0 <= st.rank[v]
            &&& (v != src ==> st.prev[v] is Some && self.pred_ok(st, v, st.prev[v].unwrap() as int))
        }
    }

    /// Popping the entry of the target itself: its distance is the least
    /// cost of a walk to it, it is smaller than the number of nodes, and the
    /// visited nodes with their predecessors form a tree rooted at the source.
    #[verifier::spinoff_prover]
    #[verifier::rlimit(40)]
    proof fn lemma_pop_target(&self, st: SearchState, from: usize, to: usize, src: int)
        requires
            self.search_inv(st, from, to, src, -1, 0),
            st.queue.len() > 0,
            !st.visited[st.queue[0] as int],
            self.node_seq()[st.queue[0] as int] == to,
        ensures
            ({
                let cur = st.queue[0] as int;
                let st2 = SearchState {
                    visited: st.visited.update(cur, true),
                    queue: st.queue.drop_first(),
                    labels: st.labels.drop_first(),
                    level: st.labels[0],
                    order: st.order.push(cur),
                    rank: st.rank.update(cur, st.order.len() as int),
                    ..st
                };
                &&& self.tree_inv(st2, from, src)
                &&& self.cost_at_least(from, to, st.dist[cur] as int)
                &&& 0 <= st.dist[cur] < self.node_seq().len()
            }),
    {
        let ids = self.node_seq();
        let n = ids.len();
        let cur = st.queue[0] as int;
        let st2 = SearchState {
            visited: st.visited.update(cur, true),
            queue: st.queue.drop_first(),
            labels: st.labels.drop_first(),
            level: st.labels[0],
            order: st.order.push(cur),
            rank: st.rank.update(cur, st.order.len() as int),
            ..st
        };
        assert(st.queue[0] < n);
        self.lemma_fresh_label(st, from, to, src);
        assert(!st.order.contains(cur));
        lemma_order_push(st.order, st.visited, cur, n as int);
        assert forall|i: int| 0 <= i < st2.order.len() implies 0 <= #[trigger] st2.order[i] < n by {
            if i < st.order.len() {
                assert(0 <= st.order[i] < n);
            }
        }
        lemma_distinct_bound(st2.order, n as int);
        assert(reached(st, cur));
        assert forall|v: int| 0 <= v < n && #[trigger] st2.visited[v] implies {
            &&& reached(st2, v)
            &&& 0 <= st2.dist[v]
            &&& 0 <= st2.rank[v]
            &&& (v != src ==> st2.prev[v] is Some && self.pred_ok(st2, v, st2.prev[v].unwrap() as int))
        } by {
            if v != cur {
                assert(st.visited[v]);
            }
            assert(reached(st, v));
            if v != src {
                let u = st.prev[v].unwrap() as int;
                assert(self.pred_ok(st, v, u));
                assert(st.visited[u]);
            }
        }
        if !st.visited[src] {
            assert(cur == src);
        }
    }

    /// Following predecessors forward from the source gives a walk that
    /// costs no more than the distance of its end.
    #[verifier::spinoff_prover]
    #[verifier::rlimit(40)]
    proof fn lemma_chain_walk(&self, st: SearchState, from: usize, src: int, q: Seq<int>, p: Seq<usize>)
        requires
            self.tree_inv(st, from, src),
            q.len() >= 1,
            p.len() == q.len(),
            q[0] == src,
            forall|i: int| 0 <= i < q.len() ==> 0 <= #[trigger] q[i] < self.node_seq().len() && st.visited[q[i]]
                && p[i] == self.node_seq()[q[i]],
            forall|i: int| 0 <= i < q.len() - 1 ==> #[trigger] st.prev[q[i + 1]] == Some(q[i] as usize),
        ensures
            self.is_walk(p),
            self.walk_cost(p) <= st.dist[q.last()],
        decreases q.len(),
    {
        let ids = self.node_seq();
        if q.len() == 1 {
            assert(self.walk_cost(p) == 0);
            assert(q[0] == src);
        } else {
            let d = q.drop_last();
            let pd = p.drop_last();
            assert forall|i: int| 0 <= i < d.len() - 1 implies #[trigger] st.prev[d[i + 1]] == Some(d[i] as usize) by {
                assert(st.prev[q[i + 1]] == Some(q[i] as usize));
            }
            assert forall|i: int| 0 <= i < d.len() implies 0 <= #[trigger] d[i] < ids.len() && st.visited[d[i]]
                && pd[i] == ids[d[i]] by {
                assert(0 <= q[i] < ids.len() && st.visited[q[i]]);
            }
            self.lemma_chain_walk(st, from, src, d, pd);
            let i = q.len() - 2;
            let v = q[i + 1];
            let u = q[i];
            assert(st.prev[q[i + 1]] == Some(q[i] as usize));
            assert(v == q.last());
            assert(0 <= v < ids.len() && st.visited[v]);
            assert(0 <= u < ids.len() && st.visited[u]);
            if v == src {
                assert(st.prev[v] is None);
            }
            assert(st.prev[v].unwrap() as int == u);
            assert(self.pred_ok(st, v, u));
            assert(pd.last() == ids[u]);
            assert(p.last() == ids[v]);
            self.lemma_walk_push(pd, ids[v]);
            assert(pd.push(ids[v]) =~= p);
        }
    }
    /// Walks back from the visited position `cur` along the predecessors to
    /// the source, and returns the node ids of that walk from the source on.
    /// One more step back along the predecessors, in the walk's terms.
    proof fn lemma_path_back_extend(
        &self,
        prev: Seq<Option<usize>>,
        cur: int,
        node: int,
        p: int,
        rev: Seq<usize>,
        n: int,
    )
        requires
            rev.len() >= 1,
            n - (rev.len() - 1) >= 1,
            prev[node] == Some(p as usize),
            0 <= p <= usize::MAX,
            rev.last() == self.node_seq()[node],
            self.path_back(prev, cur, n as nat) == self.path_back(prev, node, (n - (rev.len() - 1)) as nat)
                + rev.take(rev.len() - 1).reverse(),
        ensures
            self.path_back(prev, cur, n as nat) == self.path_back(prev, p, (n - rev.len()) as nat)
                + rev.push(self.node_seq()[p]).take(rev.len() as int).reverse(),
    {
        let m = rev.len() - 1;
        let f = (n - m) as nat;
        assert(self.path_back(prev, node, f) == self.path_back(prev, p, (f - 1) as nat).push(self.node_seq()[node]));
        assert(rev.push(self.node_seq()[p]).take(m + 1) =~= rev);
        assert(seq![rev[m]] + rev.take(m).reverse() =~= rev.reverse());
        assert(self.path_back(prev, p, (f - 1) as nat).push(self.node_seq()[node]) + rev.take(m).reverse()
            =~= self.path_back(prev, p, (f - 1) as nat) + rev.reverse());
    }

    #[verifier::spinoff_prover]
    #[verifier::rlimit(40)]
    fn trace_back(
        &self,
        ids: &Vec<usize>,
        prev: &Vec<Option<usize>>,
        cur: usize,
        Ghost(st): Ghost<SearchState>,
        Ghost(from): Ghost<usize>,
        Ghost(src): Ghost<int>,
    ) -> (p: Vec<usize>)
        requires
            self.wf(),
            self.tree_inv(st, from, src),
            st.prev == prev@,
            ids@ == self.node_seq(),
            cur < ids@.len(),
            st.visited[cur as int],
        ensures
            self.is_walk(p@),
            p@[0] == from,
            p@.last() == ids@[cur as int],
            self.walk_cost(p@) <= st.dist[cur as int],
            p@.no_duplicates(),
            p@ == self.path_back(prev@, cur as int, ids@.len() as nat),
    {
        let n = ids.len();
        let mut rev: Vec<usize> = Vec::new();
        rev.push(ids[cur]);
        let mut node: usize = cur;
        let ghost mut chain: Seq<int> = seq![cur as int];
        while prev[node].is_some()
            invariant
                self.tree_inv(st, from, src),
                st.prev == prev@,
                ids@ == self.node_seq(),
                n == ids@.len(),
                node < n,
                st.visited[node as int],
                chain.len() >= 1,
                chain[0] == cur,
                chain.last() == node,
                rev@.len() == chain.len(),
                forall|i: int| 0 <= i < chain.len() ==> 0 <= #[trigger] chain[i] < n && st.visited[chain[i]]
                    && rev@[i] == ids@[chain[i]],
                forall|i: int| 0 <= i < chain.len() - 1 ==> #[trigger] st.prev[chain[i]] == Some(chain[i + 1] as usize),
                forall|a: int, b: int| 0 <= a < b < chain.len() ==> st.rank[chain[b]] < st.rank[chain[a]],
                chain.len() <= n,
                self.path_back(prev@, cur as int, n as nat) == self.path_back(
                    prev@,
                    node as int,
                    (n - (chain.len() - 1)) as nat,
                ) + rev@.take(chain.len() - 1).reverse(),
            decreases st.rank[node as int],
        {
            let p = prev[node].unwrap();
            proof {
                assert(st.visited[node as int]);
                assert(node as int != src);
                assert(self.pred_ok(st, node as int, p as int));
                assert(st.visited[p as int]);
                assert forall|a: int| 0 <= a < chain.len() implies st.rank[p as int] < st.rank[chain[a]] by {
                    if a < chain.len() - 1 {
                        assert(st.rank[chain[chain.len() - 1]] < st.rank[chain[a]]);
                    }
                }
            }
            let ghost old_rev = rev@;
            let ghost old_node = node;
            rev.push(ids[p]);
            node = p;
            proof {
                let old_chain = chain;
                self.lemma_path_back_extend(prev@, cur as int, old_node as int, p as int, old_rev, n as int);
                chain = chain.push(p as int);
                assert forall|i: int| 0 <= i < chain.len() - 1 implies #[trigger] st.prev[chain[i]] == Some(chain[i + 1] as usize) by {
                    if i < old_chain.len() - 1 {
                        assert(st.prev[old_chain[i]] == Some(old_chain[i + 1] as usize));
                    }
                }
                assert forall|a: int, b: int| 0 <= a < b < chain.len() implies st.rank[chain[b]] < st.rank[chain[a]] by {
                    if b < old_chain.len() {
                        assert(st.rank[old_chain[b]] < st.rank[old_chain[a]]);
                    }
                }
                lemma_rank_chain_distinct(chain, st.rank);
                lemma_distinct_bound(chain, n as int);
            }
        }
        proof {
            if node as int != src {
                assert(st.visited[node as int]);
            }
        }
        let mut path: Vec<usize> = Vec::new();
        let mut i: usize = rev.len();
        let m = rev.len();
        while i > 0
            invariant
                i <= m,
                m == rev@.len(),
                path@.len() == m - i,
                forall|t: int| 0 <= t < path@.len() ==> #[trigger] path@[t] == rev@[m - 1 - t],
            decreases i,
        {
            i = i - 1;
            path.push(rev[i]);
        }
        proof {
            let q = chain.reverse();
            let ml = chain.len() as int;
            assert(path@ =~= rev@.reverse());
            assert(rev@ =~= rev@.take(ml - 1).push(rev@[ml - 1]));
            assert(rev@.reverse() =~= seq![rev@[ml - 1]] + rev@.take(ml - 1).reverse());
            assert forall|t: int| 0 <= t < q.len() implies 0 <= #[trigger] q[t] < n && st.visited[q[t]]
                && path@[t] == self.node_seq()[q[t]] by {
                assert(q[t] == chain[ml - 1 - t]);
                assert(0 <= chain[ml - 1 - t] < n);
            }
            assert forall|t: int| 0 <= t < q.len() - 1 implies #[trigger] st.prev[q[t + 1]] == Some(q[t] as usize) by {
                assert(q[t + 1] == chain[ml - 2 - t]);
                assert(q[t] == chain[ml - 2 - t + 1]);
                assert(st.prev[chain[ml - 2 - t]] == Some(chain[ml - 2 - t + 1] as usize));
            }
            assert(q[0] == src);
            self.lemma_chain_walk(st, from, src, q, path@);
            assert(q.last() == chain[0]);
            assert forall|a: int, b: int| 0 <= a < path@.len() && 0 <= b < path@.len() && a != b
                implies path@[a] != path@[b] by {
                let x = chain[ml - 1 - a];
                let y = chain[ml - 1 - b];
                assert(0 <= x < n && 0 <= y < n);
                assert(path@[a] == ids@[x]);
                assert(path@[b] == ids@[y]);
                if a < b {
                    assert(st.rank[chain[ml - 1 - a]] < st.rank[chain[ml - 1 - b]]);
                } else {
                    assert(st.rank[chain[ml - 1 - b]] < st.rank[chain[ml - 1 - a]]);
                }
                assert(x != y);
                if x < y {
                    assert(ids@[x] < ids@[y]);
                } else {
                    assert(ids@[y] < ids@[x]);
                }
            }
        }
        path
    }
    /// Shortest path using 0-1 BFS with ternary costs. Returns (path, total_cost).
    /// Cost: Positive=1, Zero=0, Negative=1 (absolute value).
    /// Zero-cost edges are prioritized via deque front insertion (0-1 BFS).
    #[verifier::spinoff_prover]
    #[verifier::rlimit(60)]
    pub fn shortest_path(&self, from: usize, to: usize) -> (r: Option<(Vec<usize>, i32)>)
        requires
            self.wf(),
            self.num_nodes() < i32::MAX,
        ensures
            from == to ==> (r matches Some((p, c)) && p@ == seq![from] && c == 0),
            from != to ==> (r is Some <==> self.reachable(from, to)),
            r matches Some((p, c)) ==> {
                &&& self.is_path_between(p@, from, to)
                &&& self.walk_cost(p@) == c
                &&& self.is_distance(from, to, c as int)
                &&& p@.no_duplicates()
                &&& 0 <= c
                &&& (from != to ==> c < self.num_nodes())
            },
            r matches Some((p, c)) ==> self.bfs_path(from, to) == Some((p@, c)),
            r is None ==> self.bfs_path(from, to) is None,
    {
        if from == to {
            let mut p: Vec<usize> = Vec::new();
            p.push(from);
            proof {
                assert(p@ =~= seq![from]);
                assert(self.is_path_between(p@, from, to));
                assert forall|w: Seq<usize>| #[trigger] self.is_path_between(w, from, to) implies
                    self.walk_cost(w) >= 0 by {
                    self.lemma_walk_cost_bounds(w);
                }
            }
            return Some((p, 0));
        }
        let src = match self.position(from) {
            Some(i) => i,
            None => {
                proof {
                    if self.reachable(from, to) {
                        let w = choose|w: Seq<usize>| #[trigger] self.is_path_between(w, from, to);
                        self.lemma_walk_nodes(w, 0);
                    }
                }
                return None;
            },
        };
        let ids = self.nodes();
        let n = ids.len();
        let mut dist: Vec<i32> = Vec::new();
        let mut prev: Vec<Option<usize>> = Vec::new();
        let mut visited: Vec<bool> = Vec::new();
        let mut i: usize = 0;
        while i < n
            invariant
                i <= n,
                n == ids@.len(),
                src < n,
                dist@.len() == i,
                prev@.len() == i,
                visited@.len() == i,
                forall|v: int| 0 <= v < i ==> #[trigger] dist@[v] == i32::MAX,
                forall|v: int| 0 <= v < i ==> #[trigger] prev@[v] is None,
                forall|v: int| 0 <= v < i ==> !#[trigger] visited@[v],
            decreases n - i,
        {
            dist.push(i32::MAX);
            prev.push(None);
            visited.push(false);
            i = i + 1;
        }
        proof {
            assert(dist@[src as int] == i32::MAX);
            assert(prev@[src as int] is None);
            assert(!visited@[src as int]);
        }
        dist.set(src, 0);
        let mut queue: VecDeque<usize> = VecDeque::new();
        queue.push_back(src);
        let ghost mut labels: Seq<int> = seq![0int];
        let ghost mut level: int = 0;
        let ghost mut order: Seq<int> = Seq::empty();
        let ghost mut rank: Seq<int> = Seq::new(n as nat, |v: int| 0int);
        let ghost mut pops: int = 0;
        proof {
            let st = SearchState {
                dist: dist@,
                prev: prev@,
                visited: visited@,
                queue: queue@,
                labels,
                level,
                order,
                rank,
            };
            assert(queue@ =~= seq![src]);
            lemma_index_of_increasing(self.node_seq(), src as int);
            let bs = self.bfs_start(src as int);
            assert(dist@ =~= bs.dist);
            assert(prev@ =~= bs.prev);
            assert(visited@ =~= bs.visited);
            assert(queue@ =~= bs.queue);
            assert((BfsState { dist: dist@, prev: prev@, visited: visited@, queue: queue@, found: None }) == bs);
            assert(n * (self.total_degree() + 2) + 1 == self.bfs_fuel());
            assert forall|v: int| 0 <= v < n && !st.visited[v] && #[trigger] reached(st, v) implies
                exists|k: int| 0 <= k < st.queue.len() && st.queue[k] == v && st.labels[k] == st.dist[v] by {
                assert(v == src);
                assert(st.queue[0] == v);
            }
            assert(self.search_inv(st, from, to, src as int, -1, 0));
        }
        loop
            invariant
                ids@ == self.node_seq(),
                n == ids@.len(),
                src < n,
                self.search_inv(
                    (SearchState {
                        dist: dist@,
                        prev: prev@,
                        visited: visited@,
                        queue: queue@,
                        labels,
                        level,
                        order,
                        rank,
                    }),
                    from,
                    to,
                    src as int,
                    -1,
                    0,
                ),
                src as int == self.pos(from),
                0 <= pops,
                pops + (n - order.len()) * (self.total_degree() + 2) + queue@.len() <= self.bfs_fuel(),
                self.bfs_run(to, self.bfs_start(src as int), self.bfs_fuel()) == self.bfs_run(
                    to,
                    (BfsState { dist: dist@, prev: prev@, visited: visited@, queue: queue@, found: None }),
                    (self.bfs_fuel() - pops) as nat,
                ),
            decreases n - order.len(), queue@.len(),
        {
            let ghost st = SearchState {
                dist: dist@,
                prev: prev@,
                visited: visited@,
                queue: queue@,
                labels,
                level,
                order,
                rank,
            };
            let ghost sc = BfsState { dist: dist@, prev: prev@, visited: visited@, queue: queue@, found: None };
            proof {
                assert((n - order.len()) * (self.total_degree() + 2) >= 0) by (nonlinear_arith)
                    requires
                        n - order.len() >= 0,
                ;
            }
            let popped = queue.pop_front();
            let cur = match popped {
                Some(c) => c,
                None => {
                    proof {
                        self.lemma_exhausted(st, from, to, src as int);
                        assert(bfs_done(sc));
                        assert(self.bfs_run(to, sc, (self.bfs_fuel() - pops) as nat) == sc);
                    }
                    return None;
                },
            };
            proof {
                assert(st.queue[0] < n);
                assert(self.bfs_fuel() - pops >= 1);
                assert(!bfs_done(sc));
                assert(self.bfs_run(to, sc, (self.bfs_fuel() - pops) as nat) == self.bfs_run(
                    to,
                    self.bfs_step(to, sc),
                    (self.bfs_fuel() - pops - 1) as nat,
                ));
            }
            if visited[cur] {
                proof {
                    self.lemma_pop_seen(st, from, to, src as int);
                    labels = labels.drop_first();
                    level = st.labels[0];
                    assert(queue@ =~= st.queue.drop_first());
                    assert((BfsState { dist: dist@, prev: prev@, visited: visited@, queue: queue@, found: None })
                        == self.bfs_step(to, sc));
                    pops = pops + 1;
                }
                continue;
            }
            if ids[cur] == to {
                proof {
                    self.lemma_pop_target(st, from, to, src as int);
                }
                visited.set(cur, true);
                proof {
                    order = order.push(cur as int);
                    rank = rank.update(cur as int, st.order.len() as int);
                    labels = labels.drop_first();
                    level = st.labels[0];
                }
                let ghost st2 = SearchState {
                    dist: dist@,
                    prev: prev@,
                    visited: visited@,
                    queue: queue@,
                    labels,
                    level,
                    order,
                    rank,
                };
                proof {
                    assert(queue@ =~= st.queue.drop_first());
                    assert(st2 == SearchState {
                        visited: st.visited.update(cur as int, true),
                        queue: st.queue.drop_first(),
                        labels: st.labels.drop_first(),
                        level: st.labels[0],
                        order: st.order.push(cur as int),
                        rank: st.rank.update(cur as int, st.order.len() as int),
                        ..st
                    });
                }
                let path = self.trace_back(&ids, &prev, cur, Ghost(st2), Ghost(from), Ghost(src as int));
                let c = dist[cur];
                proof {
                    let sf = BfsState { dist: dist@, prev: prev@, visited: visited@, queue: queue@, found: Some(cur) };
                    assert(sf == self.bfs_step(to, sc));
                    assert(bfs_done(sf));
                    assert(self.bfs_run(to, sf, (self.bfs_fuel() - pops - 1) as nat) == sf);
                    assert(self.is_path_between(path@, from, to));
                    assert(self.cost_at_least(from, to, c as int));
                    assert(self.walk_cost(path@) >= c);
                }
                return Some((path, c));
            }
            proof {
                self.lemma_pop_fresh(st, from, to, src as int);
            }
            visited.set(cur, true);
            proof {
                order = order.push(cur as int);
                rank = rank.update(cur as int, st.order.len() as int);
                labels = labels.drop_first();
                level = st.labels[0];
                assert(queue@ =~= st.queue.drop_first());
            }
            let ghost s2 = BfsState { dist: dist@, prev: prev@, visited: visited@, queue: queue@, found: None };
            let ghost q0 = queue@.len();
            let edges = self.neighbors(ids[cur]);
            proof {
                assert(self.bfs_step(to, sc) == self.bfs_relax(s2, cur as int, edges@.len() as int));
                self.lemma_degree_within_total(ids@[cur as int]);
            }
            let mut k: usize = 0;
            while k < edges.len()
                invariant
                    self.wf(),
                    ids@ == self.node_seq(),
                    n == ids@.len(),
                    src < n,
                    cur < n,
                    edges@ == self.adjacency(ids@[cur as int]),
                    k <= edges@.len(),
                    visited@[cur as int],
                    dist@[cur as int] == level,
                    level + 1 <= order.len(),
                    order.len() <= n,
                    self.search_inv(
                        (SearchState {
                            dist: dist@,
                            prev: prev@,
                            visited: visited@,
                            queue: queue@,
                            labels,
                            level,
                            order,
                            rank,
                        }),
                        from,
                        to,
                        src as int,
                        cur as int,
                        k as int,
                    ),
                    (BfsState { dist: dist@, prev: prev@, visited: visited@, queue: queue@, found: None })
                        == self.bfs_relax(s2, cur as int, k as int),
                    queue@.len() <= q0 + k,
                    q0 + 1 == sc.queue.len(),
                    edges@.len() <= self.total_degree(),
                    self.bfs_step(to, sc) == self.bfs_relax(s2, cur as int, edges@.len() as int),
                decreases edges@.len() - k,
            {
                let ghost sk = SearchState {
                    dist: dist@,
                    prev: prev@,
                    visited: visited@,
                    queue: queue@,
                    labels,
                    level,
                    order,
                    rank,
                };
                let (nb, w) = edges[k];
                let cost = w.cost();
                let new_dist = dist[cur] + cost;
                let j = match self.position(nb) {
                    Some(j) => j,
                    None => {
                        proof {
                            self.lemma_entry_target(cur as int, k as int);
                        }
                        0
                    },
                };
                proof {
                    self.lemma_entry_target(cur as int, k as int);
                    lemma_index_of_increasing(self.node_seq(), j as int);
                    assert(j as int == self.pos(nb));
                }
                let ghost before = BfsState { dist: dist@, prev: prev@, visited: visited@, queue: queue@, found: None };
                proof {
                    assert(edges@[k as int] == self.adjacency(self.node_seq()[cur as int])[k as int]);
                }
                if new_dist < dist[j] {
                    proof {
                        self.lemma_relax_improve(sk, from, to, src as int, cur as int, k as int);
                    }
                    dist.set(j, new_dist);
                    prev.set(j, Some(cur));
                    if cost == 0 {
                        queue.push_front(j);
                        proof {
                            labels = seq![new_dist as int] + labels;
                        }
                    } else {
                        queue.push_back(j);
                        proof {
                            labels = labels.push(new_dist as int);
                        }
                    }
                } else {
                    proof {
                        self.lemma_relax_keep(sk, from, to, src as int, cur as int, k as int);
                    }
                }
                proof {
                    assert((BfsState { dist: dist@, prev: prev@, visited: visited@, queue: queue@, found: None })
                        == self.bfs_relax(s2, cur as int, k + 1));
                }
                k = k + 1;
            }
            proof {
                let t = self.total_degree();
                let d = (n - st.order.len()) as int;
                assert((d - 1) * (t + 2) == d * (t + 2) - (t + 2)) by (nonlinear_arith);
                pops = pops + 1;
            }
        }
    }
}

} // verus!
