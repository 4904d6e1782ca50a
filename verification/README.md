# ternary_network

Network science for graphs whose edges carry one of the weights -1, 0, +1,
written in Verus.

- `src/` is the verified library. A network is a strictly increasing
  sequence of node ids with one adjacency list per node; its contracts speak
  of `node_seq()`, `adjacency(n)` and `is_directed()`. Shortest paths are
  computed by 0-1 BFS and proved to be cheapest walks (a `Zero` edge costs 0,
  the other weights 1); the search returns nothing exactly when the target
  cannot be reached, and the walk it returns is the one `bfs_path` specifies
  (the search itself, step by step, as a spec function). Label propagation, degree queries and the exact counts
  behind clustering, closeness, betweenness and small-world detection are
  verified as well, and `laws.rs` states properties of every well-formed
  network (symmetry of undirected networks and of their distances, degree
  partitions, the degree distribution covering every node).
- `app/` holds the floating-point measures (`clustering_coefficient`,
  `avg_clustering_coefficient`, `modularity`, `betweenness_centrality`,
  `closeness_centrality`, `is_small_world`) as a trait on `TernaryNetwork`;
  each divides, sums or compares the library's counts in `f64`.
- `tests/` exercises the library on concrete networks.
