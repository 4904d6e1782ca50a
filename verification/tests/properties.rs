use std::collections::HashMap;
use ternary_network::metrics::community_of;
use ternary_network::communities::most_common_label;
use ternary_network::{TernaryNetwork, TernaryWeight};

fn line(n: usize) -> TernaryNetwork {
    let mut net = TernaryNetwork::new(false);
    for i in 0..n - 1 {
        net.add_edge(i, i + 1, TernaryWeight::Positive);
    }
    net
}

#[test]
fn weight_value_roundtrip() {
    for w in [TernaryWeight::Negative, TernaryWeight::Zero, TernaryWeight::Positive] {
        assert_eq!(TernaryWeight::from_i8(w.value()), Some(w));
    }
    assert_eq!(TernaryWeight::from_i8(-2), None);
    assert_eq!(TernaryWeight::from_i8(127), None);
    assert_eq!(TernaryWeight::from_i8(-128), None);
}

#[test]
fn weight_costs() {
    assert_eq!(TernaryWeight::Negative.cost(), 1);
    assert_eq!(TernaryWeight::Zero.cost(), 0);
    assert_eq!(TernaryWeight::Positive.cost(), 1);
}

#[test]
fn add_node_is_idempotent() {
    let mut net = TernaryNetwork::new(true);
    net.add_node(5);
    net.add_node(5);
    assert_eq!(net.node_count(), 1);
    assert_eq!(net.nodes(), vec![5]);
    assert_eq!(net.edge_count(), 0);
    assert!(net.neighbors(5).is_empty());
}

#[test]
fn nodes_come_sorted() {
    let mut net = TernaryNetwork::new(false);
    net.add_edge(5, 2, TernaryWeight::Zero);
    net.add_edge(9, 1, TernaryWeight::Negative);
    net.add_node(7);
    assert_eq!(net.nodes(), vec![1, 2, 5, 7, 9]);
    assert_eq!(net.node_count(), 5);
    assert_eq!(net.position(5), Some(2));
    assert_eq!(net.position(6), None);
}

#[test]
fn neighbors_keep_insertion_order() {
    let mut net = TernaryNetwork::new(true);
    net.add_edge(0, 3, TernaryWeight::Zero);
    net.add_edge(0, 1, TernaryWeight::Negative);
    net.add_edge(0, 3, TernaryWeight::Positive);
    assert_eq!(
        net.neighbors(0),
        &[(3, TernaryWeight::Zero), (1, TernaryWeight::Negative), (3, TernaryWeight::Positive)]
    );
    assert!(net.neighbors(3).is_empty());
    assert!(net.neighbors(42).is_empty());
    assert_eq!(net.edge_multiplicity(0, 3), 2);
    assert_eq!(net.edge_multiplicity(3, 0), 0);
    assert!(net.has_edge(0, 1));
    assert!(!net.has_edge(1, 0));
}

#[test]
fn undirected_self_loop_is_stored_twice() {
    let mut net = TernaryNetwork::new(false);
    net.add_edge(3, 3, TernaryWeight::Positive);
    assert_eq!(net.neighbors(3), &[(3, TernaryWeight::Positive), (3, TernaryWeight::Positive)]);
    assert_eq!(net.edge_count(), 1);
    assert_eq!(net.node_count(), 1);
}

#[test]
fn add_edge_counts_one_more_edge() {
    for directed in [false, true] {
        let mut net = TernaryNetwork::new(directed);
        let mut expected = 0;
        for (a, b) in [(0, 1), (1, 0), (2, 2), (0, 1), (4, 3)] {
            net.add_edge(a, b, TernaryWeight::Zero);
            expected += 1;
            assert_eq!(net.edge_count(), expected);
        }
    }
}

#[test]
fn undirected_edges_are_symmetric() {
    let mut net = TernaryNetwork::new(false);
    net.add_edge(0, 1, TernaryWeight::Positive);
    net.add_edge(1, 2, TernaryWeight::Negative);
    net.add_edge(2, 0, TernaryWeight::Zero);
    net.add_edge(0, 1, TernaryWeight::Zero);
    for a in net.nodes() {
        for b in net.nodes() {
            assert_eq!(net.edge_multiplicity(a, b), net.edge_multiplicity(b, a));
        }
    }
}

#[test]
fn weight_degrees_add_up() {
    let mut net = TernaryNetwork::new(false);
    net.add_edge(0, 1, TernaryWeight::Positive);
    net.add_edge(0, 2, TernaryWeight::Negative);
    net.add_edge(0, 3, TernaryWeight::Zero);
    net.add_edge(0, 4, TernaryWeight::Positive);
    let zero = net.neighbors(0).iter().filter(|(_, w)| *w == TernaryWeight::Zero).count();
    assert_eq!(net.positive_degree(0) + net.negative_degree(0) + zero, net.neighbors(0).len());
    assert_eq!(net.positive_degree(0), 2);
    assert_eq!(net.negative_degree(0), 1);
    assert_eq!(net.positive_degree(9), 0);
}

#[test]
fn degree_distribution_of_a_star() {
    let mut net = TernaryNetwork::new(false);
    net.add_edge(0, 1, TernaryWeight::Positive);
    net.add_edge(0, 2, TernaryWeight::Positive);
    net.add_edge(0, 3, TernaryWeight::Zero);
    net.add_node(7);
    let dist = net.degree_distribution();
    assert_eq!(dist.len(), 3);
    assert_eq!(dist.get(&3), Some(&1));
    assert_eq!(dist.get(&1), Some(&3));
    assert_eq!(dist.get(&0), Some(&1));
    assert_eq!(dist.values().sum::<usize>(), net.node_count());
}

#[test]
fn shortest_path_prefers_free_edges() {
    let mut net = TernaryNetwork::new(false);
    net.add_edge(0, 1, TernaryWeight::Positive);
    net.add_edge(0, 2, TernaryWeight::Zero);
    net.add_edge(2, 1, TernaryWeight::Zero);
    let (path, cost) = net.shortest_path(0, 1).unwrap();
    assert_eq!(path, vec![0, 2, 1]);
    assert_eq!(cost, 0);
}

#[test]
fn shortest_path_negative_edges_cost_one() {
    let mut net = TernaryNetwork::new(false);
    net.add_edge(0, 1, TernaryWeight::Negative);
    net.add_edge(1, 2, TernaryWeight::Negative);
    net.add_edge(2, 3, TernaryWeight::Zero);
    let (path, cost) = net.shortest_path(0, 3).unwrap();
    assert_eq!(path, vec![0, 1, 2, 3]);
    assert_eq!(cost, 2);
}

#[test]
fn shortest_path_respects_direction() {
    let mut net = TernaryNetwork::new(true);
    net.add_edge(0, 1, TernaryWeight::Positive);
    assert_eq!(net.shortest_path(0, 1), Some((vec![0, 1], 1)));
    assert_eq!(net.shortest_path(1, 0), None);
}

#[test]
fn shortest_path_with_absent_nodes() {
    let mut net = TernaryNetwork::new(false);
    net.add_edge(0, 1, TernaryWeight::Positive);
    assert_eq!(net.shortest_path(5, 1), None);
    assert_eq!(net.shortest_path(0, 5), None);
    assert_eq!(net.shortest_path(5, 5), Some((vec![5], 0)));
}

#[test]
fn shortest_path_is_a_simple_walk() {
    let mut net = TernaryNetwork::new(false);
    for i in 0..6 {
        net.add_edge(i, (i + 1) % 6, TernaryWeight::Positive);
        net.add_edge(i, (i + 3) % 6, TernaryWeight::Zero);
    }
    for a in net.nodes() {
        for b in net.nodes() {
            let (path, cost) = net.shortest_path(a, b).unwrap();
            assert_eq!(path[0], a);
            assert_eq!(*path.last().unwrap(), b);
            let mut sorted = path.clone();
            sorted.sort();
            sorted.dedup();
            assert_eq!(sorted.len(), path.len());
            let mut total = 0;
            for step in path.windows(2) {
                assert!(net.has_edge(step[0], step[1]));
                let free = net.neighbors(step[0]).contains(&(step[1], TernaryWeight::Zero));
                total += if free { 0 } else { 1 };
            }
            assert_eq!(total, cost);
            assert!(cost < net.node_count() as i32 || a == b);
        }
    }
}

#[test]
fn undirected_distances_are_symmetric() {
    let mut net = TernaryNetwork::new(false);
    net.add_edge(0, 1, TernaryWeight::Positive);
    net.add_edge(1, 2, TernaryWeight::Zero);
    net.add_edge(2, 3, TernaryWeight::Negative);
    net.add_edge(0, 3, TernaryWeight::Positive);
    net.add_node(9);
    for a in net.nodes() {
        for b in net.nodes() {
            let ab = net.shortest_path(a, b).map(|(_, c)| c);
            let ba = net.shortest_path(b, a).map(|(_, c)| c);
            assert_eq!(ab, ba);
        }
    }
}

#[test]
fn clustering_counts_of_small_graphs() {
    let mut triangle = TernaryNetwork::new(false);
    triangle.add_edge(0, 1, TernaryWeight::Positive);
    triangle.add_edge(1, 2, TernaryWeight::Positive);
    triangle.add_edge(0, 2, TernaryWeight::Positive);
    assert_eq!(triangle.clustering_counts(0), (1, 1));

    let mut wedge = TernaryNetwork::new(false);
    wedge.add_edge(0, 1, TernaryWeight::Positive);
    wedge.add_edge(0, 2, TernaryWeight::Positive);
    assert_eq!(wedge.clustering_counts(0), (0, 1));

    let mut single = TernaryNetwork::new(false);
    single.add_edge(0, 1, TernaryWeight::Positive);
    assert_eq!(single.clustering_counts(0), (0, 0));
    assert_eq!(single.clustering_counts(7), (0, 0));
}

#[test]
fn clustering_counts_of_a_complete_graph() {
    let mut net = TernaryNetwork::new(false);
    for a in 0..5 {
        for b in (a + 1)..5 {
            net.add_edge(a, b, TernaryWeight::Zero);
        }
    }
    assert_eq!(net.clustering_counts(0), (6, 6));
}

#[test]
fn closeness_totals_on_a_line() {
    let net = line(3);
    assert_eq!(net.closeness_totals(1), (2, 2));
    assert_eq!(net.closeness_totals(0), (3, 2));
    let mut split = line(2);
    split.add_node(5);
    assert_eq!(split.closeness_totals(0), (1, 1));
}

#[test]
fn pair_path_totals_on_a_line() {
    let net = line(3);
    assert_eq!(net.pair_path_totals(), (4, 3));
    let mut split = line(2);
    split.add_node(5);
    assert_eq!(split.pair_path_totals(), (1, 1));
}

#[test]
fn betweenness_count_on_a_line() {
    let net = line(4);
    assert_eq!(net.betweenness_count(1), 4);
    assert_eq!(net.betweenness_count(2), 4);
    assert_eq!(net.betweenness_count(0), 0);
    assert_eq!(net.betweenness_count(99), 0);
}

#[test]
fn most_common_label_picks_a_maximum() {
    assert_eq!(most_common_label(&vec![1, 2, 2, 3]), 2);
    assert_eq!(most_common_label(&vec![5]), 5);
    let tie = most_common_label(&vec![1, 2]);
    assert!(tie == 1 || tie == 2);
    assert_eq!(most_common_label(&vec![4, 4, 7, 7, 7, 4, 4]), 4);
}

#[test]
fn communities_label_every_node() {
    let mut net = TernaryNetwork::new(false);
    net.add_edge(0, 1, TernaryWeight::Positive);
    net.add_edge(1, 2, TernaryWeight::Positive);
    net.add_node(8);
    let comms = net.detect_communities();
    assert_eq!(comms.len(), net.node_count());
    for n in net.nodes() {
        assert!(comms[&n] < net.node_count());
    }
    // A node without neighbours keeps its own position as label.
    assert_eq!(comms[&8], 3);
}

#[test]
fn readme_undirected_counts() {
    let mut net = TernaryNetwork::new(false);
    net.add_edge(0, 1, TernaryWeight::Positive);
    net.add_edge(1, 2, TernaryWeight::Positive);
    net.add_edge(0, 2, TernaryWeight::Positive);
    net.add_edge(2, 3, TernaryWeight::Negative);
    assert_eq!(net.positive_degree(0), 2);
    assert_eq!(net.negative_degree(2), 1);
    assert_eq!(net.clustering_counts(0), (1, 1));
    let (path, cost) = net.shortest_path(0, 3).unwrap();
    assert!(path.contains(&2));
    assert_eq!(cost, 2);
    assert_eq!(path.first(), Some(&0));
    assert_eq!(path.last(), Some(&3));
    let communities = net.detect_communities();
    assert_eq!(communities.len(), net.node_count());
}

#[test]
fn communities_of_a_single_edge() {
    let mut net = TernaryNetwork::new(false);
    net.add_edge(0, 1, TernaryWeight::Positive);
    let comms = net.detect_communities();
    assert_eq!(comms.len(), 2);
    assert_eq!(comms[&0], 1);
    assert_eq!(comms[&1], 1);
}

#[test]
fn communities_of_a_path_are_stable() {
    let net = line(5);
    let comms = net.detect_communities();
    let nodes = net.nodes();
    for &u in &nodes {
        let labels: Vec<usize> = net.neighbors(u).iter().map(|(v, _)| comms[v]).collect();
        let count = |x: usize| labels.iter().filter(|&&l| l == x).count();
        for &l in &labels {
            assert!(count(comms[&u]) >= count(l));
        }
        // The label names a node reachable from `u`.
        assert!(net.shortest_path(u, nodes[comms[&u]]).is_some());
    }
}

#[test]
fn communities_label_reachable_nodes_in_a_directed_network() {
    let mut net = TernaryNetwork::new(true);
    net.add_edge(0, 1, TernaryWeight::Positive);
    net.add_edge(1, 2, TernaryWeight::Zero);
    net.add_edge(3, 2, TernaryWeight::Negative);
    let comms = net.detect_communities();
    let nodes = net.nodes();
    for &u in &nodes {
        assert!(net.shortest_path(u, nodes[comms[&u]]).is_some());
    }
    assert_eq!(comms[&2], 2);
}

#[test]
fn modularity_sums_of_two_pairs() {
    let mut net = TernaryNetwork::new(false);
    net.add_edge(0, 1, TernaryWeight::Positive);
    net.add_edge(2, 3, TernaryWeight::Positive);
    let mut comms = HashMap::new();
    comms.insert(0, 0);
    comms.insert(1, 0);
    comms.insert(2, 1);
    comms.insert(3, 1);
    // A_ij summed over same-community pairs: 4 entries; k_i*k_j: 8 pairs of 1.
    assert_eq!(net.modularity_sums(&comms), (4, 8));
    // Nodes missing from the assignment are in community 0.
    let empty = HashMap::new();
    assert_eq!(community_of(&empty, 7), 0);
    assert_eq!(community_of(&comms, 3), 1);
    assert_eq!(net.modularity_sums(&empty), (4, 16));
}

#[test]
fn betweenness_count_follows_the_returned_paths() {
    // A square 0-1-2-3-0: from 0 to 2 there are two cheapest walks, and the
    // count follows the one the search returns.
    let mut net = TernaryNetwork::new(false);
    net.add_edge(0, 1, TernaryWeight::Positive);
    net.add_edge(1, 2, TernaryWeight::Positive);
    net.add_edge(2, 3, TernaryWeight::Positive);
    net.add_edge(3, 0, TernaryWeight::Positive);
    let mut expected = 0;
    for s in net.nodes() {
        for t in net.nodes() {
            if s == t || s == 1 || t == 1 {
                continue;
            }
            if let Some((path, _)) = net.shortest_path(s, t) {
                if path.contains(&1) {
                    expected += 1;
                }
            }
        }
    }
    assert_eq!(net.betweenness_count(1), expected);
    assert_eq!(net.shortest_path(0, 2), Some((vec![0, 1, 2], 2)));
}
