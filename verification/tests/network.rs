use ternary_network::{TernaryNetwork, TernaryWeight};

#[test]
fn test_ternary_weight_values() {
    assert_eq!(TernaryWeight::Negative.value(), -1);
    assert_eq!(TernaryWeight::Zero.value(), 0);
    assert_eq!(TernaryWeight::Positive.value(), 1);
}

#[test]
fn test_ternary_weight_from_i8() {
    assert_eq!(TernaryWeight::from_i8(-1), Some(TernaryWeight::Negative));
    assert_eq!(TernaryWeight::from_i8(0), Some(TernaryWeight::Zero));
    assert_eq!(TernaryWeight::from_i8(1), Some(TernaryWeight::Positive));
    assert_eq!(TernaryWeight::from_i8(2), None);
}

#[test]
fn test_empty_network() {
    let net = TernaryNetwork::new(false);
    assert_eq!(net.node_count(), 0);
    assert_eq!(net.edge_count(), 0);
}

#[test]
fn test_add_nodes_and_edges() {
    let mut net = TernaryNetwork::new(false);
    net.add_edge(0, 1, TernaryWeight::Positive);
    net.add_edge(1, 2, TernaryWeight::Negative);
    assert_eq!(net.node_count(), 3);
    assert_eq!(net.edge_count(), 2);
}

#[test]
fn test_directed_edge_count() {
    let mut net = TernaryNetwork::new(true);
    net.add_edge(0, 1, TernaryWeight::Positive);
    net.add_edge(1, 0, TernaryWeight::Negative);
    assert_eq!(net.edge_count(), 2);
}

#[test]
fn test_degree_distribution() {
    let mut net = TernaryNetwork::new(false);
    net.add_edge(0, 1, TernaryWeight::Positive);
    net.add_edge(0, 2, TernaryWeight::Positive);
    net.add_edge(0, 3, TernaryWeight::Zero);
    let dist = net.degree_distribution();
    assert_eq!(dist.get(&3), Some(&1)); // node 0 has degree 3
}

#[test]
fn test_positive_negative_degree() {
    let mut net = TernaryNetwork::new(false);
    net.add_edge(0, 1, TernaryWeight::Positive);
    net.add_edge(0, 2, TernaryWeight::Negative);
    net.add_edge(0, 3, TernaryWeight::Positive);
    assert_eq!(net.positive_degree(0), 2);
    assert_eq!(net.negative_degree(0), 1);
}

#[test]
fn test_shortest_path_direct() {
    let mut net = TernaryNetwork::new(false);
    net.add_edge(0, 1, TernaryWeight::Positive);
    let result = net.shortest_path(0, 1);
    assert!(result.is_some());
    let (path, cost) = result.unwrap();
    assert_eq!(path, vec![0, 1]);
    assert_eq!(cost, 1);
}

#[test]
fn test_shortest_path_multi_hop() {
    let mut net = TernaryNetwork::new(false);
    net.add_edge(0, 1, TernaryWeight::Positive);
    net.add_edge(1, 2, TernaryWeight::Positive);
    let result = net.shortest_path(0, 2);
    assert!(result.is_some());
    let (_, cost) = result.unwrap();
    assert_eq!(cost, 2);
}

#[test]
fn test_shortest_path_zero_weight() {
    let mut net = TernaryNetwork::new(false);
    net.add_edge(0, 1, TernaryWeight::Zero);
    let (_, cost) = net.shortest_path(0, 1).unwrap();
    assert_eq!(cost, 0);
}

#[test]
fn test_shortest_path_unreachable() {
    let mut net = TernaryNetwork::new(false);
    net.add_edge(0, 1, TernaryWeight::Positive);
    net.add_node(2);
    assert!(net.shortest_path(0, 2).is_none());
}

#[test]
fn test_shortest_path_same_node() {
    let mut net = TernaryNetwork::new(false);
    net.add_node(0);
    let (path, cost) = net.shortest_path(0, 0).unwrap();
    assert_eq!(path, vec![0]);
    assert_eq!(cost, 0);
}

#[test]
fn test_detect_communities() {
    let mut net = TernaryNetwork::new(false);
    // Two clusters
    net.add_edge(0, 1, TernaryWeight::Positive);
    net.add_edge(1, 2, TernaryWeight::Positive);
    net.add_edge(0, 2, TernaryWeight::Positive);
    net.add_edge(3, 4, TernaryWeight::Positive);
    net.add_edge(4, 5, TernaryWeight::Positive);
    net.add_edge(3, 5, TernaryWeight::Positive);
    // Single bridge
    net.add_edge(2, 3, TernaryWeight::Positive);
    let comms = net.detect_communities();
    // Should have some community assignment
    assert!(comms.len() >= 3);
}

#[test]
fn readme_quick_start_directed() {
    // Directed network
    let mut directed = TernaryNetwork::new(true);
    directed.add_edge(0, 1, TernaryWeight::Positive);
    directed.add_edge(1, 0, TernaryWeight::Negative); // asymmetric

    // Asymmetric adjacency must be preserved in directed mode:
    // 0 -> 1 is Positive, 1 -> 0 is Negative, so the two directions differ.
    assert_eq!(directed.positive_degree(0), 1);
    assert_eq!(directed.negative_degree(0), 0);
    assert_eq!(directed.positive_degree(1), 0);
    assert_eq!(directed.negative_degree(1), 1);
    assert_eq!(directed.edge_count(), 2);
}
