//! Network science for ternary-weighted graphs: every edge carries one of
//! the weights -1, 0 or +1.
//!
//! - `weight`: the three weights, their values and traversal costs.
//! - `network`: the network itself, construction and degree queries.
//! - `paths`: walks, their costs, and the 0-1 BFS shortest-path search.
//! - `communities`: label propagation.
//! - `metrics`: the exact counts behind clustering, closeness, betweenness
//!   and small-world detection.
//! - `laws`: properties of every well-formed network.

pub mod weight;
pub mod network;
pub mod paths;
pub mod communities;
pub mod metrics;
pub mod laws;

pub use weight::TernaryWeight;
pub use network::TernaryNetwork;
