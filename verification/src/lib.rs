//! Structural statistics of an undirected graph given as an edge list:
//! sixth-degree reachability, shortest-path distances and neighbourhood
//! similarity, all computed in exact integer arithmetic.

pub mod distance;
pub mod edges;
pub mod graph;
pub mod layers;
pub mod separation;
pub mod similarity;
pub mod sums;
