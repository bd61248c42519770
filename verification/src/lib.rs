//! Graph data structures and algorithms, with their contracts proved.
//!
//! - `graph`: what a node, a weight and a graph are, as traits, with the
//!   mathematical model of a graph that the contracts speak of;
//! - `adjacency_matrix`: a graph held as a table from each node to its edges;
//! - `traversal`: depth-first and breadth-first walks as resumable event
//!   streams, the classification of edges and the biconnected components,
//!   each with the function that says what one pull does;
//! - `reach`, `dfs_theory`, `bfs_theory`, `edges_theory`,
//!   `components_theory`, `bridge_theory`: what holds of whole walks,
//!   proved from those functions;
//! - `heuristics`: two greedy heuristics for the travelling salesman;
//! - `genetic`, `local_search`: parts of a genetic algorithm and the
//!   interface of the local searches.
pub mod adjacency_matrix;
pub mod bfs_theory;
pub mod bridge_theory;
pub mod components_theory;
pub mod dfs_theory;
pub mod edges_theory;
pub mod genetic;
pub mod graph;
pub mod heuristics;
pub mod local_search;
pub mod reach;
pub mod traversal;

pub use adjacency_matrix::AdjacencyMatrix;
pub use genetic::{legitimate, mutate, swap_adjacent};
pub use graph::{Graph, Node, UndirectedGraph, Weight, WeightedGraph};
pub use heuristics::{nearest_insertion, nearest_neighbour, MAX};
pub use local_search::LocalSearch;
pub use traversal::{
    biconnected_components, breadth_first, classified_edges, depth_first, BfsEvent, BfsIter,
    BiconnectedComponentsIter, DfsEdgesIter, DfsEvent, DfsIter, Edge,
};
