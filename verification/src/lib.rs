//! Shortest-path queries over an unweighted, undirected graph.
//!
//! The graph is an adjacency-list mapping from vertex identifiers to the
//! ordered sequence of their neighbors. `graph` holds the model and the
//! symmetric edge loader, `parse` turns text lines into load directives,
//! and `bfs` answers shortest-path queries by breadth-first search.

pub mod bfs;
pub mod graph;
pub mod parse;
