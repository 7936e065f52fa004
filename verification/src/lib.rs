//! An in-memory routing graph of physical locations joined by weighted,
//! undirected road segments, answering shortest-distance queries with a
//! best-first search: uniform-cost (Dijkstra) or guided by the Manhattan
//! heuristic (A*).

pub mod graph;
pub mod paths;
pub mod search;
pub mod laws;

