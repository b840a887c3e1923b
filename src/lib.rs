//! Shortest connection paths between people in a bipartite graph of
//! people and the titles they are credited in.
pub mod graph;
pub mod laws;
pub mod tsv;
