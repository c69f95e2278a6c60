//! Directed-graph centrality measures: degree, closeness and betweenness
//! (Brandes' algorithm), over a graph stored as dual adjacency lists.
pub mod brandes;
pub mod closeness;
pub mod degree;
pub mod graph;
pub mod laws;
pub mod seq_util;
pub mod traversal;

pub use graph::Graph;
pub use graph::GraphError;
pub use seq_util::occ;
pub use seq_util::sorted;
pub use traversal::bfs;
