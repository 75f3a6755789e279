//! Centrality scores for the nodes of a graph that is given as a list of
//! edges between labelled nodes.
//!
//! A [`Graph`] is built from the edges, directed or undirected. A
//! breadth-first traversal from each node counts the shortest paths to
//! every other node, and the score of the node is the sum of the counts of
//! the nodes one step away. Nodes are ranked by score, the highest first.
//! Every function is verified against a model of walks in the graph.

pub mod error;
pub mod text;
pub mod graph;
pub mod paths;
pub mod traversal;
pub mod scoring;
pub mod ranking;
pub mod records;

pub use error::CentralityError;
pub use graph::{EdgeList, Graph};
pub use ranking::{rank_nodes, top_three};
pub use records::{edges_from_csv, edges_from_records};
pub use traversal::Traversal;
