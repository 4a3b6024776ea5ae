//! Retrieval of text chunks under a context budget.
pub mod corpus;
pub mod fixed;
pub mod flow;
pub mod graph_bfs;
pub mod mincut;
pub mod sums;
pub mod topk;
