//! Search for everything at least as similar to a query as a threshold.
pub mod graph;
pub mod millionths;
pub mod scan;
pub mod search;
