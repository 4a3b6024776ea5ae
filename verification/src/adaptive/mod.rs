//! Beam search whose width is chosen for a recall target.
pub mod calibrate;
pub mod graph;
pub mod metrics;
pub mod search;
