//! Beam searches that trade some nearness of the results for variety.
pub mod coprime;
pub mod graph;
pub mod search;
