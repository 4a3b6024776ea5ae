//! Graph index for large vector sets: a pruned proximity graph, its storage and its files.
pub mod codec;
pub mod error;
pub mod ids;
pub mod index;
pub mod settings;
pub mod vamana;
pub mod vectors;
