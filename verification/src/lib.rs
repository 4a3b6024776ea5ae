//! Verified vector search and the logs around it.
//!
//! The library holds the search strategies, their data structures and their file formats.
//! Single-precision numbers appear as their bit patterns: comparing, counting and converting
//! them is done here, on the patterns, while distances and other arithmetic on them come in
//! through [`metric::Metric`]. Random numbers, digests and JSON come from outside crates.
//!
//! - [`adaptive`]: beam search whose width follows a recall target.
//! - [`diskann`]: a pruned proximity graph, its index, and how it is stored.
//! - [`diverse`]: greedy, re-ranked and coherence-gated beam search.
//! - [`rag`]: retrieval within a budget, by rank, by expansion and by minimum cut.
//! - [`recall_bounded`]: search above a similarity threshold.
//! - [`speculative`]: a cheap draft, an exact check, and a controller between them.
//! - [`witness`]: a chained log, its sealed segments and proofs of inclusion.
//! - [`maxsim`], [`router`]: late interaction, and the choice of a metric.
//! - [`beam`], [`knn`], [`ranking`], [`ring`], [`visited`], [`wire`], [`float_order`],
//!   [`single`], [`lcg`], [`rng`]: what the others share.

pub mod adaptive;
pub mod beam;
pub mod diskann;
pub mod diverse;
pub mod float_order;
pub mod knn;
pub mod lcg;
pub mod maxsim;
pub mod metric;
pub mod rag;
pub mod ranking;
pub mod recall_bounded;
pub mod ring;
pub mod rng;
pub mod router;
pub mod single;
pub mod speculative;
pub mod visited;
pub mod wire;
pub mod witness;
