//! Core of a sparse-vector search engine: bit-packed compressed posting
//! lists with streaming iterators, the builders that assemble them into an
//! inverted index, and a top-k candidate collector with a median-pivot
//! prune strategy.
//!
//! Scores and weights are handled through order-preserving integer keys of
//! their bit patterns, so that every comparison and every data-structure
//! invariant is stated and proved over plain integers.

pub mod types;
pub mod weight;
pub mod posting_list_common;
pub mod compressed_posting_list;
pub mod inverted_index;
pub mod top_k;
