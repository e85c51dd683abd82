//! An in-memory product catalogue with two query operations: free-text
//! search over a token-normalized inverted index, and item-to-item
//! recommendation over a weighted, symmetric relationship graph.

pub mod catalogue;
pub mod graph;
pub mod indexer;
pub mod models;
pub mod normalizer;
pub mod ranking;
pub mod search;
