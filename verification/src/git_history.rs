//! Bookkeeping around the per-project history of saved files: commit records, retention
//! and garbage-collection decisions, annotations, integrity reports and the commit graph.

pub mod types;
pub mod graph;
pub mod annotations;
pub mod manager;
