//! Coreness analysis of network-contact graphs.
//!
//! The crate ingests a stream of `(source key, destination key, label)`
//! triples, interns the string keys into dense vertex ids while merging
//! labels under a priority rule, and computes every vertex's coreness
//! (its k-core number) with the linear-time bucket-queue peeling
//! algorithm.

pub mod counting;
pub mod graph;
pub mod peel;
pub mod text;
