//! A packet-provenance store: content hashes, a write-once object store,
//! an index over immutable packet records, a small query language over that
//! index, and the set differences that a synchronising peer asks for.

pub mod bytes;
pub mod engine;
pub mod git;
pub mod graph;
pub mod hash;
pub mod index;
pub mod parser;
pub mod query;
pub mod reconcile;
pub mod store;
