//! An in-memory, schema-validated document store with a boolean query
//! language, deterministic sort/pagination, and terms aggregations.
//!
//! The store keeps one snapshot (mapping plus ordered document list) per
//! index name and replaces the whole snapshot on every mutation, so a
//! reader always sees a complete state.

pub mod engine;
pub mod keyword;
pub mod mapping;
pub mod query;
pub mod responses;
pub mod store;
pub mod value;
