//! A dynamically typed, path-addressable value tree.
//!
//! A [`Value`](value::Value) is a tagged union of scalar kinds, an
//! ordered-by-key map, and an index-ordered array. The engine reads, writes,
//! tests and deletes sub-values addressed by structured lookup paths
//! ([`Segment`](path::Segment) sequences), with coalesce resolution, negative
//! array indexing, container coercion on write, and cascading pruning of
//! emptied containers on delete.

pub mod eq;
pub mod errors;
pub mod get;
pub mod insert;
pub mod laws;
pub mod model;
pub mod order;
pub mod path;
pub mod remove;
pub mod value;
