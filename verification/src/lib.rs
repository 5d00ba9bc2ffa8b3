//! An append-only, content-addressed operation log with verified
//! head resolution.
//!
//! Repository metadata is versioned as a log of immutable operations,
//! each produced from zero or more parent operations. Concurrent
//! processes may append divergent operations; the head-resolution
//! routine deterministically collapses such divergence into a single
//! current operation without losing any contributed change.

pub mod codec;
pub mod dag_walk;
pub mod digest;
pub mod memory_store;
pub mod op_heads_store;
pub mod op_store;
