//! A key-value cache that keeps its keys in order of last use.
//!
//! [`lru::LruCache`] finds a value by its key, and remembers which key was
//! used longest ago, so that a caller who wants to bound the cache knows what
//! to drop. The entries live in an arena, [`store::NodeStore`], and are
//! chained by handles instead of pointers; [`chain`] says what a properly
//! linked chain is, [`model`] what a cache holds seen from outside, and
//! [`laws`] what follows for every run of calls.

pub mod chain;
pub mod error;
pub mod laws;
pub mod lru;
pub mod model;
pub mod store;
