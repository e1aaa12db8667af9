//! An in-memory incremental computation engine.
//!
//! The engine memoizes the results of keyed computations, tracks the
//! dependencies each computation actually reads, and after a change
//! recomputes only what a dependency re-check cannot revalidate.
//! Updates are staged in a transaction and published atomically as a new
//! version; invalidation is lazy and early cutoff keeps a dirtied node
//! from recomputing when its inputs turn out unchanged.
//!
//! The behaviour of every operation is pinned to a mathematical
//! transition model (see `model`); the laws the engine obeys are stated
//! and proved in `laws`. A breadth-first path search over an arbitrary
//! successor relation lives in `bfs`.

pub mod base;
pub mod bfs;
pub mod engine;
pub mod laws;
pub mod model;
pub mod text;
