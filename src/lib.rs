//! Hybrid similarity search: a predicate-aware proximity graph (HNSW with ACORN
//! filtering), a bitmask algebra over per-vector attribute tags, and a router that
//! picks between the full index and precomputed partitions.

pub mod acorn;
pub mod architecture;
pub mod bitmask;
pub mod dataset;
pub mod distance;
pub mod fvecs;
pub mod levels;
pub mod loader;
pub mod predicate;
pub mod recall;
pub mod router;
