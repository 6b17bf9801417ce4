//! Probabilistic membership and keyspace-partitioning structures with
//! machine-checked contracts.

pub mod bloom_filter;
pub mod count_min_sketch;
pub mod hash_ring;
pub mod hashing;
pub mod quotient_filter;
