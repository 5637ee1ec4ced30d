//! Constrained partitioning: a verified optimization engine for the
//! must-link / cannot-link clustering problem.
//!
//! Points live in a fixed-dimension space with nonnegative fixed-point
//! coordinates (`UNIT` is one whole unit). All geometry is exact integer
//! arithmetic: squared Euclidean distances, floor square roots and floor
//! divisions, so every quantity the engine computes is fully specified.

use vstd::prelude::*;

pub mod cluster;
pub mod genetic;
pub mod geometry;
pub mod greedy;
pub mod local_search;
pub mod math;
pub mod partition;
pub mod problem;
pub mod rng;

pub use cluster::Cluster;
pub use partition::Partition;
pub use problem::Problem;

verus! {

/// One whole unit in the fixed-point coordinate encoding.
pub const UNIT: u64 = 1_000_000;

/// Largest coordinate value a problem instance may carry.
pub const COORD_LIMIT: u64 = 0xFF_FFFF_FFFF;

/// Largest number of points a problem instance may carry.
pub const SIZE_LIMIT: usize = 0x4000_0000;

/// Largest point dimension a problem instance may carry.
pub const DIM_LIMIT: usize = 0x1_0000;

} // verus!
