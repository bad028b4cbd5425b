//! Color quantization by k-means clustering.
//!
//! The clustering engine partitions a sequence of color points into `k`
//! groups, iteratively refines the group centers, and returns the final
//! centers together with a per-point assignment.  Seeding is done by a
//! deterministic pseudo-random generator, so a fixed seed gives a
//! bit-for-bit reproducible result.

pub mod codes;
pub mod colors;
pub mod kmeans;
pub mod rng;
