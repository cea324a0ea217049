//! Verified integer core of the NAS Parallel Benchmarks kernels: the
//! linear congruential generator of the benchmarks, its parallel splitter,
//! the integer-sort kernel and the integer parts of the other kernels.

pub mod cg_kernel;
pub mod class;
pub mod counting;
pub mod ep_kernel;
pub mod is_kernel;
pub mod parallel;
pub mod randdp;
pub mod sparse;
