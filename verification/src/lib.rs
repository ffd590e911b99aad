//! Integer kernels of the NAS Parallel Benchmarks EP and IS programs.
pub mod classes;
pub mod keys;
pub mod lcg;
