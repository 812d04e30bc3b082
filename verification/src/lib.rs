//! Data-parallel numeric kernels for a SIMT machine, run on a simulated grid.
//!
//! A kernel is written as the program of one thread. Thread identity is an
//! explicit value, the buffers are bounds-carrying views, and the block-wide
//! barrier is a signal that a thread hands to whoever drives it. The launch
//! functions drive every thread of a grid and state what the buffers hold
//! afterwards.

pub mod elementwise;
pub mod gemm;
pub mod geometry;
pub mod index;
pub mod linalg;
pub mod reduction;
pub mod scalar;
pub mod transpose;
