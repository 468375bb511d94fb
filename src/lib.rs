//! Bounded top-`ef` candidate selection for approximate nearest-neighbour
//! graph search, its lane-parallel accelerator layout, and the switches that
//! choose between the two paths.

pub mod candidate;
pub mod gpu_heap;
pub mod heap;
pub mod indexing_mode;
