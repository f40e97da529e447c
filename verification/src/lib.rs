//! A brute-force superoptimizer for a tiny fixed instruction-set virtual
//! machine.
//!
//! The machine owns a fixed-length vector of integer memory cells, all zero at
//! the start of an execution. A search explores, per program length, every
//! instruction sequence that a configuration allows, and returns the first one
//! whose execution drives the cells to a caller-given target state.

pub mod cpu;
pub mod iters;
pub mod operations;
pub mod parser;
pub mod superoptimizer;
