//! Optimisation core of a quantum circuit compiler: a port graph of
//! operations, convex subcircuits and rewrites, pattern matching, a
//! commutation-based depth scheduler and a cost-guided rewrite search.
use vstd::prelude::*;

pub mod circuit;
pub mod commutation;
pub mod matcher;
pub mod ops;
pub mod optimiser;
pub mod redundancy;
pub mod rewrite;

verus! {

} // verus!
