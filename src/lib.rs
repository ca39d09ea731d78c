//! Type inference over derived type variables: the constraint algebra,
//! constraint generation from program definitions, the stack-offset
//! normalisation of memory accesses, the pushdown-graph solver (saturation,
//! pop-then-push restriction, constraint walk), sketch building, and the
//! lowering of sketch graphs to C-like types with field scheduling.
use vstd::prelude::*;

pub mod constraints;
pub mod constraint_generation;
pub mod ctypes;
pub mod interesting;
pub mod lowering;
pub mod node_context;
pub mod sketch;
pub mod solver;
pub mod util;

verus! {

} // verus!
