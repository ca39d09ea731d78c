//! Per-program-point contexts for constraint generation.
pub mod points_to;
