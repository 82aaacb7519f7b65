//! Tiled fused matrix-multiplication execution engine: scratch-space planning,
//! per-tile finalisation of the kernel program, kernel selection, and the
//! small helpers around it.
pub mod activations;
pub mod align;
pub mod cost_model;
pub mod flatten;
pub mod fused;
pub mod scratch;
pub mod suite;
