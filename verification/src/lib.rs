//! Core of a small function-plotting tool: a bounds-clipping sampler that
//! turns per-candidate range verdicts into an ordered, filtered point
//! sequence, and a legend-label synthesizer that substitutes parameter
//! values into a function's textual form.

pub mod label;
pub mod sampler;
