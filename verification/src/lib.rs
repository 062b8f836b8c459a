//! Core pieces of a small 2-D particle-simulation toolkit: a deterministic
//! 128-bit random-number generator, color formatting for rendering callers,
//! spatial binning of particles over a periodic square domain, and the
//! half-stencil sweep that enumerates every nearby unordered particle pair
//! exactly once for short-range force evaluation.

pub mod color;
pub mod grid;
pub mod pairs;
pub mod rng;
