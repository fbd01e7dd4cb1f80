//! A verified audio library: decoding support, a fixed-point effects
//! pipeline, and analysis over per-channel sample buffers.
//!
//! Sample values are fixed-point numbers with 20 fractional bits (see
//! [`fixed`]); a normalized sample lies in `[-FP_ONE, FP_ONE]`, which
//! stands for the real range `[-1.0, 1.0]`.
//!
//! The [`loader`] turns raw decoder output into well-formed buffers and
//! interleaves buffers for serialization, the [`processor`] applies the
//! ordered effects chain, and [`analysis`] derives a read-only summary.

pub mod analysis;
pub mod fixed;
pub mod fxmath;
pub mod loader;
pub mod processor;
pub mod types;
