//! A tiled fractal rendering engine: per-pixel iteration classification,
//! tile-grid partitioning with real-axis symmetry pairing, border-trace
//! flood filling, sparse adaptive anti-aliasing, pan-reuse buffer shifts,
//! and cooperative cancellation.
//!
//! The engine works on integer pixel data.  The numeric front end that
//! evaluates the fractal recurrence on the complex plane hands its results
//! to this crate as [`iteration::IterationResult`] values; everything that
//! happens to those values afterwards is specified and verified here.

pub mod aa;
pub mod buffer;
pub mod color;
pub mod error;
pub mod iteration;
pub mod iteration_buffer;
pub mod pipeline;
pub mod renderer;
pub mod settings;
pub mod tile;
