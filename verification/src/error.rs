//! Typed errors for the rendering engine's validated constructors.

use vstd::prelude::*;

verus! {

/// Errors originating from the rendering pipeline.
#[derive(Debug, Clone, Copy, PartialEq, Eq, Structural)]
pub enum RenderError {
    /// A tile size of zero cannot partition a frame.
    InvalidTileSize(u32),
    /// A frame must have at least one pixel in each direction.
    InvalidDimensions { width: u32, height: u32 },
    /// The render was cancelled before it completed.
    Cancelled,
}

} // verus!
