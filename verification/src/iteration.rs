//! Per-pixel iteration outcomes and their integer classification.

use vstd::prelude::*;

verus! {

/// The outcome of iterating a single point of the complex plane.
///
/// The squared norm of the orbit at the moment of escape is carried as the
/// raw bit pattern of the binary64 value the numeric front end observed.
/// Nothing in this crate interprets those bits: the classifier, the tile
/// logic and the buffers read only the escape count, and the colorizer
/// decodes the bits again outside this crate.
#[derive(Debug, Clone, Copy, PartialEq, Eq, Structural)]
pub enum IterationResult {
    /// The orbit escaped after `iterations` steps; `norm_sq_bits` holds the
    /// bit pattern of the squared norm at escape.
    Escaped { iterations: u32, norm_sq_bits: u64 },
    /// The point did not provably escape within the iteration budget.
    Interior,
}

impl IterationResult {
    /// Integer class of a result: the escape count, or `u64::MAX` for an
    /// interior point.  Two pixels match when they share the same class.
    pub open spec fn spec_class(self) -> u64 {
        match self {
            IterationResult::Escaped { iterations, .. } => iterations as u64,
            IterationResult::Interior => u64::MAX,
        }
    }

    /// Integer classification for comparing neighbouring pixels, used by
    /// border tracing and anti-aliasing boundary detection.
    pub fn class(&self) -> (r: u64)
        ensures
            r == self.spec_class(),
    {
        match self {
            IterationResult::Escaped { iterations, .. } => *iterations as u64,
            IterationResult::Interior => u64::MAX,
        }
    }
}

} // verus!
