//! Small display-side configuration values with fixed integer meanings.

use vstd::prelude::*;

verus! {

/// Which fractal family a render request asks for.
#[derive(Debug, Clone, Copy, PartialEq, Eq, Structural)]
pub enum FractalMode {
    Mandelbrot,
    Julia,
}

impl FractalMode {
    /// Display name of the mode.
    pub fn label(self) -> (s: &'static str)
        ensures
            self is Mandelbrot ==> s@ == "Mandelbrot"@,
            self is Julia ==> s@ == "Julia"@,
    {
        match self {
            FractalMode::Mandelbrot => "Mandelbrot",
            FractalMode::Julia => "Julia",
        }
    }

    /// Only the Mandelbrot set is symmetric about the real axis, so only
    /// it may reuse mirrored tiles.
    pub fn uses_real_axis_symmetry(self) -> (r: bool)
        ensures
            r == (self is Mandelbrot),
    {
        match self {
            FractalMode::Mandelbrot => true,
            FractalMode::Julia => false,
        }
    }
}

/// Phase of the progressive render pipeline, as shown to the user.
#[derive(Debug, Clone, Copy, PartialEq, Eq, Structural)]
pub enum RenderPhase {
    Idle,
    Rendering,
    Refining,
    Done,
}

impl RenderPhase {
    /// Display name of the phase.
    pub fn label(self) -> (s: &'static str)
        ensures
            self is Idle ==> s@ == "Idle"@,
            self is Done ==> s@ == "Done"@,
    {
        match self {
            RenderPhase::Idle => "Idle",
            RenderPhase::Rendering => "Rendering\u{2026}",
            RenderPhase::Refining => "Refining\u{2026}",
            RenderPhase::Done => "Done",
        }
    }
}

/// Minimap widget size (side length in pixels).
#[derive(Debug, Clone, Copy, PartialEq, Eq, Structural)]
pub enum MinimapSize {
    Small,
    Medium,
    Large,
}

impl Default for MinimapSize {
    fn default() -> (d: MinimapSize)
        ensures
            d == MinimapSize::Small,
    {
        MinimapSize::Small
    }
}

impl MinimapSize {
    /// Side length of the minimap, in pixels.
    pub fn side_pixels(self) -> (r: u32)
        ensures
            r == match self {
                MinimapSize::Small => 128int,
                MinimapSize::Medium => 256int,
                MinimapSize::Large => 384int,
            },
    {
        match self {
            MinimapSize::Small => 128,
            MinimapSize::Medium => 256,
            MinimapSize::Large => 384,
        }
    }
}

/// Display label for an anti-aliasing level; levels other than the two
/// supported ones read as off.
pub fn aa_label(level: u32) -> (s: &'static str)
    ensures
        level == 2 ==> s@ == "2x2"@,
        level == 4 ==> s@ == "4x4"@,
        level != 2 && level != 4 ==> s@ == "Off"@,
{
    match level {
        2 => "2x2",
        4 => "4x4",
        _ => "Off",
    }
}

pub fn default_max_iterations() -> (r: u32)
    ensures
        r == 256,
{
    256
}

pub fn default_true() -> (r: bool)
    ensures
        r,
{
    true
}

pub fn default_minimap_iterations() -> (r: u32)
    ensures
        r == 500,
{
    500
}

pub fn default_julia_explorer_max_iterations() -> (r: u32)
    ensures
        r == 200,
{
    200
}

pub fn default_julia_explorer_cell_size_px() -> (r: u32)
    ensures
        r == 64,
{
    64
}

pub fn default_julia_preview_iterations() -> (r: u32)
    ensures
        r == 250,
{
    250
}

} // verus!
