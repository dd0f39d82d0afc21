//! Parameters that steer the deferred colorization pass.
//!
//! The palette sampling itself works on binary64 values and lives with the
//! numeric front end; everything that decides *which* position a pixel
//! takes in the palette cycle — cycle length, fade thresholds, smooth
//! toggle — is integer data and is specified here.

use vstd::prelude::*;

verus! {

/// Fade the first few iterations from solid black or white into the
/// palette.
#[derive(Debug, Clone, Copy, PartialEq, Eq, Structural)]
pub enum StartFrom {
    NoFade,
    Black,
    White,
}

/// Parameters for mapping iterations to palette color.
#[derive(Debug, Clone, PartialEq, Eq, Structural)]
pub struct ColorParams {
    /// Use the continuous (renormalized) iteration count.
    pub smooth: bool,
    /// Effective cycle length in iterations; the palette repeats every
    /// this many.
    pub cycle_length: u32,
    pub start_from: StartFrom,
    pub low_threshold_start: u32,
    pub low_threshold_end: u32,
}

impl ColorParams {
    /// Default parameters: one cycle over the full range, no fade.
    pub fn from_smooth(smooth: bool) -> (p: ColorParams)
        ensures
            p == (ColorParams {
                smooth,
                cycle_length: u32::MAX,
                start_from: StartFrom::NoFade,
                low_threshold_start: 10,
                low_threshold_end: 30,
            }),
    {
        ColorParams {
            smooth,
            cycle_length: u32::MAX,
            start_from: StartFrom::NoFade,
            low_threshold_start: 10,
            low_threshold_end: 30,
        }
    }
}

/// How the palette repeats over the iteration range.
#[derive(Debug, Clone, Copy, PartialEq, Eq, Structural)]
pub enum PaletteMode {
    /// Palette repeats `n` times over the iteration range; the cycle
    /// length is `max_iterations / n`.
    ByCycles { n: u32 },
    /// Palette repeats every `len` iterations.
    ByCycleLength { len: u32 },
}

impl Default for PaletteMode {
    fn default() -> (d: PaletteMode)
        ensures
            d == (PaletteMode::ByCycles { n: 1 }),
    {
        PaletteMode::ByCycles { n: 1 }
    }
}

pub fn default_low_threshold_start() -> (r: u32)
    ensures
        r == 10,
{
    10
}

pub fn default_low_threshold_end() -> (r: u32)
    ensures
        r == 30,
{
    30
}

/// Display and color settings: palette choice, cycle mode, start-from
/// fade, and the smooth toggle.
#[derive(Debug, Clone, PartialEq, Eq, Structural)]
pub struct DisplayColorSettings {
    /// Index into the built-in palettes list.
    pub palette_index: usize,
    /// How the palette repeats over the iteration range.
    pub palette_mode: PaletteMode,
    /// Fade the first few iterations from black or white.
    pub start_from: StartFrom,
    /// Below this iteration count the pixel is solid black or white (when
    /// the fade is on).
    pub low_threshold_start: u32,
    /// Between the two thresholds the color blends into the palette.
    pub low_threshold_end: u32,
    /// Use the continuous iteration count for coloring; when false, the
    /// raw integer count is used.
    pub smooth_coloring: bool,
}

impl Default for DisplayColorSettings {
    fn default() -> (d: DisplayColorSettings)
        ensures
            d == (DisplayColorSettings {
                palette_index: 0,
                palette_mode: PaletteMode::ByCycles { n: 1 },
                start_from: StartFrom::NoFade,
                low_threshold_start: 10,
                low_threshold_end: 30,
                smooth_coloring: true,
            }),
    {
        DisplayColorSettings {
            palette_index: 0,
            palette_mode: PaletteMode::ByCycles { n: 1 },
            start_from: StartFrom::NoFade,
            low_threshold_start: 10,
            low_threshold_end: 30,
            smooth_coloring: true,
        }
    }
}

impl DisplayColorSettings {
    /// Effective cycle length in iterations: for `ByCycles` it divides the
    /// iteration range into `n` palette repetitions (all of it when `n`
    /// is zero), for `ByCycleLength` it is the configured length itself.
    pub fn cycle_length(&self, max_iterations: u32) -> (len: u32)
        ensures
            len == match self.palette_mode {
                PaletteMode::ByCycles { n } => if n == 0 {
                    max_iterations as int
                } else {
                    max_iterations as int / n as int
                },
                PaletteMode::ByCycleLength { len: l } => l as int,
            },
    {
        match self.palette_mode {
            PaletteMode::ByCycles { n } => {
                if n == 0 {
                    max_iterations
                } else {
                    max_iterations / n
                }
            },
            PaletteMode::ByCycleLength { len } => len,
        }
    }
}

/// How a pixel's color is produced when the start-from fade is
/// considered.
#[derive(Debug, Clone, Copy, PartialEq, Eq, Structural)]
pub enum FadeKind {
    /// Sample the palette only.
    PaletteOnly,
    /// Use the solid fade color (black or white).
    Solid,
    /// Blend the fade color into the palette sample.
    Blend,
}

/// The fade decision of the colorizer for an escaped pixel: below the
/// lower threshold the pixel is solid, between the thresholds it blends
/// toward the palette, and outside the window (or with the fade off, or a
/// degenerate window) the palette alone decides.
pub fn fade_decision(params: &ColorParams, iterations: u32) -> (r: FadeKind)
    ensures
        params.start_from is NoFade ==> r == FadeKind::PaletteOnly,
        !(params.start_from is NoFade) ==> r == if params.low_threshold_end
            <= params.low_threshold_start || iterations >= params.low_threshold_end {
            FadeKind::PaletteOnly
        } else if iterations <= params.low_threshold_start {
            FadeKind::Solid
        } else {
            FadeKind::Blend
        },
{
    if matches!(params.start_from, StartFrom::NoFade) {
        return FadeKind::PaletteOnly;
    }
    if params.low_threshold_end <= params.low_threshold_start
        || iterations >= params.low_threshold_end {
        return FadeKind::PaletteOnly;
    }
    if iterations <= params.low_threshold_start {
        return FadeKind::Solid;
    }
    FadeKind::Blend
}

} // verus!
