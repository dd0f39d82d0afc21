//! End-to-end engine tests: a plain-Rust Mandelbrot evaluator drives the
//! library's verified grid, border-trace, assembly, anti-aliasing and
//! shift logic the same way a renderer front end would.

use mandelbrust::aa::{compute_aa, detect_boundaries};
use mandelbrust::iteration::IterationResult;
use mandelbrust::iteration_buffer::IterationBuffer;
use mandelbrust::renderer::{
    assemble_normal, assemble_symmetric, check_border_uniform, count_mirrors, count_rendered,
    uniform_tile_data, RenderCancel,
};
use mandelbrust::tile::{build_tile_grid, classify_tiles_for_symmetry, Tile, TileKind};

// ---------------------------------------------------------------------------
// Plain-Rust numeric front end (the part the library leaves to its caller)
// ---------------------------------------------------------------------------

#[derive(Clone, Copy)]
struct View {
    center_re: f64,
    center_im: f64,
    scale: f64,
    width: u32,
    height: u32,
}

impl View {
    fn default_mandelbrot(width: u32, height: u32) -> View {
        let target_re = 3.6;
        let target_im = 2.6;
        let scale = (target_re / width as f64).max(target_im / height as f64);
        View { center_re: -0.75, center_im: 0.0, scale, width, height }
    }

    fn subpixel_to_complex(&self, px: f64, py: f64) -> (f64, f64) {
        let half_w = self.width as f64 / 2.0;
        let half_h = self.height as f64 / 2.0;
        (
            self.center_re + (px - half_w) * self.scale,
            self.center_im - (py - half_h) * self.scale,
        )
    }

    fn pixel_to_complex(&self, px: u32, py: u32) -> (f64, f64) {
        self.subpixel_to_complex(px as f64, py as f64)
    }
}

fn in_cardioid(re: f64, im: f64) -> bool {
    let im2 = im * im;
    let q = (re - 0.25) * (re - 0.25) + im2;
    q * (q + (re - 0.25)) <= 0.25 * im2
}

fn in_period2_bulb(re: f64, im: f64) -> bool {
    (re + 1.0) * (re + 1.0) + im * im <= 0.0625
}

fn mandelbrot_iterate(c_re: f64, c_im: f64, max_iter: u32, escape_radius_sq: f64) -> IterationResult {
    if in_cardioid(c_re, c_im) || in_period2_bulb(c_re, c_im) {
        return IterationResult::Interior;
    }
    let mut z_re = 0.0f64;
    let mut z_im = 0.0f64;
    let mut old_re = z_re;
    let mut old_im = z_im;
    let mut period: u32 = 0;
    let mut check: u32 = 3;
    for n in 0..max_iter {
        let nre = z_re * z_re - z_im * z_im + c_re;
        let nim = 2.0 * z_re * z_im + c_im;
        z_re = nre;
        z_im = nim;
        let norm_sq = z_re * z_re + z_im * z_im;
        if norm_sq > escape_radius_sq {
            return IterationResult::Escaped { iterations: n, norm_sq_bits: norm_sq.to_bits() };
        }
        if n >= 32 && n & 3 == 0 {
            if (z_re - old_re).abs() < 1e-13 && (z_im - old_im).abs() < 1e-13 {
                return IterationResult::Interior;
            }
            period += 1;
            if period > check {
                old_re = z_re;
                old_im = z_im;
                period = 0;
                check = check.saturating_mul(2);
            }
        }
    }
    IterationResult::Interior
}

fn iterate_pixel(view: &View, max_iter: u32, px: u32, py: u32) -> IterationResult {
    let (re, im) = view.pixel_to_complex(px, py);
    mandelbrot_iterate(re, im, max_iter, 4.0)
}

/// The border pixels of a tile, the top-left corner first.
fn tile_border(view: &View, max_iter: u32, tile: &Tile) -> Vec<IterationResult> {
    let mut border = Vec::new();
    for px in 0..tile.width {
        border.push(iterate_pixel(view, max_iter, tile.x + px, tile.y));
    }
    for px in 0..tile.width {
        border.push(iterate_pixel(view, max_iter, tile.x + px, tile.y + tile.height - 1));
    }
    for py in 1..tile.height.saturating_sub(1) {
        border.push(iterate_pixel(view, max_iter, tile.x, tile.y + py));
        border.push(iterate_pixel(view, max_iter, tile.x + tile.width - 1, tile.y + py));
    }
    border
}

fn render_tile(
    view: &View,
    max_iter: u32,
    tile: &Tile,
    force_full: bool,
    border_traced: &mut usize,
) -> Vec<IterationResult> {
    if !force_full {
        let border = tile_border(view, max_iter, tile);
        if let Some(fill) = check_border_uniform(tile, &border) {
            *border_traced += 1;
            return uniform_tile_data(fill, tile.pixel_count());
        }
    }
    let mut data = Vec::with_capacity(tile.pixel_count());
    for py in 0..tile.height {
        for px in 0..tile.width {
            data.push(iterate_pixel(view, max_iter, tile.x + px, tile.y + py));
        }
    }
    data
}

struct HarnessResult {
    iterations: IterationBuffer,
    cancelled: bool,
    tiles_rendered: usize,
    tiles_mirrored: usize,
    tiles_border_traced: usize,
    total_tiles: usize,
}

/// Single-threaded stand-in for the parallel render driver: computes
/// Normal and Primary tiles, mirrors the rest, and assembles the frame
/// through the library.  `cancel_after` simulates a generation bump after
/// that many tiles.
fn render_harness(
    view: &View,
    max_iter: u32,
    use_symmetry: bool,
    force_full: bool,
    cancel_after: Option<usize>,
) -> HarnessResult {
    let tiles = build_tile_grid(view.width, view.height);
    let total_tiles = tiles.len();
    let on_axis = view.center_im.abs() <= f64::EPSILON;
    let classified = if use_symmetry {
        classify_tiles_for_symmetry(&tiles, view.height, on_axis)
    } else {
        None
    };

    let mut border_traced: usize = 0;
    let mut done: usize = 0;
    let mut cancelled = false;
    let mut tile_data: Vec<Option<Vec<IterationResult>>> = Vec::new();
    match &classified {
        Some(cl) => {
            for ct in cl.iter() {
                if cancel_after.map_or(false, |limit| done >= limit) {
                    cancelled = true;
                    tile_data.push(None);
                    continue;
                }
                match ct.kind {
                    TileKind::Mirror { .. } => tile_data.push(None),
                    _ => {
                        tile_data.push(Some(render_tile(
                            view,
                            max_iter,
                            &ct.tile,
                            force_full,
                            &mut border_traced,
                        )));
                        done += 1;
                    }
                }
            }
        }
        None => {
            for tile in tiles.iter() {
                if cancel_after.map_or(false, |limit| done >= limit) {
                    cancelled = true;
                    tile_data.push(None);
                    continue;
                }
                tile_data.push(Some(render_tile(
                    view,
                    max_iter,
                    tile,
                    force_full,
                    &mut border_traced,
                )));
                done += 1;
            }
        }
    }

    let mut iterations = IterationBuffer::new(view.width, view.height, max_iter);
    let tiles_rendered = count_rendered(&tile_data);
    let tiles_mirrored = match &classified {
        Some(cl) => {
            assemble_symmetric(&mut iterations, cl, &tile_data);
            count_mirrors(cl)
        }
        None => {
            assemble_normal(&mut iterations, &tiles, &tile_data);
            0
        }
    };

    HarnessResult {
        iterations,
        cancelled,
        tiles_rendered,
        tiles_mirrored,
        tiles_border_traced: border_traced,
        total_tiles,
    }
}

/// AA samples for every boundary pixel, flattened in row-major order.
fn aa_flat_samples(view: &View, max_iter: u32, mask: &Vec<bool>, aa_level: u32) -> Vec<IterationResult> {
    let mut flat = Vec::new();
    let inv = 1.0 / aa_level as f64;
    for (idx, &is_boundary) in mask.iter().enumerate() {
        if is_boundary {
            let x = (idx % view.width as usize) as u32;
            let y = (idx / view.width as usize) as u32;
            for sy in 0..aa_level {
                for sx in 0..aa_level {
                    let px = x as f64 + (sx as f64 + 0.5) * inv;
                    let py = y as f64 + (sy as f64 + 0.5) * inv;
                    let (re, im) = view.subpixel_to_complex(px, py);
                    flat.push(mandelbrot_iterate(re, im, max_iter, 4.0));
                }
            }
        }
    }
    flat
}

// ---------------------------------------------------------------------------
// Renders
// ---------------------------------------------------------------------------

#[test]
fn basic_render_produces_iteration_data() {
    let view = View::default_mandelbrot(128, 128);
    let result = render_harness(&view, 256, true, false, None);
    assert!(!result.cancelled);
    assert_eq!(result.iterations.data.len(), 128 * 128);
    assert!(result.tiles_rendered > 0);
}

#[test]
fn render_determinism() {
    // identical (fractal, viewport) with no cancellation: bit-identical data
    let view = View::default_mandelbrot(96, 96);
    let a = render_harness(&view, 128, true, false, None);
    let b = render_harness(&view, 128, true, false, None);
    assert_eq!(a.iterations.data, b.iterations.data);
}

#[test]
fn symmetry_render_mirrors_tiles() {
    let view = View { center_re: -0.5, center_im: 0.0, scale: 0.01, width: 128, height: 128 };
    let result = render_harness(&view, 64, true, false, None);
    assert!(!result.cancelled);
    assert!(result.tiles_mirrored > 0, "symmetry should mirror some tiles");
}

#[test]
fn symmetry_classes_match_reflection() {
    // for center_im == 0, class(x, y) == class(x, height - 1 - y)
    let view = View { center_re: -0.5, center_im: 0.0, scale: 0.01, width: 128, height: 128 };
    let result = render_harness(&view, 64, true, false, None);
    assert!(!result.cancelled);
    let w = 128usize;
    let h = 128usize;
    for y in 0..h / 2 {
        for x in 0..w {
            let a = result.iterations.data[y * w + x].class();
            let b = result.iterations.data[(h - 1 - y) * w + x].class();
            assert_eq!(a, b, "mirrored classes differ at ({x}, {y})");
        }
    }
}

#[test]
fn symmetry_off_axis_mirrors_nothing() {
    let view = View { center_re: -0.5, center_im: 0.25, scale: 0.01, width: 128, height: 128 };
    let result = render_harness(&view, 64, true, false, None);
    assert_eq!(result.tiles_mirrored, 0);
}

#[test]
fn border_tracing_fills_uniform_tiles() {
    // zoom into a region well outside the set: all tiles are uniform
    let view = View { center_re: 5.0, center_im: 5.0, scale: 0.001, width: 128, height: 128 };
    let result = render_harness(&view, 256, true, false, None);
    assert!(!result.cancelled);
    assert!(
        result.tiles_border_traced > 0,
        "tiles far outside the set should be border-traced"
    );
}

#[test]
fn border_trace_equivalence_on_classes() {
    // the border-traced frame classifies every pixel exactly as the full
    // per-pixel frame does
    let view = View { center_re: -0.25, center_im: 0.0, scale: 0.002, width: 256, height: 192 };
    let traced = render_harness(&view, 64, false, false, None);
    let full = render_harness(&view, 64, false, true, None);
    assert!(traced.tiles_border_traced > 0);
    let classes_traced: Vec<u64> = traced.iterations.data.iter().map(|r| r.class()).collect();
    let classes_full: Vec<u64> = full.iterations.data.iter().map(|r| r.class()).collect();
    assert_eq!(classes_traced, classes_full);
}

#[test]
fn border_trace_equivalence_exact_on_interior_region() {
    // a view entirely inside the main cardioid: every result is Interior,
    // so the traced and the full frame agree bit for bit
    let view = View { center_re: -0.2, center_im: 0.0, scale: 0.0001, width: 128, height: 128 };
    let traced = render_harness(&view, 64, false, false, None);
    let full = render_harness(&view, 64, false, true, None);
    assert!(traced.tiles_border_traced > 0);
    assert_eq!(traced.iterations.data, full.iterations.data);
}

#[test]
fn scenario_far_outside_escapes_at_zero() {
    // Mandelbrot viewport centred at (5.0, 5.0), scale 0.001
    let view = View { center_re: 5.0, center_im: 5.0, scale: 0.001, width: 128, height: 128 };
    let result = render_harness(&view, 256, true, false, None);
    assert!(result.tiles_border_traced > 0);
    for r in &result.iterations.data {
        match r {
            IterationResult::Escaped { iterations, .. } => assert_eq!(*iterations, 0),
            IterationResult::Interior => panic!("far-outside pixel marked interior"),
        }
    }
}

#[test]
fn scenario_full_frame_classifies_every_pixel() {
    // Mandelbrot, 800x600, max_iterations 256, escape radius 2.0
    let view = View::default_mandelbrot(800, 600);
    let result = render_harness(&view, 256, true, false, None);
    assert!(!result.cancelled);
    assert_eq!(result.iterations.data.len(), 480000);
    assert!(result.tiles_rendered > 0);
    let interior = result
        .iterations
        .data
        .iter()
        .filter(|r| matches!(r, IterationResult::Interior))
        .count();
    assert!(interior > 0, "the set itself should be present");
    assert!(interior < 480000, "escaped pixels should be present");
}

#[test]
fn cancellation_stops_render() {
    // >= 1024x1024 frame with >= 50000 iterations, cancelled after a few
    // tiles: the run reports cancellation and leaves tiles unrendered
    let view = View { center_re: 5.0, center_im: 5.0, scale: 0.001, width: 1024, height: 1024 };
    let result = render_harness(&view, 50000, true, false, Some(3));
    assert!(result.cancelled);
    assert!(
        result.tiles_rendered < result.total_tiles,
        "not all tiles should have been rendered"
    );
}

#[test]
fn cancel_handle_reports_progress() {
    let cancel = RenderCancel::new();
    let g0 = cancel.generation();
    cancel.cancel();
    assert_eq!(cancel.generation(), g0 + 1);
    cancel.reset_progress(10);
    cancel.inc_progress();
    cancel.inc_progress();
    assert_eq!(cancel.progress(), (2, 10));
}

// ---------------------------------------------------------------------------
// Anti-aliasing
// ---------------------------------------------------------------------------

#[test]
fn detect_boundaries_finds_edges() {
    let view = View::default_mandelbrot(64, 64);
    let result = render_harness(&view, 256, true, false, None);
    let mask = detect_boundaries(&result.iterations);
    let boundary_count = mask.iter().filter(|&&b| b).count();
    assert!(
        boundary_count > 0,
        "should detect boundary pixels in a Mandelbrot render"
    );
    assert!(
        boundary_count < 64 * 64,
        "not every pixel should be a boundary"
    );
}

#[test]
fn compute_aa_produces_samples() {
    let view = View::default_mandelbrot(64, 64);
    let result = render_harness(&view, 256, true, false, None);
    let mask = detect_boundaries(&result.iterations);
    let flat = aa_flat_samples(&view, 256, &mask, 2);
    let aa = compute_aa(&result.iterations, 2, &mask, &flat, false);
    let aa = aa.expect("should produce AA samples");
    assert_eq!(aa.aa_level, 2);
    assert!(aa.boundary_count > 0);
    assert_eq!(aa.data.len(), aa.boundary_count * 4); // 2x2 = 4 samples each
}

#[test]
fn uniform_image_has_no_boundaries() {
    // far outside the set: all pixels escape at the same iteration
    let view = View { center_re: 10.0, center_im: 10.0, scale: 0.001, width: 64, height: 64 };
    let result = render_harness(&view, 256, true, false, None);
    let mask = detect_boundaries(&result.iterations);
    let flat = aa_flat_samples(&view, 256, &mask, 2);
    let aa = compute_aa(&result.iterations, 2, &mask, &flat, false);
    assert!(aa.is_none(), "uniform image should have no boundary pixels");
}

#[test]
fn compute_aa_cancelled_returns_none() {
    let view = View::default_mandelbrot(64, 64);
    let result = render_harness(&view, 256, true, false, None);
    let mask = detect_boundaries(&result.iterations);
    let flat = aa_flat_samples(&view, 256, &mask, 2);
    let aa = compute_aa(&result.iterations, 2, &mask, &flat, true);
    assert!(aa.is_none(), "a cancelled AA pass publishes nothing");
}

#[test]
fn aa_boundary_pixels_get_exactly_level_squared_samples() {
    let view = View::default_mandelbrot(64, 64);
    let result = render_harness(&view, 256, true, false, None);
    let mask = detect_boundaries(&result.iterations);
    let flat = aa_flat_samples(&view, 256, &mask, 4);
    let aa = compute_aa(&result.iterations, 4, &mask, &flat, false).expect("AA expected");
    for y in 0..64u32 {
        for x in 0..64u32 {
            let flagged = mask[(y as usize) * 64 + x as usize];
            match aa.samples(x, y) {
                Some(samples) => {
                    assert!(flagged, "samples on a non-boundary pixel at ({x}, {y})");
                    assert_eq!(samples.len(), 16);
                }
                None => assert!(!flagged, "boundary pixel without samples at ({x}, {y})"),
            }
        }
    }
}

#[test]
fn aa_samples_shift_follows_pan() {
    let view = View::default_mandelbrot(64, 64);
    let result = render_harness(&view, 256, true, false, None);
    let mask = detect_boundaries(&result.iterations);
    let flat = aa_flat_samples(&view, 256, &mask, 2);
    let mut aa = compute_aa(&result.iterations, 2, &mask, &flat, false).expect("AA expected");
    let before = aa.clone();
    aa.shift(3, -2);
    for y in 0..64u32 {
        for x in 0..64u32 {
            let sx = x as i64 - 3;
            let sy = y as i64 + 2;
            let expected = if (0..64).contains(&sx) && (0..64).contains(&sy) {
                before.samples(sx as u32, sy as u32)
            } else {
                None
            };
            assert_eq!(aa.samples(x, y), expected, "mismatch at ({x}, {y})");
        }
    }
}

// ---------------------------------------------------------------------------
// Pan-reuse shift
// ---------------------------------------------------------------------------

fn patterned_buffer(w: u32, h: u32) -> IterationBuffer {
    let mut buf = IterationBuffer::new(w, h, 99);
    for y in 0..h {
        for x in 0..w {
            buf.data[(y * w + x) as usize] = IterationResult::Escaped {
                iterations: y * w + x,
                norm_sq_bits: ((y * w + x) as u64) << 1,
            };
        }
    }
    buf
}

#[test]
fn shift_moves_content_and_exposes_interior() {
    let mut buf = patterned_buffer(8, 6);
    let orig = buf.clone();
    buf.shift(2, 1);
    for y in 0..6i64 {
        for x in 0..8i64 {
            let got = buf.data[(y * 8 + x) as usize];
            if x >= 2 && y >= 1 {
                assert_eq!(got, orig.data[((y - 1) * 8 + (x - 2)) as usize]);
            } else {
                assert_eq!(got, IterationResult::Interior);
            }
        }
    }
}

#[test]
fn shift_round_trip_restores_overlap() {
    // shift(dx, dy) then shift(-dx, -dy): the overlap is restored exactly
    // and the transiently exposed band is Interior
    let mut buf = patterned_buffer(10, 7);
    let orig = buf.clone();
    buf.shift(3, 2);
    buf.shift(-3, -2);
    for y in 0..7i64 {
        for x in 0..10i64 {
            let got = buf.data[(y * 10 + x) as usize];
            if x + 3 < 10 && y + 2 < 7 {
                assert_eq!(got, orig.data[(y * 10 + x) as usize]);
            } else {
                assert_eq!(got, IterationResult::Interior);
            }
        }
    }
}

#[test]
fn shift_by_zero_keeps_buffer() {
    let mut buf = patterned_buffer(5, 5);
    let orig = buf.clone();
    buf.shift(0, 0);
    assert_eq!(buf.data, orig.data);
}
