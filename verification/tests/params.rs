use mandelbrust::color::{
    default_low_threshold_end, default_low_threshold_start, fade_decision, ColorParams,
    DisplayColorSettings, FadeKind, PaletteMode, StartFrom,
};
use mandelbrust::error::RenderError;
use mandelbrust::iteration::IterationResult;
use mandelbrust::pipeline::{coalesce_latest, pipeline_step, WorkerAction, WorkerEvent};
use mandelbrust::settings::{
    aa_label, default_julia_explorer_cell_size_px, default_julia_explorer_max_iterations,
    default_julia_preview_iterations, default_max_iterations, default_minimap_iterations,
    default_true, FractalMode, MinimapSize, RenderPhase,
};

#[test]
fn class_distinguishes_escape_counts_and_interior() {
    let a = IterationResult::Escaped { iterations: 7, norm_sq_bits: 123 };
    let b = IterationResult::Escaped { iterations: 7, norm_sq_bits: 456 };
    let c = IterationResult::Escaped { iterations: 8, norm_sq_bits: 123 };
    assert_eq!(a.class(), 7);
    assert_eq!(a.class(), b.class(), "the escape norm does not affect the class");
    assert_ne!(a.class(), c.class());
    assert_eq!(IterationResult::Interior.class(), u64::MAX);
}

#[test]
fn cycle_length_by_cycles_divides_range() {
    let mut settings = DisplayColorSettings::default();
    settings.palette_mode = PaletteMode::ByCycles { n: 4 };
    assert_eq!(settings.cycle_length(1000), 250);
    settings.palette_mode = PaletteMode::ByCycles { n: 3 };
    assert_eq!(settings.cycle_length(1000), 333);
    settings.palette_mode = PaletteMode::ByCycles { n: 0 };
    assert_eq!(settings.cycle_length(1000), 1000);
}

#[test]
fn cycle_length_by_length_is_fixed() {
    let mut settings = DisplayColorSettings::default();
    settings.palette_mode = PaletteMode::ByCycleLength { len: 77 };
    assert_eq!(settings.cycle_length(1000), 77);
    assert_eq!(settings.cycle_length(10), 77);
}

#[test]
fn color_params_from_smooth() {
    let p = ColorParams::from_smooth(true);
    assert!(p.smooth);
    assert_eq!(p.cycle_length, u32::MAX);
    assert_eq!(p.start_from, StartFrom::NoFade);
    assert_eq!(p.low_threshold_start, 10);
    assert_eq!(p.low_threshold_end, 30);
    let q = ColorParams::from_smooth(false);
    assert!(!q.smooth);
}

#[test]
fn display_color_defaults() {
    let d = DisplayColorSettings::default();
    assert_eq!(d.palette_index, 0);
    assert_eq!(d.palette_mode, PaletteMode::ByCycles { n: 1 });
    assert_eq!(d.start_from, StartFrom::NoFade);
    assert_eq!(d.low_threshold_start, default_low_threshold_start());
    assert_eq!(d.low_threshold_end, default_low_threshold_end());
    assert!(d.smooth_coloring);
}

#[test]
fn preference_defaults() {
    assert_eq!(default_max_iterations(), 256);
    assert!(default_true());
    assert_eq!(default_minimap_iterations(), 500);
    assert_eq!(default_julia_explorer_max_iterations(), 200);
    assert_eq!(default_julia_explorer_cell_size_px(), 64);
    assert_eq!(default_julia_preview_iterations(), 250);
}

#[test]
fn side_pixels() {
    assert_eq!(MinimapSize::Small.side_pixels(), 128);
    assert_eq!(MinimapSize::Medium.side_pixels(), 256);
    assert_eq!(MinimapSize::Large.side_pixels(), 384);
    assert_eq!(MinimapSize::default(), MinimapSize::Small);
}

#[test]
fn mode_and_phase_labels() {
    assert_eq!(FractalMode::Mandelbrot.label(), "Mandelbrot");
    assert_eq!(FractalMode::Julia.label(), "Julia");
    assert!(FractalMode::Mandelbrot.uses_real_axis_symmetry());
    assert!(!FractalMode::Julia.uses_real_axis_symmetry());
    assert_eq!(RenderPhase::Idle.label(), "Idle");
    assert_eq!(RenderPhase::Done.label(), "Done");
    assert_eq!(aa_label(0), "Off");
    assert_eq!(aa_label(2), "2x2");
    assert_eq!(aa_label(4), "4x4");
    assert_eq!(aa_label(3), "Off");
}

#[test]
fn render_error_variants() {
    let e1 = RenderError::InvalidTileSize(0);
    let e2 = RenderError::InvalidDimensions { width: 0, height: 10 };
    let e3 = RenderError::Cancelled;
    assert_ne!(e1, e3);
    assert_eq!(e2, RenderError::InvalidDimensions { width: 0, height: 10 });
}

#[test]
fn coalescing_keeps_only_the_newest() {
    let none: Vec<u32> = Vec::new();
    assert_eq!(coalesce_latest(none), None);
    assert_eq!(coalesce_latest(vec![1u32, 2, 3]), Some(3));
}

#[test]
fn pipeline_preview_then_final() {
    assert_eq!(pipeline_step(WorkerEvent::RequestTaken), WorkerAction::RenderPreview);
    assert_eq!(
        pipeline_step(WorkerEvent::PreviewDone { cancelled: false }),
        WorkerAction::PublishPreview
    );
    assert_eq!(
        pipeline_step(WorkerEvent::PreviewPublished { newer_waiting: false }),
        WorkerAction::RenderFinal
    );
    assert_eq!(
        pipeline_step(WorkerEvent::FinalDone { cancelled: false }),
        WorkerAction::PublishFinal
    );
}

#[test]
fn pipeline_newer_request_restarts() {
    assert_eq!(
        pipeline_step(WorkerEvent::PreviewPublished { newer_waiting: true }),
        WorkerAction::RestartWithNewest
    );
}

#[test]
fn pipeline_cancellation_abandons_request() {
    assert_eq!(
        pipeline_step(WorkerEvent::PreviewDone { cancelled: true }),
        WorkerAction::AwaitRequest
    );
    assert_eq!(
        pipeline_step(WorkerEvent::FinalDone { cancelled: true }),
        WorkerAction::AwaitRequest
    );
}

#[test]
fn fade_decision_windows() {
    let mut p = ColorParams::from_smooth(false);
    // fade off: the palette alone decides
    assert_eq!(fade_decision(&p, 5), FadeKind::PaletteOnly);
    p.start_from = StartFrom::Black;
    p.low_threshold_start = 10;
    p.low_threshold_end = 30;
    assert_eq!(fade_decision(&p, 5), FadeKind::Solid);
    assert_eq!(fade_decision(&p, 10), FadeKind::Solid);
    assert_eq!(fade_decision(&p, 11), FadeKind::Blend);
    assert_eq!(fade_decision(&p, 29), FadeKind::Blend);
    assert_eq!(fade_decision(&p, 30), FadeKind::PaletteOnly);
    // a degenerate window disables the fade
    p.low_threshold_end = 10;
    assert_eq!(fade_decision(&p, 5), FadeKind::PaletteOnly);
}
