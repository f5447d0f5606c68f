use fractal_core::color::{color_palette, Palette};
use fractal_core::escape::{test_number, Bailout, NUM_COLORS};
use fractal_core::fixed::{Fix, FIX_ONE};
use fractal_core::render::{generate, RenderConfig};
use fractal_core::session::{AppState, Event, ZoomPolicy};
use fractal_core::viewport::ViewState;

fn fx(x: f64) -> Fix {
    Fix { bits: (x * 4294967296.0).round() as i64 }
}

fn to_f64(a: Fix) -> f64 {
    a.bits as f64 / 4294967296.0
}

fn view(cre: f64, cim: f64, scale: f64, w: u32, h: u32) -> ViewState {
    ViewState { center_re: fx(cre), center_im: fx(cim), scale: fx(scale), width: w, height: h }
}

fn cfg() -> RenderConfig {
    RenderConfig { bailout: Bailout::Sixteen, palette: Palette::Sinusoidal }
}

#[test]
fn center_pixel_maps_to_center_even_dims() {
    let v = view(-0.5, 0.0, 4.0, 64, 48);
    let p = v.xy_to_point(32, 24);
    assert_eq!(p.0.bits, v.center_re.bits);
    assert_eq!(p.1.bits, v.center_im.bits);
}

#[test]
fn center_pixel_maps_near_center_odd_dims() {
    let v = view(0.25, -1.0, 2.0, 65, 49);
    let p = v.xy_to_point(65 / 2, 49 / 2);
    let half_pixel = to_f64(v.scale) / (2.0 * 65.0);
    assert!((to_f64(p.0) - 0.25).abs() <= half_pixel + 1e-9);
    assert!((to_f64(p.1) - (-1.0)).abs() <= half_pixel + 1e-9);
}

#[test]
fn pixel_mapping_matches_reference_formula() {
    let v = view(-0.5, 0.0, 4.0, 40, 30);
    let d = 40.0f64;
    for (x, y) in [(0u32, 0u32), (39, 29), (7, 21)] {
        let p = v.xy_to_point(x, y);
        let nx = (x as f64 / d - 0.5 * (40.0 / d)) * 4.0 + (-0.5);
        let ny = (0.5 * (30.0 / d) - y as f64 / d) * 4.0;
        assert!((to_f64(p.0) - nx).abs() < 1e-6, "x at ({x},{y})");
        assert!((to_f64(p.1) - ny).abs() < 1e-6, "y at ({x},{y})");
    }
}

#[test]
fn render_is_deterministic() {
    let v = view(-0.5, 0.0, 4.0, 16, 12);
    let b1 = generate(&v, cfg());
    let b2 = generate(&v, cfg());
    assert_eq!(b1, b2);
}

#[test]
fn buffer_shape_and_opacity() {
    let v = view(-0.5, 0.0, 4.0, 9, 5);
    let buf = generate(&v, cfg());
    assert_eq!(buf.len(), 9 * 5 * 4);
    for px in buf.chunks(4) {
        assert_eq!(px[3], 255);
    }
}

#[test]
fn end_to_end_single_pixel_composes() {
    let v = view(-0.5, 0.0, 4.0, 1, 1);
    let buf = generate(&v, cfg());
    let p = v.xy_to_point(0, 0);
    let e = test_number(p.0, p.1, NUM_COLORS, Bailout::Sixteen);
    let c = color_palette(e, NUM_COLORS, Palette::Sinusoidal);
    assert_eq!(buf, vec![c.b, c.g, c.r, c.a]);
}

#[test]
fn new_session_has_reference_initial_view() {
    let s = AppState::new(cfg(), ZoomPolicy::Anchored);
    assert_eq!(to_f64(s.view.center_re), -0.5);
    assert_eq!(to_f64(s.view.center_im), 0.0);
    assert_eq!(to_f64(s.view.scale), 4.0);
    assert_eq!((s.view.width, s.view.height), (10, 10));
    assert!(s.anchor.is_none());
    assert_eq!(s.buffer.len(), 10 * 10 * 4);
}

#[test]
fn resize_clamps_degenerate_dimensions() {
    let mut s = AppState::new(cfg(), ZoomPolicy::Anchored);
    s.update(Event::Resize { width: 0, height: 0 });
    assert_eq!((s.view.width, s.view.height), (1, 1));
    assert_eq!(s.buffer.len(), 4);
    s.update(Event::Resize { width: 24, height: 18 });
    assert_eq!((s.view.width, s.view.height), (24, 18));
    assert_eq!(s.buffer.len(), 24 * 18 * 4);
}

#[test]
fn press_anchors_and_release_clears() {
    let mut s = AppState::new(cfg(), ZoomPolicy::Anchored);
    s.update(Event::CursorMove { x: fx(3.5), y: fx(7.0) });
    assert!(s.anchor.is_none());
    s.update(Event::ButtonPress);
    assert_eq!(s.anchor, Some((fx(3.5), fx(7.0))));
    s.update(Event::ButtonRelease);
    assert!(s.anchor.is_none());
}

#[test]
fn cursor_move_does_not_rerender() {
    let mut s = AppState::new(cfg(), ZoomPolicy::Anchored);
    let before = s.buffer.clone();
    let view_before = s.view;
    s.update(Event::CursorMove { x: fx(2.0), y: fx(1.0) });
    assert_eq!(s.buffer, before);
    assert_eq!(s.view, view_before);
    assert_eq!(s.cursor_x, fx(2.0));
    assert_eq!(s.cursor_y, fx(1.0));
}

#[test]
fn release_without_press_changes_nothing() {
    let mut s = AppState::new(cfg(), ZoomPolicy::Anchored);
    let view_before = s.view;
    s.update(Event::ButtonRelease);
    assert_eq!(s.view, view_before);
}

#[test]
fn pan_moves_the_anchored_point_to_the_cursor() {
    let mut s = AppState::new(cfg(), ZoomPolicy::Anchored);
    s.update(Event::Resize { width: 32, height: 24 });
    let p1 = s.view.xy_to_point(20, 10);
    s.update(Event::CursorMove { x: fx(20.0), y: fx(10.0) });
    s.update(Event::ButtonPress);
    s.update(Event::CursorMove { x: fx(25.0), y: fx(18.0) });
    s.update(Event::ButtonRelease);
    let p2 = s.view.xy_to_point(25, 18);
    assert!((to_f64(p1.0) - to_f64(p2.0)).abs() < 1e-4);
    assert!((to_f64(p1.1) - to_f64(p2.1)).abs() < 1e-4);
}

#[test]
fn pan_with_equal_press_and_release_is_identity() {
    let mut s = AppState::new(cfg(), ZoomPolicy::Anchored);
    s.update(Event::Resize { width: 16, height: 16 });
    let view_before = s.view;
    s.update(Event::CursorMove { x: fx(5.0), y: fx(5.0) });
    s.update(Event::ButtonPress);
    s.update(Event::ButtonRelease);
    assert_eq!(s.view, view_before);
}

#[test]
fn anchored_zoom_keeps_the_point_under_the_cursor() {
    let mut s = AppState::new(cfg(), ZoomPolicy::Anchored);
    s.update(Event::Resize { width: 32, height: 24 });
    s.update(Event::CursorMove { x: fx(20.0), y: fx(10.0) });
    let before = s.view.xy_to_point(20, 10);
    let scale_before = to_f64(s.view.scale);
    s.update(Event::Scroll { delta: fx(0.5) });
    let after = s.view.xy_to_point(20, 10);
    assert!((to_f64(before.0) - to_f64(after.0)).abs() < 1e-4);
    assert!((to_f64(before.1) - to_f64(after.1)).abs() < 1e-4);
    let factor = 0.5f64.exp();
    assert!((to_f64(s.view.scale) - scale_before / factor).abs() < 1e-5);
}

#[test]
fn unanchored_zoom_scales_around_the_center() {
    let mut s = AppState::new(cfg(), ZoomPolicy::Unanchored);
    s.update(Event::Resize { width: 16, height: 16 });
    let center_before = (s.view.center_re, s.view.center_im);
    let scale_before = to_f64(s.view.scale);
    s.update(Event::Scroll { delta: fx(-0.25) });
    assert_eq!((s.view.center_re, s.view.center_im), center_before);
    let factor = (-0.25f64).exp();
    assert!((to_f64(s.view.scale) - scale_before * factor).abs() < 1e-5);
}

#[test]
fn banded_palette_renders_deterministically_too() {
    let v = view(-0.5, 0.0, 4.0, 8, 8);
    let cfg2 = RenderConfig { bailout: Bailout::Two, palette: Palette::BandedLinear };
    let b1 = generate(&v, cfg2);
    let b2 = generate(&v, cfg2);
    assert_eq!(b1, b2);
    assert_eq!(b1.len(), 8 * 8 * 4);
}
