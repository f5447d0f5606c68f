use fractal_core::color::{color_palette, Color, Palette};
use fractal_core::escape::{test_number, Bailout, EscapeResult, NUM_COLORS};
use fractal_core::fixed::{Fix, FIX_ONE};

fn fx(x: f64) -> Fix {
    Fix { bits: (x * 4294967296.0).round() as i64 }
}

fn to_f64(a: Fix) -> f64 {
    a.bits as f64 / 4294967296.0
}

fn count_of(r: EscapeResult) -> f64 {
    match r {
        EscapeResult::Escaped { count } => to_f64(count),
        EscapeResult::Bounded => panic!("expected an escape"),
    }
}

#[test]
fn origin_is_bounded_for_both_radii() {
    assert_eq!(test_number(fx(0.0), fx(0.0), NUM_COLORS, Bailout::Two), EscapeResult::Bounded);
    assert_eq!(test_number(fx(0.0), fx(0.0), NUM_COLORS, Bailout::Sixteen), EscapeResult::Bounded);
}

#[test]
fn bounded_is_black_for_every_palette() {
    let black = Color { b: 0, g: 0, r: 0, a: 255 };
    assert_eq!(color_palette(EscapeResult::Bounded, NUM_COLORS, Palette::Sinusoidal), black);
    assert_eq!(color_palette(EscapeResult::Bounded, NUM_COLORS, Palette::BandedLinear), black);
}

#[test]
fn two_escapes_immediately_radius_two() {
    // |z_1| = 2 meets the radius; smoothed count is 1 - log2(ln 2)
    let c = count_of(test_number(fx(2.0), fx(0.0), NUM_COLORS, Bailout::Two));
    let expected = 1.0 - 2f64.ln().ln() / 2f64.ln();
    assert!((c - expected).abs() < 1e-3, "count {c} vs {expected}");
}

#[test]
fn two_escapes_within_three_steps_radius_sixteen() {
    // orbit 2, 6, 38: |z_3| = 38 crosses 16 at the third step
    let c = count_of(test_number(fx(2.0), fx(0.0), NUM_COLORS, Bailout::Sixteen));
    let expected = 3.0 - 38f64.ln().ln() / 2f64.ln();
    assert!((c - expected).abs() < 1e-3, "count {c} vs {expected}");
}

#[test]
fn interior_point_is_bounded() {
    assert_eq!(test_number(fx(-1.0), fx(0.0), NUM_COLORS, Bailout::Sixteen),
        EscapeResult::Bounded);
}

#[test]
fn full_budget_count_is_white_in_both_palettes() {
    let full = EscapeResult::Escaped { count: Fix { bits: (NUM_COLORS as i64) * FIX_ONE } };
    let white = Color { b: 255, g: 255, r: 255, a: 255 };
    assert_eq!(color_palette(full, NUM_COLORS, Palette::Sinusoidal), white);
    assert_eq!(color_palette(full, NUM_COLORS, Palette::BandedLinear), white);
}

#[test]
fn zero_count_is_dark_in_both_palettes() {
    let zero = EscapeResult::Escaped { count: Fix { bits: 0 } };
    let black = Color { b: 0, g: 0, r: 0, a: 255 };
    assert_eq!(color_palette(zero, NUM_COLORS, Palette::Sinusoidal), black);
    assert_eq!(color_palette(zero, NUM_COLORS, Palette::BandedLinear), black);
}

#[test]
fn banded_palette_ramps_blue_first() {
    // t = 0.0025 after sqrt becomes 0.05, inside the first band
    let count = Fix { bits: ((0.0025 * NUM_COLORS as f64) * 4294967296.0).round() as i64 };
    let c = color_palette(EscapeResult::Escaped { count }, NUM_COLORS, Palette::BandedLinear);
    assert_eq!(c.a, 255);
    assert_eq!(c.g, 0);
    assert_eq!(c.r, 0);
    assert!(c.b > 100 && c.b < 155, "blue {} should ramp near half", c.b);
}

#[test]
fn palette_is_opaque_everywhere() {
    for i in [0i64, 1, 7, 100, 1000, 2048] {
        let e = EscapeResult::Escaped { count: Fix { bits: i * FIX_ONE } };
        assert_eq!(color_palette(e, NUM_COLORS, Palette::Sinusoidal).a, 255);
        assert_eq!(color_palette(e, NUM_COLORS, Palette::BandedLinear).a, 255);
    }
}

#[test]
fn negative_count_clamps_to_black() {
    let e = EscapeResult::Escaped { count: Fix { bits: -FIX_ONE } };
    let black = Color { b: 0, g: 0, r: 0, a: 255 };
    assert_eq!(color_palette(e, NUM_COLORS, Palette::Sinusoidal), black);
    assert_eq!(color_palette(e, NUM_COLORS, Palette::BandedLinear), black);
}
