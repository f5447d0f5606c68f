use fractal_core::fixed::{fadd, fdiv, fdiv_int, fmul, fneg, fsub, Fix, FIX_ONE};
use fractal_core::math::{exp2_fix, log2_core, pow2_u64, usqrt};

fn fx(x: f64) -> Fix {
    Fix { bits: (x * 4294967296.0).round() as i64 }
}

fn to_f64(a: Fix) -> f64 {
    a.bits as f64 / 4294967296.0
}

#[test]
fn fixed_from_integers() {
    assert_eq!(Fix::from_i32(-3).bits, -3 * FIX_ONE);
    assert_eq!(Fix::from_u32(7).bits, 7 * FIX_ONE);
    assert_eq!(Fix::from_i32(2).floor_u32(), 2);
    assert_eq!(fx(-0.5).floor_u32(), 0);
    assert_eq!(fx(3.75).floor_u32(), 3);
}

#[test]
fn fixed_add_sub_exact() {
    assert_eq!(fadd(fx(1.5), fx(2.25)).bits, fx(3.75).bits);
    assert_eq!(fsub(fx(1.0), fx(2.5)).bits, fx(-1.5).bits);
    assert_eq!(fneg(fx(0.5)).bits, fx(-0.5).bits);
}

#[test]
fn fixed_mul_div_exact() {
    assert_eq!(fmul(fx(2.0), fx(3.0)).bits, fx(6.0).bits);
    assert_eq!(fmul(fx(-2.0), fx(3.0)).bits, fx(-6.0).bits);
    assert_eq!(fdiv(fx(1.0), fx(4.0)).bits, fx(0.25).bits);
    assert_eq!(fdiv(fx(-1.0), fx(4.0)).bits, fx(-0.25).bits);
    assert_eq!(fdiv_int(fx(1.0), 2).bits, fx(0.5).bits);
}

#[test]
fn fixed_saturates_at_the_ends() {
    assert_eq!(fadd(Fix { bits: i64::MAX }, Fix { bits: i64::MAX }).bits, i64::MAX);
    assert_eq!(fsub(Fix { bits: i64::MIN }, Fix { bits: 1 }).bits, i64::MIN);
    assert_eq!(fneg(Fix { bits: i64::MIN }).bits, i64::MAX);
    assert_eq!(fmul(Fix { bits: i64::MAX }, fx(4.0)).bits, i64::MAX);
}

#[test]
fn fixed_mul_rounds_toward_zero() {
    let pos = fmul(fx(1.5), fx(0.3));
    let neg = fmul(fx(-1.5), fx(0.3));
    assert_eq!(neg.bits, -pos.bits);
    let posd = fdiv(fx(1.0), fx(3.0));
    let negd = fdiv(fx(-1.0), fx(3.0));
    assert_eq!(negd.bits, -posd.bits);
}

#[test]
fn usqrt_exact_values() {
    assert_eq!(usqrt(0), 0);
    assert_eq!(usqrt(1), 1);
    assert_eq!(usqrt(144), 12);
    assert_eq!(usqrt(145), 12);
    assert_eq!(usqrt(1u128 << 64), 1u64 << 32);
    assert_eq!(usqrt(u128::MAX), u64::MAX);
}

#[test]
fn pow2_values() {
    assert_eq!(pow2_u64(0), 1);
    assert_eq!(pow2_u64(10), 1024);
    assert_eq!(pow2_u64(32), 1u64 << 32);
}

#[test]
fn log2_exact_on_powers_of_two() {
    assert_eq!(log2_core(1), 0);
    assert_eq!(log2_core(2), FIX_ONE);
    assert_eq!(log2_core(1u128 << 64), 64 * FIX_ONE);
}

#[test]
fn log2_close_to_reference() {
    let r = log2_core(10) as f64 / 4294967296.0;
    assert!((r - 10f64.log2()).abs() < 1e-6);
    let r2 = log2_core(12345678901234567890u128) as f64 / 4294967296.0;
    assert!((r2 - (12345678901234567890f64).log2()).abs() < 1e-6);
}

#[test]
fn exp2_exact_at_zero_and_integers() {
    assert_eq!(exp2_fix(fx(0.0)).bits, FIX_ONE);
    assert_eq!(exp2_fix(fx(3.0)).bits, 8 * FIX_ONE);
}

#[test]
fn exp2_close_to_reference() {
    let r = to_f64(exp2_fix(fx(1.5)));
    assert!((r - 2f64.powf(1.5)).abs() < 1e-6);
    let r2 = to_f64(exp2_fix(fx(-2.0)));
    assert!((r2 - 0.25).abs() < 1e-6);
    let r3 = to_f64(exp2_fix(fx(0.123)));
    assert!((r3 - 2f64.powf(0.123)).abs() < 1e-6);
}
