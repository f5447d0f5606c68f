//! Signed Q32.32 fixed-point numbers.
//!
//! A `Fix` stores a real number `bits / 2^32` in a single `i64`.  All
//! arithmetic saturates at the `i64` range instead of wrapping or panicking,
//! and every operation's exact integer result is stated in its contract, so
//! the whole rendering pipeline built on top of these operations is a pure,
//! fully specified function of its inputs.

use vstd::prelude::*;

verus! {

/// Number of raw units per plane unit: a `Fix` with `bits == FIX_ONE` is 1.0.
pub const FIX_ONE: i64 = 0x1_0000_0000;

/// A Q32.32 fixed-point number; the represented value is `bits / FIX_ONE`.
#[derive(Clone, Copy, PartialEq, Eq, Structural, Debug)]
pub struct Fix {
    pub bits: i64,
}

impl Fix {
    /// The raw scaled integer value, the unit of all contracts here.
    pub open spec fn v(self) -> int {
        self.bits as int
    }

    /// The whole number `x`, for small `x`.
    pub fn from_i32(x: i32) -> (r: Fix)
        ensures
            r.v() == x as int * FIX_ONE as int,
    {
        Fix { bits: (x as i64) * FIX_ONE }
    }

    /// The whole number `x`, for pixel-sized `x`.
    pub fn from_u32(x: u32) -> (r: Fix)
        requires
            x < 0x8000_0000,
        ensures
            r.v() == x as int * FIX_ONE as int,
    {
        Fix { bits: (x as i64) * FIX_ONE }
    }

    /// Floor of the represented value, clamped into `u32`: turns a fractional
    /// cursor coordinate into the pixel column or row that contains it.
    pub fn floor_u32(self) -> (r: u32)
        ensures
            r as int == clamp_u32(self.v() / FIX_ONE as int),
    {
        if self.bits < 0 {
            0
        } else {
            let q: u64 = (self.bits as u64) / (FIX_ONE as u64);
            if q > u32::MAX as u64 {
                u32::MAX
            } else {
                q as u32
            }
        }
    }
}

/// Clamp an integer into the `u32` range.
pub open spec fn clamp_u32(x: int) -> int {
    if x < 0 {
        0
    } else if x > u32::MAX as int {
        u32::MAX as int
    } else {
        x
    }
}

/// Clamp an integer into the `i64` range: the saturation rule shared by all
/// fixed-point operations.
pub open spec fn sat64(x: int) -> int {
    if x > i64::MAX as int {
        i64::MAX as int
    } else if x < i64::MIN as int {
        i64::MIN as int
    } else {
        x
    }
}

/// Magnitude of an integer.
pub open spec fn abs_i(x: int) -> int {
    if x < 0 {
        -x
    } else {
        x
    }
}

/// Exact product of two raw values, rescaled by `FIX_ONE`, rounded toward
/// zero: the mathematical meaning of `fmul` before saturation.
pub open spec fn tmul(a: int, b: int) -> int {
    let m = (abs_i(a) * abs_i(b)) / FIX_ONE as int;
    if (a < 0) != (b < 0) {
        -m
    } else {
        m
    }
}

/// Exact quotient of two raw values, rescaled by `FIX_ONE`, rounded toward
/// zero: the mathematical meaning of `fdiv` before saturation.
pub open spec fn tdiv(a: int, b: int) -> int
    recommends
        b != 0,
{
    let m = (abs_i(a) * FIX_ONE as int) / abs_i(b);
    if (a < 0) != (b < 0) {
        -m
    } else {
        m
    }
}

/// Exact quotient of a raw value by a plain positive integer, rounded toward
/// zero: the mathematical meaning of `fdiv_int` before saturation.
pub open spec fn tdiv_int(a: int, k: int) -> int
    recommends
        k > 0,
{
    let m = abs_i(a) / k;
    if a < 0 {
        -m
    } else {
        m
    }
}

/// Clamp an `i128` into the `i64` range.
fn clamp_i128(x: i128) -> (r: i64)
    ensures
        r as int == sat64(x as int),
{
    if x > i64::MAX as i128 {
        i64::MAX
    } else if x < i64::MIN as i128 {
        i64::MIN
    } else {
        x as i64
    }
}

/// Magnitude of an `i64` as a `u64`.
fn abs_u64(a: i64) -> (r: u64)
    ensures
        r as int == abs_i(a as int),
{
    if a < 0 {
        (-(a as i128)) as u64
    } else {
        a as u64
    }
}

/// Reassemble a magnitude and a sign into a saturated `i64`.
pub(crate) fn from_mag(q: u128, neg: bool) -> (r: i64)
    ensures
        r as int == sat64(if neg { -(q as int) } else { q as int }),
{
    if neg {
        if q >= 0x8000_0000_0000_0000u128 {
            i64::MIN
        } else {
            -(q as i64)
        }
    } else {
        if q > i64::MAX as u128 {
            i64::MAX
        } else {
            q as i64
        }
    }
}

/// Saturating fixed-point addition.
pub fn fadd(a: Fix, b: Fix) -> (r: Fix)
    ensures
        r.v() == sat64(a.v() + b.v()),
{
    let s: i128 = a.bits as i128 + b.bits as i128;
    Fix { bits: clamp_i128(s) }
}

/// Saturating fixed-point subtraction.
pub fn fsub(a: Fix, b: Fix) -> (r: Fix)
    ensures
        r.v() == sat64(a.v() - b.v()),
{
    let s: i128 = a.bits as i128 - b.bits as i128;
    Fix { bits: clamp_i128(s) }
}

/// Saturating fixed-point negation.
pub fn fneg(a: Fix) -> (r: Fix)
    ensures
        r.v() == sat64(-a.v()),
{
    if a.bits == i64::MIN {
        Fix { bits: i64::MAX }
    } else {
        Fix { bits: -a.bits }
    }
}

/// Saturating fixed-point multiplication, rounded toward zero.
pub fn fmul(a: Fix, b: Fix) -> (r: Fix)
    ensures
        r.v() == sat64(tmul(a.v(), b.v())),
{
    let ma = abs_u64(a.bits);
    let mb = abs_u64(b.bits);
    proof {
        assert(ma as int * mb as int <= u128::MAX as int) by (nonlinear_arith)
            requires
                ma <= u64::MAX,
                mb <= u64::MAX,
        ;
    }
    let p: u128 = (ma as u128) * (mb as u128);
    let q: u128 = p / (FIX_ONE as u128);
    let neg = (a.bits < 0) != (b.bits < 0);
    Fix { bits: from_mag(q, neg) }
}

/// Saturating fixed-point division, rounded toward zero.
pub fn fdiv(a: Fix, b: Fix) -> (r: Fix)
    requires
        b.v() != 0,
    ensures
        r.v() == sat64(tdiv(a.v(), b.v())),
{
    let ma = abs_u64(a.bits);
    let mb = abs_u64(b.bits);
    let p: u128 = (ma as u128) * (FIX_ONE as u128);
    let q: u128 = p / (mb as u128);
    let neg = (a.bits < 0) != (b.bits < 0);
    Fix { bits: from_mag(q, neg) }
}

/// Saturating division of a fixed-point value by a plain positive integer,
/// rounded toward zero.
pub fn fdiv_int(a: Fix, k: u64) -> (r: Fix)
    requires
        k > 0,
    ensures
        r.v() == sat64(tdiv_int(a.v(), k as int)),
{
    let ma = abs_u64(a.bits);
    let q: u128 = (ma as u128) / (k as u128);
    Fix { bits: from_mag(q, a.bits < 0) }
}

} // verus!
