//! The view state and the mapping from screen pixels to plane points.
//!
//! A `ViewState` holds the plane point under the viewport center, the width of
//! the view in plane units, and the pixel dimensions.  Pixel coordinates are
//! normalized by the longer side, so the plane keeps a 1:1 aspect ratio and
//! the shorter side is letterboxed; pixel rows grow downward while the
//! imaginary axis grows upward, so the vertical offset is negated.

use vstd::prelude::*;
use crate::fixed::{Fix, FIX_ONE, sat64, abs_i, fadd, from_mag};
use vstd::arithmetic::div_mod::{lemma_div_of0, lemma_div_is_ordered, lemma_div_pos_is_pos};

verus! {

/// Largest accepted pixel dimension: keeps every buffer index inside `usize`
/// on any machine.
pub const MAX_DIM: u32 = 16384;

/// The view: center point, width of the view in plane units, and pixel
/// dimensions.
#[derive(Clone, Copy, PartialEq, Eq, Structural, Debug)]
pub struct ViewState {
    pub center_re: Fix,
    pub center_im: Fix,
    pub scale: Fix,
    pub width: u32,
    pub height: u32,
}

/// `(num * s) / d2` rounded toward zero, for a scale `s >= 0` and a positive
/// denominator `d2`: the exact meaning of one pixel-offset conversion.
pub open spec fn scaled_offset(num: int, s: int, d2: int) -> int
    recommends
        s >= 0,
        d2 > 0,
{
    let m = (abs_i(num) * s) / d2;
    if num < 0 {
        -m
    } else {
        m
    }
}

impl ViewState {
    /// Well-formed: positive scale and pixel dimensions within range.
    pub open spec fn wf(self) -> bool {
        &&& 1 <= self.width <= MAX_DIM
        &&& 1 <= self.height <= MAX_DIM
        &&& self.scale.v() > 0
    }

    /// The longer pixel dimension, by which both axes are normalized.
    pub open spec fn dmax(self) -> int {
        if self.width >= self.height {
            self.width as int
        } else {
            self.height as int
        }
    }

    /// Raw horizontal offset of pixel column `x` from the center:
    /// `(x/d - width/(2d)) * scale` as `((2x - width) * scale) / (2d)`.
    pub open spec fn plane_dx(self, x: int) -> int {
        sat64(scaled_offset(2 * x - self.width, self.scale.v(), 2 * self.dmax()))
    }

    /// Raw vertical offset of pixel row `y` from the center, negated because
    /// row numbers grow downward.
    pub open spec fn plane_dy(self, y: int) -> int {
        sat64(scaled_offset(self.height - 2 * y, self.scale.v(), 2 * self.dmax()))
    }

    /// Real part of the plane point of pixel column `x`.
    pub open spec fn plane_x(self, x: int) -> int {
        sat64(self.center_re.v() + self.plane_dx(x))
    }

    /// Imaginary part of the plane point of pixel row `y`.
    pub open spec fn plane_y(self, y: int) -> int {
        sat64(self.center_im.v() + self.plane_dy(y))
    }

    /// Map a pixel to its plane point.
    pub fn xy_to_point(&self, x: u32, y: u32) -> (p: (Fix, Fix))
        requires
            self.wf(),
        ensures
            p.0.v() == self.plane_x(x as int),
            p.1.v() == self.plane_y(y as int),
    {
        let d: u32 = if self.width >= self.height {
            self.width
        } else {
            self.height
        };
        let dx = offset_for(2 * (x as i64) - (self.width as i64), self.scale, d);
        let dy = offset_for((self.height as i64) - 2 * (y as i64), self.scale, d);
        (fadd(self.center_re, dx), fadd(self.center_im, dy))
    }
}

/// Convert one signed pixel numerator into a plane offset: `(num * scale)`
/// divided by twice the normalizing dimension, rounded toward zero and
/// saturated.
fn offset_for(num: i64, scale: Fix, d: u32) -> (r: Fix)
    requires
        scale.v() > 0,
        1 <= d <= MAX_DIM,
    ensures
        r.v() == sat64(scaled_offset(num as int, scale.v(), 2 * d as int)),
{
    let mag: u64 = if num < 0 {
        (-(num as i128)) as u64
    } else {
        num as u64
    };
    proof {
        assert(mag as int * scale.v() <= u128::MAX as int) by (nonlinear_arith)
            requires
                mag as int <= 0xFFFF_FFFF_FFFF_FFFF,
                0 <= scale.v() <= 0x7FFF_FFFF_FFFF_FFFF,
        ;
        assert(mag as int * scale.v() >= 0) by (nonlinear_arith)
            requires
                mag >= 0,
                scale.v() >= 0,
        ;
    }
    let prod: u128 = (mag as u128) * (scale.bits as u128);
    let q: u128 = prod / ((2 * d) as u128);
    Fix { bits: from_mag(q, num < 0) }
}

/// Center invariance for even dimensions: the pixel at
/// `(width / 2, height / 2)` maps exactly back to the view center.
pub proof fn lemma_center_invariance(vs: ViewState)
    requires
        vs.wf(),
        vs.width as int % 2 == 0,
        vs.height as int % 2 == 0,
    ensures
        vs.plane_x(vs.width as int / 2) == vs.center_re.v(),
        vs.plane_y(vs.height as int / 2) == vs.center_im.v(),
{
    let s = vs.scale.v();
    let d2 = 2 * vs.dmax();
    assert(2 * (vs.width as int / 2) - vs.width as int == 0);
    assert(vs.height as int - 2 * (vs.height as int / 2) == 0);
    assert(abs_i(0) == 0);
    assert(0 * s == 0) by (nonlinear_arith);
    lemma_div_of0(d2);
    assert(scaled_offset(0, s, d2) == 0);
}

/// Center invariance in general: for any well-formed view the pixel at
/// `(width / 2, height / 2)` maps within half a pixel of the center on each
/// axis, the offset bounded by `scale / (2 * dmax)`.
pub proof fn lemma_center_offset_bound(vs: ViewState)
    requires
        vs.wf(),
    ensures
        abs_i(vs.plane_x(vs.width as int / 2) - vs.center_re.v()) <= vs.scale.v() / (2 * vs.dmax()),
        abs_i(vs.plane_y(vs.height as int / 2) - vs.center_im.v()) <= vs.scale.v() / (2 * vs.dmax()),
{
    let s = vs.scale.v();
    let d2 = 2 * vs.dmax();
    lemma_half_pixel_offset(2 * (vs.width as int / 2) - vs.width as int, s, d2);
    lemma_half_pixel_offset(vs.height as int - 2 * (vs.height as int / 2), s, d2);
    lemma_sat_step(vs.center_re.v(), vs.plane_dx(vs.width as int / 2), s / d2);
    lemma_sat_step(vs.center_im.v(), vs.plane_dy(vs.height as int / 2), s / d2);
}

/// A numerator of magnitude at most one converts to an offset of magnitude at
/// most `s / d2`.
proof fn lemma_half_pixel_offset(num: int, s: int, d2: int)
    requires
        -1 <= num <= 1,
        s >= 0,
        d2 > 0,
    ensures
        abs_i(sat64(scaled_offset(num, s, d2))) <= s / d2,
{
    assert(abs_i(num) * s == s || abs_i(num) * s == 0) by (nonlinear_arith)
        requires
            abs_i(num) == 0 || abs_i(num) == 1,
    ;
    lemma_div_of0(d2);
    lemma_div_pos_is_pos(s, d2);
    lemma_div_is_ordered(0, s, d2);
}

/// Adding a small offset to an in-range value and saturating moves the value
/// by at most the offset's bound.
proof fn lemma_sat_step(c: int, off: int, bound: int)
    requires
        i64::MIN as int <= c <= i64::MAX as int,
        abs_i(off) <= bound,
    ensures
        abs_i(sat64(c + off) - c) <= bound,
{
}

} // verus!
