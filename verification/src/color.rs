//! Mapping escape results to opaque pixel colors.
//!
//! A bounded point is always pure black.  An escaped point's smoothed count is
//! normalized by the iteration budget, compressed with a square root, and fed
//! to one of two interchangeable gradient strategies: a smoothly cycling
//! sinusoidal palette (phases 1, 3, 7 on the red, green and blue channels,
//! with the sine arch realized as its classic cubic approximation), or a
//! monotonic banded linear gradient (deep blue, then cyan, then white).  Both
//! are pure functions of the normalized count alone.

use vstd::prelude::*;
use crate::fixed::{Fix, FIX_ONE, sat64, tdiv_int, fdiv_int};
use crate::math::{floor_sqrt, usqrt, lemma_sqrt_bounds};
use crate::escape::EscapeResult;
use vstd::arithmetic::div_mod::{lemma_div_is_ordered, lemma_div_multiples_vanish,
    lemma_multiply_divide_lt, lemma_div_pos_is_pos};

verus! {

/// One opaque pixel color, channels stored in B,G,R,A order.
#[derive(Clone, Copy, PartialEq, Eq, Structural, Debug)]
pub struct Color {
    pub b: u8,
    pub g: u8,
    pub r: u8,
    pub a: u8,
}

/// The two gradient strategies.
#[derive(Clone, Copy, PartialEq, Eq, Structural, Debug)]
pub enum Palette {
    /// Smoothly cycling, non-monotonic palette from squared-sine arches.
    Sinusoidal,
    /// Monotonic dark-to-light gradient in three linear bands.
    BandedLinear,
}

/// Clamp a raw Q32.32 value into `[0, 1]`.
pub open spec fn clamp01(x: int) -> int {
    if x < 0 {
        0
    } else if x > FIX_ONE as int {
        FIX_ONE as int
    } else {
        x
    }
}

/// The normalized escape count `t = count / n`, clamped into `[0, 1]`.
pub open spec fn t_of(count: int, n: int) -> int
    recommends
        n >= 1,
{
    clamp01(sat64(tdiv_int(count, n)))
}

/// Square root of a raw Q32.32 value in `[0, 1]`.
pub open spec fn sqrt01(t: int) -> int {
    floor_sqrt((t * FIX_ONE as int) as nat) as int
}

/// The cubic arch `3w^2 - 2w^3` on a raw Q32.32 value `w` in `[0, 1]`: the
/// classic polynomial stand-in for the squared-sine arch `sin(pi/2 * w)^2`,
/// exact at both ends and increasing in between.
pub open spec fn arch(w: int) -> int {
    let w2 = (w * w) / FIX_ONE as int;
    let w3 = (w2 * w) / FIX_ONE as int;
    3 * w2 - 2 * w3
}

/// One sinusoidal channel: fold `phase * ts` into a single arch period and
/// scale the arch value to a byte.
pub open spec fn sin_channel(phase: int, ts: int) -> int {
    let v = phase * ts;
    let m = v % (2 * FIX_ONE as int);
    let w = if m <= FIX_ONE as int {
        m
    } else {
        2 * FIX_ONE as int - m
    };
    let s = arch(w);
    let c = (255 * s) / FIX_ONE as int;
    if c > 255 {
        255
    } else {
        c
    }
}

/// Start of the second band: `t = 0.1`.
pub const BAND_1: i64 = 0x1999_9999;

/// Start of the third band: `t = 0.5`.
pub const BAND_2: i64 = 0x8000_0000;

/// The banded linear channels `(b, g, r)`: blue ramps up over the first band,
/// green over the second, red over the third, each earlier channel held at
/// full brightness.
pub open spec fn band_channels(t: int) -> (int, int, int) {
    let t1 = BAND_1 as int;
    let t2 = BAND_2 as int;
    let b = if t < t1 {
        (255 * t) / t1
    } else {
        255
    };
    let g = if t < t1 {
        0
    } else if t < t2 {
        (255 * (t - t1)) / (t2 - t1)
    } else {
        255
    };
    let r = if t < t2 {
        0
    } else {
        (255 * (t - t2)) / (FIX_ONE as int - t2)
    };
    (b, g, r)
}

/// The color of an escape result: black for a bounded point, and the chosen
/// gradient applied to the square root of the normalized count otherwise.
pub open spec fn color_spec(val: EscapeResult, n: int, palette: Palette) -> Color
    recommends
        n >= 1,
{
    match val {
        EscapeResult::Bounded => Color { b: 0, g: 0, r: 0, a: 255 },
        EscapeResult::Escaped { count } => {
            let t = t_of(count.v(), n);
            let ts = sqrt01(t);
            match palette {
                Palette::Sinusoidal => Color {
                    b: sin_channel(7, ts) as u8,
                    g: sin_channel(3, ts) as u8,
                    r: sin_channel(1, ts) as u8,
                    a: 255,
                },
                Palette::BandedLinear => Color {
                    b: band_channels(ts).0 as u8,
                    g: band_channels(ts).1 as u8,
                    r: band_channels(ts).2 as u8,
                    a: 255,
                },
            }
        },
    }
}

/// One sinusoidal channel as a byte.
fn sin_channel_exec(phase: u64, ts: u64) -> (r: u8)
    requires
        1 <= phase <= 7,
        ts <= FIX_ONE as u64,
    ensures
        r as int == sin_channel(phase as int, ts as int),
{
    let one = FIX_ONE as u64;
    proof {
        assert(phase as int * ts as int <= 7 * 0x1_0000_0000) by (nonlinear_arith)
            requires
                0 <= phase as int <= 7,
                0 <= ts as int <= 0x1_0000_0000,
        ;
    }
    let v: u64 = phase * ts;
    let m: u64 = v % (2 * one);
    let w: u64 = if m <= one {
        m
    } else {
        2 * one - m
    };
    proof {
        let wi = w as int;
        let onei = FIX_ONE as int;
        assert(wi * wi <= onei * onei) by (nonlinear_arith)
            requires
                0 <= wi <= onei,
        ;
        lemma_div_is_ordered(wi * wi, onei * onei, onei);
        lemma_div_multiples_vanish(onei, onei);
        assert((wi * wi) / onei >= 0) by {
            assert(wi * wi >= 0) by (nonlinear_arith);
            lemma_div_pos_is_pos(wi * wi, onei);
        }
        let w2 = (wi * wi) / onei;
        assert(w2 * wi <= w2 * onei) by (nonlinear_arith)
            requires
                0 <= wi <= onei,
                w2 >= 0,
        ;
        assert(w2 * onei == onei * w2) by (nonlinear_arith);
        lemma_div_multiples_vanish(w2, onei);
        lemma_div_is_ordered(w2 * wi, w2 * onei, onei);
        assert(w2 * wi >= 0) by (nonlinear_arith)
            requires
                w2 >= 0,
                wi >= 0,
        ;
        lemma_div_pos_is_pos(w2 * wi, onei);
    }
    let w2: u64 = (((w as u128) * (w as u128)) / (one as u128)) as u64;
    let w3: u64 = (((w2 as u128) * (w as u128)) / (one as u128)) as u64;
    let s: u64 = 3 * w2 - 2 * w3;
    let c: u64 = (255 * s) / one;
    if c > 255 {
        255u8
    } else {
        c as u8
    }
}

/// The banded linear channels as bytes.
fn band_channels_exec(t: u64) -> (bgr: (u8, u8, u8))
    requires
        t <= FIX_ONE as u64,
    ensures
        bgr.0 as int == band_channels(t as int).0,
        bgr.1 as int == band_channels(t as int).1,
        bgr.2 as int == band_channels(t as int).2,
{
    let t1 = BAND_1 as u64;
    let t2 = BAND_2 as u64;
    let b: u64 = if t < t1 {
        proof {
            assert(255 * (t as int) < (BAND_1 as int) * 256) by (nonlinear_arith)
                requires
                    0 <= t as int,
                    (t as int) < BAND_1 as int,
            ;
            lemma_multiply_divide_lt(255 * (t as int), BAND_1 as int, 256);
            assert(255 * (t as int) >= 0) by (nonlinear_arith)
                requires
                    t as int >= 0,
            ;
            lemma_div_pos_is_pos(255 * (t as int), BAND_1 as int);
        }
        (255 * t) / t1
    } else {
        255
    };
    let g: u64 = if t < t1 {
        0
    } else if t < t2 {
        proof {
            assert(255 * (t as int - BAND_1 as int) < (BAND_2 as int - BAND_1 as int) * 256)
                by (nonlinear_arith)
                requires
                    0 <= t as int - BAND_1 as int,
                    (t as int) < BAND_2 as int,
            ;
            lemma_multiply_divide_lt(255 * (t as int - BAND_1 as int),
                BAND_2 as int - BAND_1 as int, 256);
            assert(255 * (t as int - BAND_1 as int) >= 0) by (nonlinear_arith)
                requires
                    t as int - BAND_1 as int >= 0,
            ;
            lemma_div_pos_is_pos(255 * (t as int - BAND_1 as int), BAND_2 as int - BAND_1 as int);
        }
        (255 * (t - t1)) / (t2 - t1)
    } else {
        255
    };
    let r: u64 = if t < t2 {
        0
    } else {
        proof {
            assert(255 * (t as int - BAND_2 as int) < (FIX_ONE as int - BAND_2 as int) * 256)
                by (nonlinear_arith)
                requires
                    0 <= t as int - BAND_2 as int,
                    t as int <= FIX_ONE as int,
                    FIX_ONE == 0x1_0000_0000,
                    BAND_2 == 0x8000_0000,
            ;
            lemma_multiply_divide_lt(255 * (t as int - BAND_2 as int),
                FIX_ONE as int - BAND_2 as int, 256);
            assert(255 * (t as int - BAND_2 as int) >= 0) by (nonlinear_arith)
                requires
                    t as int - BAND_2 as int >= 0,
            ;
            lemma_div_pos_is_pos(255 * (t as int - BAND_2 as int),
                FIX_ONE as int - BAND_2 as int);
        }
        (255 * (t - t2)) / ((FIX_ONE as u64) - t2)
    };
    (b as u8, g as u8, r as u8)
}

/// Map an escape result and the iteration budget to an opaque pixel color
/// under the chosen gradient strategy.
pub fn color_palette(val: EscapeResult, n: u32, palette: Palette) -> (c: Color)
    requires
        n >= 1,
    ensures
        c == color_spec(val, n as int, palette),
        c.a == 255,
{
    match val {
        EscapeResult::Bounded => Color { b: 0, g: 0, r: 0, a: 255 },
        EscapeResult::Escaped { count } => {
            let td: Fix = fdiv_int(count, n as u64);
            let t: u64 = if td.bits < 0 {
                0
            } else if td.bits > FIX_ONE {
                FIX_ONE as u64
            } else {
                td.bits as u64
            };
            proof {
                let ti = t as int;
                let onei = FIX_ONE as int;
                assert(ti * onei <= onei * onei) by (nonlinear_arith)
                    requires
                        0 <= ti <= onei,
                ;
                assert(ti * onei >= 0) by (nonlinear_arith)
                    requires
                        ti >= 0,
                        onei >= 0,
                ;
                assert(onei * onei < (onei + 1) * (onei + 1)) by (nonlinear_arith)
                    requires
                        onei >= 1,
                ;
                lemma_sqrt_bounds((ti * onei) as nat, 0, (onei + 1) as nat);
            }
            let ts: u64 = usqrt((t as u128) * (FIX_ONE as u128));
            match palette {
                Palette::Sinusoidal => Color {
                    b: sin_channel_exec(7, ts),
                    g: sin_channel_exec(3, ts),
                    r: sin_channel_exec(1, ts),
                    a: 255,
                },
                Palette::BandedLinear => {
                    let bgr = band_channels_exec(ts);
                    Color { b: bgr.0, g: bgr.1, r: bgr.2, a: 255 }
                },
            }
        },
    }
}

/// A bounded point is pure black with full alpha, under every palette and
/// budget.
pub proof fn lemma_bounded_is_black(n: int, palette: Palette)
    ensures
        color_spec(EscapeResult::Bounded, n, palette) == (Color { b: 0, g: 0, r: 0, a: 255 }),
{
}

/// The cubic arch is exact at both ends of its period, like the squared sine
/// it stands in for: zero at 0 and one at 1.
pub proof fn lemma_arch_endpoints()
    ensures
        arch(0) == 0,
        arch(FIX_ONE as int) == FIX_ONE as int,
{
    let one = FIX_ONE as int;
    vstd::arithmetic::div_mod::lemma_div_of0(one);
    assert(0 * 0 == 0) by (nonlinear_arith);
    assert(one * one == one * one);
    lemma_div_multiples_vanish(one, one);
    assert((one * one) / one == one);
    assert(arch(one) == 3 * one - 2 * one);
}

} // verus!
