//! Escape-time evaluation of the quadratic recurrence `z := z^2 + c`.
//!
//! A point of the complex plane is iterated from `z = 0`; it escapes when the
//! squared magnitude of `z` reaches the configured bailout radius, and the
//! escape is reported with a smoothed (continuous) iteration count
//! `k - log2(ln |z|)` so that coloring shows no integer bands.  Points that
//! survive the whole budget are reported as bounded.

use vstd::prelude::*;
use crate::fixed::{Fix, FIX_ONE, sat64, tmul, abs_i, fadd, fsub, fmul};
use crate::math::{log2_core, log2_core_spec};
use vstd::arithmetic::power2::{pow2, lemma2_to64};

verus! {

/// Default iteration budget of the renderer.
pub const NUM_COLORS: u32 = 2048;

/// `ln 2` in Q32.32, rounded toward zero.
pub const LN2_BITS: i64 = 2977044471;

/// The two bailout-radius variants of the escape test.
#[derive(Clone, Copy, PartialEq, Eq, Structural, Debug)]
pub enum Bailout {
    /// Minimal-correctness radius 2.
    Two,
    /// Reference radius 16, safely past the escape threshold so the smoothed
    /// count is accurate.
    Sixteen,
}

impl Bailout {
    /// The squared bailout radius in raw Q64.64 units, the scale at which the
    /// squared magnitude of `z` is computed.
    pub open spec fn sq_raw(self) -> int {
        match self {
            Bailout::Two => 0x4_0000_0000_0000_0000,
            Bailout::Sixteen => 0x100_0000_0000_0000_0000,
        }
    }

    /// The squared bailout radius as a run-time value.
    pub fn sq_raw_exec(self) -> (r: u128)
        ensures
            r as int == self.sq_raw(),
    {
        match self {
            Bailout::Two => 0x4_0000_0000_0000_0000u128,
            Bailout::Sixteen => 0x100_0000_0000_0000_0000u128,
        }
    }
}

/// Real part of `z^2 + c` in saturating fixed point, in the exact order the
/// evaluator computes it.
pub open spec fn step_re(zr: int, zi: int, cr: int) -> int {
    sat64(sat64(sat64(tmul(zr, zr)) - sat64(tmul(zi, zi))) + cr)
}

/// Imaginary part of `z^2 + c` in saturating fixed point.
pub open spec fn step_im(zr: int, zi: int, ci: int) -> int {
    sat64(sat64(sat64(tmul(zr, zi)) + sat64(tmul(zr, zi))) + ci)
}

/// The orbit of `c`: `z_0 = 0`, `z_k = z_{k-1}^2 + c`, as raw value pairs.
pub open spec fn z_iter(cr: int, ci: int, k: nat) -> (int, int)
    decreases k,
{
    if k == 0 {
        (0int, 0int)
    } else {
        let p = z_iter(cr, ci, (k - 1) as nat);
        (step_re(p.0, p.1, cr), step_im(p.0, p.1, ci))
    }
}

/// Squared magnitude of a raw value pair, in Q64.64 units; exact, since the
/// products of two raw values always fit the mathematical integers.
pub open spec fn normsq(z: (int, int)) -> int {
    z.0 * z.0 + z.1 * z.1
}

/// The orbit of `(cr, ci)` has reached the bailout radius at step `k`.
pub open spec fn escaped_at(cr: int, ci: int, bail: Bailout, k: nat) -> bool {
    normsq(z_iter(cr, ci, k)) >= bail.sq_raw()
}

/// Step `k` is the first escape of the orbit of `(cr, ci)`.
pub open spec fn first_escape_at(cr: int, ci: int, bail: Bailout, k: int) -> bool {
    &&& 1 <= k
    &&& escaped_at(cr, ci, bail, k as nat)
    &&& forall|j: int| 1 <= j < k ==> !(#[trigger] escaped_at(cr, ci, bail, j as nat))
}

/// The smoothed escape count `k - log2(ln |z_k|)` in Q32.32, clamped at zero:
/// `|z|` enters as its squared magnitude `s`, so `ln |z| = (log2 s / 2) * ln 2`.
pub open spec fn smooth_spec(k: nat, s: nat) -> int
    recommends
        s >= 0x4_0000_0000_0000_0000,
{
    let lq = log2_core_spec(s) - 64 * FIX_ONE as int;
    let half = lq / 2;
    let lnz = sat64(tmul(half, LN2_BITS as int));
    let g = log2_core_spec(lnz as nat) - 32 * FIX_ONE as int;
    let count = k * FIX_ONE as int - g;
    if count < 0 {
        0
    } else {
        count
    }
}

/// Compute the smoothed escape count for an escape at step `k` with squared
/// magnitude `s`.
fn smooth_count(k: u32, s: u128) -> (r: Fix)
    requires
        1 <= k <= 0x10000,
        s >= 0x4_0000_0000_0000_0000,
    ensures
        r.v() == smooth_spec(k as nat, s as nat),
        r.v() >= 0,
{
    let lc = log2_core(s);
    proof {
        lemma2_to64();
        vstd::arithmetic::power2::lemma2_to64_rest();
        vstd::arithmetic::power2::lemma_pow2_adds(64, 2);
        assert(pow2(66) == 0x4_0000_0000_0000_0000);
        // s >= 2^66, so its floor log2 is at least 66
        if crate::math::floor_log2(s as nat) < 66 {
            let p = crate::math::floor_log2(s as nat);
            if p + 1 < 66 {
                vstd::arithmetic::power2::lemma_pow2_strictly_increases((p + 1) as nat, 66);
            }
            assert(false);
        }
    }
    proof {
        assert(66 * FIX_ONE as int <= crate::math::floor_log2(s as nat) * FIX_ONE as int)
            by (nonlinear_arith)
            requires
                66 <= crate::math::floor_log2(s as nat),
                FIX_ONE == 0x1_0000_0000,
        ;
    }
    let lq: i64 = lc - 64 * FIX_ONE;
    let half: i64 = ((lq as u64) / 2) as i64;
    let lnz: Fix = fmul(Fix { bits: half }, Fix { bits: LN2_BITS });
    proof {
        // half >= FIX_ONE, so half * LN2_BITS / FIX_ONE >= LN2_BITS >= 1
        let h = half as int;
        assert(FIX_ONE as int * LN2_BITS as int <= h * LN2_BITS as int) by (nonlinear_arith)
            requires
                FIX_ONE as int <= h,
        ;
        vstd::arithmetic::div_mod::lemma_div_multiples_vanish(LN2_BITS as int, FIX_ONE as int);
        vstd::arithmetic::div_mod::lemma_div_is_ordered(FIX_ONE as int * LN2_BITS as int,
            h * LN2_BITS as int, FIX_ONE as int);
        // half <= 64 * FIX_ONE, so the product stays small
        assert(h * LN2_BITS as int <= (64 * FIX_ONE as int) * LN2_BITS as int) by (nonlinear_arith)
            requires
                h <= 64 * FIX_ONE as int,
                LN2_BITS as int >= 0,
        ;
        vstd::arithmetic::div_mod::lemma_div_is_ordered(h * LN2_BITS as int,
            (64 * FIX_ONE as int) * LN2_BITS as int, FIX_ONE as int);
        vstd::arithmetic::div_mod::lemma_div_multiples_vanish(64 * LN2_BITS as int,
            FIX_ONE as int);
        assert((64 * FIX_ONE as int) * LN2_BITS as int == FIX_ONE as int * (64 * LN2_BITS as int))
            by (nonlinear_arith);
    }
    let g: i64 = log2_core(lnz.bits as u128) - 32 * FIX_ONE;
    let count: i64 = (k as i64) * FIX_ONE - g;
    if count < 0 {
        Fix { bits: 0 }
    } else {
        Fix { bits: count }
    }
}

/// Outcome of the escape test: either an escape with its smoothed iteration
/// count, or a point that stayed bounded for the whole budget.
#[derive(Clone, Copy, PartialEq, Eq, Structural, Debug)]
pub enum EscapeResult {
    Escaped { count: Fix },
    Bounded,
}

/// Iterate `z := z^2 + c` from `z = 0` up to `n` times and report the first
/// step whose squared magnitude reaches the bailout radius, with the smoothed
/// count, or that the point stayed bounded.
pub fn test_number(c_re: Fix, c_im: Fix, n: u32, bail: Bailout) -> (r: EscapeResult)
    requires
        n <= 0x10000,
    ensures
        match r {
            EscapeResult::Bounded => forall|k: int|
                1 <= k <= n as int ==> !(#[trigger] escaped_at(c_re.v(), c_im.v(), bail, k as nat)),
            EscapeResult::Escaped { count } => exists|k: int|
                (#[trigger] first_escape_at(c_re.v(), c_im.v(), bail, k)) && k <= n as int
                    && count.v() == smooth_spec(k as nat,
                    normsq(z_iter(c_re.v(), c_im.v(), k as nat)) as nat),
        },
{
    let ghost cr = c_re.v();
    let ghost ci = c_im.v();
    let mut zr = Fix { bits: 0 };
    let mut zi = Fix { bits: 0 };
    let mut i: u32 = 0;
    while i < n
        invariant
            i <= n,
            n <= 0x10000,
            cr == c_re.v(),
            ci == c_im.v(),
            zr.v() == z_iter(cr, ci, i as nat).0,
            zi.v() == z_iter(cr, ci, i as nat).1,
            forall|k: int| 1 <= k <= i as int ==> !(#[trigger] escaped_at(cr, ci, bail, k as nat)),
        decreases n - i,
    {
        let t1 = fmul(zr, zr);
        let t2 = fmul(zi, zi);
        let t3 = fmul(zr, zi);
        let new_re = fadd(fsub(t1, t2), c_re);
        let new_im = fadd(fadd(t3, t3), c_im);
        proof {
            assert(z_iter(cr, ci, (i + 1) as nat).0 == step_re(zr.v(), zi.v(), cr));
            assert(z_iter(cr, ci, (i + 1) as nat).1 == step_im(zr.v(), zi.v(), ci));
        }
        zr = new_re;
        zi = new_im;
        i = i + 1;
        proof {
            assert(zr.bits as int * zr.bits as int >= 0) by (nonlinear_arith);
            assert(zi.bits as int * zi.bits as int >= 0) by (nonlinear_arith);
            assert(zr.bits as int * zr.bits as int <= 0x4000_0000_0000_0000_0000_0000_0000_0000)
                by (nonlinear_arith)
                requires
                    -0x8000_0000_0000_0000 <= zr.bits as int <= 0x7FFF_FFFF_FFFF_FFFF,
            ;
            assert(zi.bits as int * zi.bits as int <= 0x4000_0000_0000_0000_0000_0000_0000_0000)
                by (nonlinear_arith)
                requires
                    -0x8000_0000_0000_0000 <= zi.bits as int <= 0x7FFF_FFFF_FFFF_FFFF,
            ;
        }
        let a: u128 = ((zr.bits as i128) * (zr.bits as i128)) as u128;
        let b: u128 = ((zi.bits as i128) * (zi.bits as i128)) as u128;
        let s: u128 = a + b;
        let bs: u128 = bail.sq_raw_exec();
        proof {
            assert(s as int == normsq(z_iter(cr, ci, i as nat)));
        }
        if s >= bs {
            let cnt = smooth_count(i, s);
            proof {
                assert(escaped_at(cr, ci, bail, i as nat));
                assert(first_escape_at(cr, ci, bail, i as int));
                assert((#[trigger] first_escape_at(cr, ci, bail, i as int)) && i as int <= n as int
                    && cnt.v() == smooth_spec(i as nat, normsq(z_iter(cr, ci, i as nat)) as nat));
            }
            return EscapeResult::Escaped { count: cnt };
        }
        proof {
            assert(!escaped_at(cr, ci, bail, i as nat));
        }
    }
    EscapeResult::Bounded
}

/// The orbit of the origin never moves: `z^2 + 0` stays zero.
pub proof fn lemma_z_iter_origin(k: nat)
    ensures
        z_iter(0, 0, k) == (0int, 0int),
    decreases k,
{
    if k > 0 {
        lemma_z_iter_origin((k - 1) as nat);
        assert(abs_i(0) == 0);
        vstd::arithmetic::div_mod::lemma_div_of0(FIX_ONE as int);
        assert(tmul(0, 0) == 0);
    }
}

/// The origin `c = 0` never escapes, whatever the bailout radius and budget:
/// every escape test on it reports `Bounded`, and the bounded color is black.
pub proof fn lemma_bounded_origin(bail: Bailout)
    ensures
        forall|k: int| 1 <= k ==> !(#[trigger] escaped_at(0, 0, bail, k as nat)),
{
    assert forall|k: int| 1 <= k implies !(#[trigger] escaped_at(0, 0, bail, k as nat)) by {
        lemma_z_iter_origin(k as nat);
    }
}

/// The point `c = 2` escapes immediately: at the first step for bailout
/// radius 2, and at the third step for radius 16.
pub proof fn lemma_two_escapes_quickly()
    ensures
        first_escape_at(2 * FIX_ONE as int, 0, Bailout::Two, 1),
        first_escape_at(2 * FIX_ONE as int, 0, Bailout::Sixteen, 3),
{
    let two = 2 * FIX_ONE as int;
    let six = 6 * FIX_ONE as int;
    reveal_with_fuel(z_iter, 4);
    lemma_tmul_small(2, 2);
    lemma_tmul_small(2, 0);
    lemma_tmul_small(0, 0);
    lemma_tmul_small(6, 6);
    lemma_tmul_small(6, 0);
    lemma_tmul_small(38, 38);
    assert(z_iter(two, 0, 1) == (two, 0int));
    assert(z_iter(two, 0, 2) == (six, 0int));
    assert(z_iter(two, 0, 3) == (38 * FIX_ONE as int, 0int));
    assert(normsq(z_iter(two, 0, 1)) == two * two);
    assert(two * two == 0x4_0000_0000_0000_0000) by (nonlinear_arith)
        requires
            two == 0x2_0000_0000,
    ;
    assert(six * six == 0x24_0000_0000_0000_0000) by (nonlinear_arith)
        requires
            six == 0x6_0000_0000,
    ;
    assert(38 * FIX_ONE as int * (38 * FIX_ONE as int) == 0x5A4_0000_0000_0000_0000)
        by (nonlinear_arith)
        requires
            38 * FIX_ONE as int == 0x26_0000_0000,
    ;
    assert forall|j: int| 1 <= j < 3 implies !(#[trigger] escaped_at(two, 0, Bailout::Sixteen,
        j as nat)) by {
        assert(j == 1 || j == 2);
    }
}

/// The product of two small whole fixed-point values is their whole product:
/// concrete arithmetic for the escape examples.
proof fn lemma_tmul_small(a: int, b: int)
    requires
        0 <= a < 0x1000,
        0 <= b < 0x1000,
    ensures
        tmul(a * FIX_ONE as int, b * FIX_ONE as int) == a * b * FIX_ONE as int,
{
    let one = FIX_ONE as int;
    assert(abs_i(a * one) == a * one) by (nonlinear_arith)
        requires
            a >= 0,
            one > 0,
    ;
    assert(abs_i(b * one) == b * one) by (nonlinear_arith)
        requires
            b >= 0,
            one > 0,
    ;
    assert((a * one) * (b * one) == one * (a * b * one)) by (nonlinear_arith);
    vstd::arithmetic::div_mod::lemma_div_multiples_vanish(a * b * one, one);
    assert(a * one >= 0 && b * one >= 0) by (nonlinear_arith)
        requires
            a >= 0,
            b >= 0,
            one > 0,
    ;
}

} // verus!
