//! Verified integer helpers behind the smooth-coloring formula and the zoom
//! factor: powers of two, floor square root, and binary-digit algorithms for
//! `log2` and `2^x` over Q32.32 fixed-point values.
//!
//! Every executable function here returns exactly the value of a spec
//! function, so the rendering pipeline and the zoom transition stay pure
//! functions of their inputs.

use vstd::prelude::*;
use vstd::arithmetic::power2::{pow2, lemma2_to64, lemma2_to64_rest, lemma_pow2_adds,
    lemma_pow2_strictly_increases, lemma_pow2_unfold, lemma_pow2_pos};
use vstd::arithmetic::div_mod::{lemma_div_denominator, lemma_fundamental_div_mod,
    lemma_multiply_divide_lt, lemma_div_is_ordered, lemma_div_multiples_vanish};
use crate::fixed::FIX_ONE;

verus! {

/// `r` is the floor of the square root of `x`.
pub open spec fn is_sqrt(x: nat, r: nat) -> bool {
    r * r <= x && x < (r + 1) * (r + 1)
}

/// Floor of the square root of `x`.
pub open spec fn floor_sqrt(x: nat) -> nat {
    choose|r: nat| #[trigger] is_sqrt(x, r)
}

/// Every natural number has a floor square root.
pub proof fn lemma_sqrt_exists(x: nat)
    ensures
        exists|r: nat| #[trigger] is_sqrt(x, r),
    decreases x,
{
    if x == 0 {
        assert(0 * 0 <= 0 && 0 < (0 + 1) * (0 + 1)) by (nonlinear_arith);
        assert(is_sqrt(0, 0));
    } else {
        lemma_sqrt_exists((x - 1) as nat);
        let r = choose|r: nat| #[trigger] is_sqrt((x - 1) as nat, r);
        if x < (r + 1) * (r + 1) {
            assert(is_sqrt(x, r));
        } else {
            assert(x == (r + 1) * (r + 1));
            assert((r + 1) * (r + 1) < (r + 2) * (r + 2)) by (nonlinear_arith);
            assert(is_sqrt(x, r + 1));
        }
    }
}

/// The floor square root is the unique `r` with `r^2 <= x < (r+1)^2`.
pub proof fn lemma_sqrt_unique(x: nat, r: nat)
    requires
        is_sqrt(x, r),
    ensures
        floor_sqrt(x) == r,
{
    lemma_sqrt_exists(x);
    let c = floor_sqrt(x);
    assert(is_sqrt(x, c));
    if c < r {
        assert((c + 1) * (c + 1) <= r * r) by (nonlinear_arith)
            requires
                c + 1 <= r,
        ;
    }
    if r < c {
        assert((r + 1) * (r + 1) <= c * c) by (nonlinear_arith)
            requires
                r + 1 <= c,
        ;
    }
}

/// Bounds of the floor square root from bounds of its argument.
pub proof fn lemma_sqrt_bounds(x: nat, lo: nat, hi: nat)
    requires
        lo * lo <= x,
        x < hi * hi,
    ensures
        lo <= floor_sqrt(x) < hi,
{
    lemma_sqrt_exists(x);
    let c = floor_sqrt(x);
    assert(is_sqrt(x, c));
    if c < lo {
        assert((c + 1) * (c + 1) <= lo * lo) by (nonlinear_arith)
            requires
                c + 1 <= lo,
        ;
    }
    if c >= hi {
        assert(hi * hi <= c * c) by (nonlinear_arith)
            requires
                hi <= c,
        ;
    }
}

/// Floor square root by binary search over the answer.
pub fn usqrt(x: u128) -> (r: u64)
    ensures
        r as nat == floor_sqrt(x as nat),
{
    let mut lo: u64 = 0;
    let mut hi: u64 = u64::MAX;
    proof {
        assert((u64::MAX as nat + 1) * (u64::MAX as nat + 1) > u128::MAX as nat) by (nonlinear_arith);
    }
    while lo < hi
        invariant
            lo <= hi,
            lo as nat * lo as nat <= x as nat,
            (x as nat) < (hi as nat + 1) * (hi as nat + 1),
        decreases hi - lo,
    {
        let mid: u64 = (((lo as u128) + (hi as u128) + 1) / 2) as u64;
        proof {
            assert(mid as nat * mid as nat <= u128::MAX as nat) by (nonlinear_arith)
                requires
                    mid <= u64::MAX,
            ;
        }
        let sq: u128 = (mid as u128) * (mid as u128);
        if sq <= x {
            lo = mid;
        } else {
            hi = mid - 1;
        }
    }
    proof {
        lemma_sqrt_unique(x as nat, lo as nat);
    }
    lo
}

/// `2^k` as a `u64`.
pub fn pow2_u64(k: u32) -> (r: u64)
    requires
        k < 64,
    ensures
        r as nat == pow2(k as nat),
{
    let mut r: u64 = 1;
    let mut i: u32 = 0;
    proof {
        lemma2_to64();
    }
    while i < k
        invariant
            i <= k,
            k < 64,
            r as nat == pow2(i as nat),
        decreases k - i,
    {
        proof {
            lemma2_to64();
            lemma2_to64_rest();
            lemma_pow2_strictly_increases(i as nat, 63);
            lemma_pow2_unfold((i + 1) as nat);
        }
        r = r * 2;
        i = i + 1;
    }
    r
}

/// `2^k` as a `u128`.
pub fn pow2_u128(k: u32) -> (r: u128)
    requires
        k < 128,
    ensures
        r as nat == pow2(k as nat),
{
    let mut r: u128 = 1;
    let mut i: u32 = 0;
    proof {
        lemma2_to64();
    }
    while i < k
        invariant
            i <= k,
            k < 128,
            r as nat == pow2(i as nat),
        decreases k - i,
    {
        proof {
            lemma2_to64();
            lemma2_to64_rest();
            lemma_pow2_adds(63, 64);
            lemma_pow2_strictly_increases(i as nat, 127);
            lemma_pow2_unfold((i + 1) as nat);
        }
        r = r * 2;
        i = i + 1;
    }
    r
}

/// `p` is the floor of the base-2 logarithm of `x`.
pub open spec fn is_log2(x: nat, p: nat) -> bool {
    pow2(p) <= x && x < pow2(p + 1)
}

/// Floor of the base-2 logarithm of `x`, for `x >= 1`.
pub open spec fn floor_log2(x: nat) -> nat {
    choose|p: nat| #[trigger] is_log2(x, p)
}

/// The floor base-2 logarithm is unique.
pub proof fn lemma_log2_unique(x: nat, p: nat)
    requires
        is_log2(x, p),
    ensures
        floor_log2(x) == p,
{
    let c = floor_log2(x);
    assert(is_log2(x, c));
    if c < p {
        lemma_pow2_strictly_increases((c + 1) as nat, (p + 1) as nat);
        assert(pow2(c + 1) <= pow2(p)) by {
            if c + 1 < p {
                lemma_pow2_strictly_increases((c + 1) as nat, p);
            }
        }
    }
    if p < c {
        assert(pow2(p + 1) <= pow2(c)) by {
            if p + 1 < c {
                lemma_pow2_strictly_increases((p + 1) as nat, c);
            }
        }
    }
}

/// Position of the highest set bit: the floor base-2 logarithm.
pub fn msb_u128(x: u128) -> (p: u32)
    requires
        x >= 1,
    ensures
        p < 128,
        is_log2(x as nat, p as nat),
        floor_log2(x as nat) == p as nat,
{
    let mut m: u128 = x;
    let mut p: u32 = 0;
    proof {
        lemma_pow2_pos(0);
        assert(pow2(0) == 1) by {
            lemma2_to64();
        }
    }
    while m >= 2
        invariant
            x >= 1,
            m >= 1,
            p < 128,
            m as nat == x as nat / pow2(p as nat),
        decreases m,
    {
        proof {
            lemma_pow2_pos(p as nat);
            lemma_div_denominator(x as int, pow2(p as nat) as int, 2);
            lemma_pow2_unfold((p + 1) as nat);
            // p stays below 128: 2^p <= x < 2^128
            lemma_pow2_pos((p + 1) as nat);
            lemma_fundamental_div_mod(x as int, pow2(p as nat) as int);
            assert(pow2(p as nat) * 2 <= pow2(p as nat) * (x as nat / pow2(p as nat))) by (nonlinear_arith)
                requires
                    x as nat / pow2(p as nat) >= 2,
                    pow2(p as nat) >= 1,
            ;
            assert(pow2((p + 1) as nat) <= x as nat);
            if p + 1 >= 128 {
                lemma2_to64();
                lemma_pow2_adds(64, 64);
                if p + 1 > 128 {
                    lemma_pow2_strictly_increases(128, (p + 1) as nat);
                }
                assert(false);
            }
        }
        m = m / 2;
        p = p + 1;
    }
    proof {
        lemma_pow2_pos(p as nat);
        lemma_fundamental_div_mod(x as int, pow2(p as nat) as int);
        lemma_pow2_unfold((p + 1) as nat);
        assert(x as nat == pow2(p as nat) * (x as nat / pow2(p as nat)) + x as nat % pow2(p as nat));
        assert(is_log2(x as nat, p as nat));
        lemma_log2_unique(x as nat, p as nat);
    }
    p
}

/// One squaring step of the binary-digit algorithm for `log2`.
pub open spec fn lg_sq(m: nat) -> nat {
    (m * m) / (FIX_ONE as nat)
}

/// The renormalized mantissa after one squaring step.
pub open spec fn lg_next(m: nat) -> nat {
    if lg_sq(m) >= 2 * FIX_ONE as nat {
        lg_sq(m) / 2
    } else {
        lg_sq(m)
    }
}

/// The fraction bit produced by one squaring step.
pub open spec fn lg_bit(m: nat) -> nat {
    if lg_sq(m) >= 2 * FIX_ONE as nat {
        1nat
    } else {
        0nat
    }
}

/// Mantissa after `k` squaring steps.
pub open spec fn lg_m(m: nat, k: nat) -> nat
    decreases k,
{
    if k == 0 {
        m
    } else {
        lg_next(lg_m(m, (k - 1) as nat))
    }
}

/// The first `k` fraction bits of `log2(m / FIX_ONE)`, as an integer.
pub open spec fn lg_frac(m: nat, k: nat) -> nat
    decreases k,
{
    if k == 0 {
        0
    } else {
        2 * lg_frac(m, (k - 1) as nat) + lg_bit(lg_m(m, (k - 1) as nat))
    }
}

/// The squaring step keeps the mantissa in `[FIX_ONE, 2*FIX_ONE)`.
proof fn lemma_lg_next_range(m: nat)
    requires
        FIX_ONE as nat <= m < 2 * FIX_ONE as nat,
    ensures
        FIX_ONE as nat <= lg_next(m) < 2 * FIX_ONE as nat,
        lg_sq(m) < 4 * FIX_ONE as nat,
{
    let one = FIX_ONE as nat;
    assert(one * one <= m * m) by (nonlinear_arith)
        requires
            one <= m,
    ;
    assert(m * m < (2 * one) * (2 * one)) by (nonlinear_arith)
        requires
            m < 2 * one,
    ;
    lemma_div_multiples_vanish(one as int, one as int);
    lemma_div_is_ordered((one * one) as int, (m * m) as int, one as int);
    assert(lg_sq(m) >= one);
    assert((2 * one) * (2 * one) == one * (4 * one)) by (nonlinear_arith);
    lemma_multiply_divide_lt((m * m) as int, one as int, (4 * one) as int);
    assert(lg_sq(m) < 4 * one);
}

/// Thirty-two fraction bits of `log2(m0 / FIX_ONE)` by repeated squaring.
pub fn lg_frac32(m0: u64) -> (r: u64)
    requires
        FIX_ONE as u64 <= m0,
        m0 < 2 * (FIX_ONE as u64),
    ensures
        r as nat == lg_frac(m0 as nat, 32),
        r < FIX_ONE as u64,
{
    let mut m: u64 = m0;
    let mut acc: u64 = 0;
    let mut k: u32 = 0;
    proof {
        lemma2_to64();
    }
    while k < 32
        invariant
            k <= 32,
            m as nat == lg_m(m0 as nat, k as nat),
            acc as nat == lg_frac(m0 as nat, k as nat),
            FIX_ONE as nat <= (m as nat) < 2 * FIX_ONE as nat,
            (acc as nat) < pow2(k as nat),
            pow2(32) == 0x1_0000_0000,
        decreases 32 - k,
    {
        proof {
            lemma_lg_next_range(m as nat);
            assert((m as nat * m as nat) < u128::MAX as nat) by (nonlinear_arith)
                requires
                    (m as nat) < 0x2_0000_0000,
            ;
            lemma_pow2_unfold((k + 1) as nat);
            lemma_pow2_strictly_increases(k as nat, 32);
        }
        let sq: u128 = (m as u128) * (m as u128);
        let s128: u128 = sq / (FIX_ONE as u128);
        let s: u64 = s128 as u64;
        if s >= 2 * (FIX_ONE as u64) {
            m = s / 2;
            acc = 2 * acc + 1;
        } else {
            m = s;
            acc = 2 * acc;
        }
        k = k + 1;
    }
    acc
}

/// Mantissa of `x` normalized into `[FIX_ONE, 2*FIX_ONE)`.
pub open spec fn mant32(x: nat) -> nat {
    let p = floor_log2(x);
    if p >= 32 {
        x / pow2((p - 32) as nat)
    } else {
        x * pow2((32 - p) as nat)
    }
}

/// `log2(x)` in Q32.32, for a raw (unscaled) integer `x >= 1`.
pub open spec fn log2_core_spec(x: nat) -> int {
    floor_log2(x) * FIX_ONE as int + lg_frac(mant32(x), 32)
}

/// `log2(x)` in Q32.32 for a raw integer: integer part from the highest set
/// bit, fraction bits by repeated squaring of the mantissa.
pub fn log2_core(x: u128) -> (r: i64)
    requires
        x >= 1,
    ensures
        r as int == log2_core_spec(x as nat),
        is_log2(x as nat, floor_log2(x as nat)),
        floor_log2(x as nat) * FIX_ONE as int <= r as int,
        (r as int) < (floor_log2(x as nat) + 1) * FIX_ONE as int,
        0 <= r < 0x80_0000_0000,
{
    let p = msb_u128(x);
    let m: u64;
    if p >= 32 {
        let d = pow2_u128(p - 32);
        proof {
            lemma2_to64();
            lemma2_to64_rest();
            lemma_pow2_pos((p - 32) as nat);
            // lower bound: x / 2^(p-32) >= 2^p / 2^(p-32) == 2^32
            lemma_pow2_adds((p - 32) as nat, 32);
            lemma_div_multiples_vanish(pow2(32) as int, pow2((p - 32) as nat) as int);
            lemma_div_is_ordered(pow2(p as nat) as int, x as int, pow2((p - 32) as nat) as int);
            // upper bound: x < 2^(p+1) == 2^(p-32) * 2^33
            lemma_pow2_adds((p - 32) as nat, 33);
            lemma_multiply_divide_lt(x as int, pow2((p - 32) as nat) as int, pow2(33) as int);
        }
        m = (x / d) as u64;
    } else {
        let f = pow2_u64(32 - p);
        proof {
            lemma_pow2_pos((32 - p) as nat);
            lemma_pow2_adds(p as nat, (32 - p) as nat);
            lemma_pow2_adds((p + 1) as nat, (32 - p) as nat);
            lemma2_to64();
            lemma2_to64_rest();
            if p + 1 < 32 {
                lemma_pow2_strictly_increases((p + 1) as nat, 32);
            }
            assert(x as nat * pow2((32 - p) as nat) >= pow2(p as nat) * pow2((32 - p) as nat))
                by (nonlinear_arith)
                requires
                    x as nat >= pow2(p as nat),
            ;
            assert(x as nat * pow2((32 - p) as nat) < pow2((p + 1) as nat) * pow2((32 - p) as nat))
                by (nonlinear_arith)
                requires
                    (x as nat) < pow2((p + 1) as nat),
                    pow2((32 - p) as nat) >= 1,
            ;
            assert(pow2((p + 1 + (32 - p)) as nat) == pow2(33));
        }
        m = (x as u64) * f;
    }
    proof {
        if p >= 32 {
            assert(m as nat == mant32(x as nat));
        } else {
            assert(m as nat == mant32(x as nat));
        }
    }
    let frac = lg_frac32(m);
    proof {
        assert(p as nat * FIX_ONE as nat <= 127 * FIX_ONE as nat) by (nonlinear_arith)
            requires
                p as nat <= 127,
        ;
    }
    (p as i64) * FIX_ONE + (frac as i64)
}

/// The square-root chain value `2^(2^-k)` in Q32.32, with floor rounding.
pub open spec fn ex_a(k: nat) -> nat
    decreases k,
{
    if k == 0 {
        2 * FIX_ONE as nat
    } else {
        floor_sqrt(ex_a((k - 1) as nat) * FIX_ONE as nat)
    }
}

/// Bit `k` (from the highest) of a 32-bit fraction `f`.
pub open spec fn fbit(f: nat, k: nat) -> nat
    recommends
        1 <= k <= 32,
{
    (f / pow2((32 - k) as nat)) % 2
}

/// Partial product of the chain values selected by the top `k` bits of `f`:
/// `2^(f / FIX_ONE)` in Q32.32 after `k` steps, with floor rounding and a cap
/// at 2.0.
pub open spec fn ex_r(f: nat, k: nat) -> nat
    decreases k,
{
    if k == 0 {
        FIX_ONE as nat
    } else {
        let prev = ex_r(f, (k - 1) as nat);
        let stepped = if fbit(f, k) == 1 {
            (prev * ex_a(k)) / (FIX_ONE as nat)
        } else {
            prev
        };
        if stepped > 2 * FIX_ONE as nat {
            2 * FIX_ONE as nat
        } else {
            stepped
        }
    }
}

/// The chain values stay in `[FIX_ONE, 2*FIX_ONE]`.
proof fn lemma_ex_a_range(k: nat)
    ensures
        FIX_ONE as nat <= ex_a(k) <= 2 * FIX_ONE as nat,
    decreases k,
{
    let one = FIX_ONE as nat;
    if k == 0 {
    } else {
        lemma_ex_a_range((k - 1) as nat);
        let prev = ex_a((k - 1) as nat);
        assert(one * one <= prev * one) by (nonlinear_arith)
            requires
                one <= prev,
        ;
        assert(prev * one <= (2 * one) * one) by (nonlinear_arith)
            requires
                prev <= 2 * one,
        ;
        assert((2 * one) * one < (2 * one) * (2 * one)) by (nonlinear_arith)
            requires
                one >= 1,
        ;
        lemma_sqrt_bounds(prev * one, one, 2 * one);
    }
}

/// The partial products stay in `[FIX_ONE, 2*FIX_ONE]`.
proof fn lemma_ex_r_range(f: nat, k: nat)
    ensures
        FIX_ONE as nat <= ex_r(f, k) <= 2 * FIX_ONE as nat,
    decreases k,
{
    let one = FIX_ONE as nat;
    if k == 0 {
    } else {
        lemma_ex_r_range(f, (k - 1) as nat);
        lemma_ex_a_range(k);
        let prev = ex_r(f, (k - 1) as nat);
        if fbit(f, k) == 1 {
            assert(prev * one <= prev * ex_a(k)) by (nonlinear_arith)
                requires
                    one <= ex_a(k),
                    prev >= 0,
            ;
            lemma_div_multiples_vanish(prev as int, one as int);
            lemma_div_is_ordered((prev * one) as int, (prev * ex_a(k)) as int, one as int);
        }
    }
}

/// `2^(f / FIX_ONE)` in Q32.32 for a 32-bit fraction `f`, by the square-root
/// chain: multiply in `2^(2^-k)` for every set bit of `f`.
pub fn exp2_frac(f: u32) -> (r: u64)
    ensures
        r as nat == ex_r(f as nat, 32),
        FIX_ONE as u64 <= r <= 2 * FIX_ONE as u64,
{
    let one64: u64 = FIX_ONE as u64;
    let mut a: u64 = 2 * one64;
    let mut r: u64 = one64;
    let mut k: u32 = 0;
    while k < 32
        invariant
            k <= 32,
            a as nat == ex_a(k as nat),
            r as nat == ex_r(f as nat, k as nat),
            FIX_ONE as nat <= a as nat <= 2 * FIX_ONE as nat,
            FIX_ONE as nat <= r as nat <= 2 * FIX_ONE as nat,
        decreases 32 - k,
    {
        let one = FIX_ONE as u64;
        proof {
            let onen = FIX_ONE as nat;
            assert(a as nat * onen <= u128::MAX as nat) by (nonlinear_arith)
                requires
                    a as nat <= 2 * onen,
                    onen == 0x1_0000_0000,
            ;
            assert(onen * onen <= a as nat * onen) by (nonlinear_arith)
                requires
                    onen <= a as nat,
            ;
            assert(a as nat * onen <= (2 * onen) * onen) by (nonlinear_arith)
                requires
                    a as nat <= 2 * onen,
            ;
            assert((2 * onen) * onen < (2 * onen) * (2 * onen)) by (nonlinear_arith)
                requires
                    onen >= 1,
            ;
            lemma_sqrt_bounds(a as nat * onen, onen, 2 * onen);
        }
        let anew: u64 = usqrt((a as u128) * (one as u128));
        let kk = k + 1;
        proof {
            lemma_pow2_pos((32 - kk) as nat);
        }
        let dbit: u64 = (f as u64 / pow2_u64(32 - kk)) % 2;
        proof {
            assert(anew as nat == ex_a(kk as nat));
            assert(dbit as nat == fbit(f as nat, kk as nat));
            lemma_ex_a_range(kk as nat);
        }
        if dbit == 1 {
            proof {
                let onen = FIX_ONE as nat;
                assert((2 * onen) * (2 * onen) <= u128::MAX as nat) by (nonlinear_arith)
                    requires
                        onen == 0x1_0000_0000,
                ;
                assert(r as nat * anew as nat <= (2 * onen) * (2 * onen)) by (nonlinear_arith)
                    requires
                        r as nat <= 2 * onen,
                        anew as nat <= 2 * onen,
                ;
                assert(onen * onen <= r as nat * anew as nat) by (nonlinear_arith)
                    requires
                        onen <= r as nat,
                        onen <= anew as nat,
                ;
                assert((2 * onen) * (2 * onen) == onen * (4 * onen)) by (nonlinear_arith);
                lemma_div_multiples_vanish(onen as int, onen as int);
                lemma_div_multiples_vanish((4 * onen) as int, onen as int);
                lemma_div_is_ordered((onen * onen) as int, (r as nat * anew as nat) as int,
                    onen as int);
                lemma_div_is_ordered((r as nat * anew as nat) as int,
                    (onen * (4 * onen)) as int, onen as int);
            }
            let p: u128 = (r as u128) * (anew as u128);
            let q: u128 = p / (FIX_ONE as u128);
            let stepped: u64 = q as u64;
            if stepped > 2 * one {
                r = 2 * one;
            } else {
                r = stepped;
            }
        }
        a = anew;
        k = kk;
    }
    r
}

/// A zero fraction selects no chain value: the partial product stays 1.
proof fn lemma_ex_r_zero(k: nat)
    ensures
        ex_r(0, k) == FIX_ONE as nat,
    decreases k,
{
    if k > 0 {
        lemma_ex_r_zero((k - 1) as nat);
        lemma_pow2_pos((32 - k) as nat);
        vstd::arithmetic::div_mod::lemma_div_of0(pow2((32 - k) as nat) as int);
        assert(fbit(0, k) == 0);
    }
}

/// The exponential is exact at zero: `2^0` is exactly 1.
pub proof fn lemma_exp2_at_zero()
    ensures
        exp2_spec(0) == FIX_ONE as int,
{
    lemma_ex_r_zero(32);
    lemma2_to64();
    assert((32 * FIX_ONE as int) / FIX_ONE as int == 32) by {
        lemma_div_multiples_vanish(32, FIX_ONE as int);
    }
    assert((32 * FIX_ONE as int) % FIX_ONE as int == 0) by {
        lemma_fundamental_div_mod(32 * FIX_ONE as int, FIX_ONE as int);
        lemma_div_multiples_vanish(32, FIX_ONE as int);
    }
    assert(ex_r(0, 32) as int * pow2(0) == FIX_ONE as int) by (nonlinear_arith)
        requires
            ex_r(0, 32) == FIX_ONE as nat,
            pow2(0) == 1,
    ;
    assert(crate::fixed::sat64(FIX_ONE as int) == FIX_ONE as int);
}

/// `2^(x / FIX_ONE)` in Q32.32, saturated into the `i64` range.
pub open spec fn exp2_spec(x: int) -> int {
    let y = x + 32 * FIX_ONE as int;
    let n = y / FIX_ONE as int;
    let f = y % FIX_ONE as int;
    let c = ex_r(f as nat, 32) as int;
    if n >= 32 {
        crate::fixed::sat64(c * pow2((n - 32) as nat))
    } else {
        c / pow2((32 - n) as nat) as int
    }
}

/// `2^(x / FIX_ONE)` as a positive fixed-point number: the zoom factor of a
/// scroll gesture.
pub fn exp2_fix(x: crate::fixed::Fix) -> (r: crate::fixed::Fix)
    requires
        -32 * FIX_ONE as int <= x.v() <= 32 * FIX_ONE as int,
    ensures
        r.v() == exp2_spec(x.v()),
        1 <= r.v(),
{
    let y: i64 = x.bits + 32 * FIX_ONE;
    let yu: u64 = y as u64;
    let n: u64 = yu / (FIX_ONE as u64);
    let f: u32 = (yu % (FIX_ONE as u64)) as u32;
    let c: u64 = exp2_frac(f);
    proof {
        lemma2_to64();
        lemma_ex_r_range(f as nat, 32);
    }
    if n >= 32 {
        let sh: u128 = pow2_u128((n - 32) as u32);
        proof {
            assert(n <= 64);
            lemma_pow2_strictly_increases((n - 32) as nat, 33);
            lemma2_to64_rest();
            assert(c as nat * sh as nat <= (2 * FIX_ONE as nat) * 0x2_0000_0000) by (nonlinear_arith)
                requires
                    c as nat <= 2 * FIX_ONE as nat,
                    sh as nat <= 0x2_0000_0000,
            ;
            assert(c as nat * sh as nat >= c as nat * 1) by (nonlinear_arith)
                requires
                    sh as nat >= 1,
                    c as nat >= 0,
            ;
            lemma_pow2_pos((n - 32) as nat);
        }
        let p: u128 = (c as u128) * sh;
        let bits = crate::fixed::from_mag(p, false);
        crate::fixed::Fix { bits }
    } else {
        let d: u64 = pow2_u64((32 - n) as u32);
        proof {
            lemma_pow2_pos((32 - n) as nat);
            assert(pow2((32 - n) as nat) <= pow2(32)) by {
                if 32 - n < 32 {
                    lemma_pow2_strictly_increases((32 - n) as nat, 32);
                }
            }
            lemma_div_is_ordered(pow2(32) as int, c as int, pow2((32 - n) as nat) as int);
            lemma_div_multiples_vanish(1, pow2(32) as int);
            assert(pow2(32) as int / pow2(32) as int == 1);
            lemma_div_denominator_helper(c as int, pow2((32 - n) as nat) as int, pow2(32) as int);
        }
        let q: u64 = c / d;
        crate::fixed::Fix { bits: q as i64 }
    }
}

/// Division by a larger power of two gives a smaller quotient: glue for the
/// lower bound of the small-exponent branch of `exp2_fix`.
proof fn lemma_div_denominator_helper(x: int, small: int, big: int)
    requires
        0 < small <= big,
        x >= big,
    ensures
        x / small >= 1,
{
    lemma_div_is_ordered(big, x, small);
    lemma_div_is_ordered(small, big, small);
    vstd::arithmetic::div_mod::lemma_div_by_self(small);
}

} // verus!
