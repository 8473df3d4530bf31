//! Scalar Q15 fixed-point arithmetic.
//!
//! All sample values, gain factors and filter coefficients are Q15 fixed
//! point: an `i32` value `v` stands for the real number `v / 32768`. The
//! arithmetic here is the truncating (round-toward-zero) kind that the
//! buffer operations are specified against: `tdiv` is the mathematical
//! counterpart of Rust's `/` on signed integers, and `q15_mul` is a Q15
//! multiply (wide product, then truncating division by the scale).

use vstd::prelude::*;
use vstd::arithmetic::div_mod::{
    lemma_div_is_ordered, lemma_div_nonincreasing, lemma_div_pos_is_pos,
    lemma_fundamental_div_mod_converse, lemma_div_multiples_vanish, lemma_div_denominator,
};

verus! {

/// One in Q15: the fixed-point value standing for `1.0`.
pub const SCALE: i32 = 32768;

/// Upper clipping bound: the Q15 value of `1.0`.
pub const CLIP_MAX: i32 = 32768;

/// Lower clipping bound: the Q15 value of `-1.0`.
pub const CLIP_MIN: i32 = -32768;

/// Largest 16-bit PCM sample value; full scale on the way out to PCM.
pub const PCM_MAX: i32 = 32767;

/// Smallest 16-bit PCM sample value.
pub const PCM_MIN: i32 = -32768;

/// Absolute value.
pub open spec fn abs_of(a: int) -> int {
    if a < 0 {
        -a
    } else {
        a
    }
}

/// Truncating (round-toward-zero) division, the semantics of `/` on
/// Rust's signed integers. Meaningful for `b > 0`.
pub open spec fn tdiv(a: int, b: int) -> int {
    if a >= 0 {
        a / b
    } else {
        -((-a) / b)
    }
}

/// Q15 multiply: wide product, then truncating division by the scale.
pub open spec fn q15_mul(x: int, g: int) -> int {
    tdiv(x * g, SCALE as int)
}

/// Clamp a sample into the nominal range `[-1.0, 1.0]` (Q15 `[-32768, 32768]`).
pub open spec fn clamp_unit(x: int) -> int {
    if x < CLIP_MIN as int {
        CLIP_MIN as int
    } else if x > CLIP_MAX as int {
        CLIP_MAX as int
    } else {
        x
    }
}

/// The 16-bit PCM value of a sample: clamp to nominal range, scale by the
/// asymmetric full-scale factor `32767 / 32768`, truncate toward zero.
pub open spec fn pcm_of_sample(x: int) -> int {
    tdiv(clamp_unit(x) * (PCM_MAX as int), SCALE as int)
}

/// `tdiv` undoes an exact multiple: `tdiv(k * b, b) == k`.
pub proof fn lemma_tdiv_mul_exact(k: int, b: int)
    requires
        b > 0,
    ensures
        tdiv(k * b, b) == k,
{
    if k >= 0 {
        assert(k * b >= 0 && k * b == b * k) by (nonlinear_arith)
            requires
                k >= 0,
                b > 0,
        ;
        lemma_div_multiples_vanish(k, b);
    } else {
        assert(k * b < 0 && -(k * b) == b * (-k)) by (nonlinear_arith)
            requires
                k < 0,
                b > 0,
        ;
        lemma_div_multiples_vanish(-k, b);
    }
}

/// Truncating division never grows the magnitude.
pub proof fn lemma_tdiv_shrinks(a: int, b: int)
    requires
        b > 0,
    ensures
        abs_of(tdiv(a, b)) <= abs_of(a),
        a >= 0 ==> tdiv(a, b) >= 0,
        a < 0 ==> tdiv(a, b) <= 0,
{
    if a >= 0 {
        lemma_div_nonincreasing(a, b);
        lemma_div_pos_is_pos(a, b);
    } else {
        lemma_div_nonincreasing(-a, b);
        lemma_div_pos_is_pos(-a, b);
    }
}

/// Truncating division is monotone in the magnitude of the dividend.
pub proof fn lemma_tdiv_mono_abs(a1: int, a2: int, b: int)
    requires
        b > 0,
        abs_of(a1) <= abs_of(a2),
    ensures
        abs_of(tdiv(a1, b)) <= abs_of(tdiv(a2, b)),
{
    lemma_tdiv_shrinks(a1, b);
    lemma_tdiv_shrinks(a2, b);
    lemma_div_is_ordered(abs_of(a1), abs_of(a2), b);
    if a1 >= 0 {
        if a2 >= 0 {
            lemma_div_is_ordered(a1, a2, b);
        } else {
            lemma_div_is_ordered(a1, -a2, b);
        }
    } else {
        if a2 >= 0 {
            lemma_div_is_ordered(-a1, a2, b);
        } else {
            lemma_div_is_ordered(-a1, -a2, b);
        }
    }
}

/// A common factor of dividend and divisor cancels out of `tdiv`.
pub proof fn lemma_tdiv_cancel(a: int, b: int, k: int)
    requires
        b > 0,
        k > 0,
    ensures
        tdiv(k * a, k * b) == tdiv(a, b),
{
    if a >= 0 {
        assert(k * a >= 0) by (nonlinear_arith)
            requires
                k > 0,
                a >= 0,
        ;
        lemma_div_denominator(k * a, k, b);
        lemma_div_multiples_vanish(a, k);
        assert(k * a == a * k) by (nonlinear_arith);
        assert((k * a) / (k * b) == ((k * a) / k) / b);
    } else {
        assert(-(k * a) == k * (-a)) by (nonlinear_arith);
        assert(k * (-a) >= 0) by (nonlinear_arith)
            requires
                k > 0,
                a < 0,
        ;
        lemma_div_denominator(k * (-a), k, b);
        lemma_div_multiples_vanish(-a, k);
        assert(k * (-a) == (-a) * k) by (nonlinear_arith);
    }
}

/// `tdiv(a, b) == q` exactly when `q * b` sits within `b` of `a`, on the
/// zero side.
pub proof fn lemma_tdiv_is(a: int, b: int, q: int)
    requires
        b > 0,
        a >= 0 ==> q * b <= a < (q + 1) * b,
        a < 0 ==> (q - 1) * b < a <= q * b,
    ensures
        tdiv(a, b) == q,
{
    if a >= 0 {
        assert((q + 1) * b == q * b + b) by (nonlinear_arith);
        lemma_fundamental_div_mod_converse(a, b, q, a - q * b);
    } else {
        assert((-q) * b == -(q * b) && (q - 1) * b == q * b - b) by (nonlinear_arith);
        lemma_fundamental_div_mod_converse(-a, b, -q, -a - (-q) * b);
    }
}

/// Truncating division on `i64`, the executable counterpart of `tdiv`.
pub fn div_trunc_i64(a: i64, b: i64) -> (q: i64)
    requires
        b > 0,
        a != i64::MIN,
    ensures
        q as int == tdiv(a as int, b as int),
{
    proof {
        lemma_tdiv_shrinks(a as int, b as int);
    }
    if a >= 0 {
        ((a as u64) / (b as u64)) as i64
    } else {
        let m = ((-a) as u64) / (b as u64);
        -(m as i64)
    }
}

/// Truncating division on `i128`, for wide filter accumulators.
pub fn div_trunc_i128(a: i128, b: i128) -> (q: i128)
    requires
        b > 0,
        a != i128::MIN,
    ensures
        q as int == tdiv(a as int, b as int),
{
    proof {
        lemma_tdiv_shrinks(a as int, b as int);
    }
    if a >= 0 {
        ((a as u128) / (b as u128)) as i128
    } else {
        let m = ((-a) as u128) / (b as u128);
        -(m as i128)
    }
}

/// Q15 multiply of a sample by a gain factor; the wide result is exact.
pub fn q15_mul_i32(x: i32, g: i32) -> (r: i64)
    ensures
        r as int == q15_mul(x as int, g as int),
        abs_of(r as int) <= 0x4000_0000_0000_0000,
{
    proof {
        assert((x as int) * (g as int) <= 0x4000_0000_0000_0000
            && (x as int) * (g as int) >= -0x4000_0000_0000_0000) by (nonlinear_arith)
            requires
                -0x8000_0000 <= x as int <= 0x7fff_ffff,
                -0x8000_0000 <= g as int <= 0x7fff_ffff,
        ;
    }
    let p: i64 = (x as i64) * (g as i64);
    proof {
        lemma_tdiv_shrinks(p as int, SCALE as int);
    }
    div_trunc_i64(p, SCALE as i64)
}

} // verus!
