//! Algebraic laws of the buffer operations, proved over their
//! mathematical models.
//!
//! Truncating Q15 arithmetic is not exact in general, so the gain
//! round-trip laws hold for gain pairs whose real product is exactly
//! unity and whose first factor is a whole multiple of the scale (such
//! as `2.0` then `0.5`); the laws on mixing, PCM round trips,
//! normalization and RMS need no such restriction.

use vstd::prelude::*;
use vstd::arithmetic::div_mod::{lemma_div_multiples_vanish, lemma_fundamental_div_mod};

use crate::chain_seq;
use crate::fixed::{
    abs_of, clamp_unit, lemma_tdiv_cancel, lemma_tdiv_is, lemma_tdiv_mono_abs,
    lemma_tdiv_mul_exact, pcm_of_sample, q15_mul, tdiv, PCM_MAX, PCM_MIN, SCALE,
};
use crate::unsafe_primitives::{
    gain_seq, lemma_peak_attained, lemma_peak_ge, lemma_sqrt_floor_unique, mean_sq, mix_seq,
    norm_seq, norm_val, peak, rms_spec, sum_sq,
};

verus! {

/// Applying gain `g1` and then gain `g2` restores a sample exactly,
/// whenever the two gains multiply to exactly unity (`g1 * g2` is the
/// square of the scale) and `g1` is a whole multiple of the scale, so
/// that neither step truncates.
pub proof fn law_gain_inverse_sample(x: int, g1: int, g2: int)
    requires
        g1 != 0,
        g1 % (SCALE as int) == 0,
        g1 * g2 == (SCALE as int) * (SCALE as int),
    ensures
        q15_mul(q15_mul(x, g1), g2) == x,
{
    let sc = SCALE as int;
    let k = g1 / sc;
    lemma_fundamental_div_mod(g1, sc);
    assert(g1 == sc * k);
    assert(x * g1 == (x * k) * sc) by (nonlinear_arith)
        requires
            g1 == sc * k,
    ;
    lemma_tdiv_mul_exact(x * k, sc);
    assert(q15_mul(x, g1) == x * k);
    assert(k * g2 == sc) by (nonlinear_arith)
        requires
            g1 == sc * k,
            g1 * g2 == sc * sc,
            sc > 0,
    ;
    assert((x * k) * g2 == x * sc) by (nonlinear_arith)
        requires
            k * g2 == sc,
    ;
    lemma_tdiv_mul_exact(x, sc);
}

/// Applying gain `g1` and then gain `g2` to a whole buffer restores it,
/// under the same exactness conditions as the sample-level law.
pub proof fn law_gain_inverse_buffer(s: Seq<int>, g1: int, g2: int)
    requires
        g1 != 0,
        g1 % (SCALE as int) == 0,
        g1 * g2 == (SCALE as int) * (SCALE as int),
    ensures
        gain_seq(gain_seq(s, g1), g2) == s,
{
    assert forall|i: int| 0 <= i < s.len() implies gain_seq(gain_seq(s, g1), g2)[i] == s[i] by {
        law_gain_inverse_sample(s[i], g1, g2);
    }
    assert(gain_seq(gain_seq(s, g1), g2) =~= s);
}

/// Mixing `a` into `b` and then mixing in `a` scaled by gain `-1.0`
/// (whose Q15 factor is the negated scale) restores `b` exactly, for
/// buffers of any lengths.
pub proof fn law_mix_inverse(b: Seq<int>, a: Seq<int>)
    ensures
        mix_seq(mix_seq(b, a), gain_seq(a, -(SCALE as int))) == b,
{
    let sc = SCALE as int;
    assert forall|i: int| 0 <= i < a.len() implies gain_seq(a, -sc)[i] == -a[i] by {
        assert(a[i] * (-sc) == (-a[i]) * sc) by (nonlinear_arith);
        lemma_tdiv_mul_exact(-a[i], sc);
    }
    assert(mix_seq(mix_seq(b, a), gain_seq(a, -sc)) =~= b);
}

/// Converting a 16-bit PCM value to a sample and back lands within one
/// step of the original value: the round trip is lossy but bounded.
pub proof fn law_pcm_round_trip(v: int)
    requires
        PCM_MIN as int <= v <= PCM_MAX as int,
    ensures
        abs_of(pcm_of_sample(v) - v) <= 1,
{
    let sc = SCALE as int;
    let m = PCM_MAX as int;
    assert(clamp_unit(v) == v);
    if v == 0 {
        assert(0 * m == 0) by (nonlinear_arith);
        assert(pcm_of_sample(0) == tdiv(0, sc));
    } else if v > 0 {
        assert((v - 1) * sc <= v * m && v * m < (v + 1 - 1) * sc + sc && v * m >= 0)
            by (nonlinear_arith)
            requires
                0 < v <= m,
                sc == m + 1,
        ;
        lemma_tdiv_is(v * m, sc, v - 1);
    } else {
        assert((v + 1 - 1) * sc < v * m && v * m <= (v + 1) * sc && v * m < 0) by (nonlinear_arith)
            requires
                -sc <= v < 0,
                m > 0,
                sc == m + 1,
        ;
        lemma_tdiv_is(v * m, sc, v + 1);
    }
}

/// A peak bound: when every sample's magnitude is at most `t`, so is the
/// buffer's peak.
pub proof fn lemma_peak_le(s: Seq<int>, t: int)
    requires
        t >= 0,
        forall|i: int| 0 <= i < s.len() ==> abs_of(#[trigger] s[i]) <= t,
    ensures
        peak(s) <= t,
    decreases s.len(),
{
    if s.len() > 0 {
        assert forall|i: int| 0 <= i < s.len() - 1 implies abs_of(#[trigger] s.drop_last()[i])
            <= t by {
            assert(s.drop_last()[i] == s[i]);
        }
        lemma_peak_le(s.drop_last(), t);
        assert(abs_of(s[s.len() - 1]) <= t);
    }
}

/// Normalizing a buffer that is not silent leaves its peak absolute
/// sample value at exactly the Q15 value of `0.99` rounded toward zero;
/// a silent buffer is unchanged by the definition of [`norm_seq`].
pub proof fn law_normalize_peak(s: Seq<int>)
    requires
        peak(s) != 0,
    ensures
        peak(norm_seq(s)) == tdiv(99 * (SCALE as int), 100),
        peak(norm_seq(s)) == 32440,
{
    let p = peak(s);
    lemma_peak_ge(s);
    let m = 99 * (SCALE as int);
    let t = tdiv(m, 100);
    let ns = s.map_values(|x: int| norm_val(x, p));
    assert(norm_seq(s) == ns);
    lemma_tdiv_cancel(m, 100, p);
    assert(tdiv(p * m, p * 100) == t);
    assert forall|i: int| 0 <= i < ns.len() implies abs_of(#[trigger] ns[i]) <= t by {
        assert(abs_of(s[i] * m) <= abs_of(p * m)) by (nonlinear_arith)
            requires
                abs_of(s[i]) <= p,
                m > 0,
        ;
        lemma_tdiv_mono_abs(s[i] * m, p * m, 100 * p);
        assert(100 * p == p * 100);
        assert(ns[i] == tdiv(s[i] * m, 100 * p));
    }
    lemma_peak_attained(s);
    let i0 = choose|i: int| 0 <= i < s.len() && abs_of(#[trigger] s[i]) == p;
    assert((-p) * m == -(p * m)) by (nonlinear_arith);
    assert(abs_of(ns[i0]) == t);
    assert(t >= 0);
    lemma_peak_le(ns, t);
    lemma_peak_ge(ns);
    assert(peak(ns) >= abs_of(ns[i0]));
}

/// The sum of squares of a constant buffer.
pub proof fn lemma_sum_sq_const(v: int, n: nat)
    ensures
        sum_sq(Seq::new(n, |i: int| v)) == n * (v * v),
    decreases n,
{
    let s = Seq::new(n, |i: int| v);
    if n == 0 {
        assert(0 * (v * v) == 0) by (nonlinear_arith);
    } else {
        assert(s.drop_last() =~= Seq::new((n - 1) as nat, |i: int| v));
        lemma_sum_sq_const(v, (n - 1) as nat);
        assert(s.last() == v);
        assert(n * (v * v) == (n - 1) * (v * v) + v * v) by (nonlinear_arith);
    }
}

/// The RMS of a buffer of `n` identical samples `v` is exactly the
/// magnitude of `v`.
pub proof fn law_rms_constant(v: int, n: nat)
    requires
        n > 0,
    ensures
        rms_spec(Seq::new(n, |i: int| v)) == abs_of(v),
{
    let s = Seq::new(n, |i: int| v);
    lemma_sum_sq_const(v, n);
    lemma_div_multiples_vanish(v * v, n as int);
    assert(mean_sq(s) == v * v);
    let a = abs_of(v);
    assert(a * a == v * v) by (nonlinear_arith)
        requires
            a == v || a == -v,
    ;
    assert(v * v < (a + 1) * (a + 1)) by (nonlinear_arith)
        requires
            a * a == v * v,
            a >= 0,
    ;
    lemma_sqrt_floor_unique(v * v, a);
}

/// An effect chain of two gain stages whose product is exactly unity —
/// such as `2.0` then `0.5` — leaves any buffer unchanged.
pub proof fn law_chain_inverse(s: Seq<int>, g1: int, g2: int)
    requires
        g1 != 0,
        g1 % (SCALE as int) == 0,
        g1 * g2 == (SCALE as int) * (SCALE as int),
    ensures
        chain_seq(seq![g1, g2], s) == s,
{
    let gs = seq![g1, g2];
    let s1 = gain_seq(s, g1);
    let s2 = gain_seq(s1, g2);
    assert(gs.first() == g1);
    assert(gs.drop_first() =~= seq![g2]);
    assert(seq![g2].first() == g2);
    assert(seq![g2].drop_first() =~= Seq::<int>::empty());
    assert(chain_seq(Seq::<int>::empty(), s2) == s2);
    assert(chain_seq(seq![g2], s1) == s2);
    assert(chain_seq(gs, s) == s2);
    law_gain_inverse_buffer(s, g1, g2);
}

} // verus!
