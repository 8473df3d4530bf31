//! Buffer operations over Q15 samples.
//!
//! Every operation is a bounded, allocation-free pass over caller-owned
//! buffers, written as ordinary safe, bounds-checked code whatever the
//! `_unsafe` suffix of its public name suggests. Where two buffers of
//! different lengths meet (mix, copy, the sample-format conversions),
//! only the overlapping region — the shorter of the two lengths — is
//! processed, and the rest is left untouched.
//! No operation ever changes a buffer's length.

use vstd::prelude::*;

use crate::fixed;
use crate::fixed::{
    abs_of, clamp_unit, pcm_of_sample, q15_mul, tdiv, lemma_tdiv_mono_abs, lemma_tdiv_mul_exact,
    CLIP_MAX, CLIP_MIN, PCM_MAX, SCALE,
};

verus! {

/// The mathematical values of a sample buffer.
pub open spec fn sample_vals(s: Seq<i32>) -> Seq<int> {
    s.map_values(|x: i32| x as int)
}

/// Whether a value fits the sample type.
pub open spec fn fits_sample(x: int) -> bool {
    i32::MIN <= x <= i32::MAX
}

/// Whether every value of a sequence fits the sample type.
pub open spec fn all_fit(s: Seq<int>) -> bool {
    forall|i: int| 0 <= i < s.len() ==> fits_sample(#[trigger] s[i])
}

/// A buffer after gain: every sample scaled by the Q15 factor `g`.
pub open spec fn gain_seq(s: Seq<int>, g: int) -> Seq<int> {
    s.map_values(|x: int| q15_mul(x, g))
}

/// A destination after mixing `s` into `d`: sample-wise sums over the
/// overlapping region, the rest of `d` unchanged.
pub open spec fn mix_seq(d: Seq<int>, s: Seq<int>) -> Seq<int> {
    Seq::new(d.len(), |i: int| if i < s.len() { d[i] + s[i] } else { d[i] })
}

/// Apply the Q15 gain factor `gain` to every sample, in place.
///
/// `gain` is unconstrained: values above `32768` amplify, values below
/// attenuate, and negative values invert phase. The caller must ensure
/// the scaled values still fit the sample type.
pub fn apply_gain_unsafe(buffer: &mut Vec<i32>, gain: i32)
    requires
        all_fit(gain_seq(sample_vals(old(buffer)@), gain as int)),
    ensures
        final(buffer)@.len() == old(buffer)@.len(),
        sample_vals(final(buffer)@) == gain_seq(sample_vals(old(buffer)@), gain as int),
        forall|i: int|
            0 <= i < final(buffer)@.len() ==> final(buffer)@[i] as int == q15_mul(
                old(buffer)@[i] as int,
                gain as int,
            ),
{
    let ghost orig: Seq<i32> = buffer@;
    let n = buffer.len();
    let mut i: usize = 0;
    while i < n
        invariant
            n == orig.len(),
            buffer@.len() == n,
            i <= n,
            all_fit(gain_seq(sample_vals(orig), gain as int)),
            forall|j: int| i <= j < n ==> buffer@[j] == orig[j],
            forall|j: int|
                0 <= j < i ==> buffer@[j] as int == q15_mul(orig[j] as int, gain as int),
        decreases n - i,
    {
        let r = fixed::q15_mul_i32(buffer[i], gain);
        proof {
            assert(gain_seq(sample_vals(orig), gain as int)[i as int] == q15_mul(
                orig[i as int] as int,
                gain as int,
            ));
        }
        buffer[i] = r as i32;
        i += 1;
    }
    proof {
        assert(sample_vals(buffer@) =~= gain_seq(sample_vals(orig), gain as int));
    }
}

/// Mix `src` into `dest`, sample-wise addition over the overlapping
/// region; excess samples of either buffer are untouched.
pub fn mix_buffers_unsafe(dest: &mut Vec<i32>, src: &Vec<i32>)
    requires
        all_fit(mix_seq(sample_vals(old(dest)@), sample_vals(src@))),
    ensures
        final(dest)@.len() == old(dest)@.len(),
        sample_vals(final(dest)@) == mix_seq(sample_vals(old(dest)@), sample_vals(src@)),
        forall|i: int|
            0 <= i < final(dest)@.len() && i < src@.len() ==> final(dest)@[i] as int == old(dest)@[i] as int
                + src@[i] as int,
        forall|i: int| src@.len() <= i < final(dest)@.len() ==> final(dest)@[i] == old(dest)@[i],
{
    let ghost orig: Seq<i32> = dest@;
    let n = if dest.len() < src.len() {
        dest.len()
    } else {
        src.len()
    };
    let mut i: usize = 0;
    while i < n
        invariant
            n <= orig.len(),
            n <= src@.len(),
            n == orig.len() || n == src@.len(),
            buffer_prefix_mixed(dest@, orig, src@, n as int, i as int),
            i <= n,
            all_fit(mix_seq(sample_vals(orig), sample_vals(src@))),
        decreases n - i,
    {
        proof {
            assert(mix_seq(sample_vals(orig), sample_vals(src@))[i as int] == orig[i as int]
                + src@[i as int]);
        }
        let s: i64 = dest[i] as i64 + src[i] as i64;
        dest[i] = s as i32;
        i += 1;
    }
    proof {
        assert(sample_vals(dest@) =~= mix_seq(sample_vals(orig), sample_vals(src@)));
    }
}

/// Loop bookkeeping for [`mix_buffers_unsafe`]: the first `i` samples are
/// mixed, the rest still hold their original values.
spec fn buffer_prefix_mixed(
    cur: Seq<i32>,
    orig: Seq<i32>,
    src: Seq<i32>,
    n: int,
    i: int,
) -> bool {
    &&& cur.len() == orig.len()
    &&& 0 <= i <= n <= orig.len()
    &&& forall|j: int| i <= j < orig.len() ==> cur[j] == orig[j]
    &&& forall|j: int| 0 <= j < i ==> cur[j] as int == orig[j] as int + src[j] as int
}

/// Copy samples from `src` into `dest` over the overlapping region;
/// excess samples of `dest` are untouched. Borrowing rules make an
/// overlap of source and destination impossible.
pub fn copy_buffer_unsafe(src: &Vec<i32>, dest: &mut Vec<i32>)
    ensures
        final(dest)@.len() == old(dest)@.len(),
        forall|i: int| 0 <= i < final(dest)@.len() && i < src@.len() ==> final(dest)@[i] == src@[i],
        forall|i: int| src@.len() <= i < final(dest)@.len() ==> final(dest)@[i] == old(dest)@[i],
{
    let ghost orig: Seq<i32> = dest@;
    let n = if dest.len() < src.len() {
        dest.len()
    } else {
        src.len()
    };
    let mut i: usize = 0;
    while i < n
        invariant
            n <= orig.len(),
            n <= src@.len(),
            n == orig.len() || n == src@.len(),
            dest@.len() == orig.len(),
            i <= n,
            forall|j: int| i <= j < orig.len() ==> dest@[j] == orig[j],
            forall|j: int| 0 <= j < i ==> dest@[j] == src@[j],
        decreases n - i,
    {
        dest[i] = src[i];
        i += 1;
    }
}

/// Set every sample to zero.
pub fn clear_buffer_unsafe(buffer: &mut Vec<i32>)
    ensures
        final(buffer)@.len() == old(buffer)@.len(),
        forall|i: int| 0 <= i < final(buffer)@.len() ==> final(buffer)@[i] == 0i32,
{
    let n = buffer.len();
    let mut i: usize = 0;
    while i < n
        invariant
            buffer@.len() == n,
            i <= n,
            forall|j: int| 0 <= j < i ==> buffer@[j] == 0i32,
        decreases n - i,
    {
        buffer[i] = 0;
        i += 1;
    }
}

/// Clamp every sample into the nominal range `[-1.0, 1.0]` (Q15
/// `[-32768, 32768]`). Samples already in range are untouched.
pub fn clip_buffer_unsafe(buffer: &mut Vec<i32>)
    ensures
        final(buffer)@.len() == old(buffer)@.len(),
        forall|i: int|
            0 <= i < final(buffer)@.len() ==> final(buffer)@[i] as int == clamp_unit(old(buffer)@[i] as int),
        forall|i: int|
            0 <= i < final(buffer)@.len() ==> CLIP_MIN as int <= #[trigger] final(buffer)@[i] as int
                <= CLIP_MAX as int,
        forall|i: int|
            0 <= i < final(buffer)@.len() && CLIP_MIN <= old(buffer)@[i] <= CLIP_MAX ==> final(buffer)@[i]
                == old(buffer)@[i],
{
    let ghost orig: Seq<i32> = buffer@;
    let n = buffer.len();
    let mut i: usize = 0;
    while i < n
        invariant
            n == orig.len(),
            buffer@.len() == n,
            i <= n,
            forall|j: int| i <= j < n ==> buffer@[j] == orig[j],
            forall|j: int| 0 <= j < i ==> buffer@[j] as int == clamp_unit(orig[j] as int),
        decreases n - i,
    {
        let v = buffer[i];
        if v > CLIP_MAX {
            buffer[i] = CLIP_MAX;
        } else if v < CLIP_MIN {
            buffer[i] = CLIP_MIN;
        }
        i += 1;
    }
}

/// Widen 16-bit PCM samples to Q15 samples over the overlapping region.
///
/// A PCM value `v` stands for the amplitude `v / 32768`, which is exactly
/// the Q15 sample `v`: the conversion is the identity on values, so full
/// scale `+32767` lands just below `1.0`.
pub fn convert_i16_to_f32_unsafe(input: &Vec<i16>, output: &mut Vec<i32>)
    ensures
        final(output)@.len() == old(output)@.len(),
        forall|i: int|
            0 <= i < final(output)@.len() && i < input@.len() ==> final(output)@[i] as int == input@[i] as int,
        forall|i: int| input@.len() <= i < final(output)@.len() ==> final(output)@[i] == old(output)@[i],
{
    let ghost orig: Seq<i32> = output@;
    let n = if input.len() < output.len() {
        input.len()
    } else {
        output.len()
    };
    let mut i: usize = 0;
    while i < n
        invariant
            n <= orig.len(),
            n <= input@.len(),
            n == orig.len() || n == input@.len(),
            output@.len() == orig.len(),
            i <= n,
            forall|j: int| i <= j < orig.len() ==> output@[j] == orig[j],
            forall|j: int| 0 <= j < i ==> output@[j] as int == input@[j] as int,
        decreases n - i,
    {
        output[i] = input[i] as i32;
        i += 1;
    }
}

/// Narrow Q15 samples to 16-bit PCM over the overlapping region: clamp
/// each sample into `[-1.0, 1.0]`, scale by the asymmetric full-scale
/// factor `32767 / 32768`, and truncate toward zero.
pub fn convert_f32_to_i16_unsafe(input: &Vec<i32>, output: &mut Vec<i16>)
    ensures
        final(output)@.len() == old(output)@.len(),
        forall|i: int|
            0 <= i < final(output)@.len() && i < input@.len() ==> final(output)@[i] as int == pcm_of_sample(
                input@[i] as int,
            ),
        forall|i: int| input@.len() <= i < final(output)@.len() ==> final(output)@[i] == old(output)@[i],
{
    let ghost orig: Seq<i16> = output@;
    let n = if input.len() < output.len() {
        input.len()
    } else {
        output.len()
    };
    let mut i: usize = 0;
    while i < n
        invariant
            n <= orig.len(),
            n <= input@.len(),
            n == orig.len() || n == input@.len(),
            output@.len() == orig.len(),
            i <= n,
            forall|j: int| i <= j < orig.len() ==> output@[j] == orig[j],
            forall|j: int| 0 <= j < i ==> output@[j] as int == pcm_of_sample(input@[j] as int),
        decreases n - i,
    {
        let v = input[i];
        let clamped: i32 = if v > CLIP_MAX {
            CLIP_MAX
        } else if v < CLIP_MIN {
            CLIP_MIN
        } else {
            v
        };
        let wide: i64 = (clamped as i64) * (PCM_MAX as i64);
        let q = fixed::div_trunc_i64(wide, SCALE as i64);
        proof {
            lemma_tdiv_mono_abs(wide as int, (SCALE as int) * (PCM_MAX as int), SCALE as int);
            lemma_tdiv_mul_exact(PCM_MAX as int, SCALE as int);
            assert(abs_of(wide as int) <= (SCALE as int) * (PCM_MAX as int)
                && (PCM_MAX as int) * (SCALE as int) == (SCALE as int) * (PCM_MAX as int))
                by (nonlinear_arith)
                requires
                    -(SCALE as int) <= clamped as int <= SCALE as int,
                    wide as int == (clamped as int) * (PCM_MAX as int),
            ;
        }
        output[i] = q as i16;
        i += 1;
    }
}

/// The exponentially smoothed value at index `i`: the first sample passes
/// through, and each later output moves from the previous output toward
/// the input by the Q15 fraction `a`.
pub open spec fn lowpass_at(s: Seq<int>, a: int, i: int) -> int
    decreases i,
{
    if i <= 0 {
        s[0]
    } else {
        let p = lowpass_at(s, a, i - 1);
        p + tdiv(a * (s[i] - p), SCALE as int)
    }
}

/// A buffer after one-pole lowpass smoothing with coefficient `a`.
pub open spec fn lowpass_seq(s: Seq<int>, a: int) -> Seq<int> {
    Seq::new(s.len(), |i: int| lowpass_at(s, a, i))
}

/// One-pole recursive lowpass smoothing, in place: `y[0] = x[0]`, then
/// `y[i] = y[i-1] + cutoff * (x[i] - y[i-1])` in Q15. Buffers of length
/// zero or one pass through unchanged.
///
/// `cutoff` is the Q15 smoothing coefficient, in practice in `[0, 32768]`
/// though no range is enforced; the caller must ensure the smoothed
/// values still fit the sample type.
pub fn apply_lowpass_unsafe(buffer: &mut Vec<i32>, cutoff: i32)
    requires
        all_fit(lowpass_seq(sample_vals(old(buffer)@), cutoff as int)),
    ensures
        final(buffer)@.len() == old(buffer)@.len(),
        sample_vals(final(buffer)@) == lowpass_seq(sample_vals(old(buffer)@), cutoff as int),
        old(buffer)@.len() > 0 ==> final(buffer)@[0] == old(buffer)@[0],
{
    let ghost orig: Seq<i32> = buffer@;
    let ghost s: Seq<int> = sample_vals(orig);
    let n = buffer.len();
    if n == 0 {
        proof {
            assert(sample_vals(buffer@) =~= lowpass_seq(s, cutoff as int));
        }
        return ;
    }
    let mut prev: i32 = buffer[0];
    let mut i: usize = 1;
    while i < n
        invariant
            n == orig.len(),
            n >= 1,
            buffer@.len() == n,
            s == sample_vals(orig),
            1 <= i <= n,
            all_fit(lowpass_seq(s, cutoff as int)),
            prev as int == lowpass_at(s, cutoff as int, i - 1),
            forall|j: int| 0 <= j < i ==> buffer@[j] as int == lowpass_at(s, cutoff as int, j),
            forall|j: int| i <= j < n ==> buffer@[j] == orig[j],
        decreases n - i,
    {
        let diff: i64 = buffer[i] as i64 - prev as i64;
        proof {
            assert(abs_of((cutoff as int) * (diff as int)) <= 0x8000_0000_0000_0000)
                by (nonlinear_arith)
                requires
                    abs_of(cutoff as int) <= 0x8000_0000,
                    abs_of(diff as int) <= 0x1_0000_0000,
            ;
        }
        let wide: i128 = (cutoff as i128) * (diff as i128);
        let q = fixed::div_trunc_i128(wide, SCALE as i128);
        proof {
            fixed::lemma_tdiv_shrinks(wide as int, SCALE as int);
            assert(lowpass_seq(s, cutoff as int)[i as int] == lowpass_at(s, cutoff as int, i as int));
            assert(lowpass_at(s, cutoff as int, i as int) == prev as int + tdiv(
                (cutoff as int) * (s[i as int] - prev as int),
                SCALE as int,
            ));
        }
        let y: i64 = prev as i64 + q as i64;
        buffer[i] = y as i32;
        prev = y as i32;
        i += 1;
    }
    proof {
        assert(sample_vals(buffer@) =~= lowpass_seq(s, cutoff as int));
        assert(buffer@[0] as int == lowpass_at(s, cutoff as int, 0));
        assert(buffer@[0] == orig[0]);
    }
}

/// The peak absolute sample value of a buffer; `0` for an empty buffer.
pub open spec fn peak(s: Seq<int>) -> int
    decreases s.len(),
{
    if s.len() == 0 {
        0
    } else {
        let p = peak(s.drop_last());
        let a = abs_of(s.last());
        if a > p {
            a
        } else {
            p
        }
    }
}

/// A sample rescaled so that a peak of `p` lands on the Q15 value of
/// `0.99`: multiply by `0.99 / p` with truncation. Meaningful for `p > 0`.
pub open spec fn norm_val(x: int, p: int) -> int {
    tdiv(x * (99 * SCALE as int), 100 * p)
}

/// A buffer after normalization: unchanged when silent, otherwise every
/// sample rescaled against the peak.
pub open spec fn norm_seq(s: Seq<int>) -> Seq<int> {
    if peak(s) == 0 {
        s
    } else {
        s.map_values(|x: int| norm_val(x, peak(s)))
    }
}

/// The peak bounds every sample's magnitude and is never negative.
pub proof fn lemma_peak_ge(s: Seq<int>)
    ensures
        peak(s) >= 0,
        forall|i: int| 0 <= i < s.len() ==> abs_of(#[trigger] s[i]) <= peak(s),
    decreases s.len(),
{
    if s.len() > 0 {
        lemma_peak_ge(s.drop_last());
        assert forall|i: int| 0 <= i < s.len() implies abs_of(#[trigger] s[i]) <= peak(s) by {
            if i < s.len() - 1 {
                assert(s.drop_last()[i] == s[i]);
                assert(abs_of(s.drop_last()[i]) <= peak(s.drop_last()));
            }
        }
    }
}

/// A nonempty buffer attains its peak at some index.
pub proof fn lemma_peak_attained(s: Seq<int>)
    requires
        s.len() > 0,
    ensures
        exists|i: int| 0 <= i < s.len() && abs_of(#[trigger] s[i]) == peak(s),
    decreases s.len(),
{
    if s.len() == 1 {
        assert(s.drop_last().len() == 0);
        assert(peak(s.drop_last()) == 0);
        assert(s.last() == s[0]);
        assert(abs_of(s[0]) == peak(s));
    } else if abs_of(s.last()) >= peak(s.drop_last()) {
        assert(abs_of(s[s.len() - 1]) == peak(s));
    } else {
        lemma_peak_attained(s.drop_last());
        let i = choose|i: int|
            0 <= i < s.drop_last().len() && abs_of(#[trigger] s.drop_last()[i]) == peak(
                s.drop_last(),
            );
        assert(s.drop_last()[i] == s[i]);
        assert(abs_of(s[i]) == peak(s));
    }
}

/// Scale the whole buffer so that its peak absolute value lands on the
/// Q15 value of `0.99` (`32440`); an all-zero buffer is left unchanged.
pub fn normalize_unsafe(buffer: &mut Vec<i32>)
    ensures
        final(buffer)@.len() == old(buffer)@.len(),
        sample_vals(final(buffer)@) == norm_seq(sample_vals(old(buffer)@)),
{
    let ghost orig: Seq<i32> = buffer@;
    let ghost s: Seq<int> = sample_vals(orig);
    let n = buffer.len();
    let mut max_val: i64 = 0;
    let mut i: usize = 0;
    while i < n
        invariant
            n == orig.len(),
            buffer@ == orig,
            s == sample_vals(orig),
            i <= n,
            max_val as int == peak(s.take(i as int)),
            0 <= max_val <= 0x8000_0000,
        decreases n - i,
    {
        let v = buffer[i];
        let a: i64 = if v < 0 {
            -(v as i64)
        } else {
            v as i64
        };
        proof {
            assert(s.take(i + 1).drop_last() =~= s.take(i as int));
            assert(s.take(i + 1).last() == s[i as int]);
        }
        if a > max_val {
            max_val = a;
        }
        i += 1;
    }
    proof {
        assert(s.take(n as int) =~= s);
        lemma_peak_ge(s);
    }
    if max_val > 0 {
        let den: i64 = 100 * max_val;
        let mut i: usize = 0;
        while i < n
            invariant
                n == orig.len(),
                buffer@.len() == n,
                s == sample_vals(orig),
                i <= n,
                max_val as int == peak(s),
                0 < max_val <= 0x8000_0000,
                den as int == 100 * peak(s),
                forall|j: int| 0 <= j < i ==> buffer@[j] as int == norm_val(s[j], peak(s)),
                forall|j: int| i <= j < n ==> buffer@[j] == orig[j],
            decreases n - i,
        {
            let wide: i64 = (buffer[i] as i64) * (99 * SCALE as i64);
            let q = fixed::div_trunc_i64(wide, den);
            proof {
                lemma_peak_ge(s);
                let m = 99 * SCALE as int;
                assert(abs_of(wide as int) <= abs_of(peak(s) * m)) by (nonlinear_arith)
                    requires
                        wide as int == s[i as int] * m,
                        abs_of(s[i as int]) <= peak(s),
                        m > 0,
                ;
                lemma_tdiv_mono_abs(wide as int, peak(s) * m, den as int);
                assert(peak(s) * m == peak(s) * m && 100 * peak(s) == peak(s) * 100)
                    by (nonlinear_arith);
                fixed::lemma_tdiv_cancel(m, 100, peak(s));
                assert(tdiv(peak(s) * m, peak(s) * 100) == tdiv(m, 100));
            }
            buffer[i] = q as i32;
            i += 1;
        }
        proof {
            assert(sample_vals(buffer@) =~= norm_seq(s));
        }
    } else {
        proof {
            assert(sample_vals(buffer@) =~= norm_seq(s));
        }
    }
}

/// The sum of squared sample values.
pub open spec fn sum_sq(s: Seq<int>) -> int
    decreases s.len(),
{
    if s.len() == 0 {
        0
    } else {
        sum_sq(s.drop_last()) + s.last() * s.last()
    }
}

/// The mean of the squared sample values. Meaningful for nonempty `s`.
pub open spec fn mean_sq(s: Seq<int>) -> int {
    sum_sq(s) / s.len() as int
}

/// The integer square root: the largest `r` with `r * r <= n`.
pub open spec fn sqrt_floor(n: int) -> int
    decreases n,
{
    if n <= 0 {
        0
    } else {
        let r = sqrt_floor(n - 1);
        if (r + 1) * (r + 1) <= n {
            r + 1
        } else {
            r
        }
    }
}

/// The root-mean-square of a buffer, rounded down to an integer Q15 value.
pub open spec fn rms_spec(s: Seq<int>) -> int {
    sqrt_floor(mean_sq(s))
}

/// `sqrt_floor(n)` squares to at most `n`, and is the largest such value.
pub proof fn lemma_sqrt_floor_bounds(n: int)
    ensures
        sqrt_floor(n) >= 0,
        n >= 0 ==> sqrt_floor(n) * sqrt_floor(n) <= n,
        n >= 0 ==> n < (sqrt_floor(n) + 1) * (sqrt_floor(n) + 1),
    decreases n,
{
    if n > 0 {
        lemma_sqrt_floor_bounds(n - 1);
        let r = sqrt_floor(n - 1);
        if (r + 1) * (r + 1) <= n {
            assert(n < ((r + 1) + 1) * ((r + 1) + 1)) by (nonlinear_arith)
                requires
                    n - 1 < (r + 1) * (r + 1),
                    r >= 0,
            ;
        }
    }
}

/// Any `r` in the square-root window is the integer square root.
pub proof fn lemma_sqrt_floor_unique(n: int, r: int)
    requires
        0 <= r,
        r * r <= n,
        n < (r + 1) * (r + 1),
    ensures
        sqrt_floor(n) == r,
{
    lemma_sqrt_floor_bounds(n);
    let f = sqrt_floor(n);
    if f < r {
        assert((f + 1) * (f + 1) <= r * r) by (nonlinear_arith)
            requires
                0 <= f + 1 <= r,
        ;
    }
    if f > r {
        assert((r + 1) * (r + 1) <= f * f) by (nonlinear_arith)
            requires
                0 <= r + 1 <= f,
        ;
    }
}

/// Binary-search integer square root.
fn isqrt_u64(n: u64) -> (r: u64)
    ensures
        r as int == sqrt_floor(n as int),
{
    let mut lo: u64 = 0;
    let mut hi: u64 = if n < 0x1_0000_0000 {
        n
    } else {
        0xffff_ffff
    };
    proof {
        assert((n as int) < (hi as int + 1) * (hi as int + 1)) by (nonlinear_arith)
            requires
                hi as int == n as int && n < 0x1_0000_0000 || hi as int == 0xffff_ffff && n as int
                    <= 0xffff_ffff_ffff_ffff,
        ;
    }
    while lo < hi
        invariant
            lo <= hi <= 0xffff_ffff,
            (lo as int) * (lo as int) <= n as int,
            (n as int) < (hi as int + 1) * (hi as int + 1),
        decreases hi - lo,
    {
        let mid = lo + (hi - lo + 1) / 2;
        proof {
            assert((mid as int) * (mid as int) <= 0x1_0000_0000_0000_0000) by (nonlinear_arith)
                requires
                    0 <= mid as int <= 0xffff_ffff,
            ;
        }
        if (mid as u128) * (mid as u128) <= n as u128 {
            lo = mid;
        } else {
            hi = mid - 1;
        }
    }
    proof {
        lemma_sqrt_floor_unique(n as int, lo as int);
    }
    lo
}

/// The root-mean-square (average signal energy) of a buffer: the integer
/// square root of the mean of the squared samples.
///
/// The mean over an empty buffer would divide by zero; such buffers are
/// rejected by precondition rather than yielding an arbitrary value.
pub fn compute_rms_unsafe(buffer: &Vec<i32>) -> (r: i64)
    requires
        buffer@.len() > 0,
    ensures
        r as int == rms_spec(sample_vals(buffer@)),
        0 <= r <= 0x1_0000_0000,
{
    let ghost s: Seq<int> = sample_vals(buffer@);
    let n = buffer.len();
    let mut sum: u128 = 0;
    let mut i: usize = 0;
    while i < n
        invariant
            n == buffer@.len(),
            s == sample_vals(buffer@),
            i <= n,
            sum as int == sum_sq(s.take(i as int)),
            sum as int <= (i as int) * 0x4000_0000_0000_0000,
        decreases n - i,
    {
        let v = buffer[i] as i64;
        proof {
            assert(v * v >= 0 && v * v <= 0x4000_0000_0000_0000) by (nonlinear_arith)
                requires
                    -0x8000_0000 <= v as int <= 0x8000_0000,
            ;
            assert(s.take(i + 1).drop_last() =~= s.take(i as int));
            assert(s.take(i + 1).last() == s[i as int]);
            assert((i as int + 1) * 0x4000_0000_0000_0000 == (i as int) * 0x4000_0000_0000_0000
                + 0x4000_0000_0000_0000) by (nonlinear_arith);
        }
        let sq: u128 = (v * v) as u128;
        sum = sum + sq;
        i += 1;
    }
    proof {
        assert(s.take(n as int) =~= s);
        assert((n as int) * 0x4000_0000_0000_0000 <= 0xffff_ffff_ffff_ffff * 0x4000_0000_0000_0000)
            by (nonlinear_arith)
            requires
                0 < n as int <= 0xffff_ffff_ffff_ffff,
        ;
        vstd::arithmetic::div_mod::lemma_div_is_ordered(
            sum as int,
            (n as int) * 0x4000_0000_0000_0000,
            n as int,
        );
        vstd::arithmetic::div_mod::lemma_div_multiples_vanish(0x4000_0000_0000_0000, n as int);
        vstd::arithmetic::div_mod::lemma_div_pos_is_pos(sum as int, n as int);
    }
    let mean: u128 = sum / (n as u128);
    let r = isqrt_u64(mean as u64);
    proof {
        lemma_sqrt_floor_bounds(mean as int);
        assert(r as int <= 0x1_0000_0000) by (nonlinear_arith)
            requires
                (r as int) * (r as int) <= 0x4000_0000_0000_0000,
                r as int >= 0,
        ;
    }
    r as i64
}

/// Interleave per-channel buffers into one output buffer: sample `s` of
/// channel `c` lands at index `s * num_channels + c`. The first channel's
/// length governs iteration, so all channels must be at least that long;
/// output samples past the interleaved region are untouched.
pub fn interleave_channels_unsafe(channels: &Vec<Vec<i32>>, output: &mut Vec<i32>)
    requires
        channels@.len() > 0,
        forall|c: int|
            0 <= c < channels@.len() ==> #[trigger] channels@[c]@.len() == channels@[0]@.len(),
        old(output)@.len() >= channels@.len() * channels@[0]@.len(),
    ensures
        final(output)@.len() == old(output)@.len(),
        forall|s: int, c: int|
            0 <= s < channels@[0]@.len() && 0 <= c < channels@.len() ==> final(output)@[s
                * channels@.len() + c] == #[trigger] channels@[c]@[s],
        forall|k: int|
            channels@.len() * channels@[0]@.len() <= k < final(output)@.len() ==> final(output)@[k]
                == old(output)@[k],
{
    let ghost orig: Seq<i32> = output@;
    let num_channels = channels.len();
    let samples_per_channel = channels[0].len();
    let mut s: usize = 0;
    while s < samples_per_channel
        invariant
            num_channels == channels@.len(),
            samples_per_channel == channels@[0]@.len(),
            forall|c: int|
                0 <= c < channels@.len() ==> #[trigger] channels@[c]@.len() == channels@[0]@.len(),
            output.len() == orig.len(),
            orig.len() >= num_channels * samples_per_channel,
            s <= samples_per_channel,
            forall|s2: int, c2: int|
                0 <= s2 < s && 0 <= c2 < num_channels ==> output@[s2 * num_channels + c2]
                    == #[trigger] channels@[c2]@[s2],
            forall|k: int| s * num_channels <= k < orig.len() ==> output@[k] == orig[k],
        decreases samples_per_channel - s,
    {
        let mut c: usize = 0;
        while c < num_channels
            invariant
                num_channels == channels@.len(),
                samples_per_channel == channels@[0]@.len(),
                forall|ch: int|
                    0 <= ch < channels@.len() ==> #[trigger] channels@[ch]@.len()
                        == channels@[0]@.len(),
                output.len() == orig.len(),
                orig.len() >= num_channels * samples_per_channel,
                s < samples_per_channel,
                c <= num_channels,
                forall|s2: int, c2: int|
                    0 <= s2 < s && 0 <= c2 < num_channels ==> output@[s2 * num_channels + c2]
                        == #[trigger] channels@[c2]@[s2],
                forall|c2: int|
                    0 <= c2 < c ==> output@[s * num_channels + c2] == #[trigger] channels@[c2]@[s as int],
                forall|k: int|
                    s * num_channels + c <= k < orig.len() ==> output@[k] == orig[k],
            decreases num_channels - c,
        {
            proof {
                assert((s as int) * (num_channels as int) + c < (samples_per_channel as int) * (
                num_channels as int)) by (nonlinear_arith)
                    requires
                        0 <= (s as int) && (s as int) < (samples_per_channel as int),
                        0 <= (c as int) && (c as int) < (num_channels as int),
                ;
                assert((samples_per_channel as int) * (num_channels as int) == (
                num_channels as int) * (samples_per_channel as int)) by (nonlinear_arith);
            }
            let idx = s * num_channels + c;
            output[idx] = channels[c][s];
            proof {
                assert forall|s2: int, c2: int|
                    0 <= s2 < s && 0 <= c2 < num_channels implies output@[s2 * (
                num_channels as int) + c2] == #[trigger] channels@[c2]@[s2] by {
                    assert(s2 * (num_channels as int) + c2 < (s as int) * (num_channels as int))
                        by (nonlinear_arith)
                        requires
                            0 <= s2,
                            s2 < s as int,
                            0 <= c2 < num_channels as int,
                    ;
                }
            }
            c += 1;
        }
        proof {
            assert((s as int + 1) * (num_channels as int) == (s as int) * (num_channels as int)
                + num_channels as int) by (nonlinear_arith);
        }
        s += 1;
    }
    proof {
        assert((samples_per_channel as int) * (num_channels as int) == (num_channels as int) * (
        samples_per_channel as int)) by (nonlinear_arith);
    }
}

/// Split an interleaved buffer into per-channel buffers: index
/// `s * num_channels + c` of the input lands at sample `s` of channel
/// `c`. Samples per channel is the input length divided by the channel
/// count, rounded down: trailing samples of an incomplete frame are
/// dropped, and channel samples past the deinterleaved region are
/// untouched.
pub fn deinterleave_channels_unsafe(input: &Vec<i32>, channels: &mut Vec<Vec<i32>>)
    requires
        old(channels)@.len() > 0,
        forall|c: int|
            0 <= c < old(channels)@.len() ==> #[trigger] old(channels)@[c]@.len() >= input@.len()
                / old(channels)@.len(),
    ensures
        final(channels)@.len() == old(channels)@.len(),
        forall|c: int|
            0 <= c < final(channels)@.len() ==> #[trigger] final(channels)@[c]@.len()
                == old(channels)@[c]@.len(),
        forall|s: int, c: int|
            0 <= s < input@.len() / final(channels)@.len() && 0 <= c < final(channels)@.len()
                ==> #[trigger] final(channels)@[c]@[s] == input@[s * final(channels)@.len() + c],
        forall|c: int, s: int|
            0 <= c < final(channels)@.len() && input@.len() / final(channels)@.len() <= s
                < final(channels)@[c]@.len() ==> #[trigger] final(channels)@[c]@[s]
                == old(channels)@[c]@[s],
{
    let ghost orig: Seq<Vec<i32>> = channels@;
    let num_channels = channels.len();
    let samples_per_channel = input.len() / num_channels;
    proof {
        vstd::arithmetic::div_mod::lemma_remainder_lower(input@.len() as int, num_channels as int);
        assert((samples_per_channel as int) * (num_channels as int) == (num_channels as int) * (
        samples_per_channel as int)) by (nonlinear_arith);
        assert(input@.len() >= (samples_per_channel as int) * (num_channels as int));
    }
    let mut s: usize = 0;
    while s < samples_per_channel
        invariant
            num_channels == channels@.len(),
            num_channels == orig.len(),
            samples_per_channel == input@.len() as int / num_channels as int,
            input.len() >= (samples_per_channel as int) * (num_channels as int),
            forall|c: int|
                0 <= c < orig.len() ==> #[trigger] channels@[c]@.len() == orig[c]@.len(),
            forall|c: int| 0 <= c < orig.len() ==> #[trigger] orig[c]@.len()
                >= samples_per_channel,
            s <= samples_per_channel,
            forall|s2: int, c2: int|
                0 <= s2 < s && 0 <= c2 < num_channels ==> #[trigger] channels@[c2]@[s2]
                    == input@[s2 * num_channels + c2],
            forall|c2: int, s2: int|
                0 <= c2 < num_channels && s <= s2 < orig[c2]@.len() ==> #[trigger] channels@[c2]@[s2]
                    == orig[c2]@[s2],
        decreases samples_per_channel - s,
    {
        let mut c: usize = 0;
        while c < num_channels
            invariant
                num_channels == channels@.len(),
                num_channels == orig.len(),
                samples_per_channel == input@.len() as int / num_channels as int,
                input.len() >= (samples_per_channel as int) * (num_channels as int),
                forall|ch: int|
                    0 <= ch < orig.len() ==> #[trigger] channels@[ch]@.len() == orig[ch]@.len(),
                forall|ch: int| 0 <= ch < orig.len() ==> #[trigger] orig[ch]@.len()
                    >= samples_per_channel,
                s < samples_per_channel,
                c <= num_channels,
                forall|s2: int, c2: int|
                    0 <= s2 < s && 0 <= c2 < num_channels ==> #[trigger] channels@[c2]@[s2]
                        == input@[s2 * num_channels + c2],
                forall|c2: int|
                    0 <= c2 < c ==> #[trigger] channels@[c2]@[s as int] == input@[s * num_channels
                        + c2],
                forall|c2: int, s2: int|
                    0 <= c2 < num_channels && s < s2 < orig[c2]@.len() ==> #[trigger] channels@[c2]@[s2]
                        == orig[c2]@[s2],
                forall|c2: int|
                    c <= c2 < num_channels ==> #[trigger] channels@[c2]@[s as int]
                        == orig[c2]@[s as int],
            decreases num_channels - c,
        {
            proof {
                assert((s as int) * (num_channels as int) + c < (samples_per_channel as int) * (
                num_channels as int)) by (nonlinear_arith)
                    requires
                        0 <= (s as int) && (s as int) < (samples_per_channel as int),
                        0 <= (c as int) && (c as int) < (num_channels as int),
                ;
            }
            let idx = s * num_channels + c;
            channels[c][s] = input[idx];
            c += 1;
        }
        s += 1;
    }
}

/// One biquad step: the direct-form-I output for input `x0` with
/// coefficients `c = [b0, b1, b2, a1, a2]` and state
/// `st = [x1, x2, y1, y2]`, with one truncating Q15 rescale of the
/// accumulated sum.
pub open spec fn biquad_y(c: Seq<int>, st: Seq<int>, x0: int) -> int {
    tdiv(c[0] * x0 + c[1] * st[0] + c[2] * st[1] - c[3] * st[2] - c[4] * st[3], SCALE as int)
}

/// The filter state after one step: the input and output histories shift
/// by one.
pub open spec fn biquad_shift(st: Seq<int>, x0: int, y0: int) -> Seq<int> {
    seq![x0, st[0], y0, st[2]]
}

/// The filter state after running a whole input sequence.
pub open spec fn biquad_state_seq(c: Seq<int>, st: Seq<int>, xs: Seq<int>) -> Seq<int>
    decreases xs.len(),
{
    if xs.len() == 0 {
        st
    } else {
        biquad_state_seq(
            c,
            biquad_shift(st, xs.first(), biquad_y(c, st, xs.first())),
            xs.drop_first(),
        )
    }
}

/// The output sequence of the filter over a whole input sequence.
pub open spec fn biquad_out_seq(c: Seq<int>, st: Seq<int>, xs: Seq<int>) -> Seq<int>
    decreases xs.len(),
{
    if xs.len() == 0 {
        Seq::empty()
    } else {
        seq![biquad_y(c, st, xs.first())] + biquad_out_seq(
            c,
            biquad_shift(st, xs.first(), biquad_y(c, st, xs.first())),
            xs.drop_first(),
        )
    }
}

/// The filter produces one output per input.
pub proof fn lemma_biquad_len(c: Seq<int>, st: Seq<int>, xs: Seq<int>)
    ensures
        biquad_out_seq(c, st, xs).len() == xs.len(),
    decreases xs.len(),
{
    if xs.len() > 0 {
        lemma_biquad_len(
            c,
            biquad_shift(st, xs.first(), biquad_y(c, st, xs.first())),
            xs.drop_first(),
        );
    }
}

/// Output `i` of the filter is the step output at the state reached after
/// the first `i` inputs.
pub proof fn lemma_biquad_at(c: Seq<int>, st: Seq<int>, xs: Seq<int>, i: int)
    requires
        0 <= i < xs.len(),
    ensures
        biquad_out_seq(c, st, xs)[i] == biquad_y(c, biquad_state_seq(c, st, xs.take(i)), xs[i]),
    decreases i,
{
    lemma_biquad_len(c, st, xs);
    let st1 = biquad_shift(st, xs.first(), biquad_y(c, st, xs.first()));
    if i == 0 {
        assert(xs.take(0) =~= Seq::empty());
    } else {
        lemma_biquad_at(c, st1, xs.drop_first(), i - 1);
        lemma_biquad_len(c, st1, xs.drop_first());
        assert(xs.drop_first().take(i - 1) =~= xs.take(i).drop_first());
        assert(xs.take(i).first() == xs.first());
        assert(xs.drop_first()[i - 1] == xs[i]);
        assert(biquad_out_seq(c, st, xs)[i] == biquad_out_seq(c, st1, xs.drop_first())[i - 1]);
        assert(biquad_state_seq(c, st, xs.take(i)) == biquad_state_seq(
            c,
            st1,
            xs.take(i).drop_first(),
        ));
    }
}

/// Extending the input by one sample shifts the final state once more.
pub proof fn lemma_biquad_state_snoc(c: Seq<int>, st: Seq<int>, xs: Seq<int>, x: int)
    ensures
        biquad_state_seq(c, st, xs.push(x)) == biquad_shift(
            biquad_state_seq(c, st, xs),
            x,
            biquad_y(c, biquad_state_seq(c, st, xs), x),
        ),
    decreases xs.len(),
{
    if xs.len() == 0 {
        let st1 = biquad_shift(st, x, biquad_y(c, st, x));
        assert(xs.push(x).first() == x);
        assert(xs.push(x).drop_first() =~= Seq::<int>::empty());
        assert(biquad_state_seq(c, st1, xs.push(x).drop_first()) == st1);
        assert(biquad_state_seq(c, st, xs.push(x)) == st1);
        assert(biquad_state_seq(c, st, xs) == st);
    } else {
        let st1 = biquad_shift(st, xs.first(), biquad_y(c, st, xs.first()));
        assert(xs.push(x).first() == xs.first());
        assert(xs.push(x).drop_first() =~= xs.drop_first().push(x));
        lemma_biquad_state_snoc(c, st1, xs.drop_first(), x);
        assert(biquad_state_seq(c, st, xs.push(x)) == biquad_state_seq(
            c,
            st1,
            xs.push(x).drop_first(),
        ));
        assert(biquad_state_seq(c, st, xs) == biquad_state_seq(c, st1, xs.drop_first()));
    }
}

/// Second-order (biquad) recursive filter in direct form I, in place:
/// for each sample `x0`,
/// `y0 = (b0*x0 + b1*x1 + b2*x2 - a1*y1 - a2*y2) / 32768` with truncation,
/// where `coeffs = [b0, b1, b2, a1, a2]` and the caller-owned state
/// `[x1, x2, y1, y2]` holds the two most recent inputs and outputs. The
/// state is written back after the pass, so a later call continues the
/// same filter history. The caller must ensure every output of the pass
/// fits the sample type.
pub fn apply_biquad_unsafe(buffer: &mut Vec<i32>, coeffs: &[i32; 5], state: &mut [i32; 4])
    requires
        all_fit(
            biquad_out_seq(
                sample_vals(coeffs@),
                sample_vals(old(state)@),
                sample_vals(old(buffer)@),
            ),
        ),
    ensures
        final(buffer)@.len() == old(buffer)@.len(),
        sample_vals(final(buffer)@) == biquad_out_seq(
            sample_vals(coeffs@),
            sample_vals(old(state)@),
            sample_vals(old(buffer)@),
        ),
        sample_vals(final(state)@) == biquad_state_seq(
            sample_vals(coeffs@),
            sample_vals(old(state)@),
            sample_vals(old(buffer)@),
        ),
{
    let ghost c: Seq<int> = sample_vals(coeffs@);
    let ghost st0: Seq<int> = sample_vals(state@);
    let ghost orig: Seq<i32> = buffer@;
    let ghost xs: Seq<int> = sample_vals(orig);
    let b0 = coeffs[0];
    let b1 = coeffs[1];
    let b2 = coeffs[2];
    let a1 = coeffs[3];
    let a2 = coeffs[4];
    let mut x1 = state[0];
    let mut x2 = state[1];
    let mut y1 = state[2];
    let mut y2 = state[3];
    let n = buffer.len();
    proof {
        assert(xs.take(0) =~= Seq::<int>::empty());
        lemma_biquad_len(c, st0, xs);
    }
    let mut i: usize = 0;
    while i < n
        invariant
            n == orig.len(),
            buffer@.len() == n,
            xs == sample_vals(orig),
            c == sample_vals(coeffs@),
            i <= n,
            all_fit(biquad_out_seq(c, st0, xs)),
            biquad_out_seq(c, st0, xs).len() == n,
            b0 as int == c[0] && b1 as int == c[1] && b2 as int == c[2] && a1 as int == c[3]
                && a2 as int == c[4],
            seq![x1 as int, x2 as int, y1 as int, y2 as int] =~= biquad_state_seq(
                c,
                st0,
                xs.take(i as int),
            ),
            forall|j: int| 0 <= j < i ==> buffer@[j] as int == biquad_out_seq(c, st0, xs)[j],
            forall|j: int| i <= j < n ==> buffer@[j] == orig[j],
        decreases n - i,
    {
        let x0 = buffer[i];
        proof {
            assert(abs_of((b0 as int) * (x0 as int)) <= 0x4000_0000_0000_0000 && abs_of(
                (b1 as int) * (x1 as int),
            ) <= 0x4000_0000_0000_0000 && abs_of((b2 as int) * (x2 as int))
                <= 0x4000_0000_0000_0000 && abs_of((a1 as int) * (y1 as int))
                <= 0x4000_0000_0000_0000 && abs_of((a2 as int) * (y2 as int))
                <= 0x4000_0000_0000_0000) by (nonlinear_arith)
                requires
                    abs_of(b0 as int) <= 0x8000_0000,
                    abs_of(b1 as int) <= 0x8000_0000,
                    abs_of(b2 as int) <= 0x8000_0000,
                    abs_of(a1 as int) <= 0x8000_0000,
                    abs_of(a2 as int) <= 0x8000_0000,
                    abs_of(x0 as int) <= 0x8000_0000,
                    abs_of(x1 as int) <= 0x8000_0000,
                    abs_of(x2 as int) <= 0x8000_0000,
                    abs_of(y1 as int) <= 0x8000_0000,
                    abs_of(y2 as int) <= 0x8000_0000,
            ;
        }
        let acc: i128 = (b0 as i128) * (x0 as i128) + (b1 as i128) * (x1 as i128) + (b2 as i128)
            * (x2 as i128) - (a1 as i128) * (y1 as i128) - (a2 as i128) * (y2 as i128);
        let y0w = fixed::div_trunc_i128(acc, SCALE as i128);
        proof {
            let cur = biquad_state_seq(c, st0, xs.take(i as int));
            lemma_biquad_at(c, st0, xs, i as int);
            assert(cur[0] == x1 as int && cur[1] == x2 as int && cur[2] == y1 as int && cur[3]
                == y2 as int);
            assert(biquad_y(c, cur, xs[i as int]) == tdiv(acc as int, SCALE as int));
            assert(biquad_out_seq(c, st0, xs)[i as int] == tdiv(acc as int, SCALE as int));
            assert(fits_sample(biquad_out_seq(c, st0, xs)[i as int]));
            lemma_biquad_state_snoc(c, st0, xs.take(i as int), xs[i as int]);
            assert(xs.take(i as int).push(xs[i as int]) =~= xs.take(i + 1));
        }
        let y0 = y0w as i32;
        buffer[i] = y0;
        x2 = x1;
        x1 = x0;
        y2 = y1;
        y1 = y0;
        proof {
            assert(seq![x1 as int, x2 as int, y1 as int, y2 as int] =~= biquad_state_seq(
                c,
                st0,
                xs.take(i + 1),
            ));
        }
        i += 1;
    }
    state[0] = x1;
    state[1] = x2;
    state[2] = y1;
    state[3] = y2;
    proof {
        assert(xs.take(n as int) =~= xs);
        assert(sample_vals(buffer@) =~= biquad_out_seq(c, st0, xs));
        assert(sample_vals(state@) =~= biquad_state_seq(c, st0, xs));
    }
}

} // verus!
