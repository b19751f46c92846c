//! Block-average decimation of interleaved PCM samples to a lower rate.
//!
//! Output sample `i` covers the input frames from `boundary(i)` up to
//! `boundary(i + 1)`, where `boundary(i) = floor(i * rate / target_rate)`.
//! Every raw sample of those frames, across all channels, is summed and the
//! sum is divided by the number of frames, so several channels are mixed
//! into one as well as averaged over time.

use vstd::prelude::*;
use vstd::arithmetic::div_mod::{
    lemma_div_is_ordered,
    lemma_div_plus_one,
    lemma_fundamental_div_mod,
    lemma_div_multiples_vanish,
};

verus! {

/// The output rate of the reducer: the lowest rate it ever produces.
pub const LEAST_RATE: u64 = 8000;

/// Raised when the target rate is above the input rate: an output sample
/// would then cover no input frame at all.
#[derive(Debug, Clone, Copy, PartialEq, Eq)]
pub struct DegenerateRateError {
    pub rate: u64,
    pub target_rate: u64,
}

/// Number of output samples for `len` interleaved samples.
pub open spec fn output_len(len: int, channels: int, rate: int, target_rate: int) -> int {
    (len * target_rate) / (channels * rate)
}

/// Index of the first input frame that output sample `i` covers.
pub open spec fn boundary(i: int, rate: int, target_rate: int) -> int {
    (i * rate) / target_rate
}

/// Sum of the samples `s[lo..hi]`.
pub open spec fn window_sum(s: Seq<i16>, lo: int, hi: int) -> int
    decreases hi - lo,
{
    if hi <= lo {
        0
    } else {
        window_sum(s, lo, hi - 1) + s[hi - 1]
    }
}

/// Division rounding toward zero, for a positive divisor.
pub open spec fn trunc_div(a: int, d: int) -> int {
    if a >= 0 {
        a / d
    } else {
        -((-a) / d)
    }
}

/// Output sample `i`: the sum over its window of frames, divided by the
/// number of frames, cut to 16 bits.
pub open spec fn block_average(s: Seq<i16>, channels: int, rate: int, target_rate: int, i: int) -> i16 {
    let lo = boundary(i, rate, target_rate);
    let hi = boundary(i + 1, rate, target_rate);
    trunc_div(window_sum(s, lo * channels, hi * channels), hi - lo) as i16
}

/// The whole resampled sequence.
pub open spec fn resampled(s: Seq<i16>, channels: int, rate: int, target_rate: int) -> Seq<i16> {
    Seq::new(
        output_len(s.len() as int, channels, rate, target_rate) as nat,
        |i: int| block_average(s, channels, rate, target_rate, i),
    )
}

/// Boundaries never decrease, and grow by at least one per output sample
/// when the target rate is at most the input rate.
pub proof fn lemma_boundary_step(i: int, j: int, rate: int, target_rate: int)
    requires
        0 <= i < j,
        0 < target_rate <= rate,
    ensures
        boundary(i, rate, target_rate) < boundary(j, rate, target_rate),
        0 <= boundary(i, rate, target_rate),
{
    assert(i * rate + target_rate <= j * rate) by (nonlinear_arith)
        requires
            i + 1 <= j,
            0 < target_rate <= rate,
    ;
    assert(0 <= i * rate) by (nonlinear_arith)
        requires
            0 <= i,
            0 < rate,
    ;
    lemma_div_plus_one(i * rate, target_rate);
    lemma_div_is_ordered(target_rate + i * rate, j * rate, target_rate);
    lemma_div_is_ordered(0, i * rate, target_rate);
}

/// The last boundary stays inside the input: no window reads past its end.
pub proof fn lemma_last_boundary_in_bounds(len: int, channels: int, rate: int, target_rate: int)
    requires
        0 <= len,
        1 <= channels,
        0 < target_rate <= rate,
    ensures
        0 <= output_len(len, channels, rate, target_rate),
        boundary(output_len(len, channels, rate, target_rate), rate, target_rate) * channels <= len,
        output_len(len, channels, rate, target_rate) * rate <= len * target_rate,
{
    let n = output_len(len, channels, rate, target_rate);
    let b = boundary(n, rate, target_rate);
    let cr = channels * rate;
    assert(0 < channels * rate) by (nonlinear_arith)
        requires
            1 <= channels,
            0 < rate,
    ;
    assert(0 <= len * target_rate) by (nonlinear_arith)
        requires
            0 <= len,
            0 < target_rate,
    ;
    lemma_fundamental_div_mod(len * target_rate, cr);
    lemma_div_is_ordered(0, len * target_rate, cr);
    assert(n * cr <= len * target_rate);
    assert(0 <= n * rate) by (nonlinear_arith)
        requires
            0 <= n,
            0 < rate,
    ;
    lemma_fundamental_div_mod(n * rate, target_rate);
    assert(b * target_rate <= n * rate);
    assert(n * rate <= len * target_rate) by (nonlinear_arith)
        requires
            n * (channels * rate) <= len * target_rate,
            1 <= channels,
            0 <= n,
            0 < rate,
    ;
    assert(b * channels <= len) by (nonlinear_arith)
        requires
            b * target_rate <= n * rate,
            n * (channels * rate) <= len * target_rate,
            1 <= channels,
            0 < target_rate,
    ;
}

proof fn lemma_window_sum_extend(s: Seq<i16>, lo: int, hi: int)
    requires
        lo <= hi,
    ensures
        window_sum(s, lo, hi + 1) == window_sum(s, lo, hi) + s[hi],
{
}

/// A window of samples that all equal `v` sums to `v` times its length.
proof fn lemma_window_sum_constant(s: Seq<i16>, lo: int, hi: int, v: int)
    requires
        0 <= lo <= hi <= s.len(),
        forall|k: int| lo <= k < hi ==> s[k] == v,
    ensures
        window_sum(s, lo, hi) == (hi - lo) * v,
    decreases hi - lo,
{
    if hi > lo {
        lemma_window_sum_constant(s, lo, hi - 1, v);
        assert(s[hi - 1] == v);
        assert((hi - 1 - lo) * v + v == (hi - lo) * v) by (nonlinear_arith);
        assert(window_sum(s, lo, hi) == window_sum(s, lo, hi - 1) + s[hi - 1]);
    } else {
        assert(window_sum(s, lo, hi) == 0);
        assert((hi - lo) * v == 0) by (nonlinear_arith)
            requires
                hi == lo,
        ;
    }
}

/// Dividing `d * x` by `d`, rounding toward zero, gives `x` back.
proof fn lemma_trunc_div_multiple(x: int, d: int)
    requires
        0 < d,
    ensures
        trunc_div(d * x, d) == x,
{
    lemma_div_multiples_vanish(x, d);
    lemma_div_multiples_vanish(-x, d);
    assert(d * (-x) == -(d * x)) by (nonlinear_arith);
    if x >= 0 {
        assert(d * x >= 0) by (nonlinear_arith)
            requires
                x >= 0,
                d > 0,
        ;
    } else {
        assert(d * x < 0) by (nonlinear_arith)
            requires
                x < 0,
                d > 0,
        ;
    }
}

/// Resampling a signal whose samples all equal `v` gives a signal whose
/// samples all equal `channels * v` cut to 16 bits: every window sums
/// `channels` samples per frame and is divided by its number of frames.
/// With one channel, every output sample is `v` itself.
pub proof fn lemma_constant_signal(s: Seq<i16>, v: i16, channels: u16, rate: u64, target_rate: u64)
    requires
        channels >= 1,
        0 < target_rate <= rate,
        forall|k: int| 0 <= k < s.len() ==> s[k] == v,
    ensures
        forall|i: int|
            0 <= i < resampled(s, channels as int, rate as int, target_rate as int).len()
                ==> resampled(s, channels as int, rate as int, target_rate as int)[i] == (
            channels * v) as i16,
        channels == 1 ==> forall|i: int|
            0 <= i < resampled(s, channels as int, rate as int, target_rate as int).len()
                ==> resampled(s, channels as int, rate as int, target_rate as int)[i] == v,
{
    let c = channels as int;
    let r = rate as int;
    let t = target_rate as int;
    let n = output_len(s.len() as int, c, r, t);
    lemma_last_boundary_in_bounds(s.len() as int, c, r, t);
    assert forall|i: int| 0 <= i < n implies block_average(s, c, r, t, i) == (c * v) as i16 by {
        let lo = boundary(i, r, t);
        let hi = boundary(i + 1, r, t);
        lemma_boundary_step(i, i + 1, r, t);
        if i + 1 < n {
            lemma_boundary_step(i + 1, n, r, t);
        }
        assert(lo * c <= hi * c <= boundary(n, r, t) * c) by (nonlinear_arith)
            requires
                lo <= hi <= boundary(n, r, t),
                1 <= c,
        ;
        assert(0 <= lo * c) by (nonlinear_arith)
            requires
                0 <= lo,
                1 <= c,
        ;
        lemma_window_sum_constant(s, lo * c, hi * c, v as int);
        assert((hi * c - lo * c) * v == (hi - lo) * (c * v)) by (nonlinear_arith);
        lemma_trunc_div_multiple(c * v, hi - lo);
    }
}

/// With one channel and equal rates, resampling hands the input back.
pub proof fn lemma_same_rate_identity(s: Seq<i16>, rate: u64)
    requires
        rate > 0,
    ensures
        resampled(s, 1, rate as int, rate as int) == s,
{
    let r = rate as int;
    assert(s.len() * r / (1 * r) == s.len()) by {
        lemma_div_multiples_vanish(s.len() as int, r);
    }
    assert forall|i: int| 0 <= i < s.len() implies block_average(s, 1, r, r, i) == s[i] by {
        lemma_div_multiples_vanish(i, r);
        lemma_div_multiples_vanish(i + 1, r);
        assert(i * r == r * i && (i + 1) * r == r * (i + 1)) by (nonlinear_arith);
        assert(window_sum(s, i, i) == 0);
        assert(window_sum(s, i, i + 1) == s[i]);
        assert((i + 1) * r / r - i * r / r == 1);
        assert(trunc_div(s[i] as int, 1) == s[i]);
    }
    assert(resampled(s, 1, r, r) =~= s);
}

/// Downsamples `samples` (interleaved, `channels` per frame, at `rate`) to
/// mono at `target_rate`.
///
/// Fails exactly when `target_rate > rate`. Otherwise the result has
/// `floor(len * target_rate / (channels * rate))` samples, sample `i`
/// being the block average of its window; samples that do not fill a whole
/// window at the end are dropped.
pub fn resample(samples: &Vec<i16>, channels: u16, rate: u64, target_rate: u64) -> (r: Result<
    Vec<i16>,
    DegenerateRateError,
>)
    requires
        channels >= 1,
        target_rate > 0,
    ensures
        r is Err <==> target_rate > rate,
        r is Err ==> r == Err::<Vec<i16>, DegenerateRateError>(
            (DegenerateRateError { rate, target_rate }),
        ),
        r is Ok ==> r->Ok_0@ == resampled(
            samples@,
            channels as int,
            rate as int,
            target_rate as int,
        ),
        r is Ok ==> r->Ok_0@.len() == (samples@.len() * target_rate) / (channels * rate),
{
    if target_rate > rate {
        return Err(DegenerateRateError { rate, target_rate });
    }
    let ghost s = samples@;
    let ghost ci = channels as int;
    let ghost ri = rate as int;
    let ghost ti = target_rate as int;
    let len = samples.len();
    let c = channels as u128;
    let r = rate as u128;
    let t = target_rate as u128;
    assert((len as u128) * t <= u128::MAX) by (nonlinear_arith)
        requires
            len <= u64::MAX,
            t <= u64::MAX,
    ;
    assert(c * r <= u128::MAX && 0 < c * r) by (nonlinear_arith)
        requires
            1 <= c <= u16::MAX,
            1 <= r <= u64::MAX,
    ;
    let out_len: u128 = (len as u128 * t) / (c * r);
    proof {
        lemma_last_boundary_in_bounds(len as int, ci, ri, ti);
    }
    let mut out: Vec<i16> = Vec::new();
    let mut index: usize = 0;
    let mut last_step: u128 = 0;
    let mut i: u128 = 0;
    while i < out_len
        invariant
            s == samples@,
            len == s.len(),
            ci == c,
            ri == r,
            ti == t,
            1 <= c <= u16::MAX,
            0 < t <= r <= u64::MAX,
            out_len == output_len(len as int, ci, ri, ti),
            boundary(out_len as int, ri, ti) * ci <= len,
            out_len * r <= len * t,
            len * t <= u128::MAX,
            i <= out_len,
            last_step == boundary(i as int, ri, ti),
            index == last_step * c,
            out@.len() == i,
            forall|j: int| 0 <= j < i ==> out@[j] == block_average(s, ci, ri, ti, j),
        decreases out_len - i,
    {
        assert((i + 1) * r <= out_len * r) by (nonlinear_arith)
            requires
                i < out_len,
                0 < r,
        ;
        let cur_step: u128 = ((i + 1) * r) / t;
        proof {
            lemma_boundary_step(i as int, i + 1, ri, ti);
            if i + 1 < out_len {
                lemma_boundary_step(i + 1, out_len as int, ri, ti);
            }
            assert(cur_step * c <= boundary(out_len as int, ri, ti) * c) by (nonlinear_arith)
                requires
                    cur_step <= boundary(out_len as int, ri, ti),
                    0 < c,
            ;
            assert(last_step * c <= cur_step * c) by (nonlinear_arith)
                requires
                    last_step <= cur_step,
                    0 < c,
            ;
            assert(cur_step <= cur_step * c) by (nonlinear_arith)
                requires
                    0 <= cur_step,
                    1 <= c,
            ;
        }
        let end: usize = (cur_step * c) as usize;
        let ghost lo = index as int;
        let mut bit: i128 = 0;
        while index < end
            invariant
                s == samples@,
                len == s.len(),
                0 <= lo <= index <= end <= len,
                bit == window_sum(s, lo, index as int),
                -32768 * (index - lo) <= bit <= 32767 * (index - lo),
            decreases end - index,
        {
            proof {
                lemma_window_sum_extend(s, lo, index as int);
                assert(-32768 * (index - lo) - 32768 == -32768 * (index + 1 - lo));
                assert(32767 * (index - lo) + 32767 == 32767 * (index + 1 - lo));
                assert(32768 * (index - lo) <= 32768 * 0x1_0000_0000_0000_0000int) by (nonlinear_arith)
                    requires
                        0 <= index - lo <= 0x1_0000_0000_0000_0000int,
                ;
            }
            bit = bit + samples[index] as i128;
            index = index + 1;
        }
        let steps = (cur_step - last_step) as i128;
        let avg: i128 = if bit >= 0 {
            bit / steps
        } else {
            -((-bit) / steps)
        };
        assert(avg == trunc_div(window_sum(s, last_step * ci, cur_step * ci), steps as int));
        let v: i16 = #[verifier::truncate] (avg as i16);
        out.push(v);
        last_step = cur_step;
        i = i + 1;
    }
    assert(out@ =~= resampled(s, ci, ri, ti));
    Ok(out)
}

/// Downsamples `data` to mono at [`LEAST_RATE`].
pub fn shorten(data: &Vec<i16>, channels: u16, rate: u64) -> (r: Vec<i16>)
    requires
        channels >= 1,
        rate >= LEAST_RATE,
    ensures
        r@ == resampled(data@, channels as int, rate as int, LEAST_RATE as int),
{
    match resample(data, channels, rate, LEAST_RATE) {
        Ok(short) => short,
        Err(_) => Vec::new(),
    }
}

} // verus!
