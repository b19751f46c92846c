//! The resampling stage of the decode, resample, encode pipeline.
//!
//! Decoded units arrive in stream order; each good frame is resampled with
//! its own channel count and rate, and the mono results are concatenated.
//! Units that failed to decode are skipped and counted. The whole buffer is
//! then ready to be encoded once, as a single channel at the target rate.

use vstd::prelude::*;
use crate::resample::{resample, resampled, DegenerateRateError};

verus! {

/// One decoded stretch of interleaved PCM samples, with its own parameters.
#[derive(Debug)]
pub struct PcmFrame {
    pub samples: Vec<i16>,
    pub channels: u16,
    pub rate: u64,
}

/// A unit of the input stream that could not be decoded.
#[derive(Debug, Clone, Copy, PartialEq, Eq)]
pub struct FrameDecodeError;

/// Why a transcode failed.
#[derive(Debug, Clone, Copy, PartialEq, Eq)]
pub enum TranscodeError {
    /// The input is not a stream the decoder understands.
    StreamOpen,
    /// A frame's rate is below the target rate.
    DegenerateRate(DegenerateRateError),
    /// The encoder rejected the output parameters.
    EncoderInit,
}

/// The resampled mono buffer of a whole stream, and how many units were
/// skipped on the way.
#[derive(Debug)]
pub struct Accumulated {
    pub samples: Vec<i16>,
    pub skipped: usize,
}

/// A unit that holds a frame the resampler can take: decoded, with at least
/// one channel.
pub open spec fn usable(u: Result<PcmFrame, FrameDecodeError>) -> bool {
    u is Ok && u->Ok_0.channels >= 1
}

/// The unit at `k` is a usable frame whose rate is below the target.
pub open spec fn degenerate_at(
    units: Seq<Result<PcmFrame, FrameDecodeError>>,
    target_rate: u64,
    k: int,
) -> bool {
    usable(units[k]) && units[k]->Ok_0.rate < target_rate
}

/// The concatenation, in stream order, of the resampled usable frames.
pub open spec fn resampled_stream(
    units: Seq<Result<PcmFrame, FrameDecodeError>>,
    target_rate: u64,
) -> Seq<i16>
    decreases units.len(),
{
    if units.len() == 0 {
        Seq::empty()
    } else {
        let prev = resampled_stream(units.drop_last(), target_rate);
        let u = units.last();
        if usable(u) {
            prev + resampled(
                u->Ok_0.samples@,
                u->Ok_0.channels as int,
                u->Ok_0.rate as int,
                target_rate as int,
            )
        } else {
            prev
        }
    }
}

/// The number of units that are not usable frames.
pub open spec fn skipped_count(units: Seq<Result<PcmFrame, FrameDecodeError>>) -> nat
    decreases units.len(),
{
    if units.len() == 0 {
        0
    } else {
        skipped_count(units.drop_last()) + if usable(units.last()) {
            0nat
        } else {
            1nat
        }
    }
}

/// Resampling a stream in two parts gives the two outputs one after the
/// other, and the two skip counts added.
pub proof fn lemma_stream_concat(
    a: Seq<Result<PcmFrame, FrameDecodeError>>,
    b: Seq<Result<PcmFrame, FrameDecodeError>>,
    target_rate: u64,
)
    ensures
        resampled_stream(a + b, target_rate) == resampled_stream(a, target_rate)
            + resampled_stream(b, target_rate),
        skipped_count(a + b) == skipped_count(a) + skipped_count(b),
    decreases b.len(),
{
    if b.len() == 0 {
        assert(a + b =~= a);
        assert(resampled_stream(a, target_rate) + resampled_stream(b, target_rate)
            =~= resampled_stream(a, target_rate));
    } else {
        lemma_stream_concat(a, b.drop_last(), target_rate);
        assert((a + b).drop_last() =~= a + b.drop_last());
        assert((a + b).last() == b.last());
        let u = b.last();
        if usable(u) {
            let tail = resampled(
                u->Ok_0.samples@,
                u->Ok_0.channels as int,
                u->Ok_0.rate as int,
                target_rate as int,
            );
            assert(resampled_stream(a, target_rate) + resampled_stream(b.drop_last(), target_rate)
                + tail =~= resampled_stream(a, target_rate) + (resampled_stream(
                b.drop_last(),
                target_rate,
            ) + tail));
        }
    }
}

/// A unit that failed to decode is skipped: the stream with it gives the
/// same samples as the stream without it, and one more skipped unit.
pub proof fn lemma_corrupt_unit_skipped(
    units: Seq<Result<PcmFrame, FrameDecodeError>>,
    k: int,
    target_rate: u64,
)
    requires
        0 <= k < units.len(),
        units[k] is Err,
    ensures
        resampled_stream(units, target_rate) == resampled_stream(units.remove(k), target_rate),
        skipped_count(units) == skipped_count(units.remove(k)) + 1,
{
    let a = units.take(k);
    let b = units.skip(k + 1);
    let one = seq![units[k]];
    assert(units =~= a + one + b);
    assert(units.remove(k) =~= a + b);
    lemma_stream_concat(a + one, b, target_rate);
    lemma_stream_concat(a, one, target_rate);
    lemma_stream_concat(a, b, target_rate);
    assert(one.drop_last() =~= Seq::<Result<PcmFrame, FrameDecodeError>>::empty());
    assert(resampled_stream(one.drop_last(), target_rate) == Seq::<i16>::empty());
    assert(skipped_count(one.drop_last()) == 0);
    assert(!usable(one.last()));
    assert(skipped_count(one) == 1);
    assert(resampled_stream(one, target_rate) =~= Seq::<i16>::empty());
    assert(resampled_stream(a, target_rate) + resampled_stream(one, target_rate) =~= resampled_stream(a, target_rate));
}

/// Resamples every usable frame of `units` to `target_rate` and concatenates
/// the results; units that failed to decode, or that carry no channel, are
/// skipped and counted.
///
/// Fails, at the first such frame, exactly when a usable frame has a rate
/// below `target_rate`.
pub fn accumulate(units: &Vec<Result<PcmFrame, FrameDecodeError>>, target_rate: u64) -> (r: Result<
    Accumulated,
    TranscodeError,
>)
    requires
        target_rate > 0,
    ensures
        r is Err <==> exists|k: int| 0 <= k < units@.len() && degenerate_at(units@, target_rate, k),
        r is Err ==> exists|k: int|
            0 <= k < units@.len() && degenerate_at(units@, target_rate, k) && (forall|j: int|
                0 <= j < k ==> !degenerate_at(units@, target_rate, j)) && r == Err::<
                Accumulated,
                TranscodeError,
            >(
                TranscodeError::DegenerateRate(
                    DegenerateRateError { rate: units@[k]->Ok_0.rate, target_rate },
                ),
            ),
        r is Ok ==> r->Ok_0.samples@ == resampled_stream(units@, target_rate),
        r is Ok ==> r->Ok_0.skipped == skipped_count(units@),
{
    let mut out: Vec<i16> = Vec::new();
    let mut skipped: usize = 0;
    let mut k: usize = 0;
    while k < units.len()
        invariant
            target_rate > 0,
            k <= units@.len(),
            skipped <= k,
            out@ == resampled_stream(units@.take(k as int), target_rate),
            skipped == skipped_count(units@.take(k as int)),
            forall|j: int| 0 <= j < k ==> !degenerate_at(units@, target_rate, j),
        decreases units@.len() - k,
    {
        proof {
            assert(units@.take(k + 1).drop_last() =~= units@.take(k as int));
            assert(units@.take(k + 1).last() == units@[k as int]);
        }
        match &units[k] {
            Ok(frame) => {
                if frame.channels >= 1 {
                    match resample(&frame.samples, frame.channels, frame.rate, target_rate) {
                        Ok(mut v) => {
                            out.append(&mut v);
                        },
                        Err(e) => {
                            assert(degenerate_at(units@, target_rate, k as int));
                            return Err(TranscodeError::DegenerateRate(e));
                        },
                    }
                } else {
                    skipped = skipped + 1;
                }
            },
            Err(_) => {
                skipped = skipped + 1;
            },
        }
        k = k + 1;
    }
    assert(units@.take(k as int) =~= units@);
    Ok(Accumulated { samples: out, skipped })
}

} // verus!
