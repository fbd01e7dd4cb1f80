//! The read-only analysis summary of a buffer: peak and RMS level per
//! channel, plus the buffer's shape.

use vstd::prelude::*;
use crate::fixed::abs;
use crate::fxmath::isqrt;
use crate::types::{AudioBuffer, MAX_ABS_SAMPLE, bounded_by, sample_seq};

verus! {

/// The derived summary of a buffer.
#[derive(Clone, Debug)]
pub struct AudioAnalysis {
    /// Largest absolute sample per channel.
    pub peak_levels: Vec<i64>,
    /// Root-mean-square level per channel: the floor square root of the
    /// mean of squares.
    pub rms_levels: Vec<i64>,
    pub sample_rate: u32,
    pub channels: usize,
    pub duration: i64,
    pub samples_per_channel: usize,
}

/// The largest absolute sample of a channel.
pub open spec fn peak_of(s: Seq<int>) -> int
    decreases s.len(),
{
    if s.len() == 0 {
        0
    } else {
        let rest = peak_of(s.drop_last());
        if abs(s.last()) > rest {
            abs(s.last())
        } else {
            rest
        }
    }
}

/// The sum of squared samples of a channel.
pub open spec fn sum_squares(s: Seq<int>) -> int
    decreases s.len(),
{
    if s.len() == 0 {
        0
    } else {
        sum_squares(s.drop_last()) + s.last() * s.last()
    }
}

/// `r` is the floor of the square root of `x`.
pub open spec fn is_sqrt_floor(x: int, r: int) -> bool {
    r >= 0 && r * r <= x && x < (r + 1) * (r + 1)
}

/// Computes the read-only analysis of a well-formed buffer: per channel,
/// the peak (largest absolute sample) and the RMS level (floor square
/// root of the mean of squares), plus the rate, channel count, duration
/// and samples per channel.
pub fn get_audio_analysis(audio_buffer: &AudioBuffer) -> (r: AudioAnalysis)
    requires
        audio_buffer.wf(),
        audio_buffer.bounded(MAX_ABS_SAMPLE as int),
    ensures
        r.sample_rate == audio_buffer.sample_rate,
        r.channels == audio_buffer.channels@.len(),
        r.duration == audio_buffer.duration,
        r.samples_per_channel == audio_buffer.samples_per_channel(),
        r.peak_levels@.len() == audio_buffer.channels@.len(),
        r.rms_levels@.len() == audio_buffer.channels@.len(),
        forall|c: int|
            0 <= c < audio_buffer.channels@.len() ==> #[trigger] r.peak_levels@[c] == peak_of(
                audio_buffer.data()[c],
            ),
        forall|c: int|
            0 <= c < audio_buffer.channels@.len() ==> is_sqrt_floor(
                sum_squares(audio_buffer.data()[c]) / audio_buffer.data()[c].len() as int,
                #[trigger] r.rms_levels@[c] as int,
            ),
{
    let n = audio_buffer.channels.len();
    let mut peak_levels: Vec<i64> = Vec::new();
    let mut rms_levels: Vec<i64> = Vec::new();
    let mut c: usize = 0;
    while c < n
        invariant
            c <= n,
            n == audio_buffer.channels@.len(),
            audio_buffer.wf(),
            audio_buffer.bounded(MAX_ABS_SAMPLE as int),
            peak_levels@.len() == c,
            rms_levels@.len() == c,
            forall|cc: int|
                0 <= cc < c ==> #[trigger] peak_levels@[cc] == peak_of(audio_buffer.data()[cc]),
            forall|cc: int|
                0 <= cc < c ==> is_sqrt_floor(
                    sum_squares(audio_buffer.data()[cc]) / audio_buffer.data()[cc].len() as int,
                    #[trigger] rms_levels@[cc] as int,
                ),
        decreases n - c,
    {
        proof {
            assert(audio_buffer.data()[c as int] == sample_seq(audio_buffer.channels@[c as int]@));
        }
        let (peak, rms) = channel_levels(&audio_buffer.channels[c]);
        peak_levels.push(peak);
        rms_levels.push(rms);
        c = c + 1;
    }
    AudioAnalysis {
        peak_levels,
        rms_levels,
        sample_rate: audio_buffer.sample_rate,
        channels: n,
        duration: audio_buffer.duration,
        samples_per_channel: audio_buffer.channels[0].len(),
    }
}

/// The peak and RMS level of one channel.
fn channel_levels(chan: &Vec<i64>) -> (r: (i64, i64))
    requires
        1 <= chan@.len() <= 0x40000000,
        bounded_by(sample_seq(chan@), MAX_ABS_SAMPLE as int),
    ensures
        r.0 == peak_of(sample_seq(chan@)),
        is_sqrt_floor(
            sum_squares(sample_seq(chan@)) / sample_seq(chan@).len() as int,
            r.1 as int,
        ),
{
    let ghost s = sample_seq(chan@);
    let len = chan.len();
    let mut peak: i64 = 0;
    let mut sum: u128 = 0;
    let mut i: usize = 0;
    while i < len
        invariant
            i <= len,
            len == chan@.len(),
            len <= 0x40000000,
            s == sample_seq(chan@),
            bounded_by(s, MAX_ABS_SAMPLE as int),
            peak == peak_of(s.take(i as int)),
            0 <= peak <= MAX_ABS_SAMPLE,
            sum == sum_squares(s.take(i as int)),
            sum <= (i as int) * ((MAX_ABS_SAMPLE as int) * (MAX_ABS_SAMPLE as int)),
        decreases len - i,
    {
        let x = chan[i];
        proof {
            assert(s[i as int] == x as int);
            assert(s.take(i as int + 1).drop_last() =~= s.take(i as int));
            assert(s.take(i as int + 1).last() == s[i as int]);
            assert(0 <= x as int * x as int <= (MAX_ABS_SAMPLE as int) * (MAX_ABS_SAMPLE as int))
                by (nonlinear_arith)
                requires
                    abs(x as int) <= MAX_ABS_SAMPLE as int,
            ;
            assert((i as int + 1) * ((MAX_ABS_SAMPLE as int) * (MAX_ABS_SAMPLE as int)) == (
            i as int) * ((MAX_ABS_SAMPLE as int) * (MAX_ABS_SAMPLE as int)) + (
            MAX_ABS_SAMPLE as int) * (MAX_ABS_SAMPLE as int)) by (nonlinear_arith);
            assert((i as int) * ((MAX_ABS_SAMPLE as int) * (MAX_ABS_SAMPLE as int)) <= (
            0x40000000int) * ((MAX_ABS_SAMPLE as int) * (MAX_ABS_SAMPLE as int)))
                by (nonlinear_arith)
                requires
                    0 <= i <= 0x40000000,
            ;
        }
        let a = if x < 0 {
            -x
        } else {
            x
        };
        if a > peak {
            peak = a;
        }
        let sq = x * x;
        sum = sum + (sq as u128);
        i = i + 1;
    }
    proof {
        assert(s.take(len as int) =~= s);
        vstd::arithmetic::div_mod::lemma_div_pos_is_pos(sum as int, len as int);
        vstd::arithmetic::div_mod::lemma_div_nonincreasing(sum as int, len as int);
        assert((len as int) * ((MAX_ABS_SAMPLE as int) * (MAX_ABS_SAMPLE as int)) <= (
        0x40000000int) * ((MAX_ABS_SAMPLE as int) * (MAX_ABS_SAMPLE as int)))
            by (nonlinear_arith)
            requires
                0 <= len <= 0x40000000,
        ;
    }
    let mean = sum / (len as u128);
    let root = isqrt(mean);
    proof {
        assert(mean as int == sum_squares(s) / s.len() as int);
    }
    (peak, root as i64)
}

} // verus!
