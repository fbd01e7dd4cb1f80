//! The interchange data types: buffers, effect configurations, progress
//! reports and the error taxonomy.

use vstd::prelude::*;
use crate::fixed::{FP_ONE, abs};

verus! {

/// Largest sample count per channel the library accepts (2^30, about
/// 6.8 hours at 44.1 kHz — a machine limit that keeps every index and
/// duration computation inside `i64`).
pub const MAX_SAMPLES: usize = 0x4000_0000;

/// Largest channel count the library accepts.
pub const MAX_CHANNELS: usize = 64;

/// Highest accepted sampling frequency in Hz.
pub const MAX_SAMPLE_RATE: u32 = 1000000;

/// Headroom bound on any intermediate sample magnitude (2^31, or 2048.0
/// in real units). Filter states saturate here, and every stage accepts
/// samples within it, so products with fixed-point coefficients stay
/// inside `i64`.
pub const MAX_ABS_SAMPLE: i64 = 0x8000_0000;

/// Magnitude bound on every sample the pipeline can emit: only the
/// reverb stage can exceed the working headroom, and its convolution
/// against a two-second impulse response adds at most
/// `2 * MAX_SAMPLE_RATE` headroom-bounded terms to a headroom-bounded
/// dry signal.
pub const MAX_ABS_REVERB_OUT: i64 = MAX_ABS_SAMPLE + 2 * 1000000 * MAX_ABS_SAMPLE;

/// What can go wrong while loading, processing or saving audio.
#[derive(Clone, Copy, PartialEq, Eq, Structural, Debug)]
pub enum AudioError {
    /// The file extension is recognized by neither decode path.
    UnsupportedFormat,
    /// Probing, codec construction or packet decode failed, or no usable
    /// track or sample data was present.
    DecodeError,
    /// An underlying read or write failed (other than a clean end of stream).
    IoError,
    /// The track list changed mid-stream; finite-file processing does not
    /// support that.
    UnsupportedStreamChange,
    /// The output container could not be created, written or finalized.
    EncodeError,
}

impl AudioError {
    /// A user-facing description of the error.
    pub fn message(&self) -> (r: &'static str)
        ensures
            r@ == self.message_spec(),
    {
        match self {
            AudioError::UnsupportedFormat => "unsupported audio format",
            AudioError::DecodeError => "failed to decode audio data",
            AudioError::IoError => "audio input/output failed",
            AudioError::UnsupportedStreamChange => "unsupported mid-stream track change",
            AudioError::EncodeError => "failed to encode audio output",
        }
    }

    pub open spec fn message_spec(&self) -> Seq<char> {
        match self {
            AudioError::UnsupportedFormat => "unsupported audio format"@,
            AudioError::DecodeError => "failed to decode audio data"@,
            AudioError::IoError => "audio input/output failed"@,
            AudioError::UnsupportedStreamChange => "unsupported mid-stream track change"@,
            AudioError::EncodeError => "failed to encode audio output"@,
        }
    }
}

/// The mathematical content of one channel: its samples as integers.
pub open spec fn sample_seq(v: Seq<i64>) -> Seq<int> {
    Seq::new(v.len(), |i: int| v[i] as int)
}

/// All samples of `s` have magnitude at most `bound`.
pub open spec fn bounded_by(s: Seq<int>, bound: int) -> bool {
    forall|i: int| 0 <= i < s.len() ==> abs(#[trigger] s[i]) <= bound
}

/// The single interchange entity: one fixed-point sample sequence per
/// channel, at a fixed sampling frequency.
#[derive(Clone, Debug, PartialEq)]
pub struct AudioBuffer {
    /// One sample sequence per audio channel.
    pub channels: Vec<Vec<i64>>,
    /// Sampling frequency in Hz.
    pub sample_rate: u32,
    /// Derived length in fixed-point seconds: samples-per-channel / rate.
    pub duration: i64,
}

impl AudioBuffer {
    /// The per-channel sample data as integer sequences.
    pub open spec fn data(&self) -> Seq<Seq<int>> {
        Seq::new(self.channels@.len(), |c: int| sample_seq(self.channels@[c]@))
    }

    /// Samples per channel (all channels have the same length when the
    /// buffer is well formed).
    pub open spec fn samples_per_channel(&self) -> int {
        self.channels@[0]@.len() as int
    }

    /// The derived duration a well-formed buffer must carry: samples per
    /// channel divided by the sampling frequency, in fixed-point seconds.
    pub open spec fn duration_of(samples: int, rate: int) -> int {
        samples * FP_ONE / rate
    }

    /// The invariant every buffer satisfies at a component boundary:
    /// a valid rate, at least one channel, all channels non-empty and of
    /// equal length, and the duration derived from that length.
    pub open spec fn wf(&self) -> bool {
        &&& 1 <= self.sample_rate <= MAX_SAMPLE_RATE
        &&& 1 <= self.channels@.len() <= MAX_CHANNELS
        &&& 1 <= self.samples_per_channel() <= MAX_SAMPLES
        &&& forall|c: int|
            0 <= c < self.channels@.len() ==> (#[trigger] self.channels@[c]@).len()
                == self.samples_per_channel()
        &&& self.duration == Self::duration_of(
            self.samples_per_channel(),
            self.sample_rate as int,
        )
    }

    /// All samples in all channels have magnitude at most `bound`.
    pub open spec fn bounded(&self, bound: int) -> bool {
        forall|c: int| 0 <= c < self.data().len() ==> bounded_by(#[trigger] self.data()[c], bound)
    }

    /// All samples lie in the normalized range `[-1.0, 1.0]`.
    pub open spec fn normalized(&self) -> bool {
        self.bounded(FP_ONE as int)
    }
}

/// The basic effect selection: the four always-present knobs.
#[derive(Clone, Copy, Debug, PartialEq, Eq, Structural)]
pub struct AudioEffects {
    /// Wet/dry mix of the convolution reverb, `0` = off, up to `1.0`.
    pub reverb: i64,
    /// Low-shelf boost intensity, `0` = off.
    pub bass_boost: i64,
    /// Playback-rate multiplier, `1.0` = unchanged.
    pub tempo: i64,
    /// Linear gain applied to every sample.
    pub volume: i64,
}

/// The full effects configuration one processing request carries.
/// All fixed-point fields use the crate's Q20 format ([`FP_ONE`] = 1.0).
#[derive(Clone, Copy, Debug)]
pub struct AdvancedAudioEffects {
    /// Wet/dry mix of the convolution reverb, `0` = off, up to `1.0`.
    pub reverb: i64,
    /// Low-shelf boost intensity, `0` = off; the shelf gain is
    /// `bass_boost * 20` dB.
    pub bass_boost: i64,
    /// Playback-rate multiplier, `1.0` = unchanged.
    pub tempo: i64,
    /// Linear gain applied to every sample.
    pub volume: i64,
    /// Normalized gain of the 60 Hz band, `0.5` = unity.
    pub eq_low: Option<i64>,
    /// Normalized gain of the 250 Hz band, `0.5` = unity.
    pub eq_low_mid: Option<i64>,
    /// Normalized gain of the 1000 Hz band, `0.5` = unity.
    pub eq_mid: Option<i64>,
    /// Normalized gain of the 4000 Hz band, `0.5` = unity.
    pub eq_high_mid: Option<i64>,
    /// Normalized gain of the 16000 Hz band, `0.5` = unity.
    pub eq_high: Option<i64>,
    /// Enables the envelope-follower limiter.
    pub limiter: Option<bool>,
    /// Limiter threshold in dB (default -1 dB).
    pub limiter_threshold: Option<i64>,
    /// Limiter release time in fixed-point seconds (default 0.1 s).
    pub limiter_release: Option<i64>,
    /// Enables the fixed-gain attenuator.
    pub attenuator: Option<bool>,
    /// Attenuator gain in dB (default +10 dB).
    pub attenuator_gain: Option<i64>,
    /// Master gate for the limiter and the attenuator (default on).
    pub audio_processing_enabled: Option<bool>,
}

impl AdvancedAudioEffects {
    /// The value ranges a configuration must respect: mix and EQ gains are
    /// normalized to `[0, 1]` as the design states; the remaining bounds
    /// are generous machine limits that keep every product inside `i64`.
    pub open spec fn wf(&self) -> bool {
        &&& abs(self.volume as int) <= 1000 * FP_ONE
        &&& FP_ONE / 100 <= self.tempo <= 100 * FP_ONE
        &&& 0 <= self.bass_boost <= 50 * FP_ONE
        &&& 0 <= self.reverb <= FP_ONE
        &&& (self.eq_low matches Some(g) ==> 0 <= g <= FP_ONE)
        &&& (self.eq_low_mid matches Some(g) ==> 0 <= g <= FP_ONE)
        &&& (self.eq_mid matches Some(g) ==> 0 <= g <= FP_ONE)
        &&& (self.eq_high_mid matches Some(g) ==> 0 <= g <= FP_ONE)
        &&& (self.eq_high matches Some(g) ==> 0 <= g <= FP_ONE)
        &&& (self.limiter_threshold matches Some(t) ==> abs(t as int) <= 100 * FP_ONE)
        &&& (self.limiter_release matches Some(t) ==> 1 <= t <= 100 * FP_ONE)
        &&& (self.attenuator_gain matches Some(g) ==> abs(g as int) <= 100 * FP_ONE)
    }

    /// A neutral configuration: unit volume and tempo, everything else off.
    pub fn neutral() -> (r: Self)
        ensures
            r.wf(),
            r.volume == FP_ONE,
            r.tempo == FP_ONE,
            r.bass_boost == 0,
            r.reverb == 0,
            r.eq_low.is_none() && r.eq_low_mid.is_none() && r.eq_mid.is_none()
                && r.eq_high_mid.is_none() && r.eq_high.is_none(),
            r.limiter.is_none() && r.limiter_threshold.is_none() && r.limiter_release.is_none(),
            r.attenuator.is_none() && r.attenuator_gain.is_none(),
            r.audio_processing_enabled.is_none(),
    {
        AdvancedAudioEffects {
            reverb: 0,
            bass_boost: 0,
            tempo: FP_ONE,
            volume: FP_ONE,
            eq_low: None,
            eq_low_mid: None,
            eq_mid: None,
            eq_high_mid: None,
            eq_high: None,
            limiter: None,
            limiter_threshold: None,
            limiter_release: None,
            attenuator: None,
            attenuator_gain: None,
            audio_processing_enabled: None,
        }
    }
}

/// A progress report the surrounding application may surface; the
/// percentage is a fixed-point number in `[0, 100.0]`.
#[derive(Clone, Debug)]
pub struct ProcessingProgress {
    pub percentage: i64,
    pub stage: String,
}

} // verus!
