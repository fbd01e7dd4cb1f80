//! The loader/serializer component: file-extension dispatch, raw-sample
//! normalization, deinterleaving and interleaving, and buffer assembly.
//!
//! Reading and writing actual files is I/O and lives outside the library;
//! the surrounding application decodes containers into raw samples and
//! hands them here, and takes interleaved frames back for writing.

use vstd::prelude::*;
use vstd::string::StringSliceAdditionalSpecFns;
use crate::fixed::{FP_ONE, abs, div_trunc, div_trunc_i64, lemma_div_trunc_bound};
use crate::types::{
    AudioBuffer, AudioError, MAX_CHANNELS, MAX_SAMPLES, MAX_SAMPLE_RATE,
};

verus! {

/// Which decode path a file extension selects.
#[derive(Clone, Copy, PartialEq, Eq, Structural, Debug)]
pub enum AudioFormat {
    /// The uncompressed container, read directly.
    Wav,
    /// A compressed format, handled by the general multi-format decoder.
    Compressed,
}

/// The loader/serializer component.
pub struct AudioLoader;

/// ASCII lowercasing of one byte.
pub open spec fn lower_byte(c: u8) -> u8 {
    if 65 <= c <= 90 {
        (c + 32) as u8
    } else {
        c
    }
}

/// Index of the last `.` (byte 46) in `b`, or -1 if there is none.
pub open spec fn last_dot(b: Seq<u8>) -> int
    decreases b.len(),
{
    if b.len() == 0 {
        -1
    } else if b[b.len() - 1] == 46 {
        b.len() - 1
    } else {
        last_dot(b.drop_last())
    }
}

/// The lowercased extension of a path: the bytes after the last `.`,
/// or the empty sequence if the path has no `.`.
pub open spec fn extension_of(b: Seq<u8>) -> Seq<u8> {
    if last_dot(b) < 0 {
        Seq::empty()
    } else {
        Seq::new((b.len() - 1 - last_dot(b)) as nat, |j: int| lower_byte(b[last_dot(b) + 1 + j]))
    }
}

/// The extension of the uncompressed container, "wav".
pub open spec fn is_wav_ext(e: Seq<u8>) -> bool {
    e.len() == 3 && e[0] == 119 && e[1] == 97 && e[2] == 118
}

/// The extensions the general decode path accepts: "mp3", "m4a", "aac",
/// "ogg" and "flac".
pub open spec fn is_compressed_ext(e: Seq<u8>) -> bool {
    ||| (e.len() == 3 && e[0] == 109 && e[1] == 112 && e[2] == 51)
    ||| (e.len() == 3 && e[0] == 109 && e[1] == 52 && e[2] == 97)
    ||| (e.len() == 3 && e[0] == 97 && e[1] == 97 && e[2] == 99)
    ||| (e.len() == 3 && e[0] == 111 && e[1] == 103 && e[2] == 103)
    ||| (e.len() == 4 && e[0] == 102 && e[1] == 108 && e[2] == 97 && e[3] == 99)
}

/// The decode path a path's extension selects, if any.
pub open spec fn format_of(b: Seq<u8>) -> Option<AudioFormat> {
    if is_wav_ext(extension_of(b)) {
        Some(AudioFormat::Wav)
    } else if is_compressed_ext(extension_of(b)) {
        Some(AudioFormat::Compressed)
    } else {
        None
    }
}

/// A raw integer sample as a decoder hands it out, tagged with its
/// representation. (Float representations are already in sample format
/// and do not pass through normalization.)
#[derive(Clone, Copy, PartialEq, Eq, Structural, Debug)]
pub enum RawSample {
    U8(u8),
    U16(u16),
    U32(u32),
    S8(i8),
    S16(i16),
    S32(i32),
}

/// Normalization of a raw sample to fixed point: `(raw - midpoint) /
/// scale`, where `midpoint` and `scale` are the representation's
/// zero-point and maximum magnitude (the midpoint is zero for signed
/// types).
pub open spec fn normalize_spec(r: RawSample) -> int {
    match r {
        RawSample::U8(v) => (v as int - 128) * 8192,
        RawSample::U16(v) => (v as int - 32768) * 32,
        RawSample::U32(v) => div_trunc(v as int - 2147483648, 2048),
        RawSample::S8(v) => (v as int) * 8192,
        RawSample::S16(v) => (v as int) * 32,
        RawSample::S32(v) => div_trunc(v as int, 2048),
    }
}

/// Normalization of an integer sample from the uncompressed container,
/// which divides by the stored integer type's maximum magnitude,
/// `2^(bits-1) - 1` (signed-max normalization, a slightly asymmetric
/// convention: a full-scale negative value maps just beyond -1.0).
pub open spec fn normalize_wav_int_spec(v: int, bits: int) -> int {
    div_trunc(v * FP_ONE, vstd::arithmetic::power2::pow2((bits - 1) as nat) as int - 1)
}

/// Number of samples channel `c` receives when `total` interleaved
/// samples are dealt round-robin to `nc` channels.
pub open spec fn deinterleave_len(total: int, nc: int, c: int) -> int {
    if total <= c {
        0
    } else {
        (total - c - 1) / nc + 1
    }
}

/// Channel `c` of the deinterleaving of `s` into `nc` channels: sample
/// `i` of `s` goes to channel `i % nc`.
pub open spec fn deinterleave_channel(s: Seq<i64>, nc: int, c: int) -> Seq<i64> {
    Seq::new(deinterleave_len(s.len() as int, nc, c) as nat, |k: int| s[k * nc + c])
}

/// The interleaving of equally long channels, frame-major: element `k`
/// comes from channel `k % nc`, frame `k / nc`.
pub open spec fn interleave_spec(chans: Seq<Seq<i64>>, frames: int) -> Seq<i64> {
    Seq::new(
        (frames * chans.len()) as nat,
        |k: int| chans[k % (chans.len() as int)][k / (chans.len() as int)],
    )
}

impl AudioLoader {
    /// Selects the decode path for a file path by its extension, or
    /// reports the format as unsupported.
    pub fn detect_format(path: &str) -> (r: Result<AudioFormat, AudioError>)
        ensures
            r == match format_of(path.spec_bytes()) {
                Some(f) => Ok::<AudioFormat, AudioError>(f),
                None => Err::<AudioFormat, AudioError>(AudioError::UnsupportedFormat),
            },
    {
        let b = path.as_bytes();
        let n = b.len();
        let mut i: usize = n;
        proof {
            assert(b@.subrange(0, n as int) =~= b@);
        }
        while i > 0
            invariant
                i <= n,
                n == b@.len(),
                b@ == path.spec_bytes(),
                last_dot(b@) == last_dot(b@.subrange(0, i as int)),
            decreases i,
        {
            if b[i - 1] == 46 {
                proof {
                    let pre = b@.subrange(0, i as int);
                    assert(pre[i - 1] == 46);
                    assert(last_dot(pre) == i - 1);
                }
                return Self::classify_extension(b, i);
            }
            proof {
                let pre = b@.subrange(0, i as int);
                assert(pre[i - 1] != 46);
                assert(pre.drop_last() =~= b@.subrange(0, i as int - 1));
            }
            i = i - 1;
        }
        proof {
            assert(b@.subrange(0, 0) =~= Seq::<u8>::empty());
            assert(last_dot(b@) == -1);
        }
        Err(AudioError::UnsupportedFormat)
    }

    /// Classifies the extension that starts at byte `start` (just after
    /// the last `.`).
    fn classify_extension(b: &[u8], start: usize) -> (r: Result<AudioFormat, AudioError>)
        requires
            1 <= start <= b@.len(),
            last_dot(b@) == start - 1,
        ensures
            r == match format_of(b@) {
                Some(f) => Ok::<AudioFormat, AudioError>(f),
                None => Err::<AudioFormat, AudioError>(AudioError::UnsupportedFormat),
            },
    {
        let n = b.len();
        let m = n - start;
        if m == 3 {
            let c0 = lower_ascii(b[start]);
            let c1 = lower_ascii(b[start + 1]);
            let c2 = lower_ascii(b[start + 2]);
            proof {
                assert(extension_of(b@)[0] == lower_byte(b@[start as int]));
                assert(extension_of(b@)[1] == lower_byte(b@[start as int + 1]));
                assert(extension_of(b@)[2] == lower_byte(b@[start as int + 2]));
            }
            if c0 == 119 && c1 == 97 && c2 == 118 {
                Ok(AudioFormat::Wav)
            } else if (c0 == 109 && c1 == 112 && c2 == 51) || (c0 == 109 && c1 == 52 && c2 == 97)
                || (c0 == 97 && c1 == 97 && c2 == 99) || (c0 == 111 && c1 == 103 && c2 == 103) {
                Ok(AudioFormat::Compressed)
            } else {
                Err(AudioError::UnsupportedFormat)
            }
        } else if m == 4 {
            let c0 = lower_ascii(b[start]);
            let c1 = lower_ascii(b[start + 1]);
            let c2 = lower_ascii(b[start + 2]);
            let c3 = lower_ascii(b[start + 3]);
            proof {
                assert(extension_of(b@)[0] == lower_byte(b@[start as int]));
                assert(extension_of(b@)[1] == lower_byte(b@[start as int + 1]));
                assert(extension_of(b@)[2] == lower_byte(b@[start as int + 2]));
                assert(extension_of(b@)[3] == lower_byte(b@[start as int + 3]));
            }
            if c0 == 102 && c1 == 108 && c2 == 97 && c3 == 99 {
                Ok(AudioFormat::Compressed)
            } else {
                Err(AudioError::UnsupportedFormat)
            }
        } else {
            Err(AudioError::UnsupportedFormat)
        }
    }

    /// Normalizes one raw decoder sample to fixed point, exact per
    /// [`normalize_spec`]; the result is always in `[-1.0, 1.0]`.
    pub fn normalize_sample(r: RawSample) -> (s: i64)
        ensures
            s == normalize_spec(r),
            abs(s as int) <= FP_ONE,
    {
        match r {
            RawSample::U8(v) => ((v as i64) - 128) * 8192,
            RawSample::U16(v) => ((v as i64) - 32768) * 32,
            RawSample::U32(v) => {
                let d = (v as i64) - 2147483648;
                proof {
                    lemma_div_trunc_bound(d as int, 2048);
                }
                div_trunc_i64(d, 2048)
            },
            RawSample::S8(v) => (v as i64) * 8192,
            RawSample::S16(v) => (v as i64) * 32,
            RawSample::S32(v) => {
                proof {
                    lemma_div_trunc_bound(v as int, 2048);
                }
                div_trunc_i64(v as i64, 2048)
            },
        }
    }

    /// Normalizes one integer sample of the uncompressed container at its
    /// stored bit depth, exact per [`normalize_wav_int_spec`]: the sample
    /// is divided by `2^(bits-1) - 1`. A sample within the type's range
    /// comes out in `[-1.0, 1.0]` except the negative full-scale value,
    /// which lands just beyond -1.0 (the documented asymmetry of
    /// signed-max normalization).
    pub fn normalize_wav_int(v: i32, bits: u16) -> (s: i64)
        requires
            2 <= bits <= 32,
        ensures
            s == normalize_wav_int_spec(v as int, bits as int),
            abs(v as int) <= vstd::arithmetic::power2::pow2((bits - 1) as nat) - 1 ==> abs(
                s as int,
            ) <= FP_ONE,
    {
        let mut m: i64 = 1;
        let mut k: u16 = 0;
        proof {
            vstd::arithmetic::power2::lemma2_to64();
        }
        while k < bits - 1
            invariant
                2 <= bits <= 32,
                k <= bits - 1,
                m == vstd::arithmetic::power2::pow2(k as nat),
                1 <= m <= 0x8000_0000,
            decreases bits - 1 - k,
        {
            proof {
                vstd::arithmetic::power2::lemma_pow2_unfold((k + 1) as nat);
                vstd::arithmetic::power2::lemma2_to64();
                if (k as nat) < 30 {
                    vstd::arithmetic::power2::lemma_pow2_strictly_increases(k as nat, 30);
                }
            }
            m = m * 2;
            k = k + 1;
        }
        let divisor = m - 1;
        proof {
            assert(m >= 2) by {
                vstd::arithmetic::power2::lemma2_to64();
                if (1 as nat) < (bits - 1) as nat {
                    vstd::arithmetic::power2::lemma_pow2_strictly_increases(
                        1,
                        (bits - 1) as nat,
                    );
                }
            }
            lemma_div_trunc_bound(v as int * FP_ONE as int, divisor as int);
            assert(abs(v as int * FP_ONE as int) <= 0x80000000 * FP_ONE as int)
                by (nonlinear_arith)
                requires
                    -0x80000000 <= v as int <= 0x7fffffff,
                    FP_ONE == 1048576,
            ;
            if abs(v as int) <= divisor {
                assert(abs(v as int * FP_ONE as int) <= divisor as int * FP_ONE as int)
                    by (nonlinear_arith)
                    requires
                        abs(v as int) <= divisor as int,
                        FP_ONE > 0,
                ;
                vstd::arithmetic::div_mod::lemma_div_is_ordered(
                    abs(v as int * FP_ONE as int),
                    divisor as int * FP_ONE as int,
                    divisor as int,
                );
                assert(divisor as int * FP_ONE as int / (divisor as int) == FP_ONE as int) by {
                    vstd::arithmetic::div_mod::lemma_div_multiples_vanish(
                        FP_ONE as int,
                        divisor as int,
                    );
                    assert(divisor as int * FP_ONE as int == FP_ONE as int * divisor as int)
                        by (nonlinear_arith);
                }
            }
        }
        div_trunc_i64((v as i64) * FP_ONE, divisor)
    }

    /// Converts interleaved samples to one vector per channel, assigning
    /// sample `i` to channel `i % num_channels`. Zero channels yields an
    /// empty result (a defensive case that should not occur in practice).
    pub fn deinterleave_samples(interleaved: Vec<i64>, num_channels: usize) -> (out: Vec<
        Vec<i64>,
    >)
        ensures
            num_channels == 0 ==> out@.len() == 0,
            num_channels >= 1 ==> out@.len() == num_channels,
            forall|c: int|
                0 <= c < out@.len() ==> (#[trigger] out@[c])@ == deinterleave_channel(
                    interleaved@,
                    num_channels as int,
                    c,
                ),
    {
        let mut out: Vec<Vec<i64>> = Vec::new();
        if num_channels == 0 {
            return out;
        }
        let total = interleaved.len();
        let mut c: usize = 0;
        while c < num_channels
            invariant
                c <= num_channels,
                num_channels >= 1,
                total == interleaved@.len(),
                out@.len() == c,
                forall|cc: int|
                    0 <= cc < c ==> (#[trigger] out@[cc])@ == deinterleave_channel(
                        interleaved@,
                        num_channels as int,
                        cc,
                    ),
            decreases num_channels - c,
        {
            let cnt: usize = if total > c {
                (total - 1 - c) / num_channels + 1
            } else {
                0
            };
            proof {
                assert(cnt == deinterleave_len(total as int, num_channels as int, c as int));
                if total > c {
                    vstd::arithmetic::div_mod::lemma_fundamental_div_mod(
                        total as int - 1 - c as int,
                        num_channels as int,
                    );
                    vstd::arithmetic::div_mod::lemma_remainder_lower(
                        total as int - 1 - c as int,
                        num_channels as int,
                    );
                }
            }
            let mut chan: Vec<i64> = Vec::new();
            let mut k: usize = 0;
            while k < cnt
                invariant
                    k <= cnt,
                    c < num_channels,
                    total == interleaved@.len(),
                    cnt == deinterleave_len(total as int, num_channels as int, c as int),
                    cnt >= 1 ==> (cnt as int - 1) * (num_channels as int) + c < total,
                    chan@.len() == k,
                    forall|j: int|
                        0 <= j < k ==> chan@[j] == interleaved@[j * (num_channels as int) + c],
                decreases cnt - k,
            {
                proof {
                    assert(k as int * (num_channels as int) <= (cnt as int - 1) * (
                    num_channels as int)) by (nonlinear_arith)
                        requires
                            0 <= k as int <= cnt as int - 1,
                            num_channels >= 1,
                    ;
                }
                let idx = k * num_channels + c;
                chan.push(interleaved[idx]);
                k = k + 1;
            }
            proof {
                assert(chan@ =~= deinterleave_channel(
                    interleaved@,
                    num_channels as int,
                    c as int,
                ));
            }
            out.push(chan);
            c = c + 1;
        }
        out
    }

    /// Interleaves the channels of a well-formed buffer, frame-major,
    /// exact per [`interleave_spec`]: the output holds every frame of
    /// every channel, one sample per channel per frame.
    pub fn interleave_channels(buffer: &AudioBuffer) -> (out: Vec<i64>)
        requires
            buffer.wf(),
        ensures
            out@ == interleave_spec(
                Seq::new(buffer.channels@.len(), |c: int| buffer.channels@[c]@),
                buffer.samples_per_channel(),
            ),
    {
        let nc = buffer.channels.len();
        let frames = buffer.channels[0].len();
        let ghost chans = Seq::new(buffer.channels@.len(), |c: int| buffer.channels@[c]@);
        let mut out: Vec<i64> = Vec::new();
        let mut f: usize = 0;
        while f < frames
            invariant
                f <= frames,
                buffer.wf(),
                nc == buffer.channels@.len(),
                frames == buffer.samples_per_channel(),
                chans == Seq::new(buffer.channels@.len(), |c: int| buffer.channels@[c]@),
                out@.len() == f * nc,
                forall|x: int|
                    0 <= x < out@.len() ==> #[trigger] out@[x] == chans[x % (nc as int)][
                        x / (nc as int)
                    ],
            decreases frames - f,
        {
            let mut c: usize = 0;
            while c < nc
                invariant
                    c <= nc,
                    f < frames,
                    buffer.wf(),
                    nc == buffer.channels@.len(),
                    frames == buffer.samples_per_channel(),
                    chans == Seq::new(buffer.channels@.len(), |cc: int| buffer.channels@[cc]@),
                    out@.len() == f * nc + c,
                    forall|x: int|
                        0 <= x < out@.len() ==> #[trigger] out@[x] == chans[x % (nc as int)][
                            x / (nc as int)
                        ],
                decreases nc - c,
            {
                let v = buffer.channels[c][f];
                proof {
                    vstd::arithmetic::div_mod::lemma_fundamental_div_mod_converse(
                        f as int * nc as int + c as int,
                        nc as int,
                        f as int,
                        c as int,
                    );
                }
                out.push(v);
                c = c + 1;
            }
            proof {
                assert((f + 1) * nc as int == f * nc as int + nc as int) by (nonlinear_arith);
            }
            f = f + 1;
        }
        proof {
            assert(out@ =~= interleave_spec(chans, frames as int));
        }
        out
    }

    /// Assembles a buffer from interleaved samples: keeps the complete
    /// frames (a trailing partial frame is dropped so that all channels
    /// come out equally long), deinterleaves, and derives the duration
    /// as samples-per-channel over the sampling frequency. Fails with a
    /// decode error when no well-formed buffer can be built: no samples,
    /// no channels, or a rate or size outside the supported limits.
    pub fn from_interleaved(samples: Vec<i64>, num_channels: usize, sample_rate: u32) -> (r:
        Result<AudioBuffer, AudioError>)
        ensures
            r matches Err(e) ==> e == AudioError::DecodeError,
            ({
                let frames = samples@.len() as int / num_channels as int;
                &&& (r is Ok <==> {
                    &&& 1 <= num_channels <= MAX_CHANNELS
                    &&& 1 <= sample_rate <= MAX_SAMPLE_RATE
                    &&& 1 <= frames <= MAX_SAMPLES
                })
                &&& (r matches Ok(b) ==> {
                    &&& b.wf()
                    &&& b.sample_rate == sample_rate
                    &&& b.channels@.len() == num_channels
                    &&& b.samples_per_channel() == frames
                    &&& b.duration == AudioBuffer::duration_of(frames, sample_rate as int)
                    &&& forall|c: int|
                        0 <= c < num_channels ==> (#[trigger] b.channels@[c])@
                            == deinterleave_channel(
                            samples@.take(frames * num_channels as int),
                            num_channels as int,
                            c,
                        )
                })
            }),
    {
        if num_channels == 0 || num_channels > MAX_CHANNELS {
            return Err(AudioError::DecodeError);
        }
        if sample_rate == 0 || sample_rate > MAX_SAMPLE_RATE {
            return Err(AudioError::DecodeError);
        }
        let frames = samples.len() / num_channels;
        if frames == 0 || frames > MAX_SAMPLES {
            return Err(AudioError::DecodeError);
        }
        proof {
            vstd::arithmetic::div_mod::lemma_fundamental_div_mod(
                samples@.len() as int,
                num_channels as int,
            );
            assert(num_channels as int * (samples@.len() as int / num_channels as int)
                == frames as int * num_channels as int) by (nonlinear_arith)
                requires
                    frames as int == samples@.len() as int / num_channels as int,
            ;
            assert(samples@.len() as int % num_channels as int >= 0);
            assert(frames as int * num_channels as int <= samples@.len());
        }
        let total = frames * num_channels;
        let mut samples = samples;
        samples.truncate(total);
        let channels = Self::deinterleave_samples(samples, num_channels);
        proof {
            lemma_full_frames_len(total as int, num_channels as int, frames as int);
        }
        let duration = (((frames as u64) * (FP_ONE as u64)) / (sample_rate as u64)) as i64;
        let b = AudioBuffer { channels, sample_rate, duration };
        proof {
            assert(b.samples_per_channel() == frames as int);
        }
        Ok(b)
    }
}

/// ASCII lowercasing of one byte, exact per [`lower_byte`].
fn lower_ascii(c: u8) -> (r: u8)
    ensures
        r == lower_byte(c),
{
    if c >= 65 && c <= 90 {
        c + 32
    } else {
        c
    }
}

/// With `total = frames * nc` interleaved samples, every channel
/// receives exactly `frames` samples.
pub proof fn lemma_full_frames_len(total: int, nc: int, frames: int)
    requires
        nc >= 1,
        frames >= 0,
        total == frames * nc,
    ensures
        forall|c: int| 0 <= c < nc ==> deinterleave_len(total, nc, c) == frames,
{
    assert forall|c: int| 0 <= c < nc implies deinterleave_len(total, nc, c) == frames by {
        if frames == 0 {
            assert(total == 0) by (nonlinear_arith)
                requires
                    total == frames * nc,
                    frames == 0,
            ;
        } else {
            assert(total > c && (frames - 1) * nc <= total - c - 1 < frames * nc && (frames - 1)
                * nc + nc == frames * nc) by (nonlinear_arith)
                requires
                    total == frames * nc,
                    frames >= 1,
                    nc >= 1,
                    0 <= c < nc,
            ;
            vstd::arithmetic::div_mod::lemma_fundamental_div_mod_converse(
                total - c - 1,
                nc,
                frames - 1,
                total - c - 1 - (frames - 1) * nc,
            );
        }
    }
}

/// Deinterleaving then re-interleaving reproduces any interleaved
/// sequence whose length is a whole number of frames, exactly.
pub proof fn lemma_deinterleave_interleave(s: Seq<i64>, nc: int, frames: int)
    requires
        nc >= 1,
        frames >= 0,
        s.len() == frames * nc,
    ensures
        interleave_spec(
            Seq::new(nc as nat, |c: int| deinterleave_channel(s, nc, c)),
            frames,
        ) == s,
{
    let chans = Seq::new(nc as nat, |c: int| deinterleave_channel(s, nc, c));
    lemma_full_frames_len(s.len() as int, nc, frames);
    let t = interleave_spec(chans, frames);
    assert forall|x: int| 0 <= x < t.len() implies t[x] == s[x] by {
        let c = x % nc;
        let f = x / nc;
        vstd::arithmetic::div_mod::lemma_fundamental_div_mod(x, nc);
        vstd::arithmetic::div_mod::lemma_remainder_lower(x, nc);
        vstd::arithmetic::div_mod::lemma_remainder_upper(x, nc);
        vstd::arithmetic::div_mod::lemma_div_pos_is_pos(x, nc);
        assert(f < frames) by (nonlinear_arith)
            requires
                x == f * nc + c,
                0 <= c < nc,
                x < frames * nc,
                nc >= 1,
                f >= 0,
        ;
        assert(t[x] == chans[c][f]);
        assert(chans[c][f] == s[f * nc + c]);
    }
    assert(t =~= s);
}

/// The serializer/loader round trip at the buffer level: interleaving a
/// well-formed buffer's channels and deinterleaving the result with the
/// same channel count gives back exactly the original channels.
pub proof fn lemma_save_load_round_trip(b: AudioBuffer)
    requires
        b.wf(),
    ensures
        forall|c: int|
            0 <= c < b.channels@.len() ==> deinterleave_channel(
                interleave_spec(
                    Seq::new(b.channels@.len(), |cc: int| b.channels@[cc]@),
                    b.samples_per_channel(),
                ),
                b.channels@.len() as int,
                c,
            ) == (#[trigger] b.channels@[c])@,
{
    let nc = b.channels@.len() as int;
    let frames = b.samples_per_channel();
    let chans = Seq::new(b.channels@.len(), |cc: int| b.channels@[cc]@);
    let s = interleave_spec(chans, frames);
    assert(frames * nc >= 0) by (nonlinear_arith)
        requires
            frames >= 0,
            nc >= 0,
    ;
    lemma_full_frames_len(s.len() as int, nc, frames);
    assert forall|c: int| 0 <= c < nc implies deinterleave_channel(s, nc, c)
        == (b.channels@[c])@ by {
        let d = deinterleave_channel(s, nc, c);
        assert forall|k: int| 0 <= k < d.len() implies d[k] == b.channels@[c]@[k] by {
            assert(d[k] == s[k * nc + c]);
            assert(0 <= k * nc + c < frames * nc && (k * nc + c) % nc == c && (k * nc + c) / nc
                == k) by {
                assert(0 <= k * nc + c < frames * nc) by (nonlinear_arith)
                    requires
                        0 <= k < frames,
                        0 <= c < nc,
                        nc >= 1,
                ;
                vstd::arithmetic::div_mod::lemma_fundamental_div_mod_converse(
                    k * nc + c,
                    nc,
                    k,
                    c,
                );
            }
        }
        assert(d =~= b.channels@[c]@);
    }
}

} // verus!
