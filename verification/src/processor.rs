//! The effects pipeline: a fixed, ordered sequence of DSP transforms over
//! a buffer — volume, tempo change, bass boost, equalizer, limiter,
//! attenuator and convolution reverb — each conditionally skipped per its
//! activation threshold.

use vstd::prelude::*;
use crate::fixed::{
    FP_ONE, abs, clamp_spec, clamp_unit_spec, clamp_i64, clamp_unit, div_trunc, div_trunc_i64,
    fx_mul, fx_mul_spec, fx_mul_wide, lemma_div_trunc_bound, lemma_fx_mul_bound,
    lemma_mul_abs_bound,
};
use crate::fxmath::{
    LN10_FP, TWO_PI_FP, PI_FP, db_to_linear_spec, db_to_linear, fx_exp_spec, fx_exp, fx_ln_spec,
    fx_ln, fx_sin_spec, fx_sin, fx_cos_spec, fx_cos,
};
use crate::types::{
    AdvancedAudioEffects, AudioBuffer, AudioError, MAX_ABS_REVERB_OUT, MAX_ABS_SAMPLE,
    MAX_SAMPLES, MAX_SAMPLE_RATE, bounded_by, sample_seq,
};

verus! {

/// The effects-processing component.
pub struct AudioProcessor;

/// The tempo stage runs when the multiplier is more than 0.001 from 1.0.
pub open spec fn tempo_applies(tempo: int) -> bool {
    1000 * abs(tempo - FP_ONE) > FP_ONE
}

/// The bass-boost stage runs when the intensity is above 0.001.
pub open spec fn bass_applies(boost: int) -> bool {
    1000 * boost > FP_ONE
}

/// The reverb stage runs when the wet/dry mix is above 0.001.
pub open spec fn reverb_applies(mix: int) -> bool {
    1000 * mix > FP_ONE
}

/// The equalizer stage runs when any band gain is set.
pub open spec fn eq_applies(e: AdvancedAudioEffects) -> bool {
    e.eq_low is Some || e.eq_low_mid is Some || e.eq_mid is Some || e.eq_high_mid is Some
        || e.eq_high is Some
}

/// The limiter runs when enabled and not gated off.
pub open spec fn limiter_applies(e: AdvancedAudioEffects) -> bool {
    e.limiter == Some(true) && e.audio_processing_enabled != Some(false)
}

/// The attenuator runs when enabled and not gated off.
pub open spec fn attenuator_applies(e: AdvancedAudioEffects) -> bool {
    e.attenuator == Some(true) && e.audio_processing_enabled != Some(false)
}

/// The one-pole low-pass coefficient of the bass shelf at 200 Hz:
/// `alpha = omega / (1 + omega)` with `omega = 2 pi 200 / rate`.
pub open spec fn bass_alpha(rate: int) -> int {
    let omega = div_trunc(200 * TWO_PI_FP, rate);
    div_trunc(omega * FP_ONE, FP_ONE + omega)
}

/// The linear shelf gain of the bass boost: `boost * 20` dB.
pub open spec fn bass_gain(boost: int) -> int {
    db_to_linear_spec(boost * 20)
}

/// The running low-frequency estimate after sample `i`:
/// `y_i = alpha x_i + (1 - alpha) y_{i-1}`, starting from zero.
pub open spec fn bass_y(s: Seq<int>, alpha: int, i: int) -> int
    decreases i,
{
    let prev = if i <= 0 {
        0
    } else {
        bass_y(s, alpha, i - 1)
    };
    div_trunc(alpha * s[i] + (FP_ONE - alpha) * prev, FP_ONE as int)
}

/// The bass-boost stage: the low band scaled by the shelf gain, the high
/// band (`x - y`) passed through, their sum clamped to `[-1.0, 1.0]`.
pub open spec fn bass_spec(s: Seq<int>, alpha: int, gain: int) -> Seq<int> {
    Seq::new(
        s.len(),
        |i: int|
            {
                let y = bass_y(s, alpha, i);
                clamp_unit_spec(fx_mul_spec(y, gain) + s[i] - y)
            },
    )
}

/// Half of 1.0 in fixed point: the unity setting of an EQ band gain.
pub const HALF_FP: i64 = 524288;

/// The configured gain of an EQ band, defaulting to unity (0.5).
pub open spec fn eq_gain_of(g: Option<i64>) -> int {
    match g {
        Some(v) => v as int,
        None => HALF_FP as int,
    }
}

/// The peaking-biquad coefficients for one EQ band: center frequency
/// `freq`, Q of 0.7, gain `db` (the returned tuple is `(b0, b1, b2, a0,
/// a2)`; `a1` equals `b1`). The gain enters as `A = 10^(db/40)`, `alpha`
/// as `sin(omega) / 1.4` with the sine clamped into `[0, 1.0]`, which
/// keeps the filter well-posed (`a0 >= 1`) even for center frequencies
/// at or beyond the Nyquist limit, where the sine of the reduced angle
/// goes negative.
pub open spec fn peak_coeffs(rate: int, freq: int, db: int) -> (int, int, int, int, int) {
    let omega = div_trunc(TWO_PI_FP * freq, rate) % (TWO_PI_FP as int);
    let sin_v = clamp_spec(fx_sin_spec(omega), 0, FP_ONE as int);
    let cos_v = fx_cos_spec(omega);
    let alpha = div_trunc(sin_v * 5, 7);
    let a_lin = fx_exp_spec(div_trunc(db * LN10_FP, 40 * FP_ONE));
    (
        FP_ONE + fx_mul_spec(alpha, a_lin),
        -2 * cos_v,
        FP_ONE - fx_mul_spec(alpha, a_lin),
        FP_ONE + div_trunc(alpha * FP_ONE, a_lin),
        FP_ONE - div_trunc(alpha * FP_ONE, a_lin),
    )
}

/// The biquad state `y_i`: the standard second-order recurrence divided
/// by `a0`, saturated at the engine's headroom bound.
pub open spec fn biquad_y(x: Seq<int>, b0: int, b1: int, b2: int, a0: int, a2: int, i: int) -> int
    decreases i,
{
    let x0 = x[i];
    let x1 = if i >= 1 {
        x[i - 1]
    } else {
        0
    };
    let x2 = if i >= 2 {
        x[i - 2]
    } else {
        0
    };
    let y1 = if i >= 1 {
        biquad_y(x, b0, b1, b2, a0, a2, i - 1)
    } else {
        0
    };
    let y2 = if i >= 2 {
        biquad_y(x, b0, b1, b2, a0, a2, i - 2)
    } else {
        0
    };
    clamp_spec(
        div_trunc(b0 * x0 + b1 * x1 + b2 * x2 - b1 * y1 - a2 * y2, a0),
        -MAX_ABS_SAMPLE as int,
        MAX_ABS_SAMPLE as int,
    )
}

/// One biquad band over a channel, each output clamped to `[-1.0, 1.0]`.
pub open spec fn band_spec(x: Seq<int>, b0: int, b1: int, b2: int, a0: int, a2: int) -> Seq<
    int,
> {
    Seq::new(x.len(), |i: int| clamp_unit_spec(biquad_y(x, b0, b1, b2, a0, a2, i)))
}

/// One equalizer band pass: skipped (identity) when the gain is within
/// 0.1 dB of unity.
pub open spec fn eq_band_pass(x: Seq<int>, rate: int, freq: int, g: Option<i64>) -> Seq<int> {
    let db = (eq_gain_of(g) - HALF_FP) * 40;
    if 10 * abs(db) < FP_ONE {
        x
    } else {
        let c = peak_coeffs(rate, freq, db);
        band_spec(x, c.0, c.1, c.2, c.3, c.4)
    }
}

/// The five-band equalizer: peaking filters at 60, 250, 1000, 4000 and
/// 16000 Hz, composed serially, each fed from the previous band's output.
pub open spec fn eq_spec(x: Seq<int>, rate: int, e: AdvancedAudioEffects) -> Seq<int> {
    let s1 = eq_band_pass(x, rate, 60, e.eq_low);
    let s2 = eq_band_pass(s1, rate, 250, e.eq_low_mid);
    let s3 = eq_band_pass(s2, rate, 1000, e.eq_mid);
    let s4 = eq_band_pass(s3, rate, 4000, e.eq_high_mid);
    eq_band_pass(s4, rate, 16000, e.eq_high)
}

/// The default limiter threshold: -1 dB.
pub const DEFAULT_LIMITER_THRESHOLD_DB: i64 = -FP_ONE;

/// The default limiter release time: 0.1 s.
pub const DEFAULT_LIMITER_RELEASE: i64 = 104858;

/// The limiter attack time: 1 ms.
pub const LIMITER_ATTACK: i64 = 1049;

/// The limiter threshold a configuration selects, in dB.
pub open spec fn limiter_threshold_db_of(e: AdvancedAudioEffects) -> int {
    match e.limiter_threshold {
        Some(t) => t as int,
        None => DEFAULT_LIMITER_THRESHOLD_DB as int,
    }
}

/// The limiter release time a configuration selects, in fixed-point
/// seconds.
pub open spec fn limiter_release_of(e: AdvancedAudioEffects) -> int {
    match e.limiter_release {
        Some(t) => t as int,
        None => DEFAULT_LIMITER_RELEASE as int,
    }
}

/// The per-sample decay coefficient of the envelope follower for a time
/// constant (fixed-point seconds) at a sampling frequency:
/// `exp(-1 / (time * rate))`.
pub open spec fn follower_coeff(time: int, rate: int) -> int {
    fx_exp_spec(-div_trunc((FP_ONE as int) * (FP_ONE as int), time * rate))
}

/// The envelope after sample `i`: an asymmetric one-pole follower of the
/// sample magnitudes, with the attack coefficient when the level rises
/// above the envelope and the release coefficient otherwise.
pub open spec fn limiter_env(s: Seq<int>, ca: int, cr: int, i: int) -> int
    decreases i,
{
    let prev = if i <= 0 {
        0
    } else {
        limiter_env(s, ca, cr, i - 1)
    };
    let lvl = abs(s[i]);
    let c = if lvl > prev {
        ca
    } else {
        cr
    };
    div_trunc(c * prev + (FP_ONE - c) * lvl, FP_ONE as int)
}

/// Output sample `i` of the limiter: when the envelope exceeds the
/// threshold, the sample is scaled by `(env/thr)^(-19/20)` — the gain
/// reduction of a 20:1 compression ratio — and it is always hard-clamped
/// to the threshold.
pub open spec fn limited_at(s: Seq<int>, ca: int, cr: int, thr: int, i: int) -> int {
    let env = limiter_env(s, ca, cr, i);
    let y = if env > thr {
        let excess = div_trunc(env * FP_ONE, thr);
        let reduction = fx_exp_spec(-div_trunc(19 * fx_ln_spec(excess), 20));
        fx_mul_spec(s[i], reduction)
    } else {
        s[i]
    };
    clamp_spec(y, -thr, thr)
}

/// The limiter stage over one channel.
pub open spec fn limiter_spec(s: Seq<int>, ca: int, cr: int, thr: int) -> Seq<int> {
    Seq::new(s.len(), |i: int| limited_at(s, ca, cr, thr, i))
}

/// The attenuator stage: a flat linear gain, clamped to `[-1.0, 1.0]`.
pub open spec fn attenuator_spec(s: Seq<int>, gain: int) -> Seq<int> {
    Seq::new(s.len(), |i: int| clamp_unit_spec(fx_mul_spec(s[i], gain)))
}

/// The decaying envelope of the reverb impulse response at index `i` of
/// `n`: `exp(-3 i / n)`.
pub open spec fn reverb_decay(i: int, n: int) -> int {
    fx_exp_spec(-div_trunc(3 * i * FP_ONE, n))
}

/// What the synthesized impulse response satisfies: `n` samples, each a
/// noise value scaled by the decaying envelope, so each is bounded by it.
pub open spec fn valid_impulse(imp: Seq<int>, n: int) -> bool {
    &&& imp.len() == n
    &&& forall|i: int| 0 <= i < n ==> abs(#[trigger] imp[i]) <= reverb_decay(i, n)
    &&& forall|i: int| 0 <= i < n ==> abs(#[trigger] imp[i]) <= FP_ONE
}

/// The first `j` terms of the convolution sum at output index `t`: each
/// term is an input sample times an impulse sample, rescaled.
pub open spec fn conv_partial(x: Seq<int>, imp: Seq<int>, t: int, j: nat) -> int
    decreases j,
{
    if j == 0 {
        0
    } else {
        let jj = j - 1;
        let term = if 0 <= t - jj < x.len() {
            div_trunc(x[t - jj] * imp[jj], FP_ONE as int)
        } else {
            0
        };
        conv_partial(x, imp, t, jj as nat) + term
    }
}

/// Output sample `t` of the reverb: the dry signal scaled by `1 - mix`
/// plus the wet convolution scaled by `mix`.
pub open spec fn reverb_at(x: Seq<int>, imp: Seq<int>, mix: int, t: int) -> int {
    div_trunc(x[t] * (FP_ONE - mix), FP_ONE as int) + fx_mul_spec(
        conv_partial(x, imp, t, imp.len()),
        mix,
    )
}

/// The reverb stage over one channel: the convolution tail beyond the
/// original length is discarded.
pub open spec fn reverb_spec(x: Seq<int>, imp: Seq<int>, mix: int) -> Seq<int> {
    Seq::new(x.len(), |t: int| reverb_at(x, imp, mix, t))
}

/// The volume stage: every sample times the linear gain.
pub open spec fn volume_spec(s: Seq<int>, volume: int) -> Seq<int> {
    Seq::new(s.len(), |i: int| fx_mul_spec(s[i], volume))
}

/// Channel length after a tempo change: floor(len / tempo).
pub open spec fn tempo_out_len(len: int, tempo: int) -> int {
    len * FP_ONE / tempo
}

/// Output sample `i` of the tempo stage: linear interpolation between the
/// two source samples around the fractional position `i * tempo`, the
/// upper index clamped to the last valid one.
pub open spec fn lerp_at(s: Seq<int>, tempo: int, i: int) -> int {
    let pos = i * tempo;
    let j = pos / (FP_ONE as int);
    let frac = pos % (FP_ONE as int);
    let jn = if j + 1 < s.len() {
        j + 1
    } else {
        s.len() - 1
    };
    div_trunc(s[j] * (FP_ONE - frac) + s[jn] * frac, FP_ONE as int)
}

/// The tempo stage: time-scaling by linear-interpolated resampling. This
/// is pitch-coupled time-stretch: perceived pitch changes along with the
/// duration.
pub open spec fn tempo_spec(s: Seq<int>, tempo: int) -> Seq<int> {
    Seq::new(tempo_out_len(s.len() as int, tempo) as nat, |i: int| lerp_at(s, tempo, i))
}

/// The whole pipeline over the per-channel data: volume, then each
/// conditional stage in its fixed order. `imp` is the reverb impulse
/// response; it is ignored when the reverb stage is skipped.
pub open spec fn process_spec(
    data: Seq<Seq<int>>,
    rate: int,
    e: AdvancedAudioEffects,
    imp: Seq<int>,
) -> Seq<Seq<int>> {
    let d1 = Seq::new(data.len(), |c: int| volume_spec(data[c], e.volume as int));
    let d2 = if tempo_applies(e.tempo as int) {
        Seq::new(d1.len(), |c: int| tempo_spec(d1[c], e.tempo as int))
    } else {
        d1
    };
    let d3 = if bass_applies(e.bass_boost as int) {
        Seq::new(d2.len(), |c: int| bass_spec(d2[c], bass_alpha(rate), bass_gain(e.bass_boost as int)))
    } else {
        d2
    };
    let d4 = if eq_applies(e) {
        Seq::new(d3.len(), |c: int| eq_spec(d3[c], rate, e))
    } else {
        d3
    };
    let d5 = if limiter_applies(e) {
        Seq::new(
            d4.len(),
            |c: int|
                limiter_spec(
                    d4[c],
                    follower_coeff(LIMITER_ATTACK as int, rate),
                    follower_coeff(limiter_release_of(e), rate),
                    db_to_linear_spec(limiter_threshold_db_of(e)),
                ),
        )
    } else {
        d4
    };
    let d6 = if attenuator_applies(e) {
        Seq::new(d5.len(), |c: int| attenuator_spec(d5[c], db_to_linear_spec(attenuator_db_of(e))))
    } else {
        d5
    };
    if reverb_applies(e.reverb as int) {
        Seq::new(d6.len(), |c: int| reverb_spec(d6[c], imp, e.reverb as int))
    } else {
        d6
    }
}

impl AudioProcessor {
    /// Applies the whole effects chain to a normalized buffer, in the
    /// fixed order volume, tempo, bass boost, equalizer, limiter,
    /// attenuator, reverb, each stage conditionally skipped per its
    /// activation threshold. Never fails on a well-formed input; with
    /// reverb off the result is pinned exactly, with reverb on it equals
    /// the pipeline applied with some impulse response bounded by the
    /// decaying envelope.
    pub fn process_audio(audio_buffer: AudioBuffer, effects: &AdvancedAudioEffects) -> (r: Result<
        AudioBuffer,
        AudioError,
    >)
        requires
            audio_buffer.wf(),
            audio_buffer.normalized(),
            effects.wf(),
            tempo_applies(effects.tempo as int) ==> 1 <= tempo_out_len(
                audio_buffer.samples_per_channel(),
                effects.tempo as int,
            ) <= MAX_SAMPLES,
        ensures
            r is Ok,
            r matches Ok(out) ==> {
                &&& out.wf()
                &&& out.sample_rate == audio_buffer.sample_rate
                &&& out.channels@.len() == audio_buffer.channels@.len()
                &&& out.samples_per_channel() == (if tempo_applies(effects.tempo as int) {
                    tempo_out_len(audio_buffer.samples_per_channel(), effects.tempo as int)
                } else {
                    audio_buffer.samples_per_channel()
                })
                &&& out.duration == (if tempo_applies(effects.tempo as int) {
                    AudioBuffer::duration_of(
                        tempo_out_len(audio_buffer.samples_per_channel(), effects.tempo as int),
                        audio_buffer.sample_rate as int,
                    )
                } else {
                    audio_buffer.duration as int
                })
                &&& out.bounded(MAX_ABS_REVERB_OUT as int)
                &&& (!reverb_applies(effects.reverb as int) ==> out.bounded(
                    MAX_ABS_SAMPLE as int,
                ))
                &&& (!reverb_applies(effects.reverb as int) ==> out.data() == process_spec(
                    audio_buffer.data(),
                    audio_buffer.sample_rate as int,
                    *effects,
                    Seq::<int>::empty(),
                ))
                &&& (reverb_applies(effects.reverb as int) ==> exists|imp: Seq<int>|
                    #[trigger] valid_impulse(imp, 2 * audio_buffer.sample_rate as int)
                        && out.data() == process_spec(
                        audio_buffer.data(),
                        audio_buffer.sample_rate as int,
                        *effects,
                        imp,
                    ))
            },
    {
        let ghost data0 = audio_buffer.data();
        let ghost rate = audio_buffer.sample_rate as int;
        let mut buf = audio_buffer;

        Self::apply_volume(&mut buf, effects.volume);
        proof {
            let d1 = Seq::new(data0.len(), |c: int| volume_spec(data0[c], effects.volume as int));
            assert(buf.data() =~= d1);
            assert forall|c: int| 0 <= c < buf.data().len() implies bounded_by(
                #[trigger] buf.data()[c],
                MAX_ABS_SAMPLE as int,
            ) by {
                lemma_volume_seq_bounded(data0[c], effects.volume as int);
            }
        }

        let tempo_on = {
            let d = effects.tempo - FP_ONE;
            let ad = if d < 0 {
                -d
            } else {
                d
            };
            1000 * ad > FP_ONE
        };
        if tempo_on {
            buf = match Self::apply_tempo_change(buf, effects.tempo) {
                Ok(b) => b,
                Err(e) => {
                    return Err(e);
                },
            };
            proof {
                let d1 = Seq::new(
                    data0.len(),
                    |c: int| volume_spec(data0[c], effects.volume as int),
                );
                assert(buf.data() =~= Seq::new(
                    d1.len(),
                    |c: int| tempo_spec(d1[c], effects.tempo as int),
                ));
            }
        }
        let ghost d2 = buf.data();

        let bass_on = 1000 * effects.bass_boost > FP_ONE;
        if bass_on {
            let _ = Self::apply_bass_boost(&mut buf, effects.bass_boost);
            proof {
                assert(buf.data() =~= Seq::new(
                    d2.len(),
                    |c: int|
                        bass_spec(
                            d2[c],
                            bass_alpha(rate),
                            bass_gain(effects.bass_boost as int),
                        ),
                ));
            }
        }
        let ghost d3 = buf.data();

        let eq_on = effects.eq_low.is_some() || effects.eq_low_mid.is_some()
            || effects.eq_mid.is_some() || effects.eq_high_mid.is_some()
            || effects.eq_high.is_some();
        if eq_on {
            let _ = Self::apply_equalizer(&mut buf, effects);
            proof {
                assert(buf.data() =~= Seq::new(d3.len(), |c: int| eq_spec(d3[c], rate, *effects)));
            }
        }
        let ghost d4 = buf.data();

        let limiter_on = match effects.limiter {
            Some(b) => b,
            None => false,
        } && match effects.audio_processing_enabled {
            Some(b) => b,
            None => true,
        };
        if limiter_on {
            let _ = Self::apply_limiter(&mut buf, effects);
            proof {
                assert(buf.data() =~= Seq::new(
                    d4.len(),
                    |c: int|
                        limiter_spec(
                            d4[c],
                            follower_coeff(LIMITER_ATTACK as int, rate),
                            follower_coeff(limiter_release_of(*effects), rate),
                            db_to_linear_spec(limiter_threshold_db_of(*effects)),
                        ),
                ));
            }
        }
        let ghost d5 = buf.data();

        let attenuator_on = match effects.attenuator {
            Some(b) => b,
            None => false,
        } && match effects.audio_processing_enabled {
            Some(b) => b,
            None => true,
        };
        if attenuator_on {
            let _ = Self::apply_attenuator(&mut buf, effects);
            proof {
                assert(buf.data() =~= Seq::new(
                    d5.len(),
                    |c: int|
                        attenuator_spec(d5[c], db_to_linear_spec(attenuator_db_of(*effects))),
                ));
            }
        }
        let ghost d6 = buf.data();

        let reverb_on = 1000 * effects.reverb > FP_ONE;
        if reverb_on {
            let ghost pre = buf;
            let out = match Self::apply_reverb(buf, effects.reverb) {
                Ok(b) => b,
                Err(e) => {
                    return Err(e);
                },
            };
            proof {
                let imp = choose|imp: Seq<int>|
                    #[trigger] valid_impulse(imp, 2 * pre.sample_rate as int) && forall|c: int|
                        0 <= c < out.channels@.len() ==> sample_seq((#[trigger] out.channels@[c])@)
                            == reverb_spec(
                            sample_seq(pre.channels@[c]@),
                            imp,
                            effects.reverb as int,
                        );
                assert forall|c: int| 0 <= c < d6.len() implies d6[c] == sample_seq(
                    pre.channels@[c]@,
                ) by {}
                assert(out.data() =~= Seq::new(
                    d6.len(),
                    |c: int| reverb_spec(d6[c], imp, effects.reverb as int),
                ));
                assert(out.data() == process_spec(data0, rate, *effects, imp));
            }
            Ok(out)
        } else {
            proof {
                assert(buf.data() == process_spec(data0, rate, *effects, Seq::<int>::empty()));
                assert forall|c: int| 0 <= c < buf.data().len() implies bounded_by(
                    #[trigger] buf.data()[c],
                    MAX_ABS_REVERB_OUT as int,
                ) by {
                    let sd = buf.data()[c];
                    assert(bounded_by(sd, MAX_ABS_SAMPLE as int));
                    assert forall|i: int| 0 <= i < sd.len() implies abs(#[trigger] sd[i])
                        <= MAX_ABS_REVERB_OUT as int by {
                        assert(abs(sd[i]) <= MAX_ABS_SAMPLE as int);
                    }
                }
            }
            Ok(buf)
        }
    }
}

impl AudioProcessor {
    /// Multiplies every sample of every channel by `volume` (the one
    /// stage that never clamps).
    pub fn apply_volume(audio_buffer: &mut AudioBuffer, volume: i64)
        requires
            abs(volume as int) <= 1000 * FP_ONE,
            old(audio_buffer).bounded(MAX_ABS_SAMPLE as int),
        ensures
            final(audio_buffer).sample_rate == old(audio_buffer).sample_rate,
            final(audio_buffer).duration == old(audio_buffer).duration,
            final(audio_buffer).channels@.len() == old(audio_buffer).channels@.len(),
            forall|c: int|
                0 <= c < old(audio_buffer).channels@.len() ==> sample_seq(
                    (#[trigger] final(audio_buffer).channels@[c])@,
                ) == volume_spec(sample_seq(old(audio_buffer).channels@[c]@), volume as int),
            forall|c: int|
                0 <= c < old(audio_buffer).channels@.len() ==> (
                #[trigger] final(audio_buffer).channels@[c])@.len() == old(
                    audio_buffer,
                ).channels@[c]@.len(),
            old(audio_buffer).wf() ==> final(audio_buffer).wf(),
            old(audio_buffer).channels@.len() >= 1 ==> final(audio_buffer).samples_per_channel()
                == old(audio_buffer).samples_per_channel(),
    {
        let n = audio_buffer.channels.len();
        let mut new_channels: Vec<Vec<i64>> = Vec::new();
        let mut c: usize = 0;
        while c < n
            invariant
                c <= n,
                n == audio_buffer.channels@.len(),
                abs(volume as int) <= 1000 * FP_ONE,
                audio_buffer.bounded(MAX_ABS_SAMPLE as int),
                new_channels@.len() == c,
                forall|cc: int|
                    0 <= cc < c ==> sample_seq((#[trigger] new_channels@[cc])@) == volume_spec(
                        sample_seq(audio_buffer.channels@[cc]@),
                        volume as int,
                    ),
                forall|cc: int|
                    0 <= cc < c ==> (#[trigger] new_channels@[cc])@.len()
                        == audio_buffer.channels@[cc]@.len(),
            decreases n - c,
        {
            proof {
                assert(bounded_by(audio_buffer.data()[c as int], MAX_ABS_SAMPLE as int));
                assert(audio_buffer.data()[c as int] == sample_seq(
                    audio_buffer.channels@[c as int]@,
                ));
            }
            let out = volume_channel(&audio_buffer.channels[c], volume);
            new_channels.push(out);
            c = c + 1;
        }
        audio_buffer.channels = new_channels;
    }

    /// Time-scales the buffer by `tempo`: every channel is resampled to
    /// `floor(len / tempo)` samples by linear interpolation, and the
    /// duration is recomputed from the new length.
    pub fn apply_tempo_change(audio_buffer: AudioBuffer, tempo: i64) -> (r: Result<
        AudioBuffer,
        AudioError,
    >)
        requires
            audio_buffer.wf(),
            audio_buffer.bounded(MAX_ABS_SAMPLE as int),
            FP_ONE / 100 <= tempo <= 100 * FP_ONE,
            tempo_out_len(audio_buffer.samples_per_channel(), tempo as int) <= MAX_SAMPLES,
        ensures
            r is Ok,
            r matches Ok(nb) ==> {
                &&& nb.sample_rate == audio_buffer.sample_rate
                &&& nb.channels@.len() == audio_buffer.channels@.len()
                &&& forall|c: int|
                    0 <= c < nb.channels@.len() ==> sample_seq((#[trigger] nb.channels@[c])@)
                        == tempo_spec(
                        sample_seq(audio_buffer.channels@[c]@),
                        tempo as int,
                    )
                &&& nb.duration == AudioBuffer::duration_of(
                    tempo_out_len(audio_buffer.samples_per_channel(), tempo as int),
                    nb.sample_rate as int,
                )
                &&& nb.bounded(MAX_ABS_SAMPLE as int)
                &&& nb.samples_per_channel() == tempo_out_len(
                    audio_buffer.samples_per_channel(),
                    tempo as int,
                )
                &&& tempo_out_len(audio_buffer.samples_per_channel(), tempo as int) >= 1
                    ==> nb.wf()
            },
    {
        let len = audio_buffer.channels[0].len();
        let new_length = (((len as u64) * (FP_ONE as u64)) / (tempo as u64)) as usize;
        proof {
            vstd::arithmetic::div_mod::lemma_div_pos_is_pos(
                len as int * FP_ONE as int,
                tempo as int,
            );
            assert(len as int * FP_ONE as int <= MAX_SAMPLES * FP_ONE as int)
                by (nonlinear_arith)
                requires
                    0 <= len <= MAX_SAMPLES,
            ;
            vstd::arithmetic::div_mod::lemma_div_is_ordered_by_denominator(
                len as int * FP_ONE as int,
                FP_ONE as int / 100,
                tempo as int,
            );
        }
        let n = audio_buffer.channels.len();
        let mut new_channels: Vec<Vec<i64>> = Vec::new();
        let mut c: usize = 0;
        while c < n
            invariant
                c <= n,
                n == audio_buffer.channels@.len(),
                audio_buffer.wf(),
                audio_buffer.bounded(MAX_ABS_SAMPLE as int),
                FP_ONE / 100 <= tempo <= 100 * FP_ONE,
                len == audio_buffer.samples_per_channel(),
                new_length == tempo_out_len(len as int, tempo as int),
                new_channels@.len() == c,
                forall|cc: int|
                    0 <= cc < c ==> sample_seq((#[trigger] new_channels@[cc])@) == tempo_spec(
                        sample_seq(audio_buffer.channels@[cc]@),
                        tempo as int,
                    ),
                forall|cc: int|
                    0 <= cc < c ==> bounded_by(
                        sample_seq((#[trigger] new_channels@[cc])@),
                        MAX_ABS_SAMPLE as int,
                    ),
            decreases n - c,
        {
            proof {
                assert(audio_buffer.data()[c as int] == sample_seq(
                    audio_buffer.channels@[c as int]@,
                ));
            }
            let out = tempo_channel(&audio_buffer.channels[c], tempo, new_length);
            new_channels.push(out);
            c = c + 1;
        }
        let duration = (((new_length as u64) * (FP_ONE as u64))
            / (audio_buffer.sample_rate as u64)) as i64;
        let nb = AudioBuffer {
            channels: new_channels,
            sample_rate: audio_buffer.sample_rate,
            duration,
        };
        proof {
            assert forall|c: int| 0 <= c < nb.data().len() implies bounded_by(
                #[trigger] nb.data()[c],
                MAX_ABS_SAMPLE as int,
            ) by {
                assert(nb.data()[c] == sample_seq(nb.channels@[c]@));
            }
        }
        Ok(nb)
    }
}

/// The default attenuator gain: +10 dB.
pub const DEFAULT_ATTENUATOR_DB: i64 = 10 * FP_ONE;

/// The attenuator gain a configuration selects, in dB.
pub open spec fn attenuator_db_of(e: AdvancedAudioEffects) -> int {
    match e.attenuator_gain {
        Some(g) => g as int,
        None => DEFAULT_ATTENUATOR_DB as int,
    }
}

impl AudioProcessor {
    /// Applies the one-pole low-shelf bass boost: per channel, a running
    /// low-frequency estimate is scaled by the shelf gain (`boost * 20`
    /// dB), the high band passes through, and the sum is clamped to
    /// `[-1.0, 1.0]`, so the output is always normalized.
    pub fn apply_bass_boost(audio_buffer: &mut AudioBuffer, boost: i64) -> (r: Result<
        (),
        AudioError,
    >)
        requires
            old(audio_buffer).wf(),
            old(audio_buffer).bounded(MAX_ABS_SAMPLE as int),
            0 <= boost <= 50 * FP_ONE,
        ensures
            r is Ok,
            final(audio_buffer).sample_rate == old(audio_buffer).sample_rate,
            final(audio_buffer).duration == old(audio_buffer).duration,
            final(audio_buffer).channels@.len() == old(audio_buffer).channels@.len(),
            forall|c: int|
                0 <= c < old(audio_buffer).channels@.len() ==> sample_seq(
                    (#[trigger] final(audio_buffer).channels@[c])@,
                ) == bass_spec(
                    sample_seq(old(audio_buffer).channels@[c]@),
                    bass_alpha(old(audio_buffer).sample_rate as int),
                    bass_gain(boost as int),
                ),
            final(audio_buffer).wf(),
            final(audio_buffer).samples_per_channel() == old(
                audio_buffer,
            ).samples_per_channel(),
            final(audio_buffer).normalized(),
    {
        let alpha = bass_alpha_exec(audio_buffer.sample_rate);
        let gain = db_to_linear(boost * 20);
        let n = audio_buffer.channels.len();
        let mut new_channels: Vec<Vec<i64>> = Vec::new();
        let mut c: usize = 0;
        while c < n
            invariant
                c <= n,
                n == audio_buffer.channels@.len(),
                audio_buffer.wf(),
                audio_buffer.bounded(MAX_ABS_SAMPLE as int),
                0 <= alpha < FP_ONE,
                alpha == bass_alpha(audio_buffer.sample_rate as int),
                1 <= gain <= 4096 * FP_ONE,
                gain == bass_gain(boost as int),
                new_channels@.len() == c,
                forall|cc: int|
                    0 <= cc < c ==> sample_seq((#[trigger] new_channels@[cc])@) == bass_spec(
                        sample_seq(audio_buffer.channels@[cc]@),
                        alpha as int,
                        gain as int,
                    ),
                forall|cc: int|
                    0 <= cc < c ==> (#[trigger] new_channels@[cc])@.len()
                        == audio_buffer.channels@[cc]@.len() && bounded_by(
                        sample_seq(new_channels@[cc]@),
                        FP_ONE as int,
                    ),
            decreases n - c,
        {
            proof {
                assert(audio_buffer.data()[c as int] == sample_seq(
                    audio_buffer.channels@[c as int]@,
                ));
            }
            let out = bass_channel(&audio_buffer.channels[c], alpha, gain);
            new_channels.push(out);
            c = c + 1;
        }
        let ghost old_buf = *audio_buffer;
        audio_buffer.channels = new_channels;
        proof {
            assert forall|c: int| 0 <= c < audio_buffer.data().len() implies bounded_by(
                #[trigger] audio_buffer.data()[c],
                FP_ONE as int,
            ) by {
                assert(audio_buffer.data()[c] == sample_seq(audio_buffer.channels@[c]@));
            }
        }
        Ok(())
    }

    /// Applies the envelope-follower limiter: a threshold in linear units
    /// from the configured dB value (default -1 dB), an asymmetric
    /// follower with 1 ms attack and the configured release (default 100
    /// ms), soft 20:1 gain reduction above the threshold, and a hard
    /// clamp at the threshold as the final safety ceiling. With a
    /// threshold at or below 0 dB, the output is normalized.
    pub fn apply_limiter(audio_buffer: &mut AudioBuffer, effects: &AdvancedAudioEffects) -> (r:
        Result<(), AudioError>)
        requires
            old(audio_buffer).wf(),
            old(audio_buffer).bounded(MAX_ABS_SAMPLE as int),
            effects.wf(),
        ensures
            r is Ok,
            final(audio_buffer).sample_rate == old(audio_buffer).sample_rate,
            final(audio_buffer).duration == old(audio_buffer).duration,
            final(audio_buffer).channels@.len() == old(audio_buffer).channels@.len(),
            forall|c: int|
                0 <= c < old(audio_buffer).channels@.len() ==> sample_seq(
                    (#[trigger] final(audio_buffer).channels@[c])@,
                ) == limiter_spec(
                    sample_seq(old(audio_buffer).channels@[c]@),
                    follower_coeff(LIMITER_ATTACK as int, old(audio_buffer).sample_rate as int),
                    follower_coeff(
                        limiter_release_of(*effects),
                        old(audio_buffer).sample_rate as int,
                    ),
                    db_to_linear_spec(limiter_threshold_db_of(*effects)),
                ),
            final(audio_buffer).wf(),
            final(audio_buffer).samples_per_channel() == old(
                audio_buffer,
            ).samples_per_channel(),
            final(audio_buffer).bounded(db_to_linear_spec(limiter_threshold_db_of(*effects))),
            final(audio_buffer).bounded(MAX_ABS_SAMPLE as int),
            limiter_threshold_db_of(*effects) <= 0 ==> final(audio_buffer).normalized(),
    {
        let threshold_db = match effects.limiter_threshold {
            Some(t) => t,
            None => DEFAULT_LIMITER_THRESHOLD_DB,
        };
        let release = match effects.limiter_release {
            Some(t) => t,
            None => DEFAULT_LIMITER_RELEASE,
        };
        let thr = db_to_linear(threshold_db);
        let ca = follower_coeff_exec(LIMITER_ATTACK, audio_buffer.sample_rate);
        let cr = follower_coeff_exec(release, audio_buffer.sample_rate);
        let n = audio_buffer.channels.len();
        let mut new_channels: Vec<Vec<i64>> = Vec::new();
        let mut c: usize = 0;
        while c < n
            invariant
                c <= n,
                n == audio_buffer.channels@.len(),
                audio_buffer.wf(),
                audio_buffer.bounded(MAX_ABS_SAMPLE as int),
                effects.wf(),
                1 <= ca <= FP_ONE,
                1 <= cr <= FP_ONE,
                1 <= thr <= 640 * FP_ONE,
                ca == follower_coeff(LIMITER_ATTACK as int, audio_buffer.sample_rate as int),
                cr == follower_coeff(limiter_release_of(*effects), audio_buffer.sample_rate as int),
                thr == db_to_linear_spec(limiter_threshold_db_of(*effects)),
                limiter_threshold_db_of(*effects) <= 0 ==> thr <= FP_ONE,
                new_channels@.len() == c,
                forall|cc: int|
                    0 <= cc < c ==> sample_seq((#[trigger] new_channels@[cc])@) == limiter_spec(
                        sample_seq(audio_buffer.channels@[cc]@),
                        ca as int,
                        cr as int,
                        thr as int,
                    ),
                forall|cc: int|
                    0 <= cc < c ==> (#[trigger] new_channels@[cc])@.len()
                        == audio_buffer.channels@[cc]@.len() && bounded_by(
                        sample_seq(new_channels@[cc]@),
                        thr as int,
                    ),
            decreases n - c,
        {
            proof {
                assert(audio_buffer.data()[c as int] == sample_seq(
                    audio_buffer.channels@[c as int]@,
                ));
            }
            let out = limiter_channel(&audio_buffer.channels[c], ca, cr, thr);
            new_channels.push(out);
            c = c + 1;
        }
        audio_buffer.channels = new_channels;
        proof {
            assert forall|cc: int| 0 <= cc < audio_buffer.data().len() implies bounded_by(
                #[trigger] audio_buffer.data()[cc],
                thr as int,
            ) by {
                assert(audio_buffer.data()[cc] == sample_seq(audio_buffer.channels@[cc]@));
            }
            assert forall|cc: int| 0 <= cc < audio_buffer.data().len() implies bounded_by(
                #[trigger] audio_buffer.data()[cc],
                MAX_ABS_SAMPLE as int,
            ) by {
                let s = audio_buffer.data()[cc];
                assert(bounded_by(s, thr as int));
                assert forall|i: int| 0 <= i < s.len() implies abs(#[trigger] s[i])
                    <= MAX_ABS_SAMPLE as int by {
                    assert(abs(s[i]) <= thr as int);
                }
            }
            if limiter_threshold_db_of(*effects) <= 0 {
                assert forall|cc: int| 0 <= cc < audio_buffer.data().len() implies bounded_by(
                    #[trigger] audio_buffer.data()[cc],
                    FP_ONE as int,
                ) by {
                    let s = audio_buffer.data()[cc];
                    assert(bounded_by(s, thr as int));
                    assert forall|i: int| 0 <= i < s.len() implies abs(#[trigger] s[i])
                        <= FP_ONE as int by {
                        assert(abs(s[i]) <= thr as int);
                    }
                }
            }
        }
        Ok(())
    }

    /// Applies the attenuator: a flat linear gain from the configured dB
    /// value (default +10 dB), clamped to `[-1.0, 1.0]`, so the output is
    /// always normalized.
    pub fn apply_attenuator(audio_buffer: &mut AudioBuffer, effects: &AdvancedAudioEffects) -> (r:
        Result<(), AudioError>)
        requires
            old(audio_buffer).wf(),
            old(audio_buffer).bounded(MAX_ABS_SAMPLE as int),
            effects.wf(),
        ensures
            r is Ok,
            final(audio_buffer).sample_rate == old(audio_buffer).sample_rate,
            final(audio_buffer).duration == old(audio_buffer).duration,
            final(audio_buffer).channels@.len() == old(audio_buffer).channels@.len(),
            forall|c: int|
                0 <= c < old(audio_buffer).channels@.len() ==> sample_seq(
                    (#[trigger] final(audio_buffer).channels@[c])@,
                ) == attenuator_spec(
                    sample_seq(old(audio_buffer).channels@[c]@),
                    db_to_linear_spec(attenuator_db_of(*effects)),
                ),
            final(audio_buffer).wf(),
            final(audio_buffer).samples_per_channel() == old(
                audio_buffer,
            ).samples_per_channel(),
            final(audio_buffer).normalized(),
    {
        let gain_db = match effects.attenuator_gain {
            Some(g) => g,
            None => DEFAULT_ATTENUATOR_DB,
        };
        let gain = db_to_linear(gain_db);
        let n = audio_buffer.channels.len();
        let mut new_channels: Vec<Vec<i64>> = Vec::new();
        let mut c: usize = 0;
        while c < n
            invariant
                c <= n,
                n == audio_buffer.channels@.len(),
                audio_buffer.wf(),
                audio_buffer.bounded(MAX_ABS_SAMPLE as int),
                1 <= gain <= 4096 * FP_ONE,
                gain == db_to_linear_spec(attenuator_db_of(*effects)),
                new_channels@.len() == c,
                forall|cc: int|
                    0 <= cc < c ==> sample_seq((#[trigger] new_channels@[cc])@)
                        == attenuator_spec(
                        sample_seq(audio_buffer.channels@[cc]@),
                        gain as int,
                    ),
                forall|cc: int|
                    0 <= cc < c ==> (#[trigger] new_channels@[cc])@.len()
                        == audio_buffer.channels@[cc]@.len() && bounded_by(
                        sample_seq(new_channels@[cc]@),
                        FP_ONE as int,
                    ),
            decreases n - c,
        {
            proof {
                assert(audio_buffer.data()[c as int] == sample_seq(
                    audio_buffer.channels@[c as int]@,
                ));
            }
            let out = attenuator_channel(&audio_buffer.channels[c], gain);
            new_channels.push(out);
            c = c + 1;
        }
        audio_buffer.channels = new_channels;
        proof {
            assert forall|c: int| 0 <= c < audio_buffer.data().len() implies bounded_by(
                #[trigger] audio_buffer.data()[c],
                FP_ONE as int,
            ) by {
                assert(audio_buffer.data()[c] == sample_seq(audio_buffer.channels@[c]@));
            }
        }
        Ok(())
    }
}

impl AudioProcessor {
    /// Applies the 5-band equalizer: each configured band (normalized
    /// gain mapped to +/-20 dB) runs as a peaking biquad over the
    /// previous band's output and is clamped to `[-1.0, 1.0]`; bands
    /// within 0.1 dB of unity are skipped.
    pub fn apply_equalizer(audio_buffer: &mut AudioBuffer, effects: &AdvancedAudioEffects) -> (r:
        Result<(), AudioError>)
        requires
            old(audio_buffer).wf(),
            old(audio_buffer).bounded(MAX_ABS_SAMPLE as int),
            effects.wf(),
        ensures
            r is Ok,
            final(audio_buffer).sample_rate == old(audio_buffer).sample_rate,
            final(audio_buffer).duration == old(audio_buffer).duration,
            final(audio_buffer).channels@.len() == old(audio_buffer).channels@.len(),
            forall|c: int|
                0 <= c < old(audio_buffer).channels@.len() ==> sample_seq(
                    (#[trigger] final(audio_buffer).channels@[c])@,
                ) == eq_spec(
                    sample_seq(old(audio_buffer).channels@[c]@),
                    old(audio_buffer).sample_rate as int,
                    *effects,
                ),
            final(audio_buffer).wf(),
            final(audio_buffer).samples_per_channel() == old(
                audio_buffer,
            ).samples_per_channel(),
            final(audio_buffer).bounded(MAX_ABS_SAMPLE as int),
    {
        let rate = audio_buffer.sample_rate;
        let n = audio_buffer.channels.len();
        let mut new_channels: Vec<Vec<i64>> = Vec::new();
        let mut c: usize = 0;
        while c < n
            invariant
                c <= n,
                n == audio_buffer.channels@.len(),
                audio_buffer.wf(),
                audio_buffer.bounded(MAX_ABS_SAMPLE as int),
                effects.wf(),
                rate == audio_buffer.sample_rate,
                new_channels@.len() == c,
                forall|cc: int|
                    0 <= cc < c ==> sample_seq((#[trigger] new_channels@[cc])@) == eq_spec(
                        sample_seq(audio_buffer.channels@[cc]@),
                        rate as int,
                        *effects,
                    ),
                forall|cc: int|
                    0 <= cc < c ==> (#[trigger] new_channels@[cc])@.len()
                        == audio_buffer.channels@[cc]@.len() && bounded_by(
                        sample_seq(new_channels@[cc]@),
                        MAX_ABS_SAMPLE as int,
                    ),
            decreases n - c,
        {
            proof {
                assert(audio_buffer.data()[c as int] == sample_seq(
                    audio_buffer.channels@[c as int]@,
                ));
            }
            let s1 = eq_band_channel(&audio_buffer.channels[c], rate, 60, effects.eq_low);
            let s2 = eq_band_channel(&s1, rate, 250, effects.eq_low_mid);
            let s3 = eq_band_channel(&s2, rate, 1000, effects.eq_mid);
            let s4 = eq_band_channel(&s3, rate, 4000, effects.eq_high_mid);
            let s5 = eq_band_channel(&s4, rate, 16000, effects.eq_high);
            new_channels.push(s5);
            c = c + 1;
        }
        audio_buffer.channels = new_channels;
        proof {
            assert forall|c: int| 0 <= c < audio_buffer.data().len() implies bounded_by(
                #[trigger] audio_buffer.data()[c],
                MAX_ABS_SAMPLE as int,
            ) by {
                assert(audio_buffer.data()[c] == sample_seq(audio_buffer.channels@[c]@));
            }
        }
        Ok(())
    }
}

/// Relies on rand::random: a value of the type drawn from the thread-local
/// generator; nothing is promised of the result.
pub assume_specification<T>[ rand::random::<T> ]() -> (r: T)
    where
        rand::distr::StandardUniform: rand::distr::Distribution<T>,
;

impl AudioProcessor {
    /// Applies the convolution reverb against a given impulse response:
    /// every channel is convolved with it, the convolution is scaled by
    /// the wet/dry mix, added to the dry signal scaled by its complement,
    /// and trimmed to the original length.
    pub fn apply_reverb_with_impulse(
        audio_buffer: AudioBuffer,
        impulse: &Vec<i64>,
        reverb_amount: i64,
    ) -> (r: Result<AudioBuffer, AudioError>)
        requires
            audio_buffer.wf(),
            audio_buffer.bounded(MAX_ABS_SAMPLE as int),
            0 <= reverb_amount <= FP_ONE,
            bounded_by(sample_seq(impulse@), FP_ONE as int),
            impulse@.len() <= 2 * MAX_SAMPLE_RATE,
        ensures
            r is Ok,
            r matches Ok(nb) ==> {
                &&& nb.sample_rate == audio_buffer.sample_rate
                &&& nb.duration == audio_buffer.duration
                &&& nb.channels@.len() == audio_buffer.channels@.len()
                &&& forall|c: int|
                    0 <= c < nb.channels@.len() ==> sample_seq((#[trigger] nb.channels@[c])@)
                        == reverb_spec(
                        sample_seq(audio_buffer.channels@[c]@),
                        sample_seq(impulse@),
                        reverb_amount as int,
                    )
                &&& nb.wf()
                &&& nb.samples_per_channel() == audio_buffer.samples_per_channel()
                &&& nb.bounded(MAX_ABS_REVERB_OUT as int)
            },
    {
        let n = audio_buffer.channels.len();
        let mut new_channels: Vec<Vec<i64>> = Vec::new();
        let mut c: usize = 0;
        while c < n
            invariant
                c <= n,
                n == audio_buffer.channels@.len(),
                audio_buffer.wf(),
                audio_buffer.bounded(MAX_ABS_SAMPLE as int),
                0 <= reverb_amount <= FP_ONE,
                bounded_by(sample_seq(impulse@), FP_ONE as int),
                impulse@.len() <= 2 * MAX_SAMPLE_RATE,
                new_channels@.len() == c,
                forall|cc: int|
                    0 <= cc < c ==> sample_seq((#[trigger] new_channels@[cc])@) == reverb_spec(
                        sample_seq(audio_buffer.channels@[cc]@),
                        sample_seq(impulse@),
                        reverb_amount as int,
                    ),
                forall|cc: int|
                    0 <= cc < c ==> (#[trigger] new_channels@[cc])@.len()
                        == audio_buffer.channels@[cc]@.len() && bounded_by(
                        sample_seq(new_channels@[cc]@),
                        MAX_ABS_REVERB_OUT as int,
                    ),
            decreases n - c,
        {
            proof {
                assert(audio_buffer.data()[c as int] == sample_seq(
                    audio_buffer.channels@[c as int]@,
                ));
            }
            let out = reverb_channel(&audio_buffer.channels[c], impulse, reverb_amount);
            new_channels.push(out);
            c = c + 1;
        }
        let nb = AudioBuffer {
            channels: new_channels,
            sample_rate: audio_buffer.sample_rate,
            duration: audio_buffer.duration,
        };
        proof {
            assert forall|cc: int| 0 <= cc < nb.data().len() implies bounded_by(
                #[trigger] nb.data()[cc],
                MAX_ABS_REVERB_OUT as int,
            ) by {
                assert(nb.data()[cc] == sample_seq(nb.channels@[cc]@));
            }
        }
        Ok(nb)
    }

    /// Applies the convolution reverb: synthesizes an exponentially
    /// decaying noise impulse response two seconds long at the buffer's
    /// sampling frequency, convolves each channel with it, and mixes wet
    /// and dry by `reverb_amount`. The noise is random, so the contract
    /// states what holds of every outcome: some impulse bounded by the
    /// decaying envelope produced the result.
    pub fn apply_reverb(audio_buffer: AudioBuffer, reverb_amount: i64) -> (r: Result<
        AudioBuffer,
        AudioError,
    >)
        requires
            audio_buffer.wf(),
            audio_buffer.bounded(MAX_ABS_SAMPLE as int),
            0 <= reverb_amount <= FP_ONE,
        ensures
            r is Ok,
            r matches Ok(nb) ==> {
                &&& nb.sample_rate == audio_buffer.sample_rate
                &&& nb.duration == audio_buffer.duration
                &&& nb.channels@.len() == audio_buffer.channels@.len()
                &&& nb.wf()
                &&& nb.samples_per_channel() == audio_buffer.samples_per_channel()
                &&& nb.bounded(MAX_ABS_REVERB_OUT as int)
                &&& exists|imp: Seq<int>|
                    #[trigger] valid_impulse(imp, 2 * audio_buffer.sample_rate as int) && forall|
                        c: int,
                    |
                        0 <= c < nb.channels@.len() ==> sample_seq((#[trigger] nb.channels@[c])@)
                            == reverb_spec(
                            sample_seq(audio_buffer.channels@[c]@),
                            imp,
                            reverb_amount as int,
                        )
            },
    {
        let reverb_length = 2 * (audio_buffer.sample_rate as usize);
        let impulse = make_impulse(reverb_length);
        let r = Self::apply_reverb_with_impulse(audio_buffer, &impulse, reverb_amount);
        proof {
            let imp = sample_seq(impulse@);
            if r is Ok {
                let nb = r->Ok_0;
                assert(valid_impulse(imp, 2 * audio_buffer.sample_rate as int) && forall|c: int|
                    0 <= c < nb.channels@.len() ==> sample_seq((#[trigger] nb.channels@[c])@)
                        == reverb_spec(
                        sample_seq(audio_buffer.channels@[c]@),
                        imp,
                        reverb_amount as int,
                    ));
            }
        }
        r
    }
}

/// Synthesizes the reverb impulse response: `len` samples of uniform
/// noise in `[-1.0, 1.0]` scaled by the decaying envelope
/// `exp(-3 i / len)`.
fn make_impulse(len: usize) -> (out: Vec<i64>)
    requires
        2 <= len <= 2 * MAX_SAMPLE_RATE,
    ensures
        valid_impulse(sample_seq(out@), len as int),
        out@.len() == len,
        bounded_by(sample_seq(out@), FP_ONE as int),
{
    let mut out: Vec<i64> = Vec::new();
    let mut i: usize = 0;
    while i < len
        invariant
            i <= len,
            2 <= len <= 2 * MAX_SAMPLE_RATE,
            out@.len() == i,
            forall|j: int|
                0 <= j < i ==> abs(#[trigger] out@[j] as int) <= reverb_decay(j, len as int)
                    && abs(out@[j] as int) <= FP_ONE,
        decreases len - i,
    {
        proof {
            assert(0 <= 3 * (i as int) * (FP_ONE as int) <= 3 * 2 * MAX_SAMPLE_RATE * (
            FP_ONE as int)) by (nonlinear_arith)
                requires
                    0 <= i <= 2 * MAX_SAMPLE_RATE,
                    FP_ONE == 1048576,
            ;
            lemma_div_trunc_bound(3 * (i as int) * (FP_ONE as int), len as int);
        }
        let decay_arg = div_trunc_i64(3 * (i as i64) * FP_ONE, len as i64);
        let decay = fx_exp(-decay_arg);
        let raw: u32 = rand::random::<u32>();
        let noise = (((raw as u64) % 2097153u64) as i64) - FP_ONE;
        proof {
            lemma_mul_abs_bound(noise as int, decay as int, FP_ONE as int, FP_ONE as int);
            lemma_fx_mul_bound(noise as int, decay as int, FP_ONE as int, decay as int);
            assert((FP_ONE as int) * (decay as int) / (FP_ONE as int) == decay as int) by {
                vstd::arithmetic::div_mod::lemma_div_multiples_vanish(
                    decay as int,
                    FP_ONE as int,
                );
            }
        }
        let v = fx_mul(noise, decay);
        out.push(v);
        i = i + 1;
    }
    proof {
        assert forall|j: int| 0 <= j < len implies abs(
            #[trigger] sample_seq(out@)[j],
        ) <= reverb_decay(j, len as int) && abs(sample_seq(out@)[j]) <= FP_ONE by {
            assert(sample_seq(out@)[j] == out@[j] as int);
        }
    }
    out
}

/// One channel of the reverb, exact per [`reverb_spec`]: a direct (non-
/// transform) convolution, O(len * impulse) — acceptable because buffers
/// are finite and reverb is opt-in.
fn reverb_channel(chan: &Vec<i64>, impulse: &Vec<i64>, mix: i64) -> (out: Vec<i64>)
    requires
        bounded_by(sample_seq(chan@), MAX_ABS_SAMPLE as int),
        bounded_by(sample_seq(impulse@), FP_ONE as int),
        impulse@.len() <= 2 * MAX_SAMPLE_RATE,
        0 <= mix <= FP_ONE,
    ensures
        sample_seq(out@) == reverb_spec(sample_seq(chan@), sample_seq(impulse@), mix as int),
        out@.len() == chan@.len(),
        bounded_by(sample_seq(out@), MAX_ABS_REVERB_OUT as int),
{
    let ghost s = sample_seq(chan@);
    let ghost si = sample_seq(impulse@);
    let len = chan.len();
    let n = impulse.len();
    let mut out: Vec<i64> = Vec::new();
    let mut t: usize = 0;
    while t < len
        invariant
            t <= len,
            len == chan@.len(),
            n == impulse@.len(),
            s == sample_seq(chan@),
            si == sample_seq(impulse@),
            bounded_by(s, MAX_ABS_SAMPLE as int),
            bounded_by(si, FP_ONE as int),
            n <= 2 * MAX_SAMPLE_RATE,
            0 <= mix <= FP_ONE,
            out@.len() == t,
            forall|u: int|
                0 <= u < t ==> out@[u] == reverb_at(s, si, mix as int, u) && abs(
                    #[trigger] out@[u] as int,
                ) <= MAX_ABS_REVERB_OUT as int,
        decreases len - t,
    {
        let mut acc: i64 = 0;
        let mut j: usize = 0;
        while j < n
            invariant
                j <= n,
                t < len,
                len == chan@.len(),
                n == impulse@.len(),
                s == sample_seq(chan@),
                si == sample_seq(impulse@),
                bounded_by(s, MAX_ABS_SAMPLE as int),
                bounded_by(si, FP_ONE as int),
                n <= 2 * MAX_SAMPLE_RATE,
                0 <= mix <= FP_ONE,
                acc == conv_partial(s, si, t as int, j as nat),
                abs(acc as int) <= j * MAX_ABS_SAMPLE as int,
            decreases n - j,
        {
            let term: i64 = if j <= t {
                let x = chan[t - j];
                let w = impulse[j];
                proof {
                    assert(s[t - j] == x as int);
                    assert(si[j as int] == w as int);
                    lemma_mul_abs_bound(x as int, w as int, MAX_ABS_SAMPLE as int, FP_ONE as int);
                    lemma_fx_mul_bound(x as int, w as int, MAX_ABS_SAMPLE as int, FP_ONE as int);
                    assert((MAX_ABS_SAMPLE as int) * (FP_ONE as int) / (FP_ONE as int)
                        == MAX_ABS_SAMPLE as int) by (nonlinear_arith)
                        requires
                            FP_ONE == 1048576,
                            MAX_ABS_SAMPLE == 0x8000_0000,
                    ;
                }
                fx_mul(x, w)
            } else {
                0
            };
            proof {
                assert(abs(term as int) <= MAX_ABS_SAMPLE as int);
                assert((j + 1) * MAX_ABS_SAMPLE as int == j * MAX_ABS_SAMPLE as int
                    + MAX_ABS_SAMPLE as int) by (nonlinear_arith);
                assert(j * MAX_ABS_SAMPLE as int <= 2 * MAX_SAMPLE_RATE * MAX_ABS_SAMPLE as int)
                    by (nonlinear_arith)
                    requires
                        0 <= j <= 2 * MAX_SAMPLE_RATE,
                ;
            }
            acc = acc + term;
            j = j + 1;
        }
        let x0 = chan[t];
        proof {
            assert(s[t as int] == x0 as int);
            lemma_mul_abs_bound(x0 as int, (FP_ONE - mix) as int, MAX_ABS_SAMPLE as int, FP_ONE as int);
            lemma_div_trunc_bound(x0 as int * (FP_ONE - mix) as int, FP_ONE as int);
            vstd::arithmetic::div_mod::lemma_div_is_ordered(
                abs(x0 as int * (FP_ONE - mix) as int),
                MAX_ABS_SAMPLE as int * FP_ONE as int,
                FP_ONE as int,
            );
            assert(MAX_ABS_SAMPLE as int * FP_ONE as int / (FP_ONE as int) == MAX_ABS_SAMPLE
                as int) by (nonlinear_arith)
                requires
                    FP_ONE == 1048576,
                    MAX_ABS_SAMPLE == 0x8000_0000,
            ;
            assert(abs(acc as int * mix as int) <= (2 * MAX_SAMPLE_RATE * MAX_ABS_SAMPLE as int)
                * (FP_ONE as int)) by (nonlinear_arith)
                requires
                    abs(acc as int) <= 2 * MAX_SAMPLE_RATE * MAX_ABS_SAMPLE as int,
                    0 <= mix <= FP_ONE,
            ;
            lemma_fx_mul_bound(
                acc as int,
                mix as int,
                2 * MAX_SAMPLE_RATE * MAX_ABS_SAMPLE as int,
                FP_ONE as int,
            );
        }
        let dry = div_trunc_i64(x0 * (FP_ONE - mix), FP_ONE);
        let wet = fx_mul_wide(acc, mix);
        let v = dry + wet;
        proof {
            assert(v == reverb_at(s, si, mix as int, t as int));
            assert(abs(v as int) <= MAX_ABS_REVERB_OUT as int);
        }
        out.push(v);
        t = t + 1;
    }
    proof {
        assert(sample_seq(out@) =~= reverb_spec(s, si, mix as int));
        assert forall|u: int| 0 <= u < sample_seq(out@).len() implies abs(
            #[trigger] sample_seq(out@)[u],
        ) <= MAX_ABS_REVERB_OUT as int by {
            assert(sample_seq(out@)[u] == out@[u] as int);
        }
    }
    out
}

/// The peaking-biquad coefficients for one band, exact per
/// [`peak_coeffs`], with the ranges the recurrence's overflow argument
/// needs.
fn peak_coeffs_exec(rate: u32, freq: u32, db: i64) -> (c: (i64, i64, i64, i64, i64))
    requires
        1 <= rate,
        1 <= freq <= 16000,
        abs(db as int) <= 20 * FP_ONE,
    ensures
        (c.0 as int, c.1 as int, c.2 as int, c.3 as int, c.4 as int) == peak_coeffs(
            rate as int,
            freq as int,
            db as int,
        ),
        FP_ONE <= c.0 <= 25 * FP_ONE,
        abs(c.1 as int) <= 4 * FP_ONE,
        abs(c.2 as int) <= 25 * FP_ONE,
        FP_ONE <= c.3 <= 25 * FP_ONE,
        abs(c.4 as int) <= 25 * FP_ONE,
{
    proof {
        lemma_mul_abs_bound(TWO_PI_FP as int, freq as int, TWO_PI_FP as int, 16000);
        assert((TWO_PI_FP as int * freq as int) >= 0) by (nonlinear_arith)
            requires
                freq >= 0,
                TWO_PI_FP > 0,
        ;
        lemma_div_trunc_bound(TWO_PI_FP as int * freq as int, rate as int);
        vstd::arithmetic::div_mod::lemma_remainder_lower(
            div_trunc(TWO_PI_FP as int * freq as int, rate as int),
            TWO_PI_FP as int,
        );
        vstd::arithmetic::div_mod::lemma_remainder_upper(
            div_trunc(TWO_PI_FP as int * freq as int, rate as int),
            TWO_PI_FP as int,
        );
    }
    let omega_raw = div_trunc_i64(TWO_PI_FP * (freq as i64), rate as i64);
    let omega = ((omega_raw as u64) % (TWO_PI_FP as u64)) as i64;
    let sin_v = clamp_i64(fx_sin(omega), 0, FP_ONE);
    let cos_v = fx_cos(omega);
    proof {
        lemma_mul_abs_bound(sin_v as int, 5, FP_ONE as int, 5);
        lemma_div_trunc_bound(sin_v as int * 5, 7);
        vstd::arithmetic::div_mod::lemma_div_is_ordered(
            sin_v as int * 5,
            5 * FP_ONE as int,
            7,
        );
        lemma_mul_abs_bound(db as int, LN10_FP as int, 20 * FP_ONE as int, LN10_FP as int);
        lemma_div_trunc_bound(db as int * LN10_FP as int, 40 * FP_ONE as int);
        vstd::arithmetic::div_mod::lemma_div_is_ordered(
            abs(db as int * LN10_FP as int),
            20 * FP_ONE as int * LN10_FP as int,
            40 * FP_ONE as int,
        );
    }
    let alpha = div_trunc_i64(sin_v * 5, 7);
    let a_lin = fx_exp(div_trunc_i64(db * LN10_FP, 40 * FP_ONE));
    proof {
        assert(0 <= alpha <= 748982) by {
            vstd::arithmetic::div_mod::lemma_div_is_ordered(sin_v as int * 5, 5 * FP_ONE as int, 7);
        }
        assert(32768 <= a_lin <= 32 * FP_ONE);
        assert(alpha as int * a_lin as int >= 0) by (nonlinear_arith)
            requires
                alpha >= 0,
                a_lin >= 0,
        ;
        lemma_mul_abs_bound(alpha as int, a_lin as int, 748982, 32 * FP_ONE as int);
        lemma_fx_mul_bound(alpha as int, a_lin as int, 748982, 32 * FP_ONE as int);
        lemma_div_trunc_bound(alpha as int * a_lin as int, FP_ONE as int);
        assert(alpha as int * FP_ONE as int >= 0) by (nonlinear_arith)
            requires
                alpha >= 0,
        ;
        lemma_mul_abs_bound(alpha as int, FP_ONE as int, 748982, FP_ONE as int);
        lemma_div_trunc_bound(alpha as int * FP_ONE as int, a_lin as int);
        vstd::arithmetic::div_mod::lemma_div_is_ordered_by_denominator(
            abs(alpha as int * FP_ONE as int),
            32768,
            a_lin as int,
        );
        vstd::arithmetic::div_mod::lemma_div_is_ordered(
            abs(alpha as int * FP_ONE as int),
            748982 * FP_ONE as int,
            32768,
        );
    }
    let scaled = fx_mul(alpha, a_lin);
    let shifted = div_trunc_i64(alpha * FP_ONE, a_lin);
    assert(0 <= scaled <= 24 * FP_ONE);
    assert(0 <= shifted <= 24 * FP_ONE);
    assert(abs(cos_v as int) <= 2 * FP_ONE);
    let twice_cos = 2 * cos_v;
    (FP_ONE + scaled, -twice_cos, FP_ONE - scaled, FP_ONE + shifted, FP_ONE - shifted)
}

/// One biquad band over one channel, exact per [`band_spec`]; the output
/// is clamped to `[-1.0, 1.0]`.
fn band_channel(chan: &Vec<i64>, b0: i64, b1: i64, b2: i64, a0: i64, a2: i64) -> (out: Vec<i64>)
    requires
        bounded_by(sample_seq(chan@), MAX_ABS_SAMPLE as int),
        FP_ONE <= b0 <= 25 * FP_ONE,
        abs(b1 as int) <= 4 * FP_ONE,
        abs(b2 as int) <= 25 * FP_ONE,
        FP_ONE <= a0 <= 25 * FP_ONE,
        abs(a2 as int) <= 25 * FP_ONE,
    ensures
        sample_seq(out@) == band_spec(
            sample_seq(chan@),
            b0 as int,
            b1 as int,
            b2 as int,
            a0 as int,
            a2 as int,
        ),
        out@.len() == chan@.len(),
        bounded_by(sample_seq(out@), FP_ONE as int),
{
    let ghost s = sample_seq(chan@);
    let n = chan.len();
    let mut out: Vec<i64> = Vec::new();
    let mut x1: i64 = 0;
    let mut x2: i64 = 0;
    let mut y1: i64 = 0;
    let mut y2: i64 = 0;
    let mut i: usize = 0;
    while i < n
        invariant
            i <= n,
            n == chan@.len(),
            s == sample_seq(chan@),
            bounded_by(s, MAX_ABS_SAMPLE as int),
            FP_ONE <= b0 <= 25 * FP_ONE,
            abs(b1 as int) <= 4 * FP_ONE,
            abs(b2 as int) <= 25 * FP_ONE,
            FP_ONE <= a0 <= 25 * FP_ONE,
            abs(a2 as int) <= 25 * FP_ONE,
            x1 as int == (if i >= 1 { s[i - 1] } else { 0 }),
            x2 as int == (if i >= 2 { s[i - 2] } else { 0 }),
            y1 as int == (if i >= 1 {
                biquad_y(s, b0 as int, b1 as int, b2 as int, a0 as int, a2 as int, i - 1)
            } else {
                0
            }),
            y2 as int == (if i >= 2 {
                biquad_y(s, b0 as int, b1 as int, b2 as int, a0 as int, a2 as int, i - 2)
            } else {
                0
            }),
            abs(x1 as int) <= MAX_ABS_SAMPLE as int,
            abs(x2 as int) <= MAX_ABS_SAMPLE as int,
            abs(y1 as int) <= MAX_ABS_SAMPLE as int,
            abs(y2 as int) <= MAX_ABS_SAMPLE as int,
            out@.len() == i,
            forall|j: int|
                0 <= j < i ==> out@[j] == clamp_unit_spec(
                    biquad_y(s, b0 as int, b1 as int, b2 as int, a0 as int, a2 as int, j),
                ),
        decreases n - i,
    {
        let x0 = chan[i];
        proof {
            assert(s[i as int] == x0 as int);
            lemma_mul_abs_bound(b0 as int, x0 as int, 25 * FP_ONE as int, MAX_ABS_SAMPLE as int);
            lemma_mul_abs_bound(b1 as int, x1 as int, 4 * FP_ONE as int, MAX_ABS_SAMPLE as int);
            lemma_mul_abs_bound(b2 as int, x2 as int, 25 * FP_ONE as int, MAX_ABS_SAMPLE as int);
            lemma_mul_abs_bound(b1 as int, y1 as int, 4 * FP_ONE as int, MAX_ABS_SAMPLE as int);
            lemma_mul_abs_bound(a2 as int, y2 as int, 25 * FP_ONE as int, MAX_ABS_SAMPLE as int);
            lemma_div_trunc_bound(
                b0 as int * x0 as int + b1 as int * x1 as int + b2 as int * x2 as int - b1 as int
                    * y1 as int - a2 as int * y2 as int,
                a0 as int,
            );
        }
        let num = b0 * x0 + b1 * x1 + b2 * x2 - b1 * y1 - a2 * y2;
        let y0 = clamp_i64(div_trunc_i64(num, a0), -MAX_ABS_SAMPLE, MAX_ABS_SAMPLE);
        let v = clamp_unit(y0);
        proof {
            assert(y0 == biquad_y(s, b0 as int, b1 as int, b2 as int, a0 as int, a2 as int, i as int));
        }
        out.push(v);
        x2 = x1;
        x1 = x0;
        y2 = y1;
        y1 = y0;
        i = i + 1;
    }
    proof {
        assert(sample_seq(out@) =~= band_spec(
            s,
            b0 as int,
            b1 as int,
            b2 as int,
            a0 as int,
            a2 as int,
        ));
        assert forall|j: int| 0 <= j < sample_seq(out@).len() implies abs(
            #[trigger] sample_seq(out@)[j],
        ) <= FP_ONE as int by {
            assert(sample_seq(out@)[j] == out@[j] as int);
        }
    }
    out
}

/// One equalizer band over one channel, exact per [`eq_band_pass`]: the
/// band is skipped when its gain is essentially unity.
fn eq_band_channel(chan: &Vec<i64>, rate: u32, freq: u32, g: Option<i64>) -> (out: Vec<i64>)
    requires
        bounded_by(sample_seq(chan@), MAX_ABS_SAMPLE as int),
        1 <= rate,
        1 <= freq <= 16000,
        g matches Some(v) ==> 0 <= v <= FP_ONE,
    ensures
        sample_seq(out@) == eq_band_pass(sample_seq(chan@), rate as int, freq as int, g),
        out@.len() == chan@.len(),
        bounded_by(sample_seq(out@), MAX_ABS_SAMPLE as int),
{
    let g_val = match g {
        Some(v) => v,
        None => HALF_FP,
    };
    let db = (g_val - HALF_FP) * 40;
    let db_abs = if db < 0 {
        -db
    } else {
        db
    };
    if 10 * db_abs < FP_ONE {
        let out = copy_channel(chan);
        proof {
            assert(sample_seq(out@) =~= eq_band_pass(
                sample_seq(chan@),
                rate as int,
                freq as int,
                g,
            ));
        }
        out
    } else {
        let c = peak_coeffs_exec(rate, freq, db);
        band_channel(chan, c.0, c.1, c.2, c.3, c.4)
    }
}

/// The envelope-follower decay coefficient for a time constant at a
/// sampling frequency, exact per [`follower_coeff`]; always in `(0, 1.0]`.
fn follower_coeff_exec(time: i64, rate: u32) -> (c: i64)
    requires
        1 <= time <= 100 * FP_ONE,
        1 <= rate,
    ensures
        c == follower_coeff(time as int, rate as int),
        1 <= c <= FP_ONE,
{
    proof {
        assert(time as int * rate as int >= 1) by (nonlinear_arith)
            requires
                time >= 1,
                rate >= 1,
        ;
        assert(time as int * rate as int <= 100 * FP_ONE as int * 0xffff_ffff)
            by (nonlinear_arith)
            requires
                1 <= time <= 100 * FP_ONE,
                1 <= rate <= 0xffff_ffff,
        ;
        lemma_div_trunc_bound((FP_ONE as int) * (FP_ONE as int), time as int * rate as int);
    }
    let e = div_trunc_i64(FP_ONE * FP_ONE, time * (rate as i64));
    fx_exp(-e)
}

/// One channel of the limiter, exact per [`limiter_spec`]; the output is
/// clamped to the threshold.
fn limiter_channel(chan: &Vec<i64>, ca: i64, cr: i64, thr: i64) -> (out: Vec<i64>)
    requires
        bounded_by(sample_seq(chan@), MAX_ABS_SAMPLE as int),
        1 <= ca <= FP_ONE,
        1 <= cr <= FP_ONE,
        1 <= thr <= 640 * FP_ONE,
    ensures
        sample_seq(out@) == limiter_spec(sample_seq(chan@), ca as int, cr as int, thr as int),
        out@.len() == chan@.len(),
        bounded_by(sample_seq(out@), thr as int),
{
    let ghost s = sample_seq(chan@);
    let n = chan.len();
    let mut out: Vec<i64> = Vec::new();
    let mut env: i64 = 0;
    let mut i: usize = 0;
    while i < n
        invariant
            i <= n,
            n == chan@.len(),
            s == sample_seq(chan@),
            bounded_by(s, MAX_ABS_SAMPLE as int),
            1 <= ca <= FP_ONE,
            1 <= cr <= FP_ONE,
            1 <= thr <= 640 * FP_ONE,
            0 <= env <= MAX_ABS_SAMPLE,
            i == 0 ==> env == 0,
            i >= 1 ==> env == limiter_env(s, ca as int, cr as int, i as int - 1),
            out@.len() == i,
            forall|j: int|
                0 <= j < i ==> out@[j] == limited_at(s, ca as int, cr as int, thr as int, j),
        decreases n - i,
    {
        let x = chan[i];
        proof {
            assert(s[i as int] == x as int);
        }
        let lvl = if x < 0 {
            -x
        } else {
            x
        };
        let coeff = if lvl > env {
            ca
        } else {
            cr
        };
        proof {
            lemma_mul_abs_bound(coeff as int, env as int, FP_ONE as int, MAX_ABS_SAMPLE as int);
            lemma_mul_abs_bound(
                (FP_ONE - coeff) as int,
                lvl as int,
                FP_ONE as int,
                MAX_ABS_SAMPLE as int,
            );
            lemma_div_trunc_bound(
                coeff as int * env as int + (FP_ONE - coeff) as int * lvl as int,
                FP_ONE as int,
            );
            assert(0 <= coeff as int * env as int + (FP_ONE - coeff) as int * lvl as int <= (
            FP_ONE as int) * (MAX_ABS_SAMPLE as int)) by (nonlinear_arith)
                requires
                    1 <= coeff <= FP_ONE,
                    0 <= env <= MAX_ABS_SAMPLE,
                    0 <= lvl <= MAX_ABS_SAMPLE,
            ;
            vstd::arithmetic::div_mod::lemma_div_is_ordered(
                coeff as int * env as int + (FP_ONE - coeff) as int * lvl as int,
                (FP_ONE as int) * (MAX_ABS_SAMPLE as int),
                FP_ONE as int,
            );
            assert((FP_ONE as int) * (MAX_ABS_SAMPLE as int) / (FP_ONE as int)
                == MAX_ABS_SAMPLE as int) by (nonlinear_arith)
                requires
                    FP_ONE == 1048576,
                    MAX_ABS_SAMPLE == 0x8000_0000,
            ;
        }
        env = div_trunc_i64(coeff * env + (FP_ONE - coeff) * lvl, FP_ONE);
        proof {
            assert(env == limiter_env(s, ca as int, cr as int, i as int));
        }
        let y = if env > thr {
            proof {
                lemma_mul_abs_bound(env as int, FP_ONE as int, MAX_ABS_SAMPLE as int, FP_ONE as int);
                lemma_div_trunc_bound(env as int * FP_ONE as int, thr as int);
                assert(env as int * FP_ONE as int >= (thr as int + 1) * FP_ONE as int)
                    by (nonlinear_arith)
                    requires
                        env >= thr + 1,
                ;
                vstd::arithmetic::div_mod::lemma_div_is_ordered(
                    (thr as int + 1) * FP_ONE as int,
                    env as int * FP_ONE as int,
                    thr as int,
                );
                assert((thr as int + 1) * FP_ONE as int / (thr as int) >= FP_ONE as int) by {
                    vstd::arithmetic::div_mod::lemma_div_multiples_vanish(
                        FP_ONE as int,
                        thr as int,
                    );
                    assert((thr as int + 1) * FP_ONE as int == thr as int * FP_ONE as int
                        + FP_ONE as int) by (nonlinear_arith);
                    vstd::arithmetic::div_mod::lemma_div_is_ordered(
                        thr as int * FP_ONE as int,
                        (thr as int + 1) * FP_ONE as int,
                        thr as int,
                    );
                    assert(thr as int * FP_ONE as int == FP_ONE as int * thr as int)
                        by (nonlinear_arith);
                }
            }
            let excess = div_trunc_i64(env * FP_ONE, thr);
            let lnv = fx_ln(excess);
            let reduction = fx_exp(-div_trunc_i64(19 * lnv, 20));
            proof {
                lemma_div_trunc_bound(19 * lnv as int, 20);
                lemma_mul_abs_bound(x as int, reduction as int, MAX_ABS_SAMPLE as int, FP_ONE as int);
                lemma_fx_mul_bound(x as int, reduction as int, MAX_ABS_SAMPLE as int, FP_ONE as int);
            }
            fx_mul(x, reduction)
        } else {
            x
        };
        let v = clamp_i64(y, -thr, thr);
        proof {
            assert(v == limited_at(s, ca as int, cr as int, thr as int, i as int));
        }
        out.push(v);
        i = i + 1;
    }
    proof {
        assert(sample_seq(out@) =~= limiter_spec(s, ca as int, cr as int, thr as int));
        assert forall|j: int| 0 <= j < sample_seq(out@).len() implies abs(
            #[trigger] sample_seq(out@)[j],
        ) <= thr as int by {
            assert(sample_seq(out@)[j] == out@[j] as int);
        }
    }
    out
}

/// A plain copy of a channel.
fn copy_channel(chan: &Vec<i64>) -> (out: Vec<i64>)
    ensures
        out@ == chan@,
{
    let n = chan.len();
    let mut out: Vec<i64> = Vec::new();
    let mut i: usize = 0;
    while i < n
        invariant
            i <= n,
            n == chan@.len(),
            out@ == chan@.take(i as int),
        decreases n - i,
    {
        out.push(chan[i]);
        proof {
            assert(out@ =~= chan@.take(i as int + 1));
        }
        i = i + 1;
    }
    proof {
        assert(chan@.take(n as int) =~= chan@);
    }
    out
}

/// The bass-shelf coefficient for a sampling frequency, exact per
/// [`bass_alpha`]; always in `[0, 1.0)`.
fn bass_alpha_exec(rate: u32) -> (alpha: i64)
    requires
        1 <= rate,
    ensures
        alpha == bass_alpha(rate as int),
        0 <= alpha < FP_ONE,
{
    let omega = div_trunc_i64(200 * TWO_PI_FP, rate as i64);
    proof {
        lemma_div_trunc_bound(200 * TWO_PI_FP as int, rate as int);
        lemma_mul_abs_bound(omega as int, FP_ONE as int, 200 * TWO_PI_FP as int, FP_ONE as int);
        lemma_div_trunc_bound(omega as int * FP_ONE as int, FP_ONE as int + omega as int);
        assert((omega as int) * (FP_ONE as int) < (FP_ONE as int + omega as int) * (
        FP_ONE as int)) by (nonlinear_arith)
            requires
                omega >= 0,
                FP_ONE > 0,
        ;
        assert(omega as int * FP_ONE as int / (FP_ONE as int + omega as int) < FP_ONE as int) by {
            vstd::arithmetic::div_mod::lemma_multiply_divide_lt(
                omega as int * FP_ONE as int,
                FP_ONE as int + omega as int,
                FP_ONE as int,
            );
        }
    }
    div_trunc_i64(omega * FP_ONE, FP_ONE + omega)
}

/// One channel of the bass boost, exact per [`bass_spec`]; the output is
/// clamped to `[-1.0, 1.0]`.
fn bass_channel(chan: &Vec<i64>, alpha: i64, gain: i64) -> (out: Vec<i64>)
    requires
        bounded_by(sample_seq(chan@), MAX_ABS_SAMPLE as int),
        0 <= alpha < FP_ONE,
        1 <= gain <= 4096 * FP_ONE,
    ensures
        sample_seq(out@) == bass_spec(sample_seq(chan@), alpha as int, gain as int),
        out@.len() == chan@.len(),
        bounded_by(sample_seq(out@), FP_ONE as int),
{
    let ghost s = sample_seq(chan@);
    let n = chan.len();
    let mut out: Vec<i64> = Vec::new();
    let mut y: i64 = 0;
    let mut i: usize = 0;
    while i < n
        invariant
            i <= n,
            n == chan@.len(),
            s == sample_seq(chan@),
            bounded_by(s, MAX_ABS_SAMPLE as int),
            0 <= alpha < FP_ONE,
            1 <= gain <= 4096 * FP_ONE,
            abs(y as int) <= MAX_ABS_SAMPLE as int,
            i == 0 ==> y == 0,
            i >= 1 ==> y == bass_y(s, alpha as int, i as int - 1),
            out@.len() == i,
            forall|j: int|
                0 <= j < i ==> out@[j] == clamp_unit_spec(
                    fx_mul_spec(bass_y(s, alpha as int, j), gain as int) + s[j] - bass_y(
                        s,
                        alpha as int,
                        j,
                    ),
                ),
        decreases n - i,
    {
        let x = chan[i];
        proof {
            assert(s[i as int] == x as int);
            lemma_mul_abs_bound(alpha as int, x as int, FP_ONE as int, MAX_ABS_SAMPLE as int);
            lemma_mul_abs_bound(
                (FP_ONE - alpha) as int,
                y as int,
                FP_ONE as int,
                MAX_ABS_SAMPLE as int,
            );
            lemma_div_trunc_bound(
                alpha as int * x as int + (FP_ONE - alpha) as int * y as int,
                FP_ONE as int,
            );
            assert(abs(alpha as int * x as int + (FP_ONE - alpha) as int * y as int) <= FP_ONE
                as int * MAX_ABS_SAMPLE as int) by (nonlinear_arith)
                requires
                    0 <= alpha < FP_ONE,
                    abs(x as int) <= MAX_ABS_SAMPLE as int,
                    abs(y as int) <= MAX_ABS_SAMPLE as int,
            ;
            vstd::arithmetic::div_mod::lemma_div_is_ordered(
                abs(alpha as int * x as int + (FP_ONE - alpha) as int * y as int),
                FP_ONE as int * MAX_ABS_SAMPLE as int,
                FP_ONE as int,
            );
            assert(FP_ONE as int * MAX_ABS_SAMPLE as int / (FP_ONE as int) == MAX_ABS_SAMPLE
                as int) by (nonlinear_arith)
                requires
                    FP_ONE == 1048576,
                    MAX_ABS_SAMPLE == 0x8000_0000,
            ;
        }
        y = div_trunc_i64(alpha * x + (FP_ONE - alpha) * y, FP_ONE);
        proof {
            assert(y == bass_y(s, alpha as int, i as int));
            lemma_mul_abs_bound(y as int, gain as int, MAX_ABS_SAMPLE as int, 4096 * FP_ONE as int);
            lemma_fx_mul_bound(y as int, gain as int, MAX_ABS_SAMPLE as int, 4096 * FP_ONE as int);
        }
        let boosted = fx_mul_wide(y, gain);
        let v = clamp_unit(boosted + x - y);
        out.push(v);
        i = i + 1;
    }
    proof {
        assert(sample_seq(out@) =~= bass_spec(s, alpha as int, gain as int));
        assert forall|j: int| 0 <= j < sample_seq(out@).len() implies abs(
            #[trigger] sample_seq(out@)[j],
        ) <= FP_ONE as int by {
            assert(sample_seq(out@)[j] == out@[j] as int);
        }
    }
    out
}

/// One channel of the attenuator, exact per [`attenuator_spec`]; the
/// output is clamped to `[-1.0, 1.0]`.
fn attenuator_channel(chan: &Vec<i64>, gain: i64) -> (out: Vec<i64>)
    requires
        bounded_by(sample_seq(chan@), MAX_ABS_SAMPLE as int),
        1 <= gain <= 4096 * FP_ONE,
    ensures
        sample_seq(out@) == attenuator_spec(sample_seq(chan@), gain as int),
        out@.len() == chan@.len(),
        bounded_by(sample_seq(out@), FP_ONE as int),
{
    let n = chan.len();
    let mut out: Vec<i64> = Vec::new();
    let mut i: usize = 0;
    while i < n
        invariant
            i <= n,
            n == chan@.len(),
            bounded_by(sample_seq(chan@), MAX_ABS_SAMPLE as int),
            1 <= gain <= 4096 * FP_ONE,
            out@.len() == i,
            forall|j: int|
                0 <= j < i ==> out@[j] == clamp_unit_spec(
                    fx_mul_spec(sample_seq(chan@)[j], gain as int),
                ),
        decreases n - i,
    {
        let x = chan[i];
        proof {
            assert(sample_seq(chan@)[i as int] == x as int);
            lemma_mul_abs_bound(x as int, gain as int, MAX_ABS_SAMPLE as int, 4096 * FP_ONE as int);
        }
        let v = clamp_unit(fx_mul_wide(x, gain));
        out.push(v);
        i = i + 1;
    }
    proof {
        assert(sample_seq(out@) =~= attenuator_spec(sample_seq(chan@), gain as int));
        assert forall|j: int| 0 <= j < sample_seq(out@).len() implies abs(
            #[trigger] sample_seq(out@)[j],
        ) <= FP_ONE as int by {
            assert(sample_seq(out@)[j] == out@[j] as int);
        }
    }
    out
}

/// Unit volume is the identity: with a gain of exactly 1.0 the volume
/// stage returns every sample unchanged, so a configuration that skips
/// every other stage leaves the buffer byte-identical.
pub proof fn lemma_volume_unit(s: Seq<int>)
    ensures
        volume_spec(s, FP_ONE as int) == s,
{
    assert forall|i: int| 0 <= i < s.len() implies #[trigger] volume_spec(s, FP_ONE as int)[i]
        == s[i] by {
        let x = s[i];
        if x >= 0 {
            assert(x * FP_ONE as int == FP_ONE as int * x) by (nonlinear_arith);
            assert(x * FP_ONE as int >= 0) by (nonlinear_arith)
                requires
                    x >= 0,
            ;
            vstd::arithmetic::div_mod::lemma_div_multiples_vanish(x, FP_ONE as int);
        } else {
            lemma_fx_mul_odd(-x, FP_ONE as int);
            assert((-x) * FP_ONE as int == FP_ONE as int * (-x)) by (nonlinear_arith);
            assert((-x) * FP_ONE as int >= 0) by (nonlinear_arith)
                requires
                    x < 0,
            ;
            vstd::arithmetic::div_mod::lemma_div_multiples_vanish(-x, FP_ONE as int);
        }
    }
    assert(volume_spec(s, FP_ONE as int) =~= s);
}

/// Truncating fixed-point rescaling is an odd function of its first
/// argument.
proof fn lemma_fx_mul_odd(a: int, b: int)
    ensures
        fx_mul_spec(-a, b) == -fx_mul_spec(a, b),
{
    assert((-a) * b == -(a * b)) by (nonlinear_arith);
}

/// Composing two nonnegative rescalings agrees with rescaling by the
/// composed factor, up to the stated multiple of the fixed-point unit.
proof fn lemma_rescale_compose(x: int, v1: int, v2: int)
    requires
        0 <= x,
        0 <= v1,
        0 <= v2,
    ensures
        ({
            let s = FP_ONE as int;
            let d = fx_mul_spec(fx_mul_spec(x, v1), v2) - fx_mul_spec(x, fx_mul_spec(v1, v2));
            d * (s * s) <= s * (x + v2) + 2 * (s * s) && (-d) * (s * s) <= s * (x + v2) + 2 * (s
                * s)
        }),
{
    let s = FP_ONE as int;
    assert(x * v1 >= 0 && v1 * v2 >= 0) by (nonlinear_arith)
        requires
            0 <= x,
            0 <= v1,
            0 <= v2,
    ;
    let a = (x * v1) / s;
    let r1 = (x * v1) % s;
    vstd::arithmetic::div_mod::lemma_fundamental_div_mod(x * v1, s);
    vstd::arithmetic::div_mod::lemma_div_pos_is_pos(x * v1, s);
    assert(a * v2 >= 0) by (nonlinear_arith)
        requires
            a >= 0,
            v2 >= 0,
    ;
    let b = (a * v2) / s;
    let r2 = (a * v2) % s;
    vstd::arithmetic::div_mod::lemma_fundamental_div_mod(a * v2, s);
    let w = (v1 * v2) / s;
    let r3 = (v1 * v2) % s;
    vstd::arithmetic::div_mod::lemma_fundamental_div_mod(v1 * v2, s);
    vstd::arithmetic::div_mod::lemma_div_pos_is_pos(v1 * v2, s);
    assert(x * w >= 0) by (nonlinear_arith)
        requires
            x >= 0,
            w >= 0,
    ;
    let c = (x * w) / s;
    let r4 = (x * w) % s;
    vstd::arithmetic::div_mod::lemma_fundamental_div_mod(x * w, s);
    assert(fx_mul_spec(fx_mul_spec(x, v1), v2) == b);
    assert(fx_mul_spec(x, fx_mul_spec(v1, v2)) == c);
    assert(s * (a * v2) == s * s * b + s * r2) by (nonlinear_arith)
        requires
            a * v2 == s * b + r2,
    ;
    assert(s * (a * v2) == (s * a) * v2) by (nonlinear_arith);
    assert((s * a) * v2 == (x * v1) * v2 - r1 * v2) by (nonlinear_arith)
        requires
            s * a == x * v1 - r1,
    ;
    assert((x * v1) * v2 == x * (v1 * v2)) by (nonlinear_arith);
    assert(s * s * b == x * (v1 * v2) - r1 * v2 - s * r2);
    assert(s * (x * w) == s * s * c + s * r4) by (nonlinear_arith)
        requires
            x * w == s * c + r4,
    ;
    assert(s * (x * w) == x * (s * w)) by (nonlinear_arith);
    assert(x * (s * w) == x * (v1 * v2) - x * r3) by (nonlinear_arith)
        requires
            s * w == v1 * v2 - r3,
    ;
    assert(s * s * c == x * (v1 * v2) - x * r3 - s * r4);
    assert(s * s * (b - c) == x * r3 + s * r4 - r1 * v2 - s * r2) by (nonlinear_arith)
        requires
            s * s * b == x * (v1 * v2) - r1 * v2 - s * r2,
            s * s * c == x * (v1 * v2) - x * r3 - s * r4,
    ;
    assert(0 <= x * r3 <= s * x && 0 <= r1 * v2 <= s * v2) by (nonlinear_arith)
        requires
            0 <= x,
            0 <= r3 < s,
            0 <= r1 < s,
            0 <= v2,
    ;
    assert(s * s * (b - c) <= s * x + s * r4 <= s * x + s * s);
    assert(s * s * (b - c) <= s * (x + v2) + 2 * (s * s)) by (nonlinear_arith)
        requires
            s * s * (b - c) <= s * x + s * s,
            v2 >= 0,
            s > 0,
    ;
    assert(s * s * (c - b) <= s * v2 + s * r2 <= s * v2 + s * s);
    assert(s * s * (c - b) <= s * (x + v2) + 2 * (s * s)) by (nonlinear_arith)
        requires
            s * s * (c - b) <= s * v2 + s * s,
            x >= 0,
            s > 0,
    ;
    assert((b - c) * (s * s) == s * s * (b - c) && (c - b) * (s * s) == s * s * (c - b))
        by (nonlinear_arith);
}

/// Volume linearity: for normalized samples and volumes at most 1.0,
/// applying volume `v1` and then `v2` agrees with applying the composed
/// volume `v1 * v2` in one pass, within four fixed-point units (about
/// 4e-6) per sample — no clamping is involved at the volume stage.
pub proof fn lemma_volume_linearity(s: Seq<int>, v1: int, v2: int)
    requires
        bounded_by(s, FP_ONE as int),
        0 <= v1 <= FP_ONE,
        0 <= v2 <= FP_ONE,
    ensures
        volume_spec(volume_spec(s, v1), v2).len() == volume_spec(s, fx_mul_spec(v1, v2)).len(),
        forall|i: int|
            0 <= i < s.len() ==> abs(
                #[trigger] volume_spec(volume_spec(s, v1), v2)[i] - volume_spec(
                    s,
                    fx_mul_spec(v1, v2),
                )[i],
            ) <= 4,
{
    let unit = FP_ONE as int;
    assert forall|i: int| 0 <= i < s.len() implies abs(
        #[trigger] volume_spec(volume_spec(s, v1), v2)[i] - volume_spec(s, fx_mul_spec(v1, v2))[i],
    ) <= 4 by {
        let x = s[i];
        assert(volume_spec(volume_spec(s, v1), v2)[i] == fx_mul_spec(fx_mul_spec(x, v1), v2));
        assert(volume_spec(s, fx_mul_spec(v1, v2))[i] == fx_mul_spec(x, fx_mul_spec(v1, v2)));
        if x >= 0 {
            lemma_rescale_compose(x, v1, v2);
            let d = fx_mul_spec(fx_mul_spec(x, v1), v2) - fx_mul_spec(x, fx_mul_spec(v1, v2));
            assert(d * (unit * unit) <= 4 * (unit * unit) && (-d) * (unit * unit) <= 4 * (unit
                * unit));
            assert(abs(d) <= 4) by (nonlinear_arith)
                requires
                    d * (unit * unit) <= 4 * (unit * unit),
                    (-d) * (unit * unit) <= 4 * (unit * unit),
                    unit == 1048576,
            ;
        } else {
            lemma_rescale_compose(-x, v1, v2);
            lemma_fx_mul_odd(x, v1);
            lemma_fx_mul_odd(fx_mul_spec(x, v1), v2);
            lemma_fx_mul_odd(x, fx_mul_spec(v1, v2));
            let d = fx_mul_spec(fx_mul_spec(-x, v1), v2) - fx_mul_spec(-x, fx_mul_spec(v1, v2));
            assert(fx_mul_spec(fx_mul_spec(-x, v1), v2) == -fx_mul_spec(fx_mul_spec(x, v1), v2))
                by {
                lemma_fx_mul_odd(fx_mul_spec(x, v1), v2);
            }
            assert(d * (unit * unit) <= 4 * (unit * unit) && (-d) * (unit * unit) <= 4 * (unit
                * unit));
            assert(abs(d) <= 4) by (nonlinear_arith)
                requires
                    d * (unit * unit) <= 4 * (unit * unit),
                    (-d) * (unit * unit) <= 4 * (unit * unit),
                    unit == 1048576,
            ;
        }
    }
}

/// A configuration that activates no stage beyond the always-on volume.
pub open spec fn volume_only_config(e: AdvancedAudioEffects) -> bool {
    &&& !tempo_applies(e.tempo as int)
    &&& !bass_applies(e.bass_boost as int)
    &&& !eq_applies(e)
    &&& !limiter_applies(e)
    &&& !attenuator_applies(e)
    &&& !reverb_applies(e.reverb as int)
}

/// Volume linearity at the pipeline level: for normalized buffers and
/// volumes at most 1.0, running the pipeline with `v1` and then with
/// `v2` agrees with one run at the composed volume `v1 * v2`, within
/// four fixed-point units per sample, when no other stage is active.
/// Together with `process_audio`'s exact contract this carries the law
/// to the executable pipeline.
pub proof fn lemma_process_volume_linearity(
    data: Seq<Seq<int>>,
    rate: int,
    e1: AdvancedAudioEffects,
    e2: AdvancedAudioEffects,
    e12: AdvancedAudioEffects,
)
    requires
        volume_only_config(e1),
        volume_only_config(e2),
        volume_only_config(e12),
        0 <= e1.volume <= FP_ONE,
        0 <= e2.volume <= FP_ONE,
        e12.volume == fx_mul_spec(e1.volume as int, e2.volume as int),
        forall|c: int| 0 <= c < data.len() ==> bounded_by(#[trigger] data[c], FP_ONE as int),
    ensures
        ({
            let two = process_spec(
                process_spec(data, rate, e1, Seq::<int>::empty()),
                rate,
                e2,
                Seq::<int>::empty(),
            );
            let one = process_spec(data, rate, e12, Seq::<int>::empty());
            &&& two.len() == data.len()
            &&& one.len() == data.len()
            &&& forall|c: int|
                0 <= c < data.len() ==> (#[trigger] two[c]).len() == data[c].len() && one[c].len()
                    == data[c].len()
            &&& forall|c: int, i: int|
                0 <= c < data.len() && 0 <= i < data[c].len() ==> abs(
                    #[trigger] two[c][i] - one[c][i],
                ) <= 4
        }),
{
    let mid = process_spec(data, rate, e1, Seq::<int>::empty());
    let two = process_spec(mid, rate, e2, Seq::<int>::empty());
    let one = process_spec(data, rate, e12, Seq::<int>::empty());
    assert(mid =~= Seq::new(data.len(), |c: int| volume_spec(data[c], e1.volume as int)));
    assert forall|c: int| 0 <= c < mid.len() implies bounded_by(
        #[trigger] mid[c],
        FP_ONE as int,
    ) by {
        let v = volume_spec(data[c], e1.volume as int);
        assert forall|i: int| 0 <= i < v.len() implies abs(#[trigger] v[i]) <= FP_ONE as int by {
            lemma_mul_abs_bound(data[c][i], e1.volume as int, FP_ONE as int, FP_ONE as int);
            lemma_fx_mul_bound(data[c][i], e1.volume as int, FP_ONE as int, FP_ONE as int);
            assert((FP_ONE as int) * (FP_ONE as int) / (FP_ONE as int) == FP_ONE as int)
                by (nonlinear_arith);
        }
    }
    assert(two =~= Seq::new(mid.len(), |c: int| volume_spec(mid[c], e2.volume as int)));
    assert(one =~= Seq::new(data.len(), |c: int| volume_spec(data[c], e12.volume as int)));
    assert forall|c: int, i: int|
        0 <= c < data.len() && 0 <= i < data[c].len() implies abs(
        #[trigger] two[c][i] - one[c][i],
    ) <= 4 by {
        lemma_volume_linearity(data[c], e1.volume as int, e2.volume as int);
        assert(two[c] == volume_spec(volume_spec(data[c], e1.volume as int), e2.volume as int));
        assert(one[c] == volume_spec(data[c], fx_mul_spec(e1.volume as int, e2.volume as int)));
    }
}

/// The volume stage keeps normalized input within the engine's headroom
/// bound for any gain the configuration admits.
pub proof fn lemma_volume_seq_bounded(s: Seq<int>, v: int)
    requires
        bounded_by(s, FP_ONE as int),
        abs(v) <= 1000 * FP_ONE,
    ensures
        bounded_by(volume_spec(s, v), MAX_ABS_SAMPLE as int),
{
    assert forall|i: int| 0 <= i < volume_spec(s, v).len() implies abs(
        #[trigger] volume_spec(s, v)[i],
    ) <= MAX_ABS_SAMPLE as int by {
        lemma_mul_abs_bound(s[i], v, FP_ONE as int, 1000 * FP_ONE as int);
        lemma_fx_mul_bound(s[i], v, FP_ONE as int, 1000 * FP_ONE as int);
        assert((FP_ONE as int) * (1000 * FP_ONE as int) / (FP_ONE as int) == 1000 * FP_ONE as int)
            by (nonlinear_arith)
            requires
                FP_ONE == 1048576,
        ;
    }
}

/// One channel of the volume stage, exact per [`volume_spec`].
fn volume_channel(chan: &Vec<i64>, volume: i64) -> (out: Vec<i64>)
    requires
        bounded_by(sample_seq(chan@), MAX_ABS_SAMPLE as int),
        abs(volume as int) <= 1000 * FP_ONE,
    ensures
        sample_seq(out@) == volume_spec(sample_seq(chan@), volume as int),
        out@.len() == chan@.len(),
{
    let n = chan.len();
    let mut out: Vec<i64> = Vec::new();
    let mut i: usize = 0;
    while i < n
        invariant
            i <= n,
            n == chan@.len(),
            bounded_by(sample_seq(chan@), MAX_ABS_SAMPLE as int),
            abs(volume as int) <= 1000 * FP_ONE,
            out@.len() == i,
            forall|j: int|
                0 <= j < i ==> out@[j] == fx_mul_spec(chan@[j] as int, volume as int),
        decreases n - i,
    {
        proof {
            assert(sample_seq(chan@)[i as int] == chan@[i as int] as int);
            lemma_mul_abs_bound(
                chan@[i as int] as int,
                volume as int,
                MAX_ABS_SAMPLE as int,
                1000 * FP_ONE as int,
            );
            lemma_fx_mul_bound(
                chan@[i as int] as int,
                volume as int,
                MAX_ABS_SAMPLE as int,
                1000 * FP_ONE as int,
            );
        }
        let v = fx_mul(chan[i], volume);
        out.push(v);
        i = i + 1;
    }
    proof {
        assert(sample_seq(out@) =~= volume_spec(sample_seq(chan@), volume as int));
    }
    out
}

/// One channel of the tempo stage, exact per [`tempo_spec`]; the output
/// keeps the input's magnitude bound because each sample is a convex
/// combination of two input samples.
fn tempo_channel(chan: &Vec<i64>, tempo: i64, new_length: usize) -> (out: Vec<i64>)
    requires
        1 <= chan@.len() <= MAX_SAMPLES,
        bounded_by(sample_seq(chan@), MAX_ABS_SAMPLE as int),
        FP_ONE / 100 <= tempo <= 100 * FP_ONE,
        new_length == tempo_out_len(chan@.len() as int, tempo as int),
    ensures
        sample_seq(out@) == tempo_spec(sample_seq(chan@), tempo as int),
        out@.len() == new_length,
        bounded_by(sample_seq(out@), MAX_ABS_SAMPLE as int),
{
    let len = chan.len();
    let mut out: Vec<i64> = Vec::new();
    let mut i: usize = 0;
    proof {
        vstd::arithmetic::div_mod::lemma_fundamental_div_mod(
            len as int * FP_ONE as int,
            tempo as int,
        );
        vstd::arithmetic::div_mod::lemma_remainder_lower(len as int * FP_ONE as int, tempo as int);
        let q = len as int * FP_ONE as int / (tempo as int);
        assert(tempo as int * q == q * tempo as int) by (nonlinear_arith);
        assert(new_length as int * tempo as int <= len as int * FP_ONE as int);
        assert(len as int * FP_ONE as int <= MAX_SAMPLES * FP_ONE as int) by (nonlinear_arith)
            requires
                0 <= len <= MAX_SAMPLES,
        ;
    }
    while i < new_length
        invariant
            i <= new_length,
            len == chan@.len(),
            1 <= len <= MAX_SAMPLES,
            bounded_by(sample_seq(chan@), MAX_ABS_SAMPLE as int),
            FP_ONE / 100 <= tempo <= 100 * FP_ONE,
            new_length == tempo_out_len(len as int, tempo as int),
            new_length as int * tempo as int <= len as int * FP_ONE as int,
            len as int * FP_ONE as int <= MAX_SAMPLES * FP_ONE as int,
            out@.len() == i,
            forall|j: int|
                0 <= j < i ==> out@[j] == lerp_at(sample_seq(chan@), tempo as int, j)
                    && abs(#[trigger] out@[j] as int) <= MAX_ABS_SAMPLE as int,
        decreases new_length - i,
    {
        proof {
            assert(i as int * tempo as int <= (new_length as int - 1) * tempo as int)
                by (nonlinear_arith)
                requires
                    0 <= i as int <= new_length as int - 1,
                    tempo > 0,
            ;
            assert((new_length as int - 1) * tempo as int == new_length as int * tempo as int
                - tempo as int) by (nonlinear_arith);
            assert(i as int * tempo as int >= 0) by (nonlinear_arith)
                requires
                    i >= 0,
                    tempo > 0,
            ;
        }
        let pos = (i as i64) * tempo;
        let j = ((pos as u64) / (FP_ONE as u64)) as usize;
        let frac = ((pos as u64) % (FP_ONE as u64)) as i64;
        proof {
            vstd::arithmetic::div_mod::lemma_remainder_lower(pos as int, FP_ONE as int);
            vstd::arithmetic::div_mod::lemma_remainder_upper(pos as int, FP_ONE as int);
            vstd::arithmetic::div_mod::lemma_div_pos_is_pos(pos as int, FP_ONE as int);
            assert(pos as int <= len as int * FP_ONE as int - tempo as int);
            vstd::arithmetic::div_mod::lemma_div_is_ordered(
                pos as int,
                len as int * FP_ONE as int - 1,
                FP_ONE as int,
            );
            assert((len as int * FP_ONE as int - 1) / (FP_ONE as int) <= len as int - 1) by {
                vstd::arithmetic::div_mod::lemma_fundamental_div_mod_converse(
                    len as int * FP_ONE as int - 1,
                    FP_ONE as int,
                    len as int - 1,
                    FP_ONE as int - 1,
                );
            }
        }
        let jn = if j + 1 < len {
            j + 1
        } else {
            len - 1
        };
        let a = chan[j];
        let b = chan[jn];
        proof {
            assert(sample_seq(chan@)[j as int] == a as int);
            assert(sample_seq(chan@)[jn as int] == b as int);
            lemma_mul_abs_bound(a as int, FP_ONE - frac as int, MAX_ABS_SAMPLE as int, FP_ONE as int);
            lemma_mul_abs_bound(b as int, frac as int, MAX_ABS_SAMPLE as int, FP_ONE as int);
            lemma_div_trunc_bound(
                a as int * (FP_ONE - frac) as int + b as int * frac as int,
                FP_ONE as int,
            );
            assert(abs(a as int * (FP_ONE - frac) as int + b as int * frac as int)
                <= MAX_ABS_SAMPLE as int * FP_ONE as int) by (nonlinear_arith)
                requires
                    abs(a as int) <= MAX_ABS_SAMPLE as int,
                    abs(b as int) <= MAX_ABS_SAMPLE as int,
                    0 <= frac < FP_ONE,
            ;
            vstd::arithmetic::div_mod::lemma_div_is_ordered(
                abs(a as int * (FP_ONE - frac) as int + b as int * frac as int),
                MAX_ABS_SAMPLE as int * FP_ONE as int,
                FP_ONE as int,
            );
            assert(MAX_ABS_SAMPLE as int * FP_ONE as int / (FP_ONE as int)
                == MAX_ABS_SAMPLE as int) by (nonlinear_arith)
                requires
                    FP_ONE == 1048576,
                    MAX_ABS_SAMPLE == 0x8000_0000,
            ;
        }
        let v = div_trunc_i64(a * (FP_ONE - frac) + b * frac, FP_ONE);
        out.push(v);
        i = i + 1;
    }
    proof {
        assert(sample_seq(out@) =~= tempo_spec(sample_seq(chan@), tempo as int));
        assert forall|j: int| 0 <= j < sample_seq(out@).len() implies abs(
            #[trigger] sample_seq(out@)[j],
        ) <= MAX_ABS_SAMPLE as int by {
            assert(sample_seq(out@)[j] == out@[j] as int);
        }
    }
    out
}

} // verus!
