use audiolab::fixed::{fx_mul, FP_ONE};
use audiolab::fxmath::{db_to_linear, fx_exp, isqrt};
use audiolab::loader::{AudioFormat, AudioLoader, RawSample};
use audiolab::processor::AudioProcessor;
use audiolab::types::{AdvancedAudioEffects, AudioBuffer, AudioError};

fn buffer_from(channels: Vec<Vec<i64>>, sample_rate: u32) -> AudioBuffer {
    let spc = channels[0].len() as u64;
    let duration = ((spc * (FP_ONE as u64)) / (sample_rate as u64)) as i64;
    AudioBuffer {
        channels,
        sample_rate,
        duration,
    }
}

#[test]
fn detect_format_wav() {
    assert_eq!(AudioLoader::detect_format("music/song.wav"), Ok(AudioFormat::Wav));
    assert_eq!(AudioLoader::detect_format("SONG.WAV"), Ok(AudioFormat::Wav));
}

#[test]
fn detect_format_compressed() {
    assert_eq!(AudioLoader::detect_format("a.mp3"), Ok(AudioFormat::Compressed));
    assert_eq!(AudioLoader::detect_format("a.m4a"), Ok(AudioFormat::Compressed));
    assert_eq!(AudioLoader::detect_format("a.aac"), Ok(AudioFormat::Compressed));
    assert_eq!(AudioLoader::detect_format("a.ogg"), Ok(AudioFormat::Compressed));
    assert_eq!(AudioLoader::detect_format("b.FLAC"), Ok(AudioFormat::Compressed));
}

#[test]
fn detect_format_unsupported() {
    assert_eq!(
        AudioLoader::detect_format("file.xyz"),
        Err(AudioError::UnsupportedFormat)
    );
    assert_eq!(
        AudioLoader::detect_format("no_extension"),
        Err(AudioError::UnsupportedFormat)
    );
    assert_eq!(AudioLoader::detect_format(""), Err(AudioError::UnsupportedFormat));
}

#[test]
fn deinterleave_splits_round_robin() {
    let inter = vec![1i64, 2, 3, 4, 5, 6];
    let chans = AudioLoader::deinterleave_samples(inter, 2);
    assert_eq!(chans.len(), 2);
    assert_eq!(chans[0], vec![1, 3, 5]);
    assert_eq!(chans[1], vec![2, 4, 6]);
}

#[test]
fn deinterleave_zero_channels_is_empty() {
    let chans = AudioLoader::deinterleave_samples(vec![1i64, 2, 3], 0);
    assert!(chans.is_empty());
}

#[test]
fn deinterleave_then_interleave_is_identity() {
    let inter: Vec<i64> = (0..90).map(|i| (i * 7919 - 300000) as i64).collect();
    let chans = AudioLoader::deinterleave_samples(inter.clone(), 3);
    let buf = buffer_from(chans, 44100);
    let back = AudioLoader::interleave_channels(&buf);
    assert_eq!(back, inter);
}

#[test]
fn save_then_load_round_trip_in_memory() {
    // The serializer's interleaved frames written as a 32-bit float
    // container and read back reproduce the buffer exactly: normalized
    // Q20 samples are exactly representable as f32.
    let chans = vec![
        vec![0i64, FP_ONE, -FP_ONE, 12345, -54321],
        vec![7i64, -7, FP_ONE / 2, -FP_ONE / 4, 99999],
    ];
    let buf = buffer_from(chans.clone(), 22050);
    let frames = AudioLoader::interleave_channels(&buf);

    let spec = hound::WavSpec {
        channels: 2,
        sample_rate: 22050,
        bits_per_sample: 32,
        sample_format: hound::SampleFormat::Float,
    };
    let mut bytes: std::io::Cursor<Vec<u8>> = std::io::Cursor::new(Vec::new());
    {
        let mut writer = hound::WavWriter::new(&mut bytes, spec).unwrap();
        for s in &frames {
            writer
                .write_sample((*s as f32) / (FP_ONE as f32))
                .unwrap();
        }
        writer.finalize().unwrap();
    }
    bytes.set_position(0);
    let mut reader = hound::WavReader::new(bytes).unwrap();
    let got_spec = reader.spec();
    assert_eq!(got_spec.channels, 2);
    assert_eq!(got_spec.sample_rate, 22050);
    let samples: Vec<i64> = reader
        .samples::<f32>()
        .map(|s| (s.unwrap() * FP_ONE as f32) as i64)
        .collect();
    let rebuilt = AudioLoader::from_interleaved(samples, 2, 22050).unwrap();
    assert_eq!(rebuilt.channels, chans);
    assert_eq!(rebuilt.sample_rate, buf.sample_rate);
    assert_eq!(rebuilt.duration, buf.duration);
}

#[test]
fn from_interleaved_rejects_degenerate_input() {
    assert_eq!(
        AudioLoader::from_interleaved(vec![], 2, 44100),
        Err(AudioError::DecodeError)
    );
    assert_eq!(
        AudioLoader::from_interleaved(vec![1, 2, 3], 0, 44100),
        Err(AudioError::DecodeError)
    );
    assert_eq!(
        AudioLoader::from_interleaved(vec![1, 2, 3], 2, 0),
        Err(AudioError::DecodeError)
    );
}

#[test]
fn from_interleaved_drops_partial_frame() {
    let b = AudioLoader::from_interleaved(vec![1, 2, 3, 4, 5], 2, 44100).unwrap();
    assert_eq!(b.channels[0], vec![1, 3]);
    assert_eq!(b.channels[1], vec![2, 4]);
}

#[test]
fn normalize_sample_exact_values() {
    assert_eq!(AudioLoader::normalize_sample(RawSample::S16(16384)), 16384 * 32);
    assert_eq!(AudioLoader::normalize_sample(RawSample::S16(-32768)), -FP_ONE);
    assert_eq!(AudioLoader::normalize_sample(RawSample::U8(0)), -FP_ONE);
    assert_eq!(AudioLoader::normalize_sample(RawSample::U8(128)), 0);
    assert_eq!(AudioLoader::normalize_sample(RawSample::S8(127)), 127 * 8192);
    assert_eq!(AudioLoader::normalize_sample(RawSample::S32(i32::MIN)), -FP_ONE);
    assert_eq!(AudioLoader::normalize_sample(RawSample::U16(65535)), 32767 * 32);
    assert_eq!(AudioLoader::normalize_sample(RawSample::U32(0)), -FP_ONE);
}

#[test]
fn normalize_wav_int_divides_by_signed_max_of_depth() {
    // 32-bit: divide by i32::MAX.
    assert_eq!(AudioLoader::normalize_wav_int(i32::MAX, 32), FP_ONE);
    assert_eq!(AudioLoader::normalize_wav_int(i32::MIN, 32), -FP_ONE);
    assert_eq!(AudioLoader::normalize_wav_int(0, 32), 0);
    // 16-bit: divide by 32767, so half scale is just above 0.5.
    assert_eq!(AudioLoader::normalize_wav_int(32767, 16), FP_ONE);
    assert_eq!(AudioLoader::normalize_wav_int(16384, 16), 524304);
    // The documented signed-max asymmetry: negative full scale lands
    // just beyond -1.0.
    assert_eq!(AudioLoader::normalize_wav_int(-32768, 16), -1048608);
    // 8-bit: divide by 127.
    assert_eq!(AudioLoader::normalize_wav_int(127, 8), FP_ONE);
}

#[test]
fn error_messages() {
    assert_eq!(AudioError::UnsupportedFormat.message(), "unsupported audio format");
    assert_eq!(AudioError::DecodeError.message(), "failed to decode audio data");
    assert_eq!(AudioError::IoError.message(), "audio input/output failed");
    assert_eq!(
        AudioError::UnsupportedStreamChange.message(),
        "unsupported mid-stream track change"
    );
    assert_eq!(AudioError::EncodeError.message(), "failed to encode audio output");
}

#[test]
fn silent_second_with_half_volume_stays_silent() {
    // A mono second of silence at 44100 Hz with volume 0.5 and neutral
    // tempo comes back as 44100 zeros, one channel, duration 1.0 s.
    let buf = buffer_from(vec![vec![0i64; 44100]], 44100);
    let mut effects = AdvancedAudioEffects::neutral();
    effects.volume = FP_ONE / 2;
    let out = AudioProcessor::process_audio(buf, &effects).unwrap();
    assert_eq!(out.channels.len(), 1);
    assert_eq!(out.channels[0].len(), 44100);
    assert!(out.channels[0].iter().all(|&s| s == 0));
    assert_eq!(out.sample_rate, 44100);
    assert_eq!(out.duration, FP_ONE);
}

#[test]
fn attenuator_clamps_full_scale_to_unit() {
    // Full-scale channels through a +6 dB attenuator clamp exactly at
    // +/-1.0.
    let buf = buffer_from(vec![vec![FP_ONE; 44100], vec![-FP_ONE; 44100]], 44100);
    let mut effects = AdvancedAudioEffects::neutral();
    effects.attenuator = Some(true);
    effects.attenuator_gain = Some(6 * FP_ONE);
    effects.audio_processing_enabled = Some(true);
    let out = AudioProcessor::process_audio(buf, &effects).unwrap();
    assert!(out.channels[0].iter().all(|&s| s == FP_ONE));
    assert!(out.channels[1].iter().all(|&s| s == -FP_ONE));
}

#[test]
fn tempo_double_halves_length() {
    let samples: Vec<i64> = (0..10).map(|i| i * 1000).collect();
    let buf = buffer_from(vec![samples.clone()], 8000);
    let mut effects = AdvancedAudioEffects::neutral();
    effects.tempo = 2 * FP_ONE;
    let out = AudioProcessor::process_audio(buf, &effects).unwrap();
    assert_eq!(out.channels[0].len(), 5);
    // With an integral step the interpolation lands exactly on samples.
    assert_eq!(out.channels[0], vec![0, 2000, 4000, 6000, 8000]);
}

#[test]
fn tempo_unit_is_noop() {
    let samples: Vec<i64> = (0..100).map(|i| (i * 317 - 9000) as i64).collect();
    let buf = buffer_from(vec![samples.clone()], 8000);
    let effects = AdvancedAudioEffects::neutral();
    let out = AudioProcessor::process_audio(buf, &effects).unwrap();
    assert_eq!(out.channels[0], samples);
    assert_eq!(out.channels[0].len(), 100);
}

#[test]
fn tempo_half_doubles_length() {
    let samples: Vec<i64> = vec![0, 10000, 20000, 30000];
    let buf = buffer_from(vec![samples], 8000);
    let mut effects = AdvancedAudioEffects::neutral();
    effects.tempo = FP_ONE / 2;
    let out = AudioProcessor::process_audio(buf, &effects).unwrap();
    assert_eq!(out.channels[0].len(), 8);
    // Odd output indices interpolate halfway between neighbours; the
    // upper source index clamps to the last sample at the end.
    assert_eq!(
        out.channels[0],
        vec![0, 5000, 10000, 15000, 20000, 25000, 30000, 30000]
    );
}

#[test]
fn volume_linearity_within_tolerance() {
    let samples: Vec<i64> = vec![FP_ONE / 3, -FP_ONE / 7, 12345, -FP_ONE, FP_ONE];
    let v1 = 3 * FP_ONE / 10;
    let v2 = 7 * FP_ONE / 10;
    let b1 = buffer_from(vec![samples.clone()], 44100);
    let mut e1 = AdvancedAudioEffects::neutral();
    e1.volume = v1;
    let step1 = AudioProcessor::process_audio(b1, &e1).unwrap();
    let mut e2 = AdvancedAudioEffects::neutral();
    e2.volume = v2;
    let two_pass = AudioProcessor::process_audio(step1, &e2).unwrap();

    let b2 = buffer_from(vec![samples], 44100);
    let mut e12 = AdvancedAudioEffects::neutral();
    e12.volume = fx_mul(v1, v2);
    let one_pass = AudioProcessor::process_audio(b2, &e12).unwrap();

    for (a, b) in two_pass.channels[0].iter().zip(one_pass.channels[0].iter()) {
        assert!((a - b).abs() <= 4);
    }
}

#[test]
fn bass_boost_clamps_to_unit() {
    let buf = buffer_from(vec![vec![FP_ONE; 2000]], 44100);
    let mut effects = AdvancedAudioEffects::neutral();
    effects.bass_boost = FP_ONE;
    let out = AudioProcessor::process_audio(buf, &effects).unwrap();
    assert!(out.channels[0].iter().all(|&s| s.abs() <= FP_ONE));
    // The boosted low band actually drives samples into the clamp.
    assert!(out.channels[0].iter().any(|&s| s == FP_ONE));
}

#[test]
fn equalizer_clamps_and_filters() {
    let samples: Vec<i64> = (0..2000)
        .map(|i| if i % 2 == 0 { FP_ONE } else { -FP_ONE })
        .collect();
    let buf = buffer_from(vec![samples.clone()], 44100);
    let mut effects = AdvancedAudioEffects::neutral();
    effects.eq_high = Some(FP_ONE);
    effects.eq_low = Some(0);
    let out = AudioProcessor::process_audio(buf, &effects).unwrap();
    assert!(out.channels[0].iter().all(|&s| s.abs() <= FP_ONE));
    assert_ne!(out.channels[0], samples);
}

#[test]
fn equalizer_unity_bands_are_skipped() {
    let samples: Vec<i64> = (0..500).map(|i| (i * 131 - 30000) as i64).collect();
    let buf = buffer_from(vec![samples.clone()], 44100);
    let mut effects = AdvancedAudioEffects::neutral();
    // A configured band at exactly 0.5 is unity gain and is skipped.
    effects.eq_mid = Some(FP_ONE / 2);
    let out = AudioProcessor::process_audio(buf, &effects).unwrap();
    assert_eq!(out.channels[0], samples);
}

#[test]
fn limiter_holds_output_below_threshold() {
    let buf = buffer_from(vec![vec![FP_ONE; 5000]], 44100);
    let mut effects = AdvancedAudioEffects::neutral();
    effects.limiter = Some(true);
    let out = AudioProcessor::process_audio(buf, &effects).unwrap();
    // Default threshold is -1 dB, strictly below full scale.
    assert!(out.channels[0].iter().all(|&s| s.abs() < FP_ONE));
}

#[test]
fn limiter_gated_off_by_master_switch() {
    let samples: Vec<i64> = vec![FP_ONE, -FP_ONE, FP_ONE / 2];
    let buf = buffer_from(vec![samples.clone()], 44100);
    let mut effects = AdvancedAudioEffects::neutral();
    effects.limiter = Some(true);
    effects.audio_processing_enabled = Some(false);
    let out = AudioProcessor::process_audio(buf, &effects).unwrap();
    assert_eq!(out.channels[0], samples);
}

#[test]
fn reverb_mixes_with_a_single_wet_factor() {
    // One sample 1.0 against the unit impulse at mix 0.5: dry 0.5 plus
    // wet 0.5 gives exactly 1.0.
    let buf = buffer_from(vec![vec![FP_ONE]], 44100);
    let impulse = vec![FP_ONE, 0];
    let out = AudioProcessor::apply_reverb_with_impulse(buf, &impulse, FP_ONE / 2).unwrap();
    assert_eq!(out.channels[0], vec![FP_ONE]);
}

#[test]
fn equalizer_band_above_nyquist_still_applies() {
    // Below a 32 kHz rate the 16 kHz band's reduced angle has a negative
    // sine, clamped to zero; the band then degenerates to a unity filter
    // (clamping only) rather than being skipped.
    let samples: Vec<i64> = (0..300)
        .map(|i| if i % 2 == 0 { FP_ONE } else { -FP_ONE })
        .collect();
    let buf = buffer_from(vec![samples.clone()], 22050);
    let mut effects = AdvancedAudioEffects::neutral();
    effects.eq_high = Some(FP_ONE);
    let out = AudioProcessor::process_audio(buf, &effects).unwrap();
    assert_eq!(out.channels[0], samples);
}

#[test]
fn reverb_keeps_shape_and_mixes() {
    let buf = buffer_from(vec![vec![FP_ONE / 2; 50]], 100);
    let mut effects = AdvancedAudioEffects::neutral();
    effects.reverb = FP_ONE / 2;
    let out = AudioProcessor::process_audio(buf, &effects).unwrap();
    assert_eq!(out.channels.len(), 1);
    assert_eq!(out.channels[0].len(), 50);
    assert_eq!(out.sample_rate, 100);
}

#[test]
fn stage_order_bass_then_reverb_differs_from_reverse() {
    // The pipeline applies bass boost before reverb; applying them in
    // the opposite order gives a different result on the same impulse.
    let samples: Vec<i64> = (0..200)
        .map(|i| if i % 4 < 2 { FP_ONE / 2 } else { -FP_ONE / 2 })
        .collect();
    let impulse: Vec<i64> = (0..40).map(|j| FP_ONE / (j + 2)).collect();
    let boost = FP_ONE;
    let mix = FP_ONE / 2;

    let mut a = buffer_from(vec![samples.clone()], 8000);
    AudioProcessor::apply_bass_boost(&mut a, boost).unwrap();
    let a = AudioProcessor::apply_reverb_with_impulse(a, &impulse, mix).unwrap();

    let b = buffer_from(vec![samples], 8000);
    let b = AudioProcessor::apply_reverb_with_impulse(b, &impulse, mix).unwrap();
    let mut b = b;
    AudioProcessor::apply_bass_boost(&mut b, boost).unwrap();

    assert_ne!(a.channels[0], b.channels[0]);
}

#[test]
fn detect_format_extension_is_byte_based() {
    // The extension is whatever follows the last dot of the whole path.
    assert_eq!(
        AudioLoader::detect_format("dir.tar/file"),
        Err(AudioError::UnsupportedFormat)
    );
    assert_eq!(AudioLoader::detect_format("dir.tar/file.wav"), Ok(AudioFormat::Wav));
}

#[test]
fn fixed_point_math_sanity() {
    assert_eq!(fx_exp(0), FP_ONE);
    assert!(fx_exp(FP_ONE) > FP_ONE);
    assert!(fx_exp(-FP_ONE) < FP_ONE);
    // 0 dB is exactly unity gain.
    assert_eq!(db_to_linear(0), FP_ONE);
    // +20 dB is a gain of 10, -20 dB a gain of 0.1, within fixed-point
    // series error.
    let up = db_to_linear(20 * FP_ONE);
    assert!((up - 10 * FP_ONE).abs() < FP_ONE / 100);
    let down = db_to_linear(-20 * FP_ONE);
    assert!((down - FP_ONE / 10).abs() < FP_ONE / 1000);
    assert_eq!(isqrt(144), 12);
    assert_eq!(isqrt(143), 11);
    assert_eq!(isqrt((FP_ONE as u128) * (FP_ONE as u128)), FP_ONE as u64);
}

#[test]
fn analysis_reports_exact_levels() {
    let buf = buffer_from(vec![vec![FP_ONE, -FP_ONE, FP_ONE, -FP_ONE], vec![0, 0, 0, FP_ONE]], 4);
    let a = audiolab::analysis::get_audio_analysis(&buf);
    assert_eq!(a.channels, 2);
    assert_eq!(a.sample_rate, 4);
    assert_eq!(a.samples_per_channel, 4);
    assert_eq!(a.duration, FP_ONE);
    assert_eq!(a.peak_levels, vec![FP_ONE, FP_ONE]);
    // Channel 0 is full scale throughout: RMS is exactly 1.0.
    assert_eq!(a.rms_levels[0], FP_ONE);
    // Channel 1: mean of squares is FP_ONE^2 / 4, so RMS is exactly 0.5.
    assert_eq!(a.rms_levels[1], FP_ONE / 2);
}
