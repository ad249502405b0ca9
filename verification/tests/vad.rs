//! Speech segments.
use rustasr::vad::{
    cut_spans, find_speech, label_frames, merge_spans, round_up_div, sample_rate_to_webrtc,
    segments_from_labels, split_mono_by_vad, vad_mode_from_u8, SpeechSegment, VadError, VadMode,
    VadRate, VadSegmentationConfig,
};

fn labels(runs: &[(bool, usize)]) -> Vec<bool> {
    let mut out = Vec::new();
    for &(v, n) in runs {
        for _ in 0..n {
            out.push(v);
        }
    }
    out
}

fn bounds(segments: &[SpeechSegment]) -> Vec<(usize, usize)> {
    segments.iter().map(|s| (s.start_sample, s.end_sample)).collect()
}

#[test]
fn defaults() {
    let c = VadSegmentationConfig::default();
    assert_eq!(c.mode, 2);
    assert_eq!(c.frame_ms, 30);
    assert_eq!(c.min_speech_ms, 300);
    assert_eq!(c.min_silence_ms, 200);
    assert_eq!(c.pad_ms, 150);
    assert_eq!(c.max_segment_ms, 30_000);
}

#[test]
fn round_up_division() {
    assert_eq!(round_up_div(300, 30), 10);
    assert_eq!(round_up_div(200, 30), 7);
    assert_eq!(round_up_div(0, 30), 0);
    assert_eq!(round_up_div(5, 0), 0);
    assert_eq!(round_up_div(usize::MAX, 2), usize::MAX / 2 + 1);
}

#[test]
fn speech_opens_and_closes_with_hysteresis() {
    let c = VadSegmentationConfig::default();
    let voice = labels(&[(false, 10), (true, 20), (false, 20)]);
    let s = segments_from_labels(&voice, 480, 16_000, &c);
    assert_eq!(bounds(&s), vec![(5 * 480, 35 * 480)]);

    // Nine frames are too short to open a segment.
    let short = labels(&[(false, 10), (true, 9), (false, 20)]);
    assert!(segments_from_labels(&short, 480, 16_000, &c).is_empty());

    // Six silent frames are too few to close one.
    let gap = labels(&[(true, 10), (false, 6), (true, 4), (false, 10)]);
    assert_eq!(find_speech(&gap, 10, 7), vec![(0, 20)]);
    let closed = labels(&[(true, 10), (false, 7), (true, 4), (false, 10)]);
    assert_eq!(find_speech(&closed, 10, 7), vec![(0, 10)]);

    // Speech that reaches the end is closed there.
    assert_eq!(find_speech(&labels(&[(false, 2), (true, 12)]), 10, 7), vec![(2, 14)]);
}

#[test]
fn padded_segments_are_merged() {
    let c = VadSegmentationConfig::default();
    let voice = labels(&[(false, 10), (true, 12), (false, 8), (true, 12), (false, 30)]);
    let s = segments_from_labels(&voice, 480, 16_000, &c);
    assert_eq!(bounds(&s), vec![(5 * 480, 47 * 480)]);
    assert_eq!(merge_spans(&[(0, 5), (5, 7), (9, 10)]), vec![(0, 7), (9, 10)]);
    assert_eq!(merge_spans(&[(0, 9), (2, 3), (10, 12)]), vec![(0, 9), (10, 12)]);
}

#[test]
fn long_segments_are_cut_into_tiles() {
    let mut c = VadSegmentationConfig::default();
    c.max_segment_ms = 300;
    let voice = labels(&[(false, 10), (true, 20), (false, 20)]);
    let s = segments_from_labels(&voice, 480, 16_000, &c);
    assert_eq!(bounds(&s), vec![(2400, 7200), (7200, 12000), (12000, 16800)]);
    assert_eq!(bounds(&cut_spans(&[(0, 5)], Some(2))), vec![(0, 2), (2, 4), (4, 5)]);
    assert_eq!(bounds(&cut_spans(&[(0, 5)], None)), vec![(0, 5)]);
    let even = bounds(&cut_spans(&[(7, 7 + 3 * 100 + 1)], Some(100)));
    assert_eq!(even, vec![(7, 107), (107, 207), (207, 307), (307, 308)]);
    assert_eq!(cut_spans(&[(7, 307)], Some(100)).len(), 3);
    c.max_segment_ms = 0;
    assert_eq!(segments_from_labels(&voice, 480, 16_000, &c).len(), 1);
}

#[test]
fn silence_has_no_segments() {
    let c = VadSegmentationConfig::default();
    let r = split_mono_by_vad(&vec![0i16; 16_000], 16_000, &c);
    assert!(r.unwrap().is_empty());
    let none = split_mono_by_vad(&[], 16_000, &c);
    assert!(none.unwrap().is_empty());
}

#[test]
fn samples_behind_the_last_whole_frame_do_not_matter() {
    let c = VadSegmentationConfig::default();
    let frame = 16_000 * c.frame_ms / 1000;
    // Bursts of a chirp, with an end that is shorter than a frame.
    let n = 100 * frame;
    let samples: Vec<i16> = (0..n + frame - 1)
        .map(|i| {
            let t = (i % 16_000) as f64 / 16_000.0;
            ((t * (900.0 + 3000.0 * t)).sin() * if (i / 8_000) % 2 == 0 { 20_000.0 } else { 50.0 }) as i16
        })
        .collect();
    let whole = split_mono_by_vad(&samples[..n], 16_000, &c).unwrap();
    let more = split_mono_by_vad(&samples, 16_000, &c).unwrap();
    assert_eq!(bounds(&whole), bounds(&more));
    assert!(more.iter().all(|s| s.end_sample <= n));
    assert!(split_mono_by_vad(&samples[..frame - 1], 16_000, &c).unwrap().is_empty());
}

#[test]
fn settings_that_cannot_be_used_are_reported() {
    let mut c = VadSegmentationConfig::default();
    c.frame_ms = 25;
    assert!(matches!(split_mono_by_vad(&[0], 16_000, &c), Err(VadError::UnsupportedFrameMs(25))));
    let c = VadSegmentationConfig::default();
    assert!(matches!(
        split_mono_by_vad(&[0], 44_100, &c),
        Err(VadError::UnsupportedSampleRate(44_100))
    ));
    let big = i32::MAX as usize + 1;
    assert!(matches!(split_mono_by_vad(&[0], big, &c), Err(VadError::SampleRateOutOfRange(_))));
    let mut c = VadSegmentationConfig::default();
    c.mode = 4;
    assert!(matches!(split_mono_by_vad(&[0], 16_000, &c), Err(VadError::UnsupportedMode(4))));
    assert!(matches!(sample_rate_to_webrtc(8_000), Ok(VadRate::Rate8kHz)));
    assert!(matches!(vad_mode_from_u8(3), Ok(VadMode::VeryAggressive)));
}

/// A harmonic sound with a changing pitch, followed by silence.
fn sound() -> Vec<i16> {
    let mut out = Vec::new();
    let mut phase = 0.0f32;
    for n in 0..16_000 {
        let f = 140.0 + 40.0 * ((n as f32) / 3000.0).sin();
        phase += f / 16_000.0;
        let mut v = 0.0f32;
        for h in 1..12 {
            v += (2.0 * std::f32::consts::PI * phase * h as f32).sin() / h as f32;
        }
        out.push((v * 9000.0).clamp(-32000.0, 32000.0) as i16);
    }
    out.resize(24_000, 0);
    out
}

#[test]
fn frames_are_labelled_by_the_detector() {
    let pcm = sound();
    let got = label_frames(&pcm, VadRate::Rate16kHz, VadMode::Aggressive, 480);
    let mut vad = webrtc_vad::Vad::new_with_rate_and_mode(
        webrtc_vad::SampleRate::Rate16kHz,
        webrtc_vad::VadMode::Aggressive,
    );
    let want: Vec<bool> = pcm
        .chunks_exact(480)
        .map(|f| vad.is_voice_segment(f).unwrap())
        .collect();
    assert_eq!(got, want);
    assert_eq!(got.len(), 50);
    assert!(got.iter().any(|&v| v));
    assert!(!got[49]);
}
