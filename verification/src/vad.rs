//! Voice-activity segmentation of a mono 16-bit signal.
//!
//! The signal is cut into frames of 10, 20 or 30 ms, every frame is labelled by the WebRTC
//! detector, runs of labels become speech spans by a two-sided hysteresis, the spans are widened,
//! merged where they touch, and cut where they are too long.
use vstd::prelude::*;
use vstd::slice::slice_subrange;

verus! {

/// Settings of the segmentation.
#[derive(Debug, Clone, Copy)]
pub struct VadSegmentationConfig {
    /// Aggressiveness of the detector (0..=3).
    pub mode: u8,
    /// Frame length in milliseconds (10, 20 or 30).
    pub frame_ms: usize,
    /// Least duration of speech that opens a segment.
    pub min_speech_ms: usize,
    /// Least duration of silence that closes a segment.
    pub min_silence_ms: usize,
    /// What is added before and after a segment.
    pub pad_ms: usize,
    /// Longest segment; longer ones are cut into pieces. Zero means no limit.
    pub max_segment_ms: usize,
}

impl Default for VadSegmentationConfig {
    fn default() -> (r: Self)
        ensures
            r == (VadSegmentationConfig {
                mode: 2,
                frame_ms: 30,
                min_speech_ms: 300,
                min_silence_ms: 200,
                pad_ms: 150,
                max_segment_ms: 30_000,
            }),
    {
        VadSegmentationConfig {
            mode: 2,
            frame_ms: 30,
            min_speech_ms: 300,
            min_silence_ms: 200,
            pad_ms: 150,
            max_segment_ms: 30_000,
        }
    }
}

/// A span of speech, in samples: `start_sample` is in it, `end_sample` is the first one after it.
#[derive(Debug, Clone, Copy, PartialEq, Eq, Structural)]
pub struct SpeechSegment {
    pub start_sample: usize,
    pub end_sample: usize,
}

/// Why a signal could not be segmented.
#[derive(Debug, Clone, Copy, PartialEq, Eq, Structural)]
pub enum VadError {
    /// The frame length is none of 10, 20 and 30 ms.
    UnsupportedFrameMs(usize),
    /// The sample rate does not fit in an `i32`.
    SampleRateOutOfRange(usize),
    /// The sample rate is none of 8000, 16000, 32000 and 48000 Hz.
    UnsupportedSampleRate(usize),
    /// The aggressiveness is above 3.
    UnsupportedMode(u8),
}

/// Aggressiveness of the detector.
#[derive(Debug, Clone, Copy, PartialEq, Eq, Structural)]
pub enum VadMode {
    Quality,
    LowBitrate,
    Aggressive,
    VeryAggressive,
}

/// A sample rate that the detector takes.
#[derive(Debug, Clone, Copy, PartialEq, Eq, Structural)]
pub enum VadRate {
    Rate8kHz,
    Rate16kHz,
    Rate32kHz,
    Rate48kHz,
}

impl VadMode {
    /// The number by which the detector knows the mode.
    pub open spec fn level(self) -> int {
        match self {
            VadMode::Quality => 0,
            VadMode::LowBitrate => 1,
            VadMode::Aggressive => 2,
            VadMode::VeryAggressive => 3,
        }
    }
}

impl VadRate {
    /// The rate in Hz.
    pub open spec fn hz(self) -> int {
        match self {
            VadRate::Rate8kHz => 8000,
            VadRate::Rate16kHz => 16000,
            VadRate::Rate32kHz => 32000,
            VadRate::Rate48kHz => 48000,
        }
    }
}

// ---------------------------------------------------------------------------
// The detector
// ---------------------------------------------------------------------------

/// `webrtc_vad::Vad`, the WebRTC voice activity detector.
#[verifier::external_type_specification]
#[verifier::external_body]
pub struct ExVad(webrtc_vad::Vad);

/// The frames that a detector has taken since it was made, in order.
pub uninterp spec fn detector_frames(v: webrtc_vad::Vad) -> Seq<Seq<i16>>;

/// The sample rate in Hz that a detector was made with.
pub uninterp spec fn detector_rate(v: webrtc_vad::Vad) -> int;

/// The aggressiveness that a detector was made with.
pub uninterp spec fn detector_level(v: webrtc_vad::Vad) -> int;

/// What a detector of the given rate and aggressiveness says of `frame` once it has taken the
/// frames `earlier`: its state is a fixed-point function of those.
pub uninterp spec fn voice_decision(
    rate: int,
    level: int,
    earlier: Seq<Seq<i16>>,
    frame: Seq<i16>,
) -> bool;

/// Whether the detector takes frames of this length: 10, 20 or 30 ms.
pub open spec fn valid_frame_len(rate: int, len: int) -> bool {
    len == 10 * (rate / 1000) || len == 20 * (rate / 1000) || len == 30 * (rate / 1000)
}

/// `webrtc_vad::Vad::new_with_rate_and_mode`: a detector of that rate and mode that has taken
/// no frame yet.
#[verifier::external_body]
fn new_detector(rate: VadRate, mode: VadMode) -> (v: webrtc_vad::Vad)
    ensures
        detector_frames(v) == Seq::<Seq<i16>>::empty(),
        detector_rate(v) == rate.hz(),
        detector_level(v) == mode.level(),
{
    let rate = match rate {
        VadRate::Rate8kHz => webrtc_vad::SampleRate::Rate8kHz,
        VadRate::Rate16kHz => webrtc_vad::SampleRate::Rate16kHz,
        VadRate::Rate32kHz => webrtc_vad::SampleRate::Rate32kHz,
        VadRate::Rate48kHz => webrtc_vad::SampleRate::Rate48kHz,
    };
    webrtc_vad::Vad::new_with_rate_and_mode(rate, match mode {
        VadMode::Quality => webrtc_vad::VadMode::Quality,
        VadMode::LowBitrate => webrtc_vad::VadMode::LowBitrate,
        VadMode::Aggressive => webrtc_vad::VadMode::Aggressive,
        VadMode::VeryAggressive => webrtc_vad::VadMode::VeryAggressive,
    })
}

/// `webrtc_vad::Vad::is_voice_segment`: the decision on one frame. A frame whose length is not
/// 10, 20 or 30 ms is refused and leaves the detector as it was; any other is taken, and the
/// answer is a function of the rate, the mode and all frames so far. An empty frame panics.
#[verifier::external_body]
fn detect(v: &mut webrtc_vad::Vad, frame: &[i16]) -> (r: Result<bool, ()>)
    requires
        frame@.len() > 0,
    ensures
        detector_rate(*final(v)) == detector_rate(*old(v)),
        detector_level(*final(v)) == detector_level(*old(v)),
        r is Ok <==> valid_frame_len(detector_rate(*old(v)), frame@.len() as int),
        r is Err ==> detector_frames(*final(v)) == detector_frames(*old(v)),
        r matches Ok(b) ==> detector_frames(*final(v)) == detector_frames(*old(v)).push(frame@)
            && b == voice_decision(
            detector_rate(*old(v)),
            detector_level(*old(v)),
            detector_frames(*old(v)),
            frame@,
        ),
{
    v.is_voice_segment(frame)
}

// ---------------------------------------------------------------------------
// What segmentation means
// ---------------------------------------------------------------------------

/// The frames of a signal: consecutive, of `len` samples each; what is left over is dropped.
pub open spec fn frame_of(pcm: Seq<i16>, len: int, i: int) -> Seq<i16> {
    pcm.subrange(i * len, i * len + len)
}

/// The first `n` frames of a signal.
pub open spec fn frames_of(pcm: Seq<i16>, len: int, n: nat) -> Seq<Seq<i16>> {
    Seq::new(n, |i: int| frame_of(pcm, len, i))
}

/// The label of every whole frame: what the detector says of it after all frames before it.
pub open spec fn frame_labels(pcm: Seq<i16>, rate: int, level: int, len: int) -> Seq<bool> {
    Seq::new(
        (pcm.len() as int / len) as nat,
        |i: int|
            voice_decision(rate, level, frames_of(pcm, len, i as nat), frame_of(pcm, len, i)),
    )
}

/// Samples behind the last whole frame do not matter: recordings that are alike up to there have the same
/// labels.
pub proof fn law_only_whole_frames_count(
    a: Seq<i16>,
    b: Seq<i16>,
    rate: int,
    level: int,
    len: int,
)
    requires
        len >= 1,
        a.len() as int / len == b.len() as int / len,
        a.take((a.len() as int / len) * len) == b.take((a.len() as int / len) * len),
    ensures
        frame_labels(a, rate, level, len) == frame_labels(b, rate, level, len),
        frame_labels(a, rate, level, len).len() * len <= a.len(),
{
    let n = a.len() as int / len;
    vstd::arithmetic::div_mod::lemma_fundamental_div_mod(a.len() as int, len);
    vstd::arithmetic::div_mod::lemma_fundamental_div_mod(b.len() as int, len);
    assert(n * len <= a.len() && n * len <= b.len()) by (nonlinear_arith)
        requires
            a.len() == len * n + a.len() as int % len,
            b.len() == len * n + b.len() as int % len,
            a.len() as int % len >= 0,
            b.len() as int % len >= 0,
    ;
    assert forall|i: int| 0 <= i < n implies #[trigger] frame_of(a, len, i) == frame_of(
        b,
        len,
        i,
    ) by {
        assert(0 <= i * len && i * len + len <= n * len) by (nonlinear_arith)
            requires
                0 <= i < n,
                len >= 1,
        ;
        let whole = a.take(n * len);
        assert(frame_of(a, len, i) =~= frame_of(whole, len, i));
        assert(frame_of(b, len, i) =~= frame_of(whole, len, i));
    }
    assert forall|i: int| 0 <= i < n implies #[trigger] frames_of(a, len, i as nat) == frames_of(
        b,
        len,
        i as nat,
    ) by {
        assert(frames_of(a, len, i as nat) =~= frames_of(b, len, i as nat));
    }
    assert(frame_labels(a, rate, level, len) =~= frame_labels(b, rate, level, len));
}

/// `n` labels from `at` on all say `flag`.
pub open spec fn is_run(v: Seq<bool>, at: int, n: nat, flag: bool) -> bool {
    &&& 0 <= at
    &&& at + n <= v.len()
    &&& forall|k: int| at <= k < at + n ==> v[k] == flag
}

/// Where the first run of `n` labels `flag` at or after `from` begins.
pub open spec fn first_run(v: Seq<bool>, from: int, n: nat, flag: bool) -> Option<int>
    decreases v.len() - from,
{
    if from < 0 || from + n > v.len() {
        None
    } else if is_run(v, from, n, flag) {
        Some(from)
    } else {
        first_run(v, from + 1, n, flag)
    }
}

/// The speech spans at or after frame `from`: one opens where `open` voiced frames in a row
/// begin, and closes where, after those, `close` unvoiced frames in a row begin, or at the end.
pub open spec fn speech_spans(v: Seq<bool>, from: int, open: nat, close: nat) -> Seq<(int, int)>
    decreases v.len() - from,
{
    if open == 0 || close == 0 {
        Seq::empty()
    } else {
        match first_run(v, from, open, true) {
            None => Seq::empty(),
            Some(s) => match first_run(v, s + open, close, false) {
                None => seq![(s, v.len() as int)],
                Some(e) => {
                    proof {
                        law_first_run_is_least(v, from, open, true);
                        law_first_run_is_least(v, s + open, close, false);
                    }
                    seq![(s, e)] + speech_spans(v, e + close, open, close)
                },
            },
        }
    }
}

/// A span of frames widened by `pad` frames on either side within the signal, in samples.
pub open spec fn widened(span: (int, int), pad: int, frames: int, len: int) -> (int, int) {
    let first = if span.0 >= pad { span.0 - pad } else { 0 };
    let last = if span.1 + pad <= frames { span.1 + pad } else { frames };
    (first * len, last * len)
}

/// Spans in order of their starts, joined where one starts no later than the last one ends.
pub open spec fn merged(spans: Seq<(int, int)>) -> Seq<(int, int)>
    decreases spans.len(),
{
    if spans.len() == 0 {
        Seq::empty()
    } else {
        let before = merged(spans.drop_last());
        let x = spans.last();
        if before.len() > 0 && x.0 <= before.last().1 {
            before.drop_last().push(
                (before.last().0, if x.1 > before.last().1 { x.1 } else { before.last().1 }),
            )
        } else {
            before.push(x)
        }
    }
}

/// A span cut into pieces of `most` samples, the last one possibly shorter; whole for a zero
/// `most`.
pub open spec fn pieces(s: int, e: int, most: int) -> Seq<(int, int)>
    decreases e - s,
{
    if most <= 0 || e - s <= most {
        seq![(s, e)]
    } else {
        seq![(s, s + most)] + pieces(s + most, e, most)
    }
}

/// Every span cut into pieces, in order.
pub open spec fn all_pieces(spans: Seq<(int, int)>, most: int) -> Seq<(int, int)>
    decreases spans.len(),
{
    if spans.len() == 0 {
        Seq::empty()
    } else {
        all_pieces(spans.drop_last(), most) + pieces(spans.last().0, spans.last().1, most)
    }
}

/// `a / b` rounded up, and zero for a zero `b`.
pub open spec fn ceil_div(a: int, b: int) -> int {
    if b == 0 {
        0
    } else {
        (a + b - 1) / b
    }
}

/// A duration in frames, at least one.
pub open spec fn at_least_one_frame(ms: int, frame_ms: int) -> nat {
    if ceil_div(ms, frame_ms) >= 1 {
        ceil_div(ms, frame_ms) as nat
    } else {
        1
    }
}

/// The widened spans of speech of a labelled signal, in samples.
pub open spec fn padded_spans(
    labels: Seq<bool>,
    cfg: VadSegmentationConfig,
    len: int,
) -> Seq<(int, int)> {
    let open = at_least_one_frame(cfg.min_speech_ms as int, cfg.frame_ms as int);
    let close = at_least_one_frame(cfg.min_silence_ms as int, cfg.frame_ms as int);
    let pad = ceil_div(cfg.pad_ms as int, cfg.frame_ms as int);
    speech_spans(labels, 0, open, close).map_values(
        |s: (int, int)| widened(s, pad, labels.len() as int, len),
    )
}

/// The segments of a labelled signal.
pub open spec fn segments_of(
    labels: Seq<bool>,
    cfg: VadSegmentationConfig,
    rate: int,
    len: int,
) -> Seq<(int, int)> {
    all_pieces(merged(padded_spans(labels, cfg, len)), cfg.max_segment_ms * rate / 1000)
}

/// Spans as pairs of integers.
pub open spec fn int_spans(v: Seq<(usize, usize)>) -> Seq<(int, int)> {
    v.map_values(|p: (usize, usize)| (p.0 as int, p.1 as int))
}

/// Segments as pairs of integers.
pub open spec fn segment_spans(v: Seq<SpeechSegment>) -> Seq<(int, int)> {
    v.map_values(|p: SpeechSegment| (p.start_sample as int, p.end_sample as int))
}

/// A supported sample rate.
pub open spec fn supported_rate(sample_rate: usize) -> Option<VadRate> {
    if sample_rate == 8000 {
        Some(VadRate::Rate8kHz)
    } else if sample_rate == 16000 {
        Some(VadRate::Rate16kHz)
    } else if sample_rate == 32000 {
        Some(VadRate::Rate32kHz)
    } else if sample_rate == 48000 {
        Some(VadRate::Rate48kHz)
    } else {
        None
    }
}

/// `first_run` is the least place where such a run begins, and `None` means that there is none.
pub proof fn law_first_run_is_least(v: Seq<bool>, from: int, n: nat, flag: bool)
    ensures
        first_run(v, from, n, flag) matches Some(s) ==> from <= s && is_run(v, s, n, flag)
            && forall|t: int| from <= t < s ==> !#[trigger] is_run(v, t, n, flag),
        first_run(v, from, n, flag) is None && from >= 0 ==> forall|t: int|
            from <= t ==> !#[trigger] is_run(v, t, n, flag),
    decreases v.len() - from,
{
    if from < 0 || from + n > v.len() {
    } else if is_run(v, from, n, flag) {
    } else {
        law_first_run_is_least(v, from + 1, n, flag);
    }
}

// ---------------------------------------------------------------------------
// The segmentation
// ---------------------------------------------------------------------------

proof fn lemma_skip(v: Seq<bool>, a: int, b: int, n: nat, flag: bool)
    requires
        0 <= a <= b,
        forall|t: int| a <= t < b ==> !#[trigger] is_run(v, t, n, flag),
    ensures
        first_run(v, a, n, flag) == first_run(v, b, n, flag),
    decreases b - a,
{
    if a < b {
        lemma_skip(v, a + 1, b, n, flag);
        if a + n > v.len() {
            assert(first_run(v, a, n, flag) is None);
            assert(first_run(v, b, n, flag) is None);
        } else {
            assert(!is_run(v, a, n, flag));
        }
    }
}

/// `a / b` rounded up, and zero for a zero divisor.
pub fn round_up_div(a: usize, b: usize) -> (r: usize)
    ensures
        r == ceil_div(a as int, b as int),
{
    if b == 0 {
        return 0;
    }
    let q: usize = a / b;
    let rem: usize = a % b;
    proof {
        vstd::arithmetic::div_mod::lemma_fundamental_div_mod(a as int, b as int);
        assert(b * q == q * b && (q + 1) * b == b * q + b) by (nonlinear_arith);
        if rem == 0 {
            assert((a + b - 1) / b as int == q) by {
                vstd::arithmetic::div_mod::lemma_fundamental_div_mod_converse(
                    a + b - 1,
                    b as int,
                    q as int,
                    b - 1,
                );
            }
        } else {
            assert((a + b - 1) / b as int == q + 1) by {
                vstd::arithmetic::div_mod::lemma_fundamental_div_mod_converse(
                    a + b - 1,
                    b as int,
                    q + 1,
                    rem - 1,
                );
            }
            assert(q < a) by (nonlinear_arith)
                requires
                    a == b * q + rem,
                    b >= 1,
                    rem >= 1,
                    q >= 0,
            ;
        }
    }
    if rem == 0 {
        q
    } else {
        q + 1
    }
}

/// The detector's rate for a number of samples per second.
pub fn sample_rate_to_webrtc(sample_rate: usize) -> (r: Result<VadRate, VadError>)
    ensures
        r == (match supported_rate(sample_rate) {
            Some(rate) => Ok::<VadRate, VadError>(rate),
            None => if sample_rate > i32::MAX {
                Err(VadError::SampleRateOutOfRange(sample_rate))
            } else {
                Err(VadError::UnsupportedSampleRate(sample_rate))
            },
        }),
        r matches Ok(rate) ==> rate.hz() == sample_rate,
{
    if sample_rate > i32::MAX as usize {
        return Err(VadError::SampleRateOutOfRange(sample_rate));
    }
    match sample_rate {
        8000 => Ok(VadRate::Rate8kHz),
        16000 => Ok(VadRate::Rate16kHz),
        32000 => Ok(VadRate::Rate32kHz),
        48000 => Ok(VadRate::Rate48kHz),
        _ => Err(VadError::UnsupportedSampleRate(sample_rate)),
    }
}

/// The detector's mode for an aggressiveness 0..=3.
pub fn vad_mode_from_u8(v: u8) -> (r: Result<VadMode, VadError>)
    ensures
        v <= 3 ==> r is Ok && r->Ok_0.level() == v,
        v > 3 ==> r == Err::<VadMode, VadError>(VadError::UnsupportedMode(v)),
{
    match v {
        0 => Ok(VadMode::Quality),
        1 => Ok(VadMode::LowBitrate),
        2 => Ok(VadMode::Aggressive),
        3 => Ok(VadMode::VeryAggressive),
        _ => Err(VadError::UnsupportedMode(v)),
    }
}

/// Labels every whole frame of the signal.
pub fn label_frames(pcm: &[i16], rate: VadRate, mode: VadMode, frame_len: usize) -> (r: Vec<bool>)
    requires
        valid_frame_len(rate.hz(), frame_len as int),
    ensures
        r@ == frame_labels(pcm@, rate.hz(), mode.level(), frame_len as int),
{
    let mut vad = new_detector(rate, mode);
    let total: usize = pcm.len();
    let n_frames: usize = total / frame_len;
    let mut voice: Vec<bool> = Vec::new();
    let mut i: usize = 0;
    while i < n_frames
        invariant
            valid_frame_len(rate.hz(), frame_len as int),
            total == pcm@.len(),
            n_frames == total as int / frame_len as int,
            i <= n_frames,
            voice@ == frame_labels(pcm@, rate.hz(), mode.level(), frame_len as int).take(i as int),
            detector_frames(vad) == frames_of(pcm@, frame_len as int, i as nat),
            detector_rate(vad) == rate.hz(),
            detector_level(vad) == mode.level(),
        decreases n_frames - i,
    {
        proof {
            vstd::arithmetic::div_mod::lemma_fundamental_div_mod(pcm@.len() as int, frame_len as int);
            assert(i * frame_len + frame_len <= n_frames * frame_len) by (nonlinear_arith)
                requires
                    i + 1 <= n_frames,
                    frame_len >= 0,
            ;
            assert(n_frames * frame_len == frame_len * n_frames) by (nonlinear_arith);
        }
        let start: usize = i * frame_len;
        let frame = slice_subrange(pcm, start, start + frame_len);
        assert(frame@ == frame_of(pcm@, frame_len as int, i as int));
        let is_voice = match detect(&mut vad, frame) {
            Ok(b) => b,
            Err(_) => false,
        };
        voice.push(is_voice);
        i += 1;
        assert(detector_frames(vad) =~= frames_of(pcm@, frame_len as int, i as nat));
        assert(voice@ =~= frame_labels(pcm@, rate.hz(), mode.level(), frame_len as int).take(
            i as int,
        ));
    }
    assert(voice@ =~= frame_labels(pcm@, rate.hz(), mode.level(), frame_len as int));
    voice
}

/// Turns labels into spans of frames: a span opens after `open` voiced frames in a row and
/// closes after `close` unvoiced ones.
pub fn find_speech(voice: &[bool], open: usize, close: usize) -> (r: Vec<(usize, usize)>)
    requires
        open >= 1,
        close >= 1,
    ensures
        int_spans(r@) == speech_spans(voice@, 0, open as nat, close as nat),
{
    let n: usize = voice.len();
    let mut raw: Vec<(usize, usize)> = Vec::new();
    let mut in_speech = false;
    let mut speech_start: usize = 0;
    let mut speech_streak: usize = 0;
    let mut silence_streak: usize = 0;
    let ghost v = voice@;
    let ghost mut from: int = 0;
    let ghost all = speech_spans(v, 0, open as nat, close as nat);
    let mut i: usize = 0;
    assert(int_spans(raw@) + speech_spans(v, 0, open as nat, close as nat) =~= all);
    while i < n
        invariant
            v == voice@,
            n == v.len(),
            open >= 1,
            close >= 1,
            i <= n,
            0 <= from <= i,
            all == int_spans(raw@) + speech_spans(v, from, open as nat, close as nat),
            !in_speech ==> {
                &&& speech_streak < open
                &&& from <= i - speech_streak
                &&& forall|k: int| i - speech_streak <= k < i ==> v[k]
                &&& first_run(v, from, open as nat, true) == first_run(
                    v,
                    i - speech_streak,
                    open as nat,
                    true,
                )
            },
            in_speech ==> {
                &&& silence_streak < close
                &&& first_run(v, from, open as nat, true) == Some(speech_start as int)
                &&& speech_start + open <= i - silence_streak
                &&& forall|k: int| i - silence_streak <= k < i ==> !v[k]
                &&& first_run(v, speech_start + open, close as nat, false) == first_run(
                    v,
                    i - silence_streak,
                    close as nat,
                    false,
                )
            },
        decreases n - i,
    {
        if voice[i] {
            proof {
                if in_speech {
                    let a = i - silence_streak;
                    assert forall|t: int| a <= t < i + 1 implies !#[trigger] is_run(
                        v,
                        t,
                        close as nat,
                        false,
                    ) by {
                        assert(t + close > i);
                        assert(v[i as int]);
                    }
                    lemma_skip(v, a, i + 1, close as nat, false);
                }
            }
            silence_streak = 0;
            if !in_speech {
                speech_streak += 1;
                if speech_streak >= open {
                    in_speech = true;
                    speech_start = i + 1 - speech_streak;
                    assert(is_run(v, speech_start as int, open as nat, true));
                }
            }
        } else {
            proof {
                if !in_speech {
                    let a = i - speech_streak;
                    assert forall|t: int| a <= t < i + 1 implies !#[trigger] is_run(
                        v,
                        t,
                        open as nat,
                        true,
                    ) by {
                        assert(t + open > i);
                        assert(!v[i as int]);
                    }
                    lemma_skip(v, a, i + 1, open as nat, true);
                }
            }
            speech_streak = 0;
            if in_speech {
                silence_streak += 1;
                if silence_streak >= close {
                    let end: usize = i + 1 - silence_streak;
                    let ghost before = raw@;
                    raw.push((speech_start, end));
                    proof {
                        assert(is_run(v, end as int, close as nat, false));
                        assert(int_spans(raw@) =~= int_spans(before).push(
                            (speech_start as int, end as int),
                        ));
                        from = i + 1;
                        assert(all =~= int_spans(raw@) + speech_spans(
                            v,
                            from,
                            open as nat,
                            close as nat,
                        ));
                    }
                    in_speech = false;
                    silence_streak = 0;
                }
            }
        }
        i += 1;
    }
    if in_speech {
        let ghost before = raw@;
        raw.push((speech_start, n));
        assert(int_spans(raw@) =~= int_spans(before).push((speech_start as int, n as int)));
    }
    assert(int_spans(raw@) =~= all);
    raw
}

/// Spans that are in order of their starts, each with a start before its end.
pub open spec fn ordered(spans: Seq<(int, int)>) -> bool {
    &&& forall|i: int| 0 <= i < spans.len() ==> (#[trigger] spans[i]).0 < spans[i].1
    &&& forall|i: int, j: int| 0 <= i < j < spans.len() ==> (#[trigger] spans[i]).0 <= (
    #[trigger] spans[j]).0
}

/// Spans that are apart: each is non-empty, and a sample lies between any two.
pub open spec fn apart(spans: Seq<(int, int)>) -> bool {
    &&& forall|i: int| 0 <= i < spans.len() ==> (#[trigger] spans[i]).0 < spans[i].1
    &&& forall|i: int, j: int| 0 <= i < j < spans.len() ==> (#[trigger] spans[i]).1 < (
    #[trigger] spans[j]).0
}

/// Spans that do not overlap, in order.
pub open spec fn disjoint_in_order(spans: Seq<(int, int)>) -> bool {
    &&& forall|i: int| 0 <= i < spans.len() ==> (#[trigger] spans[i]).0 < spans[i].1
    &&& forall|i: int, j: int| 0 <= i < j < spans.len() ==> (#[trigger] spans[i]).1 <= (
    #[trigger] spans[j]).0
}

/// All spans lie in `lo..hi`.
pub open spec fn within(spans: Seq<(int, int)>, lo: int, hi: int) -> bool {
    forall|i: int| 0 <= i < spans.len() ==> lo <= (#[trigger] spans[i]).0 && spans[i].1 <= hi
}

/// Sample `x` lies in one of the spans.
pub open spec fn covered(spans: Seq<(int, int)>, x: int) -> bool {
    exists|i: int| 0 <= i < spans.len() && (#[trigger] spans[i]).0 <= x < spans[i].1
}

/// Speech spans are non-empty, lie in the signal, and leave at least `close` frames between them;
/// each begins with `open` voiced frames.
pub proof fn law_speech_spans_keep_their_distance(v: Seq<bool>, from: int, open: nat, close: nat)
    requires
        0 <= from,
        open >= 1,
        close >= 1,
    ensures
        within(speech_spans(v, from, open, close), from, v.len() as int),
        forall|i: int|
            0 <= i < speech_spans(v, from, open, close).len() ==> is_run(
                v,
                (#[trigger] speech_spans(v, from, open, close)[i]).0,
                open,
                true,
            ) && speech_spans(v, from, open, close)[i].0 + open <= speech_spans(
                v,
                from,
                open,
                close,
            )[i].1,
        forall|i: int, j: int|
            0 <= i < j < speech_spans(v, from, open, close).len() ==> (#[trigger] speech_spans(
                v,
                from,
                open,
                close,
            )[i]).1 + close <= (#[trigger] speech_spans(v, from, open, close)[j]).0,
    decreases v.len() - from,
{
    law_first_run_is_least(v, from, open, true);
    if let Some(s) = first_run(v, from, open, true) {
        law_first_run_is_least(v, s + open, close, false);
        if let Some(e) = first_run(v, s + open, close, false) {
            law_speech_spans_keep_their_distance(v, e + close, open, close);
            let rest = speech_spans(v, e + close, open, close);
            let all = speech_spans(v, from, open, close);
            assert(all =~= seq![(s, e)] + rest);
            assert(forall|i: int| 1 <= i < all.len() ==> #[trigger] all[i] == rest[i - 1]);
        }
    }
}

/// Merging keeps spans in order apart and covers exactly the same samples.
pub proof fn law_merged_covers_the_same(spans: Seq<(int, int)>)
    requires
        ordered(spans),
    ensures
        apart(merged(spans)),
        forall|x: int| #[trigger] covered(merged(spans), x) <==> covered(spans, x),
        spans.len() > 0 ==> merged(spans).len() > 0 && merged(spans).last().0
            <= spans.last().0 < merged(spans).last().1,
        forall|lo: int, hi: int| #[trigger] within(spans, lo, hi) ==> within(merged(spans), lo, hi),
    decreases spans.len(),
{
    if spans.len() > 0 {
        let before = merged(spans.drop_last());
        let x = spans.last();
        let m = merged(spans);
        let rest = spans.drop_last();
        assert(forall|i: int| 0 <= i < rest.len() ==> rest[i] == spans[i]);
        law_merged_covers_the_same(rest);
        assert(spans[spans.len() - 1] == x);
        assert forall|p: int| #[trigger] covered(spans, p) implies covered(rest, p) || (x.0 <= p
            < x.1) by {
            let i = choose|i: int| 0 <= i < spans.len() && (#[trigger] spans[i]).0 <= p < spans[i].1;
            if i < rest.len() {
                assert(rest[i].0 <= p < rest[i].1);
            }
        }
        assert forall|p: int| covered(rest, p) || (x.0 <= p < x.1) implies #[trigger] covered(
            spans,
            p,
        ) by {
            if covered(rest, p) {
                let i = choose|i: int| 0 <= i < rest.len() && (#[trigger] rest[i]).0 <= p
                    < rest[i].1;
                assert(spans[i].0 <= p < spans[i].1);
            } else {
                assert(spans[spans.len() - 1].0 <= p < spans[spans.len() - 1].1);
            }
        }
        let k = before.len() - 1;
        if before.len() > 0 {
            assert(rest.len() > 0) by {
                if rest.len() == 0 {
                    assert(before.len() == 0);
                }
            }
            assert(spans[rest.len() - 1] == rest.last());
        }
        if before.len() > 0 && x.0 <= before.last().1 {
            assert(forall|i: int| 0 <= i < k ==> m[i] == before[i]);
            assert(m[k].0 == before[k].0);
            assert forall|p: int| #[trigger] covered(m, p) implies covered(spans, p) by {
                let i = choose|i: int| 0 <= i < m.len() && (#[trigger] m[i]).0 <= p < m[i].1;
                if i < k {
                    assert(before[i].0 <= p < before[i].1);
                    assert(covered(before, p));
                } else if p < before[k].1 {
                    assert(before[k].0 <= p < before[k].1);
                    assert(covered(before, p));
                }
            }
            assert forall|p: int| covered(spans, p) implies #[trigger] covered(m, p) by {
                if covered(rest, p) {
                    assert(covered(before, p));
                    let i = choose|i: int| 0 <= i < before.len() && (#[trigger] before[i]).0 <= p
                        < before[i].1;
                    assert(m[i].0 <= p < m[i].1);
                } else {
                    assert(m[k].0 <= p < m[k].1);
                }
            }
        } else {
            assert(forall|i: int| 0 <= i < before.len() ==> m[i] == before[i]);
            assert(m[before.len() as int] == x);
            assert forall|p: int| #[trigger] covered(m, p) implies covered(spans, p) by {
                let i = choose|i: int| 0 <= i < m.len() && (#[trigger] m[i]).0 <= p < m[i].1;
                if i < before.len() {
                    assert(before[i].0 <= p < before[i].1);
                    assert(covered(before, p));
                }
            }
            assert forall|p: int| covered(spans, p) implies #[trigger] covered(m, p) by {
                if covered(rest, p) {
                    assert(covered(before, p));
                    let i = choose|i: int| 0 <= i < before.len() && (#[trigger] before[i]).0 <= p
                        < before[i].1;
                    assert(m[i].0 <= p < m[i].1);
                } else {
                    assert(m[before.len() as int].0 <= p < m[before.len() as int].1);
                }
            }
        }
        assert forall|lo: int, hi: int| #[trigger] within(spans, lo, hi) implies within(m, lo, hi) by {
            assert(within(rest, lo, hi));
            assert(within(before, lo, hi));
            assert(lo <= spans[spans.len() - 1].0);
            if before.len() > 0 {
                assert(lo <= before[k].0);
            }
        }
    }
}

/// The pieces of a span tile it: they follow on one another from its start to its end, and none
/// is longer than the limit.
pub proof fn law_pieces_tile(s: int, e: int, most: int)
    requires
        s < e,
    ensures
        pieces(s, e, most).len() >= 1,
        pieces(s, e, most)[0].0 == s,
        pieces(s, e, most).last().1 == e,
        forall|i: int|
            0 <= i < pieces(s, e, most).len() ==> s <= (#[trigger] pieces(s, e, most)[i]).0
                < pieces(s, e, most)[i].1 <= e,
        forall|i: int, j: int|
            0 <= i && j == i + 1 && j < pieces(s, e, most).len() ==> (#[trigger] pieces(
                s,
                e,
                most,
            )[i]).1 == (#[trigger] pieces(s, e, most)[j]).0,
        disjoint_in_order(pieces(s, e, most)),
        most > 0 ==> forall|i: int|
            0 <= i < pieces(s, e, most).len() ==> (#[trigger] pieces(s, e, most)[i]).1 - pieces(
                s,
                e,
                most,
            )[i].0 <= most,
        forall|x: int| #[trigger] covered(pieces(s, e, most), x) <==> s <= x < e,
    decreases e - s,
{
    let p = pieces(s, e, most);
    if most <= 0 || e - s <= most {
        assert(p =~= seq![(s, e)]);
        assert forall|x: int| s <= x < e implies #[trigger] covered(p, x) by {
            assert(p[0].0 <= x < p[0].1);
        }
    } else {
        law_pieces_tile(s + most, e, most);
        let rest = pieces(s + most, e, most);
        assert(p =~= seq![(s, s + most)] + rest);
        assert(forall|i: int| 1 <= i < p.len() ==> #[trigger] p[i] == rest[i - 1]);
        assert(p.last() == rest.last());
        assert forall|x: int| s <= x < e implies #[trigger] covered(p, x) by {
            if x < s + most {
                assert(p[0].0 <= x < p[0].1);
            } else {
                assert(covered(rest, x));
                let i = choose|i: int| 0 <= i < rest.len() && (#[trigger] rest[i]).0 <= x
                    < rest[i].1;
                assert(p[i + 1].0 <= x < p[i + 1].1);
            }
        }
    }
}

/// A span is cut into as few pieces as the limit allows: all but the last one have just the length of the
/// limit, and the last one has what is left.
pub proof fn law_pieces_are_even(s: int, e: int, most: int)
    requires
        s < e,
        most > 0,
    ensures
        pieces(s, e, most).len() == ceil_div(e - s, most),
        forall|i: int|
            0 <= i < pieces(s, e, most).len() - 1 ==> #[trigger] pieces(s, e, most)[i] == (
                s + i * most,
                s + (i + 1) * most,
            ),
        pieces(s, e, most).last() == (s + (ceil_div(e - s, most) - 1) * most, e),
    decreases e - s,
{
    let p = pieces(s, e, most);
    let n = e - s;
    if n <= most {
        assert(p =~= seq![(s, e)]);
        vstd::arithmetic::div_mod::lemma_fundamental_div_mod_converse(n + most - 1, most, 1, n - 1);
    } else {
        law_pieces_are_even(s + most, e, most);
        let rest = pieces(s + most, e, most);
        assert(p =~= seq![(s, s + most)] + rest);
        vstd::arithmetic::div_mod::lemma_div_plus_one(n - 1, most);
        assert(ceil_div(n, most) == ceil_div(n - most, most) + 1);
        assert forall|i: int| 0 <= i < p.len() - 1 implies #[trigger] p[i] == (
            s + i * most,
            s + (i + 1) * most,
        ) by {
            if i > 0 {
                assert(p[i] == rest[i - 1]);
                assert(most + (i - 1) * most == i * most) by (nonlinear_arith);
                assert(most + i * most == (i + 1) * most) by (nonlinear_arith);
            } else {
                assert(0 * most == 0 && 1 * most == most) by (nonlinear_arith);
            }
        }
        assert(p.last() == rest.last());
        let k = ceil_div(n - most, most);
        assert(most + (k - 1) * most == k * most) by (nonlinear_arith);
    }
}

/// Cutting spans that are apart leaves spans in order that do not overlap, cover the same
/// samples, lie where the spans lay and respect the limit.
pub proof fn law_all_pieces_tile(spans: Seq<(int, int)>, most: int)
    requires
        apart(spans),
    ensures
        disjoint_in_order(all_pieces(spans, most)),
        forall|x: int| #[trigger] covered(all_pieces(spans, most), x) <==> covered(spans, x),
        forall|lo: int, hi: int| #[trigger] within(spans, lo, hi) ==> within(all_pieces(spans, most), lo, hi),
        most > 0 ==> forall|i: int|
            0 <= i < all_pieces(spans, most).len() ==> (#[trigger] all_pieces(spans, most)[i]).1
                - all_pieces(spans, most)[i].0 <= most,
    decreases spans.len(),
{
    if spans.len() > 0 {
        let rest = spans.drop_last();
        let x = spans.last();
        let a = all_pieces(rest, most);
        let b = pieces(x.0, x.1, most);
        let c = all_pieces(spans, most);
        assert(spans[spans.len() - 1] == x);
        assert(forall|i: int| 0 <= i < rest.len() ==> rest[i] == spans[i]);
        law_all_pieces_tile(rest, most);
        law_pieces_tile(x.0, x.1, most);
        assert(c =~= a + b);
        assert(forall|i: int| 0 <= i < a.len() ==> c[i] == a[i]);
        assert(forall|i: int| a.len() <= i < c.len() ==> c[i] == b[i - a.len()]);
        assert(within(rest, spans[0].0, x.0)) by {
            assert forall|i: int| 0 <= i < rest.len() implies spans[0].0 <= (#[trigger] rest[i]).0
                && rest[i].1 <= x.0 by {
                assert(rest[i] == spans[i]);
                if i > 0 {
                    assert(spans[0].1 < spans[i].0);
                }
                assert(spans[i].1 < spans[spans.len() - 1].0);
            }
        }
        assert(within(a, spans[0].0, x.0));
        assert forall|p: int| #[trigger] covered(c, p) <==> covered(spans, p) by {
            if covered(c, p) {
                let i = choose|i: int| 0 <= i < c.len() && (#[trigger] c[i]).0 <= p < c[i].1;
                if i < a.len() {
                    assert(a[i].0 <= p < a[i].1);
                    assert(covered(a, p));
                    let j = choose|j: int| 0 <= j < rest.len() && (#[trigger] rest[j]).0 <= p
                        < rest[j].1;
                    assert(spans[j].0 <= p < spans[j].1);
                } else {
                    assert(b[i - a.len()].0 <= p < b[i - a.len()].1);
                    assert(covered(b, p));
                    assert(spans[spans.len() - 1].0 <= p < spans[spans.len() - 1].1);
                }
            }
            if covered(spans, p) {
                let i = choose|i: int| 0 <= i < spans.len() && (#[trigger] spans[i]).0 <= p
                    < spans[i].1;
                if i < rest.len() {
                    assert(rest[i].0 <= p < rest[i].1);
                    assert(covered(rest, p));
                    assert(covered(a, p));
                    let j = choose|j: int| 0 <= j < a.len() && (#[trigger] a[j]).0 <= p < a[j].1;
                    assert(c[j].0 <= p < c[j].1);
                } else {
                    assert(covered(b, p));
                    let j = choose|j: int| 0 <= j < b.len() && (#[trigger] b[j]).0 <= p < b[j].1;
                    assert(c[a.len() + j].0 <= p < c[a.len() + j].1);
                }
            }
        }
        assert forall|lo: int, hi: int| #[trigger] within(spans, lo, hi) implies within(c, lo, hi) by {
            assert(within(rest, lo, hi));
            assert(within(a, lo, hi));
            assert(lo <= spans[spans.len() - 1].0 && spans[spans.len() - 1].1 <= hi);
        }
    }
}

proof fn lemma_padded_ordered(labels: Seq<bool>, cfg: VadSegmentationConfig, len: int)
    requires
        len >= 1,
        cfg.frame_ms >= 1,
    ensures
        ordered(padded_spans(labels, cfg, len)),
        within(padded_spans(labels, cfg, len), 0, labels.len() * len),
{
    let open = at_least_one_frame(cfg.min_speech_ms as int, cfg.frame_ms as int);
    let close = at_least_one_frame(cfg.min_silence_ms as int, cfg.frame_ms as int);
    let pad = ceil_div(cfg.pad_ms as int, cfg.frame_ms as int);
    vstd::arithmetic::div_mod::lemma_div_pos_is_pos(
        cfg.pad_ms + cfg.frame_ms - 1,
        cfg.frame_ms as int,
    );
    law_speech_spans_keep_their_distance(labels, 0, open, close);
    let runs = speech_spans(labels, 0, open, close);
    let spans = padded_spans(labels, cfg, len);
    let n = labels.len() as int;
    assert forall|i: int| 0 <= i < spans.len() implies (#[trigger] spans[i]).0 < spans[i].1 && 0
        <= spans[i].0 && spans[i].1 <= n * len by {
        let r = runs[i];
        assert(spans[i] == widened(r, pad, n, len));
        assert(r.0 + open <= r.1);
        let first = if r.0 >= pad { r.0 - pad } else { 0 };
        let last = if r.1 + pad <= n { r.1 + pad } else { n };
        assert(0 <= first < last <= n);
        assert(0 <= first * len && first * len < last * len && last * len <= n * len) by (nonlinear_arith)
            requires
                0 <= first < last <= n,
                len >= 1,
        ;
    }
    assert forall|i: int, j: int| 0 <= i < j < spans.len() implies (#[trigger] spans[i]).0 <= (
    #[trigger] spans[j]).0 by {
        let a = runs[i];
        let b = runs[j];
        assert(spans[i] == widened(a, pad, n, len));
        assert(spans[j] == widened(b, pad, n, len));
        assert(a.1 + close <= b.0);
        assert(a.0 + open <= a.1);
        let fa = if a.0 >= pad { a.0 - pad } else { 0 };
        let fb = if b.0 >= pad { b.0 - pad } else { 0 };
        assert(fa * len <= fb * len) by (nonlinear_arith)
            requires
                fa <= fb,
                len >= 1,
        ;
    }
}

/// Whatever the labels, the segments are non-empty, in order, do not overlap, lie in the signal,
/// are no longer than the limit (if there is one), and cover exactly the widened spans of speech.
pub proof fn law_segments(labels: Seq<bool>, cfg: VadSegmentationConfig, rate: int, len: int)
    requires
        len >= 1,
        cfg.frame_ms >= 1,
    ensures
        disjoint_in_order(segments_of(labels, cfg, rate, len)),
        within(segments_of(labels, cfg, rate, len), 0, labels.len() * len),
        cfg.max_segment_ms * rate / 1000 > 0 ==> forall|i: int|
            0 <= i < segments_of(labels, cfg, rate, len).len() ==> (#[trigger] segments_of(
                labels,
                cfg,
                rate,
                len,
            )[i]).1 - segments_of(labels, cfg, rate, len)[i].0 <= cfg.max_segment_ms * rate / 1000,
        forall|x: int|
            #[trigger] covered(segments_of(labels, cfg, rate, len), x) <==> covered(
                padded_spans(labels, cfg, len),
                x,
            ),
{
    lemma_padded_ordered(labels, cfg, len);
    let spans = padded_spans(labels, cfg, len);
    law_merged_covers_the_same(spans);
    assert(within(merged(spans), 0, labels.len() * len));
    law_all_pieces_tile(merged(spans), cfg.max_segment_ms * rate / 1000);
    assert forall|x: int|
        #[trigger] covered(segments_of(labels, cfg, rate, len), x) <==> covered(spans, x) by {
        assert(covered(merged(spans), x) <==> covered(spans, x));
    }
}

/// The `n` frames from `at` on are all voiced, or all unvoiced.
pub open spec fn alike(v: Seq<bool>, at: int, n: int, voiced: bool) -> bool {
    &&& 0 <= at
    &&& at + n <= v.len()
    &&& forall|k: int| at <= k < at + n ==> v[k] == voiced
}

/// Frame `f` belongs to speech: `open` voiced frames in a row begin at some frame at or after `from`, and
/// from behind those up to frame `f` no `close` unvoiced frames in a row begin.
pub open spec fn in_speech(v: Seq<bool>, from: int, open: int, close: int, f: int) -> bool {
    &&& 0 <= f < v.len()
    &&& exists|s: int|
        {
            &&& from <= s <= f
            &&& #[trigger] alike(v, s, open, true)
            &&& forall|e: int| s + open <= e <= f ==> !#[trigger] alike(v, e, close, false)
        }
}

/// A frame lies in a span exactly where it belongs to speech.
pub proof fn law_spans_are_speech(v: Seq<bool>, from: int, open: nat, close: nat, f: int)
    requires
        0 <= from,
        open >= 1,
        close >= 1,
    ensures
        covered(speech_spans(v, from, open, close), f) <==> in_speech(
            v,
            from,
            open as int,
            close as int,
            f,
        ),
    decreases v.len() - from,
{
    let spans = speech_spans(v, from, open, close);
    let o = open as int;
    let c = close as int;
    assert forall|t: int, n: nat, flag: bool| #[trigger] is_run(v, t, n, flag) == alike(
        v,
        t,
        n as int,
        flag,
    ) by {}
    law_first_run_is_least(v, from, open, true);
    law_speech_spans_keep_their_distance(v, from, open, close);
    match first_run(v, from, open, true) {
        None => {
            if in_speech(v, from, o, c, f) {
                let s = choose|s: int|
                    {
                        &&& from <= s <= f
                        &&& #[trigger] alike(v, s, o, true)
                        &&& forall|e: int| s + o <= e <= f ==> !#[trigger] alike(v, e, c, false)
                    };
                assert(is_run(v, s, open, true));
            }
        },
        Some(s0) => {
            law_first_run_is_least(v, s0 + open, close, false);
            assert(alike(v, s0, o, true)) by {
                assert(is_run(v, s0, open, true));
            }
            assert(spans[0].0 == s0);
            if in_speech(v, from, o, c, f) {
                let s = choose|s: int|
                    {
                        &&& from <= s <= f
                        &&& #[trigger] alike(v, s, o, true)
                        &&& forall|e: int| s + o <= e <= f ==> !#[trigger] alike(v, e, c, false)
                    };
                assert(is_run(v, s, open, true));
                assert(s0 <= s);
            }
            match first_run(v, s0 + open, close, false) {
                None => {
                    assert(spans =~= seq![(s0, v.len() as int)]);
                    if s0 <= f < v.len() {
                        assert(spans[0].0 <= f < spans[0].1);
                        assert forall|e: int| s0 + o <= e <= f implies !#[trigger] alike(v, e, c, false) by {
                            assert(!is_run(v, e, close, false));
                        }
                    }
                },
                Some(e0) => {
                    let rest = speech_spans(v, e0 + close, open, close);
                    assert(spans =~= seq![(s0, e0)] + rest);
                    law_spans_are_speech(v, e0 + close, open, close, f);
                    assert(is_run(v, e0, close, false));
                    assert(alike(v, e0, c, false));
                    if covered(spans, f) {
                        let i = choose|i: int| 0 <= i < spans.len() && (#[trigger] spans[i]).0 <= f
                            < spans[i].1;
                        if i == 0 {
                            assert forall|e: int| s0 + o <= e <= f implies !#[trigger] alike(
                                v,
                                e,
                                c,
                                false,
                            ) by {
                                assert(!is_run(v, e, close, false));
                            }
                        } else {
                            assert(rest[i - 1].0 <= f < rest[i - 1].1);
                            assert(covered(rest, f));
                            let s = choose|s: int|
                                {
                                    &&& e0 + c <= s <= f
                                    &&& #[trigger] alike(v, s, o, true)
                                    &&& forall|e: int|
                                        s + o <= e <= f ==> !#[trigger] alike(v, e, c, false)
                                };
                            assert(from <= s);
                        }
                    }
                    if in_speech(v, from, o, c, f) {
                        let s = choose|s: int|
                            {
                                &&& from <= s <= f
                                &&& #[trigger] alike(v, s, o, true)
                                &&& forall|e: int| s + o <= e <= f ==> !#[trigger] alike(v, e, c, false)
                            };
                        assert(is_run(v, s, open, true));
                        if f < e0 {
                            assert(spans[0].0 <= f < spans[0].1);
                        } else {
                            assert(e0 < s + o);
                            if s < e0 + c {
                                let m = if s >= e0 { s } else { e0 };
                                assert(v[m] == true);
                                assert(v[m] == false);
                            }
                            assert(in_speech(v, e0 + c, o, c, f));
                            let i = choose|i: int| 0 <= i < rest.len() && (#[trigger] rest[i]).0
                                <= f < rest[i].1;
                            assert(spans[i + 1].0 <= f < spans[i + 1].1);
                        }
                    }
                },
            }
        },
    }
}

/// `n` is the least number of frames, at least one, that last as long as a duration.
pub open spec fn least_lasting(n: int, ms: int, frame_ms: int) -> bool {
    &&& n >= 1
    &&& n * frame_ms >= ms
    &&& n == 1 || (n - 1) * frame_ms < ms
}

/// `n` is the least number of frames, possibly none, that last as long as a duration.
pub open spec fn least_covering(n: int, ms: int, frame_ms: int) -> bool {
    &&& n >= 0
    &&& n * frame_ms >= ms
    &&& n == 0 || (n - 1) * frame_ms < ms
}

proof fn lemma_least_frames(n: int, ms: int, frame_ms: int)
    requires
        frame_ms >= 1,
        ms >= 0,
    ensures
        least_covering(n, ms, frame_ms) ==> ceil_div(ms, frame_ms) == n,
        least_lasting(n, ms, frame_ms) ==> at_least_one_frame(ms, frame_ms) == n,
{
    if ms == 0 {
        assert(ceil_div(0, frame_ms) == 0) by {
            vstd::arithmetic::div_mod::lemma_basic_div(frame_ms - 1, frame_ms);
        }
        if n >= 2 {
            assert((n - 1) * frame_ms >= 0) by (nonlinear_arith)
                requires
                    n >= 2,
                    frame_ms >= 1,
            ;
        }
        if n == 1 {
            assert((n - 1) * frame_ms == 0) by (nonlinear_arith)
                requires
                    n == 1,
            ;
        }
    } else if n >= 1 && n * frame_ms >= ms && (n - 1) * frame_ms < ms {
        assert((n - 1) * frame_ms == n * frame_ms - frame_ms) by (nonlinear_arith);
        vstd::arithmetic::div_mod::lemma_fundamental_div_mod_converse(
            ms + frame_ms - 1,
            frame_ms,
            n,
            ms + frame_ms - 1 - n * frame_ms,
        );
    } else {
        assert(0 * frame_ms == 0) by (nonlinear_arith);
        if n == 1 {
            assert((n - 1) * frame_ms == 0) by (nonlinear_arith)
                requires
                    n == 1,
            ;
        }
    }
}

/// Settings hold in milliseconds, whatever the length of a frame: speech is opened by the least number of
/// voiced frames that last as long as the least duration of speech, closed by the least number of unvoiced
/// ones that last as long as the least duration of silence, and widened on both sides by the least number
/// of frames that last as long as the padding. A sample lies in a segment exactly where it is that close to
/// a frame of speech.
pub proof fn law_durations_hold_in_milliseconds(
    labels: Seq<bool>,
    cfg: VadSegmentationConfig,
    rate: int,
    len: int,
    open: int,
    close: int,
    pad: int,
    x: int,
)
    requires
        len >= 1,
        cfg.frame_ms >= 1,
        least_lasting(open, cfg.min_speech_ms as int, cfg.frame_ms as int),
        least_lasting(close, cfg.min_silence_ms as int, cfg.frame_ms as int),
        least_covering(pad, cfg.pad_ms as int, cfg.frame_ms as int),
    ensures
        covered(segments_of(labels, cfg, rate, len), x) <==> 0 <= x < labels.len() * len
            && exists|g: int| #[trigger]
            in_speech(labels, 0, open, close, g) && (g - pad) * len <= x < (g + pad + 1) * len,
{
    lemma_least_frames(open, cfg.min_speech_ms as int, cfg.frame_ms as int);
    lemma_least_frames(close, cfg.min_silence_ms as int, cfg.frame_ms as int);
    lemma_least_frames(pad, cfg.pad_ms as int, cfg.frame_ms as int);
    law_segments(labels, cfg, rate, len);
    let runs = speech_spans(labels, 0, open as nat, close as nat);
    let spans = padded_spans(labels, cfg, len);
    let n = labels.len() as int;
    law_speech_spans_keep_their_distance(labels, 0, open as nat, close as nat);
    lemma_padded_ordered(labels, cfg, len);
    assert(spans.len() == runs.len());
    assert(forall|i: int| 0 <= i < spans.len() ==> #[trigger] spans[i] == widened(runs[i], pad, n, len));
    let y = x / len;
    vstd::arithmetic::div_mod::lemma_fundamental_div_mod(x, len);
    assert(y * len <= x < (y + 1) * len) by (nonlinear_arith)
        requires
            x == len * y + x % len,
            0 <= x % len < len,
    ;
    if covered(spans, x) {
        let i = choose|i: int| 0 <= i < spans.len() && (#[trigger] spans[i]).0 <= x < spans[i].1;
        let r = runs[i];
        let first = if r.0 >= pad { r.0 - pad } else { 0 };
        let last = if r.1 + pad <= n { r.1 + pad } else { n };
        assert(spans[i] == widened(r, pad, n, len));
        assert(first <= y < last) by (nonlinear_arith)
            requires
                first * len <= x < last * len,
                y * len <= x < (y + 1) * len,
                len >= 1,
        ;
        let g = if y < r.0 { r.0 } else if y >= r.1 { r.1 - 1 } else { y };
        assert(runs[i].0 <= g < runs[i].1);
        assert(covered(runs, g));
        law_spans_are_speech(labels, 0, open as nat, close as nat, g);
        assert((g - pad) * len <= x < (g + pad + 1) * len) by (nonlinear_arith)
            requires
                g - pad <= y <= g + pad,
                y * len <= x < (y + 1) * len,
                len >= 1,
        ;
        assert(last * len <= n * len) by (nonlinear_arith)
            requires
                last <= n,
                len >= 1,
        ;
        assert(0 <= first * len) by (nonlinear_arith)
            requires
                0 <= first,
                len >= 1,
        ;
    }
    if 0 <= x < n * len && exists|g: int| #[trigger]
        in_speech(labels, 0, open, close, g) && (g - pad) * len <= x < (g + pad + 1) * len {
        let g = choose|g: int| #[trigger]
            in_speech(labels, 0, open, close, g) && (g - pad) * len <= x < (g + pad + 1) * len;
        law_spans_are_speech(labels, 0, open as nat, close as nat, g);
        let i = choose|i: int| 0 <= i < runs.len() && (#[trigger] runs[i]).0 <= g < runs[i].1;
        let r = runs[i];
        assert(g - pad <= y <= g + pad && 0 <= y < n) by (nonlinear_arith)
            requires
                (g - pad) * len <= x < (g + pad + 1) * len,
                0 <= x < n * len,
                y * len <= x < (y + 1) * len,
                len >= 1,
        ;
        let first = if r.0 >= pad { r.0 - pad } else { 0 };
        let last = if r.1 + pad <= n { r.1 + pad } else { n };
        assert(first * len <= x < last * len) by (nonlinear_arith)
            requires
                first <= y < last,
                y * len <= x < (y + 1) * len,
                len >= 1,
        ;
        assert(spans[i] == widened(r, pad, n, len));
        assert(spans[i].0 <= x < spans[i].1);
        assert(covered(spans, x));
    }
}

/// Where a span begins, or right behind a piece of just the length of the limit.
pub open spec fn begins_piece(spans: Seq<(int, int)>, cut: Seq<(int, int)>, most: int, i: int) -> bool {
    ||| exists|j: int| 0 <= j < spans.len() && (#[trigger] spans[j]).0 == cut[i].0
    ||| most > 0 && i > 0 && cut[i - 1].1 == cut[i].0 && cut[i - 1].1 - cut[i - 1].0 == most
}

proof fn lemma_pieces_begin(spans: Seq<(int, int)>, most: int, i: int)
    requires
        apart(spans),
        0 <= i < all_pieces(spans, most).len(),
    ensures
        begins_piece(spans, all_pieces(spans, most), most, i),
    decreases spans.len(),
{
    if spans.len() > 0 {
        let rest = spans.drop_last();
        let x = spans.last();
        let a = all_pieces(rest, most);
        let b = pieces(x.0, x.1, most);
        let c = all_pieces(spans, most);
        assert(c =~= a + b);
        assert(spans[spans.len() - 1] == x);
        assert(forall|j: int| 0 <= j < rest.len() ==> rest[j] == spans[j]);
        if i < a.len() {
            lemma_pieces_begin(rest, most, i);
            assert(c[i] == a[i]);
            if i > 0 {
                assert(c[i - 1] == a[i - 1]);
            }
            if exists|j: int| 0 <= j < rest.len() && (#[trigger] rest[j]).0 == a[i].0 {
                let j = choose|j: int| 0 <= j < rest.len() && (#[trigger] rest[j]).0 == a[i].0;
                assert(spans[j].0 == c[i].0);
            }
        } else {
            let k = i - a.len();
            assert(c[i] == b[k]);
            law_pieces_tile(x.0, x.1, most);
            if k == 0 {
                assert(spans[spans.len() - 1].0 == c[i].0);
            } else {
                assert(c[i - 1] == b[k - 1]);
                assert(b[k - 1].1 == b[k].0);
                if most > 0 {
                    law_pieces_are_even(x.0, x.1, most);
                    assert(b[k - 1] == (x.0 + (k - 1) * most, x.0 + (k - 1 + 1) * most));
                    assert((k - 1 + 1) * most - (k - 1) * most == most) by (nonlinear_arith);
                } else {
                    assert(b.len() == 1);
                }
            }
        }
    }
}

/// Only segments that are too long are cut, and as seldom as possible: a segment begins where no segment
/// lies before it, or right behind one that lasts just as long as the limit. No segment lasts longer than
/// the limit, in milliseconds.
pub proof fn law_only_long_segments_are_cut(
    labels: Seq<bool>,
    cfg: VadSegmentationConfig,
    rate: int,
    len: int,
    i: int,
)
    requires
        len >= 1,
        cfg.frame_ms >= 1,
        rate >= 0,
        0 <= i < segments_of(labels, cfg, rate, len).len(),
    ensures
        ({
            let segments = segments_of(labels, cfg, rate, len);
            let limit = cfg.max_segment_ms * rate;
            &&& limit >= 1000 ==> (segments[i].1 - segments[i].0) * 1000 <= limit
            &&& covered(segments, segments[i].0 - 1) ==> {
                &&& i > 0
                &&& segments[i - 1].1 == segments[i].0
                &&& (segments[i - 1].1 - segments[i - 1].0) * 1000 <= limit < (segments[i - 1].1
                    - segments[i - 1].0 + 1) * 1000
            }
        }),
{
    let segments = segments_of(labels, cfg, rate, len);
    let limit = cfg.max_segment_ms * rate;
    let most = limit / 1000;
    assert(limit >= 0) by (nonlinear_arith)
        requires
            rate >= 0,
            cfg.max_segment_ms >= 0,
            limit == cfg.max_segment_ms * rate,
    ;
    law_segments(labels, cfg, rate, len);
    lemma_padded_ordered(labels, cfg, len);
    let spans = padded_spans(labels, cfg, len);
    law_merged_covers_the_same(spans);
    let m = merged(spans);
    lemma_pieces_begin(m, most, i);
    assert(segments == all_pieces(m, most));
    law_all_pieces_tile(m, most);
    if covered(segments, segments[i].0 - 1) {
        assert(covered(m, segments[i].0 - 1));
        if exists|j: int| 0 <= j < m.len() && (#[trigger] m[j]).0 == segments[i].0 {
            let j = choose|j: int| 0 <= j < m.len() && (#[trigger] m[j]).0 == segments[i].0;
            let k = choose|k: int| 0 <= k < m.len() && (#[trigger] m[k]).0 <= segments[i].0 - 1
                < m[k].1;
            assert(k != j);
            if k < j {
                assert(m[k].1 < m[j].0);
            } else {
                assert(m[j].1 < m[k].0);
            }
        }
    }
}

/// The label of a frame is what the detector says of its own samples, behind those of all frames before it.
pub proof fn law_labels_hear_their_frames(
    pcm: Seq<i16>,
    rate: int,
    level: int,
    len: int,
    i: int,
    frame: Seq<i16>,
    earlier: Seq<Seq<i16>>,
)
    requires
        len >= 1,
        0 <= i,
        (i + 1) * len <= pcm.len(),
        frame.len() == len,
        forall|k: int| 0 <= k < len ==> #[trigger] frame[k] == pcm[i * len + k],
        earlier.len() == i,
        forall|j: int| 0 <= j < i ==> (#[trigger] earlier[j]).len() == len,
        forall|j: int, k: int|
            0 <= j < i && 0 <= k < len ==> #[trigger] earlier[j][k] == pcm[j * len + k],
    ensures
        i < frame_labels(pcm, rate, level, len).len(),
        frame_labels(pcm, rate, level, len)[i] == voice_decision(rate, level, earlier, frame),
{
    let n = pcm.len() as int / len;
    vstd::arithmetic::div_mod::lemma_fundamental_div_mod(pcm.len() as int, len);
    assert(i < n) by (nonlinear_arith)
        requires
            (i + 1) * len <= pcm.len(),
            pcm.len() == len * n + pcm.len() as int % len,
            pcm.len() as int % len < len,
            len >= 1,
    ;
    assert((i + 1) * len == i * len + len) by (nonlinear_arith);
    assert(0 <= i * len) by (nonlinear_arith)
        requires
            0 <= i,
            len >= 1,
    ;
    assert(frame_of(pcm, len, i) =~= frame);
    assert forall|j: int| 0 <= j < i implies #[trigger] frames_of(pcm, len, i as nat)[j]
        == earlier[j] by {
        assert(0 <= j * len && j * len + len <= i * len) by (nonlinear_arith)
            requires
                0 <= j < i,
                len >= 1,
        ;
        assert(frame_of(pcm, len, j) =~= earlier[j]);
    }
    assert(frames_of(pcm, len, i as nat) =~= earlier);
}

/// Splitting a recording reads its whole frames alone: without the samples behind them its segments are the
/// same, no segment ends behind them, and a recording shorter than one frame has none.
pub proof fn law_splitting_reads_whole_frames(
    samples: Seq<i16>,
    cfg: VadSegmentationConfig,
    rate: int,
    len: int,
)
    requires
        len >= 1,
        cfg.frame_ms >= 1,
    ensures
        segments_of(frame_labels(samples, rate, cfg.mode as int, len), cfg, rate, len)
            == segments_of(
            frame_labels(
                samples.take((samples.len() as int / len) * len),
                rate,
                cfg.mode as int,
                len,
            ),
            cfg,
            rate,
            len,
        ),
        within(
            segments_of(frame_labels(samples, rate, cfg.mode as int, len), cfg, rate, len),
            0,
            (samples.len() as int / len) * len,
        ),
        samples.len() < len ==> segments_of(
            frame_labels(samples, rate, cfg.mode as int, len),
            cfg,
            rate,
            len,
        ).len() == 0,
{
    let n = samples.len() as int / len;
    let level = cfg.mode as int;
    vstd::arithmetic::div_mod::lemma_fundamental_div_mod(samples.len() as int, len);
    vstd::arithmetic::div_mod::lemma_div_pos_is_pos(samples.len() as int, len);
    assert(0 <= n * len <= samples.len()) by (nonlinear_arith)
        requires
            samples.len() == len * n + samples.len() as int % len,
            samples.len() as int % len >= 0,
            n >= 0,
            len >= 1,
    ;
    let whole = samples.take(n * len);
    vstd::arithmetic::div_mod::lemma_fundamental_div_mod_converse(n * len, len, n, 0);
    assert(whole.take(n * len) =~= whole);
    law_only_whole_frames_count(samples, whole, rate, level, len);
    let labels = frame_labels(samples, rate, level, len);
    law_segments(labels, cfg, rate, len);
    assert(labels.len() == n);
    if samples.len() < len {
        vstd::arithmetic::div_mod::lemma_basic_div(samples.len() as int, len);
        let segments = segments_of(labels, cfg, rate, len);
        if segments.len() > 0 {
            assert(segments[0].0 < segments[0].1);
        }
    }
}

/// Joins spans in order of their starts where they touch or overlap.
pub fn merge_spans(spans: &[(usize, usize)]) -> (r: Vec<(usize, usize)>)
    ensures
        int_spans(r@) == merged(int_spans(spans@)),
{
    let n: usize = spans.len();
    let mut out: Vec<(usize, usize)> = Vec::new();
    let mut i: usize = 0;
    assert(int_spans(out@) =~= merged(int_spans(spans@.take(0))));
    while i < n
        invariant
            n == spans@.len(),
            i <= n,
            int_spans(out@) == merged(int_spans(spans@.take(i as int))),
        decreases n - i,
    {
        let (s, e) = spans[i];
        let k: usize = out.len();
        let ghost before = out@;
        proof {
            let next = int_spans(spans@.take(i + 1));
            assert(next.drop_last() =~= int_spans(spans@.take(i as int)));
            assert(next.last() == (s as int, e as int));
        }
        if k > 0 && s <= out[k - 1].1 {
            let (ls, le) = out[k - 1];
            out.set(k - 1, (ls, if e > le { e } else { le }));
            assert(int_spans(out@) =~= int_spans(before).drop_last().push(
                (ls as int, if e > le { e as int } else { le as int }),
            ));
        } else {
            out.push((s, e));
            assert(int_spans(out@) =~= int_spans(before).push((s as int, e as int)));
        }
        i += 1;
    }
    assert(spans@.take(n as int) =~= spans@);
    out
}

/// Cuts every span into pieces of at most `most` samples; `None` means no limit.
pub fn cut_spans(spans: &[(usize, usize)], most: Option<usize>) -> (r: Vec<SpeechSegment>)
    requires
        forall|i: int| 0 <= i < spans@.len() ==> (#[trigger] spans@[i]).0 < spans@[i].1,
        most matches Some(m) ==> m > 0,
    ensures
        segment_spans(r@) == all_pieces(
            int_spans(spans@),
            match most {
                Some(m) => m as int,
                None => 0,
            },
        ),
{
    let n: usize = spans.len();
    let ghost limit = match most {
        Some(m) => m as int,
        None => 0,
    };
    let mut out: Vec<SpeechSegment> = Vec::new();
    let mut i: usize = 0;
    assert(segment_spans(out@) =~= all_pieces(int_spans(spans@.take(0)), limit));
    while i < n
        invariant
            n == spans@.len(),
            i <= n,
            forall|i: int| 0 <= i < spans@.len() ==> (#[trigger] spans@[i]).0 < spans@[i].1,
            most matches Some(m) ==> m > 0,
            limit == (match most {
                Some(m) => m as int,
                None => 0,
            }),
            segment_spans(out@) == all_pieces(int_spans(spans@.take(i as int)), limit),
        decreases n - i,
    {
        let (s, e) = spans[i];
        assert(spans@[i as int].0 < spans@[i as int].1);
        let ghost done = segment_spans(out@);
        proof {
            let next = int_spans(spans@.take(i + 1));
            assert(next.drop_last() =~= int_spans(spans@.take(i as int)));
            assert(next.last() == (s as int, e as int));
        }
        let mut cur: usize = s;
        if let Some(m) = most {
            assert(segment_spans(out@) + pieces(cur as int, e as int, limit) =~= done + pieces(
                s as int,
                e as int,
                limit,
            ));
            while e - cur > m
                invariant
                    s <= cur < e,
                    m > 0,
                    limit == m,
                    segment_spans(out@) + pieces(cur as int, e as int, limit) == done + pieces(
                        s as int,
                        e as int,
                        limit,
                    ),
                decreases e - cur,
            {
                let ghost before = out@;
                let next: usize = cur + m;
                out.push(SpeechSegment { start_sample: cur, end_sample: next });
                proof {
                    assert(segment_spans(out@) =~= segment_spans(before).push(
                        (cur as int, next as int),
                    ));
                    assert(segment_spans(out@) + pieces(next as int, e as int, limit)
                        =~= segment_spans(before) + pieces(cur as int, e as int, limit));
                }
                cur = next;
            }
        }
        let ghost before = out@;
        out.push(SpeechSegment { start_sample: cur, end_sample: e });
        proof {
            assert(segment_spans(out@) =~= segment_spans(before).push((cur as int, e as int)));
            assert(segment_spans(out@) =~= segment_spans(before) + pieces(
                cur as int,
                e as int,
                limit,
            ));
            assert(segment_spans(out@) =~= done + pieces(s as int, e as int, limit));
        }
        i += 1;
    }
    assert(spans@.take(n as int) =~= spans@);
    out
}

/// The segments of a signal whose frames are already labelled.
pub fn segments_from_labels(
    voice: &[bool],
    frame_len: usize,
    sample_rate: usize,
    cfg: &VadSegmentationConfig,
) -> (r: Vec<SpeechSegment>)
    requires
        frame_len >= 1,
        cfg.frame_ms >= 1,
        voice@.len() * frame_len <= usize::MAX,
    ensures
        segment_spans(r@) == segments_of(voice@, *cfg, sample_rate as int, frame_len as int),
{
    let mut open: usize = round_up_div(cfg.min_speech_ms, cfg.frame_ms);
    if open == 0 {
        open = 1;
    }
    let mut close: usize = round_up_div(cfg.min_silence_ms, cfg.frame_ms);
    if close == 0 {
        close = 1;
    }
    let pad: usize = round_up_div(cfg.pad_ms, cfg.frame_ms);
    let n: usize = voice.len();
    let raw = find_speech(voice, open, close);
    let ghost runs = speech_spans(voice@, 0, open as nat, close as nat);
    let ghost spans = padded_spans(voice@, *cfg, frame_len as int);
    proof {
        vstd::arithmetic::div_mod::lemma_div_pos_is_pos(
            cfg.min_speech_ms + cfg.frame_ms - 1,
            cfg.frame_ms as int,
        );
        vstd::arithmetic::div_mod::lemma_div_pos_is_pos(
            cfg.min_silence_ms + cfg.frame_ms - 1,
            cfg.frame_ms as int,
        );
        assert(open == at_least_one_frame(cfg.min_speech_ms as int, cfg.frame_ms as int));
        assert(close == at_least_one_frame(cfg.min_silence_ms as int, cfg.frame_ms as int));
        law_speech_spans_keep_their_distance(voice@, 0, open as nat, close as nat);
        lemma_padded_ordered(voice@, *cfg, frame_len as int);
    }
    let mut padded: Vec<(usize, usize)> = Vec::new();
    let mut i: usize = 0;
    while i < raw.len()
        invariant
            i <= raw@.len(),
            n == voice@.len(),
            n * frame_len <= usize::MAX,
            frame_len >= 1,
            pad == ceil_div(cfg.pad_ms as int, cfg.frame_ms as int),
            int_spans(raw@) == runs,
            within(runs, 0, n as int),
            forall|k: int| 0 <= k < runs.len() ==> (#[trigger] runs[k]).0 < runs[k].1,
            spans == runs.map_values(|s: (int, int)| widened(s, pad as int, n as int, frame_len as int)),
            ordered(spans),
            within(spans, 0, n * frame_len),
            int_spans(padded@) == spans.take(i as int),
        decreases raw@.len() - i,
    {
        let (sf, ef) = raw[i];
        assert(runs[i as int] == (sf as int, ef as int));
        assert(spans[i as int] == widened(runs[i as int], pad as int, n as int, frame_len as int));
        let first: usize = if sf >= pad {
            sf - pad
        } else {
            0
        };
        let last: usize = if pad <= n - ef {
            ef + pad
        } else {
            n
        };
        let ghost before = padded@;
        assert(0 <= first * frame_len && last * frame_len <= n * frame_len && first * frame_len <= n
            * frame_len) by (nonlinear_arith)
            requires
                first <= n,
                last <= n,
        ;
        padded.push((first * frame_len, last * frame_len));
        assert(int_spans(padded@) =~= int_spans(before).push(
            (first * frame_len, last * frame_len),
        ));
        assert(spans.take(i + 1) =~= spans.take(i as int).push(spans[i as int]));
        i += 1;
    }
    assert(int_spans(padded@) =~= spans);
    let joined = merge_spans(padded.as_slice());
    proof {
        law_merged_covers_the_same(spans);
        assert forall|k: int| 0 <= k < joined@.len() implies (#[trigger] joined@[k]).0
            < joined@[k].1 by {
            assert(int_spans(joined@)[k] == (joined@[k].0 as int, joined@[k].1 as int));
        }
    }
    assert(cfg.max_segment_ms * sample_rate <= u64::MAX * u64::MAX) by (nonlinear_arith)
        requires
            cfg.max_segment_ms <= u64::MAX,
            sample_rate <= u64::MAX,
    ;
    let most: u128 = cfg.max_segment_ms as u128 * sample_rate as u128 / 1000;
    if most == 0 || most > usize::MAX as u128 {
        proof {
            lemma_no_cut_above(merged(spans), 0, n * frame_len, most as int);
            assert(within(merged(spans), 0, n * frame_len));
        }
        return cut_spans(joined.as_slice(), None);
    }
    cut_spans(joined.as_slice(), Some(most as usize))
}

proof fn lemma_no_cut_above(spans: Seq<(int, int)>, lo: int, hi: int, most: int)
    requires
        within(spans, lo, hi),
        most <= 0 || most >= hi - lo,
    ensures
        all_pieces(spans, most) == all_pieces(spans, 0),
    decreases spans.len(),
{
    if spans.len() > 0 {
        let rest = spans.drop_last();
        assert(forall|i: int| 0 <= i < rest.len() ==> rest[i] == spans[i]);
        lemma_no_cut_above(rest, lo, hi, most);
        assert(spans[spans.len() - 1] == spans.last());
    }
}

/// Splits a mono signal into segments of speech.
///
/// The rate is one of 8000, 16000, 32000 and 48000 Hz. Settings are checked in this order: the
/// frame length, the sample rate, the aggressiveness.
pub fn split_mono_by_vad(
    samples: &[i16],
    sample_rate: usize,
    cfg: &VadSegmentationConfig,
) -> (r: Result<Vec<SpeechSegment>, VadError>)
    ensures
        !(cfg.frame_ms == 10 || cfg.frame_ms == 20 || cfg.frame_ms == 30) ==> r == Err::<
            Vec<SpeechSegment>,
            VadError,
        >(VadError::UnsupportedFrameMs(cfg.frame_ms)),
        (cfg.frame_ms == 10 || cfg.frame_ms == 20 || cfg.frame_ms == 30) ==> match supported_rate(
            sample_rate,
        ) {
            None => r == Err::<Vec<SpeechSegment>, VadError>(
                if sample_rate > i32::MAX {
                    VadError::SampleRateOutOfRange(sample_rate)
                } else {
                    VadError::UnsupportedSampleRate(sample_rate)
                },
            ),
            Some(rate) => if cfg.mode > 3 {
                r == Err::<Vec<SpeechSegment>, VadError>(VadError::UnsupportedMode(cfg.mode))
            } else {
                let len = sample_rate * cfg.frame_ms / 1000;
                r is Ok && segment_spans(r->Ok_0@) == segments_of(
                    frame_labels(samples@, sample_rate as int, cfg.mode as int, len),
                    *cfg,
                    sample_rate as int,
                    len,
                )
            },
        },
{
    if cfg.frame_ms != 10 && cfg.frame_ms != 20 && cfg.frame_ms != 30 {
        return Err(VadError::UnsupportedFrameMs(cfg.frame_ms));
    }
    let rate = match sample_rate_to_webrtc(sample_rate) {
        Ok(rate) => rate,
        Err(e) => {
            return Err(e);
        },
    };
    let mode = match vad_mode_from_u8(cfg.mode) {
        Ok(mode) => mode,
        Err(e) => {
            return Err(e);
        },
    };
    assert(sample_rate * cfg.frame_ms <= 48000 * 30) by (nonlinear_arith)
        requires
            sample_rate <= 48000,
            cfg.frame_ms <= 30,
    ;
    let frame_len: usize = sample_rate * cfg.frame_ms / 1000;
    assert(valid_frame_len(rate.hz(), frame_len as int) && frame_len >= 80) by {
        assert(sample_rate == rate.hz());
        if cfg.frame_ms == 10 {
            assert(frame_len == sample_rate * 10 / 1000);
        } else if cfg.frame_ms == 20 {
            assert(frame_len == sample_rate * 20 / 1000);
        } else {
            assert(frame_len == sample_rate * 30 / 1000);
        }
    }
    let voice = label_frames(samples, rate, mode, frame_len);
    let total: usize = samples.len();
    proof {
        vstd::arithmetic::div_mod::lemma_fundamental_div_mod(total as int, frame_len as int);
        assert(voice@.len() * frame_len <= total) by (nonlinear_arith)
            requires
                total == frame_len * voice@.len() + total % frame_len,
                total % frame_len >= 0,
                frame_len >= 80,
                voice@.len() >= 0,
        ;
    }
    Ok(segments_from_labels(voice.as_slice(), frame_len, sample_rate, cfg))
}

} // verus!
