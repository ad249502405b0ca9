//! Frames: which samples enter which frame of a spectrogram, and filters from bytes.
use vstd::prelude::*;

verus! {

// ---------------------------------------------------------------------------
// Reflection
// ---------------------------------------------------------------------------

/// The position that an index is reflected to: the signal goes back and forth between its first and
/// its last sample.
pub open spec fn reflected(idx: int, n: int) -> int {
    if n <= 1 {
        0
    } else {
        let r = idx % (2 * (n - 1));
        if r >= n {
            2 * (n - 1) - r
        } else {
            r
        }
    }
}

/// A position within a signal of length `n` for an index that may lie outside of it.
pub fn reflect_index(idx: isize, n: isize) -> (r: isize)
    requires
        n <= 1 || 2 * (n - 1) <= isize::MAX,
    ensures
        r == reflected(idx as int, n as int),
{
    if n <= 1 {
        return 0;
    }
    let period: isize = 2 * (n - 1);
    let r: isize = if idx >= 0 {
        idx % period
    } else {
        // The remainder of a negative index, counted from the end of the period.
        let past: isize = (-(idx + 1)) % period;
        period - 1 - past
    };
    proof {
        let p = period as int;
        let i = idx as int;
        if i < 0 {
            let m = (-(i + 1)) as int;
            vstd::arithmetic::div_mod::lemma_fundamental_div_mod(m, p);
            let q = m / p;
            assert(i == p * (-(q + 1)) + (p - 1 - m % p)) by (nonlinear_arith)
                requires
                    m == p * q + m % p,
                    m == -(i + 1),
            ;
            vstd::arithmetic::div_mod::lemma_fundamental_div_mod_converse(
                i,
                p,
                -(q + 1),
                p - 1 - m % p,
            );
        }
        assert(r == i % p);
    }
    if r >= n {
        2 * (n - 1) - r
    } else {
        r
    }
}

/// The position lies within the signal. An index within the signal is not moved, the signal is mirrored at
/// its first and at its last sample, and it comes again after twice its length between them.
pub proof fn law_reflection(idx: int, n: int)
    requires
        n >= 1,
    ensures
        0 <= reflected(idx, n) < n,
        0 <= idx < n ==> reflected(idx, n) == idx,
        reflected(-idx, n) == reflected(idx, n),
        reflected(2 * (n - 1) - idx, n) == reflected(idx, n),
        reflected(idx + 2 * (n - 1), n) == reflected(idx, n),
{
    if n > 1 {
        let p = 2 * (n - 1);
        vstd::arithmetic::div_mod::lemma_mod_add_multiples_vanish(idx, p);
        let r = idx % p;
        vstd::arithmetic::div_mod::lemma_fundamental_div_mod(idx, p);
        let q = idx / p;
        if r == 0 {
            assert(-idx == p * (-q)) by (nonlinear_arith)
                requires
                    idx == p * q,
            ;
            vstd::arithmetic::div_mod::lemma_fundamental_div_mod_converse(-idx, p, -q, 0);
            assert(p - idx == p * (1 - q)) by (nonlinear_arith)
                requires
                    idx == p * q,
            ;
            vstd::arithmetic::div_mod::lemma_fundamental_div_mod_converse(p - idx, p, 1 - q, 0);
        } else {
            assert(-idx == p * (-q - 1) + (p - r)) by (nonlinear_arith)
                requires
                    idx == p * q + r,
            ;
            vstd::arithmetic::div_mod::lemma_fundamental_div_mod_converse(-idx, p, -q - 1, p - r);
            assert(p - idx == p * (-q) + (p - r)) by (nonlinear_arith)
                requires
                    idx == p * q + r,
            ;
            vstd::arithmetic::div_mod::lemma_fundamental_div_mod_converse(p - idx, p, -q, p - r);
        }
        if 0 <= idx < n {
            vstd::arithmetic::div_mod::lemma_small_mod(idx as nat, p as nat);
        }
    }
}

// ---------------------------------------------------------------------------
// Centered frames with reflection
// ---------------------------------------------------------------------------

/// How a spectrogram is normalized.
#[derive(Debug, Clone, Copy, PartialEq, Eq, Structural)]
pub enum MelNormalization {
    /// Dynamic range compression; the last frame is dropped.
    WhisperDynamicRange,
    /// Mean and deviation over the whole recording.
    PerUtterance,
    /// No normalization.
    Unchanged,
}

/// The number of frames, each centered on a multiple of the hop.
pub open spec fn centered_frames(samples: int, hop_length: int) -> int {
    samples / hop_length + 1
}

/// The number of frames that are kept.
pub open spec fn kept_frames(frames: int, normalization: MelNormalization) -> int {
    if normalization is WhisperDynamicRange && frames > 0 {
        frames - 1
    } else {
        frames
    }
}

/// The number of frames, each centered on a multiple of the hop.
pub fn centered_frame_count(samples: usize, hop_length: usize) -> (r: usize)
    requires
        hop_length > 0,
        samples < usize::MAX,
    ensures
        r == samples / hop_length + 1,
        r == centered_frames(samples as int, hop_length as int),
{
    proof {
        vstd::arithmetic::div_mod::lemma_div_is_ordered_by_denominator(
            samples as int,
            1,
            hop_length as int,
        );
    }
    samples / hop_length + 1
}

/// The number of frames that are kept.
pub fn kept_frame_count(frames: usize, normalization: MelNormalization) -> (r: usize)
    ensures
        r == if normalization is WhisperDynamicRange && frames > 0 {
            frames - 1
        } else {
            frames as int
        },
        r == kept_frames(frames as int, normalization),
{
    if normalization == MelNormalization::WhisperDynamicRange && frames > 0 {
        frames - 1
    } else {
        frames
    }
}

/// With the last frame dropped there is one frame for each full hop.
pub proof fn law_one_frame_for_each_hop(samples: int, hop_length: int)
    requires
        samples >= 0,
        hop_length > 0,
    ensures
        (samples / hop_length + 1) - 1 == samples / hop_length,
        (samples / hop_length) * hop_length <= samples,
{
    vstd::arithmetic::div_mod::lemma_fundamental_div_mod(samples, hop_length);
    assert(hop_length * (samples / hop_length) == (samples / hop_length) * hop_length)
        by (nonlinear_arith);
}

/// The sample at position `i` of a frame that is centered on a multiple of the hop. Without any
/// samples there is none.
pub open spec fn centered_sample(frame: int, i: int, samples: int, n_fft: int, hop: int) -> Option<
    int,
> {
    if samples == 0 {
        None
    } else {
        Some(reflected(frame * hop - n_fft / 2 + i, samples))
    }
}

/// Positions as machine numbers.
pub open spec fn positions(v: Seq<Option<usize>>) -> Seq<Option<int>> {
    v.map_values(
        |p: Option<usize>|
            match p {
                Some(x) => Some(x as int),
                None => None,
            },
    )
}

/// The samples of a frame that is centered on a multiple of the hop.
pub fn centered_frame(frame: usize, samples: usize, n_fft: usize, hop_length: usize) -> (r: Vec<
    Option<usize>,
>)
    requires
        2 * samples <= isize::MAX,
        frame * hop_length + n_fft <= isize::MAX,
    ensures
        positions(r@) == Seq::new(
            n_fft as nat,
            |i: int|
                centered_sample(
                    frame as int,
                    i,
                    samples as int,
                    n_fft as int,
                    hop_length as int,
                ),
        ),
{
    let mut out: Vec<Option<usize>> = Vec::new();
    assert(0 <= frame * hop_length) by (nonlinear_arith);
    let center: usize = frame * hop_length;
    let start: isize = center as isize - (n_fft / 2) as isize;
    let n: isize = samples as isize;
    let mut i: usize = 0;
    while i < n_fft
        invariant
            i <= n_fft,
            2 * samples <= isize::MAX,
            n == samples,
            frame * hop_length + n_fft <= isize::MAX,
            0 <= frame * hop_length,
            start == frame * hop_length - n_fft / 2,
            out@.len() == i,
            forall|j: int|
                0 <= j < i ==> #[trigger] positions(out@)[j] == centered_sample(
                    frame as int,
                    j,
                    samples as int,
                    n_fft as int,
                    hop_length as int,
                ),
        decreases n_fft - i,
    {
        let at = reflect_index(start + i as isize, n);
        let ghost before = positions(out@);
        if n > 0 {
            proof {
                law_reflection(start + i, n as int);
            }
            out.push(Some(at as usize));
        } else {
            out.push(None);
        }
        assert forall|j: int| 0 <= j < i + 1 implies #[trigger] positions(out@)[j]
            == centered_sample(
            frame as int,
            j,
            samples as int,
            n_fft as int,
            hop_length as int,
        ) by {
            if j < i {
                assert(positions(out@)[j] == before[j]);
            }
        }
        i += 1;
    }
    assert(positions(out@) =~= Seq::new(
        n_fft as nat,
        |i: int|
            centered_sample(frame as int, i, samples as int, n_fft as int, hop_length as int),
    ));
    out
}

// ---------------------------------------------------------------------------
// Frames from the first sample on
// ---------------------------------------------------------------------------

/// Settings of the spectrogram of GigaAM.
pub struct PreprocessorConfig {
    pub sample_rate: usize,
    /// Number of mel bins.
    pub features: usize,
    pub win_length: usize,
    pub hop_length: usize,
    pub n_fft: usize,
    pub mel_scale: String,
    /// Whether frames are centered; those of GigaAM are not.
    pub center: bool,
}

/// The layout of the spectrogram of GigaAM.
pub struct GigaAmMelExtractor {
    pub config: PreprocessorConfig,
}

/// The number of windows that fit into the samples.
pub open spec fn window_count(samples: int, win_length: int, hop_length: int) -> int {
    if samples < win_length {
        0
    } else {
        (samples - win_length) / hop_length + 1
    }
}

/// The sample at position `i` of a frame, where the window covers it.
pub open spec fn plain_sample(frame: int, i: int, samples: int, win: int, hop: int) -> Option<int> {
    if i < win && frame * hop + i < samples {
        Some(frame * hop + i)
    } else {
        None
    }
}

impl GigaAmMelExtractor {
    /// A layout with these settings.
    pub fn new(config: PreprocessorConfig) -> (r: GigaAmMelExtractor)
        ensures
            r.config == config,
    {
        GigaAmMelExtractor { config }
    }

    /// The number of frequencies of a frame.
    pub fn frequencies(&self) -> (r: usize)
        ensures
            r == self.config.n_fft / 2 + 1,
    {
        self.config.n_fft / 2 + 1
    }

    /// The number of frames for a number of samples.
    pub fn num_frames(&self, num_samples: usize) -> (r: usize)
        requires
            self.config.hop_length > 0,
            num_samples < usize::MAX,
        ensures
            r == window_count(
                num_samples as int,
                self.config.win_length as int,
                self.config.hop_length as int,
            ),
    {
        if num_samples < self.config.win_length {
            return 0;
        }
        let room: usize = num_samples - self.config.win_length;
        proof {
            vstd::arithmetic::div_mod::lemma_div_is_ordered_by_denominator(
                room as int,
                1,
                self.config.hop_length as int,
            );
        }
        room / self.config.hop_length + 1
    }

    /// The samples of a frame.
    pub fn frame(&self, frame: usize, samples: usize) -> (r: Vec<Option<usize>>)
        requires
            frame * self.config.hop_length + self.config.n_fft <= usize::MAX,
        ensures
            positions(r@) == Seq::new(
                self.config.n_fft as nat,
                |i: int|
                    plain_sample(
                        frame as int,
                        i,
                        samples as int,
                        self.config.win_length as int,
                        self.config.hop_length as int,
                    ),
            ),
    {
        let n_fft: usize = self.config.n_fft;
        let mut out: Vec<Option<usize>> = Vec::new();
        assert(0 <= frame * self.config.hop_length) by (nonlinear_arith);
        let start: usize = frame * self.config.hop_length;
        let mut i: usize = 0;
        while i < n_fft
            invariant
                i <= n_fft,
                n_fft == self.config.n_fft,
                start == frame * self.config.hop_length,
                start + n_fft <= usize::MAX,
                out@.len() == i,
                forall|j: int|
                    0 <= j < i ==> #[trigger] positions(out@)[j] == plain_sample(
                        frame as int,
                        j,
                        samples as int,
                        self.config.win_length as int,
                        self.config.hop_length as int,
                    ),
            decreases n_fft - i,
        {
            let ghost before = positions(out@);
            out.push(
                if i < self.config.win_length && start + i < samples {
                    Some(start + i)
                } else {
                    None
                },
            );
            assert forall|j: int| 0 <= j < i + 1 implies #[trigger] positions(out@)[j]
                == plain_sample(
                frame as int,
                j,
                samples as int,
                self.config.win_length as int,
                self.config.hop_length as int,
            ) by {
                if j < i {
                    assert(positions(out@)[j] == before[j]);
                }
            }
            i += 1;
        }
        assert(positions(out@) =~= Seq::new(
            self.config.n_fft as nat,
            |i: int|
                plain_sample(
                    frame as int,
                    i,
                    samples as int,
                    self.config.win_length as int,
                    self.config.hop_length as int,
                ),
        ));
        out
    }
}

/// Every window of every frame lies within the samples.
pub proof fn law_windows_lie_within(samples: int, win_length: int, hop_length: int, frame: int)
    requires
        hop_length > 0,
        0 <= frame < window_count(samples, win_length, hop_length),
    ensures
        frame * hop_length + win_length <= samples,
{
    let room = samples - win_length;
    vstd::arithmetic::div_mod::lemma_fundamental_div_mod(room, hop_length);
    assert(frame * hop_length <= room) by (nonlinear_arith)
        requires
            frame <= room / hop_length,
            room == hop_length * (room / hop_length) + room % hop_length,
            0 <= room % hop_length,
            hop_length > 0,
    ;
}

// ---------------------------------------------------------------------------
// Centered frames with silence around the samples
// ---------------------------------------------------------------------------

/// The layout of the spectrogram of Parakeet: half a window of silence stands before and behind the
/// samples.
pub struct ParakeetMelExtractor {
    pub n_fft: usize,
    pub hop_length: usize,
    pub win_length: usize,
    pub n_mels: usize,
}

/// The number of samples with the silence around them.
pub open spec fn padded_len(samples: int, win_length: int) -> int {
    samples + 2 * (win_length / 2)
}

/// The sample at position `i` of a frame, where the window covers one.
pub open spec fn padded_sample(frame: int, i: int, samples: int, win: int, hop: int) -> Option<int> {
    let at = frame * hop + i - win / 2;
    if i < win && 0 <= at < samples {
        Some(at)
    } else {
        None
    }
}

impl ParakeetMelExtractor {
    /// A layout with these settings.
    pub fn new(n_fft: usize, hop_length: usize, win_length: usize, n_mels: usize) -> (r:
        ParakeetMelExtractor)
        ensures
            r == (ParakeetMelExtractor { n_fft, hop_length, win_length, n_mels }),
    {
        ParakeetMelExtractor { n_fft, hop_length, win_length, n_mels }
    }

    /// The number of frames for a number of samples.
    pub fn num_frames(&self, samples: usize) -> (r: usize)
        requires
            self.hop_length > 0,
            padded_len(samples as int, self.win_length as int) < usize::MAX,
        ensures
            r == window_count(
                padded_len(samples as int, self.win_length as int),
                self.n_fft as int,
                self.hop_length as int,
            ),
    {
        let padded: usize = samples + 2 * (self.win_length / 2);
        if padded >= self.n_fft {
            let room: usize = padded - self.n_fft;
            proof {
                vstd::arithmetic::div_mod::lemma_div_is_ordered_by_denominator(
                    room as int,
                    1,
                    self.hop_length as int,
                );
            }
            room / self.hop_length + 1
        } else {
            0
        }
    }

    /// The samples of a frame.
    pub fn frame(&self, frame: usize, samples: usize) -> (r: Vec<Option<usize>>)
        requires
            frame * self.hop_length + self.n_fft <= usize::MAX,
        ensures
            positions(r@) == Seq::new(
                self.n_fft as nat,
                |i: int|
                    padded_sample(
                        frame as int,
                        i,
                        samples as int,
                        self.win_length as int,
                        self.hop_length as int,
                    ),
            ),
    {
        let pad: usize = self.win_length / 2;
        let mut out: Vec<Option<usize>> = Vec::new();
        assert(0 <= frame * self.hop_length) by (nonlinear_arith);
        let start: usize = frame * self.hop_length;
        let mut i: usize = 0;
        while i < self.n_fft
            invariant
                i <= self.n_fft,
                pad == self.win_length / 2,
                start == frame * self.hop_length,
                start + self.n_fft <= usize::MAX,
                out@.len() == i,
                forall|j: int|
                    0 <= j < i ==> #[trigger] positions(out@)[j] == padded_sample(
                        frame as int,
                        j,
                        samples as int,
                        self.win_length as int,
                        self.hop_length as int,
                    ),
            decreases self.n_fft - i,
        {
            let ghost before = positions(out@);
            out.push(
                if i < self.win_length && start + i >= pad && start + i - pad < samples {
                    Some(start + i - pad)
                } else {
                    None
                },
            );
            assert forall|j: int| 0 <= j < i + 1 implies #[trigger] positions(out@)[j]
                == padded_sample(
                frame as int,
                j,
                samples as int,
                self.win_length as int,
                self.hop_length as int,
            ) by {
                if j < i {
                    assert(positions(out@)[j] == before[j]);
                }
            }
            i += 1;
        }
        assert(positions(out@) =~= Seq::new(
            self.n_fft as nat,
            |i: int|
                padded_sample(
                    frame as int,
                    i,
                    samples as int,
                    self.win_length as int,
                    self.hop_length as int,
                ),
        ));
        out
    }
}

// ---------------------------------------------------------------------------
// Filters from bytes
// ---------------------------------------------------------------------------

/// Four bytes as a number, the least significant one first.
pub open spec fn little_endian(bytes: Seq<u8>, at: int) -> int {
    bytes[at] + 0x100 * bytes[at + 1] + 0x1_0000 * bytes[at + 2] + 0x100_0000 * bytes[at + 3]
}

/// The bit pattern of entry `k` of row `m`.
pub open spec fn filter_entry(bytes: Seq<u8>, n_freqs: int, m: int, k: int) -> int {
    little_endian(bytes, 4 * (m * n_freqs + k))
}

/// The filters of a file of single-precision numbers, by their bit patterns: one row for each mel bin,
/// with one number for each frequency. What follows them is passed over.
pub fn filter_rows(bytes: &[u8], n_mels: usize, n_fft: usize) -> (r: Vec<Vec<u32>>)
    requires
        4 * (n_mels * (n_fft / 2 + 1)) <= bytes@.len(),
    ensures
        r@.len() == n_mels,
        forall|m: int|
            0 <= m < n_mels ==> (#[trigger] r@[m])@.len() == n_fft / 2 + 1 && forall|k: int|
                0 <= k < n_fft / 2 + 1 ==> #[trigger] r@[m]@[k] == filter_entry(
                    bytes@,
                    n_fft / 2 + 1,
                    m,
                    k,
                ),
{
    let n_freqs: usize = n_fft / 2 + 1;
    let total: usize = bytes.len();
    let mut rows: Vec<Vec<u32>> = Vec::new();
    let mut m: usize = 0;
    while m < n_mels
        invariant
            m <= n_mels,
            n_freqs == n_fft / 2 + 1,
            total == bytes@.len(),
            4 * (n_mels * n_freqs) <= total,
            rows@.len() == m,
            forall|a: int|
                0 <= a < m ==> (#[trigger] rows@[a])@.len() == n_freqs && forall|k: int|
                    0 <= k < n_freqs ==> #[trigger] rows@[a]@[k] == filter_entry(
                        bytes@,
                        n_freqs as int,
                        a,
                        k,
                    ),
        decreases n_mels - m,
    {
        assert(0 <= m * n_freqs && m * n_freqs + n_freqs <= n_mels * n_freqs) by (nonlinear_arith)
            requires
                0 <= m,
                m + 1 <= n_mels,
                n_freqs >= 0,
        ;
        let start: usize = m * n_freqs;
        let mut row: Vec<u32> = Vec::new();
        let mut k: usize = 0;
        while k < n_freqs
            invariant
                k <= n_freqs,
                total == bytes@.len(),
                start == m * n_freqs,
                4 * (start + n_freqs) <= total,
                row@.len() == k,
                forall|c: int|
                    0 <= c < k ==> #[trigger] row@[c] == filter_entry(
                        bytes@,
                        n_freqs as int,
                        m as int,
                        c,
                    ),
            decreases n_freqs - k,
        {
            let at: usize = 4 * (start + k);
            let value: u32 = bytes[at] as u32 + 0x100 * bytes[at + 1] as u32 + 0x1_0000 * bytes[at
                + 2] as u32 + 0x100_0000 * bytes[at + 3] as u32;
            row.push(value);
            k += 1;
        }
        rows.push(row);
        m += 1;
    }
    rows
}

// ---------------------------------------------------------------------------
// What the frames hear
// ---------------------------------------------------------------------------

/// The frames stand one hop apart from the first sample on and the last one on or less than a hop before
/// the end. Of the three normalizations one alone drops a frame, and then the last.
pub proof fn law_frames_reach_the_end(samples: int, hop_length: int)
    requires
        samples >= 0,
        hop_length > 0,
    ensures
        ({
            let n = centered_frames(samples, hop_length);
            &&& n >= 1
            &&& (n - 1) * hop_length <= samples < n * hop_length
            &&& kept_frames(n, MelNormalization::WhisperDynamicRange) + 1 == n
            &&& kept_frames(n, MelNormalization::PerUtterance) == n
            &&& kept_frames(n, MelNormalization::Unchanged) == n
        }),
        kept_frames(0, MelNormalization::WhisperDynamicRange) == 0,
{
    let q = samples / hop_length;
    vstd::arithmetic::div_mod::lemma_fundamental_div_mod(samples, hop_length);
    assert(q >= 0 && q * hop_length <= samples < (q + 1) * hop_length) by (nonlinear_arith)
        requires
            samples == hop_length * q + samples % hop_length,
            0 <= samples % hop_length < hop_length,
            samples >= 0,
    ;
}

/// A frame hears what lies around its center: the middle of frame `t` is sample `t` hops from the first,
/// its neighbours are the samples beside that one, and what the next frame hears at a place this one hears
/// a hop later.
pub proof fn law_frames_are_centered(frame: int, i: int, samples: int, n_fft: int, hop: int)
    requires
        samples > 0,
        n_fft >= 0,
        hop > 0,
        frame >= 0,
    ensures
        0 <= frame * hop < samples ==> centered_sample(frame, n_fft / 2, samples, n_fft, hop)
            == Some(frame * hop),
        0 <= frame * hop + i < samples ==> centered_sample(
            frame,
            n_fft / 2 + i,
            samples,
            n_fft,
            hop,
        ) == Some(frame * hop + i),
        centered_sample(0, n_fft / 2 - i, samples, n_fft, hop) == centered_sample(
            0,
            n_fft / 2 + i,
            samples,
            n_fft,
            hop,
        ),
        centered_sample(frame + 1, i, samples, n_fft, hop) == centered_sample(
            frame,
            i + hop,
            samples,
            n_fft,
            hop,
        ),
        centered_sample(frame, i, 0, n_fft, hop) is None,
{
    law_reflection(frame * hop, samples);
    law_reflection(frame * hop + i, samples);
    law_reflection(i, samples);
    assert(0 * hop == 0);
    assert((frame + 1) * hop == frame * hop + hop) by (nonlinear_arith);
}

/// There is a window for every hop for which the samples last, and none more.
pub proof fn law_no_window_is_left_out(samples: int, win_length: int, hop_length: int, frame: int)
    requires
        hop_length > 0,
        frame >= 0,
    ensures
        frame < window_count(samples, win_length, hop_length) <==> frame * hop_length + win_length
            <= samples,
{
    let room = samples - win_length;
    if room >= 0 {
        let q = room / hop_length;
        vstd::arithmetic::div_mod::lemma_fundamental_div_mod(room, hop_length);
        assert(frame * hop_length <= room <==> frame <= q) by (nonlinear_arith)
            requires
                room == hop_length * q + room % hop_length,
                0 <= room % hop_length < hop_length,
                frame >= 0,
        ;
    } else {
        assert(frame * hop_length >= 0) by (nonlinear_arith)
            requires
                frame >= 0,
                hop_length > 0,
        ;
    }
}

/// The first frame hears the first samples, the next one hears at a place what this one hears a hop later,
/// and nothing is heard behind the window or behind the samples.
pub proof fn law_windows_follow_the_samples(frame: int, i: int, samples: int, win: int, hop: int)
    requires
        frame >= 0,
        0 <= i,
    ensures
        i < win && i < samples ==> plain_sample(0, i, samples, win, hop) == Some(i),
        i >= win ==> plain_sample(frame, i, samples, win, hop) is None,
        i + hop < win && i < win ==> plain_sample(frame + 1, i, samples, win, hop) == plain_sample(
            frame,
            i + hop,
            samples,
            win,
            hop,
        ),
        plain_sample(frame, i, samples, win, hop) matches Some(at) ==> {
            &&& at < samples
            &&& at - i == frame * hop
        },
        i < win && frame * hop + i < samples ==> plain_sample(frame, i, samples, win, hop) is Some,
{
    assert(0 * hop == 0);
    assert((frame + 1) * hop == frame * hop + hop) by (nonlinear_arith);
}

/// Half a window of silence stands before the first sample, and as much behind the last one.
pub proof fn law_silence_stands_around(frame: int, i: int, samples: int, win: int, hop: int)
    requires
        frame >= 0,
        0 <= i,
        win >= 0,
        samples >= 0,
    ensures
        2 * i < win - 1 ==> padded_sample(0, i, samples, win, hop) is None,
        i < samples && win / 2 + i < win ==> padded_sample(0, win / 2 + i, samples, win, hop)
            == Some(i),
        i >= win ==> padded_sample(frame, i, samples, win, hop) is None,
        i + hop < win && i < win ==> padded_sample(frame + 1, i, samples, win, hop)
            == padded_sample(frame, i + hop, samples, win, hop),
        padded_sample(frame, i, samples, win, hop) matches Some(at) ==> 0 <= at < samples,
        win % 2 == 0 ==> padded_len(samples, win) == samples + win,
        win % 2 == 1 ==> padded_len(samples, win) == samples + win - 1,
{
    assert(0 * hop == 0);
    assert((frame + 1) * hop == frame * hop + hop) by (nonlinear_arith);
}

/// An entry holds its four bytes, the first one lowest; the entry behind it holds the next four, and a row
/// begins where the one before it ends.
pub proof fn law_entries_hold_their_bytes(bytes: Seq<u8>, n_freqs: int, m: int, k: int)
    requires
        m >= 0,
        0 <= k < n_freqs,
        4 * (m * n_freqs + k) + 8 <= bytes.len(),
    ensures
        ({
            let at = 4 * (m * n_freqs + k);
            let e = filter_entry(bytes, n_freqs, m, k);
            &&& 0 <= e < 0x1_0000_0000
            &&& e % 0x100 == bytes[at]
            &&& e / 0x100 % 0x100 == bytes[at + 1]
            &&& e / 0x1_0000 % 0x100 == bytes[at + 2]
            &&& e / 0x100_0000 == bytes[at + 3]
        }),
        filter_entry(bytes, n_freqs, m, k + 1) == filter_entry(bytes.skip(4), n_freqs, m, k),
        filter_entry(bytes, n_freqs, m + 1, k) == filter_entry(bytes, n_freqs, m, k + n_freqs),
{
    assert(m * n_freqs >= 0) by (nonlinear_arith)
        requires
            m >= 0,
            n_freqs > 0,
    ;
    assert((m + 1) * n_freqs == m * n_freqs + n_freqs) by (nonlinear_arith);
}

} // verus!
