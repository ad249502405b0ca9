//! Long audio in chunks of thirty seconds, and the texts of the chunks as one text.
use vstd::prelude::*;

verus! {

/// Seconds in a chunk.
pub const CHUNK_SECONDS: u32 = 30;

/// A stretch of samples, the end not included.
#[derive(Debug, Clone, Copy, PartialEq, Eq, Structural)]
pub struct Chunk {
    pub start: usize,
    pub end: usize,
}

/// The number of chunks: one for short audio, also where there is none.
pub open spec fn chunk_count(len: int, size: int) -> int {
    if len <= size {
        1
    } else {
        (len + size - 1) / size
    }
}

/// The lesser number.
pub open spec fn lesser(a: int, b: int) -> int {
    if a <= b {
        a
    } else {
        b
    }
}

/// The chunks of audio of a length: full ones one after another, and a last one with the rest.
pub open spec fn chunks_of(len: int, size: int) -> Seq<(int, int)> {
    Seq::new(
        chunk_count(len, size) as nat,
        |i: int| (i * size, lesser(i * size + size, len)),
    )
}

/// Chunks by their bounds.
pub open spec fn chunk_bounds(chunks: Seq<Chunk>) -> Seq<(int, int)> {
    chunks.map_values(|c: Chunk| (c.start as int, c.end as int))
}

/// The samples in a chunk at a sample rate.
pub fn chunk_samples(sample_rate: usize) -> (r: usize)
    ensures
        r == lesser(CHUNK_SECONDS * sample_rate, usize::MAX as int),
        30 * sample_rate <= usize::MAX ==> r == 30 * sample_rate,
{
    let wide: u128 = CHUNK_SECONDS as u128 * sample_rate as u128;
    if wide > usize::MAX as u128 {
        usize::MAX
    } else {
        wide as usize
    }
}

/// Cuts audio into chunks.
pub fn split_into_chunks(len: usize, size: usize) -> (r: Vec<Chunk>)
    requires
        size > 0 || len == 0,
    ensures
        chunk_bounds(r@) == chunks_of(len as int, size as int),
{
    let mut out: Vec<Chunk> = Vec::new();
    if len <= size {
        out.push(Chunk { start: 0, end: len });
        assert(0 * size == 0) by (nonlinear_arith);
        assert(chunk_bounds(out@) =~= chunks_of(len as int, size as int));
        return out;
    }
    let mut offset: usize = 0;
    let ghost mut k: int = 0;
    assert(0 * size == 0) by (nonlinear_arith);
    proof {
        let s = size as int;
        let n = len as int;
        vstd::arithmetic::div_mod::lemma_fundamental_div_mod(n + s - 1, s);
        assert(chunk_count(n, s) > 0) by (nonlinear_arith)
            requires
                n > s > 0,
                chunk_count(n, s) == (n + s - 1) / s,
                n + s - 1 == s * ((n + s - 1) / s) + (n + s - 1) % s,
                (n + s - 1) % s < s,
        ;
    }
    while offset < len
        invariant
            0 < size < len,
            offset == lesser(k * size, len as int),
            0 <= k <= chunk_count(len as int, size as int),
            offset < len ==> k < chunk_count(len as int, size as int),
            out@.len() == k,
            forall|i: int|
                0 <= i < k ==> (#[trigger] out@[i]).start == i * size && out@[i].end == lesser(
                    i * size + size,
                    len as int,
                ),
        decreases len - offset,
    {
        let end: usize = if len - offset <= size {
            len
        } else {
            offset + size
        };
        out.push(Chunk { start: offset, end });
        proof {
            let s = size as int;
            let n = len as int;
            let c = chunk_count(n, s);
            assert((k + 1) * s == k * s + s) by (nonlinear_arith);
            vstd::arithmetic::div_mod::lemma_fundamental_div_mod(n + s - 1, s);
            assert(c * s == s * c) by (nonlinear_arith);
            if (k + 1) * s < n {
                // Where the next chunk starts before the end, it is counted.
                assert(k + 1 < c) by (nonlinear_arith)
                    requires
                        (k + 1) * s < n,
                        n + s - 1 == s * c + (n + s - 1) % s,
                        0 <= (n + s - 1) % s < s,
                        s > 0,
                ;
            }
            k = k + 1;
        }
        offset = end;
    }
    proof {
        let s = size as int;
        let n = len as int;
        let c = chunk_count(n, s);
        vstd::arithmetic::div_mod::lemma_fundamental_div_mod(n + s - 1, s);
        assert(k >= c) by (nonlinear_arith)
            requires
                k * s >= n,
                n + s - 1 == s * c + (n + s - 1) % s,
                0 <= (n + s - 1) % s < s,
                s > 0,
        ;
        assert(chunk_bounds(out@) =~= chunks_of(n, s));
    }
    out
}

/// The chunks tile the audio: the first one starts at its beginning, each one starts where the one
/// before it ends, the last one ends at its end, none is longer than asked for, and only the last one
/// may be shorter.
pub proof fn law_chunks_tile(len: int, size: int)
    requires
        0 <= len,
        size > 0,
    ensures
        chunks_of(len, size).len() >= 1,
        chunks_of(len, size)[0].0 == 0,
        chunks_of(len, size).last().1 == len,
        forall|i: int|
            0 <= i < chunks_of(len, size).len() - 1 ==> (#[trigger] chunks_of(len, size)[i]).1
                == chunks_of(len, size)[i + 1].0 && chunks_of(len, size)[i].1 - chunks_of(
                len,
                size,
            )[i].0 == size,
        forall|i: int|
            0 <= i < chunks_of(len, size).len() ==> (#[trigger] chunks_of(len, size)[i]).0
                <= chunks_of(len, size)[i].1 <= chunks_of(len, size)[i].0 + size,
        len > 0 ==> forall|i: int|
            0 <= i < chunks_of(len, size).len() ==> (#[trigger] chunks_of(len, size)[i]).0
                < chunks_of(len, size)[i].1,
{
    let c = chunk_count(len, size);
    assert(0 * size == 0) by (nonlinear_arith);
    if len > size {
        vstd::arithmetic::div_mod::lemma_fundamental_div_mod(len + size - 1, size);
        let q = (len + size - 1) / size;
        let m = (len + size - 1) % size;
        assert(q >= 2) by (nonlinear_arith)
            requires
                len + size - 1 == size * q + m,
                0 <= m < size,
                len > size,
        ;
        assert((q - 1) * size < len <= q * size) by (nonlinear_arith)
            requires
                len + size - 1 == size * q + m,
                0 <= m < size,
        ;
        assert((q - 1) * size + size == q * size) by (nonlinear_arith);
        let cs = chunks_of(len, size);
        assert forall|i: int| 0 <= i < cs.len() - 1 implies (#[trigger] cs[i]).1 == cs[i + 1].0
            && cs[i].1 - cs[i].0 == size by {
            assert((i + 1) * size == i * size + size) by (nonlinear_arith);
            assert((i + 1) * size <= (q - 1) * size) by (nonlinear_arith)
                requires
                    i + 1 <= q - 1,
                    size > 0,
            ;
        }
        assert forall|i: int| 0 <= i < cs.len() implies (#[trigger] cs[i]).0 < cs[i].1 && cs[i].1
            <= cs[i].0 + size by {
            assert(i * size <= (q - 1) * size) by (nonlinear_arith)
                requires
                    i <= q - 1,
                    size > 0,
            ;
        }
    }
}

// ---------------------------------------------------------------------------
// GigaAM
// ---------------------------------------------------------------------------

/// A stretch of samples with its text.
pub struct SampleSegment {
    pub start: usize,
    pub end: usize,
    pub text: String,
}

/// A text with the stretches that it comes from.
pub struct Transcript {
    pub text: String,
    pub segments: Vec<SampleSegment>,
}

/// Texts by their characters.
pub open spec fn views(texts: Seq<String>) -> Seq<Seq<char>> {
    texts.map_values(|t: String| t@)
}

/// Segments by their bounds and characters.
pub open spec fn segment_views(segments: Seq<SampleSegment>) -> Seq<(int, int, Seq<char>)> {
    segments.map_values(|s: SampleSegment| (s.start as int, s.end as int, s.text@))
}

/// Texts that are not empty, with spaces between them.
pub open spec fn spaced(texts: Seq<Seq<char>>) -> Seq<char>
    decreases texts.len(),
{
    if texts.len() == 0 {
        Seq::empty()
    } else {
        let before = spaced(texts.drop_last());
        if texts.last().len() == 0 {
            before
        } else if before.len() == 0 {
            texts.last()
        } else {
            before + seq![' '] + texts.last()
        }
    }
}

/// The chunks whose texts are not empty, with their texts.
pub open spec fn spoken(chunks: Seq<(int, int)>, texts: Seq<Seq<char>>) -> Seq<
    (int, int, Seq<char>),
>
    decreases texts.len(),
{
    if texts.len() == 0 {
        Seq::empty()
    } else {
        let before = spoken(chunks, texts.drop_last());
        if texts.last().len() == 0 {
            before
        } else {
            before.push(
                (chunks[texts.len() - 1].0, chunks[texts.len() - 1].1, texts.last()),
            )
        }
    }
}

/// The segments of a recording: one without a text of its own for audio of one chunk, and one for each
/// chunk that gave a text for longer audio.
pub open spec fn gigaam_segments(chunks: Seq<(int, int)>, texts: Seq<Seq<char>>) -> Seq<
    (int, int, Seq<char>),
> {
    if chunks.len() == 1 {
        seq![(chunks[0].0, chunks[0].1, Seq::<char>::empty())]
    } else {
        spoken(chunks, texts)
    }
}

/// Puts the texts of the chunks of one recording together. Audio of one chunk has one segment without
/// a text of its own; longer audio has one for each chunk that gave a text.
pub fn join_gigaam(chunks: &Vec<Chunk>, texts: Vec<String>) -> (r: Transcript)
    requires
        chunks@.len() == texts@.len(),
        chunks@.len() >= 1,
    ensures
        r.text@ == spaced(views(texts@)),
        segment_views(r.segments@) == gigaam_segments(chunk_bounds(chunks@), views(texts@)),
{
    let n: usize = texts.len();
    let mut all_text: String = String::new();
    let mut segments: Vec<SampleSegment> = Vec::new();
    let mut i: usize = 0;
    assert(views(texts@).take(0).len() == 0);
    assert(segment_views(segments@) =~= Seq::<(int, int, Seq<char>)>::empty());
    while i < n
        invariant
            i <= n == texts@.len(),
            chunks@.len() == n,
            all_text@ == spaced(views(texts@).take(i as int)),
            segment_views(segments@) == spoken(
                chunk_bounds(chunks@),
                views(texts@).take(i as int),
            ),
        decreases n - i,
    {
        let ghost before = segments@;
        proof {
            let v = views(texts@);
            assert(v.take(i + 1).drop_last() =~= v.take(i as int));
            assert(v.take(i + 1).last() == texts@[i as int]@);
        }
        let t = texts[i].as_str();
        if !t.is_empty() {
            if !all_text.as_str().is_empty() {
                all_text.push(' ');
                all_text.push_str(t);
                assert(all_text@ =~= spaced(views(texts@).take(i as int)) + seq![' '] + t@);
            } else {
                all_text.push_str(t);
                assert(all_text@ =~= t@);
            }
            let s = SampleSegment {
                start: chunks[i].start,
                end: chunks[i].end,
                text: texts[i].clone(),
            };
            segments.push(s);
            assert(segment_views(segments@) =~= segment_views(before).push(
                (chunks@[i as int].start as int, chunks@[i as int].end as int, t@),
            ));
        }
        i += 1;
    }
    assert(views(texts@).take(n as int) =~= views(texts@));
    if chunks.len() == 1 {
        let s = SampleSegment {
            start: chunks[0].start,
            end: chunks[0].end,
            text: String::new(),
        };
        let ghost kept = (s.start as int, s.end as int, s.text@);
        segments = Vec::new();
        segments.push(s);
        assert(segment_views(segments@) =~= seq![kept]);
        assert(kept.2 =~= Seq::<char>::empty());
    }
    Transcript { text: all_text, segments }
}

/// Chunks without a text leave no trace in the joined text.
pub proof fn law_silent_chunks_leave_no_trace(a: Seq<Seq<char>>, b: Seq<Seq<char>>)
    ensures
        spaced(a + seq![Seq::<char>::empty()] + b) == spaced(a + b),
    decreases b.len(),
{
    let with = a + seq![Seq::<char>::empty()] + b;
    let without = a + b;
    if b.len() == 0 {
        assert(with.drop_last() =~= a);
        assert(without =~= a);
    } else {
        law_silent_chunks_leave_no_trace(a, b.drop_last());
        assert(with.drop_last() =~= a + seq![Seq::<char>::empty()] + b.drop_last());
        assert(without.drop_last() =~= a + b.drop_last());
        assert(with.last() == without.last());
    }
}

/// The texts of a recording stand in its order: one more chunk leaves the text so far in front, and adds its
/// own text behind a space, or nothing where it has none. No chunks have no text.
pub proof fn law_spoken_texts_stand_in_order(a: Seq<Seq<char>>, t: Seq<char>)
    ensures
        t.len() > 0 && spaced(a).len() > 0 ==> spaced(a.push(t)) == spaced(a) + seq![' '] + t,
        t.len() > 0 && spaced(a).len() == 0 ==> spaced(a.push(t)) == t,
        t.len() == 0 ==> spaced(a.push(t)) == spaced(a),
        spaced(Seq::<Seq<char>>::empty()).len() == 0,
        spaced(seq![t]) == t,
{
    assert(a.push(t).drop_last() =~= a);
    assert(seq![t].drop_last() =~= Seq::<Seq<char>>::empty());
    assert(spaced(seq![t].drop_last()) =~= Seq::<char>::empty());
    if t.len() == 0 {
        assert(t =~= Seq::<char>::empty());
    }
}

/// The segments of a recording of several chunks are those of its chunks with a text, in order, each with
/// the bounds and the text of its own chunk: one more chunk leaves those before it as they are.
pub proof fn law_spoken_segments_keep_their_chunks(
    chunks: Seq<(int, int)>,
    texts: Seq<Seq<char>>,
    c: (int, int),
    t: Seq<char>,
)
    requires
        chunks.len() == texts.len(),
    ensures
        t.len() > 0 ==> spoken(chunks.push(c), texts.push(t)) == spoken(chunks, texts).push(
            (c.0, c.1, t),
        ),
        t.len() == 0 ==> spoken(chunks.push(c), texts.push(t)) == spoken(chunks, texts),
        spoken(Seq::<(int, int)>::empty(), Seq::<Seq<char>>::empty()).len() == 0,
        chunks.len() >= 1 ==> gigaam_segments(chunks.push(c), texts.push(t)) == spoken(
            chunks.push(c),
            texts.push(t),
        ),
        gigaam_segments(seq![c], seq![t]).len() == 1,
        gigaam_segments(seq![c], seq![t])[0].0 == c.0,
        gigaam_segments(seq![c], seq![t])[0].1 == c.1,
        gigaam_segments(seq![c], seq![t])[0].2.len() == 0,
{
    assert(texts.push(t).drop_last() =~= texts);
    lemma_spoken_reads_its_chunks(chunks.push(c), chunks, texts);
}

/// Chunks without a text of their own are not looked at.
proof fn lemma_spoken_reads_its_chunks(
    more: Seq<(int, int)>,
    chunks: Seq<(int, int)>,
    texts: Seq<Seq<char>>,
)
    requires
        texts.len() <= chunks.len() <= more.len(),
        forall|i: int| 0 <= i < chunks.len() ==> #[trigger] more[i] == chunks[i],
    ensures
        spoken(more, texts) == spoken(chunks, texts),
    decreases texts.len(),
{
    if texts.len() > 0 {
        lemma_spoken_reads_its_chunks(more, chunks, texts.drop_last());
        assert(more[texts.len() - 1] == chunks[texts.len() - 1]);
    }
}

// ---------------------------------------------------------------------------
// Whisper
// ---------------------------------------------------------------------------

/// Texts with a space between each one and what comes before it, where that is not empty.
pub open spec fn appended(texts: Seq<Seq<char>>) -> Seq<char>
    decreases texts.len(),
{
    if texts.len() == 0 {
        Seq::empty()
    } else {
        let before = appended(texts.drop_last());
        if before.len() == 0 {
            texts.last()
        } else {
            before + seq![' '] + texts.last()
        }
    }
}

/// All chunks with their texts.
pub open spec fn paired(chunks: Seq<(int, int)>, texts: Seq<Seq<char>>) -> Seq<
    (int, int, Seq<char>),
> {
    Seq::new(texts.len(), |i: int| (chunks[i].0, chunks[i].1, texts[i]))
}

/// The texts of a recording stand in its order: one more chunk leaves the text so far in front and adds its
/// own text behind a space, without one where there is no text so far.
pub proof fn law_texts_stand_in_order(a: Seq<Seq<char>>, t: Seq<char>)
    ensures
        appended(a).len() > 0 ==> appended(a.push(t)) == appended(a) + seq![' '] + t,
        appended(a).len() == 0 ==> appended(a.push(t)) == t,
        appended(Seq::<Seq<char>>::empty()).len() == 0,
        appended(seq![t]) == t,
{
    assert(a.push(t).drop_last() =~= a);
    assert(seq![t].drop_last() =~= Seq::<Seq<char>>::empty());
    assert(appended(seq![t].drop_last()) =~= Seq::<char>::empty());
}

/// Later chunks do not touch the text of earlier ones: it stays in front.
pub proof fn law_later_chunks_come_behind(a: Seq<Seq<char>>, b: Seq<Seq<char>>)
    ensures
        appended(a + b).len() >= appended(a).len(),
        appended(a + b).take(appended(a).len() as int) == appended(a),
        spaced(a + b).len() >= spaced(a).len(),
        spaced(a + b).take(spaced(a).len() as int) == spaced(a),
    decreases b.len(),
{
    if b.len() == 0 {
        assert(a + b =~= a);
        assert(appended(a).take(appended(a).len() as int) =~= appended(a));
        assert(spaced(a).take(spaced(a).len() as int) =~= spaced(a));
    } else {
        law_later_chunks_come_behind(a, b.drop_last());
        let before = a + b.drop_last();
        assert(a + b =~= before.push(b.last()));
        law_texts_stand_in_order(before, b.last());
        law_spoken_texts_stand_in_order(before, b.last());
        let n = appended(a).len() as int;
        let m = spaced(a).len() as int;
        assert(appended(a + b).take(n) =~= appended(before).take(n));
        assert(spaced(a + b).take(m) =~= spaced(before).take(m));
    }
}

/// Each chunk has a segment of its own, at its place in the order, with its bounds and its text.
pub proof fn law_segments_keep_their_chunks(
    chunks: Seq<(int, int)>,
    texts: Seq<Seq<char>>,
    i: int,
)
    requires
        chunks.len() == texts.len(),
        0 <= i < chunks.len(),
    ensures
        paired(chunks, texts).len() == chunks.len(),
        paired(chunks, texts)[i].0 == chunks[i].0,
        paired(chunks, texts)[i].1 == chunks[i].1,
        paired(chunks, texts)[i].2 == texts[i],
{
}

/// Puts the texts of the chunks of one recording together. Each chunk has a segment.
pub fn join_whisper(chunks: &Vec<Chunk>, texts: Vec<String>) -> (r: Transcript)
    requires
        chunks@.len() == texts@.len(),
    ensures
        r.text@ == appended(views(texts@)),
        segment_views(r.segments@) == paired(chunk_bounds(chunks@), views(texts@)),
        r.segments@.len() == chunks@.len(),
        forall|i: int|
            0 <= i < chunks@.len() ==> (#[trigger] r.segments@[i]).start == chunks@[i].start
                && r.segments@[i].end == chunks@[i].end && r.segments@[i].text@ == texts@[i]@,
{
    let n: usize = texts.len();
    let mut all_text: String = String::new();
    let mut segments: Vec<SampleSegment> = Vec::new();
    let mut i: usize = 0;
    assert(views(texts@).take(0).len() == 0);
    while i < n
        invariant
            i <= n == texts@.len(),
            chunks@.len() == n,
            all_text@ == appended(views(texts@).take(i as int)),
            segments@.len() == i,
            forall|j: int|
                0 <= j < i ==> (#[trigger] segments@[j]).start == chunks@[j].start
                    && segments@[j].end == chunks@[j].end && segments@[j].text@ == texts@[j]@,
        decreases n - i,
    {
        proof {
            let v = views(texts@);
            assert(v.take(i + 1).drop_last() =~= v.take(i as int));
            assert(v.take(i + 1).last() == texts@[i as int]@);
        }
        let t = texts[i].as_str();
        if !all_text.as_str().is_empty() {
            all_text.push(' ');
            all_text.push_str(t);
            assert(all_text@ =~= appended(views(texts@).take(i as int)) + seq![' '] + t@);
        } else {
            all_text.push_str(t);
            assert(all_text@ =~= t@);
        }
        segments.push(
            SampleSegment { start: chunks[i].start, end: chunks[i].end, text: texts[i].clone() },
        );
        i += 1;
    }
    assert(views(texts@).take(n as int) =~= views(texts@));
    assert(segment_views(segments@) =~= paired(chunk_bounds(chunks@), views(texts@)));
    Transcript { text: all_text, segments }
}

/// The seed of the random numbers for a chunk.
pub fn chunk_seed(index: usize) -> (r: u64)
    requires
        index <= u64::MAX - 42,
    ensures
        r == 42 + index,
{
    42 + index as u64
}

/// How audio is brought to a length: how many samples are kept, and how many zeros follow.
pub fn pad_or_trim(len: usize, target_len: usize) -> (r: (usize, usize))
    ensures
        r.0 == lesser(len as int, target_len as int),
        r.0 + r.1 == target_len,
{
    if len >= target_len {
        (target_len, 0)
    } else {
        (len, target_len - len)
    }
}

} // verus!
