//! Greedy decoding of a connectionist temporal classification.
//!
//! The best class of each frame is taken, runs of one class count once, blanks are dropped, and what
//! is left is spelled with the pieces of a vocabulary.
use crate::attention::under;
use crate::chunks::{
    chunk_bounds, gigaam_segments, join_gigaam, segment_views, spaced, views, Chunk, Transcript,
};
use crate::tensor::{
    array, broadcast_add, broadcast_add_refused, broadcast_add_result, cast, cast_refused, cast_to,
    conv1d, conv1d_refused, conv1d_result, drop_batch, exceeds, exchanged, extent, is_greatest,
    is_index, is_number, is_permuted, lemma_offset_of_three, lemma_volume_vector, log_softmax_last,
    log_softmax_refused, log_softmax_result, offset, one, rank_of, reshape_refused, reshaped,
    row_argmax, row_argmax_refused, row_argmax_result, row_array, single, single_precision,
    swap_axes, tensor_dims, without_batch, Array, Sliding,
};
use crate::text::{
    chars_of, law_front_loses_white_space_alone, number_of, parse_number, trim_start, trimmed_start,
    white_space,
};
use crate::weights::{narrowed, weight_loaded, weight_refused, WeightStore};
use candle_core::{Error, Tensor};
use std::collections::HashMap;
use vstd::prelude::*;

verus! {

broadcast use vstd::std_specs::hash::group_hash_axioms;

/// What a file of pieces in JSON holds: keys with pieces, if it is one object of texts.
pub uninterp spec fn piece_entries(json: Seq<char>) -> Option<Seq<(Seq<char>, Seq<char>)>>;

/// Keys with pieces, by their characters.
pub open spec fn piece_views(entries: Seq<(String, String)>) -> Seq<(Seq<char>, Seq<char>)> {
    entries.map_values(|e: (String, String)| (e.0@, e.1@))
}

/// `serde_json::from_str` into a map from texts to texts, in the order of the keys. No key comes
/// twice.
#[verifier::external_body]
fn read_pieces(json: &str) -> (r: Result<Vec<(String, String)>, serde_json::Error>)
    ensures
        match r {
            Ok(entries) => piece_entries(json@) == Some(piece_views(entries@)),
            Err(_) => piece_entries(json@) is None,
        },
        r matches Ok(entries) ==> forall|i: int, j: int|
            0 <= i < j < entries@.len() ==> (#[trigger] entries@[i]).0@ != (
            #[trigger] entries@[j]).0@,
{
    serde_json::from_str::<std::collections::BTreeMap<String, String>>(json).map(
        |m| m.into_iter().collect(),
    )
}

/// The number of a class, where the key spells one.
pub open spec fn class_of(key: Seq<char>) -> Option<nat> {
    match number_of(key) {
        Some(n) if n <= usize::MAX => Some(n),
        _ => None,
    }
}

/// The pieces by their classes: those whose keys spell numbers, later ones before earlier ones.
pub open spec fn piece_map(entries: Seq<(Seq<char>, Seq<char>)>) -> Map<nat, Seq<char>>
    decreases entries.len(),
{
    if entries.len() == 0 {
        Map::empty()
    } else {
        let before = piece_map(entries.drop_last());
        match class_of(entries.last().0) {
            Some(n) => before.insert(n, entries.last().1),
            None => before,
        }
    }
}

/// A greedy decoder.
pub struct CtcGreedyDecoder {
    /// The piece of each class.
    pub vocab: HashMap<usize, String>,
    /// The blank class.
    pub blank_id: usize,
}

/// A vocabulary holds pieces by their classes.
pub open spec fn spells(vocab: Map<usize, String>, pieces: Map<nat, Seq<char>>) -> bool {
    &&& forall|n: usize| #[trigger] vocab.contains_key(n) == pieces.contains_key(n as nat)
    &&& forall|n: usize| #[trigger]
        vocab.contains_key(n) ==> vocab[n]@ == pieces[n as nat]
}

/// The vocabulary is not an object of texts.
#[derive(Debug, Clone, Copy, PartialEq, Eq, Structural)]
pub struct MalformedVocabulary;

/// Frame `i` starts a run of a class other than blank.
pub open spec fn starts_token(ids: Seq<u32>, blank: u32, i: int) -> bool {
    ids[i] != blank && (i == 0 || ids[i - 1] != ids[i])
}

/// The classes that are left: the first of each run, without blanks.
pub open spec fn collapsed(ids: Seq<u32>, blank: u32) -> Seq<u32>
    decreases ids.len(),
{
    if ids.len() == 0 {
        Seq::empty()
    } else {
        let before = collapsed(ids.drop_last(), blank);
        if starts_token(ids, blank, ids.len() - 1) {
            before.push(ids.last())
        } else {
            before
        }
    }
}

/// Classes as machine numbers.
pub open spec fn widened_ids(ids: Seq<u32>) -> Seq<usize> {
    ids.map_values(|k: u32| k as usize)
}

/// No blank is left.
pub proof fn law_no_blank_is_left(ids: Seq<u32>, blank: u32)
    ensures
        forall|i: int|
            0 <= i < collapsed(ids, blank).len() ==> #[trigger] collapsed(ids, blank)[i] != blank,
        collapsed(ids, blank).len() <= ids.len(),
    decreases ids.len(),
{
    if ids.len() > 0 {
        law_no_blank_is_left(ids.drop_last(), blank);
    }
}

/// It does not matter how long a class is held: a frame that repeats the one before it changes
/// nothing.
pub proof fn law_held_frames_count_once(a: Seq<u32>, t: u32, b: Seq<u32>, blank: u32)
    ensures
        collapsed(a + seq![t, t] + b, blank) == collapsed(a + seq![t] + b, blank),
    decreases b.len(),
{
    let twice = a + seq![t, t] + b;
    let once = a + seq![t] + b;
    if b.len() == 0 {
        assert(twice.drop_last() =~= once);
        assert(twice.last() == t && twice[twice.len() - 2] == t);
    } else {
        law_held_frames_count_once(a, t, b.drop_last(), blank);
        assert(twice.drop_last() =~= a + seq![t, t] + b.drop_last());
        assert(once.drop_last() =~= a + seq![t] + b.drop_last());
        assert(twice.last() == once.last());
        assert(twice[twice.len() - 2] == once[once.len() - 2]);
    }
}

/// Frames count in order: one more frame adds its class at the end, unless it is blank or the frame before it
/// has the same class.
pub proof fn law_new_classes_are_appended(ids: Seq<u32>, t: u32, blank: u32)
    ensures
        t != blank && ids.len() == 0 ==> collapsed(ids.push(t), blank) == seq![t],
        t != blank && ids.len() > 0 && ids[ids.len() - 1] != t ==> collapsed(ids.push(t), blank)
            == collapsed(ids, blank).push(t),
        t == blank ==> collapsed(ids.push(t), blank) == collapsed(ids, blank),
        ids.len() > 0 && ids[ids.len() - 1] == t ==> collapsed(ids.push(t), blank) == collapsed(
            ids,
            blank,
        ),
        collapsed(Seq::<u32>::empty(), blank).len() == 0,
{
    let more = ids.push(t);
    assert(more.drop_last() =~= ids);
    if ids.len() > 0 {
        assert(more[more.len() - 2] == ids[ids.len() - 1]);
    } else {
        assert(collapsed(ids, blank).push(t) =~= seq![t]);
    }
}

/// The class of each frame has the greatest score of its own row: none of the row is greater.
pub proof fn law_frames_take_their_best_class(scores: Array, best: Seq<u32>, i: int, j: int)
    requires
        row_argmax_result(scores, best),
        scores.kind == single(),
        scores.dims.len() == 2,
        scores.elems.len() == scores.dims[0] * scores.dims[1],
        scores.dims[1] <= u32::MAX,
        best.len() == scores.dims[0],
        0 <= i < scores.dims[0],
        0 <= j < scores.dims[1],
        forall|k: int|
            0 <= k < scores.elems.len() ==> is_number(single(), #[trigger] scores.elems[k]),
    ensures
        best[i] < scores.dims[1],
        rank_of(single(), scores.elems[i * scores.dims[1] + j]) <= rank_of(
            single(),
            scores.elems[i * scores.dims[1] + best[i]],
        ),
{
    let n = scores.dims[0] as int;
    let v = scores.dims[1] as int;
    assert(scores.dims.skip(1) =~= seq![scores.dims[1]]);
    lemma_volume_vector(scores.dims[1]);
    assert(0 <= i * v && i * v + v <= n * v) by (nonlinear_arith)
        requires
            0 <= i < n,
            v >= 0,
    ;
    let row = row_array(scores, i);
    assert(is_greatest(row, best[i]));
    assert(row.elems =~= scores.elems.subrange(i * v, i * v + v));
    assert forall|k: int| 0 <= k < row.elems.len() implies is_number(
        single(),
        #[trigger] row.elems[k],
    ) by {
        assert(row.elems[k] == scores.elems[i * v + k]);
    }
    assert(!exceeds(single(), row.elems[j], row.elems[best[i] as int]));
    assert(row.elems[j] == scores.elems[i * v + j]);
    assert(row.elems[best[i] as int] == scores.elems[i * v + best[i]]);
}

/// A blank between two frames of one class keeps them apart.
pub proof fn law_blank_separates(t: u32, blank: u32)
    requires
        t != blank,
    ensures
        collapsed(seq![t, blank, t], blank) == seq![t, t],
{
    reveal_with_fuel(collapsed, 4);
    let s = seq![t, blank, t];
    assert(s.drop_last() =~= seq![t, blank]);
    assert(s.drop_last().drop_last() =~= seq![t]);
    assert(s.drop_last().drop_last().drop_last() =~= Seq::<u32>::empty());
    assert(collapsed(s, blank) =~= seq![t, t]);
}

/// The pieces of classes one after another; a class without a piece adds nothing.
pub open spec fn spelled(vocab: Map<usize, String>, ids: Seq<usize>) -> Seq<char>
    decreases ids.len(),
{
    if ids.len() == 0 {
        Seq::empty()
    } else {
        let before = spelled(vocab, ids.drop_last());
        if vocab.contains_key(ids.last()) {
            before + vocab[ids.last()]@
        } else {
            before
        }
    }
}

/// The mark that stands for a space in pieces.
pub open spec fn space_mark() -> char {
    '▁'
}

/// Marks turned into spaces.
pub open spec fn unmarked(s: Seq<char>) -> Seq<char> {
    s.map_values(
        |c: char|
            if c == space_mark() {
                ' '
            } else {
                c
            },
    )
}

/// The text of classes.
pub open spec fn piece_text(vocab: Map<usize, String>, ids: Seq<usize>) -> Seq<char> {
    trimmed_start(unmarked(spelled(vocab, ids)))
}

/// Pieces stand in the order of their classes: one more class adds its own piece at the end, or nothing
/// where it has none.
pub proof fn law_pieces_stand_in_order(vocab: Map<usize, String>, ids: Seq<usize>, k: usize)
    ensures
        vocab.contains_key(k) ==> spelled(vocab, ids.push(k)) == spelled(vocab, ids) + vocab[k]@,
        !vocab.contains_key(k) ==> spelled(vocab, ids.push(k)) == spelled(vocab, ids),
        spelled(vocab, Seq::<usize>::empty()).len() == 0,
{
    assert(ids.push(k).drop_last() =~= ids);
}

/// The text is what the pieces spell, with a space for each mark, from the first character on that is no
/// white space. No mark is left.
pub proof fn law_marks_become_spaces(vocab: Map<usize, String>, ids: Seq<usize>)
    ensures
        ({
            let pieces = spelled(vocab, ids);
            let text = piece_text(vocab, ids);
            let cut = pieces.len() - text.len();
            &&& 0 <= cut
            &&& forall|i: int|
                0 <= i < text.len() ==> #[trigger] text[i] == if pieces[cut + i] == '▁' {
                    ' '
                } else {
                    pieces[cut + i]
                }
            &&& forall|i: int| 0 <= i < text.len() ==> #[trigger] text[i] != '▁'
            &&& forall|i: int|
                0 <= i < cut ==> (#[trigger] pieces[i]) == '▁' || white_space(pieces[i])
            &&& text.len() > 0 ==> !white_space(text[0])
        }),
{
    let pieces = spelled(vocab, ids);
    let spaced = unmarked(pieces);
    law_front_loses_white_space_alone(spaced);
    let text = piece_text(vocab, ids);
    let cut = pieces.len() - text.len();
    assert forall|i: int| 0 <= i < text.len() implies #[trigger] text[i] == if pieces[cut + i] == '▁' {
        ' '
    } else {
        pieces[cut + i]
    } by {
        assert(text[i] == spaced[cut + i]);
    }
    assert forall|i: int| 0 <= i < cut implies (#[trigger] pieces[i]) == '▁' || white_space(
        pieces[i],
    ) by {
        assert(white_space(spaced[i]));
    }
}

/// A later piece replaces an earlier one of the same class, and leaves all others; keys that are no numbers
/// are passed over.
pub proof fn law_later_pieces_replace(
    entries: Seq<(Seq<char>, Seq<char>)>,
    key: Seq<char>,
    piece: Seq<char>,
    n: nat,
)
    ensures
        class_of(key) == Some(n) ==> {
            &&& piece_map(entries.push((key, piece))).contains_key(n)
            &&& piece_map(entries.push((key, piece)))[n] == piece
        },
        class_of(key) != Some(n) ==> {
            &&& piece_map(entries.push((key, piece))).contains_key(n) == piece_map(
                entries,
            ).contains_key(n)
            &&& piece_map(entries).contains_key(n) ==> piece_map(entries.push((key, piece)))[n]
                == piece_map(entries)[n]
        },
{
    assert(entries.push((key, piece)).drop_last() =~= entries);
}

impl CtcGreedyDecoder {
    /// A decoder with pieces by keys; keys that are not numbers are passed over.
    pub fn from_entries(entries: &Vec<(String, String)>, blank_id: usize) -> (r: CtcGreedyDecoder)
        ensures
            spells(r.vocab@, piece_map(piece_views(entries@))),
            r.blank_id == blank_id,
    {
        let mut vocab: HashMap<usize, String> = HashMap::new();
        let mut i: usize = 0;
        let ghost all = piece_views(entries@);
        assert(all.take(0).len() == 0);
        while i < entries.len()
            invariant
                i <= entries@.len(),
                all == piece_views(entries@),
                spells(vocab@, piece_map(all.take(i as int))),
            decreases entries@.len() - i,
        {
            proof {
                assert(all.take(i + 1).drop_last() =~= all.take(i as int));
                assert(all.take(i + 1).last() == all[i as int]);
            }
            let e = &entries[i];
            if let Some(n) = parse_number(e.0.as_str(), usize::MAX as u64) {
                vocab.insert(n as usize, e.1.clone());
            }
            i += 1;
        }
        assert(all.take(all.len() as int) =~= all);
        CtcGreedyDecoder { vocab, blank_id }
    }

    /// A decoder with the pieces of a file in JSON.
    pub fn from_vocab_file(json: &str, blank_id: usize) -> (r: Result<
        CtcGreedyDecoder,
        MalformedVocabulary,
    >)
        ensures
            match piece_entries(json@) {
                Some(entries) => r matches Ok(d) && d.blank_id == blank_id && spells(
                    d.vocab@,
                    piece_map(entries),
                ),
                None => r is Err,
            },
    {
        match read_pieces(json) {
            Ok(entries) => Ok(CtcGreedyDecoder::from_entries(&entries, blank_id)),
            Err(_) => Err(MalformedVocabulary),
        }
    }

    /// Drops blanks and repetitions.
    pub fn collapse(&self, ids: &Vec<u32>) -> (r: Vec<usize>)
        ensures
            r@ == widened_ids(collapsed(ids@, self.blank_id as u32)),
    {
        let blank = self.blank_id as u32;
        let mut out: Vec<usize> = Vec::new();
        let mut prev = blank;
        let mut i: usize = 0;
        assert(ids@.take(0).len() == 0);
        assert(out@ =~= widened_ids(collapsed(ids@.take(0), blank)));
        while i < ids.len()
            invariant
                i <= ids@.len(),
                prev == if i == 0 {
                    blank
                } else {
                    ids@[i - 1]
                },
                out@ == widened_ids(collapsed(ids@.take(i as int), blank)),
            decreases ids@.len() - i,
        {
            let tok = ids[i];
            let ghost before = collapsed(ids@.take(i as int), blank);
            proof {
                let longer = ids@.take(i + 1);
                assert(longer.drop_last() =~= ids@.take(i as int));
                assert(longer.last() == tok);
                if i > 0 {
                    assert(longer[i - 1] == ids@[i - 1]);
                }
            }
            if tok != blank && (tok != prev || prev == blank) {
                out.push(tok as usize);
                assert(out@ =~= widened_ids(before.push(tok)));
            }
            prev = tok;
            i += 1;
        }
        assert(ids@.take(ids@.len() as int) =~= ids@);
        out
    }

    /// The text for the scores of each frame, one row each.
    pub fn decode(&self, log_probs: &Tensor) -> (r: Result<String, Error>)
        ensures
            r is Ok ==> tensor_dims(*log_probs).len() == 2,
            r matches Ok(text) ==> exists|best: Seq<u32>| #[trigger]
                row_argmax_result(array(*log_probs), best) && text@ == piece_text(
                    self.vocab@,
                    widened_ids(collapsed(best, self.blank_id as u32)),
                ),
            r is Err ==> row_argmax_refused(array(*log_probs)),
    {
        let best = row_argmax(log_probs)?;
        let ids = self.collapse(&best);
        let text = self.decode_ids(ids.as_slice());
        assert(row_argmax_result(array(*log_probs), best@));
        Ok(text)
    }

    /// The text of classes.
    pub fn decode_ids(&self, ids: &[usize]) -> (r: String)
        ensures
            r@ == piece_text(self.vocab@, ids@),
    {
        let mut joined: String = String::new();
        let mut i: usize = 0;
        let n: usize = ids.len();
        assert(ids@.take(0).len() == 0);
        while i < n
            invariant
                i <= n == ids@.len(),
                joined@ == spelled(self.vocab@, ids@.take(i as int)),
            decreases n - i,
        {
            proof {
                assert(ids@.take(i + 1).drop_last() =~= ids@.take(i as int));
                assert(ids@.take(i + 1).last() == ids@[i as int]);
            }
            if let Some(piece) = self.vocab.get(&ids[i]) {
                joined.push_str(piece.as_str());
            }
            i += 1;
        }
        assert(ids@.take(n as int) =~= ids@);
        let chars = chars_of(joined.as_str());
        let mut text: String = String::new();
        let mut k: usize = 0;
        assert(text@ =~= unmarked(chars@.take(0)));
        while k < chars.len()
            invariant
                k <= chars@.len(),
                text@ == unmarked(chars@.take(k as int)),
            decreases chars@.len() - k,
        {
            let c = chars[k];
            text.push(
                if c == '▁' {
                    ' '
                } else {
                    c
                },
            );
            assert(text@ =~= unmarked(chars@.take(k + 1)));
            k += 1;
        }
        assert(chars@.take(chars@.len() as int) =~= chars@);
        trim_start(text.as_str())
    }

    /// The number of pieces.
    pub fn vocab_size(&self) -> (r: usize)
        ensures
            r == self.vocab@.len(),
    {
        self.vocab.len()
    }
}

// ---------------------------------------------------------------------------
// The head
// ---------------------------------------------------------------------------

/// A linear map from frames to the scores of classes.
pub struct CtcHead {
    /// Kernels of one frame by class.
    pub weight: Tensor,
    /// One number for each class.
    pub bias: Tensor,
    /// The number of classes, the blank one among them.
    pub num_classes: usize,
}

/// The intermediate results of the head.
pub struct HeadTrace {
    pub mapped: Array,
    pub biased: Array,
    pub turned: Array,
}

/// The head, with its intermediate results.
pub open spec fn head_steps(h: CtcHead, x: Array, t: HeadTrace, r: Array) -> bool {
    &&& conv1d_result(
        x,
        array(h.weight),
        Sliding { padding: 0, stride: 1, groups: 1 },
        t.mapped,
    )
    &&& broadcast_add_result(
        t.mapped,
        under(array(h.bias), seq![1usize, array(h.bias).dims[0], 1]),
        t.biased,
    )
    &&& is_permuted(t.biased, exchanged(t.biased.dims.len(), 1, 2), t.turned)
    &&& log_softmax_result(t.turned, r)
}

/// `r` is what the head gave for `x`.
pub open spec fn head_result(h: CtcHead, x: Array, r: Array) -> bool {
    exists|t: HeadTrace| #[trigger] head_steps(h, x, t, r)
}

/// A step of the head can be refused for `x`, or there is no bias to add.
pub open spec fn head_refused(h: CtcHead, x: Array) -> bool {
    let slide = Sliding { padding: 0, stride: 1, groups: 1 };
    let bias = array(h.bias);
    let spread = seq![1usize, bias.dims[0], 1];
    ||| conv1d_refused(x, array(h.weight), slide)
    ||| bias.dims.len() == 0
    ||| reshape_refused(bias, spread)
    ||| exists|mapped: Array| #[trigger]
        conv1d_result(x, array(h.weight), slide, mapped) && {
            ||| broadcast_add_refused(mapped, under(bias, spread))
            ||| exists|biased: Array| #[trigger]
                broadcast_add_result(mapped, under(bias, spread), biased) && {
                    ||| biased.dims.len() < 3
                    ||| exists|turned: Array| #[trigger]
                        is_permuted(biased, exchanged(biased.dims.len(), 1, 2), turned)
                            && log_softmax_refused(turned)
                }
        }
}

/// A tensor of a head can be refused.
pub open spec fn head_missing(feat_in: usize, num_classes: usize, w: WeightStore) -> bool {
    exists|s: WeightStore| #[trigger]
        narrowed(w, "decoder_layers.0"@, s) && {
            ||| weight_refused(s, "weight"@, seq![num_classes, feat_in, 1usize])
            ||| weight_refused(s, "bias"@, seq![num_classes])
        }
}

/// The tensors of a head are those of their names.
pub open spec fn head_from(
    feat_in: usize,
    num_classes: usize,
    w: WeightStore,
    h: CtcHead,
) -> bool {
    &&& h.num_classes == num_classes
    &&& exists|s: WeightStore|
        {
            &&& #[trigger] narrowed(w, "decoder_layers.0"@, s)
            &&& weight_loaded(s, "weight"@, seq![num_classes, feat_in, 1usize], h.weight)
            &&& weight_loaded(s, "bias"@, seq![num_classes], h.bias)
        }
}

impl CtcHead {
    /// The head of a store.
    pub fn load(feat_in: usize, num_classes: usize, vb: &WeightStore) -> (r: Result<CtcHead, Error>)
        ensures
            r matches Ok(h) ==> head_from(feat_in, num_classes, *vb, h),
            r is Err ==> head_missing(feat_in, num_classes, *vb),
    {
        let s = vb.pp("decoder_layers.0");
        assert(narrowed(*vb, "decoder_layers.0"@, s));
        let kernel: Vec<usize> = vec![num_classes, feat_in, 1];
        assert(kernel@ =~= seq![num_classes, feat_in, 1usize]);
        let weight = s.get(kernel, "weight")?;
        let bias = s.get(one(num_classes), "bias")?;
        Ok(CtcHead { weight, bias, num_classes })
    }

    /// From entries by recording, width and frames to scores by recording, frames and classes.
    pub fn forward(&self, encoder_output: &Tensor) -> (r: Result<Tensor, Error>)
        ensures
            r matches Ok(y) ==> head_result(*self, array(*encoder_output), array(y)),
            r is Err ==> head_refused(*self, array(*encoder_output)),
            r is Ok ==> tensor_dims(self.bias).len() > 0,
    {
        let slide = Sliding { padding: 0, stride: 1, groups: 1 };
        let mapped = conv1d(encoder_output, &self.weight, &slide)?;
        let n = extent(&self.bias, 0)?;
        let d: Vec<usize> = vec![1, n, 1];
        assert(d@ =~= seq![1usize, n, 1usize]);
        let b = reshaped(&self.bias, d)?;
        let biased = broadcast_add(&mapped, &b)?;
        let turned = swap_axes(&biased, 1, 2)?;
        let r = log_softmax_last(&turned)?;
        proof {
            let t = HeadTrace {
                mapped: array(mapped),
                biased: array(biased),
                turned: array(turned),
            };
            assert(head_steps(*self, array(*encoder_output), t, array(r)));
        }
        Ok(r)
    }

    /// The blank class: the last one.
    pub fn blank_id(&self) -> (r: usize)
        requires
            self.num_classes >= 1,
        ensures
            r == self.num_classes - 1,
    {
        self.num_classes - 1
    }
}

/// The scores of one recording, frame by frame, that a text was decoded from.
pub open spec fn chunk_scores(head: CtcHead, encoded: Array, scores: Array) -> bool {
    exists|all: Array| #[trigger]
        head_result(head, encoded, all) && cast_to(without_batch(all), single(), scores)
}

/// `text` is what decoding the scores of an encoded chunk gave.
pub open spec fn chunk_text(
    head: CtcHead,
    decoder: CtcGreedyDecoder,
    encoded: Array,
    text: Seq<char>,
) -> bool {
    exists|scores: Array, best: Seq<u32>|
        chunk_scores(head, encoded, scores) && #[trigger] row_argmax_result(scores, best) && text
            == piece_text(
            decoder.vocab@,
            widened_ids(collapsed(best, decoder.blank_id as u32)),
        )
}

/// A step from an encoded chunk to the greatest scores can be refused.
pub open spec fn chunk_refused(head: CtcHead, encoded: Array) -> bool {
    ||| head_refused(head, encoded)
    ||| exists|all: Array| #[trigger]
        head_result(head, encoded, all) && (all.dims.len() == 0 || cast_refused(
            without_batch(all),
            single(),
        ))
    ||| exists|scores: Array| #[trigger]
        chunk_scores(head, encoded, scores) && row_argmax_refused(scores)
}

/// The text of an encoded chunk.
pub fn transcribe_encoded(head: &CtcHead, decoder: &CtcGreedyDecoder, encoded: &Tensor) -> (r: Result<
    String,
    Error,
>)
    ensures
        r matches Ok(text) ==> chunk_text(*head, *decoder, array(*encoded), text@),
        r is Err ==> chunk_refused(*head, array(*encoded)),
{
    let all = head.forward(encoded)?;
    let one_recording = drop_batch(&all)?;
    let scores = cast(&one_recording, single_precision())?;
    assert(head_result(*head, array(*encoded), array(all)));
    assert(chunk_scores(*head, array(*encoded), array(scores)));
    decoder.decode(&scores)
}

/// Chunks gave texts.
pub open spec fn chunk_texts(
    head: CtcHead,
    decoder: CtcGreedyDecoder,
    encoded: Seq<Tensor>,
    texts: Seq<Seq<char>>,
) -> bool {
    forall|i: int|
        0 <= i < texts.len() ==> chunk_text(head, decoder, array(encoded[i]), #[trigger] texts[i])
}

/// The transcript of the encoded chunks of a recording.
pub fn transcribe_chunks(
    head: &CtcHead,
    decoder: &CtcGreedyDecoder,
    encoded: &Vec<Tensor>,
    chunks: &Vec<Chunk>,
) -> (r: Result<Transcript, Error>)
    requires
        encoded@.len() == chunks@.len(),
        chunks@.len() >= 1,
    ensures
        r matches Ok(t) ==> exists|texts: Seq<Seq<char>>|
            {
                &&& #[trigger] chunk_texts(*head, *decoder, encoded@, texts)
                &&& texts.len() == encoded@.len()
                &&& t.text@ == spaced(texts)
                &&& segment_views(t.segments@) == gigaam_segments(chunk_bounds(chunks@), texts)
            },
        r is Err ==> exists|i: int|
            0 <= i < encoded@.len() && chunk_refused(*head, array(#[trigger] encoded@[i])),
{
    let n: usize = encoded.len();
    let mut texts: Vec<String> = Vec::new();
    let mut i: usize = 0;
    while i < n
        invariant
            i <= n == encoded@.len(),
            texts@.len() == i,
            chunk_texts(*head, *decoder, encoded@, views(texts@)),
        decreases n - i,
    {
        let text = transcribe_encoded(head, decoder, &encoded[i])?;
        let ghost before = views(texts@);
        texts.push(text);
        assert(views(texts@) =~= before.push(text@));
        i += 1;
    }
    let ghost all = views(texts@);
    let t = join_gigaam(chunks, texts);
    assert(chunk_texts(*head, *decoder, encoded@, all));
    Ok(t)
}

/// The head gives, for every frame, the logarithms of a softmax over classes: a map from entries to classes
/// that looks at one frame alone, a bias for each class, classes behind frames, and the softmax over them.
pub proof fn law_classes_compete_within_a_frame(h: CtcHead, x: Array, r: Array)
    requires
        head_result(h, x, r),
    ensures
        exists|mapped: Array, biased: Array, turned: Array|
            {
                &&& #[trigger] conv1d_result(
                    x,
                    array(h.weight),
                    (Sliding { padding: 0, stride: 1, groups: 1 }),
                    mapped,
                )
                &&& #[trigger] broadcast_add_result(mapped, class_bias(h), biased)
                &&& #[trigger] classes_last(biased, turned)
                &&& log_softmax_result(turned, r)
            },
{
    let t = choose|t: HeadTrace| #[trigger] head_steps(h, x, t, r);
    lemma_classes_last(t.biased, t.turned);
    assert(broadcast_add_result(t.mapped, class_bias(h), t.biased));
    assert(classes_last(t.biased, t.turned));
}

/// One number for each class, between an axis of recordings and one of frames.
pub open spec fn class_bias(h: CtcHead) -> Array {
    Array {
        dims: seq![1usize, tensor_dims(h.bias)[0], 1usize],
        elems: array(h.bias).elems,
        kind: array(h.bias).kind,
    }
}

/// `turned` holds by frame what `x` holds by class: score `k` of frame `j`.
pub open spec fn classes_last(x: Array, turned: Array) -> bool {
    x.dims.len() == 3 ==> {
        &&& turned.dims == seq![x.dims[0], x.dims[2], x.dims[1]]
        &&& forall|i: int, j: int, k: int|
            #![trigger turned.elems[(i * x.dims[2] + j) * x.dims[1] + k]]
            0 <= i < x.dims[0] && 0 <= j < x.dims[2] && 0 <= k < x.dims[1] ==> turned.elems[(i
                * x.dims[2] + j) * x.dims[1] + k] == x.elems[(i * x.dims[1] + k) * x.dims[2] + j]
    }
}

proof fn lemma_classes_last(x: Array, turned: Array)
    requires
        is_permuted(x, exchanged(x.dims.len(), 1, 2), turned),
    ensures
        classes_last(x, turned),
{
    if x.dims.len() == 3 {
        let order = exchanged(3, 1, 2);
        assert(order[0] == 0 && order[1] == 2 && order[2] == 1);
        assert(turned.dims =~= seq![x.dims[0], x.dims[2], x.dims[1]]);
        assert forall|i: int, j: int, k: int|
            #![trigger turned.elems[(i * x.dims[2] + j) * x.dims[1] + k]]
            0 <= i < x.dims[0] && 0 <= j < x.dims[2] && 0 <= k
                < x.dims[1] implies turned.elems[(i * x.dims[2] + j) * x.dims[1] + k]
            == x.elems[(i * x.dims[1] + k) * x.dims[2] + j] by {
            let from = seq![i, k, j];
            let to = seq![i, j, k];
            lemma_offset_of_three(x.dims, from);
            lemma_offset_of_three(turned.dims, to);
            assert(is_index(x.dims, from));
            assert(is_index(turned.dims, to));
            assert forall|n: int| 0 <= n < order.len() implies to[n] == from[#[trigger] order[n] as int] by {
                if n == 0 {
                } else if n == 1 {
                }
            }
            assert(turned.elems[offset(turned.dims, to)] == x.elems[offset(x.dims, from)]);
        }
    }
}

} // verus!
