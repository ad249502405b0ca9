//! Decoding of a Whisper segment: tokens are chosen one by one, greedily or by chance, and a poor
//! result is tried again at a higher temperature.
use crate::listening::{
    decoding_refused, model_decoded, model_scored, readable, scoring_refused, InnerModel,
};
use crate::tensor::{
    add_batch, add_refused, add_result, argmax, argmax_refused, argmax_result, array, bits_refused,
    broadcast_div, broadcast_div_refused, broadcast_div_result, cast, cast_refused, cast_to,
    device_of, dims, double, double_number, double_of, double_precision, exceeds,
    first_softmax_refused, first_softmax_result, from_bits, greater, greater_refused,
    greater_result, index_array, index_kind, index_refused, index_vector, infinity_pattern,
    is_number, kept_entries, lemma_volume_rows, lemma_volume_vector, like, log_softmax_last,
    log_softmax_refused, log_softmax_result, lowered_entries, move_refused, one, option_array, over,
    over_refused, over_result, quotient, quotient_of, rank_of, refuse, row, row_array, row_refused,
    scatter_add, scatter_refused, scatter_result, single, softmax_first, sum, tensor_dims,
    tensor_elems, to_main_memory, volume, with_batch, Array, MINUS_INFINITY,
};
use crate::whisper::SpecialTokens;
use candle_core::scalar::Scalar;
use candle_core::{Error, Tensor};
use rand::rngs::StdRng;
use std::collections::HashSet;
use vstd::prelude::*;

verus! {

broadcast use vstd::std_specs::hash::group_hash_axioms;

// ---------------------------------------------------------------------------
// Chance
// ---------------------------------------------------------------------------

/// `rand::rngs::StdRng`, a generator of random numbers.
#[verifier::external_type_specification]
#[verifier::external_body]
pub struct ExStdRng(rand::rngs::StdRng);

/// A generator was started from a seed.
pub uninterp spec fn started_from(g: StdRng, seed: u64) -> bool;

/// `k` can come of a draw by weights: an index, or none where the weights are refused. `after` is
/// what that left of the generator.
pub uninterp spec fn draw_outcome(
    before: StdRng,
    weights: Array,
    after: StdRng,
    k: Option<u32>,
) -> bool;

/// `k` was drawn by weights, among those that are greater than zero, and `after` is what that left of
/// the generator.
pub open spec fn drawn(before: StdRng, weights: Array, after: StdRng, k: u32) -> bool {
    &&& draw_outcome(before, weights, after, Some(k))
    &&& weights.kind == single() && weights.dims.len() == 1
    &&& weights.elems.len() <= u32::MAX ==> k < weights.elems.len() && exceeds(
        single(),
        weights.elems[k as int],
        0,
    )
}

/// A softmax gave these weights.
pub open spec fn from_softmax(weights: Array) -> bool {
    exists|a: Array| first_softmax_result(a, weights)
}

/// `StdRng::seed_from_u64` starts a generator from a seed.
#[verifier::external_body]
fn seeded(seed: u64) -> (r: StdRng)
    ensures
        started_from(r, seed),
{
    rand::SeedableRng::seed_from_u64(seed)
}

/// `rand::distributions::WeightedIndex` with the entries of a vector of single-precision numbers,
/// and one draw from it, which never gives an index of weight zero. It needs weights whose sum is
/// finite; those of a softmax are between zero and one, or no numbers, which are refused. A refusal
/// leaves the generator as it is.
#[verifier::external_body]
fn draw(weights: &Tensor, g: &mut StdRng) -> (r: Result<u32, Error>)
    requires
        from_softmax(array(*weights)),
    ensures
        match r {
            Ok(k) => draw_outcome(*old(g), array(*weights), *final(g), Some(k)),
            Err(_) => draw_outcome(*old(g), array(*weights), *final(g), None),
        },
        r is Err ==> *final(g) == *old(g),
        r matches Ok(k) ==> drawn(*old(g), array(*weights), *final(g), k),
{
    let numbers = weights.to_vec1()?;
    let singles = numbers.iter().map(|w| match Scalar::F32(*w) { Scalar::F32(v) => v, _ => *w });
    let d = rand::distributions::WeightedIndex::new(singles).map_err(Error::wrap)?;
    Ok(rand::distributions::Distribution::sample(&d, g) as u32)
}

// ---------------------------------------------------------------------------
// A segment
// ---------------------------------------------------------------------------

/// What decoding is to give.
#[derive(Debug, Clone, Copy, PartialEq, Eq, Structural)]
pub enum Task {
    /// A text in the language of the speech.
    Transcribe,
    /// A text in English.
    Translate,
}

/// A decoder for one segment.
pub struct WhisperDecoder {
    pub sot_token: u32,
    pub eot_token: u32,
    pub transcribe_token: u32,
    pub translate_token: u32,
    pub no_speech_token: u32,
    pub no_timestamps_token: u32,
    /// The token of the language, such as `<|ru|>`.
    pub language_token: Option<u32>,
    pub task: Task,
    /// Whether time stamps are generated.
    pub timestamps: bool,
    /// Tokens that are never chosen.
    pub suppress_tokens: Vec<u32>,
    /// Where random numbers for sampling come from.
    pub rng: StdRng,
}

/// What decoding starts from: the start token, the language where there is one, the task, and the
/// token that switches time stamps off, unless they are asked for.
pub open spec fn prompt_spec(d: WhisperDecoder) -> Seq<u32> {
    let start = match d.language_token {
        Some(l) => seq![d.sot_token, l],
        None => seq![d.sot_token],
    };
    let task = match d.task {
        Task::Transcribe => d.transcribe_token,
        Task::Translate => d.translate_token,
    };
    if d.timestamps {
        start.push(task)
    } else {
        start.push(task).push(d.no_timestamps_token)
    }
}

impl WhisperDecoder {
    /// A decoder with these settings.
    pub fn new(
        special: SpecialTokens,
        language_token: Option<u32>,
        task: Task,
        timestamps: bool,
        suppress_tokens: Vec<u32>,
        seed: u64,
    ) -> (r: WhisperDecoder)
        ensures
            r.sot_token == special.sot,
            r.eot_token == special.eot,
            r.transcribe_token == special.transcribe,
            r.translate_token == special.translate,
            r.no_speech_token == special.no_speech,
            r.no_timestamps_token == special.no_timestamps,
            r.language_token == language_token,
            r.task == task,
            r.timestamps == timestamps,
            r.suppress_tokens@ == suppress_tokens@,
            started_from(r.rng, seed),
    {
        WhisperDecoder {
            sot_token: special.sot,
            eot_token: special.eot,
            transcribe_token: special.transcribe,
            translate_token: special.translate,
            no_speech_token: special.no_speech,
            no_timestamps_token: special.no_timestamps,
            language_token,
            task,
            timestamps,
            suppress_tokens,
            rng: seeded(seed),
        }
    }

    /// The tokens that decoding starts from.
    pub fn prompt_tokens(&self) -> (r: Vec<u32>)
        ensures
            r@ == prompt_spec(*self),
    {
        let mut tokens: Vec<u32> = Vec::new();
        tokens.push(self.sot_token);
        if let Some(lang) = self.language_token {
            tokens.push(lang);
        }
        match self.task {
            Task::Transcribe => tokens.push(self.transcribe_token),
            Task::Translate => tokens.push(self.translate_token),
        }
        if !self.timestamps {
            tokens.push(self.no_timestamps_token);
        }
        assert(tokens@ =~= prompt_spec(*self));
        tokens
    }

    /// Decoding of a segment before its first step. At most `sample_len` tokens are generated.
    pub fn start_segment(&self, sample_len: usize) -> (r: SegmentDecoding)
        ensures
            r.wf(),
            r.tokens@ == prompt_spec(*self),
            r.prompt_len == prompt_spec(*self).len(),
            r.steps == 0,
            r.sample_len == sample_len,
            r.eot_token == self.eot_token,
            r.ended == false,
    {
        let tokens = self.prompt_tokens();
        let prompt_len: usize = tokens.len();
        SegmentDecoding {
            tokens,
            prompt_len,
            steps: 0,
            sample_len,
            eot_token: self.eot_token,
            ended: false,
        }
    }
}

/// The prompt opens with the start token; the language follows where there is one; then comes the task; and
/// the token that switches time stamps off stands last, unless they are asked for. Nothing else is in it.
pub proof fn law_prompt_names_language_and_task(d: WhisperDecoder)
    ensures
        ({
            let p = prompt_spec(d);
            let at: int = if d.language_token is Some { 2 } else { 1 };
            &&& p.len() == at + 1 + if d.timestamps { 0int } else { 1 }
            &&& p[0] == d.sot_token
            &&& d.language_token matches Some(l) ==> p[1] == l
            &&& d.task == Task::Transcribe ==> p[at] == d.transcribe_token
            &&& d.task == Task::Translate ==> p[at] == d.translate_token
            &&& !d.timestamps ==> p[p.len() - 1] == d.no_timestamps_token
        }),
{
}

/// Decoding of a segment between two steps.
pub struct SegmentDecoding {
    /// The prompt and what was generated so far.
    pub tokens: Vec<u32>,
    /// Length of the prompt.
    pub prompt_len: usize,
    /// Steps so far.
    pub steps: usize,
    /// Greatest number of steps.
    pub sample_len: usize,
    /// The token that ends the text.
    pub eot_token: u32,
    /// Whether the text has ended.
    pub ended: bool,
}

/// The tokens that are generated where the model chooses `choices[i]` at step `i`: those before the
/// first one that ends the text, at most `limit`.
pub open spec fn generated(choices: Seq<u32>, eot: u32, limit: nat) -> Seq<u32>
    decreases limit,
{
    if limit == 0 || choices.len() == 0 || choices[0] == eot {
        Seq::empty()
    } else {
        seq![choices[0]] + generated(choices.skip(1), eot, (limit - 1) as nat)
    }
}

/// Generation gives the first tokens that were chosen, as many as allowed and none that ends the text,
/// and stops early only before a token that ends it.
pub proof fn law_generated_is_longest_prefix(choices: Seq<u32>, eot: u32, limit: nat)
    requires
        limit <= choices.len(),
    ensures
        ({
            let g = generated(choices, eot, limit);
            &&& g.len() <= limit
            &&& g == choices.take(g.len() as int)
            &&& forall|i: int| 0 <= i < g.len() ==> #[trigger] g[i] != eot
            &&& g.len() < limit ==> choices[g.len() as int] == eot
        }),
    decreases limit,
{
    if limit > 0 && choices[0] != eot {
        let rest = choices.skip(1);
        law_generated_is_longest_prefix(rest, eot, (limit - 1) as nat);
        let r = generated(rest, eot, (limit - 1) as nat);
        let g = generated(choices, eot, limit);
        assert(g =~= seq![choices[0]] + r);
        assert(g =~= choices.take(g.len() as int));
        assert forall|i: int| 0 <= i < g.len() implies #[trigger] g[i] != eot by {
            if i > 0 {
                assert(g[i] == r[i - 1]);
            }
        }
        if g.len() < limit {
            assert(rest[r.len() as int] == choices[g.len() as int]);
        }
    } else {
        assert(generated(choices, eot, limit) =~= choices.take(0));
    }
}

impl SegmentDecoding {
    /// Every step but the one that ended the text gave a token.
    pub open spec fn wf(self) -> bool {
        &&& self.prompt_len <= self.tokens@.len()
        &&& self.steps <= self.sample_len
        &&& self.steps == self.tokens@.len() - self.prompt_len + if self.ended { 1int } else { 0 }
    }

    /// What was generated.
    pub open spec fn output(self) -> Seq<u32> {
        self.tokens@.skip(self.prompt_len as int)
    }

    /// Takes the token that was chosen.
    pub fn accept(&mut self, token: u32)
        requires
            old(self).wf(),
            !old(self).ended,
            old(self).steps < old(self).sample_len,
        ensures
            final(self).wf(),
            final(self).steps == old(self).steps + 1,
            final(self).ended == (token == old(self).eot_token),
            final(self).tokens@ == if token == old(self).eot_token {
                old(self).tokens@
            } else {
                old(self).tokens@.push(token)
            },
            final(self).prompt_len == old(self).prompt_len,
            final(self).sample_len == old(self).sample_len,
            final(self).eot_token == old(self).eot_token,
    {
        self.steps = self.steps + 1;
        if token == self.eot_token {
            self.ended = true;
        } else {
            self.tokens.push(token);
        }
    }

    /// The tokens that were generated.
    pub fn generated_tokens(&self) -> (r: Vec<u32>)
        requires
            self.wf(),
        ensures
            r@ == self.output(),
    {
        let mut out: Vec<u32> = Vec::new();
        let n: usize = self.tokens.len();
        let mut i: usize = self.prompt_len;
        while i < n
            invariant
                self.prompt_len <= i <= n == self.tokens@.len(),
                out@ == self.tokens@.subrange(self.prompt_len as int, i as int),
            decreases n - i,
        {
            out.push(self.tokens[i]);
            assert(self.tokens@.subrange(self.prompt_len as int, i + 1) =~= self.tokens@.subrange(
                self.prompt_len as int,
                i as int,
            ).push(self.tokens@[i as int]));
            i += 1;
        }
        assert(out@ =~= self.output());
        out
    }
}

/// Runs the decoding of a segment on tokens that were chosen, one for each step that may be taken.
pub fn decode_choices(decoder: &WhisperDecoder, choices: &[u32]) -> (r: Vec<u32>)
    ensures
        r@ == generated(choices@, decoder.eot_token, choices@.len()),
{
    let n: usize = choices.len();
    let mut d = decoder.start_segment(n);
    let mut i: usize = 0;
    assert(choices@.skip(0) =~= choices@);
    assert(d.output() =~= Seq::<u32>::empty());
    while i < n && !d.ended
        invariant
            n == choices@.len(),
            d.wf(),
            d.sample_len == n,
            d.eot_token == decoder.eot_token,
            d.steps == i,
            i <= n,
            d.output() + (if d.ended {
                Seq::<u32>::empty()
            } else {
                generated(choices@.skip(i as int), decoder.eot_token, (n - i) as nat)
            }) == generated(choices@, decoder.eot_token, n as nat),
        decreases n - i,
    {
        let ghost before = d.output();
        let ghost rest = choices@.skip(i as int);
        assert(rest[0] == choices@[i as int]);
        assert(rest.skip(1) =~= choices@.skip(i + 1));
        d.accept(choices[i]);
        i += 1;
        proof {
            if d.ended {
                assert(d.output() =~= before);
                assert(d.output() + Seq::<u32>::empty() =~= before + Seq::<u32>::empty());
            } else {
                assert(d.output() =~= before.push(rest[0]));
                assert(before + (seq![rest[0]] + generated(
                    rest.skip(1),
                    decoder.eot_token,
                    (n - i) as nat,
                )) =~= before.push(rest[0]) + generated(
                    rest.skip(1),
                    decoder.eot_token,
                    (n - i) as nat,
                ));
            }
        }
    }
    assert(d.output() + Seq::<u32>::empty() =~= d.output());
    d.generated_tokens()
}

// ---------------------------------------------------------------------------
// Quality
// ---------------------------------------------------------------------------

/// The pairs of neighbouring tokens.
pub open spec fn bigrams(tokens: Seq<u32>) -> Set<(u32, u32)> {
    Seq::new(
        (if tokens.len() > 0 { tokens.len() - 1 } else { 0 }) as nat,
        |i: int| (tokens[i], tokens[i + 1]),
    ).to_set()
}

/// Two tokens as one number.
pub open spec fn pair_key(a: u32, b: u32) -> int {
    a * 0x1_0000_0000 + b
}

/// A pair is counted exactly where its tokens stand next to each other, and however often they do, it
/// counts once.
pub proof fn law_bigrams_are_neighbours(tokens: Seq<u32>, a: u32, b: u32)
    ensures
        bigrams(tokens).finite(),
        bigrams(tokens).contains((a, b)) <==> exists|i: int|
            0 <= i && i + 1 < tokens.len() && #[trigger] tokens[i] == a && tokens[i + 1] == b,
        tokens.len() > 0 ==> bigrams(tokens).len() <= tokens.len() - 1,
        tokens.len() == 0 ==> bigrams(tokens).len() == 0,
{
    let n = (if tokens.len() > 0 {
        tokens.len() - 1
    } else {
        0
    }) as nat;
    let pairs = Seq::new(n, |i: int| (tokens[i], tokens[i + 1]));
    pairs.lemma_cardinality_of_set();
    if pairs.contains((a, b)) {
        let i = choose|i: int| 0 <= i < pairs.len() && pairs[i] == (a, b);
        assert(tokens[i] == a && tokens[i + 1] == b);
    }
    if exists|i: int| 0 <= i && i + 1 < tokens.len() && #[trigger] tokens[i] == a && tokens[i + 1]
        == b {
        let i = choose|i: int|
            0 <= i && i + 1 < tokens.len() && #[trigger] tokens[i] == a && tokens[i + 1] == b;
        assert(pairs[i] == (a, b));
    }
}

/// How many different pairs of neighbouring tokens there are. Few of them hint at a loop.
pub fn unique_bigrams(tokens: &[u32]) -> (r: usize)
    ensures
        r == bigrams(tokens@).len(),
{
    let n: usize = tokens.len();
    let mut keys: HashSet<u64> = HashSet::new();
    let ghost mut pairs: Set<(u32, u32)> = Set::empty();
    if n < 2 {
        assert(bigrams(tokens@) =~= Set::<(u32, u32)>::empty());
        return 0;
    }
    let mut i: usize = 0;
    assert(bigrams(tokens@.take(1)) =~= Set::<(u32, u32)>::empty());
    while i < n - 1
        invariant
            n == tokens@.len(),
            2 <= n,
            i <= n - 1,
            pairs == bigrams(tokens@.take(i + 1)),
            pairs.finite(),
            pairs.len() == keys@.len(),
            keys@.finite(),
            forall|a: u32, b: u32| #[trigger]
                pairs.contains((a, b)) <==> keys@.contains(pair_key(a, b) as u64),
        decreases n - i,
    {
        let a = tokens[i];
        let b = tokens[i + 1];
        let key: u64 = a as u64 * 0x1_0000_0000 + b as u64;
        let ghost old_keys = keys@;
        keys.insert(key);
        proof {
            let shorter = tokens@.take(i + 1);
            let longer = tokens@.take(i + 2);
            assert forall|x: u32, y: u32| pair_key(x, y) as u64 == key implies x == a && y == b by {
                assert(x * 0x1_0000_0000 + y == a * 0x1_0000_0000 + b);
            }
            assert forall|p: (u32, u32)| bigrams(longer).contains(p) == pairs.insert(
                (a, b),
            ).contains(p) by {
                let s = Seq::new((shorter.len() - 1) as nat, |k: int| (shorter[k], shorter[k + 1]));
                let l = Seq::new((longer.len() - 1) as nat, |k: int| (longer[k], longer[k + 1]));
                if l.contains(p) {
                    let k = choose|k: int| 0 <= k < l.len() && l[k] == p;
                    if k < i {
                        assert(s[k] == p);
                    }
                }
                if s.contains(p) {
                    let k = choose|k: int| 0 <= k < s.len() && s[k] == p;
                    assert(l[k] == p);
                }
                assert(l[i as int] == (a, b));
            }
            assert(bigrams(longer) =~= pairs.insert((a, b)));
            pairs = pairs.insert((a, b));
            assert forall|x: u32, y: u32| #[trigger]
                pairs.contains((x, y)) <==> keys@.contains(pair_key(x, y) as u64) by {}
        }
        i += 1;
    }
    assert(tokens@.take(n as int) =~= tokens@);
    keys.len()
}

// ---------------------------------------------------------------------------
// Steps with the model
// ---------------------------------------------------------------------------

/// `n` times minus infinity.
pub open spec fn minus_infinities(n: nat) -> Array {
    Array {
        dims: seq![n as usize],
        elems: Seq::new(n, |k: int| MINUS_INFINITY as int),
        kind: single(),
    }
}

/// `r` are the scores with minus infinity added to those of some tokens; the others stay as they are.
pub open spec fn suppressed(scores: Array, ids: Seq<u32>, r: Array) -> bool {
    &&& scatter_result(scores, index_array(ids), minus_infinities(ids.len()), r)
    &&& like(r, scores)
    &&& kept_entries(scores, index_array(ids), r)
    &&& lowered_entries(scores, index_array(ids), minus_infinities(ids.len()), r)
}

/// A token that is suppressed is not chosen as the one with the greatest score, as long as another one
/// has a score above minus infinity. No score is infinite or no number.
pub proof fn law_suppressed_tokens_are_not_chosen(
    scores: Array,
    ids: Seq<u32>,
    allowed: Array,
    token: u32,
    other: u32,
)
    requires
        scores.kind == single(),
        scores.elems.len() <= u32::MAX,
        forall|i: int|
            0 <= i < scores.elems.len() ==> is_number(single(), #[trigger] scores.elems[i])
                && scores.elems[i] != infinity_pattern(single()),
        suppressed(scores, ids, allowed),
        argmax_result(allowed, token),
        other < scores.elems.len(),
        !ids.contains(other),
        scores.elems[other as int] != MINUS_INFINITY,
    ensures
        !ids.contains(token),
{
    let named = index_array(ids);
    assert(forall|i: int| 0 <= i < ids.len() ==> #[trigger] named.elems[i] == ids[i]);
    assert forall|k: u32| named.elems.contains(k as int) == ids.contains(k) by {
        if ids.contains(k) {
            let i = choose|i: int| 0 <= i < ids.len() && ids[i] == k;
            assert(named.elems[i] == k);
        }
        if named.elems.contains(k as int) {
            let i = choose|i: int| 0 <= i < named.elems.len() && named.elems[i] == k;
            assert(ids[i] == k);
        }
    }
    let lowest = minus_infinities(ids.len());
    assert(forall|i: int|
        0 <= i < lowest.elems.len() ==> #[trigger] lowest.elems[i] == MINUS_INFINITY);
    assert forall|i: int| 0 <= i < allowed.elems.len() implies is_number(
        single(),
        #[trigger] allowed.elems[i],
    ) && (allowed.elems[i] == scores.elems[i] || allowed.elems[i] == MINUS_INFINITY) by {
        assert(is_number(single(), scores.elems[i]));
        if named.elems.contains(i) {
            assert(allowed.elems[i] == MINUS_INFINITY);
        }
    }
    if ids.contains(token) {
        assert(named.elems.contains(token as int));
        assert(!named.elems.contains(other as int));
        assert(is_number(single(), scores.elems[token as int]));
        assert(allowed.elems[token as int] == MINUS_INFINITY);
        assert(allowed.elems[other as int] == scores.elems[other as int]);
        assert(exceeds(single(), allowed.elems[other as int], allowed.elems[token as int]));
    }
}

/// Suppressing tokens can be refused: placing what is added, placing their numbers, or adding it.
pub open spec fn suppressing_refused(scores: Array, ids: Seq<u32>) -> bool {
    let n = ids.len();
    ||| bits_refused(Seq::new(n, |k: int| MINUS_INFINITY), seq![n as usize])
    ||| index_refused(ids)
    ||| scatter_refused(scores, index_array(ids), minus_infinities(n))
}

fn suppress(scores: &Tensor, ids: &Vec<u32>) -> (r: Result<Tensor, Error>)
    requires
        tensor_dims(*scores).len() == 1,
    ensures
        r matches Ok(t) ==> suppressed(array(*scores), ids@, array(t)),
        r is Err ==> suppressing_refused(array(*scores), ids@),
{
    let n: usize = ids.len();
    let mut bits: Vec<u32> = Vec::new();
    let mut i: usize = 0;
    while i < n
        invariant
            i <= n,
            bits@.len() == i,
            forall|k: int| 0 <= k < i ==> #[trigger] bits@[k] == MINUS_INFINITY,
        decreases n - i,
    {
        bits.push(MINUS_INFINITY);
        i += 1;
    }
    assert(bits@ =~= Seq::new(n as nat, |k: int| MINUS_INFINITY));
    let values = from_bits(bits, &one(n), device_of(scores))?;
    assert(array(values) =~= minus_infinities(n as nat));
    let places = index_vector(ids, device_of(scores))?;
    scatter_add(scores, &places, &values)
}

/// The scores behind the last position of the first text.
pub open spec fn last_scores(scores: Array) -> Array {
    row_array(row_array(scores, 0), scores.dims[1] - 1)
}

/// There is no last position of a first text, or taking its scores can be refused.
pub open spec fn last_refused(scores: Array) -> bool {
    ||| scores.dims.len() != 3
    ||| scores.dims[1] == 0
    ||| row_refused(scores, 0)
    ||| row_refused(row_array(scores, 0), scores.dims[1] - 1)
}

/// The scores behind the last position are the last row of the first text: entry `j` of them stands
/// `(s - 1) * v + j` entries behind the first one, for `s` positions and `v` tokens.
pub proof fn law_last_scores_are_the_last_row(scores: Array, j: int)
    requires
        scores.dims.len() == 3,
        scores.dims[0] >= 1,
        scores.dims[1] >= 1,
        scores.elems.len() == volume(scores.dims),
        0 <= j < scores.dims[2],
    ensures
        last_scores(scores).dims == seq![scores.dims[2]],
        last_scores(scores).elems.len() == scores.dims[2],
        last_scores(scores).kind == scores.kind,
        last_scores(scores).elems[j] == scores.elems[(scores.dims[1] - 1) * scores.dims[2] + j],
{
    lemma_last_row(scores);
}

proof fn lemma_last_row(scores: Array)
    requires
        scores.dims.len() == 3,
        scores.dims[0] >= 1,
        scores.dims[1] >= 1,
        scores.elems.len() == volume(scores.dims),
    ensures
        last_scores(scores).dims == seq![scores.dims[2]],
        last_scores(scores).elems.len() == scores.dims[2],
        last_scores(scores).kind == scores.kind,
        forall|j: int|
            0 <= j < scores.dims[2] ==> #[trigger] last_scores(scores).elems[j] == scores.elems[(
            scores.dims[1] - 1) * scores.dims[2] + j],
        (scores.dims[1] - 1) * scores.dims[2] >= 0,
        (scores.dims[1] - 1) * scores.dims[2] + scores.dims[2] <= scores.elems.len(),
{
    let b = scores.dims[0] as int;
    let s = scores.dims[1] as int;
    let v = scores.dims[2] as int;
    lemma_volume_rows(scores.dims);
    lemma_volume_rows(scores.dims.skip(1));
    assert(scores.dims.skip(1).skip(1) =~= seq![scores.dims[2]]);
    lemma_volume_vector(scores.dims[2]);
    let inner = volume(scores.dims.skip(1)) as int;
    assert(inner == s * v);
    assert(inner <= b * inner) by (nonlinear_arith)
        requires
            b >= 1,
            inner >= 0,
    ;
    assert(0 <= (s - 1) * v && (s - 1) * v + v == s * v) by (nonlinear_arith)
        requires
            s >= 1,
            v >= 0,
    ;
    assert(0 * inner == 0);
    let text = row_array(scores, 0);
    assert(text.elems =~= scores.elems.subrange(0, inner));
    let last = row_array(text, s - 1);
    assert(last.elems =~= text.elems.subrange((s - 1) * v, (s - 1) * v + v));
    assert(last.dims =~= seq![scores.dims[2]]);
    assert(last == last_scores(scores));
}

fn last_position(scores: &Tensor) -> (r: Result<Tensor, Error>)
    ensures
        r matches Ok(t) ==> tensor_dims(t) == seq![tensor_dims(*scores)[2]] && forall|j: int|
            0 <= j < tensor_dims(*scores)[2] ==> #[trigger] tensor_elems(t)[j] == tensor_elems(
                *scores,
            )[(tensor_dims(*scores)[1] - 1) * tensor_dims(*scores)[2] + j],
        r is Ok ==> tensor_dims(*scores).len() == 3 && tensor_dims(*scores)[1] >= 1,
        r is Ok ==> scores_shaped(array(*scores)),
        r matches Ok(t) ==> array(t) == last_scores(array(*scores)) && tensor_dims(t).len() == 1,
        r is Err ==> last_refused(array(*scores)),
{
    let d = dims(scores);
    if d.len() != 3 || d[1] == 0 {
        return refuse(scores);
    }
    let text = row(scores, 0)?;
    assert(tensor_dims(text) =~= tensor_dims(*scores).skip(1));
    let last = row(&text, d[1] - 1)?;
    proof {
        lemma_last_row(array(*scores));
    }
    Ok(last)
}

/// `r` is entry `k` of a vector in double precision.
pub open spec fn double_entry(v: Array, k: int, r: Array) -> bool {
    0 <= k < v.dims[0] && cast_to(row_array(v, k), double(), r)
}

/// There is no entry `k`, or taking it to main memory in double precision can be refused.
pub open spec fn double_refused(v: Array, k: int) -> bool {
    ||| v.dims.len() == 0
    ||| row_refused(v, k)
    ||| move_refused(row_array(v, k))
    ||| cast_refused(row_array(v, k), double())
}

fn double_at(v: &Tensor, k: usize) -> (r: Result<Tensor, Error>)
    ensures
        r matches Ok(t) ==> double_entry(array(*v), k as int, array(t)),
        r is Err ==> double_refused(array(*v), k as int),
{
    if dims(v).len() == 0 {
        return refuse(v);
    }
    let entry = row(v, k)?;
    cast(&to_main_memory(&entry)?, double_precision())
}

/// Where the decoding of a segment stands.
pub struct SegmentPoint {
    /// The prompt and what was generated so far.
    pub tokens: Seq<u32>,
    pub model: InnerModel,
    pub generator: StdRng,
    /// The sum of the logarithms of the probabilities so far.
    pub sum: Array,
    /// The probability that there is no speech, once it is known.
    pub no_speech: Option<Array>,
    /// Whether the text has ended.
    pub ended: bool,
}

/// The intermediate results of a step.
pub struct SegmentStep {
    pub hidden: Array,
    pub scores: Array,
    pub speech: Array,
    pub speech_entry: Array,
    pub allowed: Array,
    pub scaled: Array,
    pub weights: Array,
    pub logs: Array,
    pub logprob: Array,
    pub token: u32,
}

/// A token is chosen: the one with the greatest score, or by chance at a temperature.
pub open spec fn token_chosen(
    sampling: Option<Scalar>,
    before: StdRng,
    s: SegmentStep,
    after: StdRng,
) -> bool {
    match sampling {
        None => argmax_result(s.allowed, s.token) && after == before,
        Some(t) => {
            &&& over_result(s.allowed, t, s.scaled)
            &&& first_softmax_result(s.scaled, s.weights)
            &&& drawn(before, s.weights, after, s.token)
        },
    }
}

/// One step from `p` to `q`: the model scores what follows the tokens, scores of suppressed tokens are
/// lowered, and a token is chosen, which ends the text or joins it.
pub open spec fn segment_step(
    d: WhisperDecoder,
    features: Array,
    sampling: Option<Scalar>,
    first: bool,
    p: SegmentPoint,
    s: SegmentStep,
    q: SegmentPoint,
) -> bool {
    let last = last_scores(s.scores);
    &&& scores_shaped(s.scores)
    &&& model_decoded(p.model, with_batch(index_array(p.tokens)), features, first, q.model, s.hidden)
    &&& model_scored(q.model, s.hidden, s.scores)
    &&& if first {
        &&& first_softmax_result(last, s.speech)
        &&& double_entry(s.speech, d.no_speech_token as int, s.speech_entry)
        &&& q.no_speech == Some(s.speech_entry)
    } else {
        q.no_speech == p.no_speech
    }
    &&& suppressed(last, d.suppress_tokens@, s.allowed)
    &&& token_chosen(sampling, p.generator, s, q.generator)
    &&& log_softmax_result(s.allowed, s.logs)
    &&& double_entry(s.logs, s.token as int, s.logprob)
    &&& add_result(p.sum, s.logprob, q.sum)
    &&& q.ended == (s.token == d.eot_token)
    &&& q.tokens == if q.ended {
        p.tokens
    } else {
        p.tokens.push(s.token)
    }
}

/// `token` was chosen among scores, and `after` is what that left of the generator.
pub open spec fn choice_made(
    sampling: Option<Scalar>,
    before: StdRng,
    allowed: Array,
    after: StdRng,
    token: u32,
) -> bool {
    match sampling {
        None => argmax_result(allowed, token) && after == before,
        Some(t) => exists|scaled: Array, weights: Array| #[trigger]
            over_result(allowed, t, scaled) && #[trigger] first_softmax_result(scaled, weights)
                && drawn(before, weights, after, token),
    }
}

/// A step of drawing a token at a temperature can be refused.
pub open spec fn sampling_refused(scores: Array, t: Scalar, generator: StdRng) -> bool {
    ||| over_refused(scores, t)
    ||| exists|scaled: Array| #[trigger]
        over_result(scores, t, scaled) && {
            ||| first_softmax_refused(scaled)
            ||| exists|weights: Array| #[trigger]
                first_softmax_result(scaled, weights) && draw_outcome(
                    generator,
                    weights,
                    generator,
                    None,
                )
        }
}

/// Choosing a token among scores can be refused.
pub open spec fn choice_refused(
    sampling: Option<Scalar>,
    generator: StdRng,
    allowed: Array,
) -> bool {
    match sampling {
        None => argmax_refused(allowed),
        Some(t) => sampling_refused(allowed, t, generator),
    }
}

/// The probability that there is no speech can be refused.
pub open spec fn speech_refused(d: WhisperDecoder, last: Array) -> bool {
    ||| first_softmax_refused(last)
    ||| exists|speech: Array| #[trigger]
        first_softmax_result(last, speech) && double_refused(speech, d.no_speech_token as int)
}

/// Adding the logarithm of the probability of a token to a sum can be refused.
pub open spec fn adding_refused(total: Array, allowed: Array, token: u32) -> bool {
    ||| log_softmax_refused(allowed)
    ||| exists|logs: Array| #[trigger]
        log_softmax_result(allowed, logs) && {
            ||| double_refused(logs, token as int)
            ||| exists|logprob: Array| #[trigger]
                double_entry(logs, token as int, logprob) && add_refused(total, logprob)
        }
}

/// A step from `p` can be refused. The model is left behind as its text decoder left it, and the
/// generator as it was, unless a token was drawn.
pub open spec fn segment_step_refused(
    d: WhisperDecoder,
    features: Array,
    sampling: Option<Scalar>,
    first: bool,
    p: SegmentPoint,
    generator_after: StdRng,
    model_after: InnerModel,
) -> bool {
    let text = with_batch(index_array(p.tokens));
    let kept = generator_after == p.generator;
    ||| kept && model_after == p.model && index_refused(p.tokens)
    ||| kept && model_after == p.model && !readable(text.dims, features.dims)
    ||| kept && decoding_refused(p.model, text, features, first, model_after)
    ||| exists|hidden: Array| #[trigger]
        model_decoded(p.model, text, features, first, model_after, hidden) && {
            ||| kept && scoring_refused(model_after, hidden)
            ||| exists|scores: Array| #[trigger]
                model_scored(model_after, hidden, scores) && {
                    ||| kept && last_refused(scores)
                    ||| kept && first && speech_refused(d, last_scores(scores))
                    ||| choosing_stops(
                        d,
                        sampling,
                        p,
                        last_scores(scores),
                        generator_after,
                    )
                }
        }
}

/// Suppressing tokens, choosing one, or adding up its probability can be refused.
pub open spec fn choosing_stops(
    d: WhisperDecoder,
    sampling: Option<Scalar>,
    p: SegmentPoint,
    last: Array,
    generator_after: StdRng,
) -> bool {
    let kept = generator_after == p.generator;
    ||| kept && suppressing_refused(last, d.suppress_tokens@)
    ||| exists|allowed: Array| #[trigger]
        suppressed(last, d.suppress_tokens@, allowed) && {
            ||| kept && choice_refused(sampling, p.generator, allowed)
            ||| exists|token: u32| #[trigger]
                choice_made(sampling, p.generator, allowed, generator_after, token)
                    && adding_refused(p.sum, allowed, token)
        }
}

/// A run that has come to a point from which a step can be refused.
pub open spec fn segment_stops(
    d: WhisperDecoder,
    features: Array,
    sampling: Option<Scalar>,
    limit: nat,
    run: Seq<SegmentPoint>,
    steps: Seq<SegmentStep>,
    generator_after: StdRng,
    model_after: InnerModel,
) -> bool {
    &&& run.len() == steps.len() + 1
    &&& run[0].tokens == prompt_spec(d)
    &&& run[0].sum == double_of(0)
    &&& run[0].no_speech is None
    &&& steps.len() < limit
    &&& forall|i: int|
        0 <= i < steps.len() ==> segment_step(
            d,
            features,
            sampling,
            i == 0,
            run[i],
            #[trigger] steps[i],
            run[i + 1],
        )
    &&& forall|i: int| 0 <= i < run.len() ==> !(#[trigger] run[i]).ended
    &&& segment_step_refused(
        d,
        features,
        sampling,
        steps.len() == 0,
        run.last(),
        generator_after,
        model_after,
    )
}

/// Decoding a segment can be refused: one of its steps, or the mean behind them. More tokens than
/// can be counted are refused too.
pub open spec fn segment_refused(
    d: WhisperDecoder,
    model: InnerModel,
    features: Array,
    limit: nat,
    sampling: Option<Scalar>,
    generator_after: StdRng,
    model_after: InnerModel,
) -> bool {
    ||| exists|run: Seq<SegmentPoint>, steps: Seq<SegmentStep>| #[trigger]
        segment_stops(
            d,
            features,
            sampling,
            limit,
            run,
            steps,
            generator_after,
            model_after,
        ) && run[0].model == model && run[0].generator == d.rng
    ||| exists|run: Seq<SegmentPoint>, steps: Seq<SegmentStep>|
        {
            let n = generated(chosen(steps), d.eot_token, limit).len();
            &&& #[trigger] segment_run(d, features, sampling, limit, run, steps)
            &&& run[0].model == model
            &&& run[0].generator == d.rng
            &&& run.last().model == model_after
            &&& run.last().generator == generator_after
            &&& n > i64::MAX || broadcast_div_refused(
                run.last().sum,
                double_of(divisor(n) as i64),
            )
        }
}

/// The tokens that were chosen.
pub open spec fn chosen(steps: Seq<SegmentStep>) -> Seq<u32> {
    steps.map_values(|s: SegmentStep| s.token)
}

/// A run: it starts behind the prompt, each step leads from one point to the next, and it goes on
/// until the text ends or as many steps were taken as allowed.
pub open spec fn segment_run(
    d: WhisperDecoder,
    features: Array,
    sampling: Option<Scalar>,
    limit: nat,
    run: Seq<SegmentPoint>,
    steps: Seq<SegmentStep>,
) -> bool {
    &&& run.len() == steps.len() + 1
    &&& run[0].tokens == prompt_spec(d)
    &&& run[0].sum == double_of(0)
    &&& run[0].no_speech is None
    &&& !run[0].ended
    &&& steps.len() <= limit
    &&& forall|i: int|
        0 <= i < steps.len() ==> segment_step(
            d,
            features,
            sampling,
            i == 0,
            run[i],
            #[trigger] steps[i],
            run[i + 1],
        )
    &&& forall|i: int| 0 <= i < steps.len() ==> !(#[trigger] run[i]).ended
    &&& steps.len() == limit || run.last().ended
}

/// What a run generates: the tokens that were chosen before the one that ended the text.
proof fn lemma_run_generates(
    d: WhisperDecoder,
    features: Array,
    sampling: Option<Scalar>,
    limit: nat,
    run: Seq<SegmentPoint>,
    steps: Seq<SegmentStep>,
)
    requires
        segment_run(d, features, sampling, limit, run, steps),
    ensures
        run.last().tokens == prompt_spec(d) + generated(chosen(steps), d.eot_token, limit),
{
    let n = steps.len();
    let c = chosen(steps);
    let kept = if n > 0 && run.last().ended {
        c.drop_last()
    } else {
        c
    };
    assert forall|i: int| 0 <= i < n - 1 implies #[trigger] c[i] != d.eot_token by {
        assert(segment_step(d, features, sampling, i == 0, run[i], steps[i], run[i + 1]));
        assert(!run[i + 1].ended);
    }
    if n > 0 {
        assert(segment_step(
            d,
            features,
            sampling,
            n - 1 == 0,
            run[n - 1],
            steps[n - 1],
            run[n as int],
        ));
    }
    lemma_choices(c, d.eot_token, limit);
    lemma_tokens_so_far(d, features, sampling, limit, run, steps, n as int);
}

/// Choices of which only the last one may end the text.
proof fn lemma_choices(c: Seq<u32>, eot: u32, limit: nat)
    requires
        c.len() <= limit,
        forall|i: int| 0 <= i < c.len() - 1 ==> #[trigger] c[i] != eot,
    ensures
        generated(c, eot, limit) == if c.len() > 0 && c.last() == eot {
            c.drop_last()
        } else {
            c
        },
    decreases c.len(),
{
    if c.len() == 0 {
        assert(c =~= Seq::<u32>::empty());
    } else if c[0] == eot {
        assert(c.len() == 1);
        assert(c.drop_last() =~= Seq::<u32>::empty());
    } else {
        let rest = c.skip(1);
        assert forall|i: int| 0 <= i < rest.len() - 1 implies #[trigger] rest[i] != eot by {
            assert(rest[i] == c[i + 1]);
        }
        lemma_choices(rest, eot, (limit - 1) as nat);
        let g = generated(rest, eot, (limit - 1) as nat);
        if rest.len() == 0 {
            assert(seq![c[0]] + g =~= c);
        } else if rest.last() == eot {
            assert(c.last() == rest.last());
            assert(seq![c[0]] + rest.drop_last() =~= c.drop_last());
        } else {
            assert(c.last() == rest.last());
            assert(seq![c[0]] + rest =~= c);
        }
    }
}

proof fn lemma_tokens_so_far(
    d: WhisperDecoder,
    features: Array,
    sampling: Option<Scalar>,
    limit: nat,
    run: Seq<SegmentPoint>,
    steps: Seq<SegmentStep>,
    k: int,
)
    requires
        segment_run(d, features, sampling, limit, run, steps),
        0 <= k <= steps.len(),
    ensures
        run[k].tokens == prompt_spec(d) + if k > 0 && run[k].ended {
            chosen(steps).take(k - 1)
        } else {
            chosen(steps).take(k)
        },
    decreases k,
{
    if k == 0 {
        assert(chosen(steps).take(0) =~= Seq::<u32>::empty());
        assert(prompt_spec(d) + Seq::<u32>::empty() =~= prompt_spec(d));
    } else {
        lemma_tokens_so_far(d, features, sampling, limit, run, steps, k - 1);
        assert(segment_step(
            d,
            features,
            sampling,
            k - 1 == 0,
            run[k - 1],
            steps[k - 1],
            run[k],
        ));
        assert(!run[k - 1].ended);
        if !run[k].ended {
            assert(chosen(steps).take(k) =~= chosen(steps).take(k - 1).push(steps[k - 1].token));
            assert(prompt_spec(d) + chosen(steps).take(k - 1).push(steps[k - 1].token) =~= (
            prompt_spec(d) + chosen(steps).take(k - 1)).push(steps[k - 1].token));
        }
    }
}

/// A vector of scores is that of the last position of the first text.
pub open spec fn of_last_position(scores: Array, last: Array) -> bool {
    let s = scores.dims[1] as int;
    let v = scores.dims[2] as int;
    &&& last.dims == seq![scores.dims[2]]
    &&& last.kind == scores.kind
    &&& last.elems.len() == v
    &&& forall|j: int|
        0 <= j < v ==> #[trigger] last.elems[j] == scores.elems[(s - 1) * v + j]
}

/// A number that stands alone.
pub open spec fn lone(kind: int, bits: int) -> Array {
    Array { dims: Seq::empty(), elems: seq![bits], kind }
}

/// Tokens as one text.
pub open spec fn one_text(tokens: Seq<u32>, text: Array) -> bool {
    &&& text.dims == seq![1usize, tokens.len() as usize]
    &&& text.kind == index_kind()
    &&& text.elems.len() == tokens.len()
    &&& forall|k: int| 0 <= k < tokens.len() ==> #[trigger] text.elems[k] == tokens[k]
}

/// What a step reads and what comes of it.
pub struct WordTrace {
    pub text: Array,
    pub hidden: Array,
    pub scores: Array,
    pub last: Array,
    pub allowed: Array,
    pub weights: Array,
    pub logs: Array,
}

/// A token was chosen behind some tokens. The model read all of them as one text and scored what follows;
/// the scores of the last position count. Without chance the token has the greatest score among those that
/// are not suppressed, and the generator is left alone. By chance it was drawn by weights and has one.
pub open spec fn word_chosen(
    d: WhisperDecoder,
    features: Array,
    sampling: Option<Scalar>,
    tokens: Seq<u32>,
    first: bool,
    p: SegmentPoint,
    q: SegmentPoint,
    token: u32,
    t: WordTrace,
) -> bool {
    &&& one_text(tokens, t.text)
    &&& model_decoded(p.model, t.text, features, first, q.model, t.hidden)
    &&& model_scored(q.model, t.hidden, t.scores)
    &&& of_last_position(t.scores, t.last)
    &&& sampling is None ==> q.generator == p.generator && best_allowed(
        t.last,
        d.suppress_tokens@,
        token,
    )
    &&& sampling matches Some(temperature) ==> {
        &&& exists|scaled: Array| #[trigger]
            over_result(t.allowed, temperature, scaled) && first_softmax_result(scaled, t.weights)
        &&& draw_outcome(p.generator, t.weights, q.generator, Some(token))
    }
    &&& suppressed(t.last, d.suppress_tokens@, t.allowed)
    &&& log_softmax_result(t.allowed, t.logs)
    &&& (token as int) < t.logs.elems.len()
    &&& exists|entry: Array| #[trigger]
        cast_to(lone(t.logs.kind, t.logs.elems[token as int]), double(), entry) && add_result(
            p.sum,
            entry,
            q.sum,
        )
    &&& first ==> exists|speech: Array, entry: Array|
        #![trigger first_softmax_result(t.last, speech), cast_to(lone(speech.kind, speech.elems[d.no_speech_token as int]), double(), entry)]
        {
            &&& first_softmax_result(t.last, speech)
            &&& (d.no_speech_token as int) < speech.elems.len()
            &&& cast_to(
                lone(speech.kind, speech.elems[d.no_speech_token as int]),
                double(),
                entry,
            )
            &&& q.no_speech == Some(entry)
        }
    &&& !first ==> q.no_speech == p.no_speech
}

/// No token that is not suppressed has a greater score than `token`, which is not suppressed itself where
/// another one can be chosen. All scores are finite single-precision numbers or minus infinity.
pub open spec fn best_allowed(last: Array, ids: Seq<u32>, token: u32) -> bool {
    last.kind == single() && last.elems.len() <= u32::MAX && (forall|i: int|
        0 <= i < last.elems.len() ==> is_number(single(), #[trigger] last.elems[i])
            && last.elems[i] != infinity_pattern(single())) ==> forall|other: u32|
        other < last.elems.len() && last.elems[other as int] != MINUS_INFINITY
            && !#[trigger] ids.contains(other) ==> !ids.contains(token) && (token as int)
            < last.elems.len() && rank_of(single(), last.elems[other as int]) <= rank_of(
            single(),
            last.elems[token as int],
        )
}

proof fn lemma_best_allowed(last: Array, ids: Seq<u32>, allowed: Array, token: u32)
    requires
        suppressed(last, ids, allowed),
        argmax_result(allowed, token),
    ensures
        best_allowed(last, ids, token),
{
    if last.kind == single() && last.elems.len() <= u32::MAX && (forall|i: int|
        0 <= i < last.elems.len() ==> is_number(single(), #[trigger] last.elems[i])
            && last.elems[i] != infinity_pattern(single())) {
        let named = index_array(ids);
        let lowest = minus_infinities(ids.len());
        assert(forall|i: int| 0 <= i < ids.len() ==> #[trigger] named.elems[i] == ids[i]);
        assert(forall|i: int|
            0 <= i < lowest.elems.len() ==> #[trigger] lowest.elems[i] == MINUS_INFINITY);
        assert forall|other: u32|
            other < last.elems.len() && last.elems[other as int] != MINUS_INFINITY
                && !#[trigger] ids.contains(other) implies !ids.contains(token) && (token as int)
            < last.elems.len() && rank_of(single(), last.elems[other as int]) <= rank_of(
            single(),
            last.elems[token as int],
        ) by {
            law_suppressed_tokens_are_not_chosen(last, ids, allowed, token, other);
            assert forall|i: int| 0 <= i < allowed.elems.len() implies is_number(
                single(),
                #[trigger] allowed.elems[i],
            ) by {
                assert(is_number(single(), last.elems[i]));
                if named.elems.contains(i) {
                    assert(allowed.elems[i] == MINUS_INFINITY);
                }
            }
            assert forall|k: u32| !ids.contains(k) implies !named.elems.contains(k as int) by {
                if named.elems.contains(k as int) {
                    let i = choose|i: int| 0 <= i < named.elems.len() && named.elems[i] == k;
                    assert(ids[i] == k);
                }
            }
            assert(allowed.elems[other as int] == last.elems[other as int]);
            assert(allowed.elems[token as int] == last.elems[token as int]);
            assert(!exceeds(single(), allowed.elems[other as int], allowed.elems[token as int]));
        }
    }
}

/// Scores by text, position and token, of at least one text and position.
pub open spec fn scores_shaped(scores: Array) -> bool {
    &&& scores.dims.len() == 3
    &&& scores.dims[0] >= 1
    &&& scores.dims[1] >= 1
    &&& scores.elems.len() == volume(scores.dims)
}

proof fn lemma_word_chosen(
    d: WhisperDecoder,
    features: Array,
    sampling: Option<Scalar>,
    first: bool,
    p: SegmentPoint,
    s: SegmentStep,
    q: SegmentPoint,
) -> (t: WordTrace)
    requires
        segment_step(d, features, sampling, first, p, s, q),
    ensures
        word_chosen(d, features, sampling, p.tokens, first, p, q, s.token, t),
{
    let last = last_scores(s.scores);
    lemma_last_row(s.scores);
    let text = with_batch(index_array(p.tokens));
    assert(text.dims =~= seq![1usize, p.tokens.len() as usize]);
    if sampling is None {
        lemma_best_allowed(last, d.suppress_tokens@, s.allowed, s.token);
    }
    lemma_lone(s.logs, s.token as int);
    if first {
        lemma_lone(s.speech, d.no_speech_token as int);
    }
    let t = WordTrace {
        text,
        hidden: s.hidden,
        scores: s.scores,
        last,
        allowed: s.allowed,
        weights: s.weights,
        logs: s.logs,
    };
    if sampling is Some {
        assert(over_result(s.allowed, sampling->0, s.scaled));
    }
    assert(cast_to(lone(s.logs.kind, s.logs.elems[s.token as int]), double(), s.logprob));
    if first {
        assert(first_softmax_result(t.last, s.speech));
        assert(cast_to(
            lone(s.speech.kind, s.speech.elems[d.no_speech_token as int]),
            double(),
            s.speech_entry,
        ));
    }
    assert(one_text(p.tokens, t.text));
    assert(of_last_position(t.scores, t.last));
    assert(sampling is None ==> q.generator == p.generator);
    assert(suppressed(t.last, d.suppress_tokens@, t.allowed));
    assert(log_softmax_result(t.allowed, t.logs));
    assert((s.token as int) < t.logs.elems.len());
    assert(model_decoded(p.model, t.text, features, first, q.model, t.hidden));
    t
}

proof fn lemma_lone(v: Array, k: int)
    requires
        v.dims.len() == 1,
        v.elems.len() == v.dims[0],
        0 <= k < v.dims[0],
    ensures
        row_array(v, k) == lone(v.kind, v.elems[k]),
{
    assert(v.dims.skip(1) =~= Seq::<usize>::empty());
    assert(volume(v.dims.skip(1)) == 1);
    assert(k * 1 == k);
    assert(row_array(v, k).elems =~= seq![v.elems[k]]);
}

/// `points` are where decoding a segment stood: it began behind the prompt with an empty sum, and each token
/// was chosen behind the prompt and all tokens before it. Where fewer tokens came out than allowed, the last
/// choice was the token that ends the text, which is not one of them.
pub open spec fn words_follow(
    d: WhisperDecoder,
    model: InnerModel,
    features: Array,
    limit: nat,
    sampling: Option<Scalar>,
    result: DecodingResult,
    points: Seq<SegmentPoint>,
) -> bool {
    let words = result.tokens@;
    let n = words.len() as int;
    &&& n <= limit
    &&& points.len() == n + 1 + if n < limit { 1int } else { 0 }
    &&& points[0].model == model
    &&& points[0].generator == d.rng
    &&& points[0].sum == double_of(0)
    &&& points[0].no_speech is None
    &&& forall|i: int|
        0 <= i < n ==> #[trigger] words[i] != d.eot_token && follows(
            d,
            features,
            sampling,
            prompt_spec(d) + words.take(i),
            i == 0,
            points[i],
            points[i + 1],
            words[i],
        )
    &&& n < limit ==> follows(
        d,
        features,
        sampling,
        prompt_spec(d) + words,
        n == 0,
        points[n],
        points[n + 1],
        d.eot_token,
    )
    &&& broadcast_div_result(
        points.last().sum,
        double_of((if n >= 1 { n } else { 1 }) as i64),
        array(result.avg_logprob),
    )
    &&& option_array(result.no_speech_prob) == points.last().no_speech
    &&& result.temperature == sampling
}

/// A token was chosen behind some tokens.
pub open spec fn follows(
    d: WhisperDecoder,
    features: Array,
    sampling: Option<Scalar>,
    tokens: Seq<u32>,
    first: bool,
    p: SegmentPoint,
    q: SegmentPoint,
    token: u32,
) -> bool {
    exists|t: WordTrace| #[trigger]
        word_chosen(d, features, sampling, tokens, first, p, q, token, t)
}

/// Decoding a segment gives words that follow one another: each is chosen by the scores of the last position
/// behind the prompt and all words before it, up to the one that ends the text or to the limit. The mean is
/// that of the logarithms of the probabilities of all choices over the number of words, at least one.
pub proof fn law_words_follow_one_another(
    d: WhisperDecoder,
    model: InnerModel,
    features: Array,
    limit: nat,
    sampling: Option<Scalar>,
    result: DecodingResult,
    generator_after: StdRng,
    model_after: InnerModel,
)
    requires
        segment_decoded(
            d,
            model,
            features,
            limit,
            sampling,
            result,
            generator_after,
            model_after,
        ),
    ensures
        exists|points: Seq<SegmentPoint>|
            {
                &&& #[trigger] words_follow(d, model, features, limit, sampling, result, points)
                &&& points.last().model == model_after
                &&& points.last().generator == generator_after
            },
        sampling is None ==> generator_after == d.rng,
{
    let (run, steps) = choose|run: Seq<SegmentPoint>, steps: Seq<SegmentStep>|
        {
            &&& #[trigger] segment_run(d, features, sampling, limit, run, steps)
            &&& run[0].model == model
            &&& run[0].generator == d.rng
            &&& run.last().model == model_after
            &&& run.last().generator == generator_after
            &&& result.tokens@ == generated(chosen(steps), d.eot_token, limit)
            &&& broadcast_div_result(
                run.last().sum,
                double_of(divisor(result.tokens@.len()) as i64),
                array(result.avg_logprob),
            )
            &&& option_array(result.no_speech_prob) == run.last().no_speech
            &&& result.temperature == sampling
        };
    let words = result.tokens@;
    let n = words.len() as int;
    let c = chosen(steps);
    let k = steps.len() as int;
    assert forall|i: int| 0 <= i < k - 1 implies #[trigger] c[i] != d.eot_token by {
        assert(segment_step(d, features, sampling, i == 0, run[i], steps[i], run[i + 1]));
        assert(!run[i + 1].ended);
    }
    lemma_choices(c, d.eot_token, limit);
    if k > 0 {
        assert(segment_step(d, features, sampling, k - 1 == 0, run[k - 1], steps[k - 1], run[k]));
        assert(run.last() == run[k]);
        assert(run[k].ended == (c.last() == d.eot_token));
    }
    assert(n < limit ==> k == n + 1 && c.last() == d.eot_token);
    assert(n == limit ==> k == n);
    assert forall|i: int| 0 <= i < k implies follows(
        d,
        features,
        sampling,
        prompt_spec(d) + c.take(i),
        i == 0,
        run[i],
        run[i + 1],
        #[trigger] c[i],
    ) && (sampling is None ==> run[i + 1].generator == run[i].generator) by {
        assert(segment_step(d, features, sampling, i == 0, run[i], steps[i], run[i + 1]));
        lemma_tokens_so_far(d, features, sampling, limit, run, steps, i);
        assert(!run[i].ended);
        let t = lemma_word_chosen(d, features, sampling, i == 0, run[i], steps[i], run[i + 1]);
        assert(run[i].tokens == prompt_spec(d) + c.take(i));
        assert(word_chosen(
            d,
            features,
            sampling,
            prompt_spec(d) + c.take(i),
            i == 0,
            run[i],
            run[i + 1],
            c[i],
            t,
        ));
    }
    assert forall|i: int| 0 <= i < n implies #[trigger] words[i] != d.eot_token && follows(
        d,
        features,
        sampling,
        prompt_spec(d) + words.take(i),
        i == 0,
        run[i],
        run[i + 1],
        words[i],
    ) by {
        assert(words[i] == c[i]);
        assert(words.take(i) =~= c.take(i));
    }
    if n < limit {
        assert(c.take(n) =~= words);
        assert(c[n] == d.eot_token);
    }
    assert(words_follow(d, model, features, limit, sampling, result, run));
    if sampling is None {
        assert forall|i: int| 0 <= i < k implies run[i + 1].generator == (
        #[trigger] run[i]).generator by {
            assert(c[i] == c[i]);
            assert(segment_step(d, features, sampling, i == 0, run[i], steps[i], run[i + 1]));
        }
        lemma_generator_rests(run, k);
    }
}

proof fn lemma_generator_rests(run: Seq<SegmentPoint>, k: int)
    requires
        0 <= k < run.len(),
        forall|i: int| 0 <= i < k ==> run[i + 1].generator == (#[trigger] run[i]).generator,
    ensures
        run[k].generator == run[0].generator,
    decreases k,
{
    if k > 0 {
        lemma_generator_rests(run, k - 1);
        assert(run[k - 1 + 1].generator == run[k - 1].generator);
    }
}

/// The result of decoding a segment.
pub struct DecodingResult {
    /// The tokens that were generated.
    pub tokens: Vec<u32>,
    /// The mean of the logarithms of the probabilities, as a number in double precision.
    pub avg_logprob: Tensor,
    /// The probability that there is no speech, as a number in double precision; none where no step was
    /// taken.
    pub no_speech_prob: Option<Tensor>,
    /// The temperature at which tokens were drawn; none where they were not.
    pub temperature: Option<Scalar>,
}

impl DecodingResult {
    /// How many pairs of neighbouring tokens there are, and how many of them are different. Their quotient
    /// tells how much the tokens repeat themselves.
    pub fn bigram_counts(&self) -> (r: (usize, usize))
        ensures
            r.0 == if self.tokens@.len() > 0 {
                self.tokens@.len() - 1
            } else {
                0
            },
            r.1 == bigrams(self.tokens@).len(),
    {
        let n: usize = self.tokens.len();
        (if n > 0 { n - 1 } else { 0 }, unique_bigrams(self.tokens.as_slice()))
    }
}

/// The number that a sum is divided by: that of the generated tokens, at least one.
pub open spec fn divisor(n: nat) -> int {
    if n >= 1 {
        n as int
    } else {
        1
    }
}

/// `result` is what decoding a segment gave.
pub open spec fn segment_decoded(
    d: WhisperDecoder,
    model: InnerModel,
    features: Array,
    limit: nat,
    sampling: Option<Scalar>,
    result: DecodingResult,
    generator_after: StdRng,
    model_after: InnerModel,
) -> bool {
    exists|run: Seq<SegmentPoint>, steps: Seq<SegmentStep>|
        {
            &&& #[trigger] segment_run(d, features, sampling, limit, run, steps)
            &&& run[0].model == model
            &&& run[0].generator == d.rng
            &&& run.last().model == model_after
            &&& run.last().generator == generator_after
            &&& result.tokens@ == generated(chosen(steps), d.eot_token, limit)
            &&& broadcast_div_result(
                run.last().sum,
                double_of(divisor(result.tokens@.len()) as i64),
                array(result.avg_logprob),
            )
            &&& option_array(result.no_speech_prob) == run.last().no_speech
            &&& result.temperature == sampling
        }
}

/// The same settings, with a generator that may have moved on.
pub open spec fn same_settings(a: WhisperDecoder, b: WhisperDecoder) -> bool {
    a == (WhisperDecoder { rng: a.rng, ..b })
}

/// A sum with the logarithm of the probability of a token added to it.
fn add_up(total: &Tensor, allowed: &Tensor, token: u32) -> (r: Result<
    (Tensor, Ghost<Array>, Ghost<Array>),
    Error,
>)
    ensures
        r matches Ok((next, logs, logprob)) ==> {
            &&& log_softmax_result(array(*allowed), logs@)
            &&& double_entry(logs@, token as int, logprob@)
            &&& add_result(array(*total), logprob@, array(next))
        },
        r is Err ==> adding_refused(array(*total), array(*allowed), token),
{
    let logs = log_softmax_last(allowed)?;
    let logprob = double_at(&logs, token as usize)?;
    let next = sum(total, &logprob)?;
    Ok((next, Ghost(array(logs)), Ghost(array(logprob))))
}

impl WhisperDecoder {
    /// Draws a token at a temperature.
    fn sample_with_temperature(&mut self, scores: &Tensor, temperature: &Scalar) -> (r: Result<
        u32,
        Error,
    >)
        ensures
            same_settings(*final(self), *old(self)),
            r matches Ok(k) ==> exists|scaled: Array, weights: Array| #[trigger]
                over_result(array(*scores), *temperature, scaled) && #[trigger]
                first_softmax_result(scaled, weights) && drawn(
                    old(self).rng,
                    weights,
                    final(self).rng,
                    k,
                ),
            r is Err ==> final(self).rng == old(self).rng && sampling_refused(
                array(*scores),
                *temperature,
                old(self).rng,
            ),
    {
        let scaled = over(scores, temperature)?;
        let weights = softmax_first(&scaled)?;
        assert(first_softmax_result(array(scaled), array(weights)));
        draw(&weights, &mut self.rng)
    }

    /// Takes one step: the token that was chosen, the sum with its probability, and the probability
    /// that there is no speech, once it is known.
    fn take_step(
        &mut self,
        model: &mut InnerModel,
        audio_features: &Tensor,
        tokens: &Vec<u32>,
        first: bool,
        total: &Tensor,
        no_speech: Option<Tensor>,
        sampling: &Option<Scalar>,
    ) -> (r: Result<(u32, Tensor, Option<Tensor>, Ghost<SegmentStep>), Error>)
        requires
            old(model).wf(),
        ensures
            final(model).wf(),
            same_settings(*final(self), *old(self)),
            ({
                let p = SegmentPoint {
                    tokens: tokens@,
                    model: *old(model),
                    generator: old(self).rng,
                    sum: array(*total),
                    no_speech: option_array(no_speech),
                    ended: false,
                };
                match r {
                    Ok((token, next, speech, s)) => s@.token == token && segment_step(
                        *old(self),
                        array(*audio_features),
                        *sampling,
                        first,
                        p,
                        s@,
                        SegmentPoint {
                            tokens: if token == old(self).eot_token {
                                tokens@
                            } else {
                                tokens@.push(token)
                            },
                            model: *final(model),
                            generator: final(self).rng,
                            sum: array(next),
                            no_speech: option_array(speech),
                            ended: token == old(self).eot_token,
                        },
                    ),
                    Err(_) => segment_step_refused(
                        *old(self),
                        array(*audio_features),
                        *sampling,
                        first,
                        p,
                        final(self).rng,
                        *final(model),
                    ),
                }
            }),
    {
        let ids = index_vector(tokens, device_of(audio_features))?;
        let text = add_batch(&ids)?;
        let hidden = model.decoder_forward(&text, audio_features, first)?;
        let scores = model.decoder_final_linear(&hidden)?;
        let last = last_position(&scores)?;
        let ghost mut speech_array = array(last);
        let ghost mut entry_array = array(last);
        let speech = if first {
            let speech = softmax_first(&last)?;
            let entry = double_at(&speech, self.no_speech_token as usize)?;
            proof {
                speech_array = array(speech);
                entry_array = array(entry);
            }
            Some(entry)
        } else {
            no_speech
        };
        let allowed = suppress(&last, &self.suppress_tokens)?;
        let token = match sampling {
            None => argmax(&allowed)?,
            Some(t) => self.sample_with_temperature(&allowed, t)?,
        };
        assert(choice_made(*sampling, old(self).rng, array(allowed), self.rng, token));
        let (next, Ghost(logs), Ghost(logprob)) = match add_up(total, &allowed, token) {
            Ok(added) => added,
            Err(e) => {
                proof {
                    let p = SegmentPoint {
                        tokens: tokens@,
                        model: *old(model),
                        generator: old(self).rng,
                        sum: array(*total),
                        no_speech: option_array(no_speech),
                        ended: false,
                    };
                    assert(model_decoded(
                        p.model,
                        with_batch(index_array(p.tokens)),
                        array(*audio_features),
                        first,
                        *model,
                        array(hidden),
                    ));
                    assert(model_scored(*model, array(hidden), array(scores)));
                    assert(choosing_stops(
                        *old(self),
                        *sampling,
                        p,
                        last_scores(array(scores)),
                        self.rng,
                    ));
                }
                return Err(e);
            },
        };
        let ghost (scaled, weights) = choose|scaled: Array, weights: Array|
            *sampling is Some ==> (#[trigger] over_result(array(allowed), sampling->0, scaled)
                && #[trigger] first_softmax_result(scaled, weights) && drawn(
                old(self).rng,
                weights,
                self.rng,
                token,
            ));
        let ghost s = SegmentStep {
            hidden: array(hidden),
            scores: array(scores),
            speech: speech_array,
            speech_entry: entry_array,
            allowed: array(allowed),
            scaled,
            weights,
            logs,
            logprob,
            token,
        };
        assert(token_chosen(*sampling, old(self).rng, s, self.rng));
        Ok((token, next, speech, Ghost(s)))
    }

    /// Decodes one segment. At most `sample_len` tokens are generated, greedily, or by chance at a
    /// temperature.
    pub fn decode_segment(
        &mut self,
        model: &mut InnerModel,
        audio_features: &Tensor,
        sample_len: usize,
        sampling: Option<Scalar>,
    ) -> (r: Result<DecodingResult, Error>)
        requires
            old(model).wf(),
        ensures
            final(model).wf(),
            same_settings(*final(self), *old(self)),
            r matches Ok(result) ==> segment_decoded(
                *old(self),
                *old(model),
                array(*audio_features),
                sample_len as nat,
                sampling,
                result,
                final(self).rng,
                *final(model),
            ),
            r is Err ==> segment_refused(
                *old(self),
                *old(model),
                array(*audio_features),
                sample_len as nat,
                sampling,
                final(self).rng,
                *final(model),
            ),
    {
        let ghost d = *self;
        let ghost features = array(*audio_features);
        let mut seg = self.start_segment(sample_len);
        let mut total = double_number(0)?;
        let mut no_speech: Option<Tensor> = None;
        let ghost mut run: Seq<SegmentPoint> = seq![
            SegmentPoint {
                tokens: seg.tokens@,
                model: *model,
                generator: self.rng,
                sum: array(total),
                no_speech: None,
                ended: false,
            },
        ];
        let ghost mut steps: Seq<SegmentStep> = Seq::empty();
        while !seg.ended && seg.steps < sample_len
            invariant
                d == *old(self),
                same_settings(*self, d),
                model.wf(),
                features == array(*audio_features),
                seg.wf(),
                seg.sample_len == sample_len,
                seg.eot_token == d.eot_token,
                seg.prompt_len == prompt_spec(d).len(),
                run.len() == steps.len() + 1,
                steps.len() == seg.steps,
                run[0].tokens == prompt_spec(d),
                run[0].sum == double_of(0),
                run[0].no_speech is None,
                !run[0].ended,
                run[0].model == *old(model),
                run[0].generator == d.rng,
                run.last() == (SegmentPoint {
                    tokens: seg.tokens@,
                    model: *model,
                    generator: self.rng,
                    sum: array(total),
                    no_speech: option_array(no_speech),
                    ended: seg.ended,
                }),
                forall|i: int|
                    0 <= i < steps.len() ==> segment_step(
                        d,
                        features,
                        sampling,
                        i == 0,
                        run[i],
                        #[trigger] steps[i],
                        run[i + 1],
                    ),
                forall|i: int| 0 <= i < steps.len() ==> !(#[trigger] run[i]).ended,
            decreases sample_len - seg.steps,
        {
            let first = seg.steps == 0;
            let ghost p = run.last();
            let taken = self.take_step(
                model,
                audio_features,
                &seg.tokens,
                first,
                &total,
                no_speech,
                &sampling,
            );
            let (token, next, speech, Ghost(s)) = match taken {
                Ok(step) => step,
                Err(e) => {
                    assert(segment_stops(
                        d,
                        features,
                        sampling,
                        sample_len as nat,
                        run,
                        steps,
                        self.rng,
                        *model,
                    ));
                    return Err(e);
                },
            };
            total = next;
            no_speech = speech;
            seg.accept(token);
            proof {
                let q = SegmentPoint {
                    tokens: seg.tokens@,
                    model: *model,
                    generator: self.rng,
                    sum: array(total),
                    no_speech: option_array(no_speech),
                    ended: seg.ended,
                };
                assert(segment_step(d, features, sampling, first, p, s, q));
                let longer = run.push(q);
                let more = steps.push(s);
                assert forall|i: int| 0 <= i < more.len() implies segment_step(
                    d,
                    features,
                    sampling,
                    i == 0,
                    longer[i],
                    #[trigger] more[i],
                    longer[i + 1],
                ) by {
                    if i < steps.len() {
                        assert(more[i] == steps[i]);
                        assert(longer[i] == run[i] && longer[i + 1] == run[i + 1]);
                    }
                }
                run = longer;
                steps = more;
            }
        }
        proof {
            assert(segment_run(d, features, sampling, sample_len as nat, run, steps));
            lemma_run_generates(d, features, sampling, sample_len as nat, run, steps);
            let g = generated(chosen(steps), d.eot_token, sample_len as nat);
            assert(seg.output() =~= g) by {
                assert((prompt_spec(d) + g).skip(prompt_spec(d).len() as int) =~= g);
            }
        }
        let tokens = seg.generated_tokens();
        let n: usize = tokens.len();
        if n as u64 > 0x7FFF_FFFF_FFFF_FFFF {
            return refuse(audio_features);
        }
        let count = double_number(if n >= 1 { n as i64 } else { 1 })?;
        let avg_logprob = broadcast_div(&total, &count)?;
        let result = DecodingResult {
            tokens,
            avg_logprob,
            no_speech_prob: no_speech,
            temperature: sampling,
        };
        Ok(result)
    }
}

// ---------------------------------------------------------------------------
// Attempts
// ---------------------------------------------------------------------------

/// Attempts at a segment.
pub const ATTEMPTS: usize = 6;

/// Enough variety: the pairs of neighbouring tokens are fewer than 2.4 times as many as the different
/// ones among them.
pub open spec fn varied(tokens: Seq<u32>) -> bool {
    tokens.len() <= 1 || 5 * (tokens.len() - 1) < 12 * bigrams(tokens).len()
}

/// Whether tokens are varied enough not to hint at a loop.
pub fn is_varied(tokens: &[u32]) -> (r: bool)
    ensures
        r == varied(tokens@),
{
    let n: usize = tokens.len();
    if n <= 1 {
        return true;
    }
    let pairs: u128 = (n - 1) as u128;
    let unique: u128 = unique_bigrams(tokens) as u128;
    5 * pairs < 12 * unique
}

/// A result is good: it is varied, and the mean of the logarithms of the probabilities is greater than
/// minus one.
pub open spec fn judged(tokens: Seq<u32>, avg_logprob: Array, good: bool) -> bool {
    if varied(tokens) {
        greater_result(avg_logprob, double_of((-1) as i64), good)
    } else {
        !good
    }
}

/// Comparing the mean of a varied result can be refused.
pub open spec fn judging_refused(tokens: Seq<u32>, avg_logprob: Array) -> bool {
    varied(tokens) && greater_refused(avg_logprob, double_of((-1) as i64))
}

fn judge(result: &DecodingResult) -> (r: Result<bool, Error>)
    ensures
        r matches Ok(good) ==> judged(result.tokens@, array(result.avg_logprob), good),
        r is Err ==> judging_refused(result.tokens@, array(result.avg_logprob)),
{
    if is_varied(result.tokens.as_slice()) {
        let limit = double_number(-1)?;
        greater(&result.avg_logprob, &limit)
    } else {
        Ok(false)
    }
}

/// The temperature of an attempt: the first one is greedy, and those after it rise by a fifth.
pub open spec fn attempt_sampling(attempt: int) -> Option<Scalar> {
    if attempt == 0 {
        None
    } else {
        Some(quotient_of(attempt as i64, 5))
    }
}

/// An attempt, with what came before and after it.
pub struct Attempt {
    pub generator: StdRng,
    pub model: InnerModel,
    pub result: DecodingResult,
    pub good: bool,
    pub generator_after: StdRng,
    pub model_after: InnerModel,
}

/// Attempts one after another, each at its temperature.
pub open spec fn attempts_from(
    d: WhisperDecoder,
    model: InnerModel,
    features: Array,
    limit: nat,
    tries: Seq<Attempt>,
) -> bool {
    &&& forall|i: int| 0 <= i < tries.len() ==> attempt_made(d, features, limit, i, #[trigger] tries[i])
    &&& tries.len() > 0 ==> tries[0].generator == d.rng && tries[0].model == model
    &&& forall|i: int|
        0 < i < tries.len() ==> (#[trigger] tries[i]).generator == tries[i - 1].generator_after
            && tries[i].model == tries[i - 1].model_after
}

/// Attempt `i` was made and judged.
pub open spec fn attempt_made(
    d: WhisperDecoder,
    features: Array,
    limit: nat,
    i: int,
    a: Attempt,
) -> bool {
    &&& segment_decoded(
        WhisperDecoder { rng: a.generator, ..d },
        a.model,
        features,
        limit,
        attempt_sampling(i),
        a.result,
        a.generator_after,
        a.model_after,
    )
    &&& judged(a.result.tokens@, array(a.result.avg_logprob), a.good)
}

/// `result` is that of the first good attempt, or else of the last one.
pub open spec fn fallback_decoded(
    d: WhisperDecoder,
    model: InnerModel,
    features: Array,
    limit: nat,
    result: DecodingResult,
    generator_after: StdRng,
    model_after: InnerModel,
) -> bool {
    exists|tries: Seq<Attempt>|
        {
            &&& #[trigger] attempts_from(d, model, features, limit, tries)
            &&& 1 <= tries.len() <= ATTEMPTS
            &&& forall|i: int| 0 <= i < tries.len() - 1 ==> !(#[trigger] tries[i]).good
            &&& tries.last().good || tries.len() == ATTEMPTS
            &&& tries.last().result == result
            &&& tries.last().generator_after == generator_after
            &&& tries.last().model_after == model_after
        }
}

/// `result` came of attempt `i`, which is the last one or was found good.
pub open spec fn came_of_attempt(
    d: WhisperDecoder,
    features: Array,
    limit: nat,
    i: int,
    a: Attempt,
    result: DecodingResult,
) -> bool {
    &&& 0 <= i < ATTEMPTS
    &&& attempt_made(d, features, limit, i, a)
    &&& a.result == result
    &&& i == ATTEMPTS - 1 || a.good
}

/// Tokens that all repeat one another are not varied once there are four of them, and tokens that are all
/// different always are.
pub proof fn law_loops_are_not_varied(tokens: Seq<u32>)
    ensures
        tokens.len() >= 4 && (forall|i: int| 0 <= i < tokens.len() ==> #[trigger] tokens[i]
            == tokens[0]) ==> !varied(tokens),
        tokens.no_duplicates() ==> varied(tokens),
        varied(tokens) && tokens.len() >= 2 ==> 5 * (tokens.len() - 1) < 12 * bigrams(
            tokens,
        ).len(),
        !varied(tokens) ==> tokens.len() >= 2 && 5 * (tokens.len() - 1) >= 12 * bigrams(
            tokens,
        ).len(),
{
    let n = (if tokens.len() > 0 {
        tokens.len() - 1
    } else {
        0
    }) as nat;
    let pairs = Seq::new(n, |i: int| (tokens[i], tokens[i + 1]));
    if tokens.no_duplicates() {
        assert(pairs.no_duplicates()) by {
            assert forall|i: int, j: int| 0 <= i < pairs.len() && 0 <= j < pairs.len() && i != j implies pairs[i]
                != pairs[j] by {
                assert(tokens[i] != tokens[j]);
            }
        }
        pairs.unique_seq_to_set();
        assert(bigrams(tokens).len() == n);
    }
    if tokens.len() >= 4 && (forall|i: int| 0 <= i < tokens.len() ==> #[trigger] tokens[i]
        == tokens[0]) {
        let one = set![(tokens[0], tokens[0])];
        assert(bigrams(tokens) =~= one) by {
            assert forall|p: (u32, u32)| bigrams(tokens).contains(p) == one.contains(p) by {
                law_bigrams_are_neighbours(tokens, p.0, p.1);
                if p == (tokens[0], tokens[0]) {
                    assert(tokens[0] == p.0 && tokens[1] == p.1);
                }
            }
        }
        assert(one.len() == 1);
    }
}

/// The first attempt is greedy; the others draw tokens at a temperature of one to five fifths.
pub proof fn law_temperatures_rise_by_fifths()
    ensures
        ATTEMPTS == 6,
        attempt_sampling(0) is None,
        attempt_sampling(1) == Some(quotient_of(1, 5)),
        attempt_sampling(2) == Some(quotient_of(2, 5)),
        attempt_sampling(3) == Some(quotient_of(3, 5)),
        attempt_sampling(4) == Some(quotient_of(4, 5)),
        attempt_sampling(5) == Some(quotient_of(5, 5)),
{
}

/// A result is good exactly where it is varied and the mean of the logarithms of the probabilities, a number
/// in double precision, is greater than minus one.
pub proof fn law_good_results_are_varied_and_likely(tokens: Seq<u32>, avg_logprob: Array, good: bool)
    requires
        judged(tokens, avg_logprob, good),
        avg_logprob.kind == double(),
    ensures
        good == (varied(tokens) && exceeds(
            double(),
            avg_logprob.elems[0],
            double_of((-1) as i64).elems[0],
        )),
{
}

/// The result is one of an attempt at its own temperature, and one below the highest temperature was
/// found good: its tokens are varied.
pub proof fn law_fallback_stops_at_a_good_result(
    d: WhisperDecoder,
    model: InnerModel,
    features: Array,
    limit: nat,
    result: DecodingResult,
    generator_after: StdRng,
    model_after: InnerModel,
)
    requires
        fallback_decoded(d, model, features, limit, result, generator_after, model_after),
    ensures
        exists|i: int, a: Attempt|
            #[trigger] came_of_attempt(d, features, limit, i, a, result) && result.temperature
                == attempt_sampling(i),
        result.temperature != attempt_sampling(ATTEMPTS - 1) ==> varied(result.tokens@) && judged(
            result.tokens@,
            array(result.avg_logprob),
            true,
        ),
{
    let tries = choose|tries: Seq<Attempt>|
        {
            &&& #[trigger] attempts_from(d, model, features, limit, tries)
            &&& 1 <= tries.len() <= ATTEMPTS
            &&& forall|i: int| 0 <= i < tries.len() - 1 ==> !(#[trigger] tries[i]).good
            &&& tries.last().good || tries.len() == ATTEMPTS
            &&& tries.last().result == result
            &&& tries.last().generator_after == generator_after
            &&& tries.last().model_after == model_after
        };
    let i = tries.len() - 1;
    assert(attempt_made(d, features, limit, i, tries[i]));
    assert(came_of_attempt(d, features, limit, i, tries[i], result));
}

/// Where the greedy attempt cannot be found poor, its result is the result.
pub proof fn law_a_good_first_attempt_is_kept(
    d: WhisperDecoder,
    model: InnerModel,
    features: Array,
    limit: nat,
    result: DecodingResult,
    generator_after: StdRng,
    model_after: InnerModel,
)
    requires
        fallback_decoded(d, model, features, limit, result, generator_after, model_after),
        forall|first: DecodingResult, g: StdRng, m: InnerModel| #[trigger]
            segment_decoded(d, model, features, limit, None, first, g, m) ==> !judged(
                first.tokens@,
                array(first.avg_logprob),
                false,
            ),
    ensures
        segment_decoded(
            d,
            model,
            features,
            limit,
            None,
            result,
            generator_after,
            model_after,
        ),
{
    let tries = choose|tries: Seq<Attempt>|
        {
            &&& #[trigger] attempts_from(d, model, features, limit, tries)
            &&& 1 <= tries.len() <= ATTEMPTS
            &&& forall|i: int| 0 <= i < tries.len() - 1 ==> !(#[trigger] tries[i]).good
            &&& tries.last().good || tries.len() == ATTEMPTS
            &&& tries.last().result == result
            &&& tries.last().generator_after == generator_after
            &&& tries.last().model_after == model_after
        };
    let first = tries[0];
    assert(attempt_made(d, features, limit, 0, first));
    assert(WhisperDecoder { rng: first.generator, ..d } == d);
    assert(segment_decoded(
        d,
        model,
        features,
        limit,
        None,
        first.result,
        first.generator_after,
        first.model_after,
    ));
    assert(first.good);
}

/// Attempt `i` can be refused, or its judgement.
pub open spec fn attempt_refused(
    d: WhisperDecoder,
    model: InnerModel,
    features: Array,
    limit: nat,
    i: int,
    generator_after: StdRng,
    model_after: InnerModel,
) -> bool {
    let sampling = attempt_sampling(i);
    ||| segment_refused(d, model, features, limit, sampling, generator_after, model_after)
    ||| exists|result: DecodingResult| #[trigger]
        segment_decoded(
            d,
            model,
            features,
            limit,
            sampling,
            result,
            generator_after,
            model_after,
        ) && judging_refused(result.tokens@, array(result.avg_logprob))
}

/// All attempts so far gave poor results, and the next one can be refused, or its judgement.
pub open spec fn attempts_stop(
    d: WhisperDecoder,
    model: InnerModel,
    features: Array,
    limit: nat,
    tries: Seq<Attempt>,
    generator_after: StdRng,
    model_after: InnerModel,
) -> bool {
    let n = tries.len() as int;
    &&& n < ATTEMPTS
    &&& attempts_from(d, model, features, limit, tries)
    &&& forall|i: int| 0 <= i < n ==> !(#[trigger] tries[i]).good
    &&& if n == 0 {
        attempt_refused(d, model, features, limit, n, generator_after, model_after)
    } else {
        attempt_refused(
            WhisperDecoder { rng: tries.last().generator_after, ..d },
            tries.last().model_after,
            features,
            limit,
            n,
            generator_after,
            model_after,
        )
    }
}

/// An attempt can be refused, or its judgement.
pub open spec fn fallback_refused(
    d: WhisperDecoder,
    model: InnerModel,
    features: Array,
    limit: nat,
    generator_after: StdRng,
    model_after: InnerModel,
) -> bool {
    exists|tries: Seq<Attempt>| #[trigger]
        attempts_stop(d, model, features, limit, tries, generator_after, model_after)
}

impl WhisperDecoder {
    /// Decodes one segment, and tries again at higher temperatures as long as the result is poor.
    pub fn decode_with_fallback(
        &mut self,
        model: &mut InnerModel,
        audio_features: &Tensor,
        sample_len: usize,
    ) -> (r: Result<DecodingResult, Error>)
        requires
            old(model).wf(),
        ensures
            final(model).wf(),
            same_settings(*final(self), *old(self)),
            r matches Ok(result) ==> fallback_decoded(
                *old(self),
                *old(model),
                array(*audio_features),
                sample_len as nat,
                result,
                final(self).rng,
                *final(model),
            ),
            r is Err ==> fallback_refused(
                *old(self),
                *old(model),
                array(*audio_features),
                sample_len as nat,
                final(self).rng,
                *final(model),
            ),
    {
        let ghost d = *self;
        let ghost features = array(*audio_features);
        let ghost limit = sample_len as nat;
        let ghost mut tries: Seq<Attempt> = Seq::empty();
        let mut attempt: usize = 0;
        loop
            invariant
                d == *old(self),
                same_settings(*self, d),
                model.wf(),
                features == array(*audio_features),
                limit == sample_len,
                attempt < ATTEMPTS,
                tries.len() == attempt,
                attempts_from(d, *old(model), features, limit, tries),
                forall|i: int| 0 <= i < tries.len() ==> !(#[trigger] tries[i]).good,
                attempt == 0 ==> self.rng == d.rng && *model == *old(model),
                attempt > 0 ==> self.rng == tries.last().generator_after && *model
                    == tries.last().model_after,
            decreases ATTEMPTS - attempt,
        {
            let ghost before = *self;
            let ghost model_before = *model;
            let sampling = if attempt == 0 {
                None
            } else {
                Some(quotient(attempt as i64, 5)?)
            };
            assert(sampling == attempt_sampling(attempt as int));
            assert(before == (WhisperDecoder { rng: before.rng, ..d }));
            let result = match self.decode_segment(model, audio_features, sample_len, sampling) {
                Ok(found) => found,
                Err(e) => {
                    proof {
                        assert(attempt_refused(
                            before,
                            model_before,
                            features,
                            limit,
                            attempt as int,
                            self.rng,
                            *model,
                        ));
                        assert(attempts_stop(
                            d,
                            *old(model),
                            features,
                            limit,
                            tries,
                            self.rng,
                            *model,
                        ));
                    }
                    return Err(e);
                },
            };
            let good = match judge(&result) {
                Ok(good) => good,
                Err(e) => {
                    proof {
                        assert(attempt_refused(
                            before,
                            model_before,
                            features,
                            limit,
                            attempt as int,
                            self.rng,
                            *model,
                        ));
                        assert(attempts_stop(
                            d,
                            *old(model),
                            features,
                            limit,
                            tries,
                            self.rng,
                            *model,
                        ));
                    }
                    return Err(e);
                },
            };
            proof {
                let a = Attempt {
                    generator: before.rng,
                    model: model_before,
                    result,
                    good,
                    generator_after: self.rng,
                    model_after: *model,
                };
                assert(attempt_made(d, features, limit, attempt as int, a));
                let more = tries.push(a);
                assert forall|i: int| 0 <= i < more.len() implies attempt_made(
                    d,
                    features,
                    limit,
                    i,
                    #[trigger] more[i],
                ) by {
                    if i < tries.len() {
                        assert(more[i] == tries[i]);
                    }
                }
                assert forall|i: int| 0 < i < more.len() implies (#[trigger] more[i]).generator
                    == more[i - 1].generator_after && more[i].model == more[i - 1].model_after by {
                    if i < tries.len() {
                        assert(more[i] == tries[i]);
                        assert(more[i - 1] == tries[i - 1]);
                    }
                }
                assert(attempts_from(d, *old(model), features, limit, more));
                tries = more;
            }
            if good || attempt == ATTEMPTS - 1 {
                return Ok(result);
            }
            attempt += 1;
        }
    }
}

/// Attempts go on from one another: the first one starts with the generator of the decoder and the model that
/// was given, each later one where the one before it left both. All but the last were found poor, and the last
/// one was found good or was the sixth.
pub proof fn law_attempts_go_on_from_one_another(
    d: WhisperDecoder,
    model: InnerModel,
    features: Array,
    limit: nat,
    result: DecodingResult,
    generator_after: StdRng,
    model_after: InnerModel,
)
    requires
        fallback_decoded(d, model, features, limit, result, generator_after, model_after),
    ensures
        exists|tries: Seq<Attempt>|
            {
                &&& #[trigger] went_on(tries, d.rng, model, generator_after, model_after)
                &&& 1 <= tries.len() <= 6
                &&& tries.last().result == result
                &&& forall|i: int|
                    0 <= i < tries.len() ==> attempt_made(d, features, limit, i, #[trigger] tries[i])
                &&& forall|i: int|
                    0 <= i < tries.len() ==> ((#[trigger] tries[i]).good ==> i == tries.len() - 1)
                &&& tries.len() < 6 ==> tries.last().good
            },
{
    let tries = choose|tries: Seq<Attempt>|
        {
            &&& #[trigger] attempts_from(d, model, features, limit, tries)
            &&& 1 <= tries.len() <= ATTEMPTS
            &&& forall|i: int| 0 <= i < tries.len() - 1 ==> !(#[trigger] tries[i]).good
            &&& tries.last().good || tries.len() == ATTEMPTS
            &&& tries.last().result == result
            &&& tries.last().generator_after == generator_after
            &&& tries.last().model_after == model_after
        };
    assert(went_on(tries, d.rng, model, generator_after, model_after));
}

/// Each attempt starts where the one before it stopped.
pub open spec fn went_on(
    tries: Seq<Attempt>,
    generator: StdRng,
    model: InnerModel,
    generator_after: StdRng,
    model_after: InnerModel,
) -> bool {
    &&& tries.first().generator == generator && tries.first().model == model
    &&& tries.last().generator_after == generator_after && tries.last().model_after == model_after
    &&& forall|i: int|
        1 <= i < tries.len() ==> {
            &&& (#[trigger] tries[i]).generator == tries[i - 1].generator_after
            &&& tries[i].model == tries[i - 1].model_after
        }
}

} // verus!
