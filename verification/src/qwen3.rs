//! Qwen3-ASR as a whole: a text decoder that continues a prompt around embedded audio, token by token.
use crate::attention::{
    attending_half, cached, cached_block, cached_layer_forward, cached_layer_refused, feeding_half,
    law_halves_have_ways_around, DecoderLayer, LayerKvCache,
};
use crate::decoder::{
    linear_forward, linear_forward_refused, rms_forward, rms_refused, LinearLayer, RmsNorm,
};
use crate::pipeline::{
    generation_outcome, language_name, language_suffix, language_view, next_token,
    next_token_refused, next_token_result, prompt_embeds, prompt_of, prompt_stops, suffix_for,
    suffix_spec, Generation, PromptError, StopReason,
};
use crate::tensor::{
    add_batch, array, dims, embed, embed_refused, is_embedding, share, with_batch, with_way_around,
    Array,
};
use crate::tokenizer::{decoded_text, Tokenizer};
use candle_core::{Error, Tensor};
use vstd::prelude::*;

verus! {

// ---------------------------------------------------------------------------
// The text decoder
// ---------------------------------------------------------------------------

/// Keys and values of all layers.
pub struct KvCache {
    pub layers: Vec<LayerKvCache>,
}

/// What the caches of layers hold.
pub open spec fn all_cached(layers: Seq<LayerKvCache>) -> Seq<Option<(Array, Array)>> {
    layers.map_values(|c: LayerKvCache| cached(c))
}

/// Nothing is cached for any of `n` layers.
pub open spec fn nothing_cached(n: nat) -> Seq<Option<(Array, Array)>> {
    Seq::new(n, |i: int| None::<(Array, Array)>)
}

impl KvCache {
    /// Each layer keeps its keys and values together.
    pub open spec fn wf(self) -> bool {
        forall|i: int| 0 <= i < self.layers@.len() ==> (#[trigger] self.layers@[i]).wf()
    }

    /// Caches without any positions.
    pub fn new(num_layers: usize) -> (r: KvCache)
        ensures
            r.wf(),
            all_cached(r.layers@) == nothing_cached(num_layers as nat),
    {
        let mut layers: Vec<LayerKvCache> = Vec::new();
        let mut i: usize = 0;
        while i < num_layers
            invariant
                i <= num_layers,
                layers@.len() == i,
                forall|j: int|
                    0 <= j < i ==> (#[trigger] layers@[j]).wf() && cached(layers@[j]) is None,
            decreases num_layers - i,
        {
            layers.push(LayerKvCache::new());
            i += 1;
        }
        assert(all_cached(layers@) =~= nothing_cached(num_layers as nat));
        KvCache { layers }
    }
}

/// The text decoder.
pub struct Qwen3Decoder {
    /// One row for each token.
    pub embed_tokens: Tensor,
    pub layers: Vec<DecoderLayer>,
    pub norm: RmsNorm,
    /// From entries to the scores of tokens.
    pub lm_head: LinearLayer,
    /// The number of tokens.
    pub vocab_size: usize,
}

/// Layer `i` led from one result to the next, with its cache before and after.
pub open spec fn layer_passed(
    d: Qwen3Decoder,
    start: int,
    before: Seq<Option<(Array, Array)>>,
    after: Seq<Option<(Array, Array)>>,
    chain: Seq<Array>,
    i: int,
) -> bool {
    after[i] is Some && cached_layer_forward(
        d.layers@[i],
        chain[i],
        start,
        before[i],
        after[i]->0,
        chain[i + 1],
    )
}

/// The results of the layers one after another, with the caches before and after.
pub open spec fn decoder_chain(
    d: Qwen3Decoder,
    start: int,
    before: Seq<Option<(Array, Array)>>,
    after: Seq<Option<(Array, Array)>>,
    chain: Seq<Array>,
) -> bool {
    &&& chain.len() == d.layers@.len() + 1
    &&& after.len() == before.len()
    &&& forall|i: int|
        0 <= i < d.layers@.len() ==> #[trigger] layer_passed(d, start, before, after, chain, i)
}

/// `scores` and the caches `after` are what the decoder gave for the entries `x` from position `start`
/// on.
pub open spec fn decoder_scored(
    d: Qwen3Decoder,
    x: Array,
    start: int,
    before: Seq<Option<(Array, Array)>>,
    after: Seq<Option<(Array, Array)>>,
    scores: Array,
) -> bool {
    exists|chain: Seq<Array>, normed: Array|
        {
            &&& #[trigger] decoder_chain(d, start, before, after, chain)
            &&& chain[0] == x
            &&& #[trigger] rms_forward(d.norm, chain.last(), normed)
            &&& linear_forward(d.lm_head, normed, scores)
        }
}

/// The layers before the last entry of `chain` led to its entries, and the next one can refuse a
/// step. The caches behind it are as they were.
pub open spec fn decoder_stops(
    d: Qwen3Decoder,
    start: int,
    before: Seq<Option<(Array, Array)>>,
    after: Seq<Option<(Array, Array)>>,
    chain: Seq<Array>,
) -> bool {
    let at = chain.len() - 1;
    &&& 0 <= at < d.layers@.len()
    &&& after.len() == before.len()
    &&& forall|i: int| 0 <= i < at ==> #[trigger] layer_passed(d, start, before, after, chain, i)
    &&& cached_layer_refused(d.layers@[at], chain[at], start, before[at], after[at])
    &&& forall|i: int| at < i < before.len() ==> #[trigger] after[i] == before[i]
}

/// A step of the decoder can be refused for the entries `x` from position `start` on: in a layer,
/// in the normalization behind them, or in the map to the scores.
pub open spec fn decoder_refused(
    d: Qwen3Decoder,
    x: Array,
    start: int,
    before: Seq<Option<(Array, Array)>>,
    after: Seq<Option<(Array, Array)>>,
) -> bool {
    ||| exists|chain: Seq<Array>| #[trigger]
        decoder_stops(d, start, before, after, chain) && chain[0] == x
    ||| exists|chain: Seq<Array>| #[trigger]
        decoder_chain(d, start, before, after, chain) && chain[0] == x && {
            ||| rms_refused(d.norm, chain.last())
            ||| exists|normed: Array| #[trigger]
                rms_forward(d.norm, chain.last(), normed) && linear_forward_refused(
                    d.lm_head,
                    normed,
                )
        }
}

impl Qwen3Decoder {
    /// All layers are well formed.
    pub open spec fn wf(self) -> bool {
        forall|i: int|
            0 <= i < self.layers@.len() ==> (#[trigger] self.layers@[i]).self_attn.wf()
    }

    /// The scores of tokens for entries from a position on. The caches take up the positions.
    pub fn forward_embeds_with_cache(
        &self,
        embeds: &Tensor,
        start_pos: usize,
        cache: &mut KvCache,
    ) -> (r: Result<Tensor, Error>)
        requires
            self.wf(),
            old(cache).wf(),
            old(cache).layers@.len() == self.layers@.len(),
        ensures
            final(cache).wf(),
            final(cache).layers@.len() == self.layers@.len(),
            r matches Ok(scores) ==> decoder_scored(
                *self,
                array(*embeds),
                start_pos as int,
                all_cached(old(cache).layers@),
                all_cached(final(cache).layers@),
                array(scores),
            ),
            r is Err ==> decoder_refused(
                *self,
                array(*embeds),
                start_pos as int,
                all_cached(old(cache).layers@),
                all_cached(final(cache).layers@),
            ),
    {
        let mut x = share(embeds);
        let ghost before = all_cached(cache.layers@);
        let ghost mut chain: Seq<Array> = seq![array(*embeds)];
        let mut i: usize = 0;
        while i < self.layers.len()
            invariant
                i <= self.layers@.len(),
                self.wf(),
                cache.wf(),
                cache.layers@.len() == self.layers@.len(),
                before == all_cached(old(cache).layers@),
                before.len() == self.layers@.len(),
                chain.len() == i + 1,
                chain[0] == array(*embeds),
                chain.last() == array(x),
                forall|j: int| i <= j < before.len() ==> cached(#[trigger] cache.layers@[j]) == before[j],
                forall|j: int|
                    0 <= j < i ==> #[trigger] layer_passed(
                        *self,
                        start_pos as int,
                        before,
                        all_cached(cache.layers@),
                        chain,
                        j,
                    ),
            decreases self.layers@.len() - i,
        {
            let ghost held = cache.layers@;
            assert(cached(held[i as int]) == before[i as int]);
            let mut part = LayerKvCache::new();
            std::mem::swap(&mut part, &mut cache.layers[i]);
            assert(part == held[i as int]);
            let outcome = self.layers[i].forward_with_cache(&x, start_pos, &mut part);
            let ghost filled = part;
            std::mem::swap(&mut part, &mut cache.layers[i]);
            assert(cache.layers@ =~= held.update(i as int, filled));
            let next = match outcome {
                Ok(n) => n,
                Err(e) => {
                    proof {
                        let after = all_cached(cache.layers@);
                        assert forall|j: int| 0 <= j < i implies #[trigger] layer_passed(
                            *self,
                            start_pos as int,
                            before,
                            after,
                            chain,
                            j,
                        ) by {
                            assert(layer_passed(
                                *self,
                                start_pos as int,
                                before,
                                all_cached(held),
                                chain,
                                j,
                            ));
                            assert(after[j] == all_cached(held)[j]);
                        }
                        assert forall|j: int| i < j < before.len() implies #[trigger] after[j]
                            == before[j] by {
                            assert(cached(held[j]) == before[j]);
                        }
                        assert(decoder_stops(*self, start_pos as int, before, after, chain));
                    }
                    return Err(e);
                },
            };
            proof {
                assert(cache.layers@[i as int] == filled);
                assert(cached(filled) is Some);
                assert(cached_layer_forward(
                    self.layers@[i as int],
                    chain[i as int],
                    start_pos as int,
                    before[i as int],
                    cached(filled)->0,
                    array(next),
                ));
                let longer = chain.push(array(next));
                assert forall|j: int| 0 <= j < i + 1 implies #[trigger] layer_passed(
                    *self,
                    start_pos as int,
                    before,
                    all_cached(cache.layers@),
                    longer,
                    j,
                ) by {
                    if j < i {
                        assert(layer_passed(
                            *self,
                            start_pos as int,
                            before,
                            all_cached(held),
                            chain,
                            j,
                        ));
                        assert(longer[j] == chain[j] && longer[j + 1] == chain[j + 1]);
                        assert(all_cached(cache.layers@)[j] == all_cached(held)[j]);
                    }
                }
                chain = longer;
            }
            x = next;
            i += 1;
        }
        assert(decoder_chain(
            *self,
            start_pos as int,
            before,
            all_cached(cache.layers@),
            chain,
        ));
        let normed = self.norm.forward(&x)?;
        let scores = self.lm_head.forward(&normed)?;
        proof {
            assert(rms_forward(self.norm, chain.last(), array(normed)));
        }
        Ok(scores)
    }
}

// ---------------------------------------------------------------------------
// The pipeline
// ---------------------------------------------------------------------------

/// Tokens that are generated where the caller does not say how many.
pub const DEFAULT_MAX_TOKENS: usize = 256;

/// From embedded audio to text.
pub struct AsrPipeline {
    pub decoder: Qwen3Decoder,
    pub tokenizer: Tokenizer,
}

/// The prompt around embedded audio. There is none where the vocabulary does not have the language.
pub open spec fn prompt_for(
    p: AsrPipeline,
    audio: Array,
    language: Option<Seq<char>>,
    prompt: Array,
) -> bool {
    match language {
        None => prompt_of(array(p.decoder.embed_tokens), audio, suffix_spec(), prompt),
        Some(lang) => language_suffix(p.tokenizer, lang) matches Some(more) && prompt_of(
            array(p.decoder.embed_tokens),
            audio,
            suffix_spec() + more,
            prompt,
        ),
    }
}

/// What was generated token by token: the scores and caches behind the prompt and behind each token,
/// and the tokens that the scores chose.
pub struct GenerationTrace {
    pub scores: Seq<Array>,
    pub caches: Seq<Seq<Option<(Array, Array)>>>,
    pub choices: Seq<u32>,
}

/// Turn `i`: the token that was chosen last is embedded and run through the decoder at its position.
pub open spec fn turn(p: AsrPipeline, prompt: Array, t: GenerationTrace, i: int) -> bool {
    exists|e: Array|
        {
            &&& #[trigger] is_embedding(array(p.decoder.embed_tokens), seq![t.choices[i - 1]], e)
            &&& decoder_scored(
                p.decoder,
                with_batch(e),
                prompt.dims[1] + i - 1,
                t.caches[i - 1],
                t.caches[i],
                t.scores[i],
            )
        }
}

/// A trace of generation from a prompt: the prompt is run through the decoder, the scores behind the
/// last position choose a token, and each token but the last is run through the decoder in turn.
pub open spec fn generation_trace(p: AsrPipeline, prompt: Array, t: GenerationTrace) -> bool {
    &&& t.scores.len() >= 1
    &&& t.caches.len() == t.scores.len()
    &&& t.scores.len() == t.choices.len() || t.scores.len() == t.choices.len() + 1
    &&& decoder_scored(
        p.decoder,
        prompt,
        0,
        nothing_cached(p.decoder.layers@.len()),
        t.caches[0],
        t.scores[0],
    )
    &&& forall|i: int|
        0 <= i < t.choices.len() ==> next_token_result(t.scores[i], #[trigger] t.choices[i])
    &&& forall|i: int| 0 < i < t.scores.len() ==> #[trigger] turn(p, prompt, t, i)
}

/// Embedding the token that was chosen last, or running it through the decoder at its position, can be
/// refused.
pub open spec fn turn_refused(p: AsrPipeline, prompt: Array, t: GenerationTrace) -> bool {
    let table = array(p.decoder.embed_tokens);
    let id = seq![t.choices.last()];
    ||| embed_refused(table, id)
    ||| exists|e: Array, after: Seq<Option<(Array, Array)>>| #[trigger]
        is_embedding(table, id, e) && #[trigger] decoder_refused(
            p.decoder,
            with_batch(e),
            prompt.dims[1] + t.choices.len() - 1,
            t.caches.last(),
            after,
        )
}

/// Generation from a prompt can stop with an error behind a trace: choosing the next token is refused,
/// or the turn of the one that was chosen last, or there is no position behind it.
pub open spec fn generation_stops(
    p: AsrPipeline,
    prompt: Array,
    max_tokens: nat,
    t: GenerationTrace,
    e: PromptError,
) -> bool {
    &&& generation_trace(p, prompt, t)
    &&& match e {
        PromptError::UnknownLanguage(_) => false,
        PromptError::TooLong => t.scores.len() == t.choices.len() && prompt.dims[1]
            + t.choices.len() > usize::MAX,
        PromptError::Tensor(_) => {
            ||| t.scores.len() == t.choices.len() + 1 && generation_outcome(
                t.choices,
                0,
                max_tokens,
            ) is None && next_token_refused(t.scores.last())
            ||| t.scores.len() == t.choices.len() && turn_refused(p, prompt, t)
        },
    }
    &&& generation_outcome(t.choices, 0, max_tokens) matches Some((_, reason)) ==> reason
        is MaxTokens
}

/// The decoder can refuse the prompt.
pub open spec fn start_refused(p: AsrPipeline, prompt: Array) -> bool {
    exists|after: Seq<Option<(Array, Array)>>| #[trigger]
        decoder_refused(p.decoder, prompt, 0, nothing_cached(p.decoder.layers@.len()), after)
}

/// An error other than an unknown language comes of laying out the prompt, of running it through the
/// decoder, or of generating behind it.
pub open spec fn transcription_stops(
    p: AsrPipeline,
    audio: Array,
    max_tokens: nat,
    language: Option<Seq<char>>,
    e: PromptError,
) -> bool {
    ||| suffix_for(p.tokenizer, language) matches Some(suffix) && prompt_stops(
        array(p.decoder.embed_tokens),
        audio,
        suffix,
        e,
    )
    ||| exists|prompt: Array| #[trigger]
        prompt_for(p, audio, language, prompt) && {
            ||| e is Tensor && start_refused(p, prompt)
            ||| exists|t: GenerationTrace| #[trigger]
                generation_stops(p, prompt, max_tokens, t, e)
        }
}

/// An error tells what went wrong: a language exactly where it is unknown, and otherwise what was too
/// long or was refused.
pub open spec fn tells(
    p: AsrPipeline,
    audio: Array,
    max_tokens: nat,
    language: Option<Seq<char>>,
    e: Option<PromptError>,
) -> bool {
    &&& tells_language(p, language, e)
    &&& e matches Some(x) ==> !(x is UnknownLanguage) ==> transcription_stops(
        p,
        audio,
        max_tokens,
        language,
        x,
    )
}

/// `tokens` and `reason` are what the pipeline gave for embedded audio.
pub open spec fn transcribed(
    p: AsrPipeline,
    audio: Array,
    max_tokens: nat,
    language: Option<Seq<char>>,
    tokens: Seq<u32>,
    reason: StopReason,
) -> bool {
    exists|prompt: Array, t: GenerationTrace|
        {
            &&& #[trigger] generation_trace(p, prompt, t)
            &&& prompt_for(p, audio, language, prompt)
            &&& generation_outcome(t.choices, 0, max_tokens) == Some((tokens, reason))
        }
}

/// `tokens` are what the pipeline gave for embedded audio.
pub open spec fn tokens_transcribed(
    p: AsrPipeline,
    audio: Array,
    max_tokens: nat,
    language: Option<Seq<char>>,
    tokens: Seq<u32>,
) -> bool {
    exists|reason: StopReason| #[trigger]
        transcribed(p, audio, max_tokens, language, tokens, reason)
}

/// `text` is that of the tokens that the pipeline gave for embedded audio.
pub open spec fn text_transcribed(
    p: AsrPipeline,
    audio: Array,
    max_tokens: nat,
    language: Option<Seq<char>>,
    text: Seq<char>,
) -> bool {
    exists|tokens: Seq<u32>| #[trigger]
        tokens_transcribed(p, audio, max_tokens, language, tokens) && text == decoded_text(
            p.tokenizer,
            tokens,
        )
}

/// What the pipeline makes of a recording.
pub struct AsrTranscription {
    /// The text as the model wrote it.
    pub raw: String,
    /// The number of generated tokens.
    pub generated_tokens: usize,
    pub stop_reason: StopReason,
}

/// A language is asked for that the vocabulary does not have.
pub open spec fn unknown_language(p: AsrPipeline, language: Option<Seq<char>>) -> bool {
    language matches Some(l) && language_suffix(p.tokenizer, l) is None
}

/// An error reports an unknown language exactly where it is unknown, by its normalized name.
pub open spec fn tells_language(
    p: AsrPipeline,
    language: Option<Seq<char>>,
    e: Option<PromptError>,
) -> bool {
    &&& unknown_language(p, language) ==> (e matches Some(PromptError::UnknownLanguage(name))
        && name@ == language_name(language->0))
    &&& e matches Some(PromptError::UnknownLanguage(_)) ==> unknown_language(p, language)
}

/// The error of an outcome.
pub open spec fn error_of<T>(r: Result<T, PromptError>) -> Option<PromptError> {
    match r {
        Ok(_) => None,
        Err(e) => Some(e),
    }
}

impl AsrPipeline {
    /// The decoder is well formed.
    pub open spec fn wf(self) -> bool {
        self.decoder.wf()
    }

    /// Generates tokens for embedded audio, and tells why it stopped.
    pub fn transcribe_with_max_tokens_and_language_with_reason(
        &self,
        audio_embeds: &Tensor,
        max_tokens: usize,
        force_language: Option<&str>,
    ) -> (r: Result<(Vec<u32>, StopReason), PromptError>)
        requires
            self.wf(),
        ensures
            tells(
                *self,
                array(*audio_embeds),
                max_tokens as nat,
                language_view(force_language),
                error_of(r),
            ),
            r matches Ok((tokens, reason)) ==> transcribed(
                *self,
                array(*audio_embeds),
                max_tokens as nat,
                language_view(force_language),
                tokens@,
                reason,
            ),
    {
        let table = &self.decoder.embed_tokens;
        let prompt = prompt_embeds(table, audio_embeds, &self.tokenizer, force_language)?;
        let prompt_len: usize = dims(&prompt)[1];
        let ghost behind = array(prompt);
        proof {
            assert(prompt_for(*self, array(*audio_embeds), language_view(force_language), behind));
            assert(!unknown_language(*self, language_view(force_language)));
        }
        let mut cache = KvCache::new(self.decoder.layers.len());
        assert(all_cached(cache.layers@).len() == cache.layers@.len());
        let mut scores = match self.decoder.forward_embeds_with_cache(&prompt, 0, &mut cache) {
            Ok(s) => s,
            Err(e) => {
                return Err(PromptError::Tensor(e));
            },
        };
        let mut g = Generation::new(max_tokens);
        let mut position: usize = prompt_len;
        let ghost mut t = GenerationTrace {
            scores: seq![array(scores)],
            caches: seq![all_cached(cache.layers@)],
            choices: Seq::empty(),
        };
        while g.stopped.is_none()
            invariant
                self.wf(),
                prompt_for(*self, array(*audio_embeds), language_view(force_language), behind),
                !unknown_language(*self, language_view(force_language)),
                table == &self.decoder.embed_tokens,
                g.wf(),
                g.max_tokens == max_tokens,
                cache.wf(),
                cache.layers@.len() == self.decoder.layers@.len(),
                generation_trace(*self, behind, t),
                t.scores.len() == t.choices.len() + 1,
                t.scores.last() == array(scores),
                t.caches.last() == all_cached(cache.layers@),
                g.tokens@ == t.choices,
                behind.dims.len() > 1,
                position == behind.dims[1] + t.choices.len(),
                match g.stopped {
                    Some(reason) => generation_outcome(t.choices, 0, max_tokens as nat) == Some(
                        (g.tokens@, reason),
                    ),
                    None => forall|choices: Seq<u32>|
                        t.choices.is_prefix_of(choices) ==> #[trigger] generation_outcome(
                            choices,
                            t.choices.len(),
                            max_tokens as nat,
                        ) == generation_outcome(choices, 0, max_tokens as nat),
                },
            decreases max_tokens - g.tokens@.len(),
        {
            let token = match next_token(&scores) {
                Ok(k) => k,
                Err(e) => {
                    let error = PromptError::Tensor(e);
                    proof {
                        assert(t.choices.is_prefix_of(t.choices));
                        assert(generation_outcome(
                            t.choices,
                            t.choices.len(),
                            max_tokens as nat,
                        ) is None);
                        assert(generation_stops(*self, behind, max_tokens as nat, t, error));
                    }
                    return Err(error);
                },
            };
            let ghost before = t.choices;
            let ghost chosen = GenerationTrace { choices: t.choices.push(token), ..t };
            proof {
                lemma_trace_with_choice(*self, behind, t, token);
                assert(before.is_prefix_of(chosen.choices));
                assert forall|choices: Seq<u32>| chosen.choices.is_prefix_of(choices) implies before.is_prefix_of(
                    choices,
                ) && choices[before.len() as int] == token && before.len() < choices.len() by {
                    assert(choices.take(before.len() as int) =~= before);
                }
            }
            g.accept(token);
            proof {
                assert(generation_outcome(chosen.choices, before.len(), max_tokens as nat)
                    == generation_outcome(chosen.choices, 0, max_tokens as nat));
                if g.stopped is None {
                    assert forall|choices: Seq<u32>|
                        chosen.choices.is_prefix_of(choices) implies #[trigger] generation_outcome(
                        choices,
                        chosen.choices.len(),
                        max_tokens as nat,
                    ) == generation_outcome(choices, 0, max_tokens as nat) by {
                        assert(before.is_prefix_of(choices));
                        assert(generation_outcome(choices, before.len(), max_tokens as nat)
                            == generation_outcome(choices, 0, max_tokens as nat));
                    }
                }
            }
            match g.stopped {
                Some(StopReason::Eos) => {
                    return Ok((g.tokens, StopReason::Eos));
                },
                Some(StopReason::Repetition) => {
                    return Ok((g.tokens, StopReason::Repetition));
                },
                _ => {},
            }
            let ids: Vec<u32> = vec![token];
            assert(ids@ =~= seq![token]);
            proof {
                assert(chosen.choices.is_prefix_of(chosen.choices));
                assert(generation_outcome(chosen.choices, 0, max_tokens as nat) matches Some(
                    (_, reason),
                ) ==> reason is MaxTokens);
                assert(chosen.choices.last() == token);
            }
            let rows = match embed(table, &ids) {
                Ok(x) => x,
                Err(e) => {
                    let error = PromptError::Tensor(e);
                    proof {
                        assert(turn_refused(*self, behind, chosen));
                        assert(generation_stops(*self, behind, max_tokens as nat, chosen, error));
                    }
                    return Err(error);
                },
            };
            let next = match add_batch(&rows) {
                Ok(x) => x,
                Err(e) => {
                    return Err(PromptError::Tensor(e));
                },
            };
            assert(is_embedding(array(*table), seq![token], array(rows)));
            let step = match self.decoder.forward_embeds_with_cache(&next, position, &mut cache) {
                Ok(x) => x,
                Err(e) => {
                    let error = PromptError::Tensor(e);
                    proof {
                        assert(decoder_refused(
                            self.decoder,
                            with_batch(array(rows)),
                            behind.dims[1] + chosen.choices.len() - 1,
                            chosen.caches.last(),
                            all_cached(cache.layers@),
                        ));
                        assert(turn_refused(*self, behind, chosen));
                        assert(generation_stops(*self, behind, max_tokens as nat, chosen, error));
                    }
                    return Err(error);
                },
            };
            if position == usize::MAX {
                let error = PromptError::TooLong;
                assert(generation_stops(*self, behind, max_tokens as nat, chosen, error));
                return Err(error);
            }
            position += 1;
            scores = step;
            proof {
                let longer = GenerationTrace {
                    scores: chosen.scores.push(array(step)),
                    caches: chosen.caches.push(all_cached(cache.layers@)),
                    choices: chosen.choices,
                };
                assert(longer.scores.drop_last() =~= chosen.scores);
                assert(longer.caches.drop_last() =~= chosen.caches);
                lemma_trace_with_turn(*self, behind, chosen, longer, array(rows));
                t = longer;
            }
        }
        assert(g.stopped is Some);
        let reason = match g.stopped {
            Some(reason) => reason,
            None => StopReason::MaxTokens,
        };
        Ok((g.tokens, reason))
    }

    /// Generates at most 256 tokens for embedded audio.
    pub fn transcribe(&self, audio_embeds: &Tensor) -> (r: Result<Vec<u32>, PromptError>)
        requires
            self.wf(),
        ensures
            tells(*self, array(*audio_embeds), 256, None, error_of(r)),
            r matches Ok(tokens) ==> tokens_transcribed(
                *self,
                array(*audio_embeds),
                256,
                None,
                tokens@,
            ),
    {
        self.transcribe_with_max_tokens(audio_embeds, DEFAULT_MAX_TOKENS)
    }

    /// Generates tokens for embedded audio.
    pub fn transcribe_with_max_tokens(
        &self,
        audio_embeds: &Tensor,
        max_tokens: usize,
    ) -> (r: Result<Vec<u32>, PromptError>)
        requires
            self.wf(),
        ensures
            tells(*self, array(*audio_embeds), max_tokens as nat, None, error_of(r)),
            r matches Ok(tokens) ==> tokens_transcribed(
                *self,
                array(*audio_embeds),
                max_tokens as nat,
                None,
                tokens@,
            ),
    {
        self.transcribe_with_max_tokens_and_language(audio_embeds, max_tokens, None)
    }

    /// Generates tokens for embedded audio. Where a language is forced, the prompt says so.
    pub fn transcribe_with_max_tokens_and_language(
        &self,
        audio_embeds: &Tensor,
        max_tokens: usize,
        force_language: Option<&str>,
    ) -> (r: Result<Vec<u32>, PromptError>)
        requires
            self.wf(),
        ensures
            tells(
                *self,
                array(*audio_embeds),
                max_tokens as nat,
                language_view(force_language),
                error_of(r),
            ),
            r matches Ok(tokens) ==> tokens_transcribed(
                *self,
                array(*audio_embeds),
                max_tokens as nat,
                language_view(force_language),
                tokens@,
            ),
    {
        let (tokens, reason) = self.transcribe_with_max_tokens_and_language_with_reason(
            audio_embeds,
            max_tokens,
            force_language,
        )?;
        assert(transcribed(
            *self,
            array(*audio_embeds),
            max_tokens as nat,
            language_view(force_language),
            tokens@,
            reason,
        ));
        Ok(tokens)
    }

    /// The text of embedded audio, of at most 256 tokens.
    pub fn transcribe_to_text(&self, audio_embeds: &Tensor) -> (r: Result<String, PromptError>)
        requires
            self.wf(),
        ensures
            tells(*self, array(*audio_embeds), 256, None, error_of(r)),
            r matches Ok(text) ==> text_transcribed(*self, array(*audio_embeds), 256, None, text@),
    {
        self.transcribe_to_text_with_max_tokens(audio_embeds, DEFAULT_MAX_TOKENS)
    }

    /// The text of embedded audio.
    pub fn transcribe_to_text_with_max_tokens(
        &self,
        audio_embeds: &Tensor,
        max_tokens: usize,
    ) -> (r: Result<String, PromptError>)
        requires
            self.wf(),
        ensures
            tells(*self, array(*audio_embeds), max_tokens as nat, None, error_of(r)),
            r matches Ok(text) ==> text_transcribed(
                *self,
                array(*audio_embeds),
                max_tokens as nat,
                None,
                text@,
            ),
    {
        self.transcribe_to_text_with_max_tokens_and_language(audio_embeds, max_tokens, None)
    }

    /// The text of embedded audio. Where a language is forced, the prompt says so.
    pub fn transcribe_to_text_with_max_tokens_and_language(
        &self,
        audio_embeds: &Tensor,
        max_tokens: usize,
        force_language: Option<&str>,
    ) -> (r: Result<String, PromptError>)
        requires
            self.wf(),
        ensures
            tells(
                *self,
                array(*audio_embeds),
                max_tokens as nat,
                language_view(force_language),
                error_of(r),
            ),
            r matches Ok(text) ==> text_transcribed(
                *self,
                array(*audio_embeds),
                max_tokens as nat,
                language_view(force_language),
                text@,
            ),
    {
        let tokens = self.transcribe_with_max_tokens_and_language(
            audio_embeds,
            max_tokens,
            force_language,
        )?;
        assert(tokens_transcribed(
            *self,
            array(*audio_embeds),
            max_tokens as nat,
            language_view(force_language),
            tokens@,
        ));
        Ok(self.tokenizer.decode(tokens.as_slice()))
    }

    /// The text of embedded audio as the model wrote it, with the number of its tokens and why it
    /// stopped.
    pub fn transcribe_to_result_with_max_tokens_and_language(
        &self,
        audio_embeds: &Tensor,
        max_tokens: usize,
        force_language: Option<&str>,
    ) -> (r: Result<AsrTranscription, PromptError>)
        requires
            self.wf(),
        ensures
            tells(
                *self,
                array(*audio_embeds),
                max_tokens as nat,
                language_view(force_language),
                error_of(r),
            ),
            r matches Ok(t) ==> exists|tokens: Seq<u32>| #[trigger]
                transcribed(
                    *self,
                    array(*audio_embeds),
                    max_tokens as nat,
                    language_view(force_language),
                    tokens,
                    t.stop_reason,
                ) && t.generated_tokens == tokens.len() && t.raw@ == decoded_text(
                    self.tokenizer,
                    tokens,
                ),
    {
        let (tokens, stop_reason) = self.transcribe_with_max_tokens_and_language_with_reason(
            audio_embeds,
            max_tokens,
            force_language,
        )?;
        let raw = self.tokenizer.decode(tokens.as_slice());
        let t = AsrTranscription { raw, generated_tokens: tokens.len(), stop_reason };
        assert(transcribed(
            *self,
            array(*audio_embeds),
            max_tokens as nat,
            language_view(force_language),
            tokens@,
            t.stop_reason,
        ));
        Ok(t)
    }

    /// The number of tokens in the vocabulary.
    pub fn vocab_size(&self) -> (r: usize)
        ensures
            r == self.decoder.vocab_size,
    {
        self.decoder.vocab_size
    }
}

/// A token that the last scores chose joins a trace.
proof fn lemma_trace_with_choice(p: AsrPipeline, prompt: Array, t: GenerationTrace, token: u32)
    requires
        generation_trace(p, prompt, t),
        t.scores.len() == t.choices.len() + 1,
        next_token_result(t.scores.last(), token),
    ensures
        generation_trace(p, prompt, GenerationTrace { choices: t.choices.push(token), ..t }),
{
    let c = GenerationTrace { choices: t.choices.push(token), ..t };
    assert forall|i: int| 0 <= i < c.choices.len() implies next_token_result(
        c.scores[i],
        #[trigger] c.choices[i],
    ) by {
        if i < t.choices.len() {
            assert(c.choices[i] == t.choices[i]);
        }
    }
    assert forall|i: int| 0 < i < c.scores.len() implies #[trigger] turn(p, prompt, c, i) by {
        assert(turn(p, prompt, t, i));
        let e = choose|e: Array|
            {
                &&& #[trigger] is_embedding(array(p.decoder.embed_tokens), seq![t.choices[i - 1]], e)
                &&& decoder_scored(
                    p.decoder,
                    with_batch(e),
                    prompt.dims[1] + i - 1,
                    t.caches[i - 1],
                    t.caches[i],
                    t.scores[i],
                )
            };
        assert(c.choices[i - 1] == t.choices[i - 1]);
        assert(is_embedding(array(p.decoder.embed_tokens), seq![c.choices[i - 1]], e));
    }
}

/// A turn with the token that was chosen last joins a trace.
proof fn lemma_trace_with_turn(
    p: AsrPipeline,
    prompt: Array,
    t: GenerationTrace,
    longer: GenerationTrace,
    e: Array,
)
    requires
        generation_trace(p, prompt, t),
        t.scores.len() == t.choices.len(),
        longer.choices == t.choices,
        longer.scores.len() == t.scores.len() + 1,
        longer.caches.len() == t.caches.len() + 1,
        longer.scores.drop_last() == t.scores,
        longer.caches.drop_last() == t.caches,
        is_embedding(array(p.decoder.embed_tokens), seq![t.choices.last()], e),
        decoder_scored(
            p.decoder,
            with_batch(e),
            prompt.dims[1] + t.choices.len() - 1,
            t.caches.last(),
            longer.caches.last(),
            longer.scores.last(),
        ),
    ensures
        generation_trace(p, prompt, longer),
{
    assert forall|i: int| 0 <= i < longer.choices.len() implies next_token_result(
        longer.scores[i],
        #[trigger] longer.choices[i],
    ) by {
        assert(longer.scores[i] == longer.scores.drop_last()[i]);
        assert(t.choices[i] == longer.choices[i]);
    }
    assert forall|i: int| 0 < i < longer.scores.len() implies #[trigger] turn(p, prompt, longer, i) by {
        if i < t.scores.len() {
            assert(turn(p, prompt, t, i));
            let x = choose|x: Array|
                {
                    &&& #[trigger] is_embedding(
                        array(p.decoder.embed_tokens),
                        seq![t.choices[i - 1]],
                        x,
                    )
                    &&& decoder_scored(
                        p.decoder,
                        with_batch(x),
                        prompt.dims[1] + i - 1,
                        t.caches[i - 1],
                        t.caches[i],
                        t.scores[i],
                    )
                };
            assert(longer.scores[i] == longer.scores.drop_last()[i]);
            assert(longer.caches[i] == longer.caches.drop_last()[i]);
            assert(longer.caches[i - 1] == longer.caches.drop_last()[i - 1]);
            assert(is_embedding(array(p.decoder.embed_tokens), seq![longer.choices[i - 1]], x));
        } else {
            assert(longer.caches[i - 1] == longer.caches.drop_last()[i - 1]);
            assert(is_embedding(array(p.decoder.embed_tokens), seq![longer.choices[i - 1]], e));
        }
    }
    assert(longer.scores[0] == longer.scores.drop_last()[0]);
    assert(longer.caches[0] == longer.caches.drop_last()[0]);
}

// ---------------------------------------------------------------------------
// What generation does
// ---------------------------------------------------------------------------

/// The layers stand behind one another, each with a cache of its own and both of its halves with ways around
/// them; the last result is normalized and led to the scores.
pub proof fn law_layers_stand_behind_one_another(
    d: Qwen3Decoder,
    x: Array,
    start: int,
    before: Seq<Option<(Array, Array)>>,
    after: Seq<Option<(Array, Array)>>,
    scores: Array,
)
    requires
        decoder_scored(d, x, start, before, after, scores),
    ensures
        exists|chain: Seq<Array>, normed: Array|
            {
                &&& chain.len() == d.layers@.len() + 1
                &&& chain.first() == x
                &&& forall|i: int|
                    0 <= i < d.layers@.len() ==> #[trigger] led_on(
                        d.layers@[i],
                        start,
                        before,
                        after,
                        chain,
                        i,
                    )
                &&& #[trigger] rms_forward(d.norm, chain.last(), normed)
                &&& linear_forward(d.lm_head, normed, scores)
            },
{
    let (chain, normed) = choose|chain: Seq<Array>, normed: Array|
        {
            &&& #[trigger] decoder_chain(d, start, before, after, chain)
            &&& chain[0] == x
            &&& #[trigger] rms_forward(d.norm, chain.last(), normed)
            &&& linear_forward(d.lm_head, normed, scores)
        };
    assert forall|i: int| 0 <= i < d.layers@.len() implies #[trigger] led_on(
        d.layers@[i],
        start,
        before,
        after,
        chain,
        i,
    ) by {
        assert(layer_passed(d, start, before, after, chain, i));
        law_halves_have_ways_around(
            d.layers@[i],
            chain[i],
            start,
            before[i],
            after[i]->0,
            chain[i + 1],
        );
    }
    assert(rms_forward(d.norm, chain.last(), normed));
}

/// Layer `i` led from one result to the next, with its own cache before and after.
pub open spec fn led_on(
    l: DecoderLayer,
    start: int,
    before: Seq<Option<(Array, Array)>>,
    after: Seq<Option<(Array, Array)>>,
    chain: Seq<Array>,
    i: int,
) -> bool {
    after[i] is Some && led_through(l, start, before[i], after[i]->0, chain[i], chain[i + 1])
}

/// A layer led from `x` to `y`: attention behind the cached positions and the gated network, each with a way
/// around it.
pub open spec fn led_through(
    l: DecoderLayer,
    start: int,
    before: Option<(Array, Array)>,
    after: (Array, Array),
    x: Array,
    y: Array,
) -> bool {
    exists|m: Array| #[trigger]
        with_way_around(attending_half(l, cached_block(l.self_attn, start, before, after)))(x, m)
            && with_way_around(feeding_half(l))(m, y)
}

/// Generation goes token by token: the prompt enters the decoder first, from position zero on and with nothing
/// cached; each token that the last scores chose enters it next, alone, at the position behind all before it
/// and with what was cached up to there.
pub proof fn law_tokens_enter_behind_the_prompt(p: AsrPipeline, prompt: Array, t: GenerationTrace)
    requires
        generation_trace(p, prompt, t),
    ensures
        t.scores.len() >= 1,
        decoder_scored(
            p.decoder,
            prompt,
            0,
            Seq::new(p.decoder.layers@.len(), |i: int| None::<(Array, Array)>),
            t.caches[0],
            t.scores[0],
        ),
        forall|i: int|
            0 <= i < t.choices.len() ==> next_token_result(t.scores[i], #[trigger] t.choices[i]),
        forall|i: int|
            1 <= i < t.scores.len() ==> entered(
                p,
                t.choices[i - 1],
                prompt.dims[1] + (i - 1),
                t.caches[i - 1],
                t.caches[i],
                #[trigger] t.scores[i],
            ),
{
    assert forall|i: int| 1 <= i < t.scores.len() implies entered(
        p,
        t.choices[i - 1],
        prompt.dims[1] + (i - 1),
        t.caches[i - 1],
        t.caches[i],
        #[trigger] t.scores[i],
    ) by {
        assert(turn(p, prompt, t, i));
        let e = choose|e: Array|
            {
                &&& #[trigger] is_embedding(
                    array(p.decoder.embed_tokens),
                    seq![t.choices[i - 1]],
                    e,
                )
                &&& decoder_scored(
                    p.decoder,
                    with_batch(e),
                    prompt.dims[1] + i - 1,
                    t.caches[i - 1],
                    t.caches[i],
                    t.scores[i],
                )
            };
        assert(with_batch(e).dims =~= seq![1usize] + e.dims);
        assert(is_embedding(array(p.decoder.embed_tokens), seq![t.choices[i - 1]], e));
        assert(decoder_scored(
            p.decoder,
            with_batch(e),
            prompt.dims[1] + (i - 1),
            t.caches[i - 1],
            t.caches[i],
            t.scores[i],
        ));
    }
}

/// One token entered the decoder: its row of the embedding is a text of one position.
pub open spec fn entered(
    p: AsrPipeline,
    token: u32,
    position: int,
    before: Seq<Option<(Array, Array)>>,
    after: Seq<Option<(Array, Array)>>,
    scores: Array,
) -> bool {
    exists|row: Array, text: Array|
        {
            &&& row.elems == text.elems && text.dims == seq![1usize] + row.dims
            &&& #[trigger] is_embedding(array(p.decoder.embed_tokens), seq![token], row)
            &&& #[trigger] decoder_scored(p.decoder, text, position, before, after, scores)
        }
}

} // verus!
