//! Whisper: special tokens, transcripts of spectrograms, and mel filters from a file.
use crate::chunks::{
    appended, chunk_bounds, chunk_seed, join_whisper, paired, segment_views, views, Chunk,
    Transcript,
};
use crate::definition::{definition_of, token_number, tokens_told, WhisperTokenizer};
use crate::json::JsonTree;
use crate::listening::{audible, encoding_refused, model_emptied, model_encoded, InnerModel};
use crate::segment::{
    fallback_decoded, fallback_refused, segment_decoded, segment_refused, started_from,
    DecodingResult, Task, WhisperDecoder,
};
use crate::tensor::{array, Array};
use crate::text::{decimal, decimal_digits};
use candle_core::scalar::Scalar;
use candle_core::{Error, Tensor};
use rand::rngs::StdRng;
use vstd::prelude::*;
use vstd::slice::slice_subrange;

verus! {

// ---------------------------------------------------------------------------
// Special tokens
// ---------------------------------------------------------------------------

/// The tokens that control decoding.
#[derive(Debug, Clone, Copy, PartialEq, Eq, Structural)]
pub struct SpecialTokens {
    /// `<|startoftranscript|>`
    pub sot: u32,
    /// `<|endoftext|>`
    pub eot: u32,
    /// `<|transcribe|>`
    pub transcribe: u32,
    /// `<|translate|>`
    pub translate: u32,
    /// `<|nospeech|>`, or `<|nocaptions|>` in older vocabularies.
    pub no_speech: u32,
    /// `<|notimestamps|>`
    pub no_timestamps: u32,
}

/// The number of the token for the absence of speech, where the vocabulary names none.
pub const NO_SPEECH: u32 = 50362;

/// A token that the vocabulary lacks.
pub struct MissingToken {
    pub text: String,
}

/// The tokens that must be there, in the order in which they are looked up.
pub open spec fn needed_tokens() -> Seq<Seq<char>> {
    seq![
        "<|startoftranscript|>"@,
        "<|endoftext|>"@,
        "<|transcribe|>"@,
        "<|translate|>"@,
        "<|notimestamps|>"@,
    ]
}

/// The token for the absence of speech.
pub open spec fn no_speech_token(definition: JsonTree) -> u32 {
    match token_number(definition, "<|nospeech|>"@) {
        Some(n) => n,
        None => match token_number(definition, "<|nocaptions|>"@) {
            Some(n) => n,
            None => NO_SPEECH,
        },
    }
}

/// The special tokens of a vocabulary.
pub open spec fn are_special_tokens(definition: JsonTree, s: SpecialTokens) -> bool {
    &&& token_number(definition, needed_tokens()[0]) == Some(s.sot)
    &&& token_number(definition, needed_tokens()[1]) == Some(s.eot)
    &&& token_number(definition, needed_tokens()[2]) == Some(s.transcribe)
    &&& token_number(definition, needed_tokens()[3]) == Some(s.translate)
    &&& token_number(definition, needed_tokens()[4]) == Some(s.no_timestamps)
    &&& s.no_speech == no_speech_token(definition)
}

/// The first one of the tokens that must be there and are not.
pub open spec fn first_missing(definition: JsonTree, text: Seq<char>) -> bool {
    exists|i: int|
        {
            &&& 0 <= i < needed_tokens().len()
            &&& text == #[trigger] needed_tokens()[i]
            &&& token_number(definition, needed_tokens()[i]) is None
            &&& forall|j: int|
                0 <= j < i ==> token_number(definition, #[trigger] needed_tokens()[j]) is Some
        }
}

/// The text of the token of a language.
pub open spec fn language_mark(language: Seq<char>) -> Seq<char> {
    "<|"@ + language + "|>"@
}

fn required(t: &WhisperTokenizer, text: &str) -> (r: Result<u32, MissingToken>)
    ensures
        match r {
            Ok(n) => token_number(definition_of(*t), text@) == Some(n),
            Err(e) => token_number(definition_of(*t), text@) is None && e.text@ == text@,
        },
{
    match t.token_id(text) {
        Some(n) => Ok(n),
        None => Err(MissingToken { text: text.to_owned() }),
    }
}

/// The special tokens of a vocabulary. The first one that must be there and is not is reported.
pub fn special_tokens(t: &WhisperTokenizer) -> (r: Result<SpecialTokens, MissingToken>)
    ensures
        match r {
            Ok(s) => are_special_tokens(definition_of(*t), s),
            Err(e) => first_missing(definition_of(*t), e.text@),
        },
{
    let ghost needed = needed_tokens();
    assert(needed[0] == "<|startoftranscript|>"@);
    assert(needed[1] == "<|endoftext|>"@);
    assert(needed[2] == "<|transcribe|>"@);
    assert(needed[3] == "<|translate|>"@);
    assert(needed[4] == "<|notimestamps|>"@);
    let sot = required(t, "<|startoftranscript|>")?;
    let eot = required(t, "<|endoftext|>")?;
    let transcribe = required(t, "<|transcribe|>")?;
    let translate = required(t, "<|translate|>")?;
    let no_speech = match t.token_id("<|nospeech|>") {
        Some(n) => n,
        None => match t.token_id("<|nocaptions|>") {
            Some(n) => n,
            None => NO_SPEECH,
        },
    };
    let no_timestamps = required(t, "<|notimestamps|>")?;
    Ok(SpecialTokens { sot, eot, transcribe, translate, no_speech, no_timestamps })
}

/// The token of a language, by its two-letter code.
pub fn language_token(t: &WhisperTokenizer, language: &str) -> (r: Option<u32>)
    ensures
        r == token_number(definition_of(*t), language_mark(language@)),
{
    let mut text: String = String::new();
    text.push_str("<|");
    text.push_str(language);
    text.push_str("|>");
    assert(text@ =~= language_mark(language@));
    t.token_id(text.as_str())
}

/// The text of the tokens of a segment.
pub fn segment_text(t: &WhisperTokenizer, tokens: &Vec<u32>) -> (r: Option<String>)
    ensures
        match r {
            Some(s) => tokens_told(*t, tokens@, Some(s@)),
            None => tokens_told(*t, tokens@, None),
        },
{
    t.decode(tokens)
}

// ---------------------------------------------------------------------------
// Transcripts
// ---------------------------------------------------------------------------

/// How the tokens of a chunk are chosen.
#[derive(Debug, Clone, Copy)]
pub enum Strategy {
    /// Greedily, with attempts at rising temperatures where the result is poor.
    Fallback,
    /// Greedily, once.
    Greedy,
    /// By chance, at this temperature.
    Sampled(Scalar),
}

/// The temperature of a strategy that makes one attempt.
pub open spec fn strategy_sampling(s: Strategy) -> Option<Scalar> {
    match s {
        Strategy::Sampled(t) => Some(t),
        _ => None::<Scalar>,
    }
}

/// How a recording is transcribed.
pub struct WhisperSettings {
    pub special: SpecialTokens,
    /// The token of the language, where one is asked for and known.
    pub language_token: Option<u32>,
    /// Whether time stamps are generated.
    pub timestamps: bool,
    pub strategy: Strategy,
    /// Tokens that are never chosen.
    pub suppress_tokens: Vec<u32>,
    /// Greatest number of tokens of a chunk.
    pub sample_len: usize,
}

/// The settings for a recording. A language that the vocabulary does not have is left open, and a chunk
/// may have half as many tokens as the model has positions.
pub fn whisper_settings(
    t: &WhisperTokenizer,
    language: Option<&str>,
    timestamps: bool,
    strategy: Strategy,
    suppress_tokens: Vec<u32>,
    max_target_positions: usize,
) -> (r: Result<WhisperSettings, MissingToken>)
    ensures
        match r {
            Ok(s) => {
                &&& are_special_tokens(definition_of(*t), s.special)
                &&& s.language_token == match language {
                    Some(l) => token_number(definition_of(*t), language_mark(l@)),
                    None => None::<u32>,
                }
                &&& s.timestamps == timestamps
                &&& s.strategy == strategy
                &&& s.suppress_tokens@ == suppress_tokens@
                &&& s.sample_len == max_target_positions / 2
            },
            Err(e) => first_missing(definition_of(*t), e.text@),
        },
{
    let special = special_tokens(t)?;
    let language_token = match language {
        Some(l) => language_token(t, l),
        None => None,
    };
    Ok(
        WhisperSettings {
            special,
            language_token,
            timestamps,
            strategy,
            suppress_tokens,
            sample_len: max_target_positions / 2,
        },
    )
}

/// Why a recording could not be transcribed.
pub enum TranscribeError {
    /// The tensor library failed.
    Tensor(Error),
    /// The tokenizer has no text for the tokens of a chunk.
    Text,
}

/// A decoder with the settings for a recording and the seed of a chunk.
pub open spec fn decoder_for(s: WhisperSettings, index: nat, d: WhisperDecoder) -> bool {
    &&& d.sot_token == s.special.sot
    &&& d.eot_token == s.special.eot
    &&& d.transcribe_token == s.special.transcribe
    &&& d.translate_token == s.special.translate
    &&& d.no_speech_token == s.special.no_speech
    &&& d.no_timestamps_token == s.special.no_timestamps
    &&& d.language_token == s.language_token
    &&& d.task == Task::Transcribe
    &&& d.timestamps == s.timestamps
    &&& d.suppress_tokens@ == s.suppress_tokens@
    &&& started_from(d.rng, (42 + index) as u64)
}

/// What came between a chunk and its text.
pub struct ChunkTrace {
    pub emptied: InnerModel,
    pub encoded: InnerModel,
    pub features: Array,
    pub decoder: WhisperDecoder,
    pub generator: StdRng,
}

/// A chunk was transcribed, with what came between: the model forgets what it has seen, encodes the
/// spectrogram, and the features are decoded with the seed of the chunk. The tokenizer may have no text
/// for the tokens.
pub open spec fn chunk_steps(
    tokenizer: WhisperTokenizer,
    s: WhisperSettings,
    index: nat,
    model: InnerModel,
    mel: Array,
    t: ChunkTrace,
    result: DecodingResult,
    text: Option<Seq<char>>,
    model_after: InnerModel,
) -> bool {
    &&& model_emptied(model, t.emptied)
    &&& model_encoded(t.emptied, mel, true, t.encoded, t.features)
    &&& decoder_for(s, index, t.decoder)
    &&& if s.strategy is Fallback {
        fallback_decoded(
            t.decoder,
            t.encoded,
            t.features,
            s.sample_len as nat,
            result,
            t.generator,
            model_after,
        )
    } else {
        segment_decoded(
            t.decoder,
            t.encoded,
            t.features,
            s.sample_len as nat,
            strategy_sampling(s.strategy),
            result,
            t.generator,
            model_after,
        )
    }
    &&& tokens_told(tokenizer, result.tokens@, text)
}

/// A chunk was transcribed.
pub open spec fn chunk_transcribed(
    tokenizer: WhisperTokenizer,
    s: WhisperSettings,
    index: nat,
    model: InnerModel,
    mel: Array,
    result: DecodingResult,
    text: Seq<char>,
    model_after: InnerModel,
) -> bool {
    exists|t: ChunkTrace| #[trigger]
        chunk_steps(tokenizer, s, index, model, mel, t, result, Some(text), model_after)
}

/// A chunk was decoded, and the tokenizer has no text for its tokens.
pub open spec fn chunk_without_text(
    tokenizer: WhisperTokenizer,
    s: WhisperSettings,
    index: nat,
    model: InnerModel,
    mel: Array,
    model_after: InnerModel,
) -> bool {
    exists|t: ChunkTrace, result: DecodingResult| #[trigger]
        chunk_steps(tokenizer, s, index, model, mel, t, result, None, model_after)
}

/// Decoding the features of a chunk can be refused.
pub open spec fn chunk_decoding_refused(
    s: WhisperSettings,
    d: WhisperDecoder,
    model: InnerModel,
    features: Array,
    generator_after: StdRng,
    model_after: InnerModel,
) -> bool {
    if s.strategy is Fallback {
        fallback_refused(d, model, features, s.sample_len as nat, generator_after, model_after)
    } else {
        segment_refused(
            d,
            model,
            features,
            s.sample_len as nat,
            strategy_sampling(s.strategy),
            generator_after,
            model_after,
        )
    }
}

/// A chunk is encoded, and decoding its features is refused.
pub open spec fn chunk_decoding_stops(
    s: WhisperSettings,
    index: nat,
    mel: Array,
    t: ChunkTrace,
    model_after: InnerModel,
) -> bool {
    &&& model_encoded(t.emptied, mel, true, t.encoded, t.features)
    &&& decoder_for(s, index, t.decoder)
    &&& chunk_decoding_refused(s, t.decoder, t.encoded, t.features, t.generator, model_after)
}

/// A chunk can be refused: its spectrogram is empty or not one of a recording, or the model refuses to
/// encode it or to decode its features.
pub open spec fn chunk_refused(
    s: WhisperSettings,
    index: nat,
    model: InnerModel,
    mel: Array,
    model_after: InnerModel,
) -> bool {
    ||| exists|e: InnerModel| #[trigger]
        model_emptied(model, e) && !audible(mel.dims) && model_after == e
    ||| exists|e: InnerModel| #[trigger]
        model_emptied(model, e) && encoding_refused(e, mel, true, model_after)
    ||| exists|t: ChunkTrace| #[trigger]
        chunk_decoding_stops(s, index, mel, t, model_after) && model_emptied(model, t.emptied)
}

/// Transcribes the spectrogram of one chunk.
pub fn transcribe_chunk(
    model: &mut InnerModel,
    tokenizer: &WhisperTokenizer,
    settings: &WhisperSettings,
    mel: &Tensor,
    index: usize,
) -> (r: Result<(DecodingResult, String), TranscribeError>)
    requires
        index <= u64::MAX - 42,
        old(model).wf(),
    ensures
        final(model).wf(),
        r matches Ok((result, text)) ==> chunk_transcribed(
            *tokenizer,
            *settings,
            index as nat,
            *old(model),
            array(*mel),
            result,
            text@,
            *final(model),
        ),
        r matches Err(TranscribeError::Text) ==> chunk_without_text(
            *tokenizer,
            *settings,
            index as nat,
            *old(model),
            array(*mel),
            *final(model),
        ),
        r matches Err(TranscribeError::Tensor(_)) ==> chunk_refused(
            *settings,
            index as nat,
            *old(model),
            array(*mel),
            *final(model),
        ),
{
    let ghost before = *model;
    model.reset_kv_cache();
    let ghost emptied = *model;
    let features = match model.encoder_forward(mel, true) {
        Ok(t) => t,
        Err(e) => {
            return Err(TranscribeError::Tensor(e));
        },
    };
    let ghost encoded = *model;
    let mut decoder = WhisperDecoder::new(
        settings.special,
        settings.language_token,
        Task::Transcribe,
        settings.timestamps,
        settings.suppress_tokens.clone(),
        chunk_seed(index),
    );
    let ghost started = decoder;
    let decoded = match settings.strategy {
        Strategy::Fallback => decoder.decode_with_fallback(model, &features, settings.sample_len),
        Strategy::Greedy => decoder.decode_segment(model, &features, settings.sample_len, None),
        Strategy::Sampled(t) => decoder.decode_segment(
            model,
            &features,
            settings.sample_len,
            Some(t),
        ),
    };
    let result = match decoded {
        Ok(d) => d,
        Err(e) => {
            proof {
                let t = ChunkTrace {
                    emptied,
                    encoded,
                    features: array(features),
                    decoder: started,
                    generator: decoder.rng,
                };
                assert(chunk_decoding_stops(*settings, index as nat, array(*mel), t, *model));
            }
            return Err(TranscribeError::Tensor(e));
        },
    };
    let ghost t = ChunkTrace {
        emptied,
        encoded,
        features: array(features),
        decoder: started,
        generator: decoder.rng,
    };
    match segment_text(tokenizer, &result.tokens) {
        Some(text) => {
            proof {
                assert(chunk_steps(
                    *tokenizer,
                    *settings,
                    index as nat,
                    before,
                    array(*mel),
                    t,
                    result,
                    Some(text@),
                    *model,
                ));
            }
            Ok((result, text))
        },
        None => {
            proof {
                assert(chunk_steps(
                    *tokenizer,
                    *settings,
                    index as nat,
                    before,
                    array(*mel),
                    t,
                    result,
                    None,
                    *model,
                ));
            }
            Err(TranscribeError::Text)
        },
    }
}

/// A transcript with the results of its chunks.
pub struct WhisperTranscript {
    pub transcript: Transcript,
    pub results: Vec<DecodingResult>,
}

/// Chunks were transcribed one after another by a model that goes from one to the next.
pub open spec fn chunks_transcribed(
    tokenizer: WhisperTokenizer,
    s: WhisperSettings,
    mels: Seq<Tensor>,
    results: Seq<DecodingResult>,
    texts: Seq<Seq<char>>,
    models: Seq<InnerModel>,
) -> bool {
    &&& results.len() == texts.len()
    &&& models.len() == texts.len() + 1
    &&& forall|i: int|
        0 <= i < texts.len() ==> chunk_transcribed(
            tokenizer,
            s,
            i as nat,
            models[i],
            array(mels[i]),
            #[trigger] results[i],
            texts[i],
            models[i + 1],
        )
}

/// A recording was transcribed.
pub open spec fn recording_transcribed(
    tokenizer: WhisperTokenizer,
    s: WhisperSettings,
    model: InnerModel,
    mels: Seq<Tensor>,
    chunks: Seq<Chunk>,
    t: WhisperTranscript,
    model_after: InnerModel,
) -> bool {
    exists|texts: Seq<Seq<char>>, models: Seq<InnerModel>|
        {
            &&& #[trigger] chunks_transcribed(tokenizer, s, mels, t.results@, texts, models)
            &&& texts.len() == mels.len()
            &&& models[0] == model
            &&& models.last() == model_after
            &&& t.transcript.text@ == appended(texts)
            &&& segment_views(t.transcript.segments@) == paired(chunk_bounds(chunks), texts)
        }
}

/// The chunks of a recording up to one were transcribed, and what that left behind.
pub open spec fn chunks_up_to(
    tokenizer: WhisperTokenizer,
    s: WhisperSettings,
    model: InnerModel,
    mels: Seq<Tensor>,
    results: Seq<DecodingResult>,
    texts: Seq<Seq<char>>,
    models: Seq<InnerModel>,
) -> bool {
    &&& chunks_transcribed(tokenizer, s, mels, results, texts, models)
    &&& texts.len() < mels.len()
    &&& models[0] == model
}

/// The chunks of a recording up to one were transcribed. That one was decoded, and the tokenizer has no
/// text for its tokens.
pub open spec fn recording_without_text(
    tokenizer: WhisperTokenizer,
    s: WhisperSettings,
    model: InnerModel,
    mels: Seq<Tensor>,
    model_after: InnerModel,
) -> bool {
    exists|results: Seq<DecodingResult>, texts: Seq<Seq<char>>, models: Seq<InnerModel>|
        {
            &&& #[trigger] chunks_up_to(tokenizer, s, model, mels, results, texts, models)
            &&& chunk_without_text(
                tokenizer,
                s,
                texts.len(),
                models.last(),
                array(mels[texts.len() as int]),
                model_after,
            )
        }
}

/// The chunks of a recording up to one were transcribed, and that one can be refused.
pub open spec fn recording_refused(
    tokenizer: WhisperTokenizer,
    s: WhisperSettings,
    model: InnerModel,
    mels: Seq<Tensor>,
    model_after: InnerModel,
) -> bool {
    exists|results: Seq<DecodingResult>, texts: Seq<Seq<char>>, models: Seq<InnerModel>|
        {
            &&& #[trigger] chunks_up_to(tokenizer, s, model, mels, results, texts, models)
            &&& chunk_refused(
                s,
                texts.len(),
                models.last(),
                array(mels[texts.len() as int]),
                model_after,
            )
        }
}

/// Transcribes the spectrograms of the chunks of a recording, and puts their texts together.
pub fn transcribe_mels(
    model: &mut InnerModel,
    tokenizer: &WhisperTokenizer,
    settings: &WhisperSettings,
    mels: &Vec<Tensor>,
    chunks: &Vec<Chunk>,
) -> (r: Result<WhisperTranscript, TranscribeError>)
    requires
        mels@.len() == chunks@.len(),
        mels@.len() <= u64::MAX - 42,
        old(model).wf(),
    ensures
        final(model).wf(),
        r matches Ok(t) ==> recording_transcribed(
            *tokenizer,
            *settings,
            *old(model),
            mels@,
            chunks@,
            t,
            *final(model),
        ),
        r matches Err(TranscribeError::Text) ==> recording_without_text(
            *tokenizer,
            *settings,
            *old(model),
            mels@,
            *final(model),
        ),
        r matches Err(TranscribeError::Tensor(_)) ==> recording_refused(
            *tokenizer,
            *settings,
            *old(model),
            mels@,
            *final(model),
        ),
        mels@.len() == 0 ==> r is Ok,
{
    let n: usize = mels.len();
    let mut texts: Vec<String> = Vec::new();
    let mut results: Vec<DecodingResult> = Vec::new();
    let ghost mut models: Seq<InnerModel> = seq![*model];
    let mut i: usize = 0;
    while i < n
        invariant
            i <= n == mels@.len(),
            n <= u64::MAX - 42,
            model.wf(),
            texts@.len() == i,
            models[0] == *old(model),
            models.last() == *model,
            chunks_transcribed(*tokenizer, *settings, mels@, results@, views(texts@), models),
        decreases n - i,
    {
        let (result, text) = match transcribe_chunk(model, tokenizer, settings, &mels[i], i) {
            Ok(done) => done,
            Err(e) => {
                assert(chunks_up_to(
                    *tokenizer,
                    *settings,
                    *old(model),
                    mels@,
                    results@,
                    views(texts@),
                    models,
                ));
                return Err(e);
            },
        };
        let ghost before = views(texts@);
        let ghost before_results = results@;
        texts.push(text);
        results.push(result);
        proof {
            assert(views(texts@) =~= before.push(text@));
            let longer = models.push(*model);
            assert forall|k: int| 0 <= k < views(texts@).len() implies chunk_transcribed(
                *tokenizer,
                *settings,
                k as nat,
                longer[k],
                array(mels@[k]),
                #[trigger] results@[k],
                views(texts@)[k],
                longer[k + 1],
            ) by {
                if k < before.len() {
                    assert(results@[k] == before_results[k]);
                    assert(longer[k] == models[k] && longer[k + 1] == models[k + 1]);
                }
            }
            models = longer;
        }
        i += 1;
    }
    let ghost all = views(texts@);
    let transcript = join_whisper(chunks, texts);
    let t = WhisperTranscript { transcript, results };
    assert(chunks_transcribed(*tokenizer, *settings, mels@, t.results@, all, models));
    Ok(t)
}

// ---------------------------------------------------------------------------
// Mel filters
// ---------------------------------------------------------------------------

/// `safetensors::SafeTensors`.
#[verifier::external_type_specification]
#[verifier::external_body]
pub struct ExSafeTensors<'a>(safetensors::SafeTensors<'a>);

/// `safetensors::SafeTensorError`.
#[verifier::external_type_specification]
#[verifier::external_body]
pub struct ExSafeTensorError(safetensors::SafeTensorError);

/// A tensor in an archive: its extents and its bytes.
pub struct RawTensor {
    pub dims: Vec<usize>,
    pub bytes: Vec<u8>,
}

/// The tensors of an archive by their names.
pub uninterp spec fn archive_entries(a: safetensors::SafeTensors<'_>) -> Map<
    Seq<char>,
    (Seq<usize>, Seq<u8>),
>;

/// The tensors that bytes hold, where they are an archive.
pub uninterp spec fn archive_of(bytes: Seq<u8>) -> Option<Map<Seq<char>, (Seq<usize>, Seq<u8>)>>;

/// The number that eight bytes spell, the lowest first.
pub open spec fn little_endian(b: Seq<u8>) -> nat {
    (b[0] + 0x100 * b[1] + 0x1_0000 * b[2] + 0x100_0000 * b[3] + 0x1_0000_0000 * b[4]
        + 0x100_0000_0000 * b[5] + 0x1_0000_0000_0000 * b[6] + 0x100_0000_0000_0000 * b[7]) as nat
}

/// The header of an archive: behind its length in eight bytes, where the bytes hold it all.
pub open spec fn archive_header(bytes: Seq<u8>) -> Option<Seq<u8>> {
    if bytes.len() >= 8 && 8 + little_endian(bytes) <= bytes.len() {
        Some(bytes.subrange(8, 8 + little_endian(bytes) as int))
    } else {
        None
    }
}

/// The length of the data that a header describes, where it is one.
pub uninterp spec fn described_length(header: Seq<u8>) -> Option<nat>;

/// The length of the archive that a header describes can be counted.
pub open spec fn archive_countable(bytes: Seq<u8>) -> bool {
    archive_header(bytes) matches Some(h) ==> {
        described_length(h) matches Some(n) ==> n + 8 + h.len() <= usize::MAX
    }
}

/// `serde_json::from_slice` into `safetensors::tensor::Metadata`, and the length of the data that it
/// describes.
#[verifier::external_body]
fn describe_header(header: &[u8]) -> (r: Result<usize, serde_json::Error>)
    ensures
        match r {
            Ok(n) => described_length(header@) == Some(n as nat),
            Err(_) => described_length(header@) is None,
        },
{
    serde_json::from_slice::<safetensors::tensor::Metadata>(header).map(|m| m.data_len())
}

fn is_archive_countable(bytes: &[u8]) -> (r: bool)
    ensures
        r == archive_countable(bytes@),
{
    if bytes.len() < 8 {
        return true;
    }
    let n: u64 = bytes[0] as u64 + 0x100 * bytes[1] as u64 + 0x1_0000 * bytes[2] as u64
        + 0x100_0000 * bytes[3] as u64 + 0x1_0000_0000 * bytes[4] as u64 + 0x100_0000_0000
        * bytes[5] as u64 + 0x1_0000_0000_0000 * bytes[6] as u64 + 0x100_0000_0000_0000
        * bytes[7] as u64;
    assert(n == little_endian(bytes@));
    if n > (bytes.len() - 8) as u64 {
        return true;
    }
    let header = slice_subrange(bytes, 8, 8 + n as usize);
    match describe_header(header) {
        Ok(data) => data <= usize::MAX - 8 - n as usize,
        Err(_) => true,
    }
}

/// `SafeTensors::deserialize` reads an archive. It adds up the lengths of its parts without a test.
#[verifier::external_body]
fn open_archive<'a>(bytes: &'a [u8]) -> (r: Result<
    safetensors::SafeTensors<'a>,
    safetensors::SafeTensorError,
>)
    requires
        archive_countable(bytes@),
    ensures
        match r {
            Ok(a) => archive_of(bytes@) == Some(archive_entries(a)),
            Err(_) => archive_of(bytes@) is None,
        },
{
    safetensors::SafeTensors::deserialize(bytes)
}

/// `SafeTensors::tensor` finds a tensor by its name.
#[verifier::external_body]
fn archive_tensor(a: &safetensors::SafeTensors<'_>, name: &str) -> (r: Option<RawTensor>)
    ensures
        r is Some == archive_entries(*a).contains_key(name@),
        r matches Some(t) ==> archive_entries(*a)[name@] == (t.dims@, t.bytes@),
{
    a.tensor(name).ok().map(|v| RawTensor { dims: v.shape().to_vec(), bytes: v.data().to_vec() })
}

/// Why no filters could be read.
#[derive(Debug, Clone, Copy, PartialEq, Eq, Structural)]
pub enum MelFilterError {
    /// The file is not an archive, or describes one that is too long to be one.
    Malformed,
    /// The archive holds no filters.
    Missing,
}

/// The name under which filters are found: that of the number of bins, then those of 80 and of 128
/// bins.
pub open spec fn filter_name(
    entries: Map<Seq<char>, (Seq<usize>, Seq<u8>)>,
    num_mel_bins: nat,
) -> Option<Seq<char>> {
    if entries.contains_key("mel_"@ + decimal_digits(num_mel_bins)) {
        Some("mel_"@ + decimal_digits(num_mel_bins))
    } else if entries.contains_key("mel_80"@) {
        Some("mel_80"@)
    } else if entries.contains_key("mel_128"@) {
        Some("mel_128"@)
    } else {
        None
    }
}

/// The filters that an archive holds for a number of bins.
pub fn mel_filters(bytes: &[u8], num_mel_bins: usize) -> (r: Result<RawTensor, MelFilterError>)
    ensures
        !archive_countable(bytes@) ==> r == Err::<RawTensor, MelFilterError>(
            MelFilterError::Malformed,
        ),
        archive_countable(bytes@) ==> match archive_of(bytes@) {
            None => r == Err::<RawTensor, MelFilterError>(MelFilterError::Malformed),
            Some(entries) => match filter_name(entries, num_mel_bins as nat) {
                None => r == Err::<RawTensor, MelFilterError>(MelFilterError::Missing),
                Some(name) => r matches Ok(t) && entries[name] == (t.dims@, t.bytes@),
            },
        },
{
    if !is_archive_countable(bytes) {
        return Err(MelFilterError::Malformed);
    }
    let archive = match open_archive(bytes) {
        Ok(a) => a,
        Err(_) => {
            return Err(MelFilterError::Malformed);
        },
    };
    let mut key: String = String::new();
    key.push_str("mel_");
    key.push_str(decimal(num_mel_bins as u64).as_str());
    assert(key@ =~= "mel_"@ + decimal_digits(num_mel_bins as nat));
    match archive_tensor(&archive, key.as_str()) {
        Some(t) => Ok(t),
        None => match archive_tensor(&archive, "mel_80") {
            Some(t) => Ok(t),
            None => match archive_tensor(&archive, "mel_128") {
                Some(t) => Ok(t),
                None => Err(MelFilterError::Missing),
            },
        },
    }
}

// ---------------------------------------------------------------------------
// What a recording comes to
// ---------------------------------------------------------------------------

/// Each special token is the one of its own text. The one for the absence of speech has two texts, of which
/// the newer one counts where both are there, and a number of its own where neither is.
pub proof fn law_special_tokens_have_their_texts(definition: JsonTree, s: SpecialTokens)
    requires
        are_special_tokens(definition, s),
    ensures
        token_number(definition, "<|startoftranscript|>"@) == Some(s.sot),
        token_number(definition, "<|endoftext|>"@) == Some(s.eot),
        token_number(definition, "<|transcribe|>"@) == Some(s.transcribe),
        token_number(definition, "<|translate|>"@) == Some(s.translate),
        token_number(definition, "<|notimestamps|>"@) == Some(s.no_timestamps),
        token_number(definition, "<|nospeech|>"@) is Some ==> token_number(
            definition,
            "<|nospeech|>"@,
        ) == Some(s.no_speech),
        token_number(definition, "<|nospeech|>"@) is None && token_number(
            definition,
            "<|nocaptions|>"@,
        ) is Some ==> token_number(definition, "<|nocaptions|>"@) == Some(s.no_speech),
        token_number(definition, "<|nospeech|>"@) is None && token_number(
            definition,
            "<|nocaptions|>"@,
        ) is None ==> s.no_speech == 50362,
{
    let needed = needed_tokens();
    assert(needed[0] == "<|startoftranscript|>"@);
    assert(needed[1] == "<|endoftext|>"@);
    assert(needed[2] == "<|transcribe|>"@);
    assert(needed[3] == "<|translate|>"@);
    assert(needed[4] == "<|notimestamps|>"@);
}

/// A token is reported as missing only where the vocabulary lacks it, and none is where it has all five that
/// must be there. The token for the absence of speech is never missing.
pub proof fn law_reported_tokens_are_missing(definition: JsonTree, text: Seq<char>)
    requires
        first_missing(definition, text),
    ensures
        token_number(definition, text) is None,
        text == "<|startoftranscript|>"@ || text == "<|endoftext|>"@ || text == "<|transcribe|>"@
            || text == "<|translate|>"@ || text == "<|notimestamps|>"@,
        text != "<|startoftranscript|>"@ ==> token_number(
            definition,
            "<|startoftranscript|>"@,
        ) is Some,
        text == "<|notimestamps|>"@ ==> token_number(definition, "<|endoftext|>"@) is Some
            && token_number(definition, "<|transcribe|>"@) is Some && token_number(
            definition,
            "<|translate|>"@,
        ) is Some,
{
    let needed = needed_tokens();
    assert(needed[0] == "<|startoftranscript|>"@);
    assert(needed[1] == "<|endoftext|>"@);
    assert(needed[2] == "<|transcribe|>"@);
    assert(needed[3] == "<|translate|>"@);
    assert(needed[4] == "<|notimestamps|>"@);
    reveal_strlit("<|startoftranscript|>");
    reveal_strlit("<|endoftext|>");
    reveal_strlit("<|transcribe|>");
    reveal_strlit("<|translate|>");
    reveal_strlit("<|notimestamps|>");
    assert("<|notimestamps|>"@.len() == 16);
    assert("<|startoftranscript|>"@.len() == 21);
    assert("<|endoftext|>"@.len() == 13);
    assert("<|transcribe|>"@.len() == 14);
    assert("<|translate|>"@.len() == 13);
}

/// The token of a language is its code between the marks of a special token, with nothing else around it.
pub proof fn law_language_marks_hold_the_code(language: Seq<char>)
    ensures
        language_mark(language).len() == language.len() + 4,
        language_mark(language)[0] == '<',
        language_mark(language)[1] == '|',
        language_mark(language).subrange(2, 2 + language.len() as int) == language,
        language_mark(language)[2 + language.len() as int] == '|',
        language_mark(language)[3 + language.len() as int] == '>',
{
    reveal_strlit("<|");
    reveal_strlit("|>");
    let mark = language_mark(language);
    assert(mark.subrange(2, 2 + language.len() as int) =~= language);
}

/// What decodes a chunk has the settings of the recording and differs from what decodes another chunk in its
/// seed alone: those of the chunks follow one another from 42 on. Speech is transcribed, not translated.
pub proof fn law_chunks_differ_in_their_seeds(
    s: WhisperSettings,
    i: nat,
    d: WhisperDecoder,
    e: WhisperDecoder,
)
    requires
        decoder_for(s, i, d),
        decoder_for(s, i + 1, e),
        i + 43 <= u64::MAX,
    ensures
        exists|seed: u64| #[trigger]
            started_from(d.rng, seed) && started_from(e.rng, (seed + 1) as u64) && seed == 42 + i,
        d.sot_token == s.special.sot && e.sot_token == s.special.sot,
        d.eot_token == s.special.eot && e.eot_token == s.special.eot,
        d.no_speech_token == s.special.no_speech,
        d.no_timestamps_token == s.special.no_timestamps,
        d.transcribe_token == s.special.transcribe,
        d.translate_token == s.special.translate,
        d.language_token == s.language_token,
        d.task is Transcribe,
        d.timestamps == s.timestamps,
        d.suppress_tokens@ == s.suppress_tokens@,
        e.task == d.task && e.timestamps == d.timestamps && e.language_token == d.language_token,
{
    let seed = (42 + i) as u64;
    assert(started_from(d.rng, seed));
    assert((seed + 1) as u64 == (42 + (i + 1)) as u64);
}

/// The model forgets what came before a chunk, and only then hears it: what is decoded are features of this
/// chunk's own spectrogram.
pub proof fn law_chunks_are_heard_afresh(
    tokenizer: WhisperTokenizer,
    s: WhisperSettings,
    index: nat,
    model: InnerModel,
    mel: Array,
    result: DecodingResult,
    text: Seq<char>,
    model_after: InnerModel,
)
    requires
        chunk_transcribed(tokenizer, s, index, model, mel, result, text, model_after),
    ensures
        tokens_told(tokenizer, result.tokens@, Some(text)),
        exists|empty: InnerModel, heard: InnerModel, features: Array, d: WhisperDecoder, g: StdRng|
            {
                &&& #[trigger] model_emptied(model, empty)
                &&& #[trigger] model_encoded(empty, mel, true, heard, features)
                &&& #[trigger] decoder_for(s, index, d)
                &&& #[trigger] decoded_by(s, d, heard, features, result, g, model_after)
            },
{
    let t = choose|t: ChunkTrace| #[trigger]
        chunk_steps(tokenizer, s, index, model, mel, t, result, Some(text), model_after);
    assert(decoded_by(s, t.decoder, t.encoded, t.features, result, t.generator, model_after));
}

/// `result` was decoded as the settings ask for: with attempts at rising temperatures, once without any, or
/// once at a temperature.
pub open spec fn decoded_by(
    s: WhisperSettings,
    d: WhisperDecoder,
    model: InnerModel,
    features: Array,
    result: DecodingResult,
    generator: StdRng,
    model_after: InnerModel,
) -> bool {
    let limit = s.sample_len as nat;
    match s.strategy {
        Strategy::Fallback => fallback_decoded(
            d,
            model,
            features,
            limit,
            result,
            generator,
            model_after,
        ),
        Strategy::Greedy => segment_decoded(
            d,
            model,
            features,
            limit,
            None,
            result,
            generator,
            model_after,
        ),
        Strategy::Sampled(temperature) => segment_decoded(
            d,
            model,
            features,
            limit,
            Some(temperature),
            result,
            generator,
            model_after,
        ),
    }
}

/// The segment of a chunk holds what the tokenizer has for the tokens that were decoded from this chunk, and
/// the bounds of the chunk. There is a result and a segment for each chunk, at its place in the order.
pub proof fn law_segments_tell_their_chunks(
    tokenizer: WhisperTokenizer,
    s: WhisperSettings,
    model: InnerModel,
    mels: Seq<Tensor>,
    chunks: Seq<Chunk>,
    t: WhisperTranscript,
    model_after: InnerModel,
    i: int,
)
    requires
        recording_transcribed(tokenizer, s, model, mels, chunks, t, model_after),
        chunks.len() == mels.len(),
        0 <= i < mels.len(),
    ensures
        t.results@.len() == mels.len(),
        t.transcript.segments@.len() == mels.len(),
        t.transcript.segments@[i].start == chunks[i].start,
        t.transcript.segments@[i].end == chunks[i].end,
        tokens_told(tokenizer, t.results@[i].tokens@, Some(t.transcript.segments@[i].text@)),
        exists|before: InnerModel, after: InnerModel| #[trigger]
            chunk_transcribed(
                tokenizer,
                s,
                i as nat,
                before,
                array(mels[i]),
                t.results@[i],
                t.transcript.segments@[i].text@,
                after,
            ) && (i == 0 ==> before == model) && (i == mels.len() - 1 ==> after == model_after),
{
    let (texts, models) = choose|texts: Seq<Seq<char>>, models: Seq<InnerModel>|
        {
            &&& #[trigger] chunks_transcribed(tokenizer, s, mels, t.results@, texts, models)
            &&& texts.len() == mels.len()
            &&& models[0] == model
            &&& models.last() == model_after
            &&& t.transcript.text@ == appended(texts)
            &&& segment_views(t.transcript.segments@) == paired(chunk_bounds(chunks), texts)
        };
    let views = segment_views(t.transcript.segments@);
    assert(views.len() == t.transcript.segments@.len());
    assert(views[i] == paired(chunk_bounds(chunks), texts)[i]);
    let segment = t.transcript.segments@[i];
    assert(views[i] == (segment.start as int, segment.end as int, segment.text@));
    assert(chunk_transcribed(
        tokenizer,
        s,
        i as nat,
        models[i],
        array(mels[i]),
        t.results@[i],
        texts[i],
        models[i + 1],
    ));
    law_chunks_are_heard_afresh(
        tokenizer,
        s,
        i as nat,
        models[i],
        array(mels[i]),
        t.results@[i],
        texts[i],
        models[i + 1],
    );
}

/// Filters of the number of bins that was asked for come before those of 80 bins, and those before the ones
/// of 128; none are found only where the archive has neither.
pub proof fn law_own_filters_come_first(
    entries: Map<Seq<char>, (Seq<usize>, Seq<u8>)>,
    num_mel_bins: nat,
)
    ensures
        filter_name(entries, num_mel_bins) matches Some(name) ==> entries.contains_key(name),
        entries.contains_key("mel_"@ + decimal_digits(num_mel_bins)) ==> filter_name(
            entries,
            num_mel_bins,
        ) == Some("mel_"@ + decimal_digits(num_mel_bins)),
        !entries.contains_key("mel_"@ + decimal_digits(num_mel_bins)) && entries.contains_key(
            "mel_80"@,
        ) ==> filter_name(entries, num_mel_bins) == Some("mel_80"@),
        filter_name(entries, num_mel_bins) is None ==> !entries.contains_key("mel_80"@)
            && !entries.contains_key("mel_128"@),
        entries.contains_key("mel_128"@) ==> filter_name(entries, num_mel_bins) is Some,
{
}

} // verus!
