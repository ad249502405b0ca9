//! The parts of Qwen3-ASR around its text decoder: which weights to load, how the prompt is laid out,
//! and when generation stops.
//!
//! The prompt is `<|im_start|>system\n<|im_end|>\n<|im_start|>user\n<|audio_start|>`, then the
//! embedded audio, then `<|audio_end|><|im_end|>\n<|im_start|>assistant\n`. Where a language is
//! forced, `language {Language}<asr_text>` follows.
use crate::tensor::{
    add_batch, argmax, argmax_refused, argmax_result, array, arrays, cat, cat_array, cat_pair,
    cat_refused, embed, embed_refused, exceeds, extent, is_embedding, is_greatest, is_number,
    lemma_division, lemma_volume_vector, narrow, narrow_array, rank_of, share, single, squeeze,
    tensor_dims, total_extent, with_batch, without_axis, Array,
};
use crate::text::{
    capital, chars_of, law_trimming_is_idempotent, lower_case, plain, small, text_of, to_lower,
    to_upper, trim, trimmed, upper_case, white_space,
};
use crate::tokenizer::{first_id, END_OF_TEXT, END_OF_TURN, Tokenizer};
use candle_core::{Error, Tensor};
use std::collections::HashSet;
use vstd::prelude::*;

verus! {

broadcast use vstd::std_specs::hash::group_hash_axioms;

// ---------------------------------------------------------------------------
// Where weights come from
// ---------------------------------------------------------------------------

/// Where the weights of the text decoder come from.
#[derive(Debug, Clone, Copy, PartialEq, Eq, Structural)]
pub enum DecoderWeights {
    /// From a GGUF file where there is one.
    Auto,
    /// Always from safetensors files.
    Safetensors,
    /// Always from a GGUF file.
    Gguf,
}

/// Why no weights could be chosen.
#[derive(Debug, Clone, Copy, PartialEq, Eq, Structural)]
pub enum WeightsError {
    /// A GGUF file was named, though safetensors were asked for.
    Conflict,
    /// The named GGUF file does not exist.
    OverrideMissing,
    /// A GGUF file was asked for, and there is none.
    GgufMissing,
}

/// A GGUF file that was named by the caller.
pub struct GgufOverride {
    /// Its path.
    pub path: String,
    /// Whether the file exists.
    pub exists: bool,
}

/// The path of the GGUF file that is loaded, if one is.
pub open spec fn chosen_gguf(
    weights: DecoderWeights,
    named: Option<GgufOverride>,
    found: Option<String>,
) -> Result<Option<Seq<char>>, WeightsError> {
    if weights is Safetensors && named is Some {
        Err(WeightsError::Conflict)
    } else if named is Some && !named->0.exists {
        Err(WeightsError::OverrideMissing)
    } else if weights is Safetensors {
        Ok(None)
    } else if named is Some {
        Ok(Some(named->0.path@))
    } else if found is Some {
        Ok(Some(found->0@))
    } else if weights is Gguf {
        Err(WeightsError::GgufMissing)
    } else {
        Ok(None)
    }
}

/// Chooses the GGUF file of the decoder: the named one before the one that was found in the model's
/// directory.
pub fn choose_decoder_gguf(
    weights: DecoderWeights,
    named: Option<GgufOverride>,
    found: Option<String>,
) -> (r: Result<Option<String>, WeightsError>)
    ensures
        match (r, chosen_gguf(weights, named, found)) {
            (Ok(Some(p)), Ok(Some(q))) => p@ == q,
            (Ok(None), Ok(None)) => true,
            (Err(e), Err(f)) => e == f,
            _ => false,
        },
{
    match named {
        Some(n) => {
            if weights == DecoderWeights::Safetensors {
                Err(WeightsError::Conflict)
            } else if !n.exists {
                Err(WeightsError::OverrideMissing)
            } else {
                Ok(Some(n.path))
            }
        },
        None => match weights {
            DecoderWeights::Safetensors => Ok(None),
            DecoderWeights::Auto => Ok(found),
            DecoderWeights::Gguf => match found {
                Some(p) => Ok(Some(p)),
                None => Err(WeightsError::GgufMissing),
            },
        },
    }
}

/// Safetensors are never replaced by a GGUF file, and without a file that was named or found the
/// automatic choice is safetensors.
pub proof fn law_safetensors_stay_safetensors(found: Option<String>)
    ensures
        chosen_gguf(DecoderWeights::Safetensors, None, found) == Ok::<
            Option<Seq<char>>,
            WeightsError,
        >(None),
        chosen_gguf(DecoderWeights::Auto, None, None) == Ok::<Option<Seq<char>>, WeightsError>(
            None,
        ),
{
}

/// A file that was named and exists is loaded, whatever was found, unless safetensors were asked for.
pub proof fn law_named_file_wins(weights: DecoderWeights, named: GgufOverride, found: Option<String>)
    requires
        named.exists,
    ensures
        if weights is Safetensors {
            chosen_gguf(weights, Some(named), found) == Err::<Option<Seq<char>>, WeightsError>(
                WeightsError::Conflict,
            )
        } else {
            chosen_gguf(weights, Some(named), found) == Ok::<Option<Seq<char>>, WeightsError>(
                Some(named.path@),
            )
        },
{
}

/// The element type that the pipeline computes in.
#[derive(Debug, Clone, Copy, PartialEq, Eq, Structural)]
pub enum Precision {
    Single,
    BrainHalf,
}

/// Half precision on graphics processors, single precision elsewhere.
pub fn pipeline_precision(is_metal: bool, is_cuda: bool) -> (r: Precision)
    ensures
        r == if is_metal || is_cuda {
            Precision::BrainHalf
        } else {
            Precision::Single
        },
{
    if is_metal || is_cuda {
        Precision::BrainHalf
    } else {
        Precision::Single
    }
}

// ---------------------------------------------------------------------------
// The prompt
// ---------------------------------------------------------------------------

/// `<|im_start|>`
pub const IM_START: u32 = 151644;

/// `<|audio_start|>`
pub const AUDIO_START: u32 = 151669;

/// `<|audio_end|>`
pub const AUDIO_END: u32 = 151670;

/// `<asr_text>`
pub const ASR_TEXT: u32 = 151704;

/// `language`, where the vocabulary does not say otherwise.
pub const TOKEN_LANGUAGE: u32 = 11528;

/// A space, where the vocabulary does not say otherwise.
pub const TOKEN_SPACE: u32 = 220;

/// A language's name without white space around it, with a capital first letter and small letters
/// after it.
pub open spec fn language_name(lang: Seq<char>) -> Seq<char> {
    let name = trimmed(lang);
    if name.len() == 0 {
        name
    } else {
        upper_case(name[0]) + lower_case(name.skip(1))
    }
}

/// A language's name in ASCII without white space around it, with a capital first letter and small letters
/// after it.
pub open spec fn plain_name(lang: Seq<char>) -> Seq<char> {
    let name = trimmed(lang);
    Seq::new(
        name.len(),
        |i: int|
            if i == 0 {
                capital(name[i])
            } else {
                small(name[i])
            },
    )
}

proof fn lemma_plain_part(lang: Seq<char>)
    requires
        plain(lang),
    ensures
        plain(trimmed(lang)),
{
    law_trimming_is_idempotent(lang);
    let name = trimmed(lang);
    let (from, to) = choose|from: int, to: int|
        0 <= from <= to <= lang.len() && name == #[trigger] lang.subrange(from, to);
    assert forall|i: int| 0 <= i < name.len() implies (#[trigger] name[i] as u32) < 0x80 by {
        assert(name[i] == lang[from + i]);
    }
}

/// Writing the name of a language as the model does keeps its letters, and doing so twice is doing so
/// once.
pub proof fn law_names_are_written_once(lang: Seq<char>)
    requires
        plain(lang),
    ensures
        plain_name(lang).len() == trimmed(lang).len(),
        forall|i: int|
            0 <= i < trimmed(lang).len() ==> small(#[trigger] plain_name(lang)[i]) == small(
                trimmed(lang)[i],
            ),
        plain(plain_name(lang)),
        plain_name(plain_name(lang)) == plain_name(lang),
        plain_name(lang).len() > 0 ==> !('a' <= plain_name(lang)[0] && plain_name(lang)[0] <= 'z'),
        forall|i: int|
            0 < i < plain_name(lang).len() ==> !('A' <= #[trigger] plain_name(lang)[i]
                && plain_name(lang)[i] <= 'Z'),
{
    law_trimming_is_idempotent(lang);
    let name = trimmed(lang);
    lemma_plain_part(lang);
    let written = plain_name(lang);
    if written.len() > 0 {
        assert(!white_space(written[0]));
        assert(!white_space(written.last()));
    }
    assert(trimmed(written) == written);
    assert(plain_name(written) =~= written);
}

/// A language's name as the model writes it.
pub fn normalize_language_name(lang: &str) -> (r: String)
    ensures
        r@ == language_name(lang@),
        plain(lang@) ==> r@ == plain_name(lang@),
{
    let chars = chars_of(trim(lang).as_str());
    if chars.len() == 0 {
        let r: String = String::new();
        assert(r@ =~= chars@);
        assert(r@ =~= plain_name(lang@));
        return r;
    }
    let rest = text_of(&chars, 1, chars.len());
    assert(rest@ =~= chars@.skip(1));
    let mut out: String = String::new();
    out.push_str(to_upper(chars[0]).as_str());
    out.push_str(to_lower(rest.as_str()).as_str());
    assert(out@ =~= upper_case(chars@[0]) + lower_case(chars@.skip(1)));
    proof {
        if plain(lang@) {
            lemma_plain_part(lang@);
            assert(out@ =~= plain_name(lang@));
        }
    }
    out
}

/// Why a prompt could not be made.
pub enum PromptError {
    /// The vocabulary has no token for the forced language, whose normalized name is given.
    UnknownLanguage(String),
    /// Too long to be counted.
    TooLong,
    /// The tensor library failed.
    Tensor(Error),
}

/// What stands before the audio.
pub open spec fn prefix_spec() -> Seq<u32> {
    seq![
        IM_START,
        8948u32,
        198u32,
        END_OF_TURN,
        198u32,
        IM_START,
        872u32,
        198u32,
        AUDIO_START,
    ]
}

/// What stands behind the audio.
pub open spec fn suffix_spec() -> Seq<u32> {
    seq![AUDIO_END, END_OF_TURN, 198u32, IM_START, 77091u32, 198u32]
}

/// The number of a text, or another number where the vocabulary does not have it.
pub open spec fn id_or(t: Tokenizer, text: Seq<char>, fallback: u32) -> u32 {
    match first_id(t.token_to_id@, text) {
        Some(id) => id,
        None => fallback,
    }
}

/// The prompt is laid out as the model was trained: the tokens before and behind the audio, one by one, and
/// the two that end a text.
pub proof fn law_prompt_tokens_are_those_of_the_model()
    ensures
        prefix_spec() == seq![
            151644u32,
            8948u32,
            198u32,
            151645u32,
            198u32,
            151644u32,
            872u32,
            198u32,
            151669u32,
        ],
        suffix_spec() == seq![151670u32, 151645u32, 198u32, 151644u32, 77091u32, 198u32],
        forall|token: u32| #[trigger]
            ends_text(token) <==> token == 151645 || token == 151643,
{
}

/// What forces a language: its name as a token that starts with a space, or else a space and its
/// name as a token.
pub open spec fn language_suffix(t: Tokenizer, lang: Seq<char>) -> Option<Seq<u32>> {
    let name = language_name(lang);
    let word = id_or(t, "language"@, TOKEN_LANGUAGE);
    match first_id(t.token_to_id@, seq!['Ġ'] + name) {
        Some(id) => Some(seq![word, id, ASR_TEXT]),
        None => match first_id(t.token_to_id@, name) {
            Some(id) => Some(seq![word, id_or(t, seq!['Ġ'], TOKEN_SPACE), id, ASR_TEXT]),
            None => None,
        },
    }
}

/// A language is forced by the word for it, the language's name, and the mark behind which the text begins.
/// The name is one token with its space where the vocabulary has that, or else a space and the name; without
/// a token for the name there is nothing.
pub proof fn law_forced_language_is_named(t: Tokenizer, lang: Seq<char>, s: Seq<u32>)
    ensures
        language_suffix(t, lang) == Some(s) ==> {
            &&& s.len() == 3 || s.len() == 4
            &&& s[0] == (match first_id(t.token_to_id@, "language"@) {
                Some(id) => id,
                None => 11528,
            })
            &&& s[s.len() - 1] == 151704
            &&& s.len() == 3 ==> first_id(t.token_to_id@, seq!['Ġ'] + language_name(lang)) == Some(
                s[1],
            )
            &&& s.len() == 4 ==> {
                &&& first_id(t.token_to_id@, seq!['Ġ'] + language_name(lang)) is None
                &&& s[1] == (match first_id(t.token_to_id@, seq!['Ġ']) {
                    Some(id) => id,
                    None => 220,
                })
                &&& first_id(t.token_to_id@, language_name(lang)) == Some(s[2])
            }
        },
        language_suffix(t, lang) is None <==> first_id(
            t.token_to_id@,
            seq!['Ġ'] + language_name(lang),
        ) is None && first_id(t.token_to_id@, language_name(lang)) is None,
{
}

/// The tokens before the audio.
pub fn prefix_tokens() -> (r: Vec<u32>)
    ensures
        r@ == prefix_spec(),
{
    let r: Vec<u32> = vec![
        IM_START,
        8948,
        198,
        END_OF_TURN,
        198,
        IM_START,
        872,
        198,
        AUDIO_START,
    ];
    assert(r@ =~= prefix_spec());
    r
}

/// The tokens behind the audio, with those that force a language.
pub fn suffix_tokens(tokenizer: &Tokenizer, force_language: Option<&str>) -> (r: Result<
    Vec<u32>,
    PromptError,
>)
    ensures
        match force_language {
            None => r matches Ok(s) && s@ == suffix_spec(),
            Some(lang) => match language_suffix(*tokenizer, lang@) {
                Some(more) => r matches Ok(s) && s@ == suffix_spec() + more,
                None => r matches Err(PromptError::UnknownLanguage(name)) && name@
                    == language_name(lang@),
            },
        },
{
    let mut suffix: Vec<u32> = vec![AUDIO_END, END_OF_TURN, 198, IM_START, 77091, 198];
    assert(suffix@ =~= suffix_spec());
    match force_language {
        None => Ok(suffix),
        Some(lang) => {
            let name = normalize_language_name(lang);
            let word = match tokenizer.token_id("language") {
                Some(id) => id,
                None => TOKEN_LANGUAGE,
            };
            let mut space: String = String::new();
            space.push('Ġ');
            assert(space@ =~= seq!['Ġ']);
            let mut spaced: String = space.clone();
            spaced.push_str(name.as_str());
            match tokenizer.token_id(spaced.as_str()) {
                Some(id) => {
                    suffix.push(word);
                    suffix.push(id);
                    suffix.push(ASR_TEXT);
                    assert(suffix@ =~= suffix_spec() + language_suffix(*tokenizer, lang@)->0);
                    Ok(suffix)
                },
                None => match tokenizer.token_id(name.as_str()) {
                    Some(id) => {
                        suffix.push(word);
                        suffix.push(
                            match tokenizer.token_id(space.as_str()) {
                                Some(s) => s,
                                None => TOKEN_SPACE,
                            },
                        );
                        suffix.push(id);
                        suffix.push(ASR_TEXT);
                        assert(suffix@ =~= suffix_spec() + language_suffix(*tokenizer, lang@)->0);
                        Ok(suffix)
                    },
                    None => Err(PromptError::UnknownLanguage(name)),
                },
            }
        },
    }
}

/// The embedded prompt: the rows of the prefix, the audio, the rows of the suffix.
pub open spec fn prompt_of(
    table: Array,
    audio: Array,
    suffix: Seq<u32>,
    prompt: Array,
) -> bool {
    exists|p: Array, s: Array| #[trigger]
        is_embedding(table, prefix_spec(), p) && #[trigger] is_embedding(table, suffix, s)
            && prompt == cat_array(seq![with_batch(p), audio, with_batch(s)], 1)
}

/// The tokens behind the audio. There are none where the vocabulary does not have the language.
pub open spec fn suffix_for(t: Tokenizer, language: Option<Seq<char>>) -> Option<Seq<u32>> {
    match language {
        None => Some(suffix_spec()),
        Some(lang) => match language_suffix(t, lang) {
            Some(more) => Some(suffix_spec() + more),
            None => None,
        },
    }
}

/// A language by its characters.
pub open spec fn language_view(language: Option<&str>) -> Option<Seq<char>> {
    match language {
        Some(l) => Some(l@),
        None => None,
    }
}

/// Looking up the rows of the prompt, or putting them around the audio, can be refused. Audio without an
/// axis of frames always is.
pub open spec fn prompt_refused(table: Array, audio: Array, suffix: Seq<u32>) -> bool {
    ||| embed_refused(table, prefix_spec())
    ||| embed_refused(table, suffix)
    ||| audio.dims.len() < 2
    ||| exists|p: Array, s: Array| #[trigger]
        is_embedding(table, prefix_spec(), p) && #[trigger] is_embedding(table, suffix, s)
            && cat_refused(seq![with_batch(p), audio, with_batch(s)], 1)
}

/// The frames of the audio leave no room to count those of a prompt.
pub open spec fn too_many_frames(audio: Array) -> bool {
    audio.dims.len() >= 2 && audio.dims[1] > usize::MAX - 32
}

/// An error of laying out the prompt, other than an unknown language, comes of too many frames or of a
/// refusal.
pub open spec fn prompt_stops(
    table: Array,
    audio: Array,
    suffix: Seq<u32>,
    e: PromptError,
) -> bool {
    match e {
        PromptError::UnknownLanguage(_) => false,
        PromptError::TooLong => too_many_frames(audio),
        PromptError::Tensor(_) => prompt_refused(table, audio, suffix),
    }
}

/// Rows put one after another: first those of one text, then those of another.
proof fn lemma_rows_join(a: Array, b: Array, m: usize, n: usize, w: usize, k: int)
    requires
        a.dims == seq![1usize, m, w],
        b.dims == seq![1usize, n, w],
        m + n <= usize::MAX,
        0 <= k < (m + n) * w,
    ensures
        cat_pair(a, b, 1).dims == seq![1usize, (m + n) as usize, w],
        cat_pair(a, b, 1).elems.len() == (m + n) * w,
        cat_pair(a, b, 1).kind == a.kind,
        cat_pair(a, b, 1).elems[k] == if k < m * w {
            a.elems[k]
        } else {
            b.elems[k - m * w]
        },
{
    assert(a.dims.skip(2) =~= seq![w]);
    lemma_volume_vector(w);
    assert(a.dims.take(1) =~= seq![1usize]);
    lemma_volume_vector(1);
    let part = m * w + n * w;
    assert(part == (m + n) * w) by (nonlinear_arith)
        requires
            part == m * w + n * w,
    ;
    lemma_division(0, part, k);
    assert(1 * part == part);
    let c = cat_pair(a, b, 1);
    assert(c.dims =~= seq![1usize, (m + n) as usize, w]);
    assert(c.elems.len() == part);
    assert(0 * (m * w) == 0 && 0 * (n * w) == 0);
}

/// The prompt has a row for each of its tokens and for each frame of the audio, in order: those of the
/// tokens before the audio, the audio, and those of the tokens behind it.
pub proof fn law_audio_stands_between_the_tokens(
    table: Array,
    audio: Array,
    suffix: Seq<u32>,
    prompt: Array,
    row: int,
    j: int,
)
    requires
        prompt_of(table, audio, suffix, prompt),
        table.dims.len() == 2,
        table.dims[0] > 151704,
        table.dims[0] < u32::MAX,
        audio.dims.len() == 3,
        audio.dims[0] == 1,
        audio.dims[2] == table.dims[1],
        audio.elems.len() == audio.dims[1] * audio.dims[2],
        audio.dims[1] <= usize::MAX - 32,
        suffix.len() <= 10,
        forall|i: int| 0 <= i < suffix.len() ==> (#[trigger] suffix[i]) < table.dims[0],
        0 <= row < 9 + audio.dims[1] + suffix.len(),
        0 <= j < table.dims[1],
    ensures
        prompt.dims == seq![1usize, (9 + audio.dims[1] + suffix.len()) as usize, table.dims[1]],
        row < 9 ==> prompt.elems[row * table.dims[1] + j] == table.elems[prefix_spec()[row]
            * table.dims[1] + j],
        9 <= row < 9 + audio.dims[1] ==> prompt.elems[row * table.dims[1] + j] == audio.elems[(row
            - 9) * table.dims[1] + j],
        9 + audio.dims[1] <= row ==> prompt.elems[row * table.dims[1] + j]
            == table.elems[suffix[row - 9 - audio.dims[1]] * table.dims[1] + j],
{
    let (p, s) = choose|p: Array, s: Array| #[trigger]
        is_embedding(table, prefix_spec(), p) && #[trigger] is_embedding(table, suffix, s)
            && prompt == cat_array(seq![with_batch(p), audio, with_batch(s)], 1);
    let w = table.dims[1];
    let t = audio.dims[1];
    let m = suffix.len() as usize;
    let parts = seq![with_batch(p), audio, with_batch(s)];
    reveal_with_fuel(cat_array, 4);
    assert(parts.drop_last() =~= seq![with_batch(p), audio]);
    assert(parts.drop_last().drop_last() =~= seq![with_batch(p)]);
    assert(with_batch(p).dims =~= seq![1usize, 9usize, w]);
    assert(with_batch(s).dims =~= seq![1usize, m, w]);
    assert(audio.dims =~= seq![1usize, t, w]);
    let front = cat_pair(with_batch(p), audio, 1);
    let k = row * w + j;
    let total = 9 + t + m;
    assert(0 <= k < total * w && (row < 9 ==> k < 9 * w) && (row >= 9 ==> k >= 9 * w) && (row < 9
        + t ==> k < (9 + t) * w) && (row >= 9 + t ==> k >= (9 + t) * w)) by (nonlinear_arith)
        requires
            0 <= row < total,
            0 <= j < w,
            k == row * w + j,
    ;
    if t + 9 > 0 && w > 0 {
        assert(0 < (9 + t) * w) by (nonlinear_arith)
            requires
                w > 0,
                t >= 0,
        ;
        lemma_rows_join(with_batch(p), audio, 9, t, w, 0);
    }
    lemma_rows_join(front, with_batch(s), (9 + t) as usize, m, w, k);
    if row < 9 + t {
        lemma_rows_join(with_batch(p), audio, 9, t, w, k);
    }
    assert((row - 9) * w == row * w - 9 * w) by (nonlinear_arith);
    assert((row - 9 - t) * w == row * w - (9 + t) * w) by (nonlinear_arith);
    if row < 9 {
        lemma_division(row, w as int, j);
        assert(p.elems[k] == table.elems[prefix_spec()[row] * w + j]);
    } else if row >= 9 + t {
        lemma_division(row - 9 - t, w as int, j);
        let q = k - (9 + t) * w;
        assert(q == (row - 9 - t) * w + j);
        assert(0 <= q < m * w) by (nonlinear_arith)
            requires
                0 <= row - 9 - t < m,
                0 <= j < w,
                q == (row - 9 - t) * w + j,
        ;
        assert(s.elems[q] == table.elems[suffix[row - 9 - t] * w + j]);
    }
}

/// Lays out the prompt for embedded audio. `embedding` has one row for each token.
pub fn prompt_embeds(
    embedding: &Tensor,
    audio_embeds: &Tensor,
    tokenizer: &Tokenizer,
    force_language: Option<&str>,
) -> (r: Result<Tensor, PromptError>)
    ensures
        r matches Ok(p) ==> match force_language {
            None => prompt_of(array(*embedding), array(*audio_embeds), suffix_spec(), array(p)),
            Some(lang) => language_suffix(*tokenizer, lang@) matches Some(more) && prompt_of(
                array(*embedding),
                array(*audio_embeds),
                suffix_spec() + more,
                array(p),
            ),
        },
        (force_language matches Some(lang) && language_suffix(*tokenizer, lang@) is None) ==> (r
            matches Err(PromptError::UnknownLanguage(name)) && name@ == language_name(
            force_language->0@,
        )),
        r matches Err(PromptError::UnknownLanguage(_)) ==> force_language matches Some(lang)
            && language_suffix(*tokenizer, lang@) is None,
        r matches Err(e) ==> !(e is UnknownLanguage) ==> (suffix_for(
            *tokenizer,
            language_view(force_language),
        ) matches Some(suffix) && prompt_stops(
            array(*embedding),
            array(*audio_embeds),
            suffix,
            e,
        )),
        r is Ok ==> tensor_dims(*audio_embeds).len() >= 2 && !too_many_frames(
            array(*audio_embeds),
        ),
        r matches Ok(p) ==> tensor_dims(p).len() == 3,
{
    let prefix = prefix_tokens();
    let suffix = suffix_tokens(tokenizer, force_language)?;
    let prefix_rows = match embed(embedding, &prefix) {
        Ok(t) => t,
        Err(e) => {
            return Err(PromptError::Tensor(e));
        },
    };
    let suffix_rows = match embed(embedding, &suffix) {
        Ok(t) => t,
        Err(e) => {
            return Err(PromptError::Tensor(e));
        },
    };
    let first = match add_batch(&prefix_rows) {
        Ok(t) => t,
        Err(e) => {
            return Err(PromptError::Tensor(e));
        },
    };
    let last = match add_batch(&suffix_rows) {
        Ok(t) => t,
        Err(e) => {
            return Err(PromptError::Tensor(e));
        },
    };
    let frames: usize = match extent(audio_embeds, 1) {
        Ok(n) => n,
        Err(e) => {
            return Err(PromptError::Tensor(e));
        },
    };
    if frames > usize::MAX - 32 {
        return Err(PromptError::TooLong);
    }
    let parts: Vec<Tensor> = vec![first, share(audio_embeds), last];
    proof {
        let a = arrays(parts@);
        assert(a =~= seq![array(first), array(*audio_embeds), array(last)]);
        assert(suffix@.len() <= 10);
        reveal_with_fuel(total_extent, 4);
        assert(a.drop_last() =~= seq![array(first), array(*audio_embeds)]);
        assert(a.drop_last().drop_last() =~= seq![array(first)]);
        assert(a.drop_last().drop_last().drop_last() =~= Seq::<Array>::empty());
        assert(array(first).dims[1] == 9);
        assert(array(last).dims[1] == suffix@.len());
    }
    proof {
        assert(arrays(parts@) =~= seq![
            with_batch(array(prefix_rows)),
            array(*audio_embeds),
            with_batch(array(suffix_rows)),
        ]);
        assert(is_embedding(array(*embedding), prefix_spec(), array(prefix_rows)));
        assert(is_embedding(array(*embedding), suffix@, array(suffix_rows)));
    }
    match cat(&parts, 1) {
        Ok(t) => {
            proof {
                let a = arrays(parts@);
                reveal_with_fuel(cat_array, 4);
                assert(a.drop_last().drop_last()[0] == a[0]);
                assert(tensor_dims(t).len() == a[0].dims.len());
                assert(prompt_of(array(*embedding), array(*audio_embeds), suffix@, array(t)));
            }
            Ok(t)
        },
        Err(e) => Err(PromptError::Tensor(e)),
    }
}

// ---------------------------------------------------------------------------
// Generation
// ---------------------------------------------------------------------------

/// How many of the last tokens are looked at for variety.
pub const TAIL: usize = 96;

/// The tokens from `from` on repeat with a period: `blocks` equal blocks stand at the end.
pub open spec fn ends_in_blocks(tokens: Seq<u32>, period: int, blocks: int) -> bool {
    forall|b: int, j: int|
        1 <= b <= blocks && 0 <= j < period ==> #[trigger] block_entry(tokens, period, b, j)
            == block_entry(tokens, period, 1, j)
}

/// Entry `j` of the `b`-th block from the end.
pub open spec fn block_entry(tokens: Seq<u32>, period: int, b: int, j: int) -> u32 {
    tokens[tokens.len() - b * period + j]
}

/// Generation has run into a loop: at least 128 tokens, and among the last 96 at most six different
/// ones, or six equal blocks of at most 16 tokens at the end.
pub open spec fn in_a_loop(tokens: Seq<u32>) -> bool {
    tokens.len() >= 128 && (tokens.skip(tokens.len() - TAIL).to_set().len() <= 6
        || exists|period: int| 1 <= period <= 16 && #[trigger] ends_in_blocks(tokens, period, 6))
}

/// Fewer than 128 tokens are no loop. From then on they are one where at most six different ones stand among
/// the last 96, or where the end repeats what stands a period before it, five times over, for some period
/// of at most 16; and nothing else is.
pub proof fn law_loops_repeat_their_end(tokens: Seq<u32>, period: int)
    ensures
        tokens.len() < 128 ==> !in_a_loop(tokens),
        tokens.len() >= 128 && tokens.subrange(
            tokens.len() - 96,
            tokens.len() as int,
        ).to_set().len() <= 6 ==> in_a_loop(tokens),
        tokens.len() >= 128 && 1 <= period <= 16 && (forall|i: int|
            tokens.len() - 6 * period <= i < tokens.len() - period ==> #[trigger] tokens[i]
                == tokens[i + period]) ==> in_a_loop(tokens),
        in_a_loop(tokens) ==> tokens.len() >= 128 && (tokens.subrange(
            tokens.len() - 96,
            tokens.len() as int,
        ).to_set().len() <= 6 || exists|p: int|
            1 <= p <= 16 && #[trigger] repeats_its_end(tokens, p)),
{
    let n = tokens.len() as int;
    if n >= 128 {
        assert(tokens.skip(n - 96) =~= tokens.subrange(n - 96, n));
        if 1 <= period <= 16 && (forall|i: int|
            n - 6 * period <= i < n - period ==> #[trigger] tokens[i] == tokens[i + period]) {
            assert forall|b: int, j: int| 1 <= b <= 6 && 0 <= j < period implies #[trigger] block_entry(
                tokens,
                period,
                b,
                j,
            ) == block_entry(tokens, period, 1, j) by {
                lemma_blocks_alike(tokens, period, b, j);
            }
            assert(ends_in_blocks(tokens, period, 6));
        }
        if exists|p: int| 1 <= p <= 16 && #[trigger] ends_in_blocks(tokens, p, 6) {
            let p = choose|p: int| 1 <= p <= 16 && #[trigger] ends_in_blocks(tokens, p, 6);
            assert forall|i: int| n - 6 * p <= i < n - p implies #[trigger] tokens[i] == tokens[i + p] by {
                let d = n - 1 - i;
                let b = d / p + 1;
                let j = b * p - d - 1;
                vstd::arithmetic::div_mod::lemma_fundamental_div_mod(d, p);
                assert(2 <= b <= 6 && 0 <= j < p && n - b * p + j == i && (b - 1) * p == b * p - p)
                    by (nonlinear_arith)
                    requires
                        d == n - 1 - i,
                        n - 6 * p <= i < n - p,
                        p >= 1,
                        b == d / p + 1,
                        j == b * p - d - 1,
                        d == p * (d / p) + d % p,
                        0 <= d % p < p,
                ;
                assert(block_entry(tokens, p, b, j) == block_entry(tokens, p, 1, j));
                assert(block_entry(tokens, p, b - 1, j) == block_entry(tokens, p, 1, j));
            }
            assert(repeats_its_end(tokens, p));
        }
    }
}

/// Each of the last tokens but one period equals the one a period behind it, over six periods.
pub open spec fn repeats_its_end(tokens: Seq<u32>, period: int) -> bool {
    forall|i: int|
        tokens.len() - 6 * period <= i < tokens.len() - period ==> #[trigger] tokens[i]
            == tokens[i + period]
}

proof fn lemma_blocks_alike(tokens: Seq<u32>, period: int, b: int, j: int)
    requires
        tokens.len() >= 128,
        1 <= period <= 16,
        1 <= b <= 6,
        0 <= j < period,
        forall|i: int|
            tokens.len() - 6 * period <= i < tokens.len() - period ==> #[trigger] tokens[i]
                == tokens[i + period],
    ensures
        block_entry(tokens, period, b, j) == block_entry(tokens, period, 1, j),
    decreases b,
{
    if b > 1 {
        lemma_blocks_alike(tokens, period, b - 1, j);
        let i = tokens.len() - b * period + j;
        assert((b - 1) * period == b * period - period) by (nonlinear_arith);
        assert(2 * period <= b * period <= 6 * period) by (nonlinear_arith)
            requires
                2 <= b <= 6,
                period >= 1,
        ;
        assert(tokens[i] == tokens[i + period]);
    }
}

fn blocks_repeat(tokens: &[u32], period: usize) -> (r: bool)
    requires
        1 <= period <= 16,
        tokens@.len() >= 128,
    ensures
        r == ends_in_blocks(tokens@, period as int, 6),
{
    let n: usize = tokens.len();
    let mut b: usize = 2;
    while b <= 6
        invariant
            2 <= b <= 7,
            1 <= period <= 16,
            n == tokens@.len(),
            n >= 128,
            forall|c: int, j: int|
                1 <= c < b && 0 <= j < period ==> #[trigger] block_entry(
                    tokens@,
                    period as int,
                    c,
                    j,
                ) == block_entry(tokens@, period as int, 1, j),
        decreases 7 - b,
    {
        assert(period <= b * period <= 96) by (nonlinear_arith)
            requires
                1 <= b <= 6,
                period <= 16,
        ;
        let start: usize = n - b * period;
        let mut j: usize = 0;
        while j < period
            invariant
                j <= period,
                2 <= b <= 6,
                1 <= period <= 16,
                n == tokens@.len(),
                n >= 128,
                start == n - b * period,
                period <= b * period <= 96,
                forall|k: int|
                    0 <= k < j ==> #[trigger] block_entry(tokens@, period as int, b as int, k)
                        == block_entry(tokens@, period as int, 1, k),
            decreases period - j,
        {
            assert(block_entry(tokens@, period as int, b as int, j as int) == tokens@[start + j]);
            assert(block_entry(tokens@, period as int, 1, j as int) == tokens@[n - period + j]);
            if tokens[start + j] != tokens[n - period + j] {
                return false;
            }
            j += 1;
        }
        b += 1;
    }
    true
}

/// Whether generation has run into a loop.
pub fn looks_like_repetition_loop(tokens: &[u32]) -> (r: bool)
    ensures
        r == in_a_loop(tokens@),
{
    let n: usize = tokens.len();
    if n < 128 {
        return false;
    }
    let from: usize = n - TAIL;
    let mut uniq: HashSet<u32> = HashSet::new();
    let mut i: usize = from;
    assert(tokens@.subrange(from as int, from as int).to_set() =~= Set::<u32>::empty());
    while i < n
        invariant
            from <= i <= n == tokens@.len(),
            uniq@ == tokens@.subrange(from as int, i as int).to_set(),
        decreases n - i,
    {
        uniq.insert(tokens[i]);
        proof {
            let shorter = tokens@.subrange(from as int, i as int);
            let longer = tokens@.subrange(from as int, i + 1);
            assert(longer =~= shorter.push(tokens@[i as int]));
            assert forall|x: u32| longer.to_set().contains(x) == shorter.to_set().insert(
                tokens@[i as int],
            ).contains(x) by {
                if longer.contains(x) {
                    let k = choose|k: int| 0 <= k < longer.len() && longer[k] == x;
                    if k < shorter.len() {
                        assert(shorter[k] == x);
                    }
                }
                if shorter.contains(x) {
                    let k = choose|k: int| 0 <= k < shorter.len() && shorter[k] == x;
                    assert(longer[k] == x);
                }
                if x == tokens@[i as int] {
                    assert(longer[i - from] == x);
                }
            }
            assert(longer.to_set() =~= shorter.to_set().insert(tokens@[i as int]));
        }
        i += 1;
    }
    assert(tokens@.subrange(from as int, n as int) =~= tokens@.skip(n - TAIL));
    if uniq.len() <= 6 {
        return true;
    }
    let mut period: usize = 1;
    while period <= 16
        invariant
            1 <= period <= 17,
            tokens@.len() >= 128,
            forall|p: int| 1 <= p < period ==> !#[trigger] ends_in_blocks(tokens@, p, 6),
        decreases 17 - period,
    {
        if blocks_repeat(tokens, period) {
            return true;
        }
        period += 1;
    }
    false
}

/// Why generation stopped.
#[derive(Debug, Clone, Copy, PartialEq, Eq, Structural)]
pub enum StopReason {
    /// The model ended the text.
    Eos,
    /// The limit on tokens was reached.
    MaxTokens,
    /// The model ran into a loop.
    Repetition,
}

/// A token that ends the text.
pub open spec fn ends_text(token: u32) -> bool {
    token == END_OF_TURN || token == END_OF_TEXT
}

/// The tokens that the model chose so far, and whether generation goes on.
pub struct Generation {
    pub tokens: Vec<u32>,
    pub max_tokens: usize,
    pub stopped: Option<StopReason>,
}

/// The outcome of generation where the model chooses `choices[i]` at step `i`: `done` tokens were
/// taken. It is `None` where the choices are used up before generation stops.
pub open spec fn generation_outcome(
    choices: Seq<u32>,
    done: nat,
    max_tokens: nat,
) -> Option<(Seq<u32>, StopReason)>
    decreases max_tokens - done,
{
    if done >= max_tokens {
        Some((choices.take(done as int), StopReason::MaxTokens))
    } else if done >= choices.len() {
        None
    } else if ends_text(choices[done as int]) {
        Some((choices.take(done as int), StopReason::Eos))
    } else if in_a_loop(choices.take(done as int + 1)) {
        Some((choices.take(done as int + 1), StopReason::Repetition))
    } else {
        generation_outcome(choices, done + 1, max_tokens)
    }
}

/// Generation gives the first tokens that the model chose, at most as many as allowed, and none of
/// them ends the text. It stops at the first token that ends the text, or else where the tokens so
/// far first look like a loop, or else at the limit.
pub proof fn law_generation_stops_first(choices: Seq<u32>, done: nat, max_tokens: nat)
    requires
        done <= max_tokens,
        done <= choices.len(),
        forall|i: int| 0 <= i < done ==> !ends_text(#[trigger] choices[i]),
        forall|i: int| 0 <= i <= done ==> !in_a_loop(#[trigger] choices.take(i)),
    ensures
        generation_outcome(choices, done, max_tokens) matches Some((tokens, reason)) ==> {
            let n = tokens.len() as int;
            &&& n <= max_tokens
            &&& n <= choices.len()
            &&& tokens == choices.take(n)
            &&& forall|i: int| 0 <= i < n ==> !ends_text(#[trigger] tokens[i])
            &&& forall|i: int| 0 <= i < n ==> !in_a_loop(#[trigger] choices.take(i))
            &&& reason is Repetition == in_a_loop(tokens)
            &&& reason is Eos == (!in_a_loop(tokens) && n < max_tokens)
            &&& reason is Eos ==> n < choices.len() && ends_text(choices[n])
            &&& reason is MaxTokens ==> n == max_tokens
        },
    decreases max_tokens - done,
{
    if done < max_tokens && done < choices.len() && !ends_text(choices[done as int]) && !in_a_loop(
        choices.take(done as int + 1),
    ) {
        law_generation_stops_first(choices, done + 1, max_tokens);
    }
}

impl Generation {
    /// Nothing was chosen beyond the limit, and generation goes on only below it.
    pub open spec fn wf(self) -> bool {
        &&& self.tokens@.len() <= self.max_tokens
        &&& self.stopped is None ==> self.tokens@.len() < self.max_tokens
    }

    /// Before the first step. With a limit of zero it has already stopped.
    pub fn new(max_tokens: usize) -> (r: Generation)
        ensures
            r.wf(),
            r.tokens@ == Seq::<u32>::empty(),
            r.max_tokens == max_tokens,
            r.stopped == if max_tokens == 0 {
                Some(StopReason::MaxTokens)
            } else {
                None::<StopReason>
            },
    {
        Generation {
            tokens: Vec::new(),
            max_tokens,
            stopped: if max_tokens == 0 {
                Some(StopReason::MaxTokens)
            } else {
                None
            },
        }
    }

    /// Takes the token that the model chose.
    pub fn accept(&mut self, token: u32)
        requires
            old(self).wf(),
            old(self).stopped is None,
        ensures
            final(self).wf(),
            final(self).max_tokens == old(self).max_tokens,
            final(self).tokens@ == if ends_text(token) {
                old(self).tokens@
            } else {
                old(self).tokens@.push(token)
            },
            final(self).stopped == if ends_text(token) {
                Some(StopReason::Eos)
            } else if in_a_loop(old(self).tokens@.push(token)) {
                Some(StopReason::Repetition)
            } else if old(self).tokens@.len() + 1 >= old(self).max_tokens {
                Some(StopReason::MaxTokens)
            } else {
                None::<StopReason>
            },
            forall|choices: Seq<u32>|
                #![trigger generation_outcome(choices, old(self).tokens@.len(),
                    old(self).max_tokens as nat)]
                old(self).tokens@.is_prefix_of(choices) && old(self).tokens@.len() < choices.len()
                    && choices[old(self).tokens@.len() as int] == token ==> match final(self).stopped {
                    Some(reason) => generation_outcome(
                        choices,
                        old(self).tokens@.len(),
                        old(self).max_tokens as nat,
                    ) == Some((final(self).tokens@, reason)),
                    None => generation_outcome(
                        choices,
                        old(self).tokens@.len(),
                        old(self).max_tokens as nat,
                    ) == generation_outcome(
                        choices,
                        final(self).tokens@.len(),
                        old(self).max_tokens as nat,
                    ),
                },
    {
        let ghost before = self.tokens@;
        if token == END_OF_TURN || token == END_OF_TEXT {
            self.stopped = Some(StopReason::Eos);
        } else {
            self.tokens.push(token);
            if looks_like_repetition_loop(self.tokens.as_slice()) {
                self.stopped = Some(StopReason::Repetition);
            } else if self.tokens.len() >= self.max_tokens {
                self.stopped = Some(StopReason::MaxTokens);
            }
        }
        proof {
            assert forall|choices: Seq<u32>|
                before.is_prefix_of(choices) && before.len() < choices.len()
                    && choices[before.len() as int] == token implies choices.take(
                before.len() as int,
            ) == before && choices.take(before.len() as int + 1) == before.push(token) by {
                assert(choices.take(before.len() as int) =~= before);
                assert(choices.take(before.len() as int + 1) =~= before.push(token));
            }
        }
    }
}

/// Runs generation on tokens that a model chose. `None` where they are used up before it stops.
pub fn generate(choices: &[u32], max_tokens: usize) -> (r: Option<(Vec<u32>, StopReason)>)
    ensures
        match r {
            Some((tokens, reason)) => generation_outcome(choices@, 0, max_tokens as nat) == Some(
                (tokens@, reason),
            ),
            None => generation_outcome(choices@, 0, max_tokens as nat) is None,
        },
{
    let mut g = Generation::new(max_tokens);
    let n: usize = choices.len();
    let mut i: usize = 0;
    if max_tokens == 0 {
        assert(choices@.take(0) =~= Seq::<u32>::empty());
        return Some((g.tokens, StopReason::MaxTokens));
    }
    while i < n
        invariant
            i <= n == choices@.len(),
            g.wf(),
            g.stopped is None,
            g.max_tokens == max_tokens,
            g.tokens@ == choices@.take(i as int),
            generation_outcome(choices@, i as nat, max_tokens as nat) == generation_outcome(
                choices@,
                0,
                max_tokens as nat,
            ),
        decreases n - i,
    {
        assert(choices@.take(i + 1) =~= choices@.take(i as int).push(choices@[i as int]));
        g.accept(choices[i]);
        if let Some(reason) = g.stopped {
            return Some((g.tokens, reason));
        }
        i += 1;
    }
    None
}

/// `token` has the greatest score behind the last position.
pub open spec fn next_token_result(logits: Array, token: u32) -> bool {
    let last = narrow_array(logits, 1, logits.dims[1] - 1, 1);
    argmax_result(without_axis(without_axis(last, 1), 0), token)
}

/// The token that is chosen has the greatest score of the last position: none of the entries from
/// `(s - 1) * v` on is greater, for `s` positions and `v` tokens.
pub proof fn law_next_token_is_the_best_of_the_last(logits: Array, token: u32, j: int)
    requires
        next_token_result(logits, token),
        logits.kind == single(),
        logits.dims.len() == 3,
        logits.dims[0] == 1,
        logits.dims[1] >= 1,
        logits.dims[2] >= 2,
        logits.dims[2] <= u32::MAX,
        logits.elems.len() == logits.dims[1] * logits.dims[2],
        forall|k: int|
            0 <= k < logits.elems.len() ==> is_number(single(), #[trigger] logits.elems[k]),
        0 <= j < logits.dims[2],
    ensures
        token < logits.dims[2],
        rank_of(single(), logits.elems[(logits.dims[1] - 1) * logits.dims[2] + j]) <= rank_of(
            single(),
            logits.elems[(logits.dims[1] - 1) * logits.dims[2] + token],
        ),
{
    let s = logits.dims[1] as int;
    let v = logits.dims[2] as int;
    let last = narrow_array(logits, 1, s - 1, 1);
    assert(logits.dims.skip(2) =~= seq![logits.dims[2]]);
    lemma_volume_vector(logits.dims[2]);
    assert(logits.dims.take(1) =~= seq![1usize]);
    lemma_volume_vector(1);
    assert(1 * v == v);
    assert((s - 1) * v + v == s * v && 0 <= (s - 1) * v) by (nonlinear_arith)
        requires
            s >= 1,
            v >= 0,
    ;
    assert(last.elems.len() == v);
    assert forall|k: int| 0 <= k < v implies #[trigger] last.elems[k] == logits.elems[(s - 1) * v
        + k] by {
        lemma_division(0, v, k);
        assert(0 * (s * v) == 0);
    }
    let flat = without_axis(last, 1);
    let scores = without_axis(flat, 0);
    assert(last.dims =~= seq![1usize, 1usize, logits.dims[2]]);
    assert(flat.dims =~= seq![1usize, logits.dims[2]]);
    assert(scores.elems == last.elems);
    assert forall|k: int| 0 <= k < scores.elems.len() implies is_number(
        single(),
        #[trigger] scores.elems[k],
    ) by {
        assert(scores.elems[k] == logits.elems[(s - 1) * v + k]);
    }
    assert(is_greatest(scores, token));
    assert(!exceeds(single(), scores.elems[j], scores.elems[token as int]));
}

/// There is no last position, or looking for its greatest score can be refused.
pub open spec fn next_token_refused(logits: Array) -> bool {
    let last = narrow_array(logits, 1, logits.dims[1] - 1, 1);
    ||| logits.dims.len() < 3
    ||| logits.dims[1] == 0
    ||| argmax_refused(without_axis(without_axis(last, 1), 0))
}

/// The token that a model's scores choose. The scores are those of one text, by position and token.
pub fn next_token(logits: &Tensor) -> (r: Result<u32, Error>)
    ensures
        r matches Ok(k) ==> tensor_dims(*logits).len() >= 3 && tensor_dims(*logits)[1] >= 1
            && next_token_result(array(*logits), k),
        r is Err ==> next_token_refused(array(*logits)),
{
    let _width = extent(logits, 2)?;
    let n: usize = extent(logits, 1)?;
    let last = narrow(logits, 1, if n > 0 { n - 1 } else { 0 }, 1)?;
    let scores = squeeze(&squeeze(&last, 1)?, 0)?;
    argmax(&scores)
}

/// Two tokens end the text, and no other: the one at the end of a turn and the one at the end of a text.
/// Whatever was chosen, none of them is among the tokens that generation gives.
pub proof fn law_two_tokens_end_the_text(choices: Seq<u32>, max_tokens: nat, token: u32)
    ensures
        ends_text(token) <==> token == 151645 || token == 151643,
        choices.len() > 0 && max_tokens > 0 && (choices[0] == 151645 || choices[0] == 151643)
            ==> generation_outcome(choices, 0, max_tokens) == Some(
            (Seq::<u32>::empty(), StopReason::Eos),
        ),
        generation_outcome(choices, 0, 0) == Some((Seq::<u32>::empty(), StopReason::MaxTokens)),
{
    assert(choices.take(0) =~= Seq::<u32>::empty());
}

} // verus!
