//! The Whisper model: audio to features, and tokens with features to scores.
use crate::decoder::{quantized_entries, quantized_prefix, Packed};
use crate::tensor::{array, dims, refuse, tensor_dims, Array};
use crate::weights::{stored_weights, weight_device, weight_kind, weight_prefix, WeightStore};
use candle_core::{Device, Error, Tensor};
use candle_transformers::models::whisper::model as plain_model;
use candle_transformers::models::whisper::quantized_model as packed_model;
use candle_transformers::models::whisper::Config;
use candle_transformers::quantized_var_builder as quantized;
use vstd::prelude::*;

verus! {

/// `candle_transformers::models::whisper::model::Whisper`.
#[verifier::external_type_specification]
#[verifier::external_body]
pub struct ExPlainModel(candle_transformers::models::whisper::model::Whisper);

/// `candle_transformers::models::whisper::quantized_model::Whisper`.
#[verifier::external_type_specification]
#[verifier::external_body]
pub struct ExPackedModel(candle_transformers::models::whisper::quantized_model::Whisper);

/// `r` can come of the audio encoder for `x`, and `after` is what it left of the model: a result,
/// or none where it is refused.
pub uninterp spec fn encoding_outcome(
    before: plain_model::Whisper,
    x: Array,
    flush: bool,
    after: plain_model::Whisper,
    r: Option<Array>,
) -> bool;

/// `r` can come of the text decoder for the tokens `x` and the features `xa`, and `after` is what
/// it left of the model: a result, or none where it is refused.
pub uninterp spec fn decoding_outcome(
    before: plain_model::Whisper,
    x: Array,
    xa: Array,
    flush: bool,
    after: plain_model::Whisper,
    r: Option<Array>,
) -> bool;

/// `r` can come of the scores of tokens that the model gives for `x`: a result, or none where it is
/// refused.
pub uninterp spec fn scoring_outcome(m: plain_model::Whisper, x: Array, r: Option<Array>) -> bool;

/// `after` is what forgetting left of the model.
pub uninterp spec fn emptied(before: plain_model::Whisper, after: plain_model::Whisper) -> bool;

/// `r` can come of the audio encoder with quantized weights for `x`: a result, or none where it is
/// refused.
pub uninterp spec fn packed_encoding_outcome(
    before: packed_model::Whisper,
    x: Array,
    flush: bool,
    after: packed_model::Whisper,
    r: Option<Array>,
) -> bool;

/// `r` can come of the text decoder with quantized weights for the tokens `x` and the features
/// `xa`: a result, or none where it is refused.
pub uninterp spec fn packed_decoding_outcome(
    before: packed_model::Whisper,
    x: Array,
    xa: Array,
    flush: bool,
    after: packed_model::Whisper,
    r: Option<Array>,
) -> bool;

/// `r` can come of the scores of tokens that the model with quantized weights gives for `x`: a
/// result, or none where it is refused.
pub uninterp spec fn packed_scoring_outcome(
    m: packed_model::Whisper,
    x: Array,
    r: Option<Array>,
) -> bool;

/// `after` is what forgetting left of the model with quantized weights.
pub uninterp spec fn packed_emptied(
    before: packed_model::Whisper,
    after: packed_model::Whisper,
) -> bool;

/// The numbers of heads that the attention of a model's encoder and of its decoder is cut into.
pub uninterp spec fn plain_heads(m: plain_model::Whisper) -> (nat, nat);

/// The numbers of heads that the attention of a model with quantized weights is cut into, in its encoder
/// and in its decoder.
pub uninterp spec fn packed_heads(m: packed_model::Whisper) -> (nat, nat);

/// A spectrogram by recording, mel bins and time that is not empty.
pub open spec fn audible(d: Seq<usize>) -> bool {
    d.len() == 3 && d[2] >= 1
}

/// Tokens by text, and features by recording, time and entries, where neither is empty.
pub open spec fn readable(x: Seq<usize>, xa: Seq<usize>) -> bool {
    x.len() == 2 && x[1] >= 1 && xa.len() == 3 && xa[1] >= 1
}

/// `AudioEncoder::forward` of the plain model, whose attention must have heads. Its convolutions need
/// at least one frame.
#[verifier::external_body]
fn encode(m: &mut plain_model::Whisper, x: &Tensor, flush: bool) -> (r: Result<Tensor, Error>)
    requires
        plain_heads(*old(m)).0 >= 1,
        audible(tensor_dims(*x)),
    ensures
        plain_heads(*final(m)) == plain_heads(*old(m)),
        match r {
            Ok(t) => encoding_outcome(*old(m), array(*x), flush, *final(m), Some(array(t))),
            Err(_) => encoding_outcome(*old(m), array(*x), flush, *final(m), None),
        },
{
    m.encoder.forward(x, flush)
}

/// `TextDecoder::forward` of the plain model, whose attention must have heads. It panics where there
/// is no token or no feature.
#[verifier::external_body]
fn decode(m: &mut plain_model::Whisper, x: &Tensor, xa: &Tensor, flush: bool) -> (r: Result<
    Tensor,
    Error,
>)
    requires
        plain_heads(*old(m)).1 >= 1,
        readable(tensor_dims(*x), tensor_dims(*xa)),
    ensures
        plain_heads(*final(m)) == plain_heads(*old(m)),
        match r {
            Ok(t) => decoding_outcome(
                *old(m),
                array(*x),
                array(*xa),
                flush,
                *final(m),
                Some(array(t)),
            ),
            Err(_) => decoding_outcome(
                *old(m),
                array(*x),
                array(*xa),
                flush,
                *final(m),
                None,
            ),
        },
{
    m.decoder.forward(x, xa, flush)
}

/// `TextDecoder::final_linear` of the plain model.
#[verifier::external_body]
fn score(m: &plain_model::Whisper, x: &Tensor) -> (r: Result<Tensor, Error>)
    ensures
        match r {
            Ok(t) => scoring_outcome(*m, array(*x), Some(array(t))),
            Err(_) => scoring_outcome(*m, array(*x), None),
        },
{
    m.decoder.final_linear(x)
}

/// `Whisper::reset_kv_cache` of the plain model.
#[verifier::external_body]
fn empty(m: &mut plain_model::Whisper)
    ensures
        plain_heads(*final(m)) == plain_heads(*old(m)),
        emptied(*old(m), *final(m)),
{
    m.reset_kv_cache()
}

/// `AudioEncoder::forward` of the quantized model, whose attention must have heads. Its convolutions
/// need at least one frame.
#[verifier::external_body]
fn packed_encode(m: &mut packed_model::Whisper, x: &Tensor, flush: bool) -> (r: Result<
    Tensor,
    Error,
>)
    requires
        packed_heads(*old(m)).0 >= 1,
        audible(tensor_dims(*x)),
    ensures
        packed_heads(*final(m)) == packed_heads(*old(m)),
        match r {
            Ok(t) => packed_encoding_outcome(*old(m), array(*x), flush, *final(m), Some(array(t))),
            Err(_) => packed_encoding_outcome(*old(m), array(*x), flush, *final(m), None),
        },
{
    m.encoder.forward(x, flush)
}

/// `TextDecoder::forward` of the quantized model, whose attention must have heads. It panics where
/// there is no token or no feature.
#[verifier::external_body]
fn packed_decode(m: &mut packed_model::Whisper, x: &Tensor, xa: &Tensor, flush: bool) -> (r: Result<
    Tensor,
    Error,
>)
    requires
        packed_heads(*old(m)).1 >= 1,
        readable(tensor_dims(*x), tensor_dims(*xa)),
    ensures
        packed_heads(*final(m)) == packed_heads(*old(m)),
        match r {
            Ok(t) => packed_decoding_outcome(
                *old(m),
                array(*x),
                array(*xa),
                flush,
                *final(m),
                Some(array(t)),
            ),
            Err(_) => packed_decoding_outcome(
                *old(m),
                array(*x),
                array(*xa),
                flush,
                *final(m),
                None,
            ),
        },
{
    m.decoder.forward(x, xa, flush)
}

/// `TextDecoder::final_linear` of the quantized model.
#[verifier::external_body]
fn packed_score(m: &packed_model::Whisper, x: &Tensor) -> (r: Result<Tensor, Error>)
    ensures
        match r {
            Ok(t) => packed_scoring_outcome(*m, array(*x), Some(array(t))),
            Err(_) => packed_scoring_outcome(*m, array(*x), None),
        },
{
    m.decoder.final_linear(x)
}

/// `Whisper::reset_kv_cache` of the quantized model.
#[verifier::external_body]
fn packed_empty(m: &mut packed_model::Whisper)
    ensures
        packed_heads(*final(m)) == packed_heads(*old(m)),
        packed_emptied(*old(m), *final(m)),
{
    m.reset_kv_cache()
}

/// A model, with quantized weights or without.
pub enum InnerModel {
    Normal(plain_model::Whisper),
    Quantized(packed_model::Whisper),
}

/// `r` is what the audio encoder of a model gave for `x`.
pub open spec fn model_encoded(
    before: InnerModel,
    x: Array,
    flush: bool,
    after: InnerModel,
    r: Array,
) -> bool {
    match (before, after) {
        (InnerModel::Normal(a), InnerModel::Normal(b)) => encoding_outcome(a, x, flush, b, Some(r)),
        (InnerModel::Quantized(a), InnerModel::Quantized(b)) => packed_encoding_outcome(
            a,
            x,
            flush,
            b,
            Some(r),
        ),
        _ => false,
    }
}

/// The audio encoder of a model can refuse `x`.
pub open spec fn encoding_refused(
    before: InnerModel,
    x: Array,
    flush: bool,
    after: InnerModel,
) -> bool {
    match (before, after) {
        (InnerModel::Normal(a), InnerModel::Normal(b)) => encoding_outcome(a, x, flush, b, None),
        (InnerModel::Quantized(a), InnerModel::Quantized(b)) => packed_encoding_outcome(
            a,
            x,
            flush,
            b,
            None,
        ),
        _ => false,
    }
}

/// The text decoder of a model can refuse the tokens `x` and the features `xa`.
pub open spec fn decoding_refused(
    before: InnerModel,
    x: Array,
    xa: Array,
    flush: bool,
    after: InnerModel,
) -> bool {
    match (before, after) {
        (InnerModel::Normal(a), InnerModel::Normal(b)) => decoding_outcome(
            a,
            x,
            xa,
            flush,
            b,
            None,
        ),
        (InnerModel::Quantized(a), InnerModel::Quantized(b)) => packed_decoding_outcome(
            a,
            x,
            xa,
            flush,
            b,
            None,
        ),
        _ => false,
    }
}

/// A model can refuse to give scores of tokens for `x`.
pub open spec fn scoring_refused(m: InnerModel, x: Array) -> bool {
    match m {
        InnerModel::Normal(a) => scoring_outcome(a, x, None),
        InnerModel::Quantized(a) => packed_scoring_outcome(a, x, None),
    }
}

/// `r` is what the text decoder of a model gave for the tokens `x` and the features `xa`.
pub open spec fn model_decoded(
    before: InnerModel,
    x: Array,
    xa: Array,
    flush: bool,
    after: InnerModel,
    r: Array,
) -> bool {
    match (before, after) {
        (InnerModel::Normal(a), InnerModel::Normal(b)) => decoding_outcome(
            a,
            x,
            xa,
            flush,
            b,
            Some(r),
        ),
        (InnerModel::Quantized(a), InnerModel::Quantized(b)) => packed_decoding_outcome(
            a,
            x,
            xa,
            flush,
            b,
            Some(r),
        ),
        _ => false,
    }
}

/// `r` are the scores of tokens that a model gave for `x`.
pub open spec fn model_scored(m: InnerModel, x: Array, r: Array) -> bool {
    match m {
        InnerModel::Normal(a) => scoring_outcome(a, x, Some(r)),
        InnerModel::Quantized(a) => packed_scoring_outcome(a, x, Some(r)),
    }
}

/// `after` is what forgetting left of a model.
pub open spec fn model_emptied(before: InnerModel, after: InnerModel) -> bool {
    match (before, after) {
        (InnerModel::Normal(a), InnerModel::Normal(b)) => emptied(a, b),
        (InnerModel::Quantized(a), InnerModel::Quantized(b)) => packed_emptied(a, b),
        _ => false,
    }
}

// ---------------------------------------------------------------------------
// Loading
// ---------------------------------------------------------------------------

/// Sizes of a model.
pub struct WhisperConfig {
    pub num_mel_bins: usize,
    pub max_source_positions: usize,
    pub d_model: usize,
    pub encoder_attention_heads: usize,
    pub encoder_layers: usize,
    pub vocab_size: usize,
    pub max_target_positions: usize,
    pub decoder_attention_heads: usize,
    pub decoder_layers: usize,
    /// Tokens that are never chosen.
    pub suppress_tokens: Vec<u32>,
}

/// Sizes of a model, with the tokens as a sequence.
#[verifier::ext_equal]
pub struct ConfigView {
    pub num_mel_bins: usize,
    pub max_source_positions: usize,
    pub d_model: usize,
    pub encoder_attention_heads: usize,
    pub encoder_layers: usize,
    pub vocab_size: usize,
    pub max_target_positions: usize,
    pub decoder_attention_heads: usize,
    pub decoder_layers: usize,
    pub suppress_tokens: Seq<u32>,
}

impl View for WhisperConfig {
    type V = ConfigView;

    open spec fn view(&self) -> ConfigView {
        ConfigView {
            num_mel_bins: self.num_mel_bins,
            max_source_positions: self.max_source_positions,
            d_model: self.d_model,
            encoder_attention_heads: self.encoder_attention_heads,
            encoder_layers: self.encoder_layers,
            vocab_size: self.vocab_size,
            max_target_positions: self.max_target_positions,
            decoder_attention_heads: self.decoder_attention_heads,
            decoder_layers: self.decoder_layers,
            suppress_tokens: self.suppress_tokens@,
        }
    }
}

impl ConfigView {
    /// Attention has heads.
    pub open spec fn has_heads(self) -> bool {
        self.encoder_attention_heads >= 1 && self.decoder_attention_heads >= 1
    }

    /// Positions have entries, and there are addresses for the tables of positions.
    pub open spec fn fits(self) -> bool {
        &&& self.d_model >= 2
        &&& 4 * (self.max_source_positions * self.d_model) <= isize::MAX
        &&& 4 * (self.max_target_positions * self.max_target_positions) <= isize::MAX
    }
}

/// The sizes that a configuration in JSON holds, where it is one.
pub uninterp spec fn config_of(json: Seq<char>) -> Option<ConfigView>;

/// `serde_json::from_str` into candle's configuration of the model.
#[verifier::external_body]
fn read_whisper_config(json: &str) -> (r: Result<WhisperConfig, serde_json::Error>)
    ensures
        match r {
            Ok(c) => config_of(json@) == Some(c@),
            Err(_) => config_of(json@) is None,
        },
{
    serde_json::from_str::<Config>(json).map(|c| WhisperConfig {
        num_mel_bins: c.num_mel_bins,
        max_source_positions: c.max_source_positions,
        d_model: c.d_model,
        encoder_attention_heads: c.encoder_attention_heads,
        encoder_layers: c.encoder_layers,
        vocab_size: c.vocab_size,
        max_target_positions: c.max_target_positions,
        decoder_attention_heads: c.decoder_attention_heads,
        decoder_layers: c.decoder_layers,
        suppress_tokens: c.suppress_tokens,
    })
}

/// Why a configuration cannot be used.
#[derive(Debug, Clone, Copy, PartialEq, Eq, Structural)]
pub enum ConfigError {
    /// It is not a configuration.
    Malformed,
    /// Attention has no heads.
    NoHeads,
    /// There are no entries, or tables of positions are too large.
    Sizes,
}

impl WhisperConfig {
    /// A model of these sizes can be loaded and run.
    pub open spec fn wf(self) -> bool {
        self@.has_heads() && self@.fits()
    }

    /// The sizes in a configuration file.
    pub fn from_json(json: &str) -> (r: Result<WhisperConfig, ConfigError>)
        ensures
            match config_of(json@) {
                None => r == Err::<WhisperConfig, ConfigError>(ConfigError::Malformed),
                Some(c) => if !c.has_heads() {
                    r == Err::<WhisperConfig, ConfigError>(ConfigError::NoHeads)
                } else if !c.fits() {
                    r == Err::<WhisperConfig, ConfigError>(ConfigError::Sizes)
                } else {
                    r matches Ok(w) && w@ == c && w.wf()
                },
            },
    {
        let c = match read_whisper_config(json) {
            Ok(c) => c,
            Err(_) => {
                return Err(ConfigError::Malformed);
            },
        };
        if c.encoder_attention_heads == 0 || c.decoder_attention_heads == 0 {
            return Err(ConfigError::NoHeads);
        }
        let most: u128 = isize::MAX as u128;
        let source: u128 = c.max_source_positions as u128;
        let target: u128 = c.max_target_positions as u128;
        let width: u128 = c.d_model as u128;
        proof {
            lemma_products_fit(source, width);
            lemma_products_fit(target, target);
        }
        if c.d_model < 2 || source * width > most / 4 || target * target > most / 4 {
            return Err(ConfigError::Sizes);
        }
        Ok(c)
    }
}

proof fn lemma_products_fit(a: u128, b: u128)
    requires
        a <= u64::MAX,
        b <= u64::MAX,
    ensures
        0 <= a * b <= u128::MAX,
{
    assert(0 <= a * b <= 0xFFFF_FFFF_FFFF_FFFF * 0xFFFF_FFFF_FFFF_FFFF) by (nonlinear_arith)
        requires
            0 <= a <= 0xFFFF_FFFF_FFFF_FFFF,
            0 <= b <= 0xFFFF_FFFF_FFFF_FFFF,
    ;
}

/// `m` can come of loading a model from stored tensors under a prefix, in an element type and on a device: a
/// model, or none where it is refused.
pub uninterp spec fn loading_outcome(
    stored: Map<Seq<char>, Array>,
    prefix: Seq<Seq<char>>,
    kind: int,
    device: Device,
    config: ConfigView,
    m: Option<plain_model::Whisper>,
) -> bool;

/// `m` can come of loading a model from quantized tensors under a prefix: a model, or none where it is
/// refused.
pub uninterp spec fn packed_loading_outcome(
    stored: Map<Seq<char>, Packed>,
    prefix: Seq<Seq<char>>,
    config: ConfigView,
    m: Option<packed_model::Whisper>,
) -> bool;

/// `Whisper::load` of the plain model. Its attention is cut into the heads that the configuration names.
/// Sizes must fit.
#[verifier::external_body]
fn load_plain(w: &WeightStore, c: &WhisperConfig) -> (r: Result<plain_model::Whisper, Error>)
    requires
        c@.fits(),
    ensures
        match r {
            Ok(m) => loading_outcome(
                stored_weights(*w),
                weight_prefix(*w),
                weight_kind(*w),
                weight_device(*w),
                c@,
                Some(m),
            ),
            Err(_) => loading_outcome(
                stored_weights(*w),
                weight_prefix(*w),
                weight_kind(*w),
                weight_device(*w),
                c@,
                None,
            ),
        },
        r matches Ok(m) ==> plain_heads(m) == (
            c.encoder_attention_heads as nat,
            c.decoder_attention_heads as nat,
        ),
{
    plain_model::Whisper::load(&w.inner, Config {
        num_mel_bins: c.num_mel_bins,
        max_source_positions: c.max_source_positions,
        d_model: c.d_model,
        encoder_attention_heads: c.encoder_attention_heads,
        encoder_layers: c.encoder_layers,
        vocab_size: c.vocab_size,
        max_target_positions: c.max_target_positions,
        decoder_attention_heads: c.decoder_attention_heads,
        decoder_layers: c.decoder_layers,
        suppress_tokens: c.suppress_tokens.clone(),
    })
}

/// `Whisper::load` of the quantized model. Its attention is cut into the heads that the configuration
/// names. Sizes must fit.
#[verifier::external_body]
fn load_packed(v: &quantized::VarBuilder, c: &WhisperConfig) -> (r: Result<
    packed_model::Whisper,
    Error,
>)
    requires
        c@.fits(),
    ensures
        match r {
            Ok(m) => packed_loading_outcome(
                quantized_entries(*v),
                quantized_prefix(*v),
                c@,
                Some(m),
            ),
            Err(_) => packed_loading_outcome(
                quantized_entries(*v),
                quantized_prefix(*v),
                c@,
                None,
            ),
        },
        r matches Ok(m) ==> packed_heads(m) == (
            c.encoder_attention_heads as nat,
            c.decoder_attention_heads as nat,
        ),
{
    packed_model::Whisper::load(v, Config {
        num_mel_bins: c.num_mel_bins,
        max_source_positions: c.max_source_positions,
        d_model: c.d_model,
        encoder_attention_heads: c.encoder_attention_heads,
        encoder_layers: c.encoder_layers,
        vocab_size: c.vocab_size,
        max_target_positions: c.max_target_positions,
        decoder_attention_heads: c.decoder_attention_heads,
        decoder_layers: c.decoder_layers,
        suppress_tokens: c.suppress_tokens.clone(),
    })
}

/// The weights that a model is loaded from.
pub enum ModelWeights {
    Plain(WeightStore),
    Packed(quantized::VarBuilder),
}

/// `m` is what loading a model gave.
pub open spec fn model_loaded(w: ModelWeights, config: ConfigView, m: InnerModel) -> bool {
    match (w, m) {
        (ModelWeights::Plain(s), InnerModel::Normal(a)) => loading_outcome(
            stored_weights(s),
            weight_prefix(s),
            weight_kind(s),
            weight_device(s),
            config,
            Some(a),
        ),
        (ModelWeights::Packed(v), InnerModel::Quantized(a)) => packed_loading_outcome(
            quantized_entries(v),
            quantized_prefix(v),
            config,
            Some(a),
        ),
        _ => false,
    }
}

/// Loading a model can be refused.
pub open spec fn loading_refused(w: ModelWeights, config: ConfigView) -> bool {
    match w {
        ModelWeights::Plain(s) => loading_outcome(
            stored_weights(s),
            weight_prefix(s),
            weight_kind(s),
            weight_device(s),
            config,
            None,
        ),
        ModelWeights::Packed(v) => packed_loading_outcome(
            quantized_entries(v),
            quantized_prefix(v),
            config,
            None,
        ),
    }
}

impl InnerModel {
    /// Attention has heads.
    pub open spec fn wf(self) -> bool {
        match self {
            InnerModel::Normal(m) => plain_heads(m).0 >= 1 && plain_heads(m).1 >= 1,
            InnerModel::Quantized(m) => packed_heads(m).0 >= 1 && packed_heads(m).1 >= 1,
        }
    }

    /// The model of some weights, with sizes that can be run.
    pub fn load(w: &ModelWeights, config: &WhisperConfig) -> (r: Result<InnerModel, Error>)
        requires
            config.wf(),
        ensures
            r matches Ok(m) ==> m.wf() && model_loaded(*w, config@, m),
            r is Err ==> loading_refused(*w, config@),
    {
        match w {
            ModelWeights::Plain(s) => Ok(InnerModel::Normal(load_plain(s, config)?)),
            ModelWeights::Packed(v) => Ok(InnerModel::Quantized(load_packed(v, config)?)),
        }
    }

    /// Features of a spectrogram by recording, mel bins and time.
    pub fn encoder_forward(&mut self, x: &Tensor, flush: bool) -> (r: Result<Tensor, Error>)
        requires
            old(self).wf(),
        ensures
            final(self).wf(),
            r is Ok ==> audible(tensor_dims(*x)),
            r matches Ok(t) ==> model_encoded(*old(self), array(*x), flush, *final(self), array(t)),
            r is Err ==> {
                ||| !audible(tensor_dims(*x)) && *final(self) == *old(self)
                ||| encoding_refused(*old(self), array(*x), flush, *final(self))
            },
    {
        let d = dims(x);
        if d.len() != 3 || d[2] == 0 {
            return refuse(x);
        }
        match self {
            InnerModel::Normal(m) => encode(m, x, flush),
            InnerModel::Quantized(m) => packed_encode(m, x, flush),
        }
    }

    /// What the text decoder makes of tokens and features. With `flush` it forgets the features that
    /// it has seen before.
    pub fn decoder_forward(&mut self, x: &Tensor, xa: &Tensor, flush: bool) -> (r: Result<
        Tensor,
        Error,
    >)
        requires
            old(self).wf(),
        ensures
            final(self).wf(),
            r is Ok ==> readable(tensor_dims(*x), tensor_dims(*xa)),
            r matches Ok(t) ==> model_decoded(
                *old(self),
                array(*x),
                array(*xa),
                flush,
                *final(self),
                array(t),
            ),
            r is Err ==> {
                ||| !readable(tensor_dims(*x), tensor_dims(*xa)) && *final(self) == *old(self)
                ||| decoding_refused(*old(self), array(*x), array(*xa), flush, *final(self))
            },
    {
        let tokens = dims(x);
        let features = dims(xa);
        if tokens.len() != 2 || tokens[1] == 0 || features.len() != 3 || features[1] == 0 {
            return refuse(x);
        }
        match self {
            InnerModel::Normal(m) => decode(m, x, xa, flush),
            InnerModel::Quantized(m) => packed_decode(m, x, xa, flush),
        }
    }

    /// The scores of tokens.
    pub fn decoder_final_linear(&self, x: &Tensor) -> (r: Result<Tensor, Error>)
        ensures
            r matches Ok(t) ==> model_scored(*self, array(*x), array(t)),
            r is Err ==> scoring_refused(*self, array(*x)),
    {
        match self {
            InnerModel::Normal(m) => score(m, x),
            InnerModel::Quantized(m) => packed_score(m, x),
        }
    }

    /// Forgets what was seen before.
    pub fn reset_kv_cache(&mut self)
        requires
            old(self).wf(),
        ensures
            final(self).wf(),
            model_emptied(*old(self), *final(self)),
    {
        match self {
            InnerModel::Normal(m) => empty(m),
            InnerModel::Quantized(m) => packed_empty(m),
        }
    }
}

} // verus!
