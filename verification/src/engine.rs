//! Models behind one interface, and which of them can be loaded.
use crate::files::QuantizationType;
use crate::pipeline::{DecoderWeights, Precision};
use crate::text::{contains_text, has_part};
use vstd::prelude::*;

verus! {

/// The kind of a model.
#[derive(Debug, Clone, Copy, PartialEq, Eq, Structural)]
pub enum ModelType {
    Whisper,
    GigaAm,
    Parakeet,
    Qwen3Asr,
}

/// What is known of a model.
pub struct ModelInfo {
    pub model_type: ModelType,
    /// A name for people.
    pub display_name: String,
    /// Number of parameters.
    pub parameters: Option<u64>,
    /// Size of the weights.
    pub weights_size_bytes: Option<u64>,
    pub quantization: QuantizationType,
    /// Languages by their two-letter codes.
    pub languages: Vec<String>,
    /// What computes the model.
    pub backend: String,
}

/// Texts by their characters.
pub open spec fn text_views(texts: Seq<String>) -> Seq<Seq<char>> {
    texts.map_values(|t: String| t@)
}

/// What is known of a model, by its characters.
#[verifier::ext_equal]
pub struct InfoView {
    pub model_type: ModelType,
    pub display_name: Seq<char>,
    pub parameters: Option<u64>,
    pub weights_size_bytes: Option<u64>,
    pub quantization: QuantizationType,
    pub languages: Seq<Seq<char>>,
    pub backend: Seq<char>,
}

impl View for ModelInfo {
    type V = InfoView;

    open spec fn view(&self) -> InfoView {
        InfoView {
            model_type: self.model_type,
            display_name: self.display_name@,
            parameters: self.parameters,
            weights_size_bytes: self.weights_size_bytes,
            quantization: self.quantization,
            languages: text_views(self.languages@),
            backend: self.backend@,
        }
    }
}

/// A model that recognizes speech: what is known of it.
pub trait AsrModel {
    /// Its name.
    spec fn name_spec(&self) -> Seq<char>;

    /// What is known of it.
    spec fn info_spec(&self) -> InfoView;

    /// The sample rate that it expects.
    spec fn rate_spec(&self) -> u32;

    /// The languages that it supports, by their two-letter codes.
    spec fn languages_spec(&self) -> Seq<Seq<char>>;

    fn name(&self) -> (r: String)
        ensures
            r@ == self.name_spec(),
    ;

    fn model_type(&self) -> (r: ModelType)
        ensures
            r == self.info_spec().model_type,
    ;

    fn sample_rate(&self) -> (r: u32)
        ensures
            r == self.rate_spec(),
    ;

    fn supported_languages(&self) -> (r: Vec<String>)
        ensures
            text_views(r@) == self.languages_spec(),
    ;

    fn model_info(&self) -> (r: ModelInfo)
        ensures
            r@ == self.info_spec(),
    ;
}

// ---------------------------------------------------------------------------
// The models
// ---------------------------------------------------------------------------

fn owned(codes: &[&str]) -> (r: Vec<String>)
    ensures
        r@.len() == codes@.len(),
        forall|i: int| 0 <= i < codes@.len() ==> (#[trigger] r@[i])@ == codes@[i]@,
{
    let mut out: Vec<String> = Vec::new();
    let mut i: usize = 0;
    while i < codes.len()
        invariant
            i <= codes@.len(),
            out@.len() == i,
            forall|j: int| 0 <= j < i ==> (#[trigger] out@[j])@ == codes@[j]@,
        decreases codes@.len() - i,
    {
        out.push(codes[i].to_owned());
        i += 1;
    }
    out
}

fn text(s: &str) -> (r: String)
    ensures
        r@ == s@,
{
    s.to_owned()
}

/// Qwen3-ASR, a multilingual model.
pub struct Qwen3AsrModel {
    /// The name of the model's directory.
    pub model_name: String,
    pub quantization: QuantizationType,
    /// Size of the files of weights.
    pub weights_size_bytes: Option<u64>,
}

/// The languages of Qwen3-ASR.
pub open spec fn qwen3_languages() -> Seq<Seq<char>> {
    seq![
        "en"@, "ru"@, "zh"@, "de"@, "fr"@, "es"@, "it"@, "ja"@, "ko"@, "pt"@,
        "nl"@, "pl"@, "ar"@, "hi"@, "th"@, "vi"@, "tr"@, "id"@, "ms"@, "sv"@,
    ]
}

impl Qwen3AsrModel {
    /// The model of a directory.
    pub fn new(
        directory_name: Option<String>,
        quantization: QuantizationType,
        weights_size_bytes: Option<u64>,
    ) -> (r: Qwen3AsrModel)
        ensures
            r.model_name@ == match directory_name {
                Some(n) => n@,
                None => "qwen3-asr"@,
            },
            r.quantization == quantization,
            r.weights_size_bytes == weights_size_bytes,
    {
        Qwen3AsrModel {
            model_name: match directory_name {
                Some(n) => n,
                None => text("qwen3-asr"),
            },
            quantization,
            weights_size_bytes,
        }
    }

    /// How many tokens to generate: as many as the caller says, or else an estimate, but at least 64
    /// and at most 4096.
    pub fn max_tokens(asked: Option<usize>, estimate: usize) -> (r: usize)
        ensures
            r == token_limit(asked, estimate),
            r == match asked {
                Some(n) => n,
                None => if estimate < 64 {
                    64
                } else if estimate > 4096 {
                    4096
                } else {
                    estimate
                },
            },
    {
        match asked {
            Some(n) => n,
            None => if estimate < 64 {
                64
            } else if estimate > 4096 {
                4096
            } else {
                estimate
            },
        }
    }

    /// The language that was detected: none where the model named none.
    pub fn detected_language(language: String) -> (r: Option<String>)
        ensures
            match r {
                Some(l) => l@ == language@ && language@.len() > 0,
                None => language@.len() == 0,
            },
    {
        if language.as_str().is_empty() {
            None
        } else {
            Some(language)
        }
    }
}

impl AsrModel for Qwen3AsrModel {
    open spec fn name_spec(&self) -> Seq<char> {
        self.model_name@
    }

    open spec fn info_spec(&self) -> InfoView {
        InfoView {
            model_type: ModelType::Qwen3Asr,
            display_name: "Qwen3-ASR ("@ + self.model_name@ + ")"@,
            parameters: if contains_text(self.model_name@, "1.7b"@) || contains_text(
                self.model_name@,
                "1.7B"@,
            ) {
                Some(1_700_000_000)
            } else {
                Some(600_000_000)
            },
            weights_size_bytes: self.weights_size_bytes,
            quantization: self.quantization,
            languages: qwen3_languages(),
            backend: "Candle"@,
        }
    }

    open spec fn rate_spec(&self) -> u32 {
        16_000
    }

    open spec fn languages_spec(&self) -> Seq<Seq<char>> {
        qwen3_languages()
    }

    fn name(&self) -> (r: String) {
        self.model_name.clone()
    }

    fn model_type(&self) -> (r: ModelType) {
        ModelType::Qwen3Asr
    }

    fn sample_rate(&self) -> (r: u32) {
        16_000
    }

    fn supported_languages(&self) -> (r: Vec<String>) {
        let r = owned(
            &[
                "en", "ru", "zh", "de", "fr", "es", "it", "ja", "ko", "pt", "nl", "pl", "ar", "hi",
                "th", "vi", "tr", "id", "ms", "sv",
            ],
        );
        assert(text_views(r@) =~= qwen3_languages());
        r
    }

    fn model_info(&self) -> (r: ModelInfo) {
        let mut display_name: String = text("Qwen3-ASR (");
        display_name.push_str(self.model_name.as_str());
        display_name.push_str(")");
        let name = self.model_name.as_str();
        ModelInfo {
            model_type: ModelType::Qwen3Asr,
            display_name,
            parameters: if has_part(name, "1.7b") || has_part(name, "1.7B") {
                Some(1_700_000_000)
            } else {
                Some(600_000_000)
            },
            weights_size_bytes: self.weights_size_bytes,
            quantization: self.quantization,
            languages: self.supported_languages(),
            backend: text("Candle"),
        }
    }
}

/// GigaAM, a model for Russian.
pub struct GigaAmModel {
    pub model_name: String,
    pub sample_rate: u32,
}

/// A file that loading GigaAM needs and that is not there.
#[derive(Debug, Clone, Copy, PartialEq, Eq, Structural)]
pub enum GigaAmLoadError {
    /// `model.safetensors`
    WeightsMissing,
    /// `vocab.json`
    VocabularyMissing,
}

impl GigaAmModel {
    /// Whether the files that loading needs are there; the weights are asked for first.
    pub fn check_files(weights_exist: bool, vocabulary_exists: bool) -> (r: Result<
        (),
        GigaAmLoadError,
    >)
        ensures
            r == if !weights_exist {
                Err::<(), GigaAmLoadError>(GigaAmLoadError::WeightsMissing)
            } else if !vocabulary_exists {
                Err(GigaAmLoadError::VocabularyMissing)
            } else {
                Ok(())
            },
    {
        if !weights_exist {
            return Err(GigaAmLoadError::WeightsMissing);
        }
        if !vocabulary_exists {
            return Err(GigaAmLoadError::VocabularyMissing);
        }
        Ok(())
    }

    /// The element type of the weights: half precision with CUDA alone, since elsewhere convolutions
    /// lack it.
    pub fn precision(is_cuda: bool) -> (r: Precision)
        ensures
            r == if is_cuda {
                Precision::BrainHalf
            } else {
                Precision::Single
            },
    {
        if is_cuda {
            Precision::BrainHalf
        } else {
            Precision::Single
        }
    }
}

impl AsrModel for GigaAmModel {
    open spec fn name_spec(&self) -> Seq<char> {
        self.model_name@
    }

    open spec fn info_spec(&self) -> InfoView {
        InfoView {
            model_type: ModelType::GigaAm,
            display_name: "GigaAM "@ + self.model_name@,
            parameters: Some(220_000_000),
            weights_size_bytes: Some(442_000_000),
            quantization: QuantizationType::Unquantized,
            languages: seq!["ru"@],
            backend: "candle"@,
        }
    }

    open spec fn rate_spec(&self) -> u32 {
        self.sample_rate
    }

    open spec fn languages_spec(&self) -> Seq<Seq<char>> {
        seq!["ru"@]
    }

    fn name(&self) -> (r: String) {
        self.model_name.clone()
    }

    fn model_type(&self) -> (r: ModelType) {
        ModelType::GigaAm
    }

    fn sample_rate(&self) -> (r: u32) {
        self.sample_rate
    }

    fn supported_languages(&self) -> (r: Vec<String>) {
        let r = owned(&["ru"]);
        assert(text_views(r@) =~= seq!["ru"@]);
        r
    }

    fn model_info(&self) -> (r: ModelInfo) {
        let mut display_name: String = text("GigaAM ");
        display_name.push_str(self.model_name.as_str());
        ModelInfo {
            model_type: ModelType::GigaAm,
            display_name,
            parameters: Some(220_000_000),
            weights_size_bytes: Some(442_000_000),
            quantization: QuantizationType::Unquantized,
            languages: self.supported_languages(),
            backend: text("candle"),
        }
    }
}

/// Whisper.
pub struct WhisperModel {
    /// The name of the model's directory.
    pub model_name: String,
    pub quantization: QuantizationType,
    pub encoder_layers: usize,
    pub decoder_layers: usize,
    /// Whether the vocabulary is the multilingual one.
    pub is_multilingual: bool,
}

/// The languages of Whisper that are shown.
pub open spec fn whisper_languages(is_multilingual: bool) -> Seq<Seq<char>> {
    if is_multilingual {
        seq!["en"@, "ru"@, "zh"@, "de"@, "fr"@, "es"@, "it"@, "ja"@, "ko"@, "pt"@]
    } else {
        seq!["en"@]
    }
}

/// The number of parameters, by the number of layers; zero for a model of unknown size.
pub open spec fn whisper_parameters(encoder_layers: usize, decoder_layers: usize) -> u64 {
    if encoder_layers == 4 {
        39_000_000
    } else if encoder_layers == 6 {
        74_000_000
    } else if encoder_layers == 12 {
        244_000_000
    } else if encoder_layers == 24 {
        769_000_000
    } else if encoder_layers == 32 {
        if decoder_layers <= 4 {
            809_000_000
        } else {
            1_550_000_000
        }
    } else {
        0
    }
}

impl WhisperModel {
    /// The model of a directory. Quantized weights are taken to have eight bits.
    pub fn new(
        directory_name: Option<String>,
        quantized: bool,
        encoder_layers: usize,
        decoder_layers: usize,
        vocab_size: usize,
    ) -> (r: WhisperModel)
        ensures
            r.model_name@ == match directory_name {
                Some(n) => n@,
                None => "whisper"@,
            },
            r.quantization == if quantized {
                QuantizationType::GgufQ8_0
            } else {
                QuantizationType::Unquantized
            },
            r.encoder_layers == encoder_layers,
            r.decoder_layers == decoder_layers,
            r.is_multilingual == (vocab_size >= 51865),
    {
        WhisperModel {
            model_name: match directory_name {
                Some(n) => n,
                None => text("whisper"),
            },
            quantization: if quantized {
                QuantizationType::GgufQ8_0
            } else {
                QuantizationType::Unquantized
            },
            encoder_layers,
            decoder_layers,
            is_multilingual: vocab_size >= 51865,
        }
    }
}

impl AsrModel for WhisperModel {
    open spec fn name_spec(&self) -> Seq<char> {
        self.model_name@
    }

    open spec fn info_spec(&self) -> InfoView {
        InfoView {
            model_type: ModelType::Whisper,
            display_name: "Whisper"@,
            parameters: Some(whisper_parameters(self.encoder_layers, self.decoder_layers)),
            weights_size_bytes: None,
            quantization: self.quantization,
            languages: whisper_languages(self.is_multilingual),
            backend: "candle"@,
        }
    }

    open spec fn rate_spec(&self) -> u32 {
        16_000
    }

    open spec fn languages_spec(&self) -> Seq<Seq<char>> {
        whisper_languages(self.is_multilingual)
    }

    fn name(&self) -> (r: String) {
        self.model_name.clone()
    }

    fn model_type(&self) -> (r: ModelType) {
        ModelType::Whisper
    }

    fn sample_rate(&self) -> (r: u32) {
        16_000
    }

    fn supported_languages(&self) -> (r: Vec<String>) {
        let r = if self.is_multilingual {
            owned(&["en", "ru", "zh", "de", "fr", "es", "it", "ja", "ko", "pt"])
        } else {
            owned(&["en"])
        };
        assert(text_views(r@) =~= whisper_languages(self.is_multilingual));
        r
    }

    fn model_info(&self) -> (r: ModelInfo) {
        let parameters: u64 = match self.encoder_layers {
            4 => 39_000_000,
            6 => 74_000_000,
            12 => 244_000_000,
            24 => 769_000_000,
            32 => if self.decoder_layers <= 4 {
                809_000_000
            } else {
                1_550_000_000
            },
            _ => 0,
        };
        ModelInfo {
            model_type: ModelType::Whisper,
            display_name: text("Whisper"),
            parameters: Some(parameters),
            weights_size_bytes: None,
            quantization: self.quantization,
            languages: self.supported_languages(),
            backend: text("candle"),
        }
    }
}

// ---------------------------------------------------------------------------
// The engine
// ---------------------------------------------------------------------------

/// The kinds of models that were built in.
#[derive(Debug, Clone, Copy, PartialEq, Eq, Structural)]
pub struct ModelSet {
    pub whisper: bool,
    pub gigaam: bool,
    pub parakeet: bool,
    pub qwen3: bool,
}

impl ModelSet {
    /// A kind was built in.
    pub open spec fn has(self, t: ModelType) -> bool {
        match t {
            ModelType::Whisper => self.whisper,
            ModelType::GigaAm => self.gigaam,
            ModelType::Parakeet => self.parakeet,
            ModelType::Qwen3Asr => self.qwen3,
        }
    }
}

/// The place of a kind in lists.
pub open spec fn rank(t: ModelType) -> int {
    match t {
        ModelType::Whisper => 0,
        ModelType::GigaAm => 1,
        ModelType::Parakeet => 2,
        ModelType::Qwen3Asr => 3,
    }
}

/// What loading a model comes to.
#[derive(Debug, Clone, Copy, PartialEq, Eq, Structural)]
pub enum LoadPlan {
    /// Load Whisper, from safetensors or from a GGUF file.
    Whisper { quantized: bool },
    /// Load GigaAM, where asked for after a trial of the graphics processor.
    GigaAm { probe_metal: bool },
    /// Load Parakeet.
    Parakeet,
    /// Load Qwen3-ASR with weights of this origin for its decoder.
    Qwen3Asr { decoder_weights: DecoderWeights },
}

/// Why a model cannot be loaded.
#[derive(Debug, Clone, Copy, PartialEq, Eq, Structural)]
pub enum LoadError {
    /// The kind was not built in.
    NotBuiltIn(ModelType),
    /// The kind has no quantized form.
    NotQuantizable(ModelType),
}

/// What loading a model of a kind comes to.
pub open spec fn plan_of(
    set: ModelSet,
    t: ModelType,
    quantized: bool,
    is_metal: bool,
) -> Result<LoadPlan, LoadError> {
    if !set.has(t) {
        Err(LoadError::NotBuiltIn(t))
    } else {
        match t {
            ModelType::Whisper => Ok(LoadPlan::Whisper { quantized }),
            ModelType::GigaAm => if quantized {
                Err(LoadError::NotQuantizable(t))
            } else {
                Ok(LoadPlan::GigaAm { probe_metal: is_metal })
            },
            ModelType::Parakeet => if quantized {
                Err(LoadError::NotQuantizable(t))
            } else {
                Ok(LoadPlan::Parakeet)
            },
            ModelType::Qwen3Asr => Ok(
                LoadPlan::Qwen3Asr {
                    decoder_weights: if quantized {
                        DecoderWeights::Gguf
                    } else {
                        DecoderWeights::Auto
                    },
                },
            ),
        }
    }
}

/// A value on its own.
pub struct Held<T> {
    pub value: T,
}

/// A model of one of the kinds in this library, or of another one.
pub enum EngineModel {
    Whisper(WhisperModel),
    GigaAm(GigaAmModel),
    Qwen3Asr(Qwen3AsrModel),
    Other(Held<Box<dyn AsrModel>>),
}

impl AsrModel for EngineModel {
    open spec fn name_spec(&self) -> Seq<char> {
        match self {
            EngineModel::Whisper(m) => m.name_spec(),
            EngineModel::GigaAm(m) => m.name_spec(),
            EngineModel::Qwen3Asr(m) => m.name_spec(),
            EngineModel::Other(m) => m.value.name_spec(),
        }
    }

    open spec fn info_spec(&self) -> InfoView {
        match self {
            EngineModel::Whisper(m) => m.info_spec(),
            EngineModel::GigaAm(m) => m.info_spec(),
            EngineModel::Qwen3Asr(m) => m.info_spec(),
            EngineModel::Other(m) => m.value.info_spec(),
        }
    }

    open spec fn rate_spec(&self) -> u32 {
        match self {
            EngineModel::Whisper(m) => m.rate_spec(),
            EngineModel::GigaAm(m) => m.rate_spec(),
            EngineModel::Qwen3Asr(m) => m.rate_spec(),
            EngineModel::Other(m) => m.value.rate_spec(),
        }
    }

    open spec fn languages_spec(&self) -> Seq<Seq<char>> {
        match self {
            EngineModel::Whisper(m) => m.languages_spec(),
            EngineModel::GigaAm(m) => m.languages_spec(),
            EngineModel::Qwen3Asr(m) => m.languages_spec(),
            EngineModel::Other(m) => m.value.languages_spec(),
        }
    }

    fn name(&self) -> (r: String) {
        match self {
            EngineModel::Whisper(m) => m.name(),
            EngineModel::GigaAm(m) => m.name(),
            EngineModel::Qwen3Asr(m) => m.name(),
            EngineModel::Other(m) => m.value.name(),
        }
    }

    fn model_type(&self) -> (r: ModelType) {
        match self {
            EngineModel::Whisper(m) => m.model_type(),
            EngineModel::GigaAm(m) => m.model_type(),
            EngineModel::Qwen3Asr(m) => m.model_type(),
            EngineModel::Other(m) => m.value.model_type(),
        }
    }

    fn sample_rate(&self) -> (r: u32) {
        match self {
            EngineModel::Whisper(m) => m.sample_rate(),
            EngineModel::GigaAm(m) => m.sample_rate(),
            EngineModel::Qwen3Asr(m) => m.sample_rate(),
            EngineModel::Other(m) => m.value.sample_rate(),
        }
    }

    fn supported_languages(&self) -> (r: Vec<String>) {
        match self {
            EngineModel::Whisper(m) => m.supported_languages(),
            EngineModel::GigaAm(m) => m.supported_languages(),
            EngineModel::Qwen3Asr(m) => m.supported_languages(),
            EngineModel::Other(m) => m.value.supported_languages(),
        }
    }

    fn model_info(&self) -> (r: ModelInfo) {
        match self {
            EngineModel::Whisper(m) => m.model_info(),
            EngineModel::GigaAm(m) => m.model_info(),
            EngineModel::Qwen3Asr(m) => m.model_info(),
            EngineModel::Other(m) => m.value.model_info(),
        }
    }
}

/// One engine for all kinds of models.
pub struct AsrEngine {
    /// The model.
    pub inner: EngineModel,
}

impl AsrEngine {
    /// Decides how a model of a kind is loaded.
    pub fn load_inner(set: &ModelSet, model_type: ModelType, quantized: bool, is_metal: bool) -> (r:
        Result<LoadPlan, LoadError>)
        ensures
            r == plan_of(*set, model_type, quantized, is_metal),
    {
        match model_type {
            ModelType::Whisper => {
                if !set.whisper {
                    return Err(LoadError::NotBuiltIn(model_type));
                }
                Ok(LoadPlan::Whisper { quantized })
            },
            ModelType::GigaAm => {
                if !set.gigaam {
                    return Err(LoadError::NotBuiltIn(model_type));
                }
                if quantized {
                    return Err(LoadError::NotQuantizable(model_type));
                }
                Ok(LoadPlan::GigaAm { probe_metal: is_metal })
            },
            ModelType::Parakeet => {
                if !set.parakeet {
                    return Err(LoadError::NotBuiltIn(model_type));
                }
                if quantized {
                    return Err(LoadError::NotQuantizable(model_type));
                }
                Ok(LoadPlan::Parakeet)
            },
            ModelType::Qwen3Asr => {
                if !set.qwen3 {
                    return Err(LoadError::NotBuiltIn(model_type));
                }
                Ok(
                    LoadPlan::Qwen3Asr {
                        decoder_weights: if quantized {
                            DecoderWeights::Gguf
                        } else {
                            DecoderWeights::Auto
                        },
                    },
                )
            },
        }
    }

    /// Decides how a model is loaded.
    pub fn load(set: &ModelSet, model_type: ModelType, is_metal: bool) -> (r: Result<
        LoadPlan,
        LoadError,
    >)
        ensures
            r == plan_of(*set, model_type, false, is_metal),
    {
        Self::load_inner(set, model_type, false, is_metal)
    }

    /// Decides how a quantized model is loaded.
    pub fn load_quantized(set: &ModelSet, model_type: ModelType, is_metal: bool) -> (r: Result<
        LoadPlan,
        LoadError,
    >)
        ensures
            r == plan_of(*set, model_type, true, is_metal),
    {
        Self::load_inner(set, model_type, true, is_metal)
    }

    /// An engine for a model that was loaded.
    pub fn from_model(model: Box<dyn AsrModel>) -> (r: AsrEngine)
        ensures
            r.inner matches EngineModel::Other(held) && held.value == model,
            r.inner.name_spec() == model.name_spec(),
            r.inner.info_spec() == model.info_spec(),
            r.inner.rate_spec() == model.rate_spec(),
            r.inner.languages_spec() == model.languages_spec(),
    {
        let held = Held { value: model };
        AsrEngine { inner: EngineModel::Other(held) }
    }

    /// An engine for a Whisper model that was loaded.
    pub fn from_whisper(model: WhisperModel) -> (r: AsrEngine)
        ensures
            r.inner == EngineModel::Whisper(model),
    {
        AsrEngine { inner: EngineModel::Whisper(model) }
    }

    /// An engine for a GigaAM model that was loaded.
    pub fn from_gigaam(model: GigaAmModel) -> (r: AsrEngine)
        ensures
            r.inner == EngineModel::GigaAm(model),
    {
        AsrEngine { inner: EngineModel::GigaAm(model) }
    }

    /// An engine for a Qwen3-ASR model that was loaded.
    pub fn from_qwen3(model: Qwen3AsrModel) -> (r: AsrEngine)
        ensures
            r.inner == EngineModel::Qwen3Asr(model),
    {
        AsrEngine { inner: EngineModel::Qwen3Asr(model) }
    }

    /// The name of the model.
    pub fn name(&self) -> (r: String)
        ensures
            r@ == self.inner.name_spec(),
    {
        self.inner.name()
    }

    /// The kind of the model.
    pub fn model_type(&self) -> (r: ModelType)
        ensures
            r == self.inner.info_spec().model_type,
    {
        self.inner.model_type()
    }

    /// The sample rate that the model expects.
    pub fn sample_rate(&self) -> (r: u32)
        ensures
            r == self.inner.rate_spec(),
    {
        self.inner.sample_rate()
    }

    /// The languages that the model supports.
    pub fn supported_languages(&self) -> (r: Vec<String>)
        ensures
            text_views(r@) == self.inner.languages_spec(),
    {
        self.inner.supported_languages()
    }

    /// What is known of the model.
    pub fn model_info(&self) -> (r: ModelInfo)
        ensures
            r@ == self.inner.info_spec(),
    {
        self.inner.model_info()
    }

    /// The kinds of models that were built in.
    pub fn available_models(set: &ModelSet) -> (r: Vec<ModelType>)
        ensures
            forall|t: ModelType| #[trigger] r@.contains(t) == set.has(t),
            forall|i: int, j: int|
                0 <= i < j < r@.len() ==> rank(#[trigger] r@[i]) < rank(#[trigger] r@[j]),
    {
        let mut models: Vec<ModelType> = Vec::new();
        if set.whisper {
            models.push(ModelType::Whisper);
        }
        let ghost a = models@;
        if set.gigaam {
            models.push(ModelType::GigaAm);
        }
        let ghost b = models@;
        if set.parakeet {
            models.push(ModelType::Parakeet);
        }
        let ghost c = models@;
        if set.qwen3 {
            models.push(ModelType::Qwen3Asr);
        }
        proof {
            assert forall|t: ModelType| #[trigger] models@.contains(t) == set.has(t) by {
                match t {
                    ModelType::Whisper => {
                        if set.whisper {
                            assert(models@[0] == t);
                        }
                    },
                    ModelType::GigaAm => {
                        if set.gigaam {
                            assert(models@[a.len() as int] == t);
                        }
                    },
                    ModelType::Parakeet => {
                        if set.parakeet {
                            assert(models@[b.len() as int] == t);
                        }
                    },
                    ModelType::Qwen3Asr => {
                        if set.qwen3 {
                            assert(models@[c.len() as int] == t);
                        }
                    },
                }
            }
        }
        models
    }
}

/// An engine tells of its model what the model tells of itself: its name, its kind and what else is known
/// of it, its sample rate and its languages.
pub proof fn law_engine_speaks_for_its_model(engine: AsrEngine, model: Box<dyn AsrModel>)
    requires
        engine.inner matches EngineModel::Other(held) && held.value == model,
    ensures
        engine.inner.name_spec() == model.name_spec(),
        engine.inner.info_spec() == model.info_spec(),
        engine.inner.rate_spec() == model.rate_spec(),
        engine.inner.languages_spec() == model.languages_spec(),
{
}

/// An engine over Whisper has its kind, 16000 samples in a second, and what is known of it. The languages
/// in there are the supported ones.
pub proof fn law_engine_over_whisper(engine: AsrEngine, model: WhisperModel)
    requires
        engine.inner == EngineModel::Whisper(model),
    ensures
        engine.inner.info_spec() == model.info_spec(),
        engine.inner.info_spec().model_type == ModelType::Whisper,
        engine.inner.rate_spec() == 16_000,
        engine.inner.info_spec().languages == engine.inner.languages_spec(),
{
}

/// An engine over GigaAM has its kind, its sample rate, and what is known of it. The languages in there
/// are the supported ones.
pub proof fn law_engine_over_gigaam(engine: AsrEngine, model: GigaAmModel)
    requires
        engine.inner == EngineModel::GigaAm(model),
    ensures
        engine.inner.info_spec() == model.info_spec(),
        engine.inner.info_spec().model_type == ModelType::GigaAm,
        engine.inner.rate_spec() == model.sample_rate,
        engine.inner.info_spec().languages == engine.inner.languages_spec(),
{
}

/// An engine over Qwen3-ASR has its kind, 16000 samples in a second, and what is known of it. The
/// languages in there are the supported ones.
pub proof fn law_engine_over_qwen3(engine: AsrEngine, model: Qwen3AsrModel)
    requires
        engine.inner == EngineModel::Qwen3Asr(model),
    ensures
        engine.inner.info_spec() == model.info_spec(),
        engine.inner.info_spec().model_type == ModelType::Qwen3Asr,
        engine.inner.rate_spec() == 16_000,
        engine.inner.info_spec().languages == engine.inner.languages_spec(),
{
}

/// The kind of model that a plan loads.
pub open spec fn plan_kind(p: LoadPlan) -> ModelType {
    match p {
        LoadPlan::Whisper { .. } => ModelType::Whisper,
        LoadPlan::GigaAm { .. } => ModelType::GigaAm,
        LoadPlan::Parakeet => ModelType::Parakeet,
        LoadPlan::Qwen3Asr { .. } => ModelType::Qwen3Asr,
    }
}

/// What is loaded is of the kind that was asked for.
pub proof fn law_plans_keep_the_kind(set: ModelSet, t: ModelType, quantized: bool, is_metal: bool)
    ensures
        plan_of(set, t, quantized, is_metal) matches Ok(p) ==> plan_kind(p) == t,
{
}

/// A model cannot be loaded for want of being built in exactly where it is not among the available
/// ones, and every available one can be loaded unquantized.
pub proof fn law_available_models_load(set: ModelSet, t: ModelType, quantized: bool, is_metal: bool)
    ensures
        plan_of(set, t, quantized, is_metal) == Err::<LoadPlan, LoadError>(LoadError::NotBuiltIn(t))
            <==> !set.has(t),
        set.has(t) ==> plan_of(set, t, false, is_metal) is Ok,
{
}

/// How many tokens to generate: as many as the caller says, or an estimate within bounds.
pub open spec fn token_limit(asked: Option<usize>, estimate: usize) -> usize {
    match asked {
        Some(n) => n,
        None => if estimate < 64 {
            64
        } else if estimate > 4096 {
            4096
        } else {
            estimate
        },
    }
}

/// What the caller says counts, however much it is; an estimate is taken as it is within its bounds, never
/// leaves them, and a greater one does not give fewer tokens.
pub proof fn law_callers_set_the_limit(asked: usize, estimate: usize, more: usize)
    requires
        estimate <= more,
    ensures
        token_limit(Some(asked), estimate) == asked,
        64 <= token_limit(None, estimate) <= 4096,
        64 <= estimate <= 4096 ==> token_limit(None, estimate) == estimate,
        token_limit(None, estimate) <= token_limit(None, more),
{
}

} // verus!
