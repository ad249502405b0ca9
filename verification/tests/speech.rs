//! Transcripts: CTC, Whisper and Qwen3.
use candle_core::scalar::Scalar;
use candle_core::{DType, Device, Tensor};
use candle_transformers::models::whisper::{model, Config};
use rustasr::attention::{DecoderLayer, Qwen3Config};
use rustasr::chunks::Chunk;
use rustasr::ctc::{
    transcribe_chunks, transcribe_encoded, CtcGreedyDecoder, CtcHead, MalformedVocabulary,
};
use rustasr::definition::{DefinitionError, WhisperTokenizer};
use rustasr::decoder::{LinearLayer, RmsNorm, RotaryEmbedding, Weights};
use rustasr::listening::{ConfigError, InnerModel, ModelWeights, WhisperConfig};
use rustasr::pipeline::{PromptError, StopReason};
use rustasr::qwen3::{AsrPipeline, KvCache, Qwen3Decoder};
use rustasr::segment::{decode_choices, is_varied, unique_bigrams, Task, WhisperDecoder};
use rustasr::tokenizer::Tokenizer;
use rustasr::weights::WeightStore;
use rustasr::whisper::{
    language_token, mel_filters, segment_text, special_tokens, transcribe_chunk, transcribe_mels,
    whisper_settings, MelFilterError, SpecialTokens, Strategy, TranscribeError,
    NO_SPEECH,
};

fn number(t: &Tensor) -> f64 {
    t.to_vec0::<f64>().unwrap()
}

#[test]
fn classes_become_text() {
    let json = r#"{"0": "▁да", "1": "▁нет", "2": "!", "x": "no", "+3": "▁"}"#;
    let d = match CtcGreedyDecoder::from_vocab_file(json, 4) {
        Ok(d) => d,
        Err(_) => panic!("the vocabulary is well formed"),
    };
    assert_eq!(d.vocab_size(), 4);
    assert_eq!(d.decode_ids(&[0, 1, 2, 9]), "да нет!");
    assert_eq!(d.decode_ids(&[3, 3, 2]), "!");
    assert_eq!(d.collapse(&vec![4, 0, 0, 4, 0, 2, 2, 4]), vec![0, 0, 2]);
    assert_eq!(d.collapse(&vec![0, 0, 1]), d.collapse(&vec![0, 1, 1]));
    assert!(matches!(CtcGreedyDecoder::from_vocab_file("[]", 4), Err(MalformedVocabulary)));
    let scores = Tensor::new(
        &[
            [0.9f32, 0.0, 0.0, 0.0, 0.1],
            [0.8, 0.0, 0.0, 0.0, 0.1],
            [0.0, 0.0, 0.0, 0.0, 0.7],
            [0.0, 0.9, 0.0, 0.0, 0.1],
        ],
        &Device::Cpu,
    )
    .unwrap();
    assert_eq!(d.decode(&scores).unwrap(), "да нет");
    assert!(d.decode(&scores.unsqueeze(0).unwrap()).is_err());
}

/// A head whose scores are the entries of a frame.
fn head() -> CtcHead {
    let eye = Tensor::eye(3, DType::F32, &Device::Cpu).unwrap().unsqueeze(2).unwrap();
    let bias = Tensor::zeros(3, DType::F32, &Device::Cpu).unwrap();
    let s = WeightStore::from_tensors(
        vec![
            ("decoder_layers.0.weight".to_string(), eye),
            ("decoder_layers.0.bias".to_string(), bias),
        ],
        DType::F32,
        &Device::Cpu,
    ).unwrap();
    CtcHead::load(3, 3, &s).unwrap()
}

/// Frames in which these classes are the greatest.
fn frames(classes: &[usize]) -> Tensor {
    let mut v = vec![0.0f32; 3 * classes.len()];
    for (t, &c) in classes.iter().enumerate() {
        v[c * classes.len() + t] = 2.0;
    }
    Tensor::from_vec(v, (1, 3, classes.len()), &Device::Cpu).unwrap()
}

#[test]
fn a_head_without_channels_has_its_bias() {
    let bias = Tensor::new(&[1.0f32, 2.0, 4.0], &Device::Cpu).unwrap();
    let s = WeightStore::from_tensors(
        vec![
            (
                "decoder_layers.0.weight".to_string(),
                Tensor::zeros((3, 0, 1), DType::F32, &Device::Cpu).unwrap(),
            ),
            ("decoder_layers.0.bias".to_string(), bias),
        ],
        DType::F32,
        &Device::Cpu,
    ).unwrap();
    let h = CtcHead::load(0, 3, &s).unwrap();
    let logs = h.forward(&Tensor::zeros((1, 0, 2), DType::F32, &Device::Cpu).unwrap()).unwrap();
    assert_eq!(logs.dims(), &[1, 2, 3]);
    let v: Vec<f32> = logs.flatten_all().unwrap().to_vec1().unwrap();
    let all = (1f32.exp() + 2f32.exp() + 4f32.exp()).ln();
    for (got, want) in v.iter().zip([1.0, 2.0, 4.0, 1.0, 2.0, 4.0]) {
        assert!((got - (want - all)).abs() < 1e-5);
    }
}

#[test]
fn kernels_may_lie_in_any_order() {
    let logs = |weight: &Tensor| -> Vec<f32> {
        let s = WeightStore::from_tensors(
            vec![
                ("decoder_layers.0.weight".to_string(), weight.clone()),
                ("decoder_layers.0.bias".to_string(), Tensor::zeros(3, DType::F32, &Device::Cpu).unwrap()),
            ],
            DType::F32,
            &Device::Cpu,
        )
        .unwrap();
        let h = CtcHead::load(3, 3, &s).unwrap();
        h.forward(&frames(&[0, 2])).unwrap().flatten_all().unwrap().to_vec1().unwrap()
    };
    let table = Tensor::new(&[[0.5f32, 0.25, 1.0], [2.0, 0.0, -1.0], [1.5, 3.0, 0.75]], &Device::Cpu).unwrap();
    let turned = table.t().unwrap().unsqueeze(2).unwrap();
    assert!(!turned.is_contiguous());
    assert_eq!(logs(&turned), logs(&turned.force_contiguous().unwrap()));
    let repeated = table.narrow(0, 1, 1).unwrap().broadcast_as((3, 3)).unwrap().unsqueeze(2).unwrap();
    assert!(!repeated.is_contiguous());
    // All classes have the same score.
    for v in logs(&repeated) {
        assert!((v + 3f32.ln()).abs() < 1e-5);
    }
}

#[test]
fn encoded_chunks_become_a_transcript() {
    let h = head();
    assert_eq!(h.blank_id(), 2);
    let logs = h.forward(&frames(&[0])).unwrap();
    assert_eq!(logs.dims(), &[1, 1, 3]);
    let v: Vec<f32> = logs.flatten_all().unwrap().to_vec1().unwrap();
    let all = (2f32.exp() + 2.0).ln();
    assert!((v[0] - (2.0 - all)).abs() < 1e-5);
    assert!((v[1] + all).abs() < 1e-5);
    let d = CtcGreedyDecoder::from_entries(
        &vec![("0".to_string(), "▁a".to_string()), ("1".to_string(), "▁b".to_string())],
        2,
    );
    assert_eq!(transcribe_encoded(&h, &d, &frames(&[0, 0, 2, 1])).unwrap(), "a b");
    let chunks = vec![
        Chunk { start: 0, end: 10 },
        Chunk { start: 10, end: 20 },
        Chunk { start: 20, end: 25 },
    ];
    let encoded = vec![frames(&[0]), frames(&[2, 2]), frames(&[1, 2, 1])];
    let t = transcribe_chunks(&h, &d, &encoded, &chunks).unwrap();
    assert_eq!(t.text, "a b b");
    assert_eq!(t.segments.len(), 2);
    assert_eq!((t.segments[1].start, t.segments[1].end), (20, 25));
    assert!(transcribe_encoded(&h, &d, &Tensor::zeros(2, DType::F32, &Device::Cpu).unwrap()).is_err());
}

fn definition(with: &[&str]) -> String {
    definition_with(with, "null", "null")
}

fn definition_with(with: &[&str], normalizer: &str, decoder: &str) -> String {
    let mut vocab = String::from("\"he\": 0, \"y\": 1, \"<unk>\": 2");
    let mut added = String::new();
    for (i, t) in with.iter().enumerate() {
        let id = 3 + i;
        vocab.push_str(&format!(", \"{t}\": {id}"));
        if i > 0 {
            added.push(',');
        }
        added.push_str(&format!(
            "{{\"id\": {id}, \"content\": \"{t}\", \"single_word\": false, \"lstrip\": false, \
             \"rstrip\": false, \"normalized\": false, \"special\": true}}"
        ));
    }
    format!(
        "{{\"version\": \"1.0\", \"truncation\": null, \"padding\": null, \
         \"added_tokens\": [{added}], \"normalizer\": {normalizer}, \"pre_tokenizer\": null, \
         \"post_processor\": null, \"decoder\": {decoder}, \
         \"model\": {{\"type\": \"WordLevel\", \"vocab\": {{{vocab}}}, \"unk_token\": \"<unk>\"}}}}"
    )
}

const SPECIAL: [&str; 7] = [
    "<|startoftranscript|>",
    "<|endoftext|>",
    "<|transcribe|>",
    "<|translate|>",
    "<|notimestamps|>",
    "<|ru|>",
    "<|nospeech|>",
];

#[test]
fn special_tokens_are_looked_up() {
    let t = WhisperTokenizer::from_json(&definition(&SPECIAL)).unwrap();
    let s = special_tokens(&t).ok().unwrap();
    assert_eq!(
        s,
        SpecialTokens {
            sot: 3,
            eot: 4,
            transcribe: 5,
            translate: 6,
            no_speech: 9,
            no_timestamps: 7,
        }
    );
    assert_eq!(language_token(&t, "ru"), Some(8));
    assert_eq!(language_token(&t, "en"), None);
    assert_eq!(segment_text(&t, &vec![0, 4, 1]), Some("he y".to_string()));
    for i in 0..5 {
        let mut left: Vec<&str> = SPECIAL.to_vec();
        left.remove(i);
        let t = WhisperTokenizer::from_json(&definition(&left)).unwrap();
        match special_tokens(&t) {
            Err(e) => assert_eq!(e.text, SPECIAL[i]),
            Ok(_) => panic!("a token is missing"),
        }
    }
    let t = WhisperTokenizer::from_json(&definition(&SPECIAL[..6])).unwrap();
    assert_eq!(special_tokens(&t).ok().unwrap().no_speech, NO_SPEECH);
}

#[test]
fn definitions_that_cannot_be_used() {
    let error = |text: &str| WhisperTokenizer::from_json(text).err();
    assert_eq!(error("{}"), Some(DefinitionError::Malformed));
    assert_eq!(error("{\"decoder\": {"), Some(DefinitionError::Malformed));
    assert_eq!(error(&definition_with(&SPECIAL, "null", "{\"type\": 1")), Some(DefinitionError::Malformed));
    let compiled = definition_with(&SPECIAL, "{\"type\": \"Precompiled\"}", "null");
    assert_eq!(error(&compiled), Some(DefinitionError::Normalizer));
    let coded = definition_with(&SPECIAL, "{\"type\": \"\\u0050recompiled\"}", "null");
    assert_eq!(error(&coded), Some(DefinitionError::Normalizer));
    let tagged = definition_with(&SPECIAL, "{\"type\": {\"Precompiled\": null}}", "null");
    assert_eq!(error(&tagged), Some(DefinitionError::Normalizer));
    // A table that can be read is taken, unless it is applied to added tokens.
    let table = "{\"type\": \"Precompiled\", \"precompiled_charsmap\": \"AAAAAA==\"}";
    let listed = format!("{{\"type\": \"Sequence\", \"normalizers\": [{table}]}}");
    for normalizer in [table, listed.as_str()] {
        let sound = definition_with(&SPECIAL, normalizer, "null");
        let t = WhisperTokenizer::from_json(&sound).unwrap();
        assert_eq!(segment_text(&t, &vec![0, 1]), Some("he y".to_string()));
        let applied = sound.replacen("\"normalized\": false", "\"normalized\": true", 1);
        assert_eq!(error(&applied), Some(DefinitionError::Normalizer));
    }
    let damaged = definition_with(&SPECIAL, &table.replace("AAAAAA==", "AAAA"), "null");
    assert_eq!(error(&damaged), Some(DefinitionError::Normalizer));
    // So is a regular expression, where a plain text may be applied to them.
    let pattern = |kind: &str| {
        format!("{{\"type\": \"Replace\", \"pattern\": {{\"{kind}\": \"h\"}}, \"content\": \"H\"}}")
    };
    for kind in ["Regex", "String"] {
        let sound = definition_with(&SPECIAL, &pattern(kind), "null");
        assert!(WhisperTokenizer::from_json(&sound).is_ok());
        let applied = sound.replacen("\"normalized\": false", "\"normalized\": true", 1);
        let expected = if kind == "Regex" { Some(DefinitionError::Normalizer) } else { None };
        assert_eq!(error(&applied), expected);
    }
}

#[test]
fn texts_are_put_together() {
    let with = |decoder: &str| {
        WhisperTokenizer::from_json(&definition_with(&SPECIAL, "null", decoder)).unwrap()
    };
    let strip = |content: &str, start: usize, stop: usize| {
        format!(
            "{{\"type\": \"Strip\", \"content\": \"{content}\", \"start\": {start}, \"stop\": {stop}}}"
        )
    };
    let fused = |step: &str| {
        format!("{{\"type\": \"Sequence\", \"decoders\": [{{\"type\": \"Fuse\"}}, {step}]}}")
    };
    let text = |decoder: &str, ids: &[u32]| segment_text(&with(decoder), &ids.to_vec());
    assert_eq!(text(&strip("e", 0, 1), &[0, 1]), Some("hy".to_string()));
    assert_eq!(text(&strip("y", 0, 1), &[0, 1]), Some("he".to_string()));
    // A text that is shorter than what is stripped off it cannot be taken.
    assert_eq!(text(&strip("y", 0, 2), &[0, 1]), None);
    assert_eq!(text(&strip("y", 1, 1), &[0, 1]), None);
    assert_eq!(text(&strip("y", 2, 0), &[0, 1]), Some("he".to_string()));
    assert_eq!(text(&fused(&strip("y", 0, 2)), &[0, 1]), Some("he".to_string()));
    assert_eq!(text(&fused(&strip("y", 0, 2)), &[1]), None);
    // Plain texts are replaced. Texts are not searched for a regular expression.
    let replace = |kind: &str| {
        format!("{{\"type\": \"Replace\", \"pattern\": {{\"{kind}\": \"e\"}}, \"content\": \"a\"}}")
    };
    assert_eq!(text(&replace("String"), &[0, 1]), Some("hay".to_string()));
    assert_eq!(text(&replace("Regex"), &[0, 1]), None);
    assert_eq!(text(&fused(&replace("Regex")), &[4]), Some(String::new()));
    // Nothing is left of special tokens.
    let last = "{\"type\": \"BPEDecoder\", \"suffix\": \"e\"}";
    assert_eq!(text(last, &[0, 4, 0]), Some("h h".to_string()));
    for decoder in [last.to_string(), fused(last), fused(&strip("y", 0, 2)), "null".to_string()] {
        assert_eq!(text(&decoder, &[4, 3]), Some(String::new()));
        assert_eq!(text(&decoder, &[]), Some(String::new()));
    }
}

/// A tokenizer with merges.
fn merging(merges: &str, prefix: &str) -> String {
    format!(
        "{{\"version\": \"1.0\", \"added_tokens\": [], \"model\": {{\"type\": \"BPE\", \
         \"continuing_subword_prefix\": {prefix}, \"merges\": {merges}, \
         \"vocab\": {{\"a\": 0, \"b\": 1, \"ab\": 2}}}}}}"
    )
}

#[test]
fn merges_make_texts_of_the_vocabulary() {
    for merges in ["[]", "[\"a b\"]", "[[\"a\", \"b\"]]", "[\"#version: 0.2\", \"a b\"]"] {
        for prefix in ["null", "\"\""] {
            let t = WhisperTokenizer::from_json(&merging(merges, prefix)).unwrap();
            assert_eq!(segment_text(&t, &vec![2, 0]), Some("ab a".to_string()));
        }
    }
    let error = |text: &str| WhisperTokenizer::from_json(text).err();
    for merges in ["[\"b a\"]", "[[\"ab\", \"a\"]]", "[\"a b a\"]", "[\"ab\"]", "[[\"a\"]]", "[1]"] {
        assert_eq!(error(&merging(merges, "null")), Some(DefinitionError::Malformed));
    }
    assert_eq!(error(&merging("[\"a b\"]", "\"##\"")), Some(DefinitionError::Malformed));
    assert_eq!(error(&merging("[\"a b\"]", "1")), Some(DefinitionError::Malformed));
    // A mark in front of continued words is not part of the text that a merge makes.
    let marked = merging("[\"a ##b\"]", "\"##\"").replace("\"b\": 1", "\"##b\": 1");
    let t = WhisperTokenizer::from_json(&marked).unwrap();
    assert_eq!(segment_text(&t, &vec![0, 1]), Some("a ##b".to_string()));
    assert_eq!(error("{\"model\": {\"merges\": [1]}}"), Some(DefinitionError::Malformed));
    // A model of another kind does not look at merges.
    let other = definition(&SPECIAL).replace("\"unk_token\"", "\"merges\": [\"x y\"], \"unk_token\"");
    assert!(WhisperTokenizer::from_json(&other).is_ok());
}

fn special() -> SpecialTokens {
    SpecialTokens { sot: 3, eot: 4, transcribe: 5, translate: 6, no_speech: 9, no_timestamps: 7 }
}

fn decoder(suppress: &[u32]) -> WhisperDecoder {
    WhisperDecoder::new(special(), Some(8), Task::Transcribe, false, suppress.to_vec(), 42)
}

#[test]
fn prompts_of_segments() {
    assert_eq!(decoder(&[]).prompt_tokens(), vec![3, 8, 5, 7]);
    let d = WhisperDecoder::new(special(), None, Task::Translate, true, vec![], 1);
    assert_eq!(d.prompt_tokens(), vec![3, 6]);
    assert_eq!(decode_choices(&d, &[1, 0, 4, 1]), vec![1, 0]);
    assert_eq!(decode_choices(&d, &[1, 0]), vec![1, 0]);
}

#[test]
fn loops_lack_variety() {
    assert_eq!(unique_bigrams(&[1, 2, 1, 2, 1]), 2);
    assert_eq!(unique_bigrams(&[1]), 0);
    assert_eq!(unique_bigrams(&[5, 5, 5]), 1);
    let ratio = |tokens: &[u32]| {
        if tokens.len() < 2 {
            return 1.0;
        }
        1.0 / (unique_bigrams(tokens) as f64 / (tokens.len() - 1) as f64).max(0.01)
    };
    for n in 0..40usize {
        for m in 1..12u32 {
            let tokens: Vec<u32> = (0..n as u32).map(|i| i % m).collect();
            assert_eq!(is_varied(&tokens), ratio(&tokens) < 2.4);
        }
    }
    // Five different pairs of twelve are just too few.
    let twelve = [0, 1, 2, 3, 4, 0, 1, 2, 3, 4, 0, 1, 2];
    assert_eq!(unique_bigrams(&twelve), 5);
    assert!(!is_varied(&twelve));
}

/// A model of which every weight is zero: all tokens have equal scores.
fn even_model() -> InnerModel {
    let config = Config {
        num_mel_bins: 2,
        max_source_positions: 4,
        d_model: 4,
        encoder_attention_heads: 1,
        encoder_layers: 1,
        vocab_size: 10,
        max_target_positions: 16,
        decoder_attention_heads: 1,
        decoder_layers: 1,
        suppress_tokens: vec![],
    };
    let vb = candle_nn::VarBuilder::zeros(DType::F32, &Device::Cpu);
    InnerModel::Normal(model::Whisper::load(&vb, config).unwrap())
}

fn sizes(heads: usize, d_model: usize, positions: &str) -> String {
    format!(
        "{{\"num_mel_bins\": 2, \"max_source_positions\": {positions}, \"d_model\": {d_model}, \
         \"encoder_attention_heads\": 1, \"encoder_layers\": 0, \"vocab_size\": 10, \
         \"max_target_positions\": 16, \"decoder_attention_heads\": {heads}, \
         \"decoder_layers\": 0, \"suppress_tokens\": [7]}}"
    )
}

#[test]
fn sizes_are_read_and_tested() {
    let c = WhisperConfig::from_json(&sizes(1, 4, "4")).ok().unwrap();
    assert_eq!((c.num_mel_bins, c.max_source_positions, c.d_model), (2, 4, 4));
    assert_eq!((c.encoder_attention_heads, c.encoder_layers, c.vocab_size), (1, 0, 10));
    assert_eq!((c.max_target_positions, c.decoder_attention_heads, c.decoder_layers), (16, 1, 0));
    assert_eq!(c.suppress_tokens, vec![7]);
    let error = |text: &str| WhisperConfig::from_json(text).err();
    assert_eq!(error("{}"), Some(ConfigError::Malformed));
    assert_eq!(error(&sizes(0, 4, "4")), Some(ConfigError::NoHeads));
    assert_eq!(error(&sizes(1, 1, "4")), Some(ConfigError::Sizes));
    assert_eq!(error(&sizes(1, 4, "4611686018427387904")), Some(ConfigError::Sizes));
}

/// The tensors of a model without layers. The features of a spectrogram have these entries, and so has
/// the token with this number.
fn few_tensors(features: [f32; 4], token: usize) -> Vec<(String, Tensor)> {
    let zeros = |dims: &[usize]| Tensor::zeros(dims, DType::F32, &Device::Cpu).unwrap();
    let bias = Tensor::new(&features, &Device::Cpu).unwrap();
    let mut table = vec![0.0f32; 40];
    table[4 * token..4 * token + 4].copy_from_slice(&features);
    let table = Tensor::from_vec(table, (10, 4), &Device::Cpu).unwrap();
    vec![
        ("model.encoder.conv1.weight".to_string(), zeros(&[4, 2, 3])),
        ("model.encoder.conv1.bias".to_string(), zeros(&[4])),
        ("model.encoder.conv2.weight".to_string(), zeros(&[4, 4, 3])),
        ("model.encoder.conv2.bias".to_string(), zeros(&[4])),
        ("model.encoder.layer_norm.weight".to_string(), zeros(&[4])),
        ("model.encoder.layer_norm.bias".to_string(), bias.clone()),
        ("model.decoder.embed_tokens.weight".to_string(), table),
        ("model.decoder.embed_positions.weight".to_string(), zeros(&[16, 4])),
        ("model.decoder.layer_norm.weight".to_string(), zeros(&[4])),
        ("model.decoder.layer_norm.bias".to_string(), bias),
    ]
}

#[test]
fn models_are_loaded() {
    let c = WhisperConfig::from_json(&sizes(1, 4, "4")).ok().unwrap();
    let tensors = few_tensors([1.0, 2.0, 3.0, 4.0], 1);
    let kept: Vec<candle_core::quantized::QTensor> = tensors
        .iter()
        .map(|(_, t)| {
            candle_core::quantized::QTensor::quantize(t, candle_core::quantized::GgmlDType::F32)
                .unwrap()
        })
        .collect();
    let named: Vec<(&str, &candle_core::quantized::QTensor)> =
        tensors.iter().map(|(n, _)| n.as_str()).zip(&kept).collect();
    let mut bytes: Vec<u8> = Vec::new();
    let mut cursor = std::io::Cursor::new(&mut bytes);
    candle_core::quantized::gguf_file::write(&mut cursor, &[], &named).unwrap();
    let packed = candle_transformers::quantized_var_builder::VarBuilder::from_gguf_buffer(
        &bytes,
        &Device::Cpu,
    )
    .unwrap();
    let plain = WeightStore::from_tensors(tensors.clone(), DType::F32, &Device::Cpu).unwrap();
    for weights in [ModelWeights::Plain(plain), ModelWeights::Packed(packed)] {
        let mut m = InnerModel::load(&weights, &c).unwrap();
        assert_eq!(
            matches!(m, InnerModel::Quantized(_)),
            matches!(weights, ModelWeights::Packed(_))
        );
        let features = m.encoder_forward(&mel(), true).unwrap();
        let all: Vec<f32> = features.flatten_all().unwrap().to_vec1().unwrap();
        assert_eq!(all[..4], [1.0, 2.0, 3.0, 4.0]);
        let r = decoder(&[]).decode_segment(&mut m, &features, 3, None).unwrap();
        assert_eq!(r.tokens, vec![1, 1, 1]);
        assert_eq!(r.bigram_counts(), (2, 1));
    }
    let fewer = WeightStore::from_tensors(tensors[1..].to_vec(), DType::F32, &Device::Cpu).unwrap();
    assert!(InnerModel::load(&ModelWeights::Plain(fewer), &c).is_err());
}

fn mel() -> Tensor {
    Tensor::zeros((1, 2, 8), DType::F32, &Device::Cpu).unwrap()
}

#[test]
fn a_segment_is_decoded_greedily() {
    let mut m = even_model();
    m.reset_kv_cache();
    let features = m.encoder_forward(&mel(), true).unwrap();
    assert_eq!(features.dims(), &[1, 4, 4]);
    assert!(m.encoder_forward(&Tensor::zeros((1, 2, 0), DType::F32, &Device::Cpu).unwrap(), true).is_err());
    // Of equal scores the first one counts.
    let r = decoder(&[]).decode_segment(&mut m, &features, 3, None).unwrap();
    assert_eq!(r.tokens, vec![0, 0, 0]);
    assert!((number(&r.avg_logprob) + 10f64.ln()).abs() < 1e-6);
    assert!((number(r.no_speech_prob.as_ref().unwrap()) - 0.1).abs() < 1e-6);
    // Suppressed tokens are never chosen, and the token that ends the text is left out.
    let r = decoder(&[0, 1, 2, 3]).decode_segment(&mut m, &features, 3, None).unwrap();
    assert!(r.tokens.is_empty());
    assert!((number(&r.avg_logprob) + 6f64.ln()).abs() < 1e-6);
    assert!((number(r.no_speech_prob.as_ref().unwrap()) - 0.1).abs() < 1e-6);
    let r = decoder(&[0, 1, 2, 3, 4]).decode_segment(&mut m, &features, 0, None).unwrap();
    assert!(r.tokens.is_empty());
    assert!(r.no_speech_prob.is_none());
}

#[test]
fn a_segment_is_decoded_by_chance() {
    let mut m = even_model();
    let features = m.encoder_forward(&mel(), true).unwrap();
    let hot = Some(Scalar::F64(0.5));
    let mut first = decoder(&[0, 4]);
    let a = first.decode_segment(&mut m, &features, 8, hot).unwrap();
    let b = decoder(&[0, 4]).decode_segment(&mut m, &features, 8, hot).unwrap();
    assert_eq!(a.tokens.len(), 8);
    assert_eq!(a.tokens, b.tokens);
    assert!(a.tokens.iter().all(|&t| t < 10 && t != 0 && t != 4));
    assert!(a.tokens.iter().any(|&t| t != a.tokens[0]));
    // The generator moves on.
    let c = first.decode_segment(&mut m, &features, 8, hot).unwrap();
    assert_ne!(a.tokens, c.tokens);
}

#[test]
fn a_poor_result_is_tried_again() {
    let mut m = even_model();
    let features = m.encoder_forward(&mel(), true).unwrap();
    // Ten equal scores are never probable enough, so the last attempt counts.
    let r = decoder(&[]).decode_with_fallback(&mut m, &features, 4).unwrap();
    match r.temperature {
        Some(t) => assert_eq!(t.to_f64(), 1.0),
        None => panic!("the first attempt is poor"),
    }
    // Two scores that are left are probable enough, but one token alone is a loop.
    let r = decoder(&[0, 1, 2, 3, 4, 5, 6, 7])
        .decode_with_fallback(&mut m, &features, 4)
        .unwrap();
    match r.temperature {
        Some(t) => assert!(t.to_f64() >= 0.2 - 1e-12),
        None => panic!("the first attempt is a loop"),
    }
    // A single token is no loop.
    let r = decoder(&[0, 1, 2, 3, 4, 5, 6, 7])
        .decode_with_fallback(&mut m, &features, 1)
        .unwrap();
    assert!(r.temperature.is_none());
    assert_eq!(r.tokens, vec![8]);
}

#[test]
fn spectrograms_become_a_transcript() {
    let t = WhisperTokenizer::from_json(&definition(&SPECIAL)).unwrap();
    let mut m = even_model();
    let s = match whisper_settings(&t, Some("ru"), false, Strategy::Fallback, vec![1, 2], 2) {
        Ok(s) => s,
        Err(_) => panic!("all tokens are there"),
    };
    assert_eq!(s.special, special());
    assert_eq!(s.language_token, Some(8));
    assert_eq!(s.sample_len, 1);
    let hot = whisper_settings(&t, None, true, Strategy::Sampled(Scalar::F64(0.1)), vec![1, 2, 3, 4, 5, 6, 7, 8, 9], 4);
    let hot = hot.ok().unwrap();
    assert_eq!(hot.language_token, None);
    let (r, text) = match transcribe_chunk(&mut m, &t, &hot, &mel(), 0) {
        Ok(x) => x,
        Err(_) => panic!("the chunk can be transcribed"),
    };
    assert_eq!(r.tokens, vec![0, 0]);
    assert_eq!(text, "he he");
    let once = whisper_settings(&t, None, true, Strategy::Greedy, vec![1, 2, 3, 4, 5, 6, 7, 8, 9], 4);
    let once = once.ok().unwrap();
    match transcribe_chunk(&mut m, &t, &once, &mel(), 0) {
        Ok((r, _)) => {
            assert_eq!(r.tokens, vec![0, 0]);
            assert!(r.temperature.is_none());
        }
        Err(_) => panic!("the chunk can be transcribed"),
    }
    let chunks = vec![Chunk { start: 0, end: 7 }, Chunk { start: 7, end: 9 }];
    let all = match transcribe_mels(&mut m, &t, &hot, &vec![mel(), mel()], &chunks) {
        Ok(x) => x,
        Err(_) => panic!("the chunks can be transcribed"),
    };
    assert_eq!(all.transcript.text, "he he he he");
    assert_eq!(all.transcript.segments[1].end, 9);
    assert_eq!(all.results.len(), 2);
    let flat = Tensor::zeros(2, DType::F32, &Device::Cpu).unwrap();
    assert!(matches!(
        transcribe_chunk(&mut m, &t, &s, &flat, 0),
        Err(TranscribeError::Tensor(_))
    ));
}

fn archive(name: &str) -> Vec<u8> {
    let mut header = format!("{{\"{name}\":{{\"dtype\":\"F32\",\"shape\":[1,2],\"data_offsets\":[0,8]}}}}");
    while header.len() % 8 != 0 {
        header.push(' ');
    }
    let mut out = (header.len() as u64).to_le_bytes().to_vec();
    out.extend(header.into_bytes());
    out.extend([1, 2, 3, 4, 5, 6, 7, 8]);
    out
}

#[test]
fn mel_filters_come_from_an_archive() {
    for (name, bins) in [("mel_40", 40), ("mel_80", 40), ("mel_128", 40)] {
        let t = mel_filters(&archive(name), bins).ok().unwrap();
        assert_eq!(t.dims, vec![1, 2]);
        assert_eq!(t.bytes, vec![1, 2, 3, 4, 5, 6, 7, 8]);
    }
    assert!(matches!(mel_filters(&archive("mel_40"), 41), Err(MelFilterError::Missing)));
    assert!(matches!(mel_filters(&[1, 2, 3], 80), Err(MelFilterError::Malformed)));
    // A header that describes more data than can be counted.
    let header = "{\"a\": {\"dtype\": \"U8\", \"shape\": [18446744073709551615], \
                  \"data_offsets\": [0, 18446744073709551615]}}";
    let mut long = (header.len() as u64).to_le_bytes().to_vec();
    long.extend_from_slice(header.as_bytes());
    assert!(matches!(mel_filters(&long, 80), Err(MelFilterError::Malformed)));
    let mut cut = archive("mel_80");
    cut.pop();
    assert!(matches!(mel_filters(&cut, 80), Err(MelFilterError::Malformed)));
}

fn zeros(dims: &[usize]) -> Tensor {
    Tensor::zeros(dims.to_vec(), DType::F32, &Device::Cpu).unwrap()
}

/// A layer that adds nothing to its input.
fn idle_layer() -> DecoderLayer {
    let config = Qwen3Config {
        hidden_size: 2,
        num_attention_heads: 1,
        num_key_value_heads: 1,
        head_dim: 2,
        intermediate_size: 2,
        rms_norm_eps: Scalar::F64(1e-6),
    };
    let mut entries: Vec<(String, Tensor)> = Vec::new();
    for n in ["q_proj", "k_proj", "v_proj", "o_proj"] {
        entries.push((format!("self_attn.{n}.weight"), zeros(&[2, 2])));
    }
    for n in ["q_norm", "k_norm"] {
        entries.push((format!("self_attn.{n}.weight"), zeros(&[2])));
    }
    for n in ["gate_proj", "up_proj", "down_proj"] {
        entries.push((format!("mlp.{n}.weight"), zeros(&[2, 2])));
    }
    for n in ["input_layernorm", "post_attention_layernorm"] {
        entries.push((format!("{n}.weight"), zeros(&[2])));
    }
    let w = Weights::Standard(WeightStore::from_tensors(entries, DType::F32, &Device::Cpu).unwrap());
    let rope = RotaryEmbedding { cos: zeros(&[64, 2]), sin: zeros(&[64, 2]) };
    DecoderLayer::new(&config, &w, rope).unwrap()
}

const VOCABULARY: usize = 151_705;

/// A pipeline that chooses token 7 behind the prompt, 8 behind 7, and ends the text behind 8.
fn pipeline() -> AsrPipeline {
    let angle = |token: usize| match token {
        198 => 0.0f32,
        7 => 1.0,
        8 => 2.0,
        _ => 3.0,
    };
    let mut rows: Vec<f32> = Vec::new();
    for token in 0..VOCABULARY {
        rows.push(angle(token).cos());
        rows.push(angle(token).sin());
    }
    let mut head = vec![0.0f32; 2 * VOCABULARY];
    for (token, a) in [(7usize, 0.0f32), (8, 1.0), (151_645, 2.0)] {
        head[2 * token] = a.cos();
        head[2 * token + 1] = a.sin();
    }
    let table = Tensor::from_vec(rows, (VOCABULARY, 2), &Device::Cpu).unwrap();
    let head = Tensor::from_vec(head, (VOCABULARY, 2), &Device::Cpu).unwrap();
    let one = Tensor::ones(2, DType::F32, &Device::Cpu).unwrap();
    let vocab = vec![
        ("hi".to_string(), 7),
        ("!".to_string(), 8),
        ("language".to_string(), 5),
        ("Russian".to_string(), 6),
    ];
    AsrPipeline {
        decoder: Qwen3Decoder {
            embed_tokens: table,
            layers: vec![idle_layer(), idle_layer()],
            norm: RmsNorm::from_weight(one, Scalar::F64(1e-6)),
            lm_head: LinearLayer::Standard(head),
            vocab_size: VOCABULARY,
        },
        tokenizer: Tokenizer::from_tables(vocab, &vec![]),
    }
}

#[test]
fn embedded_audio_becomes_text() {
    let p = pipeline();
    let audio = zeros(&[1, 3, 2]);
    assert_eq!(p.transcribe(&audio).ok().unwrap(), vec![7, 8]);
    assert_eq!(p.transcribe_with_max_tokens(&audio, 1).ok().unwrap(), vec![7]);
    assert_eq!(p.transcribe_to_text(&audio).ok().unwrap(), "hi!");
    assert_eq!(p.transcribe_to_text_with_max_tokens(&audio, 1).ok().unwrap(), "hi");
    let (tokens, reason) = p
        .transcribe_with_max_tokens_and_language_with_reason(&audio, 5, None)
        .ok()
        .unwrap();
    assert_eq!((tokens, reason), (vec![7, 8], StopReason::Eos));
    let t = p
        .transcribe_to_result_with_max_tokens_and_language(&audio, 2, None)
        .ok()
        .unwrap();
    assert_eq!(t.raw, "hi!");
    assert_eq!(t.generated_tokens, 2);
    assert_eq!(t.stop_reason, StopReason::MaxTokens);
    assert_eq!(p.vocab_size(), VOCABULARY);
    assert!(p.transcribe_with_max_tokens(&audio, 0).ok().unwrap().is_empty());
}

#[test]
fn a_forced_language_must_be_known() {
    let p = pipeline();
    let audio = zeros(&[1, 3, 2]);
    match p.transcribe_with_max_tokens_and_language(&audio, 5, Some("klingon")) {
        Err(PromptError::UnknownLanguage(name)) => assert_eq!(name, "Klingon"),
        _ => panic!("the language is unknown"),
    }
    // Behind a forced language the prompt ends otherwise, and nothing is chosen by the scores above.
    let r = p.transcribe_to_text_with_max_tokens_and_language(&audio, 3, Some("russian"));
    assert!(r.is_ok());
    assert!(matches!(p.transcribe(&zeros(&[2])), Err(PromptError::Tensor(_))));
}

#[test]
fn caches_hold_every_position() {
    let p = pipeline();
    let mut cache = KvCache::new(2);
    let x = zeros(&[1, 3, 2]);
    let s = p.decoder.forward_embeds_with_cache(&x, 0, &mut cache).unwrap();
    assert_eq!(s.dims(), &[1, 3, VOCABULARY]);
    p.decoder
        .forward_embeds_with_cache(&x.narrow(1, 0, 1).unwrap(), 3, &mut cache)
        .unwrap();
    for layer in &cache.layers {
        assert_eq!(layer.k.as_ref().unwrap().dims(), &[1, 1, 4, 2]);
        assert_eq!(layer.v.as_ref().unwrap().dims(), &[1, 1, 4, 2]);
    }
}
