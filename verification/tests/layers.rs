//! Networks on small tensors.
use candle_core::scalar::Scalar;
use candle_core::{DType, Device, Tensor};
use rustasr::attention::{
    create_causal_mask, repeat_kv, Attention, DecoderLayer, LayerKvCache, Qwen3Config,
};
use rustasr::conformer::{
    rel_shift, BatchNorm1d, ConformerFeedForward, ConformerLayer, EncoderConfig,
    FastConformerEncoder, RelPositionalEncoding,
};
use rustasr::decoder::{linear_no_bias, RmsNorm, RotaryEmbedding, Weights};
use rustasr::encoder::{
    AuTConfig, AudioProjector, ConvDownsample, EncoderLayer, FeedForward, SelfAttention,
};
use rustasr::joint::{JointConfig, JointNetwork};
use rustasr::metal::{metal_probe, metal_sync};
use rustasr::nn::{Dense, LayerNorm};
use rustasr::prediction::{DecoderConfig, LstmLayer, LstmState, PredictionNet};
use rustasr::tdt::{TdtConfig, TdtGreedyDecoder};
use rustasr::tensor::shape;
use rustasr::weights::WeightStore;

#[test]
fn test_encoder_config_matches_model() {
    let config = AuTConfig::qwen3_asr_0_6b();
    assert_eq!(config.d_model, 896);
    assert_eq!(config.num_layers, 18);
    assert_eq!(config.num_attention_heads, 14);
    assert_eq!(config.intermediate_size, 3584);
    assert_eq!(config.num_mel_bins, 128);
    assert_eq!(config.output_dim, 1024);
    assert_eq!(config.downsample_hidden_size, 480);
    assert_eq!(config.head_dim(), 64);
}

fn ramp(dims: &[usize], seed: f32) -> Tensor {
    let n: usize = dims.iter().product();
    let v: Vec<f32> = (0..n).map(|k| ((k as f32 + seed) * 0.7).sin() * 0.5).collect();
    Tensor::from_vec(v, dims.to_vec(), &Device::Cpu).unwrap()
}

fn store(entries: Vec<(&str, Tensor)>) -> WeightStore {
    let named = entries.into_iter().map(|(n, t)| (n.to_string(), t)).collect();
    WeightStore::from_tensors(named, DType::F32, &Device::Cpu).unwrap()
}

fn ramps(entries: &[(&str, &[usize])]) -> WeightStore {
    store(
        entries
            .iter()
            .enumerate()
            .map(|(i, (n, d))| (*n, ramp(d, 3.0 * i as f32)))
            .collect(),
    )
}

fn vector(v: &[f32]) -> Tensor {
    Tensor::new(v, &Device::Cpu).unwrap()
}

fn flat(t: &Tensor) -> Vec<f32> {
    t.flatten_all().unwrap().to_vec1().unwrap()
}

fn close(a: &[f32], b: &[f32]) -> bool {
    a.len() == b.len() && a.iter().zip(b).all(|(x, y)| (x - y).abs() < 1e-4)
}

fn sigmoid(x: f32) -> f32 {
    1.0 / (1.0 + (-x).exp())
}

#[test]
fn weights_are_found_by_dotted_names() {
    let s = store(vec![("a.b.w", vector(&[1.0, 2.0]))]);
    let ab = s.pp("a").pp("b");
    assert_eq!(flat(&ab.get(vec![2], "w").unwrap()), vec![1.0, 2.0]);
    assert_eq!(flat(&s.get(vec![2], "a.b.w").unwrap()), vec![1.0, 2.0]);
    assert!(ab.get(vec![3], "w").is_err());
    assert!(ab.get(vec![2], "v").is_err());
    let half = WeightStore::from_tensors(
        vec![("w".to_string(), vector(&[1.5]))],
        DType::BF16,
        &Device::Cpu,
    ).unwrap();
    assert_eq!(half.get(vec![1], "w").unwrap().dtype(), DType::BF16);
    assert_eq!(shape(&vector(&[1.0, 2.0])), vec![2]);
}

fn lstm_store() -> WeightStore {
    store(vec![
        ("weight_ih_l1", Tensor::new(&[[0.5f32], [0.2], [0.8], [-0.3]], &Device::Cpu).unwrap()),
        ("weight_hh_l1", Tensor::new(&[[0.1f32], [0.2], [0.3], [0.4]], &Device::Cpu).unwrap()),
        ("bias_ih_l1", vector(&[0.1, 0.0, -0.2, 0.3])),
        ("bias_hh_l1", vector(&[0.0, 0.5, 0.0, 0.0])),
    ])
}

#[test]
fn an_lstm_step() {
    let l = LstmLayer::load(1, 1, 1, &lstm_store()).unwrap();
    let (x, h, c) = (2.0f32, 0.5f32, -0.4f32);
    let (h1, c1) = l.step(&vector(&[x]), &vector(&[h]), &vector(&[c])).unwrap();
    let i = sigmoid(0.5 * x + 0.1 + 0.1 * h);
    let f = sigmoid(0.2 * x + 0.2 * h + 0.5);
    let g = (0.8 * x - 0.2 + 0.3 * h).tanh();
    let o = sigmoid(-0.3 * x + 0.3 + 0.4 * h);
    let want_c = f * c + i * g;
    assert!(close(&flat(&c1), &[want_c]));
    assert!(close(&flat(&h1), &[o * want_c.tanh()]));
    assert!(LstmLayer::load(1, 1, 0, &lstm_store()).is_err());
    let zeros = LstmState::zeros(2, 3, &Device::Cpu).unwrap();
    assert_eq!(zeros.h.len(), 2);
    assert_eq!(flat(&zeros.c[1]), vec![0.0; 3]);
}

fn prediction_net() -> PredictionNet {
    let s = store(vec![
        ("prediction.embed.weight", Tensor::new(&[[1.0f32], [2.0], [9.0]], &Device::Cpu).unwrap()),
        (
            "prediction.dec_rnn.lstm.weight_ih_l0",
            Tensor::new(&[[0.5f32], [0.2], [0.8], [-0.3]], &Device::Cpu).unwrap(),
        ),
        (
            "prediction.dec_rnn.lstm.weight_hh_l0",
            Tensor::new(&[[0.1f32], [0.2], [0.3], [0.4]], &Device::Cpu).unwrap(),
        ),
        ("prediction.dec_rnn.lstm.bias_ih_l0", vector(&[0.1, 0.0, -0.2, 0.3])),
        ("prediction.dec_rnn.lstm.bias_hh_l0", vector(&[0.0, 0.5, 0.0, 0.0])),
    ]);
    let config = DecoderConfig {
        vocab_size: 3,
        embed_dim: 1,
        pred_hidden: 1,
        num_lstm_layers: 1,
        blank_idx: 2,
    };
    PredictionNet::load(&config, &s).unwrap()
}

#[test]
fn predictions_embed_tokens_but_not_the_blank() {
    let net = prediction_net();
    let start = net.initial_state(&Device::Cpu).unwrap();
    let (out, next) = net.step(1, &start).unwrap();
    let want = net.lstm_layers[0].step(&vector(&[2.0]), &start.h[0], &start.c[0]).unwrap();
    assert_eq!(flat(&out), flat(&want.0));
    assert_eq!(flat(&next.c[0]), flat(&want.1));
    let (blank, _) = net.step(2, &start).unwrap();
    let zero = net.lstm_layers[0].step(&vector(&[0.0]), &start.h[0], &start.c[0]).unwrap();
    assert_eq!(flat(&blank), flat(&zero.0));
}

/// Scores that depend on the frame alone: class 1 gets the frame, class 0 a third, blank a half.
fn joint(duration_bias: [f32; 3], output: &str) -> JointNetwork {
    let w = format!("joint_net.{output}.weight");
    let b = format!("joint_net.{output}.bias");
    let s = store(vec![
        ("enc.weight", Tensor::new(&[[1.0f32]], &Device::Cpu).unwrap()),
        ("enc.bias", vector(&[0.0])),
        ("pred.weight", Tensor::new(&[[0.0f32]], &Device::Cpu).unwrap()),
        ("pred.bias", vector(&[0.0])),
        (
            w.as_str(),
            Tensor::new(&[[0.0f32], [1.0], [0.0], [0.0], [0.0], [0.0]], &Device::Cpu).unwrap(),
        ),
        (
            b.as_str(),
            vector(&[0.3, 0.0, 0.5, duration_bias[0], duration_bias[1], duration_bias[2]]),
        ),
    ]);
    let config = JointConfig {
        encoder_hidden: 1,
        pred_hidden: 1,
        joint_hidden: 1,
        output_dim: 6,
        num_classes: 3,
        num_durations: 3,
    };
    JointNetwork::load(&config, &s).unwrap()
}

#[test]
fn the_joint_network_scores_tokens_and_durations() {
    for output in ["1", "2"] {
        let net = joint([0.0, 1.0, 0.5], output);
        let (tokens, durations) = net.forward(&vector(&[0.7]), &vector(&[4.0])).unwrap();
        assert!(close(&flat(&tokens), &[0.3, 0.7, 0.5]));
        assert!(close(&flat(&durations), &[0.0, 1.0, 0.5]));
        // The positive part.
        let (tokens, _) = net.forward(&vector(&[-0.7]), &vector(&[4.0])).unwrap();
        assert!(close(&flat(&tokens), &[0.3, 0.0, 0.5]));
    }
}

fn tdt(durations: Vec<usize>, max_symbols_per_step: usize) -> TdtGreedyDecoder {
    TdtGreedyDecoder::new(&TdtConfig { durations, max_symbols_per_step }, 2)
}

#[test]
fn a_transducer_is_decoded() {
    let frames = Tensor::new(&[[1.0f32], [0.0], [0.9], [0.0], [0.8]], &Device::Cpu).unwrap();
    let net = prediction_net();
    let run = |d: TdtGreedyDecoder, bias| d.decode(&frames, &net, &joint(bias, "2")).unwrap().tokens;
    // One frame is skipped each time.
    assert_eq!(run(tdt(vec![0, 1, 2], 10), [0.0, 1.0, 0.0]), vec![1, 1, 1]);
    // Two frames are skipped each time.
    assert_eq!(run(tdt(vec![0, 1, 2], 10), [0.0, 0.0, 1.0]), vec![1, 1, 1]);
    // Three frames are skipped each time.
    assert_eq!(run(tdt(vec![0, 1, 3], 10), [0.0, 0.0, 1.0]), vec![1]);
    // Without a skip each frame gives as many tokens as it may; a blank moves on.
    assert_eq!(run(tdt(vec![0, 1, 2], 2), [1.0, 0.0, 0.0]), vec![1; 6]);
    // A class without an entry skips one frame.
    assert_eq!(run(tdt(vec![0], 10), [0.0, 0.0, 1.0]), vec![1, 1, 1]);
    // A limit of none still gives one.
    assert_eq!(run(tdt(vec![0, 1, 2], 0), [1.0, 0.0, 0.0]), vec![1; 3]);
}

#[test]
fn a_transducer_moves_on() {
    let d = tdt(vec![0, 1, 4], 2);
    let mut c = d.start();
    assert_eq!((c.time, c.symbols, c.last_token), (0, 0, 2));
    assert!(d.advance(&mut c, 10, 7, 0));
    assert_eq!((c.time, c.symbols, c.last_token), (0, 1, 7));
    assert!(d.advance(&mut c, 10, 8, 0));
    assert_eq!((c.time, c.symbols, c.last_token), (1, 0, 8));
    assert!(!d.advance(&mut c, 10, 2, 0));
    assert_eq!((c.time, c.symbols, c.last_token), (2, 0, 8));
    assert!(d.advance(&mut c, 10, 9, 2));
    assert_eq!((c.time, c.symbols), (6, 0));
    // A skip that comes with the last token that a frame may give counts once.
    assert!(d.advance(&mut c, 10, 9, 0));
    assert!(d.advance(&mut c, 10, 9, 1));
    assert_eq!((c.time, c.symbols), (7, 0));
    assert!(!d.advance(&mut c, 10, 2, 2));
    assert_eq!(c.time, 10);
    assert_eq!(c.tokens, vec![7, 8, 9, 9, 9]);
}

fn one_half() -> Scalar {
    Scalar::F64(0.5)
}

#[test]
fn normalizations() {
    let s = store(vec![("weight", vector(&[1.0, 2.0])), ("bias", vector(&[0.0, 1.0]))]);
    let n = LayerNorm::new(2, one_half(), &s).unwrap();
    let x = Tensor::new(&[[3.0f32, 1.0]], &Device::Cpu).unwrap();
    let d = 1.5f32.sqrt();
    assert!(close(&flat(&n.forward(&x).unwrap()), &[1.0 / d, -2.0 / d + 1.0]));
    assert!(close(&flat(&n.forward_plain(&x).unwrap()), &[1.0 / d, -2.0 / d + 1.0]));
    // Integers are not computed with.
    let whole = Tensor::new(&[[i64::MAX, i64::MAX]], &Device::Cpu).unwrap();
    assert!(n.forward_plain(&whole).is_err());
    let half = n.forward(&x.to_dtype(DType::BF16).unwrap()).unwrap();
    assert_eq!(half.dtype(), DType::BF16);
    let r = RmsNorm::new(2, one_half(), &s).unwrap();
    let root = 5.5f32.sqrt();
    assert!(close(&flat(&r.forward(&x).unwrap()), &[3.0 / root, 2.0 / root]));
    let b = store(vec![
        ("weight", vector(&[2.0])),
        ("bias", vector(&[1.0])),
        ("running_mean", vector(&[3.0])),
        ("running_var", vector(&[4.0])),
    ]);
    let b = BatchNorm1d::load(1, &b).unwrap();
    let x = Tensor::new(&[[[7.0f32, 3.0]]], &Device::Cpu).unwrap();
    assert!(close(&flat(&b.forward(&x).unwrap()), &[5.0, 1.0]));
}

#[test]
fn linear_maps() {
    let s = store(vec![
        ("weight", Tensor::new(&[[1.0f32, 2.0], [0.0, 1.0], [3.0, 0.0]], &Device::Cpu).unwrap()),
        ("bias", vector(&[0.5, 0.0, 0.0])),
    ]);
    let x = Tensor::new(&[[[1.0f32, 10.0]]], &Device::Cpu).unwrap();
    let l = Dense::load(2, 3, true, &s).unwrap();
    assert_eq!(flat(&l.forward(&x).unwrap()), vec![21.5, 10.0, 3.0]);
    let l = Dense::load(2, 3, false, &s).unwrap();
    let y = l.forward(&x).unwrap();
    assert_eq!(flat(&y), vec![21.0, 10.0, 3.0]);
    assert_eq!(y.dims(), &[1, 1, 3]);
    assert!(Dense::load(3, 2, false, &s).is_err());
    let l = linear_no_bias(2, 3, &Weights::Standard(s)).unwrap();
    assert_eq!(flat(&l.forward(&x).unwrap()), vec![21.0, 10.0, 3.0]);
}

#[test]
fn quantized_weights() {
    let w = ramp(&[32, 32], 0.0);
    let v = ramp(&[32], 5.0);
    let kind = candle_core::quantized::GgmlDType::Q8_0;
    let q = candle_core::quantized::QTensor::quantize(&w, kind).unwrap();
    let n = candle_core::quantized::QTensor::quantize(&v, kind).unwrap();
    let mut bytes: Vec<u8> = Vec::new();
    let mut cursor = std::io::Cursor::new(&mut bytes);
    candle_core::quantized::gguf_file::write(
        &mut cursor,
        &[],
        &[("a.q.weight", &q), ("a.n.weight", &n)],
    )
    .unwrap();
    let vb = candle_transformers::quantized_var_builder::VarBuilder::from_gguf_buffer(
        &bytes,
        &Device::Cpu,
    )
    .unwrap();
    let a = Weights::Quantized(vb).pp("a");
    let l = linear_no_bias(32, 32, &a.pp("q")).unwrap();
    let x = ramp(&[1, 2, 32], 1.0);
    let got = flat(&l.forward(&x).unwrap());
    let exact = flat(&x.reshape((2, 32)).unwrap().matmul(&w.t().unwrap()).unwrap());
    assert!(got.iter().zip(&exact).all(|(p, q)| (p - q).abs() < 0.1));
    assert!(got.iter().zip(&exact).any(|(p, q)| p != q));
    assert_eq!(l.forward(&x.to_dtype(DType::BF16).unwrap()).unwrap().dtype(), DType::BF16);
    let r = RmsNorm::load(32, one_half(), &a.pp("n")).unwrap();
    assert_eq!(r.weight.dtype(), DType::F32);
    assert_eq!(flat(&r.weight), flat(&n.dequantize(&Device::Cpu).unwrap()));
    assert!(linear_no_bias(32, 16, &a.pp("q")).is_err());
    assert!(RmsNorm::load(32, one_half(), &a).is_err());
}

#[test]
fn heads_are_repeated_in_groups() {
    let x = Tensor::new(&[[[[10.0f32, 11.0]], [[20.0, 21.0]]]], &Device::Cpu).unwrap();
    let y = repeat_kv(&x, 2).unwrap();
    assert_eq!(y.dims(), &[1, 4, 1, 2]);
    assert_eq!(flat(&y), vec![10.0, 11.0, 10.0, 11.0, 20.0, 21.0, 20.0, 21.0]);
    assert_eq!(flat(&repeat_kv(&x, 1).unwrap()), flat(&x));
    assert!(repeat_kv(&vector(&[1.0]), 2).is_err());
}

#[test]
fn the_mask_hides_the_future() {
    let m = create_causal_mask(3, &Device::Cpu, DType::F32).unwrap();
    assert_eq!(m.dims(), &[1, 1, 3, 3]);
    let i = f32::NEG_INFINITY;
    assert_eq!(flat(&m), vec![0.0, i, i, 0.0, 0.0, i, 0.0, 0.0, 0.0]);
    let h = create_causal_mask(2, &Device::Cpu, DType::BF16).unwrap();
    assert_eq!(h.dtype(), DType::BF16);
    assert!(create_causal_mask(usize::MAX, &Device::Cpu, DType::F32).is_err());
}

fn rope(width: usize) -> RotaryEmbedding {
    let half = width / 2;
    let positions: Vec<f32> = (0..16).map(|p| p as f32).collect();
    let frequencies: Vec<f32> =
        (0..half).map(|k| 1.0 / 100f32.powf(k as f32 / half as f32)).collect();
    let positions = Tensor::new(positions, &Device::Cpu).unwrap();
    let frequencies = Tensor::new(frequencies, &Device::Cpu).unwrap();
    RotaryEmbedding::new(&positions, &frequencies).unwrap()
}

#[test]
fn rotary_tables_hold_angles_twice() {
    let e = rope(4);
    assert_eq!(e.cos.dims(), &[16, 4]);
    assert_eq!(e.sin.dims(), &[16, 4]);
    let angles = [3.0f32, 0.3, 3.0, 0.3];
    let row: Vec<f32> = e.sin.get(3).unwrap().to_vec1().unwrap();
    assert!(close(&row, &angles.map(|a| a.sin())));
    let row: Vec<f32> = e.cos.get(3).unwrap().to_vec1().unwrap();
    assert!(close(&row, &angles.map(|a| a.cos())));
    let square = ramp(&[2, 2], 0.0);
    let line = ramp(&[2], 0.0);
    assert!(RotaryEmbedding::new(&square, &line).is_err());
}

#[test]
fn entries_are_rotated_by_their_positions() {
    let e = rope(2);
    let x = Tensor::new(&[[[[1.0f32, 2.0], [3.0, 4.0]]]], &Device::Cpu).unwrap();
    let y = flat(&e.apply(&x, 3).unwrap());
    let turn = |a: f32, b: f32, p: f32| [a * p.cos() - b * p.sin(), b * p.cos() + a * p.sin()];
    let (u, v) = (turn(1.0, 2.0, 3.0), turn(3.0, 4.0, 4.0));
    assert!(close(&y, &[u[0], u[1], v[0], v[1]]));
    assert!(e.apply(&x, 15).is_err());
}

fn qwen3_config() -> Qwen3Config {
    Qwen3Config {
        hidden_size: 6,
        num_attention_heads: 2,
        num_key_value_heads: 1,
        head_dim: 4,
        intermediate_size: 5,
        rms_norm_eps: Scalar::F64(1e-6),
    }
}

fn qwen3_layer() -> DecoderLayer {
    let s = ramps(&[
        ("self_attn.q_proj.weight", &[8, 6]),
        ("self_attn.k_proj.weight", &[4, 6]),
        ("self_attn.v_proj.weight", &[4, 6]),
        ("self_attn.o_proj.weight", &[6, 8]),
        ("self_attn.q_norm.weight", &[4]),
        ("self_attn.k_norm.weight", &[4]),
        ("mlp.gate_proj.weight", &[5, 6]),
        ("mlp.up_proj.weight", &[5, 6]),
        ("mlp.down_proj.weight", &[6, 5]),
        ("input_layernorm.weight", &[6]),
        ("post_attention_layernorm.weight", &[6]),
    ]);
    DecoderLayer::new(&qwen3_config(), &Weights::Standard(s), rope(4)).unwrap()
}

#[test]
fn a_cache_gives_what_the_whole_text_gives() {
    let layer = qwen3_layer();
    let x = ramp(&[1, 4, 6], 2.0);
    let whole = layer.forward(&x, 0).unwrap();
    assert_eq!(whole.dims(), &[1, 4, 6]);
    let mut cache = LayerKvCache::new();
    let first = layer
        .forward_with_cache(&x.narrow(1, 0, 2).unwrap(), 0, &mut cache)
        .unwrap();
    assert!(close(&flat(&first), &flat(&whole.narrow(1, 0, 2).unwrap())));
    for i in 2..4 {
        let one = layer
            .forward_with_cache(&x.narrow(1, i, 1).unwrap(), i, &mut cache)
            .unwrap();
        assert!(close(&flat(&one), &flat(&whole.narrow(1, i, 1).unwrap())));
        assert_eq!(cache.k.as_ref().unwrap().dims(), &[1, 1, i + 1, 4]);
    }
    assert!(layer.forward(&vector(&[1.0]), 0).is_err());
    let missing = store(vec![]);
    assert!(Attention::new(&qwen3_config(), &Weights::Standard(missing), rope(4)).is_err());
}

fn aut_config() -> AuTConfig {
    AuTConfig {
        d_model: 4,
        num_layers: 1,
        num_attention_heads: 2,
        intermediate_size: 6,
        num_mel_bins: 16,
        output_dim: 3,
        downsample_hidden_size: 2,
    }
}

#[test]
fn the_audio_encoder_layers_keep_the_shape() {
    let c = aut_config();
    let s = ramps(&[
        ("self_attn.q_proj.weight", &[4, 4]),
        ("self_attn.q_proj.bias", &[4]),
        ("self_attn.k_proj.weight", &[4, 4]),
        ("self_attn.k_proj.bias", &[4]),
        ("self_attn.v_proj.weight", &[4, 4]),
        ("self_attn.v_proj.bias", &[4]),
        ("self_attn.out_proj.weight", &[4, 4]),
        ("self_attn.out_proj.bias", &[4]),
        ("fc1.weight", &[6, 4]),
        ("fc1.bias", &[6]),
        ("fc2.weight", &[4, 6]),
        ("fc2.bias", &[4]),
        ("self_attn_layer_norm.weight", &[4]),
        ("self_attn_layer_norm.bias", &[4]),
        ("final_layer_norm.weight", &[4]),
        ("final_layer_norm.bias", &[4]),
        ("proj1.weight", &[4, 4]),
        ("proj1.bias", &[4]),
        ("proj2.weight", &[3, 4]),
        ("proj2.bias", &[3]),
    ]);
    let x = ramp(&[1, 5, 4], 1.0);
    let layer = EncoderLayer::new(&c, Scalar::F64(1e-5), &s).unwrap();
    let y = layer.forward(&x).unwrap();
    assert_eq!(y.dims(), &[1, 5, 4]);
    let a = SelfAttention::new(&c, &s.pp("self_attn")).unwrap();
    let f = FeedForward::new(&c, &s).unwrap();
    let mid = (&x + a.forward(&layer.self_attn_layer_norm.forward(&x).unwrap()).unwrap()).unwrap();
    let fed = f.forward(&layer.final_layer_norm.forward(&mid).unwrap()).unwrap();
    assert!(close(&flat(&y), &flat(&(mid + fed).unwrap())));
    let p = AudioProjector::new(&c, &s).unwrap();
    assert_eq!(p.forward(&y).unwrap().dims(), &[1, 5, 3]);
    assert!(a.forward(&vector(&[1.0])).is_err());
}

#[test]
fn spectrograms_are_reduced_to_an_eighth() {
    let c = aut_config();
    let s = ramps(&[
        ("conv2d1.weight", &[2, 1, 3, 3]),
        ("conv2d1.bias", &[2]),
        ("conv2d2.weight", &[2, 2, 3, 3]),
        ("conv2d2.bias", &[2]),
        ("conv2d3.weight", &[2, 2, 3, 3]),
        ("conv2d3.bias", &[2]),
        ("conv_out.weight", &[4, 4]),
    ]);
    let d = ConvDownsample::new(&c, &s).unwrap();
    for (time, want) in [(1, 1), (8, 1), (9, 2), (100, 13)] {
        assert_eq!(d.forward(&ramp(&[1, time, 16], 0.0)).unwrap().dims(), &[1, want, 4]);
    }
    assert!(d.forward(&ramp(&[1, 0, 16], 0.0)).is_err());
    assert!(d.forward(&vector(&[1.0])).is_err());
}

#[test]
fn scores_by_distance_become_scores_by_frame() {
    let x = Tensor::new(&[[[[1.0f32, 2.0, 3.0], [4.0, 5.0, 6.0]]]], &Device::Cpu).unwrap();
    let y = rel_shift(&x).unwrap();
    assert_eq!(y.dims(), &[1, 1, 2, 2]);
    assert_eq!(flat(&y), vec![2.0, 3.0, 4.0, 5.0]);
    let x = ramp(&[2, 3, 4, 7], 0.0);
    let (y, all) = (flat(&rel_shift(&x).unwrap()), flat(&x));
    for o in 0..6 {
        for i in 0..4 {
            for j in 0..4 {
                assert_eq!(y[(o * 4 + i) * 4 + j], all[(o * 4 + i) * 7 + 3 - i + j]);
            }
        }
    }
    assert!(rel_shift(&vector(&[1.0])).is_err());
    let p = RelPositionalEncoding::new(8);
    assert_eq!(p.rows(4), 7);
    assert_eq!((0..7).map(|r| p.distance(4, r)).collect::<Vec<_>>(), vec![-3, -2, -1, 0, 1, 2, 3]);
}

const CONFORMER: [(&str, &[usize]); 31] = [
    ("norm_feed_forward1.weight", &[4]),
    ("norm_feed_forward1.bias", &[4]),
    ("feed_forward1.linear1.weight", &[6, 4]),
    ("feed_forward1.linear2.weight", &[4, 6]),
    ("norm_self_att.weight", &[4]),
    ("norm_self_att.bias", &[4]),
    ("self_attn.linear_q.weight", &[4, 4]),
    ("self_attn.linear_k.weight", &[4, 4]),
    ("self_attn.linear_v.weight", &[4, 4]),
    ("self_attn.linear_out.weight", &[4, 4]),
    ("self_attn.linear_pos.weight", &[4, 4]),
    ("self_attn.pos_bias_u", &[2, 2]),
    ("self_attn.pos_bias_v", &[2, 2]),
    ("norm_conv.weight", &[4]),
    ("norm_conv.bias", &[4]),
    ("conv.pointwise_conv1.weight", &[8, 4, 1]),
    ("conv.depthwise_conv.weight", &[4, 1, 3]),
    ("conv.batch_norm.weight", &[4]),
    ("conv.batch_norm.bias", &[4]),
    ("conv.batch_norm.running_mean", &[4]),
    ("conv.pointwise_conv2.weight", &[4, 4, 1]),
    ("norm_feed_forward2.weight", &[4]),
    ("norm_feed_forward2.bias", &[4]),
    ("feed_forward2.linear1.weight", &[6, 4]),
    ("feed_forward2.linear2.weight", &[4, 6]),
    ("norm_out.weight", &[4]),
    ("norm_out.bias", &[4]),
    ("pre_encode.out.weight", &[4, 4]),
    ("pre_encode.out.bias", &[4]),
    ("pre_encode.conv.0.weight", &[2, 1, 3, 3]),
    ("pre_encode.conv.0.bias", &[2]),
];

fn conformer_store() -> WeightStore {
    let mut entries: Vec<(String, Tensor)> = Vec::new();
    for (i, (n, d)) in CONFORMER.iter().enumerate() {
        let t = ramp(d, 2.0 * i as f32);
        entries.push((n.to_string(), t.clone()));
        entries.push((format!("layers.0.{n}"), t));
    }
    let var = vector(&[1.0, 2.0, 3.0, 4.0]);
    entries.push(("conv.batch_norm.running_var".to_string(), var.clone()));
    entries.push(("layers.0.conv.batch_norm.running_var".to_string(), var));
    for (n, d) in [
        ("2", vec![2, 1, 3, 3]),
        ("3", vec![2, 2, 1, 1]),
        ("5", vec![2, 1, 3, 3]),
        ("6", vec![2, 2, 1, 1]),
    ] {
        entries.push((format!("pre_encode.conv.{n}.weight"), ramp(&d, 1.0)));
        entries.push((format!("pre_encode.conv.{n}.bias"), ramp(&[2], 1.0)));
    }
    WeightStore::from_tensors(entries, DType::F32, &Device::Cpu).unwrap()
}

fn conformer_config() -> EncoderConfig {
    EncoderConfig {
        feat_in: 16,
        d_model: 4,
        d_ff: 6,
        n_layers: 1,
        n_heads: 2,
        d_k: 2,
        conv_kernel_size: 3,
        subsampling_factor: 8,
        subsampling_conv_channels: 2,
    }
}

#[test]
fn a_conformer_encodes_frames() {
    let s = conformer_store();
    let c = conformer_config();
    let e = FastConformerEncoder::load(&c, &s).unwrap();
    for (time, want) in [(1, 1), (16, 2), (17, 3), (100, 13)] {
        let x = e.subsample(&ramp(&[1, 16, time], 0.0)).unwrap();
        assert_eq!(x.dims(), &[1, want, 4]);
        let pos = ramp(&[1, 2 * want - 1, 4], 1.0);
        let y = e.encode(&x, &pos).unwrap();
        assert_eq!(y.dims(), &[1, want, 4]);
        let layer = ConformerLayer::load(&c, &s).unwrap();
        assert!(close(&flat(&y), &flat(&layer.forward(&x, &pos).unwrap())));
        assert_eq!(FastConformerEncoder::frames_left(time), want);
        let whole = e.forward(&ramp(&[1, 16, time], 0.0), &pos).unwrap();
        assert!(close(&flat(&whole), &flat(&y)));
    }
    // The last layer normalizes: with unit weights the mean is zero.
    let f = ConformerFeedForward::load(4, 6, &s.pp("feed_forward1")).unwrap();
    assert_eq!(f.forward(&ramp(&[1, 3, 4], 0.0)).unwrap().dims(), &[1, 3, 4]);
    let empty = EncoderConfig { n_layers: 0, ..c };
    let none = FastConformerEncoder::load(&empty, &s).unwrap();
    let x = ramp(&[1, 3, 4], 0.0);
    assert_eq!(flat(&none.encode(&x, &x).unwrap()), flat(&x));
}

#[test]
fn other_devices_need_no_trial() {
    assert!(metal_probe(&Device::Cpu).is_ok());
    assert!(metal_sync(&Device::Cpu).is_ok());
}

#[test]
fn integers_and_empty_axes_are_refused() {
    let norm = RmsNorm::from_weight(Tensor::new(&[1u32, 1], &Device::Cpu).unwrap(), Scalar::F64(1e-6));
    let x = Tensor::new(&[[3.0f32, 4.0]], &Device::Cpu).unwrap();
    assert!(norm.forward(&x).is_ok());
    let whole = Tensor::new(&[[3u32, 4]], &Device::Cpu).unwrap();
    let ones = Tensor::new(&[[1u32, 0], [0, 1]], &Device::Cpu).unwrap();
    let layer = FeedForward {
        fc1: Dense { weight: ones.clone(), bias: None },
        fc2: Dense { weight: ones, bias: None },
    };
    assert!(layer.forward(&whole).is_err());
    let c = conformer_config();
    let e = FastConformerEncoder::load(&c, &conformer_store()).unwrap();
    let none = Tensor::zeros((1, 16, 0), DType::F32, &Device::Cpu).unwrap();
    assert!(e.subsample(&none).is_err());
}
