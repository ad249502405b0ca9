//! Engines, files, chunks, clusters, frames and resampling.
use rubato::Resampler as RubatoResampler;
use rustasr::chunks::{
    chunk_samples, chunk_seed, join_gigaam, join_whisper, pad_or_trim, split_into_chunks, Chunk,
};
use rustasr::cluster::{
    clip_segment, farthest_point, filters_from_file, first_greatest, is_greater, nearest_centroid,
    plan_clusters, remap_clusters_by_first_segment, CentroidUpdate, ClusterPlan, KMeans,
    NoSpeakers, Seeding,
};
use rustasr::engine::{
    AsrEngine, AsrModel, GigaAmLoadError, GigaAmModel, LoadError, LoadPlan, ModelSet, ModelType,
    Qwen3AsrModel, WhisperModel,
};
use rustasr::files::{
    detect_quantization, extension_is, find_decoder_gguf, find_gguf_file, find_safetensors_file, weights_total_size,
    FileSize, QuantizationType, WeightsFile,
};
use rustasr::frames::{
    centered_frame, centered_frame_count, filter_rows, kept_frame_count, reflect_index,
    GigaAmMelExtractor, MelNormalization, ParakeetMelExtractor, PreprocessorConfig,
};
use rustasr::pipeline::{DecoderWeights, Precision};
use rustasr::tensor::MINUS_INFINITY;
use rustasr::resample::{AudioBuffer, Block, BlockCursor, NotMono, ResamplePlan, Resampler};

fn names(list: &[&str]) -> Vec<String> {
    list.iter().map(|s| s.to_string()).collect()
}

const ALL: ModelSet = ModelSet { whisper: true, gigaam: true, parakeet: true, qwen3: true };

#[test]
fn engines_describe_their_models() {
    let q = Qwen3AsrModel::new(Some("qwen3-asr-1.7b".to_string()), QuantizationType::GgufQ6K, Some(7));
    let e = AsrEngine::from_model(Box::new(q));
    assert_eq!(e.name(), "qwen3-asr-1.7b");
    assert_eq!(e.model_type(), ModelType::Qwen3Asr);
    assert_eq!(e.sample_rate(), 16_000);
    assert_eq!(e.supported_languages().len(), 20);
    assert_eq!(e.supported_languages()[1], "ru");
    let info = e.model_info();
    assert_eq!(info.display_name, "Qwen3-ASR (qwen3-asr-1.7b)");
    assert_eq!(info.parameters, Some(1_700_000_000));
    assert_eq!(info.weights_size_bytes, Some(7));
    assert_eq!(info.quantization, QuantizationType::GgufQ6K);
    assert_eq!(info.backend, "Candle");
    assert_eq!(info.languages, e.supported_languages());
    let small = Qwen3AsrModel::new(None, QuantizationType::Unquantized, None);
    assert_eq!(small.name(), "qwen3-asr");
    assert_eq!(small.model_info().parameters, Some(600_000_000));

    let g = GigaAmModel { model_name: "v3".to_string(), sample_rate: 16_000 };
    let e = AsrEngine::from_model(Box::new(g));
    assert_eq!(e.model_info().display_name, "GigaAM v3");
    assert_eq!(e.model_info().parameters, Some(220_000_000));
    assert_eq!(e.model_info().weights_size_bytes, Some(442_000_000));
    assert_eq!(e.model_info().backend, "candle");
    assert_eq!(e.supported_languages(), names(&["ru"]));
    assert_eq!(e.sample_rate(), 16_000);
}

#[test]
fn engines_over_models_of_this_library() {
    let e = AsrEngine::from_whisper(WhisperModel::new(None, false, 4, 4, 51_865));
    assert_eq!((e.name().as_str(), e.model_type(), e.sample_rate()), ("whisper", ModelType::Whisper, 16_000));
    assert_eq!(e.model_info().parameters, Some(39_000_000));
    assert_eq!(e.model_info().languages, e.supported_languages());
    let e = AsrEngine::from_gigaam(GigaAmModel { model_name: "v3".to_string(), sample_rate: 8_000 });
    assert_eq!((e.name().as_str(), e.model_type(), e.sample_rate()), ("v3", ModelType::GigaAm, 8_000));
    assert_eq!(e.model_info().languages, e.supported_languages());
    let e = AsrEngine::from_qwen3(Qwen3AsrModel::new(None, QuantizationType::Unquantized, None));
    assert_eq!((e.name().as_str(), e.model_type(), e.sample_rate()), ("qwen3-asr", ModelType::Qwen3Asr, 16_000));
    assert_eq!(e.model_info().model_type, e.model_type());
    assert_eq!(e.model_info().languages, e.supported_languages());
}

#[test]
fn whisper_sizes() {
    for (enc, dec, want) in [
        (4, 4, 39_000_000u64),
        (6, 6, 74_000_000),
        (12, 12, 244_000_000),
        (24, 24, 769_000_000),
        (32, 4, 809_000_000),
        (32, 32, 1_550_000_000),
        (5, 5, 0),
    ] {
        let m = WhisperModel::new(None, false, enc, dec, 51_865);
        assert_eq!(m.model_info().parameters, Some(want));
    }
    let m = WhisperModel::new(None, true, 4, 4, 51_864);
    assert_eq!(m.name(), "whisper");
    assert_eq!(m.supported_languages(), names(&["en"]));
    assert_eq!(m.model_info().quantization, QuantizationType::GgufQ8_0);
    let m = WhisperModel::new(Some("large".to_string()), false, 32, 4, 51_866);
    assert_eq!(m.supported_languages().len(), 10);
    assert_eq!(m.quantization, QuantizationType::Unquantized);
}

#[test]
fn loading_is_planned() {
    let load = |t, q, metal| AsrEngine::load_inner(&ALL, t, q, metal);
    assert_eq!(
        load(ModelType::Whisper, true, false),
        Ok(LoadPlan::Whisper { quantized: true })
    );
    assert_eq!(
        load(ModelType::GigaAm, false, true),
        Ok(LoadPlan::GigaAm { probe_metal: true })
    );
    assert_eq!(
        load(ModelType::GigaAm, true, false),
        Err(LoadError::NotQuantizable(ModelType::GigaAm))
    );
    assert_eq!(
        AsrEngine::load_quantized(&ALL, ModelType::Parakeet, false),
        Err(LoadError::NotQuantizable(ModelType::Parakeet))
    );
    assert_eq!(AsrEngine::load(&ALL, ModelType::Parakeet, false), Ok(LoadPlan::Parakeet));
    assert_eq!(
        AsrEngine::load(&ALL, ModelType::Qwen3Asr, false),
        Ok(LoadPlan::Qwen3Asr { decoder_weights: DecoderWeights::Auto })
    );
    assert_eq!(
        AsrEngine::load_quantized(&ALL, ModelType::Qwen3Asr, false),
        Ok(LoadPlan::Qwen3Asr { decoder_weights: DecoderWeights::Gguf })
    );
    let some = ModelSet { whisper: false, gigaam: true, parakeet: false, qwen3: true };
    assert_eq!(
        AsrEngine::load_quantized(&some, ModelType::Parakeet, false),
        Err(LoadError::NotBuiltIn(ModelType::Parakeet))
    );
    assert_eq!(
        AsrEngine::available_models(&some),
        vec![ModelType::GigaAm, ModelType::Qwen3Asr]
    );
    assert_eq!(AsrEngine::available_models(&ALL).len(), 4);
}

#[test]
fn loading_gigaam_needs_files() {
    assert_eq!(GigaAmModel::check_files(false, false), Err(GigaAmLoadError::WeightsMissing));
    assert_eq!(GigaAmModel::check_files(true, false), Err(GigaAmLoadError::VocabularyMissing));
    assert_eq!(GigaAmModel::check_files(true, true), Ok(()));
    assert_eq!(GigaAmModel::precision(true), Precision::BrainHalf);
    assert_eq!(GigaAmModel::precision(false), Precision::Single);
}

#[test]
fn token_limits() {
    assert_eq!(Qwen3AsrModel::max_tokens(Some(5000), 1), 5000);
    assert_eq!(Qwen3AsrModel::max_tokens(None, 1), 64);
    assert_eq!(Qwen3AsrModel::max_tokens(None, 700), 700);
    assert_eq!(Qwen3AsrModel::max_tokens(None, 9999), 4096);
    assert_eq!(Qwen3AsrModel::detected_language(String::new()), None);
    assert_eq!(Qwen3AsrModel::detected_language("ru".to_string()), Some("ru".to_string()));
}

#[test]
fn decoder_weights_are_found_by_name() {
    assert_eq!(find_decoder_gguf(&names(&["other.gguf", "model-q8_0.gguf", "model-q6_k.gguf"])), Some(1));
    assert_eq!(find_decoder_gguf(&names(&["other.gguf", "model.gguf", "model-a.bin"])), None);
}

#[test]
fn files_are_found() {
    assert!(extension_is("a.b.gguf", "gguf"));
    assert!(!extension_is(".gguf", "gguf"));
    assert!(!extension_is("gguf", "gguf"));
    assert!(extension_is("a.", ""));
    assert_eq!(find_gguf_file(&names(&["a.txt", ".gguf", "b.gguf", "c.gguf"])), Some(2));
    assert_eq!(find_gguf_file(&names(&["a.txt"])), None);
    let list = names(&["mel.safetensors", "model-1.safetensors", "model-2.safetensors"]);
    assert_eq!(find_safetensors_file(true, &list), Some(WeightsFile::Single));
    assert_eq!(find_safetensors_file(false, &list), Some(WeightsFile::Listed(1)));
    assert_eq!(find_safetensors_file(false, &names(&["x"])), None);
}

#[test]
fn quantization_is_told_by_the_name() {
    let q = |list: &[&str]| detect_quantization(&names(list), DecoderWeights::Auto);
    assert_eq!(q(&["config.json"]), QuantizationType::Unquantized);
    assert_eq!(q(&["model-Q4_0.gguf", "model-q8.gguf"]), QuantizationType::GgufQ4_0);
    assert_eq!(q(&["model-q6_k.gguf"]), QuantizationType::GgufQ6K);
    assert_eq!(q(&["model-Q6K.gguf"]), QuantizationType::GgufQ6K);
    assert_eq!(q(&["model-Q8_0.gguf"]), QuantizationType::GgufQ8_0);
    assert_eq!(q(&["model.gguf"]), QuantizationType::GgufQ8_0);
    assert_eq!(
        detect_quantization(&names(&["model-q4.gguf"]), DecoderWeights::Safetensors),
        QuantizationType::Unquantized
    );
}

#[test]
fn weights_are_summed() {
    let f = |name: &str, size| FileSize { name: name.to_string(), size };
    let files = vec![
        f("a.safetensors", Some(10)),
        f("b.gguf", Some(5)),
        f("c.txt", Some(100)),
        f("d.gguf", None),
    ];
    assert_eq!(weights_total_size(&files), Some(15));
    assert_eq!(weights_total_size(&vec![f("c.txt", Some(100))]), None);
}

fn ends(chunks: &[Chunk]) -> Vec<(usize, usize)> {
    chunks.iter().map(|c| (c.start, c.end)).collect()
}

#[test]
fn audio_is_cut_into_chunks() {
    assert_eq!(chunk_samples(16_000), 480_000);
    assert_eq!(chunk_samples(usize::MAX), usize::MAX);
    assert_eq!(ends(&split_into_chunks(0, 10)), vec![(0, 0)]);
    assert_eq!(ends(&split_into_chunks(10, 10)), vec![(0, 10)]);
    assert_eq!(ends(&split_into_chunks(25, 10)), vec![(0, 10), (10, 20), (20, 25)]);
    assert_eq!(ends(&split_into_chunks(20, 10)), vec![(0, 10), (10, 20)]);
    assert_eq!(chunk_seed(3), 45);
    assert_eq!(pad_or_trim(5, 8), (5, 3));
    assert_eq!(pad_or_trim(9, 8), (8, 0));
}

#[test]
fn texts_of_chunks_are_joined() {
    let three = split_into_chunks(25, 10);
    let r = join_gigaam(&three, names(&["да", "", "нет"]));
    assert_eq!(r.text, "да нет");
    assert_eq!(r.segments.len(), 2);
    assert_eq!((r.segments[1].start, r.segments[1].end), (20, 25));
    assert_eq!(r.segments[1].text, "нет");
    let one = split_into_chunks(7, 10);
    let r = join_gigaam(&one, names(&["да"]));
    assert_eq!(r.text, "да");
    assert_eq!(r.segments.len(), 1);
    assert_eq!((r.segments[0].start, r.segments[0].end), (0, 7));
    assert_eq!(r.segments[0].text, "");
    let r = join_whisper(&three, names(&["", " a", ""]));
    assert_eq!(r.text, " a ");
    assert_eq!(r.segments.len(), 3);
    assert_eq!(r.segments[0].text, "");
}

#[test]
fn numbers_are_compared_by_their_bits() {
    let b = |x: f32| x.to_bits();
    let list = [-2.5f32, -0.0, 0.0, 1e-40, 3.0, f32::INFINITY, f32::NEG_INFINITY, f32::NAN];
    for x in list {
        for y in list {
            assert_eq!(is_greater(b(x), b(y)), x > y);
        }
    }
    assert_eq!(b(f32::NEG_INFINITY), MINUS_INFINITY);
    assert_eq!(first_greatest(&[b(1.0), b(f32::NAN), b(3.0), b(3.0)], b(-1.0)), 2);
    assert_eq!(first_greatest(&[b(-1.0), b(-2.0)], b(-1.0)), 0);
    assert_eq!(nearest_centroid(&[b(-5.0), b(-4.0)]), 1);
    assert_eq!(farthest_point(&[b(-1.5), b(-0.5)]), 1);
}

fn l2_normalize(v: &mut [f32]) {
    let norm = v.iter().map(|x| x * x).sum::<f32>().sqrt();
    let norm = if norm.is_finite() && norm > 1e-6 { norm } else { 1e-6 };
    for x in v {
        *x /= norm;
    }
}

fn dot(a: &[f32], b: &[f32]) -> f32 {
    a.iter().zip(b).map(|(x, y)| x * y).sum()
}

fn distances(embs: &[Vec<f32>], centroids: &[Vec<f32>]) -> Vec<u32> {
    embs.iter()
        .map(|e| {
            let best = centroids.iter().map(|c| dot(e, c)).fold(-1.0f32, f32::max);
            (1.0 - best).to_bits()
        })
        .collect()
}

fn kmeans_cosine(embs: &[Vec<f32>], k: usize, max_iter: usize) -> Vec<usize> {
    let mut state = KMeans::new(embs.len(), k, max_iter);
    let mut seeding = Seeding::new(k);
    let at = |seeds: &[usize]| -> Vec<Vec<f32>> { seeds.iter().map(|i| embs[*i].clone()).collect() };
    while !seeding.done() {
        seeding.choose_next(&distances(embs, &at(&seeding.seeds)));
    }
    let mut centroids = at(&seeding.seeds);
    while !state.done() {
        let sims: Vec<Vec<u32>> = embs
            .iter()
            .map(|e| centroids.iter().map(|c| dot(e, c).to_bits()).collect())
            .collect();
        let updates = match state.assign_points(&sims) {
            Some(u) => u,
            None => break,
        };
        for c in 0..k {
            match updates[c] {
                CentroidUpdate::Farthest => {
                    let i = farthest_point(&distances(embs, &centroids));
                    centroids[c] = embs[i].clone();
                }
                CentroidUpdate::Mean { count } => {
                    let mut sum = vec![0.0f32; embs[0].len()];
                    for (e, &a) in embs.iter().zip(&state.assign) {
                        if a == c {
                            for (s, x) in sum.iter_mut().zip(e) {
                                *s += x;
                            }
                        }
                    }
                    for s in &mut sum {
                        *s *= 1.0 / count as f32;
                    }
                    l2_normalize(&mut sum);
                    centroids[c] = sum;
                }
            }
        }
    }
    state.assign
}

#[test]
fn kmeans_splits_two_blobs() {
    let embs = vec![
        vec![1.0, 0.0],
        vec![0.9, 0.1],
        vec![0.95, 0.05],
        vec![0.0, 1.0],
        vec![0.1, 0.9],
        vec![0.05, 0.95],
    ];
    let mut normed = embs.clone();
    for v in &mut normed {
        l2_normalize(v);
    }
    let assign = kmeans_cosine(&normed, 2, 25);
    assert_eq!(assign[0], assign[1]);
    assert_eq!(assign[1], assign[2]);
    assert_eq!(assign[3], assign[4]);
    assert_eq!(assign[4], assign[5]);
    assert_ne!(assign[0], assign[3]);
}

#[test]
fn clustering_starts_far_apart() {
    let b = |x: f32| x.to_bits();
    let mut s = Seeding::new(3);
    assert_eq!(s.seeds, vec![0]);
    s.choose_next(&[b(0.0), b(0.5), b(1.5), b(1.5)]);
    s.choose_next(&[b(0.0), b(0.4), b(0.0), b(0.1)]);
    assert_eq!(s.seeds, vec![0, 2, 1]);
    assert!(s.done());
    assert!(Seeding::new(1).done());
}

#[test]
fn clustering_converges_and_stops() {
    let b = |x: f32| x.to_bits();
    let mut state = KMeans::new(3, 3, 25);
    let sims = vec![
        vec![b(1.0), b(0.0), b(0.0)],
        vec![b(0.9), b(0.1), b(0.0)],
        vec![b(0.0), b(1.0), b(1.0)],
    ];
    assert_eq!(
        state.assign_points(&sims),
        Some(vec![
            CentroidUpdate::Mean { count: 2 },
            CentroidUpdate::Mean { count: 1 },
            CentroidUpdate::Farthest,
        ])
    );
    assert_eq!(state.assign, vec![0, 0, 1]);
    assert!(!state.done());
    assert_eq!(state.assign_points(&sims), None);
    assert!(state.done());
    assert!(KMeans::new(3, 1, 25).done());
    assert!(KMeans::new(0, 2, 25).done());
    assert!(KMeans::new(3, 2, 0).done());
}

#[test]
fn clustering_is_planned() {
    assert_eq!(plan_clusters(0, 0), Err(NoSpeakers));
    assert_eq!(plan_clusters(2, 0), Ok(ClusterPlan::Nothing));
    assert_eq!(plan_clusters(1, 5), Ok(ClusterPlan::OneSpeaker));
    assert_eq!(plan_clusters(3, 1), Ok(ClusterPlan::OneSpeaker));
    assert_eq!(plan_clusters(9, 4), Ok(ClusterPlan::Clusters { k: 4 }));
    assert_eq!(plan_clusters(2, 4), Ok(ClusterPlan::Clusters { k: 2 }));
    assert_eq!(clip_segment(2, 9, 5), Some((2, 5)));
    assert_eq!(clip_segment(6, 9, 5), None);
    assert_eq!(clip_segment(3, 3, 5), None);
    assert!(filters_from_file(true, 16_000));
    assert!(!filters_from_file(true, 8_000));
    assert!(!filters_from_file(false, 16_000));
}

#[test]
fn clusters_are_numbered_by_their_first_segments() {
    let segments = [(50, 60), (10, 20), (30, 40), (5, 8)];
    let mut assign = vec![0, 2, 0, 2];
    remap_clusters_by_first_segment(&segments, &mut assign, 4);
    // Cluster 2 starts at 5, cluster 0 at 30, the others are empty.
    assert_eq!(assign, vec![1, 0, 1, 0]);
    remap_clusters_by_first_segment(&segments, &mut assign, 4);
    assert_eq!(assign, vec![1, 0, 1, 0]);
    let mut same = vec![7, 7];
    remap_clusters_by_first_segment(&segments, &mut same, 1);
    assert_eq!(same, vec![7, 7]);
    let mut ties = vec![1, 0];
    remap_clusters_by_first_segment(&[(3, 4), (3, 5)], &mut ties, 2);
    assert_eq!(ties, vec![1, 0]);
}

#[test]
fn indices_are_reflected() {
    let got: Vec<isize> = (-5..9).map(|i| reflect_index(i, 4)).collect();
    assert_eq!(got, vec![1, 2, 3, 2, 1, 0, 1, 2, 3, 2, 1, 0, 1, 2]);
    assert!((-9..9).all(|i| reflect_index(i + 6, 4) == reflect_index(i, 4)));
    assert_eq!((reflect_index(-9, 5), reflect_index(5, 5)), (1, 3));
    let longest = isize::MAX / 2 + 1;
    assert_eq!(reflect_index(longest, longest), longest - 2);
    assert_eq!(reflect_index(7, 1), 0);
    assert_eq!(reflect_index(-7, 0), 0);
}

#[test]
fn centered_frames() {
    assert_eq!(centered_frame_count(16_000, 160), 101);
    assert_eq!(kept_frame_count(101, MelNormalization::WhisperDynamicRange), 100);
    assert_eq!(kept_frame_count(101, MelNormalization::PerUtterance), 101);
    assert_eq!(kept_frame_count(0, MelNormalization::WhisperDynamicRange), 0);
    assert_eq!(kept_frame_count(5, MelNormalization::Unchanged), 5);
    let f: Vec<usize> = centered_frame(0, 8, 4, 2).into_iter().map(|p| p.unwrap()).collect();
    assert_eq!(f, vec![2, 1, 0, 1]);
    let f: Vec<usize> = centered_frame(4, 8, 4, 2).into_iter().map(|p| p.unwrap()).collect();
    assert_eq!(f, vec![6, 7, 6, 5]);
    assert_eq!(centered_frame(0, 0, 2, 2), vec![None, None]);
}

fn gigaam_config() -> PreprocessorConfig {
    PreprocessorConfig {
        sample_rate: 16000,
        features: 64,
        win_length: 320,
        hop_length: 160,
        n_fft: 320,
        mel_scale: "htk".to_string(),
        center: false,
    }
}

#[test]
fn test_stft_center_false() {
    let extractor = GigaAmMelExtractor::new(gigaam_config());
    let samples = vec![0.0f32; 16000];
    let num_frames = extractor.num_frames(samples.len());
    assert_eq!(num_frames, 99);
}

#[test]
fn plain_frames() {
    let mut c = gigaam_config();
    c.win_length = 3;
    c.hop_length = 2;
    c.n_fft = 4;
    let e = GigaAmMelExtractor::new(c);
    assert_eq!(e.num_frames(2), 0);
    assert_eq!(e.num_frames(3), 1);
    assert_eq!(e.num_frames(7), 3);
    assert_eq!(e.frequencies(), 3);
    assert_eq!(e.frame(1, 7), vec![Some(2), Some(3), Some(4), None]);
    assert_eq!(e.frame(3, 7), vec![Some(6), None, None, None]);
}

#[test]
fn frames_with_silence_around() {
    let e = ParakeetMelExtractor::new(4, 2, 4, 80);
    assert_eq!(e.num_frames(4), 3);
    assert_eq!(e.frame(0, 4), vec![None, None, Some(0), Some(1)]);
    assert_eq!(e.frame(2, 4), vec![Some(2), Some(3), None, None]);
    assert_eq!(ParakeetMelExtractor::new(16, 2, 4, 80).num_frames(4), 0);
    let narrow = ParakeetMelExtractor::new(4, 2, 2, 80);
    assert_eq!(narrow.frame(1, 4), vec![Some(1), Some(2), None, None]);
}

#[test]
fn filters_are_read_from_bytes() {
    let values = [1.0f32, -2.5, 0.0, 4.0, 5.0, 6.0, 7.0];
    let bytes: Vec<u8> = values.iter().flat_map(|v| v.to_le_bytes()).collect();
    let rows = filter_rows(&bytes, 2, 4);
    let back: Vec<Vec<f32>> = rows
        .iter()
        .map(|r| r.iter().map(|&b| f32::from_bits(b)).collect())
        .collect();
    assert_eq!(back, vec![vec![1.0, -2.5, 0.0], vec![4.0, 5.0, 6.0]]);
}

fn resample(r: &Resampler, buffer: AudioBuffer<f32>) -> Result<AudioBuffer<f32>, NotMono> {
    match r.plan(&buffer)? {
        ResamplePlan::Unchanged => Ok(buffer),
        ResamplePlan::Convert { from, to } => {
            let mut converter = rubato::FftFixedInOut::<f32>::new(from, to, 1024, 1).unwrap();
            let mut output = Vec::new();
            let mut cursor = BlockCursor::new(buffer.samples.len());
            loop {
                match cursor.next_block(converter.input_frames_next()) {
                    Block::Full { start, end } => {
                        let input = vec![buffer.samples[start..end].to_vec()];
                        output.extend_from_slice(&converter.process(&input, None).unwrap()[0]);
                    }
                    Block::Partial { start, end } => {
                        let input = vec![buffer.samples[start..end].to_vec()];
                        let out = converter.process_partial(Some(&input), None).unwrap();
                        output.extend_from_slice(&out[0]);
                    }
                    Block::Done => break,
                }
            }
            Ok(r.finish(output))
        }
    }
}

#[test]
fn test_resampler_no_change() {
    let buffer = AudioBuffer::new(vec![0.0; 1024], 16000, 1);
    let len = buffer.samples.len();
    let resampler = Resampler::new(16000);
    let result = resample(&resampler, buffer).unwrap();
    assert_eq!(result.sample_rate, 16000);
    assert_eq!(result.samples.len(), len);
}

#[test]
fn test_resampler_48k_to_16k_irregular_len() {
    let input_len = 48_000 + 137;
    let buffer = AudioBuffer::new(vec![0.0; input_len], 48_000, 1);
    let resampler = Resampler::new(16_000);
    let result = resample(&resampler, buffer).unwrap();
    assert_eq!(result.sample_rate, 16_000);
    assert!(!result.samples.is_empty());
}

#[test]
fn resampling_needs_one_channel() {
    let r = Resampler::default();
    assert_eq!(r.target_sample_rate, 16_000);
    assert_eq!(r.plan(&AudioBuffer::new(vec![0u8; 4], 48_000, 2)), Err(NotMono));
    // At the right rate any number of channels is left alone.
    assert_eq!(
        r.plan(&AudioBuffer::new(vec![0u8; 4], 16_000, 2)),
        Ok(ResamplePlan::Unchanged)
    );
    let mut c = BlockCursor::new(10);
    assert_eq!(c.next_block(4), Block::Full { start: 0, end: 4 });
    assert_eq!(c.next_block(6), Block::Full { start: 4, end: 10 });
    assert_eq!(c.next_block(6), Block::Done);
    let mut c = BlockCursor::new(5);
    assert_eq!(c.next_block(6), Block::Partial { start: 0, end: 5 });
    assert_eq!(c.next_block(1), Block::Done);
}
