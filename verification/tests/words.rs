//! Texts, tokenizers, prompts and generation.
use candle_core::{Device, Tensor};
use rustasr::naming::{default_out_dir, format_hhmmss_millis};
use rustasr::pipeline::{
    choose_decoder_gguf, generate, looks_like_repetition_loop, next_token, normalize_language_name,
    pipeline_precision, prefix_tokens, prompt_embeds, suffix_tokens, DecoderWeights, Generation,
    GgufOverride, Precision, PromptError, StopReason, WeightsError,
};
use rustasr::text::{
    decimal, has_part, has_prefix, has_suffix, padded_decimal, parse_number, same_text, trim,
    trim_start,
};
use rustasr::tokenizer::{
    byte_level_decode, gpt2_byte_decoder, read_added_entries, read_added_tokens, AddedToken, AddedTokenEntry,
    Tokenizer, TokenizerError,
};

#[test]
fn white_space_is_trimmed() {
    assert_eq!(trim("  a b\t\n"), "a b");
    assert_eq!(trim(" \u{3000}x\u{a0}"), "x");
    for c in (0..=char::MAX as u32).filter_map(char::from_u32) {
        assert_eq!(trim_start(&c.to_string()).is_empty(), c.is_whitespace());
    }
    assert_eq!(trim("   "), "");
    assert_eq!(trim_start("  a "), "a ");
    assert_eq!(trim(&trim("  a  ")), trim("  a  "));
}

#[test]
fn numbers_go_back_and_forth() {
    for n in [0u64, 7, 10, 99, 100, 12345, u64::MAX] {
        assert_eq!(decimal(n), n.to_string());
        assert_eq!(parse_number(&decimal(n), u64::MAX), Some(n));
    }
    assert_eq!(padded_decimal(7, 3), "007");
    assert_eq!(padded_decimal(1234, 3), "1234");
    for s in ["", "+", "-1", "1a", " 1", "1 ", "++1"] {
        assert_eq!(parse_number(s, u64::MAX), None);
        assert!(s.parse::<u64>().is_err());
    }
    assert_eq!(parse_number("+042", 100), Some(42));
    assert_eq!(parse_number("4294967296", u32::MAX as u64), None);
    assert_eq!(parse_number("4294967295", u32::MAX as u64), Some(u32::MAX as u64));
    assert_eq!(parse_number("18446744073709551616", u64::MAX), None);
}

#[test]
fn parts_of_texts() {
    assert!(has_part("model-q8_0.gguf", "q8"));
    assert!(!has_part("model", "q8"));
    assert!(has_part("abc", ""));
    assert!(has_prefix("model.x", "model"));
    assert!(!has_prefix("mo", "model"));
    assert!(has_suffix("a.gguf", ".gguf"));
    assert!(!has_suffix("gguf", ".gguf"));
    assert!(same_text("Ġ", "Ġ"));
    assert!(!same_text("a", "b"));
}

#[test]
fn time_stamps() {
    assert_eq!(format_hhmmss_millis(0), "00:00:00.000");
    assert_eq!(format_hhmmss_millis(3_723_045), "01:02:03.045");
    assert_eq!(format_hhmmss_millis(360_000_000), "100:00:00.000");
    assert_eq!(default_out_dir("out", 1_700_000_000), "out-1700000000");
}

#[test]
fn byte_alphabet() {
    let table = gpt2_byte_decoder();
    assert_eq!(table.len(), 256);
    assert_eq!(table[&('Ġ' as u32)], 32);
    assert_eq!(table[&('Ċ' as u32)], 10);
    assert_eq!(table[&('!' as u32)], b'!');
    assert_eq!(table[&323], 173);
    assert_eq!(byte_level_decode("ĠHello", &table), " Hello");
    assert_eq!(byte_level_decode("Ñı", &table), "я");
    // A character outside the alphabet stands for itself, and ill-formed bytes are replaced.
    assert_eq!(byte_level_decode("中", &table), "中");
    assert_eq!(byte_level_decode("Ñ", &table), "\u{fffd}");
}

#[test]
fn every_byte_has_its_own_character() {
    let table = gpt2_byte_decoder();
    let mut bytes: Vec<u8> = table.values().copied().collect();
    bytes.sort();
    assert_eq!(bytes, (0..=255u8).collect::<Vec<u8>>());
}

fn entry(key: &str, body: Option<(&str, bool)>) -> AddedTokenEntry {
    AddedTokenEntry { key: key.to_string(), body: body.map(|(c, s)| (c.to_string(), s)) }
}

fn tokenizer() -> Tokenizer {
    let json = r#"{"language": 11, "Ġ": 12, "ĠRussian": 13, "English": 14, "ĠÐ¼Ð¸ÑĢ": 15, "a": 1}"#;
    let config = r#"{"model_max_length": 131072, "added_tokens_decoder": {
        "151643": {"content": "<|endoftext|>", "lstrip": false, "special": true},
        "151645": {"content": "<|im_end|>", "special": true},
        "16": {"special": true, "content": "<special>"},
        "17": ["<plain>", false],
        "14": {"content": "<replaced>", "special": false}
    }}"#;
    match Tokenizer::from_vocab_and_merges(json, config) {
        Ok(t) => t,
        Err(_) => panic!("the tables are well formed"),
    }
}

#[test]
fn tokens_are_decoded() {
    let t = tokenizer();
    assert_eq!(t.decode(&[1, 13]), "a Russian");
    assert_eq!(t.decode(&[15]), "мир");
    // Special tokens and unknown ones are passed over, others are not.
    assert_eq!(t.decode(&[16, 1, 17, 999_999, 3]), "a<plain>");
    // Nothing after a token that ends the text counts.
    assert_eq!(t.decode(&[1, 151645, 13]), "a");
    assert_eq!(t.decode(&[151643, 13]), "");
    // An added token replaces a text, but not the number of a text.
    assert_eq!(t.decode(&[14]), "<replaced>");
    assert_eq!(t.token_id("English"), Some(14));
    assert_eq!(t.token_id("<replaced>"), Some(14));
    assert_eq!(t.token_id("nothing"), None);
    assert_eq!(t.id_to_token.len(), 151646);
}

#[test]
fn a_later_added_token_replaces_an_earlier_one() {
    let vocab = vec![("x".to_string(), 0u32), ("y".to_string(), 0u32)];
    let added = vec![
        AddedToken { id: 2, content: "old".to_string(), special: true },
        AddedToken { id: 2, content: "new".to_string(), special: false },
    ];
    let t = Tokenizer::from_tables(vocab, &added);
    assert_eq!(t.decode(&[0, 2]), "ynew");
    assert_eq!(t.token_id("old"), None);
    assert_eq!(t.token_id("x"), Some(0));
    assert_eq!(t.token_id("y"), Some(0));
    assert_eq!(t.id_to_token.len(), 3);
}

#[test]
fn malformed_tables_are_reported() {
    let error = |vocab: &str, config: &str| Tokenizer::from_vocab_and_merges(vocab, config).err();
    assert!(matches!(error("[1]", "{}"), Some(TokenizerError::MalformedVocabulary)));
    assert!(matches!(error("[1]", "{"), Some(TokenizerError::MalformedVocabulary)));
    assert!(matches!(error("{}", "{"), Some(TokenizerError::MalformedConfig)));
    let bad_id = r#"{"added_tokens_decoder": {"1": ["a", true], "2x": 1, "3": 1}}"#;
    match error("{}", bad_id) {
        Some(TokenizerError::MalformedId(k)) => assert_eq!(k, "2x"),
        _ => panic!("the key is not a number"),
    }
    for body in ["null", "{}", r#"{"content": "a"}"#, r#"{"content": 1, "special": true}"#, r#"["a"]"#] {
        let config = format!("{{\"added_tokens_decoder\": {{\"2\": {body}}}}}");
        match error("{}", &config) {
            Some(TokenizerError::MalformedEntry(k)) => assert_eq!(k, "2"),
            _ => panic!("the entry has no body"),
        }
    }
    match read_added_tokens(&vec![entry("2", None), entry("x", None)]) {
        Err(TokenizerError::MalformedEntry(k)) => assert_eq!(k, "2"),
        _ => panic!("the entry has no body"),
    }
    let too_large = vec![entry("4294967296", Some(("a", true)))];
    assert!(matches!(read_added_tokens(&too_large), Err(TokenizerError::MalformedId(_))));
    // Without a table there are no added tokens.
    for config in ["[]", "{}", r#"{"added_tokens_decoder": []}"#] {
        let t = Tokenizer::from_vocab_and_merges(r#"{"a": 3}"#, config).ok().unwrap();
        assert_eq!(t.id_to_token.len(), 4);
        assert_eq!(t.decode(&[3]), "a");
    }
}

#[test]
fn entries_are_read_from_a_configuration() {
    let config = r#"{"added_tokens_decoder": {"7": {"content": "x\u0041", "special": true}, "8": 1}}"#;
    let entries = read_added_entries(config).ok().unwrap();
    assert_eq!(entries.len(), 2);
    assert_eq!(entries[0].key, "7");
    assert_eq!(entries[0].body, Some(("xA".to_string(), true)));
    assert_eq!(entries[1].key, "8");
    assert_eq!(entries[1].body, None);
}

#[test]
fn language_names() {
    assert_eq!(normalize_language_name("  rUSSIAN "), "Russian");
    assert_eq!(normalize_language_name(""), "");
    assert_eq!(normalize_language_name(" \t"), "");
    assert_eq!(normalize_language_name("русский"), "Русский");
    assert_eq!(normalize_language_name("ß"), "SS");
    let once = normalize_language_name(" mixED caSe\t");
    assert_eq!(once, "Mixed case");
    assert_eq!(normalize_language_name(&once), once);
}

#[test]
fn prompts() {
    assert_eq!(
        prefix_tokens(),
        vec![151644, 8948, 198, 151645, 198, 151644, 872, 198, 151669]
    );
    let t = tokenizer();
    let base = vec![151670, 151645, 198, 151644, 77091, 198];
    assert_eq!(suffix_tokens(&t, None).ok(), Some(base.clone()));
    let mut spaced = base.clone();
    spaced.extend([11, 13, 151704]);
    assert_eq!(suffix_tokens(&t, Some("russian")).ok(), Some(spaced));
    let mut apart = base.clone();
    apart.extend([11, 12, 14, 151704]);
    assert_eq!(suffix_tokens(&t, Some("ENGLISH")).ok(), Some(apart));
    match suffix_tokens(&t, Some("klingon")) {
        Err(PromptError::UnknownLanguage(name)) => assert_eq!(name, "Klingon"),
        _ => panic!("the language is not in the vocabulary"),
    }
    // Without entries of their own, the word and the space have fixed numbers.
    let bare = Tokenizer::from_tables(vec![("German".to_string(), 5)], &vec![]);
    let mut fixed = base;
    fixed.extend([11528, 220, 5, 151704]);
    assert_eq!(suffix_tokens(&bare, Some("german")).ok(), Some(fixed));
}

#[test]
fn prompt_embeddings_stand_around_the_audio() {
    let t = tokenizer();
    let device = Device::Cpu;
    let table = Tensor::arange(0u32, 151_705, &device).unwrap().reshape((151_705, 1)).unwrap();
    let audio = Tensor::new(&[[[7u32], [8]]], &device).unwrap();
    let p = match prompt_embeds(&table, &audio, &t, Some("Russian")) {
        Ok(p) => p,
        Err(_) => panic!("the prompt fits"),
    };
    assert_eq!(p.dims(), &[1, 20, 1]);
    let all: Vec<u32> = p.flatten_all().unwrap().to_vec1().unwrap();
    let mut want = prefix_tokens();
    want.extend([7, 8]);
    want.extend(suffix_tokens(&t, Some("Russian")).ok().unwrap());
    assert_eq!(all, want);
    assert!(matches!(
        prompt_embeds(&table, &audio, &t, Some("Klingon")),
        Err(PromptError::UnknownLanguage(_))
    ));
    // A table without enough rows cannot be embedded from.
    let small = Tensor::new(&[[1u32]], &device).unwrap();
    assert!(matches!(prompt_embeds(&small, &audio, &t, None), Err(PromptError::Tensor(_))));
}

#[test]
fn weights_are_chosen() {
    let named = |exists| Some(GgufOverride { path: "/m/named.gguf".to_string(), exists });
    let found = || Some("/m/found.gguf".to_string());
    assert_eq!(
        choose_decoder_gguf(DecoderWeights::Safetensors, named(false), found()),
        Err(WeightsError::Conflict)
    );
    assert_eq!(
        choose_decoder_gguf(DecoderWeights::Auto, named(false), found()),
        Err(WeightsError::OverrideMissing)
    );
    assert_eq!(
        choose_decoder_gguf(DecoderWeights::Auto, named(true), found()),
        Ok(Some("/m/named.gguf".to_string()))
    );
    assert_eq!(choose_decoder_gguf(DecoderWeights::Auto, None, found()), Ok(found()));
    assert_eq!(choose_decoder_gguf(DecoderWeights::Auto, None, None), Ok(None));
    assert_eq!(choose_decoder_gguf(DecoderWeights::Safetensors, None, found()), Ok(None));
    assert_eq!(choose_decoder_gguf(DecoderWeights::Gguf, None, found()), Ok(found()));
    assert_eq!(
        choose_decoder_gguf(DecoderWeights::Gguf, None, None),
        Err(WeightsError::GgufMissing)
    );
    assert_eq!(pipeline_precision(false, false), Precision::Single);
    assert_eq!(pipeline_precision(true, false), Precision::BrainHalf);
    assert_eq!(pipeline_precision(false, true), Precision::BrainHalf);
}

#[test]
fn loops_are_recognized() {
    let varied: Vec<u32> = (0..200).collect();
    assert!(!looks_like_repetition_loop(&varied));
    assert!(!looks_like_repetition_loop(&vec![5; 127]));
    assert!(looks_like_repetition_loop(&vec![5; 128]));
    // Seven different tokens among the last 96 do not count as few, but as blocks of seven.
    let seven: Vec<u32> = (0..140).map(|i| i % 7).collect();
    assert!(looks_like_repetition_loop(&seven));
    // Blocks of 17 tokens are too long.
    let long: Vec<u32> = (0..170).map(|i| i % 17).collect();
    assert!(!looks_like_repetition_loop(&long));
    // Five blocks of 16 are too few.
    let mut five: Vec<u32> = (1000..1060).collect();
    five.extend((0..80).map(|i| i % 16));
    assert!(!looks_like_repetition_loop(&five));
    five.extend((0..16).map(|i| i % 16));
    assert!(looks_like_repetition_loop(&five));
    // Six different tokens in no order.
    let mut few: Vec<u32> = (1000..1040).collect();
    few.extend((0..96u32).map(|i| (i * i * 7 + i / 5) % 6));
    assert!(looks_like_repetition_loop(&few));
}

#[test]
fn generation_stops() {
    assert_eq!(generate(&[1, 2, 151645, 3], 10), Some((vec![1, 2], StopReason::Eos)));
    assert_eq!(generate(&[1, 151643], 10), Some((vec![1], StopReason::Eos)));
    assert_eq!(generate(&[1, 2, 3], 2), Some((vec![1, 2], StopReason::MaxTokens)));
    assert_eq!(generate(&[151645], 0), Some((vec![], StopReason::MaxTokens)));
    assert_eq!(generate(&[1, 2], 3), None);
    assert_eq!(generate(&vec![9; 500], 400), Some((vec![9; 128], StopReason::Repetition)));
    let mut g = Generation::new(2);
    g.accept(4);
    assert_eq!(g.stopped, None);
    g.accept(5);
    assert_eq!(g.stopped, Some(StopReason::MaxTokens));
}

#[test]
fn the_last_position_chooses_the_token() {
    let device = Device::Cpu;
    let logits = Tensor::new(&[[[9.0f32, 0.0, 0.0], [0.0, 1.0, 3.0]]], &device).unwrap();
    assert_eq!(next_token(&logits).unwrap(), 2);
    let two_texts = Tensor::new(&[[[9.0f32, 0.0]], [[0.0, 1.0]]], &device).unwrap();
    assert!(next_token(&two_texts).is_err());
    let flat = Tensor::new(&[[9.0f32, 0.0]], &device).unwrap();
    assert!(next_token(&flat).is_err());
}
