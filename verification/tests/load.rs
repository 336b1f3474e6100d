//! Tokenizers from the contents of a file.
use base64::engine::general_purpose::STANDARD;
use base64::Engine;
use gigatoken::bpe::byte_level::byte_to_codepoint;
use gigatoken::bpe::tiktoken::Tokenizer;
use gigatoken::load::assemble::{load_hf_bpe, load_hf_sentencepiece, load_hf_slice, HfTokenizer};
use gigatoken::load::json::{
    merge_split, parse_tokenizer_json, AddedTokenJson, HfError, ModelJson, ModelProbe,
    NormalizerJson, ParsedFile, PatternJson, PreTokenizerJson, RefusedFamily, TokenizerJson,
};
use gigatoken::load::vocab::{parse_byte_fallback, token_str_to_bytes, unicode_to_bytes};
use gigatoken::sp::charsmap::{CharsmapError, PrecompiledCharsmap};

#[test]
fn test_token_str_to_bytes() {
    assert_eq!(token_str_to_bytes("<0x00>"), vec![0x00]);
    assert_eq!(token_str_to_bytes("<0xFF>"), vec![0xFF]);
    assert_eq!(token_str_to_bytes("<0x0A>"), vec![0x0A]);
    assert_eq!(token_str_to_bytes("hello"), b"hello".to_vec());
    assert_eq!(token_str_to_bytes("▁the"), "▁the".as_bytes().to_vec());
    assert_eq!(token_str_to_bytes("▁"), "▁".as_bytes().to_vec());
    assert_eq!(token_str_to_bytes("<unk>"), b"<unk>".to_vec());
    assert_eq!(token_str_to_bytes("<s>"), b"<s>".to_vec());
}

/// The character that stands for a byte.
fn byte_char(b: u8) -> char {
    char::from_u32(byte_to_codepoint(b)).unwrap()
}

fn byte_text(s: &str) -> String {
    s.bytes().map(byte_char).collect()
}

fn pre_tokenizer(kind: &str) -> PreTokenizerJson {
    PreTokenizerJson {
        kind: kind.to_string(),
        pretokenizers: vec![],
        pattern: None,
        replacement: None,
        prepend_scheme: None,
        add_prefix_space: None,
        split: None,
        behavior: None,
    }
}

fn normalizer(kind: &str) -> NormalizerJson {
    NormalizerJson {
        kind: kind.to_string(),
        normalizers: vec![],
        prepend: None,
        pattern: None,
        content: None,
        strip_left: None,
        strip_right: None,
        precompiled_charsmap: None,
    }
}

fn added(id: u32, content: &str, lstrip: bool, rstrip: bool) -> AddedTokenJson {
    AddedTokenJson { id, content: content.to_string(), lstrip, rstrip, normalized: false }
}

/// The 256 byte tokens with the byte as the ID, and what is given.
fn byte_level(
    extra_vocab: &[(&str, u32)],
    merges: &[(&str, &str)],
    added_tokens: Vec<AddedTokenJson>,
    pre_tokenizer: PreTokenizerJson,
) -> TokenizerJson {
    let mut vocab: Vec<(String, u32)> =
        (0u16..=255).map(|b| (byte_char(b as u8).to_string(), b as u32)).collect();
    for &(text, id) in extra_vocab {
        vocab.push((byte_text(text), id));
    }
    TokenizerJson {
        model: ModelJson {
            model_type: "BPE".to_string(),
            vocab,
            merges: merges.iter().map(|(a, b)| (byte_text(a), byte_text(b))).collect(),
            byte_fallback: false,
            ignore_merges: false,
        },
        added_tokens,
        pre_tokenizer: Some(pre_tokenizer),
        normalizer: None,
    }
}

/// A SentencePiece-style file of byte tokens and some characters.
fn pieces(normalizer: Option<NormalizerJson>, pre: Option<PreTokenizerJson>) -> TokenizerJson {
    let mut vocab: Vec<(String, u32)> =
        (0u16..=255).map(|b| (format!("<0x{b:02X}>"), b as u32)).collect();
    for (i, c) in "\u{2581}abch".chars().enumerate() {
        vocab.push((c.to_string(), 256 + i as u32));
    }
    vocab.push(("\u{2581}a".to_string(), 300));
    TokenizerJson {
        model: ModelJson {
            model_type: "BPE".to_string(),
            vocab,
            merges: vec![("\u{2581}".to_string(), "a".to_string())],
            byte_fallback: true,
            ignore_merges: false,
        },
        added_tokens: vec![],
        pre_tokenizer: pre,
        normalizer,
    }
}

fn file(contents: TokenizerJson) -> ParsedFile {
    let probe = ModelProbe {
        model_type: Some(contents.model.model_type.clone()),
        has_unk_id: false,
        has_max_chars: false,
    };
    ParsedFile { probe: Some(probe), contents: Some(contents) }
}

fn load_bpe(contents: TokenizerJson) -> Tokenizer {
    match load_hf_slice(file(contents)) {
        Ok(HfTokenizer::Bpe(tok)) => tok,
        Ok(_) => panic!("expected ByteLevel BPE"),
        Err(e) => panic!("{e:?}"),
    }
}

fn encode_bpe(tok: &mut Tokenizer, text: &str) -> Vec<u32> {
    let mut out = Vec::new();
    tok.encode_with_added_tokens_flat(text.as_bytes(), &mut out);
    out
}

/// A file without a model type is BPE.
#[test]
fn test_parse_legacy_model_without_type() {
    let contents = TokenizerJson {
        model: ModelJson {
            model_type: "BPE".to_string(),
            vocab: vec![("a".to_string(), 0)],
            merges: vec![],
            byte_fallback: false,
            ignore_merges: false,
        },
        added_tokens: vec![],
        pre_tokenizer: None,
        normalizer: None,
    };
    let probe = ModelProbe { model_type: None, has_unk_id: false, has_max_chars: false };
    match parse_tokenizer_json(ParsedFile { probe: Some(probe), contents: Some(contents) }) {
        Ok(tj) => assert_eq!(tj.model.model_type, "BPE"),
        Err(e) => panic!("{e:?}"),
    }
}

/// Other families are refused by name or by their fields, also where the rest
/// of the file cannot be read.
#[test]
fn test_unsupported_model_type_named_in_error() {
    let cases = [
        (Some("WordPiece"), false, false, RefusedFamily::Named),
        (Some("Unigram"), true, false, RefusedFamily::Named),
        (None, true, false, RefusedFamily::UntypedUnigram),
        (None, false, true, RefusedFamily::UntypedWordPiece),
    ];
    for (name, has_unk_id, has_max_chars, family) in cases {
        let probe =
            ModelProbe { model_type: name.map(|n| n.to_string()), has_unk_id, has_max_chars };
        let refused = parse_tokenizer_json(ParsedFile { probe: Some(probe), contents: None });
        assert_eq!(refused.err(), Some(HfError::Refused(family)));
    }
    // Without a model that can be looked at, the shape of the file decides.
    let unread = parse_tokenizer_json(ParsedFile { probe: None, contents: None });
    assert_eq!(unread.err(), Some(HfError::Unreadable));
}

/// Merges go by their place in the list, whatever IDs they give.
#[test]
fn test_rank_mapped_merges_follow_list_order() {
    // The first merge gives 350, the second 300.
    let mut tok = load_bpe(byte_level(
        &[("bc", 350), ("ab", 300)],
        &[("b", "c"), ("a", "b")],
        vec![],
        pre_tokenizer("ByteLevel"),
    ));
    assert_eq!(encode_bpe(&mut tok, "abc"), vec![97, 350]);
    assert_eq!(encode_bpe(&mut tok, "ab"), vec![300]);
    assert_eq!(encode_bpe(&mut tok, "bc"), vec![350]);

    // The same merges with IDs in order.
    let mut tok = load_bpe(byte_level(
        &[("bc", 300), ("ab", 350)],
        &[("b", "c"), ("a", "b")],
        vec![],
        pre_tokenizer("ByteLevel"),
    ));
    assert_eq!(encode_bpe(&mut tok, "abc"), vec![97, 300]);
}

#[test]
fn test_added_token_lstrip_rstrip() {
    let tokens = vec![added(400, "<m>", true, false), added(401, "<r>", false, true)];
    let mut tok = load_bpe(byte_level(&[], &[], tokens, pre_tokenizer("ByteLevel")));
    assert_eq!(encode_bpe(&mut tok, "a <m> b"), vec![97, 400, 32, 98]);
    assert_eq!(encode_bpe(&mut tok, "a \t\n<m>"), vec![97, 400]);
    assert_eq!(
        encode_bpe(&mut tok, "a\u{a0}<m>"),
        vec![97, 400],
        "U+00A0 is `\\s` whitespace and must be absorbed"
    );
    assert_eq!(encode_bpe(&mut tok, "a <r> b"), vec![97, 32, 401, 98]);
    assert_eq!(encode_bpe(&mut tok, "<r>\n\n\nb"), vec![401, 98]);
    assert_eq!(encode_bpe(&mut tok, "<r> <m>"), vec![401, 400]);
    assert_eq!(encode_bpe(&mut tok, "a b"), vec![97, 32, 98]);
}

/// Every segment between added tokens that is not empty gets a space.
#[test]
fn test_byte_level_add_prefix_space() {
    let mut pre = pre_tokenizer("ByteLevel");
    pre.add_prefix_space = Some(true);
    let mut tok = load_bpe(byte_level(&[], &[], vec![added(400, "<m>", true, false)], pre));
    assert_eq!(encode_bpe(&mut tok, "ab"), vec![32, 97, 98]);
    assert_eq!(encode_bpe(&mut tok, " ab"), vec![32, 97, 98]);
    assert_eq!(encode_bpe(&mut tok, "a<m>b"), vec![32, 97, 400, 32, 98]);
    assert_eq!(encode_bpe(&mut tok, "<m><m>"), vec![400, 400]);
    assert_eq!(encode_bpe(&mut tok, "x <m> y"), vec![32, 120, 400, 32, 121]);
}

/// Each way in which a file makes no byte-level tokenizer.
#[test]
fn byte_level_errors() {
    let refused = |tj: TokenizerJson| load_hf_bpe(file(tj)).err();
    let plain = || byte_level(&[], &[], vec![], pre_tokenizer("ByteLevel"));
    assert_eq!(refused(plain()), None);

    let mut tj = plain();
    tj.model.model_type = "Unigram".to_string();
    let unprobed = ParsedFile { probe: None, contents: Some(tj) };
    assert_eq!(load_hf_bpe(unprobed).err(), Some(HfError::UnsupportedModel));

    let mut tj = plain();
    tj.model.byte_fallback = true;
    assert_eq!(refused(tj), Some(HfError::HasByteFallback));

    let mut tj = plain();
    tj.model.vocab.remove(65);
    assert_eq!(refused(tj), Some(HfError::MissingByte(65)));

    let mut tj = plain();
    tj.model.vocab.push(("zz".to_string(), u32::MAX));
    assert_eq!(refused(tj), Some(HfError::TooLarge));

    let mut tj = plain();
    tj.pre_tokenizer = Some(pre_tokenizer("Whitespace"));
    assert_eq!(refused(tj), Some(HfError::NoSplitRegex));

    let mut tj = plain();
    let mut split = pre_tokenizer("Split");
    split.pattern = Some(PatternJson { regex: Some("x+".to_string()), literal: None });
    tj.pre_tokenizer = Some(split);
    assert_eq!(refused(tj), Some(HfError::UnknownSplitRegexes));

    let mut tj = plain();
    tj.normalizer = Some(normalizer("Lowercase"));
    assert_eq!(refused(tj), Some(HfError::UnsupportedNormalizer));
    let mut tj = plain();
    tj.normalizer = Some(normalizer("NFC"));
    assert_eq!(refused(tj), None);
}

/// Each way in which a file makes no SentencePiece-style tokenizer.
#[test]
fn sentencepiece_errors() {
    let refused = |tj: TokenizerJson| load_hf_sentencepiece(file(tj)).err();
    let with = |n: NormalizerJson| refused(pieces(Some(n), None));
    let after = |p: PreTokenizerJson| refused(pieces(None, Some(p)));
    assert_eq!(refused(pieces(None, None)), None);

    let mut tj = pieces(None, None);
    tj.model.byte_fallback = false;
    assert_eq!(refused(tj), Some(HfError::NeedsByteFallback));

    let mut tj = pieces(None, None);
    tj.model.vocab.retain(|(text, _)| !text.starts_with("<0x"));
    assert_eq!(refused(tj), Some(HfError::NoByteTokens));

    assert_eq!(with(normalizer("Prepend")), Some(HfError::PrependWithoutText));
    assert_eq!(with(normalizer("Replace")), Some(HfError::ReplaceWithoutContent));
    let mut n = normalizer("Replace");
    n.content = Some("x".to_string());
    assert_eq!(with(n), Some(HfError::ReplaceWithoutPattern));
    let mut n = normalizer("Replace");
    n.content = Some("x".to_string());
    n.pattern = Some(PatternJson { regex: Some("[a-z]".to_string()), literal: None });
    assert_eq!(with(n), Some(HfError::UnsupportedRegex));
    assert_eq!(with(normalizer("Precompiled")), Some(HfError::PrecompiledWithoutCharsmap));
    let mut n = normalizer("Precompiled");
    n.precompiled_charsmap = Some("!!".to_string());
    assert_eq!(with(n), Some(HfError::InvalidBase64));
    let mut n = normalizer("Precompiled");
    n.precompiled_charsmap = Some("AAAA".to_string());
    assert!(matches!(with(n), Some(HfError::InvalidCharsmap(_))));
    assert_eq!(with(normalizer("Lowercase")), Some(HfError::UnsupportedNormalizer));

    let mut p = pre_tokenizer("Metaspace");
    p.replacement = Some("_".to_string());
    assert_eq!(after(p), Some(HfError::UnsupportedReplacement));
    let mut p = pre_tokenizer("Metaspace");
    p.prepend_scheme = Some("sometimes".to_string());
    assert_eq!(after(p), Some(HfError::UnsupportedPrependScheme));
    assert_eq!(after(pre_tokenizer("Whitespace")), Some(HfError::UnsupportedPreTokenizer));
}

/// A charsmap that maps `A` to the text behind the trie, up to its end.
fn charsmap(text: &[u8]) -> Vec<u8> {
    charsmap_for(b'A', text)
}

/// A charsmap that maps one ASCII character.
fn charsmap_for(byte: u8, text: &[u8]) -> Vec<u8> {
    let mut units = vec![0u32; 256];
    units[byte as usize] = (0xC1 << 10) | (1 << 8) | byte as u32;
    units[(byte ^ 0xC1) as usize] = 0x8000_0000;
    let mut map = (4 * units.len() as u32).to_le_bytes().to_vec();
    for u in units {
        map.extend_from_slice(&u.to_le_bytes());
    }
    map.extend_from_slice(text);
    map
}

#[test]
fn charsmap_errors() {
    let with = |map: &[u8]| PrecompiledCharsmap::new(map).err();
    assert_eq!(with(&charsmap(b"xy\0")), None);
    assert_eq!(with(&charsmap(b"\xFF\0")), Some(CharsmapError::InvalidText));
    assert_eq!(with(&[]), Some(CharsmapError::BrokenTrie));
    // A trie that is longer than the bytes.
    assert_eq!(with(&[0xFF, 0, 0, 0, 1, 2]), Some(CharsmapError::BrokenTrie));
}

/// The charsmap of a file maps characters and keeps others.
#[test]
fn charsmap_of_a_file_maps_text() {
    let map = match PrecompiledCharsmap::new(&charsmap(b"ab\0")) {
        Ok(map) => map,
        Err(e) => panic!("{e:?}"),
    };
    assert_eq!(map.normalize_into(b"A cA"), b"ab cab");
    assert_eq!(map.normalize_into("\u{e9}A".as_bytes()), "\u{e9}ab".as_bytes());

    let mut n = normalizer("Precompiled");
    n.precompiled_charsmap = Some(STANDARD.encode(charsmap(b"ab\0")));
    let tok = match load_hf_sentencepiece(file(pieces(Some(n), None))) {
        Ok(tok) => tok,
        Err(e) => panic!("{e:?}"),
    };
    let ids: Vec<u32> = tok.encode_raw("Ac").iter().map(|t| t.0).collect();
    assert_eq!(ids, vec![257, 258, 259]);
    assert_eq!(tok.normalize("Ac", true), b"abc");
}

/// Mapping around non-ASCII text only gives what mapping every grapheme gives.
#[test]
fn charsmap_parts_give_the_whole() {
    let texts = [
        "a\tb\r\nc\n",
        "\r\r\n\n\r",
        "Ae\u{301}A\r\n\u{301}y",
        "\u{e9}\r\n\u{e9} A\t\u{e9}",
        "\u{1F1E6}\u{1F1E7}\u{1F1E8}A\u{1F1E9}\n\u{1F1EA}",
        "\u{915}\u{94D}\u{937} ab\u{915}\u{94D}A\u{937}",
        "\u{600}1 2\u{600}\t",
        "\u{1F468}\u{200D}\u{1F469} x\u{200D}\u{1F469}\u{7F}",
        "",
    ];
    for byte in [0x09, 0x0A, 0x0D, 0x7F, b'A'] {
        let bytes = charsmap_for(byte, "<\u{3b1}>\0".as_bytes());
        let whole = spm_precompiled::Precompiled::from(&bytes).unwrap();
        let map = match PrecompiledCharsmap::new(&bytes) {
            Ok(map) => map,
            Err(e) => panic!("{e:?}"),
        };
        for text in texts {
            let want = whole.normalize_string(text);
            assert_eq!(map.normalize_into(text.as_bytes()), want.as_bytes(), "{byte} on {text:?}");
        }
    }
    let tabs = PrecompiledCharsmap::new(&charsmap_for(0x09, b"-\0"));
    assert_eq!(tabs.map(|m| m.normalize_into(b"a\tb")).ok(), Some(b"a-b".to_vec()));
}

/// A marked space and the letter after it merge.
#[test]
fn sentencepiece_file_encodes() {
    let mut p = pre_tokenizer("Metaspace");
    p.replacement = Some("\u{2581}".to_string());
    p.prepend_scheme = Some("always".to_string());
    p.split = Some(true);
    let tok = match load_hf_slice(file(pieces(None, Some(p)))) {
        Ok(HfTokenizer::SentencePiece(tok)) => tok,
        _ => panic!("expected a SentencePiece model"),
    };
    let ids: Vec<u32> = tok.encode_raw("a ab hi").iter().map(|t| t.0).collect();
    // "i" is no piece, so its byte stands for it.
    assert_eq!(ids, vec![300, 300, 258, 256, 260, 0x69]);
    assert_eq!(tok.decode(&tok.encode_raw("a ab hi")), b"a ab hi");
}

#[test]
fn byte_fallback_names() {
    assert_eq!(parse_byte_fallback("<0x41>"), Some(0x41));
    assert_eq!(parse_byte_fallback("<0xfe>"), Some(0xFE));
    assert_eq!(parse_byte_fallback("<0x4>"), None);
    assert_eq!(parse_byte_fallback("<0x4G>"), None);
    assert_eq!(parse_byte_fallback("0x41"), None);
    assert_eq!(parse_byte_fallback("<0x+1>"), None);
    assert_eq!(token_str_to_bytes("<0x+1>"), b"<0x+1>");
}

/// Characters of the byte alphabet stand for bytes.
#[test]
fn byte_alphabet_round_trips() {
    let allowed = |b: u8| matches!(b, 33..=126 | 161..=172 | 174..=255);
    for b in 0..=255u8 {
        let cp = if allowed(b) {
            b as u32
        } else {
            256 + (0..b).filter(|&x| !allowed(x)).count() as u32
        };
        assert_eq!(byte_to_codepoint(b), cp);
        assert_eq!(unicode_to_bytes(&byte_char(b).to_string()), vec![b]);
    }
}

#[test]
fn merges_split_at_the_first_space() {
    assert_eq!(merge_split("a b"), Some(("a", "b")));
    assert_eq!(merge_split("a b c"), Some(("a", "b c")));
    assert_eq!(merge_split(" b"), Some(("", "b")));
    assert_eq!(merge_split("ab"), None);
}

/// The merges of a file are listed in rank order.
#[test]
fn file_merges_are_listed() {
    let pair = |a: &str, b: &str| (a.as_bytes().to_vec(), b.as_bytes().to_vec());
    let contents = byte_level(
        &[("ab", 300), ("abc", 299)],
        &[("a", "b"), ("ab", "c"), ("x", "y")],
        vec![],
        pre_tokenizer("ByteLevel"),
    );
    assert_eq!(load_bpe(contents).merge_entries(), vec![pair("a", "b"), pair("ab", "c")]);
    let tok = match load_hf_sentencepiece(file(pieces(None, None))) {
        Ok(tok) => tok,
        Err(e) => panic!("{e:?}"),
    };
    assert_eq!(tok.merge_entries(), vec![pair("\u{2581}", "a")]);
    assert_eq!(tok.vocab_size(), 301);
}

/// The shortest entry counts, and its text ends at a zero byte.
#[test]
fn charsmap_takes_the_first_entry() {
    let map = match PrecompiledCharsmap::new(&charsmap(b"xy\0z\0")) {
        Ok(map) => map,
        Err(e) => panic!("{e:?}"),
    };
    assert_eq!(map.normalize_into(b"A"), b"xy");
    // A grapheme that starts with an entry is mapped as a whole.
    assert_eq!(map.normalize_into("A\u{301}b".as_bytes()), b"xyb");
}

/// A charsmap from whose trie some text leads out maps text that does not.
#[test]
fn charsmap_that_leads_out() {
    let mut map = charsmap(b"xy\0");
    // The lead byte of U+00C0 to U+00FF goes on to a place behind the trie.
    let at = 4 + 4 * 0xC3;
    map[at..at + 4].copy_from_slice(&((0x1000u32 << 10) | 0xC3).to_le_bytes());
    let whole = spm_precompiled::Precompiled::from(&map).unwrap();
    let leads_out = match PrecompiledCharsmap::new(&map) {
        Ok(map) => map,
        Err(e) => panic!("{e:?}"),
    };
    for text in ["A cA\r\n", "", "\u{65e5}A\u{301} A", "\u{3b1}\u{3b2}A"] {
        let want = whole.normalize_string(text);
        assert_eq!(leads_out.normalize_into(text.as_bytes()), want.as_bytes(), "{text:?}");
    }
    assert_eq!(leads_out.normalize_into(b"bA"), b"bxy");
    // Text that might lead out stays.
    assert_eq!(leads_out.normalize_into("A\u{e9}".as_bytes()), "A\u{e9}".as_bytes());
    // From an ASCII character the trie may not lead out.
    let at = 4 + 4 * 0x42;
    map[at..at + 4].copy_from_slice(&((0x1000u32 << 10) | (1 << 8) | 0x42).to_le_bytes());
    assert_eq!(PrecompiledCharsmap::new(&map).err(), Some(CharsmapError::BrokenTrie));
}

/// An added token without content stands between all bytes.
#[test]
fn empty_added_token_spreads() {
    let ids = |added_tokens: Vec<AddedTokenJson>, text: &str| -> Vec<u32> {
        let contents = TokenizerJson { added_tokens, ..pieces(None, None) };
        match load_hf_sentencepiece(file(contents)) {
            Ok(tok) => tok.encode_raw(text).iter().map(|t| t.0).collect(),
            Err(e) => panic!("{e:?}"),
        }
    };
    let gap = || added(400, "", false, false);
    assert_eq!(ids(vec![gap()], "ab"), vec![400, 257, 400, 258, 400]);
    assert_eq!(ids(vec![gap()], ""), vec![400]);
    // Not right behind another token.
    assert_eq!(ids(vec![gap(), added(401, "b", false, false)], "abba"), vec![400, 257, 401, 401, 257, 400]);
    assert_eq!(ids(vec![added(401, "b", false, false)], "abba"), vec![257, 401, 401, 257]);
}
