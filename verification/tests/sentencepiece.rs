//! SentencePiece-style models.
use gigatoken::bpe::tiktoken::DEFAULT_MAX_CACHE_BYTES;
use gigatoken::batch::chunks::EncodeChunk;
use gigatoken::batch::sentencepiece::{
    sp_build_chunks, sp_encode_chunks, sp_encode_docs_ragged, sp_encode_docs_ragged_serial,
    sp_encode_files_docs, sp_encode_files_docs_serial, sp_encode_regions_ragged, SeparatorNotText,
};
use gigatoken::input::format::DocFormat;
use gigatoken::load::assemble::load_hf_sentencepiece;
use gigatoken::load::json::{
    AddedTokenJson, ModelJson, NormalizerJson, ParsedFile, PatternJson, PreTokenizerJson,
    TokenizerJson,
};
use gigatoken::sp::model::{RawPrepend, SentencePieceBPE};
use gigatoken::sp::normalize::collapse_space_runs;
use gigatoken::sp::state::EncodeState;
use gigatoken::token::TokenId;

#[test]
fn test_collapse_space_runs() {
    let collapsed = |input: &str, content: &str| -> String {
        String::from_utf8(collapse_space_runs(input.as_bytes(), content.as_bytes())).unwrap()
    };
    assert_eq!(collapsed("a  b   c d  ", "▁"), "a▁b▁c d▁");
    assert_eq!(collapsed("a \t  b", "▁"), "a \t▁b");
    assert_eq!(collapsed("  ", "▁"), "▁");
    assert_eq!(collapsed("no runs", "▁"), "no runs");
}

fn normalizer(kind: &str) -> NormalizerJson {
    NormalizerJson {
        kind: kind.to_string(),
        normalizers: vec![],
        prepend: None,
        pattern: None,
        content: None,
        strip_left: None,
        strip_right: None,
        precompiled_charsmap: None,
    }
}

/// A mark before the text, and marks for spaces.
fn prepend_and_replace() -> NormalizerJson {
    let mut prepend = normalizer("Prepend");
    prepend.prepend = Some("\u{2581}".to_string());
    let mut replace = normalizer("Replace");
    replace.pattern = Some(PatternJson { regex: None, literal: Some(" ".to_string()) });
    replace.content = Some("\u{2581}".to_string());
    let mut sequence = normalizer("Sequence");
    sequence.normalizers = vec![prepend, replace];
    sequence
}

fn metaspace(prepend_scheme: &str, split: bool) -> PreTokenizerJson {
    PreTokenizerJson {
        kind: "Metaspace".to_string(),
        pretokenizers: vec![],
        pattern: None,
        replacement: Some("\u{2581}".to_string()),
        prepend_scheme: Some(prepend_scheme.to_string()),
        add_prefix_space: None,
        split: Some(split),
        behavior: None,
    }
}

/// Characters and byte fallback, without merges, so that a cut in the wrong
/// place shows in the IDs; or with some merges.
fn model(
    merged: bool,
    added: &[(&str, bool, bool)],
    normalizer: Option<NormalizerJson>,
    pre_tokenizer: Option<PreTokenizerJson>,
) -> SentencePieceBPE {
    let mut vocab: Vec<(String, u32)> =
        (0u16..=255).map(|b| (format!("<0x{b:02X}>"), b as u32)).collect();
    let mut next_id = 256u32;
    vocab.push(("\u{2581}".to_string(), next_id));
    next_id += 1;
    for c in "abcdefghijklmnopqrstuvwxyz.,!?".chars() {
        vocab.push((c.to_string(), next_id));
        next_id += 1;
    }
    let mut merges = vec![];
    if merged {
        for (a, b) in [("t", "h"), ("th", "e"), ("\u{2581}", "the"), ("i", "n"), ("e", "r")] {
            vocab.push((format!("{a}{b}"), next_id));
            next_id += 1;
            merges.push((a.to_string(), b.to_string()));
        }
    }
    let added_tokens = added
        .iter()
        .map(|&(content, lstrip, rstrip)| {
            let id = next_id;
            next_id += 1;
            AddedTokenJson { id, content: content.to_string(), lstrip, rstrip, normalized: false }
        })
        .collect();
    let contents = TokenizerJson {
        model: ModelJson {
            model_type: "BPE".to_string(),
            vocab,
            merges,
            byte_fallback: true,
            ignore_merges: false,
        },
        added_tokens,
        pre_tokenizer,
        normalizer,
    };
    match load_hf_sentencepiece(ParsedFile { probe: None, contents: Some(contents) }) {
        Ok(tok) => tok,
        Err(e) => panic!("synthetic model should load as SentencePiece: {e:?}"),
    }
}

fn assert_ids_match(tag: &str, ids: &[u32], ids_ref: &[u32]) {
    let i = ids_ref.iter().zip(ids).take_while(|(a, b)| a == b).count();
    assert!(ids == ids_ref, "{tag}: ids mismatch at token {i}");
}

/// A state that wipes its caches gives what one without a budget gives, and
/// stays within the budget.
#[test]
fn budgeted_wipe_matches_unbounded() {
    let model = model(true, &[], Some(prepend_and_replace()), None);
    assert_eq!(model.max_cache_bytes(), Some(DEFAULT_MAX_CACHE_BYTES));

    // Distinct short words, longer ones between them, and a common head.
    let mut text = String::new();
    let mut x = 0x1234_5678_9ABC_DEF0u64;
    let mut rand = |m: u64| {
        x ^= x << 13;
        x ^= x >> 7;
        x ^= x << 17;
        x % m
    };
    for i in 0..100_000u32 {
        let len = if i % 17 == 0 { 16 + rand(24) } else { 3 + rand(8) };
        for _ in 0..len {
            text.push((b'a' + rand(26) as u8) as char);
        }
        text.push(' ');
        if i % 5 == 0 {
            text.push_str("the quick brown fox ");
        }
    }

    let mut unbounded = EncodeState::with_budget(None);
    let mut expected: Vec<TokenId> = Vec::new();
    model.encode_raw_cb(&mut unbounded, &text, &mut expected);

    // About 1 MiB beside the front cache.
    let mut budgeted = EncodeState::with_budget(Some(25 << 20));
    let mut actual: Vec<TokenId> = Vec::new();
    model.encode_raw_cb(&mut budgeted, &text, &mut actual);
    assert!(actual == expected, "budgeted output diverged");
    let (short, long_bytes_used, arena, max_encoding) = budgeted.cache_stats();
    assert!(long_bytes_used > 0, "corpus never hit the long map");
    assert!(
        budgeted.cache_size() < unbounded.cache_size() / 3,
        "survivors {} vs unbounded {}",
        budgeted.cache_size(),
        unbounded.cache_size()
    );
    let used = short * 48 + long_bytes_used + arena * 4;
    let limit = (1 << 20) + max_encoding * 4;
    assert!(used <= limit + 4096, "estimate {used} exceeds budget {limit}");
}

fn block() -> String {
    [
        "plain words here <p> and <p><p> doubled\n",
        "lstrip near ws   <l> and far<l>tight\n",
        "rstrip eats ws <r>   after and<r>tight\n",
        "aaa aaaa a aa overlapping aa\n",
        "w w w w w straddling spaces\n",
        "punct, split. here! ok? more,words.now\n",
        "   runs\t\tof   whitespace \n\n",
        "<l>   <r>   <l><r> adjacent tokens\n",
    ]
    .concat()
}

/// Every way in which a mark is put before raw text.
fn pipelines() -> Vec<(Option<NormalizerJson>, Option<PreTokenizerJson>, RawPrepend, bool)> {
    vec![
        (Some(prepend_and_replace()), None, RawPrepend::Unguarded, false),
        (None, Some(metaspace("always", true)), RawPrepend::GuardedAlways, true),
        (None, Some(metaspace("first", false)), RawPrepend::GuardedFirst, false),
    ]
}

const ADDED: [(&str, bool, bool); 5] = [
    ("<p>", false, false),
    ("<l>", true, false),
    ("<r>", false, true),
    // Can straddle a cut at a space.
    ("w w", false, false),
    // Overlaps itself.
    ("aa", false, false),
];

/// Cuts every few bytes keep the tokens of the whole, around added tokens of
/// all sorts.
#[test]
fn sp_fragment_cuts_respect_added_tokens() {
    let block = block();
    let mut text = String::new();
    while text.len() < 100_000 {
        text.push_str(&block);
    }
    let texts = [text.as_str()];
    let docs = [text.as_bytes()];
    let whole = DocFormat::Text { separator: None };

    for (normalizer, pre_tokenizer, prepend, every_mark) in pipelines() {
        let tok = model(false, &ADDED, normalizer, pre_tokenizer);
        assert_eq!(tok.raw_prepend_kind(), Some(prepend), "unexpected raw prepend");
        assert_eq!(
            tok.cut_rules().map(|c| c.every_mark),
            Some(every_mark),
            "unexpected word split"
        );

        let (ids_ref, lens_ref) = sp_encode_docs_ragged_serial(&tok, &texts);
        let chunks = sp_build_chunks(&tok, &docs, 48);
        assert!(
            chunks.len() > 1000,
            "expected a cut attempt every few bytes, got {} chunks",
            chunks.len()
        );
        let (ids, lens) = sp_encode_chunks(&tok, &docs, &whole, &chunks);
        assert_eq!(lens, lens_ref, "{prepend:?}: lens mismatch");
        assert_ids_match(&format!("{prepend:?}"), &ids, &ids_ref);
    }
}

/// Texts encode chunk by chunk to what they encode to one after the other.
#[test]
fn sp_parallel_fragmented_matches_serial() {
    let block = [
        "The  quick   brown fox \u{2014} jumps; over, the: lazy. dog!  \n\n",
        "\t\tindent()\twide  spacing      here \r\nCRLF\r\n",
        "<s>raw<s> tokens </s> spaced <unk> out <bos> and <eos>\n",
        "<start_of_turn>user hello<end_of_turn> <pad>\n",
        "html-ish <b> </b> crossing > </ pieces >\u{2581}</ literal mark \u{2581}word\n",
        "日本語のテキストと émojis 🎉🚀, combining a\u{301}e\u{308}o\u{302}, nbsp\u{a0}here ½ ﬁ ㎒\n",
        "   leading and trailing   \n",
    ]
    .concat();
    let mut big = String::new();
    while big.len() < (6 << 20) {
        big.push_str(&block);
    }
    let texts: Vec<&str> =
        vec!["short doc <s> one", &block, &big, "", "tail doc </s>", &block];
    let docs: Vec<&[u8]> = texts.iter().map(|t| t.as_bytes()).collect();
    let whole = DocFormat::Text { separator: None };
    let added = [("<s>", false, false), ("</s>", false, true), ("<pad>", true, false)];
    for (normalizer, pre_tokenizer, prepend, _) in pipelines() {
        let tok = model(true, &added, normalizer, pre_tokenizer);
        assert!(tok.supports_fragment_split(), "{prepend:?} should take the raw fast path");
        let (ids_ref, lens_ref) = sp_encode_docs_ragged_serial(&tok, &texts);

        let (ids, lens) = sp_encode_docs_ragged(&tok, &texts, 4);
        assert_eq!(lens, lens_ref, "{prepend:?}: lens mismatch (default target)");
        assert_ids_match(&format!("{prepend:?} (default target)"), &ids, &ids_ref);

        let chunks = sp_build_chunks(&tok, &docs, 64 << 10);
        let fragments =
            chunks.iter().filter(|c| matches!(c, EncodeChunk::Fragment { .. })).count();
        assert!(fragments > 50, "{prepend:?}: expected many fragments, got {fragments}");
        let (ids, lens) = sp_encode_chunks(&tok, &docs, &whole, &chunks);
        assert_eq!(lens, lens_ref, "{prepend:?}: lens mismatch (small target)");
        assert_ids_match(&format!("{prepend:?} (small target)"), &ids, &ids_ref);
    }
}

/// Files divide into documents; a separator has to be text.
#[test]
fn sp_files_divide_into_documents() {
    let tok = model(true, &ADDED, Some(prepend_and_replace()), None);
    let files: [&[u8]; 2] = [b"the one--the two--", b"in the end"];
    let format = DocFormat::Text { separator: Some(b"--".to_vec()) };
    let (ids, lens) = sp_encode_files_docs_serial(&tok, &files, &format);
    let texts = ["the one", "the two", "in the end"];
    assert_eq!((ids.clone(), lens.clone()), sp_encode_docs_ragged_serial(&tok, &texts));
    assert_eq!((ids.clone(), lens.clone()), sp_encode_files_docs(&tok, &files, &format, 2));
    for parallel in [true, false] {
        let got = sp_encode_regions_ragged(&tok, &files, &format, 2, parallel);
        assert_eq!(got, Ok((ids.clone(), lens.clone())));
    }
    let bad = DocFormat::Text { separator: Some(vec![0xFF]) };
    assert_eq!(
        sp_encode_regions_ragged(&tok, &files, &bad, 2, true),
        Err(SeparatorNotText)
    );
}

/// Text that is normalized as a whole is not split, and decodes to itself.
#[test]
fn sp_normalized_models_keep_documents_whole() {
    let mut strip = normalizer("Strip");
    strip.strip_left = Some(true);
    strip.strip_right = Some(true);
    let tok = model(true, &[("<s>", false, false)], Some(strip), Some(metaspace("always", true)));
    assert!(!tok.supports_fragment_split());
    let text = "the inner  there  ";
    assert_eq!(tok.decode(&tok.encode_raw(text)), b"the inner  there");
    let big = "the words ".repeat(400_000);
    let texts = [big.as_str(), "<s>the"];
    assert_eq!(
        sp_encode_docs_ragged(&tok, &texts, 1),
        sp_encode_docs_ragged_serial(&tok, &texts)
    );
}

/// What is not UTF-8 decodes to replacement characters.
#[test]
fn sp_decode_replaces_broken_bytes() {
    let tok = model(false, &[], Some(prepend_and_replace()), None);
    let tokens = [TokenId(256), TokenId(257), TokenId(0xE2), TokenId(258), TokenId(9999)];
    assert_eq!(tok.decode(&tokens), "a\u{FFFD}b".as_bytes());
}

/// Fragments at safe cuts encode to the tokens of the whole, one by one.
#[test]
fn fragments_encode_the_whole() {
    let text = block();
    for (normalizer, pre_tokenizer, prepend, _) in pipelines() {
        let tok = model(true, &ADDED, normalizer, pre_tokenizer);
        let ranges = tok.safe_fragment_ranges(&text, 20);
        assert!(ranges.len() > 5);
        assert_eq!(ranges[0].0, 0);
        assert_eq!(ranges[ranges.len() - 1].1, text.len());
        let mut encoder = tok.encoder();
        let mut parts: Vec<TokenId> = Vec::new();
        for (i, &(a, b)) in ranges.iter().enumerate() {
            encoder.encode_raw_fragment_cb(&text[a..b], i == 0, &mut parts);
        }
        assert_eq!(parts, tok.encode_raw(&text), "{prepend:?}");
        assert!(encoder.cache_size() > 0);
    }
}

/// Text without markers decodes to itself, however marks are put before it; a
/// leading space is lost where a mark is put before words only.
#[test]
fn sp_decode_inverts_encode() {
    for (normalizer, pre_tokenizer, _, _) in pipelines() {
        let tok = model(true, &[], normalizer, pre_tokenizer);
        for text in ["the inner there", "a  b \u{e9}t\u{e9}!", "x", "\u{65e5}\u{672c} the, end ", ""] {
            assert_eq!(tok.decode(&tok.encode_raw(text)), text.as_bytes(), "on {text:?}");
        }
    }
    let always = model(true, &[], None, Some(metaspace("always", false)));
    assert_eq!(always.decode(&always.encode_raw(" a")), b"a");
    let unguarded = model(true, &[], Some(prepend_and_replace()), None);
    assert_eq!(unguarded.decode(&unguarded.encode_raw(" a")), b" a");
}

/// Units are cached once, and looked up after that.
#[test]
fn sp_units_are_cached_once() {
    let tok = model(true, &[], Some(prepend_and_replace()), None);
    let mut state = EncodeState::with_budget(None);
    let mut first = Vec::new();
    tok.encode_raw_cb(&mut state, "the inner there", &mut first);
    let size = state.cache_size();
    let stats = state.cache_stats();
    assert_eq!(size, 3);
    let mut second = Vec::new();
    tok.encode_raw_cb(&mut state, "the inner there", &mut second);
    assert_eq!(second, first);
    assert_eq!(state.cache_size(), size);
    assert_eq!(state.cache_stats(), stats);
    // A unit of more than 15 bytes counts its bytes and 48 more.
    tok.encode_raw_cb(&mut state, "inabcdefghijklmnopqr", &mut second);
    assert_eq!(state.cache_size(), size + 1);
    assert_eq!(state.cache_stats().1, stats.1 + 21 + 48);
}
