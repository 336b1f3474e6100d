//! Batches of documents and files.
use gigatoken::batch::chunks::{build_doc_chunks, chunk_target_bytes, EncodeChunk};
use gigatoken::batch::encode::{
    encode_chunks_gathered, encode_chunks_gathered_with_cap, encode_into, encode_chunk,
};
use gigatoken::batch::ragged::{
    encode_docs_ragged, encode_docs_ragged_with, encode_files_docs, encode_files_docs_serial,
    encode_regions_ragged,
};
use gigatoken::batch::rows::{assemble_ragged, ChunkTokens, Committer};
use gigatoken::bpe::merge::IdMerges;
use gigatoken::bpe::tiktoken::Tokenizer;
use gigatoken::input::format::DocFormat;
use gigatoken::pretokenize::scheme::PretokenizerType;
use gigatoken::pretokenize::split::safe_split_ranges;
use gigatoken::token::TokenId;

/// One token per byte, so that a chunk out of order or dropped shows.
fn byte_proto() -> Tokenizer {
    let vocab = (0..=u8::MAX).map(|b| vec![b]).collect();
    Tokenizer::new(IdMerges::new(), vocab, None)
}

/// Deterministic text with plenty of places to cut.
fn lcg_text(seed: u64) -> impl FnMut(usize) -> Vec<u8> {
    let mut state = seed;
    move |len| {
        (0..len)
            .map(|_| {
                state = state
                    .wrapping_mul(6364136223846793005)
                    .wrapping_add(1442695040888963407);
                b"abcdefghijklmnopqrstuvwxyz0123456789    "[((state >> 33) % 40) as usize]
            })
            .collect()
    }
}

/// Chunks give what documents give one after the other, with large chunks
/// first or not.
#[test]
fn parallel_ragged_matches_serial() {
    let mut proto = byte_proto();
    let mut text = lcg_text(0x9E3779B97F4A7C15);
    // Documents that group, one that is cut across the head and the tail, and
    // small ones behind it.
    let mut owned: Vec<Vec<u8>> = Vec::new();
    for _ in 0..30 {
        owned.push(text(300 << 10));
    }
    owned.push(text(12 << 20));
    for _ in 0..30 {
        owned.push(text(100 << 10));
    }
    let docs: Vec<&[u8]> = owned.iter().map(|d| d.as_slice()).collect();

    let mut ids_ref: Vec<u32> = Vec::new();
    let mut lens_ref: Vec<usize> = Vec::new();
    let mut serial = proto.fork();
    for doc in &docs {
        encode_into(&mut serial, doc, true, &mut ids_ref, &mut lens_ref);
    }

    for lpt in [true, false] {
        let (flat, lens) = encode_docs_ragged_with(&mut proto, &docs, 4, lpt);
        assert_eq!(lens, lens_ref, "lens mismatch (lpt={lpt})");
        assert!(flat == ids_ref, "ids mismatch (lpt={lpt})");
    }

    let whole = DocFormat::Text { separator: None };
    let (flat, lens) = encode_files_docs_serial(&mut proto, &docs, &whole);
    assert_eq!(lens, lens_ref, "lens mismatch (serial)");
    assert!(flat == ids_ref, "ids mismatch (serial)");
}

/// A gather that is refused, or that outgrows its bound, gives the same.
#[test]
fn gather_fallbacks_match() {
    let mut proto = byte_proto();
    let mut text = lcg_text(0xD1B54A32D192ED03);
    let owned: Vec<Vec<u8>> = (0..20).map(|_| text(1 << 20)).collect();
    let docs: Vec<&[u8]> = owned.iter().map(|d| d.as_slice()).collect();
    let total: usize = docs.iter().map(|d| d.len()).sum();
    let added = proto.added_token_split_blockers();
    let target = chunk_target_bytes(total, 4);
    let chunks = build_doc_chunks(&docs, total, target, &added, true);
    assert!(chunks.len() > 1, "test must exercise the parallel path");

    let whole = DocFormat::Text { separator: None };
    let (flat_ref, lens_ref) = encode_chunks_gathered(&mut proto, &docs, &whole, &chunks, total);
    for cap in [0, 1, total / 3] {
        let (flat, lens) =
            encode_chunks_gathered_with_cap(&mut proto, &docs, &whole, &chunks, cap);
        assert_eq!(lens, lens_ref, "lens mismatch (cap={cap})");
        assert!(flat == flat_ref, "ids mismatch (cap={cap})");
    }
}

#[test]
fn chunk_targets() {
    assert_eq!(chunk_target_bytes(0, 1), 1 << 20);
    assert_eq!(chunk_target_bytes(1 << 30, 4), 1 << 24);
    assert_eq!(chunk_target_bytes(1 << 20, 64), 1 << 20);
}

/// Documents group up to the target; an oversized one is cut.
#[test]
fn documents_group_and_split() {
    let word = b"abc ".repeat(10);
    let big = b"abc ".repeat(100);
    let docs: [&[u8]; 4] = [&word, &word, &big, &word];
    let total: usize = docs.iter().map(|d| d.len()).sum();
    let chunks = build_doc_chunks(&docs, total, 70, &[], false);
    assert_eq!(chunks[0], EncodeChunk::Docs { from: 0, to: 2 });
    assert_eq!(chunks[1], EncodeChunk::Fragment { doc: 2, start: 0, end: 71, first: true });
    assert_eq!(chunks[2], EncodeChunk::Fragment { doc: 2, start: 71, end: 143, first: false });
    assert_eq!(chunks[chunks.len() - 1], EncodeChunk::Docs { from: 3, to: 4 });
    let mut covered = 0;
    for c in &chunks {
        if let EncodeChunk::Fragment { start, end, .. } = c {
            assert_eq!(*start, covered);
            covered = *end;
        }
    }
    assert_eq!(covered, big.len());
}

/// A fragment that is not the first goes on with the row before it.
#[test]
fn fragments_continue_rows() {
    let mut tok = byte_proto();
    let docs: [&[u8]; 1] = [b"ab cd"];
    let whole = DocFormat::Text { separator: None };
    let parts = [
        EncodeChunk::Fragment { doc: 0, start: 0, end: 2, first: true },
        EncodeChunk::Fragment { doc: 0, start: 2, end: 5, first: false },
    ];
    let outs: Vec<ChunkTokens> =
        parts.iter().map(|&c| encode_chunk(&mut tok, &docs, &whole, c)).collect();
    assert!(!outs[0].continues && outs[1].continues);
    let (ids, lens) = assemble_ragged(&outs);
    assert_eq!(ids, vec![97, 98, 32, 99, 100]);
    assert_eq!(lens, vec![5]);
}

/// What is committed early is part of the whole.
#[test]
fn committer_gathers_in_order() {
    let chunk = |ids: &[u32]| ChunkTokens {
        ids: ids.to_vec(),
        lens: vec![ids.len()],
        continues: false,
    };
    assert!(Committer::try_new(0).is_none());
    let mut committer = Committer::try_new(4).unwrap();
    committer.advance(&vec![None, Some(chunk(&[3]))]);
    committer.advance(&vec![Some(chunk(&[1, 2])), Some(chunk(&[3]))]);
    let outs = vec![chunk(&[1, 2]), chunk(&[3])];
    assert_eq!(committer.finish(&outs), Some(vec![1, 2, 3]));
    let small = Committer::try_new(2).unwrap();
    assert_eq!(small.finish(&outs), None);
}

/// Files divide into documents by their format.
#[test]
fn files_divide_into_documents() {
    let mut tok = byte_proto();
    let files: [&[u8]; 2] = [b"ab--c----de", b"--f"];
    let separated = DocFormat::Text { separator: Some(b"--".to_vec()) };
    let expected = (b"abcdef".iter().map(|&b| b as u32).collect::<Vec<u32>>(), vec![2, 1, 2, 1]);
    assert_eq!(encode_files_docs(&mut tok, &files, &separated, 2), expected);
    assert_eq!(encode_files_docs_serial(&mut tok, &files, &separated), expected);

    let whole = DocFormat::Text { separator: None };
    assert_eq!(encode_files_docs(&mut tok, &files, &whole, 2).1, vec![11, 3]);
    assert_eq!(encode_docs_ragged(&mut tok, &files, 2).1, vec![11, 3]);

    let lines: [&[u8]; 1] = [b"{\"text\": \"ab\"}\n{\"text\": \"\"}\n{\"text\": \"c\"}\n"];
    let jsonl = DocFormat::Jsonl { field: "text".to_string() };
    for parallel in [true, false] {
        let got = encode_regions_ragged(&mut tok, &lines, &jsonl, 2, parallel);
        assert_eq!(got, (vec![97, 98, 99], vec![2, 0, 1]));
    }
}

/// Words with `special` and `sep` between them now and then.
fn lcg_words(special: &[u8], sep: &[u8], period: usize) -> Vec<u8> {
    let mut rng = 0x9e3779b97f4a7c15u64;
    let mut next = move || {
        rng = rng
            .wrapping_mul(6364136223846793005)
            .wrapping_add(1442695040888963407);
        (rng >> 33) as usize
    };
    let words: [&[u8]; 5] = [b"alpha ", b"be ", b"gamma7 ", b"x ", b"delta "];
    let mut input = Vec::new();
    for _ in 0..4000 {
        input.extend_from_slice(words[next() % words.len()]);
        if next() % period == 0 {
            input.extend_from_slice(special);
            input.extend_from_slice(sep);
        }
    }
    input
}

/// No boundary cuts an occurrence of an added token.
#[test]
fn test_safe_split_ranges_avoids_added_tokens() {
    let special: &[u8] = b"<|multi word special|>";
    let input = lcg_words(special, b"", 9);

    let ranges = safe_split_ranges(&input, 300, &[(special.to_vec(), false)]);
    assert!(ranges.len() > 50, "expected many splits, got {}", ranges.len());
    assert_eq!(ranges.first().unwrap().start, 0);
    assert_eq!(ranges.last().unwrap().end, input.len());
    for w in ranges.windows(2) {
        assert_eq!(w[0].end, w[1].start);
    }

    let occurrences: Vec<usize> = (0..input.len() - special.len())
        .filter(|&i| &input[i..i + special.len()] == special)
        .collect();
    assert!(!occurrences.is_empty());
    let cuts_occurrence =
        |p: usize| occurrences.iter().any(|&s| s < p && s + special.len() > p);
    for r in &ranges[1..] {
        assert!(!cuts_occurrence(r.start), "boundary {} cuts an occurrence", r.start);
    }

    // Without the token, some boundary lands inside an occurrence.
    let unaware = safe_split_ranges(&input, 300, &[]);
    assert!(
        unaware[1..].iter().any(|r| cuts_occurrence(r.start)),
        "test input never places a naive boundary inside the special token"
    );
}

/// No boundary follows an added token that takes the whitespace after it.
#[test]
fn test_safe_split_ranges_avoids_rstrip_token_ends() {
    let special: &[u8] = b"TOK1";
    let input = lcg_words(special, b" ", 6);
    let ends_at = |p: usize| p >= special.len() && &input[p - special.len()..p] == special;

    let ranges = safe_split_ranges(&input, 200, &[(special.to_vec(), true)]);
    assert!(ranges.len() > 50, "expected many splits, got {}", ranges.len());
    for r in &ranges[1..] {
        assert!(!ends_at(r.start), "boundary {} follows an rstrip token", r.start);
    }

    // Without the flag, some boundary lands right after an occurrence.
    let unaware = safe_split_ranges(&input, 200, &[(special.to_vec(), false)]);
    assert!(
        unaware[1..].iter().any(|r| ends_at(r.start)),
        "test input never places a naive boundary after the rstrip token"
    );
}

/// Under every scheme, ranges have the pretokens of the whole.
#[test]
fn split_ranges_keep_pretokens() {
    let mut input = lcg_words("caf\u{e9} \u{65e5}\u{672c} don't 12345".as_bytes(), b" \n ", 5);
    input.truncate(input.len() - 1);
    let ranges = safe_split_ranges(&input, 100, &[]);
    assert!(ranges.len() > 100, "expected many splits, got {}", ranges.len());
    for scheme in [
        PretokenizerType::GPT2,
        PretokenizerType::GPT4,
        PretokenizerType::Qwen2,
        PretokenizerType::Qwen35,
        PretokenizerType::Olmo3,
        PretokenizerType::O200k,
        PretokenizerType::Nemotron,
        PretokenizerType::Kimi,
    ] {
        let whole = scheme.pretokenize(&input);
        let split: Vec<(usize, usize)> = ranges
            .iter()
            .flat_map(|r| {
                let spans = scheme.pretokenize(&input[r.clone()]);
                spans.into_iter().map(move |(a, b)| (a + r.start, b + r.start))
            })
            .collect();
        assert_eq!(whole, split, "scheme {scheme:?} differs across safe splits");
    }
}

/// A cut character at a range's end changes what comes before it.
#[test]
fn split_ranges_need_whole_characters() {
    let input = [0xE2, b'a', b' ', b'b'];
    let ranges = safe_split_ranges(&input, 1, &[]);
    assert_eq!(ranges, vec![0..2, 2..4]);
    let whole = PretokenizerType::GPT2.pretokenize(&input);
    assert!(!whole.iter().any(|&(_, b)| b == 2));
}

/// Encoding the ranges of a text one by one gives what the text gives.
#[test]
fn ranges_encode_the_whole() {
    let mut tok = byte_proto();
    tok.add_special_tokens(vec![
        (b"<|multi word special|>".to_vec(), TokenId(300)),
        (b"gamma7".to_vec(), TokenId(301)),
    ]);
    let input = lcg_words(b"<|multi word special|>", b"", 9);
    let mut whole = Vec::new();
    tok.encode_with_added_tokens_flat(&input, &mut whole);
    assert!(whole.contains(&300) && whole.contains(&301));
    let blockers = tok.added_token_split_blockers();
    let mut parts = Vec::new();
    for r in safe_split_ranges(&input, 200, &blockers) {
        tok.encode_with_added_tokens_flat(&input[r], &mut parts);
    }
    assert_eq!(parts, whole);
}

/// The same for a tokenizer that normalizes, on text that is normalized, with
/// the text itself as the outcome of decoding; other text decodes to its
/// normalization form C.
#[test]
fn normalized_ranges_encode_the_whole() {
    let mut tok = byte_proto();
    tok.set_normalize_nfc(true);
    let input = lcg_words("caf\u{e9} \u{65e5}\u{672c} \u{c5}ngstr\u{f6}m".as_bytes(), b" ", 5);
    let mut whole = Vec::new();
    tok.encode_with_added_tokens_flat(&input, &mut whole);
    let mut parts = Vec::new();
    for r in safe_split_ranges(&input, 200, &[]) {
        tok.encode_with_added_tokens_flat(&input[r], &mut parts);
    }
    assert_eq!(parts, whole);
    let ids = |v: &[u32]| -> Vec<TokenId> { v.iter().map(|&t| TokenId(t)).collect() };
    assert_eq!(tok.decode(&ids(&whole)), input);
    // Text that is not normalized yet is cut like any other.
    let input = lcg_words("cafe\u{301} A\u{30a}ngstro\u{308}m \u{1100}\u{1161}".as_bytes(), b" ", 3);
    let ranges = safe_split_ranges(&input, 150, &[]);
    assert!(ranges.len() > 3);
    let mut whole = Vec::new();
    tok.encode_with_added_tokens_flat(&input, &mut whole);
    let mut parts = Vec::new();
    for r in ranges {
        tok.encode_with_added_tokens_flat(&input[r], &mut parts);
    }
    assert_eq!(parts, whole);
    assert_ne!(tok.decode(&ids(&whole)), input);
    let mut out = Vec::new();
    tok.encode_with_added_tokens_flat("cafe\u{301} A\u{30a}".as_bytes(), &mut out);
    assert_eq!(tok.decode(&ids(&out)), "caf\u{e9} \u{c5}".as_bytes());
}

/// Added tokens of any bytes do not change what ranges encode to, as long as
/// they end with a character.
#[test]
fn ranges_encode_the_whole_with_byte_tokens() {
    let mut tok = byte_proto();
    // The last two bytes of U+20AC with what follows, and a lone byte.
    tok.add_special_tokens(vec![
        (vec![0x82, 0xAC, b'x'], TokenId(300)),
        (vec![0xFF], TokenId(301)),
    ]);
    let input = lcg_words("\u{20ac}x caf\u{e9}".as_bytes(), b" ", 4);
    let blockers: Vec<(Vec<u8>, bool)> =
        vec![(vec![0x82, 0xAC, b'x'], false), (vec![0xFF], false)];
    let ranges = safe_split_ranges(&input, 120, &blockers);
    assert!(ranges.len() > 3);
    let mut whole = Vec::new();
    tok.encode_with_added_tokens_flat(&input, &mut whole);
    assert!(whole.contains(&300));
    let mut parts = Vec::new();
    for r in ranges {
        tok.encode_with_added_tokens_flat(&input[r], &mut parts);
    }
    assert_eq!(parts, whole);
}

/// The total only decides how large the first chunks are.
#[test]
fn chunks_of_any_total() {
    let docs: Vec<&[u8]> = vec![b"one", b"two", b"three"];
    for total in [0, 11, 1 << 20] {
        let chunks = build_doc_chunks(&docs, total, 4, &[], true);
        assert!(!chunks.is_empty());
    }
}
