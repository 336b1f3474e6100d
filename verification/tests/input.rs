//! Documents, formats, lines and counts.
use gigatoken::input::counts::{pretokenize_par_bytes, PretokenCounts};
use gigatoken::input::documents::{chunk_boundaries, par_document_chunks, DocumentIter};
use gigatoken::input::format::{
    chunk_ranges, detect_compression, detect_default_format, Compression, DocFormat,
};
use gigatoken::input::jsonl::{line_document, JsonLinesSlice};
use gigatoken::input::line_counts::pretokenize_jsonl_par;
use gigatoken::input::stream::SeparatorBuffer;

fn collect<'a>(mut it: DocumentIter<'a>) -> Vec<&'a [u8]> {
    let mut out = Vec::new();
    while let Some(doc) = it.next_document() {
        out.push(doc);
    }
    out
}

fn docs<'a>(data: &'a [u8], sep: &'a [u8]) -> Vec<&'a [u8]> {
    collect(DocumentIter::new(data, sep))
}

#[test]
fn test_detect_compression() {
    assert!(matches!(detect_compression("data.jsonl.zst"), ("data.jsonl", Compression::Zstd)));
    assert!(matches!(detect_compression("data.jsonl.zstd"), ("data.jsonl", Compression::Zstd)));
    assert!(matches!(detect_compression("data.txt.gz"), ("data.txt", Compression::Gzip)));
    assert!(matches!(detect_compression("data.jsonl"), ("data.jsonl", Compression::Plain)));
    assert!(matches!(detect_compression("data.txt"), ("data.txt", Compression::Plain)));
}

#[test]
fn test_detect_default_format() {
    for name in ["data.jsonl.zst", "data.jsonl.gz", "data.jsonl"] {
        assert!(matches!(detect_default_format(name), DocFormat::Jsonl { .. }), "{name}");
    }
    assert!(matches!(detect_default_format("rows.parquet"), DocFormat::Parquet { .. }));
    for name in ["data.txt.zst", "data.txt.gz", "data.txt", "data.zst", "data.gz", "data.csv"] {
        assert!(
            matches!(detect_default_format(name), DocFormat::Text { separator: None }),
            "{name}"
        );
    }
    assert!(matches!(detect_compression("data.zst").1, Compression::Zstd));
    assert!(matches!(detect_compression("data.csv").1, Compression::Plain));
}

/// The documents of a stream that is read `cap` bytes at a time.
fn stream_docs(data: &[u8], separator: &[u8], cap: usize) -> Vec<Vec<u8>> {
    let mut buffer = SeparatorBuffer::new(separator);
    let mut out = Vec::new();
    for part in data.chunks(cap) {
        buffer.feed(part);
        while let Some(doc) = buffer.next_document() {
            out.push(doc);
        }
    }
    if let Some(doc) = buffer.finish() {
        out.push(doc);
    }
    out
}

#[test]
fn test_separator_reader() {
    let cases: [(&[u8], &[&[u8]]); 5] = [
        (b"aaa<SEP>bbb<SEP><SEP>ccc", &[b"aaa", b"bbb", b"ccc"]),
        (b"<SEP>hello<SEP>", &[b"hello"]),
        (b"<SEP><SEP>", &[]),
        (b"a<SEP>b<SEP>c", &[b"a", b"b", b"c"]),
        (b"", &[]),
    ];
    // Small reads put separators across reads; large ones hold several.
    for cap in [1, 2, 3, 7, 8192] {
        for (data, want) in cases {
            let docs = stream_docs(data, b"<SEP>", cap);
            assert_eq!(docs, want, "cap {cap}: {:?}", String::from_utf8_lossy(data));
        }
    }
    let docs = stream_docs(b"one document", b"", 8192);
    assert_eq!(docs, [b"one document".to_vec()]);
}

#[test]
fn test_document_iter() {
    assert_eq!(
        docs(b"hello<|endoftext|>world<|endoftext|>foo", b"<|endoftext|>"),
        [b"hello".as_slice(), b"world", b"foo"]
    );
    assert_eq!(docs(b"hello world", b"<|endoftext|>"), [b"hello world".as_slice()]);
    assert_eq!(docs(b"hello world", b""), [b"hello world".as_slice()]);
    assert_eq!(docs(b"a<SEP><SEP>b", b"<SEP>"), [b"a".as_slice(), b"b"]);
    assert_eq!(docs(b"<SEP>hello<SEP>", b"<SEP>"), [b"hello".as_slice()]);
    assert!(docs(b"", b"<SEP>").is_empty());
}

#[test]
fn test_par_document_chunks() {
    let sep = b"<|endoftext|>";
    let parts: Vec<&str> =
        (0..100).map(|i| if i % 10 == 9 { "doc" } else { "word " }).collect();
    let data = parts.join(std::str::from_utf8(sep).unwrap());
    let bytes = data.as_bytes();
    let all_docs: Vec<&[u8]> =
        par_document_chunks(bytes, sep, 4).into_iter().flat_map(collect).collect();
    let single_docs: Vec<&[u8]> = docs(bytes, sep);
    assert_eq!(all_docs, single_docs);

    let chunks = par_document_chunks(b"a<SEP>b<SEP>c", b"<SEP>", 1);
    assert_eq!(chunks.len(), 1);
    let docs: Vec<&[u8]> = chunks.into_iter().flat_map(collect).collect();
    assert_eq!(docs, [b"a".as_slice(), b"b", b"c"]);
}

/// Parts end right after a separator.
#[test]
fn boundaries_follow_separators() {
    assert_eq!(chunk_boundaries(b"aa--bb--cc--dd", b"--", 2), vec![0, 12, 14]);
    assert_eq!(chunk_boundaries(b"aa--bb--cc--dd", b"--", 1), vec![0, 14]);
    assert_eq!(chunk_boundaries(b"aabb", b"--", 3), vec![0, 4]);
    assert_eq!(chunk_boundaries(b"", b"--", 3), vec![0]);
}

/// Where occurrences of the separator overlap, parts may hold other
/// documents than the whole.
#[test]
fn overlapping_separators_divide_parts_otherwise() {
    let parts: Vec<&[u8]> =
        par_document_chunks(b"xaaay", b"aa", 2).into_iter().flat_map(collect).collect();
    assert_eq!(docs(b"xaaay", b"aa"), [b"x".as_slice(), b"ay"]);
    assert_eq!(parts, [b"x".as_slice(), b"a", b"y"]);
}

/// Regions end on document boundaries.
#[test]
fn regions_end_on_boundaries() {
    let text = DocFormat::Text { separator: Some(b"--".to_vec()) };
    assert_eq!(chunk_ranges(b"aa--bb--cc", &text, 3), vec![(0, 6), (8, 10)]);
    assert_eq!(chunk_ranges(b"aa--bb--cc", &text, 100), vec![(0, 10)]);
    let lines = DocFormat::Jsonl { field: "text".to_string() };
    assert_eq!(chunk_ranges(b"11\n22\n33", &lines, 1), vec![(0, 3), (3, 6), (6, 8)]);
    let whole = DocFormat::Text { separator: None };
    assert_eq!(chunk_ranges(b"aa--bb", &whole, 1), vec![(0, 6)]);
    assert_eq!(chunk_ranges(b"", &text, 1), vec![(0, 0)]);
}

/// The texts of a field, line by line, up to a line without it.
#[test]
fn json_lines_give_field_texts() {
    let data = b"{\"text\": \"one\"}\n\n{\"id\": 2, \"text\": \"tw\\u00f6\"}\n{\"id\": 3}\n{\"text\": \"no\"}";
    let mut lines = JsonLinesSlice::new(data, "text");
    assert_eq!(lines.next_document(), Some(b"one".to_vec()));
    assert_eq!(lines.next_document(), Some("tw\u{f6}".as_bytes().to_vec()));
    assert_eq!(lines.next_document(), None);

    assert_eq!(line_document(b"\r\n", "text"), None);
    assert_eq!(line_document(b"{\"text\": \"a\\nb\"}", "text"), Some(Some(b"a\nb".to_vec())));
    assert_eq!(line_document(b"{\"other\": 1}", "text"), Some(None));
    assert_eq!(line_document(b"not json", "text"), Some(None));
}

/// Pretokens are counted over all documents, whatever the parts.
#[test]
fn counts_add_up_over_parts() {
    let text = b"the cat<S>the dog<S>a cat the cat<S>".repeat(20);
    let whole = pretokenize_par_bytes(&text, b"<S>", 1);
    assert_eq!(whole.get(b"the"), 40);
    assert_eq!(whole.get(b" cat"), 60);
    assert_eq!(whole.get(b" the"), 20);
    assert_eq!(whole.get(b" dog"), 20);
    assert_eq!(whole.get(b"bird"), 0);
    let mut expected = whole.entries();
    expected.sort();
    for parts in [2, 3, 7, 64] {
        let mut got = pretokenize_par_bytes(&text, b"<S>", parts).entries();
        got.sort();
        assert_eq!(got, expected, "{parts} parts");
    }

    let mut counts = PretokenCounts::new();
    counts.count_pretokens(b"one two one");
    let mut more = PretokenCounts::new();
    more.count_pretokens(b"one");
    counts.merge_counts(&more);
    assert_eq!(counts.get(b"one"), 2);
    assert_eq!(counts.get(b" two"), 1);
}

/// Texts of lines are counted over all lines, whatever the parts; a line
/// without a text ends its part.
#[test]
fn line_counts_add_up_over_parts() {
    let line = "{\"text\": \"the cat the dog\"}\n";
    let text = line.repeat(30);
    for parts in [1, 2, 5, 40] {
        let counts = pretokenize_jsonl_par(text.as_bytes(), "text", parts);
        assert_eq!(counts.get(b"the"), 30, "{parts} parts");
        assert_eq!(counts.get(b" the"), 30, "{parts} parts");
        assert_eq!(counts.get(b" cat"), 30, "{parts} parts");
    }
    let broken = [line, "{}\n", line].concat();
    assert_eq!(pretokenize_jsonl_par(broken.as_bytes(), "text", 1).get(b"the"), 1);
    assert_eq!(pretokenize_jsonl_par(broken.as_bytes(), "text", 2).get(b"the"), 2);
}
