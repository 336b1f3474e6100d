//! The mask scanner and the batches of keyed spans.
use gigatoken::pretokenize::batches::batch_masks;
use gigatoken::pretokenize::keys::{
    pack_pretoken_key, pretoken_key_hash, PretokenSpans, Pretokens, SpanBatch, SpanIter,
    PRETOKEN_CHUNK,
};
use gigatoken::pretokenize::mask::MaskState;
use gigatoken::pretokenize::r50k;
use gigatoken::pretokenize::scheme::{advance, PretokenizerType};

const ALL_SCHEMES: [PretokenizerType; 8] = [
    PretokenizerType::GPT2,
    PretokenizerType::GPT4,
    PretokenizerType::Qwen2,
    PretokenizerType::Qwen35,
    PretokenizerType::Olmo3,
    PretokenizerType::O200k,
    PretokenizerType::Nemotron,
    PretokenizerType::Kimi,
];

fn scalar_tokens(t: PretokenizerType, bytes: &[u8]) -> Vec<Vec<u8>> {
    let mut pos = 0;
    let mut out = vec![];
    while pos < bytes.len() {
        let e = advance(t, bytes, pos);
        out.push(bytes[pos..e].to_vec());
        pos = e;
    }
    out
}

fn mask_tokens(t: PretokenizerType, bytes: &[u8]) -> Vec<Vec<u8>> {
    let mut st = MaskState::new(0);
    let mut out = vec![];
    while let Some((s, e)) = st.next_span(t, bytes) {
        out.push(bytes[s..e].to_vec());
    }
    out
}

/// The mask scanner gives the tokens of the walk from token to token.
fn check_scalar_vs_mask(t: PretokenizerType, buf: &[u8]) {
    let a = scalar_tokens(t, buf);
    let b = mask_tokens(t, buf);
    if a != b {
        let i = a.iter().zip(&b).take_while(|(x, y)| x == y).count();
        panic!(
            "{t:?} diverged at token {i} on {:?}\n  scalar: {:?}\n  mask:   {:?}",
            String::from_utf8_lossy(buf),
            a.get(i).map(|t| String::from_utf8_lossy(t).into_owned()),
            b.get(i).map(|t| String::from_utf8_lossy(t).into_owned()),
        );
    }
}

fn check_all(buf: &[u8]) {
    check_scalar_vs_mask(PretokenizerType::Olmo3, buf);
    check_scalar_vs_mask(PretokenizerType::GPT4, buf);
    check_scalar_vs_mask(PretokenizerType::Qwen2, buf);
    check_scalar_vs_mask(PretokenizerType::Qwen35, buf);
}

fn xorshift(mut state: u64) -> impl FnMut() -> u64 {
    move || {
        state ^= state << 13;
        state ^= state >> 7;
        state ^= state << 17;
        state
    }
}

/// Random pieces, at least `target` bytes of them.
fn soup(pieces: &[&str], target: usize, rng: &mut impl FnMut() -> u64) -> Vec<u8> {
    let mut buf = Vec::new();
    while buf.len() < target {
        buf.extend_from_slice(pieces[(rng() % pieces.len() as u64) as usize].as_bytes());
    }
    buf
}

/// Batches hold the tokens of the scheme, with their keys and hashes.
fn check_source(mut src: impl PretokenSpans, t: PretokenizerType, bytes: &[u8]) {
    let expected = scalar_tokens(t, bytes);
    let mut got: Vec<Vec<u8>> = Vec::new();
    let mut batch = SpanBatch::new();
    loop {
        let n = src.fill_spans_keyed(&mut batch);
        for i in 0..n {
            let (start, len) = batch.span(i);
            let span = &bytes[start..start + len as usize];
            let (want_key, want_hash) = match pack_pretoken_key(span) {
                Some(key) => (key, pretoken_key_hash(key)),
                None => (0, 0),
            };
            let e = &batch.entries[i];
            assert_eq!(e.key, want_key, "{t:?}: bad key for {span:?}");
            let want_meta = if want_key != 0 { want_hash } else { span.len() as u64 };
            assert_eq!(e.meta, want_meta, "{t:?}: bad meta for {span:?}");
            got.push(span.to_vec());
        }
        if n < PRETOKEN_CHUNK {
            break;
        }
    }
    assert_eq!(got.len(), expected.len(), "{t:?}: span count mismatch");
    for (i, (g, e)) in got.iter().zip(&expected).enumerate() {
        assert_eq!(g, e, "{t:?}: span {i} diverged");
    }
}

#[test]
fn family_classifier_engages_on_ascii() {
    let text = b"The quick brown fox jumps over the lazy dog while 42 geese watch on quietly";
    let (usable, bad) = batch_masks(PretokenizerType::GPT4, text, 0);
    assert_eq!(bad, 0, "plain ASCII must produce no bad zones");
    assert!(usable.count_ones() >= 10, "classifier found too few boundaries");
}

#[test]
fn batch_classifier_engages_on_ascii() {
    let text = b"The quick brown fox jumps over the lazy dog while 42 geese watch on quietly";
    let (usable, bad) = batch_masks(PretokenizerType::GPT2, text, 0);
    assert_eq!(bad, 0, "plain ASCII must produce no bad zones");
    let mut starts = vec![];
    let mut p = 0;
    while p < text.len() {
        starts.push(p);
        p = r50k::advance_pos(text, p);
    }
    for i in 0..64usize {
        if usable >> i & 1 == 1 {
            assert!(starts.contains(&i), "usable bit {i} is not a token start");
        }
    }
    assert!(usable.count_ones() >= 10, "classifier found too few boundaries");
}

#[test]
fn family_mask_matches_scalar_padded_cases() {
    let pad = "The quick brown fox jumps over the lazy dog again and again. ";
    let cases = [
        "January 24, 2015 and 12345678 numbers 1 22 333 4444",
        "don't DON'T they'Ll 'sound 'lx x'y '' ' \u{2019}s",
        "!hello !!hello ?!x a-b ... !!!\n\nnext",
        "tabs\tand\nnewlines\r\n mixed  \n  runs \n\n\n deep",
        "hi!\n\ndef hi !!\n\nabc \"quoted\" (paren)",
        "caf\u{e9} r\u{e9}sum\u{e9} \u{201c}word\u{201d} \u{2014}dash\u{2013} \u{00a0}nbsp",
        "\u{2003}em \u{2009}thin\u{2028}ls x\u{e9}\u{e9}y",
        "price: $5.99! 100,000.00 3.14159 2nd 3rd 4th",
        "a\u{2028}b a\u{2028}\n \n\n\t x \n\n ",
        "mixed 1\u{662}3x \u{661}\u{662}\u{663} arabic",
    ];
    for case in cases {
        for lead in [0usize, 1, 37, 63, 64, 65] {
            let mut buf = pad.as_bytes().repeat(4)[..pad.len() * 2 + lead].to_vec();
            buf.extend_from_slice(case.as_bytes());
            buf.extend_from_slice(pad.as_bytes());
            buf.extend_from_slice(case.as_bytes());
            check_all(&buf);
        }
    }
}

#[test]
fn family_straddling_digit_char_phase() {
    for lead in 100..200usize {
        let mut buf = vec![b'a'; lead];
        buf.extend_from_slice("\u{662}1234".as_bytes());
        buf.extend_from_slice(&vec![b'a'; 262 - 6 - lead][..]);
        check_all(&buf);
    }
}

#[test]
fn family_mask_matches_scalar_fuzz() {
    let pieces: &[&str] = &[
        "a", "B", "z", "9", "0", " ", "  ", "\n", "\t", "\r\n", "\r", "'", "'s", "'LL",
        "!", ".", ",", "(", "é", "ß", "日", "🎉", "\u{00A0}", "\u{2003}", "word", "12",
        "1234", "’", "“", "”", "–", "—", "…", "\u{2009}", "\u{200B}", "\u{2028}",
        "\u{202F}", "×", "÷", "«", "µ", "café", "éé", "naïve", "Α", "а", "\n\n", "!x",
        "\tx", " x", "?!", "\u{301}", "ſ", "'ſ", "'\u{301}", "\u{661}\u{662}",
        "\u{FF11}", "क", "\u{940}", "\u{1D54F}", "€", "™", "…\u{2028}",
    ];
    let mut rng = xorshift(0x243F6A8885A308D3);
    for round in 0..3000 {
        check_all(&soup(pieces, 80 + (round % 400), &mut rng));
    }
}

#[test]
fn mask_iter_matches_shipped_edge_cases() {
    let cases: Vec<Vec<u8>> = vec![
        b"".to_vec(),
        b" ".to_vec(),
        b"a".to_vec(),
        b"hello world".to_vec(),
        b"  double  spaces  ".to_vec(),
        b"a\n\nb".to_vec(),
        b"a \n b".to_vec(),
        b"tabs\tand\nnewlines\r\n end".to_vec(),
        b"don't can't we'll they've you're I'm he's 'tis 'twas".to_vec(),
        b"DON'T CAN'T 'S 'LL".to_vec(),
        b"x'y z' 'a '' ' ".to_vec(),
        b"3.14 100,000 2nd a1b2".to_vec(),
        b"!!! ?! #hashtag @user (paren) [brack]".to_vec(),
        "café résumé naïve".as_bytes().to_vec(),
        "日本語のテキスト and English".as_bytes().to_vec(),
        "space\u{00A0}nbsp \u{00A0} runs".as_bytes().to_vec(),
        "emoji 🎉🎊 mix".as_bytes().to_vec(),
        "µ§±².5 ×÷".as_bytes().to_vec(),
        b"ws at end   ".to_vec(),
        b"   ws at start".to_vec(),
        // Exactly chunk-sized and chunk-straddling patterns.
        b"abcdefghijklmnop".to_vec(),
        b"abcdefghijklmno ".to_vec(),
        b"abcdefghijklmn 'll xyz".to_vec(),
        b"aaaaaaaaaaaaaaaaaaaaaaaaaaaaaaaaaaaaaaaaaaaaaaaa".to_vec(),
        b"a b c d e f g h i j k l m n o p q r s t u v w x".to_vec(),
        [b"word ".repeat(10), b"\xE2\x80\x82ws".to_vec()].concat(),
    ];
    for case in &cases {
        check_scalar_vs_mask(PretokenizerType::GPT2, case);
    }
}

#[test]
fn mask_iter_matches_shipped_fuzz() {
    let pieces: &[&str] = &[
        "a", "B", "z", "9", "0", " ", "  ", "\n", "\t", "\r\n", "'", "'s", "'ll", "'re",
        "!", ".", ",", "(", "é", "ß", "日", "🎉", "\u{00A0}", "\u{2003}", "word", "12",
        "’", "’s", "“", "”", "–", "—", "…", "\u{2009}", "\u{200B}", "\u{2028}",
        "\u{202F}", "×", "÷", "«", "µ", "café", "éé", "naïve", "Α", "а", "ſ", "'ſ",
        "\u{661}\u{662}", "\u{FF11}", "क", "\u{940}", "\u{1D54F}", "€", "™", "\u{301}",
    ];
    let mut rng = xorshift(0x243F6A8885A308D3);
    for round in 0..4000 {
        let buf = soup(pieces, (round % 200) + 1, &mut rng);
        check_scalar_vs_mask(PretokenizerType::GPT2, &buf);
    }
}

#[test]
fn fill_spans_keyed_matches_iterator_all_schemes() {
    let pieces: &[&str] = &[
        "word", " word", "12", " 345678", "'ll", "'s", " ", "  ", "\n", "\r\n", "\t",
        "!", " ?!", "(", "caf\u{e9}", "\u{65e5}\u{672c}", "\u{1F389}", "\u{00A0}",
        "\u{2003}", "a", " I", "don't", "one two three four five", "\u{4e2d}\u{6587}",
        "\u{30ab}\u{30bf}", "123456", " longpretokenword", "supercalifragilistic",
    ];
    let mut state = 0x9E3779B97F4A7C15u64;
    let mut rng = move || {
        state ^= state << 13;
        state ^= state >> 7;
        state ^= state << 17;
        state
    };
    for round in 0..60 {
        // Vary length so end-of-input lands at many chunk offsets.
        let target = 40 + round * 97;
        let mut buf = Vec::new();
        while buf.len() < target {
            buf.extend_from_slice(pieces[(rng() % pieces.len() as u64) as usize].as_bytes());
        }
        let b: &[u8] = &buf;
        for t in ALL_SCHEMES {
            check_source(Pretokens::new(t, b), t, b);
        }
        let spans = PretokenizerType::GPT2.pretokenize(b);
        check_source(SpanIter::new(b, spans), PretokenizerType::GPT2, b);
    }
}

#[test]
fn fill_spans_keyed_long_runs_all_schemes() {
    let mut cases: Vec<Vec<u8>> = Vec::new();
    // > 64 KB letter run between ordinary words.
    let mut v = b"intro words ".to_vec();
    v.extend(std::iter::repeat_n(b'a', 70_000));
    v.extend_from_slice(b" tail words");
    cases.push(v);
    // > 64 KB space run: boundaries only at the run's edges.
    let mut v = b"x".to_vec();
    v.extend(std::iter::repeat_n(b' ', 70_000));
    v.extend_from_slice(b"y z");
    cases.push(v);
    // > 64 KB of 3-byte unicode whitespace: batch-edge straddles make
    // bad zones, and the scalar walk overruns the whole run.
    let mut v = b"hello world ".repeat(4);
    for _ in 0..25_000 {
        v.extend_from_slice("\u{2003}".as_bytes());
    }
    v.extend_from_slice(b"end");
    cases.push(v);
    // Monster token flush at end of input.
    cases.push(std::iter::repeat_n(b'a', 70_000).collect());
    // Single-byte token alternation (64 boundaries per batch), then a
    // digit run some schemes split every 3 chars.
    let mut v = b"a1".repeat(2_000);
    v.extend(std::iter::repeat_n(b'7', 40_000));
    v.extend_from_slice(b" end");
    cases.push(v);
    for case in &cases {
        for t in ALL_SCHEMES {
            check_source(Pretokens::new(t, case), t, case);
        }
    }
}


/// Batch pulls and single pulls give the tokens of the scheme on any bytes, and
/// go on from each other.
#[test]
fn pulls_agree_on_any_bytes() {
    let mut rng = xorshift(0x1357_9BDF_0246_8ACE);
    for round in 0..40usize {
        let mut buf = soup(&["word ", "12", "caf\u{e9}", "  ", "'s", "\u{2003}"], 200 + 60 * round, &mut rng);
        // Stray continuation bytes, lone leads and cut characters.
        for _ in 0..round {
            let at = (rng() % buf.len() as u64) as usize;
            buf[at] = [0x80, 0xBF, 0xC3, 0xE2, 0xF0, 0xFF, 0x20][(rng() % 7) as usize];
        }
        for t in ALL_SCHEMES {
            let expected = scalar_tokens(t, &buf);
            check_scalar_vs_mask(t, &buf);
            check_source(Pretokens::new(t, &buf), t, &buf);
            let mut st = MaskState::new(0);
            let mut batch = SpanBatch::new();
            let mut got: Vec<Vec<u8>> = Vec::new();
            while let Some((a, b)) = st.next_span(t, &buf) {
                got.push(buf[a..b].to_vec());
                if rng() % 16 == 0 {
                    let n = st.fill_spans_two_phase(t, &buf, &mut batch);
                    for i in 0..n {
                        let (start, len) = batch.span(i);
                        got.push(buf[start..start + len as usize].to_vec());
                    }
                }
            }
            assert_eq!(got, expected, "{t:?} on {buf:?}");
        }
    }
}

/// The masks decide text beyond ASCII: only numbers, whitespace at the edges
/// and what hangs on them are left open.
#[test]
fn family_masks_decide_beyond_ascii() {
    let text = "caf\u{e9} \u{65e5}\u{672c}\u{8a9e} \u{3b1}\u{3b2}\u{3b3}. ".repeat(8);
    let (usable, bad) = batch_masks(PretokenizerType::GPT4, text.as_bytes(), 0);
    assert_eq!(bad, 0);
    assert_ne!(usable, 0);
    // A number beyond ASCII leaves its bytes open, and those next to it.
    let text = format!("abc \u{664} {}", "def ".repeat(40));
    let (_, bad) = batch_masks(PretokenizerType::GPT4, text.as_bytes(), 0);
    assert_eq!(bad, 0b111_1000);
}
