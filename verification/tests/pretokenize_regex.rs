//! Pretokens against the patterns that define the schemes.
use fancy_regex::Regex;
use gigatoken::pretokenize::scheme::PretokenizerType;
use rand::rngs::StdRng;
use rand::seq::IndexedRandom;
use rand::{Rng, SeedableRng};

// Each possessive quantifier of the pattern is relaxed: nothing after it can
// match a character that its class rejected, and `$` only matches at the end.
const CL100K_REF_REGEX: &str =
    r"'(?i:[sdmt]|ll|ve|re)|[^\r\n\p{L}\p{N}]?\p{L}+|\p{N}{1,3}| ?[^\s\p{L}\p{N}]+[\r\n]*|\s+$|\s*[\r\n]|\s+(?!\S)|\s+";

const KIMI_REF_REGEX: &str =
    r"[\p{Han}]+|[^\r\n\p{L}\p{N}]?[\p{Lu}\p{Lt}\p{Lm}\p{Lo}\p{M}&&[^\p{Han}]]*[\p{Ll}\p{Lm}\p{Lo}\p{M}&&[^\p{Han}]]+(?i:'s|'t|'re|'ve|'m|'ll|'d)?|[^\r\n\p{L}\p{N}]?[\p{Lu}\p{Lt}\p{Lm}\p{Lo}\p{M}&&[^\p{Han}]]+[\p{Ll}\p{Lm}\p{Lo}\p{M}&&[^\p{Han}]]*(?i:'s|'t|'re|'ve|'m|'ll|'d)?|\p{N}{1,3}| ?[^\s\p{L}\p{N}]+[\r\n]*|\s*[\r\n]+|\s+(?!\S)|\s+";

const NEMOTRON_REF_REGEX: &str =
    r"[^\r\n\p{L}\p{N}]?[\p{Lu}\p{Lt}\p{Lm}\p{Lo}\p{M}]*[\p{Ll}\p{Lm}\p{Lo}\p{M}]+|[^\r\n\p{L}\p{N}]?[\p{Lu}\p{Lt}\p{Lm}\p{Lo}\p{M}]+[\p{Ll}\p{Lm}\p{Lo}\p{M}]*|\p{N}| ?[^\s\p{L}\p{N}]+[\r\n/]*|\s*[\r\n]+|\s+(?!\S)|\s+";

const O200K_REF_REGEX: &str =
    r"[^\r\n\p{L}\p{N}]?[\p{Lu}\p{Lt}\p{Lm}\p{Lo}\p{M}]*[\p{Ll}\p{Lm}\p{Lo}\p{M}]+(?i:'s|'t|'re|'ve|'m|'ll|'d)?|[^\r\n\p{L}\p{N}]?[\p{Lu}\p{Lt}\p{Lm}\p{Lo}\p{M}]+[\p{Ll}\p{Lm}\p{Lo}\p{M}]*(?i:'s|'t|'re|'ve|'m|'ll|'d)?|\p{N}{1,3}| ?[^\s\p{L}\p{N}]+[\r\n/]*|\s*[\r\n]+|\s+(?!\S)|\s+";

const OLMO3_REF_REGEX: &str =
    r"(?i:'s|'t|'re|'ve|'m|'ll|'d)|[^\r\n\p{L}\p{N}]?\p{L}+|\p{N}{1,3}| ?[^\s\p{L}\p{N}]+[\r\n]*|\s*[\r\n]+|\s+(?!\S)|\s+";

const QWEN2_REF_REGEX: &str =
    r"(?i:'s|'t|'re|'ve|'m|'ll|'d)|[^\r\n\p{L}\p{N}]?\p{L}+|\p{N}| ?[^\s\p{L}\p{N}]+[\r\n]*|\s*[\r\n]+|\s+(?!\S)|\s+";

const QWEN35_REF_REGEX: &str =
    r"(?i:'s|'t|'re|'ve|'m|'ll|'d)|[^\r\n\p{L}\p{N}]?[\p{L}\p{M}]+|\p{N}| ?[^\s\p{L}\p{M}\p{N}]+[\r\n]*|\s*[\r\n]+|\s+(?!\S)|\s+";

const GPT2_REGEX: &str =
    r"'(?:[sdmt]|ll|ve|re)| ?\p{L}+| ?\p{N}+| ?[^\s\p{L}\p{N}]+|\s+(?!\S)|\s+";

/// The tokens that a pattern finds.
fn regex_tokens(re: &Regex, s: &str) -> Vec<String> {
    re.find_iter(s)
        .map(|m| m.unwrap().as_str().to_string())
        .collect()
}

/// The pretokens of a scheme.
fn fast(t: PretokenizerType, s: &str) -> Vec<String> {
    t.pretokenize(s.as_bytes())
        .iter()
        .map(|&(a, b)| s[a..b].to_string())
        .collect()
}

/// Every case has the tokens of the pattern.
fn assert_cases(cases: &[&str], t: PretokenizerType, pattern: &str) {
    let re = Regex::new(pattern).unwrap();
    for case in cases {
        assert_eq!(fast(t, case), regex_tokens(&re, case), "Mismatch on case {case:?}");
    }
}

/// Random characters drawn from `pools` have the tokens of the pattern.
fn assert_random_soup(
    pools: &[&[char]],
    seed: u64,
    rounds: usize,
    t: PretokenizerType,
    pattern: &str,
) {
    let re = Regex::new(pattern).unwrap();
    let mut rng = StdRng::seed_from_u64(seed);
    for round in 0..rounds {
        let len = rng.random_range(1..40);
        let s: String = (0..len)
            .map(|_| {
                let pool = pools.choose(&mut rng).unwrap();
                *pool.choose(&mut rng).unwrap()
            })
            .collect();
        assert_eq!(fast(t, &s), regex_tokens(&re, &s), "Mismatch on round {round}, case {s:?}");
    }
}

/// Small cases of the cl100k family.
const CL100K_FAMILY_CASES: &[&str] = &[
    "hello",
    " hello",
    "hello world",
    "  hello",
    "   hello",
    "\thello",
    "\t\thello",
    "\nhello",
    "\n\nhello",
    "\n\n   hello",
    "!hello",
    "!!hello",
    "?!x",
    "don't",
    "DON'T",
    "they'LL go",
    "it'S he'Ll",
    "we'Ve THEY'RE",
    "'sound",
    "'lx",
    "'hello",
    " 'hello",
    " 's",
    "x'0",
    "123",
    "1234",
    "1234567",
    "12345678901",
    " 123",
    " 1234",
    "  123",
    "3rd",
    "abc1234def",
    "3.14159",
    "hello, world!",
    "hi!\n\ndef",
    "hi !!\n\ndef",
    " !!!",
    "a-b",
    "a - b",
    "...",
    "hello\n",
    "hello \n",
    "hello \nx",
    "hello\n x",
    "hello  \n\n  ",
    "x \n\n ",
    "x  ",
    "x \t",
    "  \n  hello",
    "\r\nhello",
    "a\r\n",
    "a\r\n ",
    "a\n \n",
    "a \n \t",
    "\n\n",
    "\n\n\t",
    "   ",
    " ",
    "",
    "café",
    " café",
    "\u{a0}word",
    "voilà ¡hola!",
    "١٢٣٤٥",
    " ١٢٣٤٥",
    "e\u{301}f",
    "日本語のテキスト",
    " 日本語",
    "1٢3x",
    "1٢34",
    "tab\tsep\tvals",
    "\x0bword",
    "a\u{2028}b",
    "a\u{2028}\n",
    "price: $5.99!",
    "'ſ",
    "it'ſ fine",
    // Marks: `[\p{L}\p{M}]+` runs (Qwen3.5) vs marks as punctuation.
    "cafe\u{301} de\u{301}composed",
    "\u{301}leading mark",
    "\u{301}\u{301}two marks",
    " \u{301}abc",
    "\t\u{301}abc",
    "!\u{301}",
    "!\u{301}!",
    "!!\u{301}x",
    "1\u{301}2",
    "'\u{301}s",
    "देवनागरी में परीक्षण",
    "अंग्रेज़ी",
    "టెస్ట్ తెలుగు",
    "עִבְרִית נִקּוּד",
    "الْعَرَبِيَّة",
    "a\u{20dd}b",
    " \u{20dd}",
    "\u{200b}\u{301}x",
];

/// Small cases of the o200k family.
const O200K_FAMILY_CASES: &[&str] = &[
    "hello",
    "Hello",
    "HELLO",
    "HeLLo",
    "camelCase",
    "PascalCase",
    "HTTPResponse",
    "HTTPresponse",
    "parseHTMLDocument",
    "XMLHttpRequest",
    "aB",
    "aBc",
    "ABc",
    "ABCdef GHIjkl",
    " hello",
    " Hello World",
    "hello world",
    "  hello",
    "\thello",
    "\tHello",
    "\nhello",
    "\n\nHello",
    "!hello",
    "!Hello",
    "!!hello",
    "?!x",
    "don't",
    "DON'T",
    "Don'T",
    "don'ts",
    "can'ts more",
    "they'LL go",
    "it'S he'Ll",
    "we'Ve THEY'RE",
    "x'll'd",
    "don't's",
    "o'clock",
    "don'x",
    "x'lm",
    "x'm'm",
    "'sound",
    "'Sound",
    "'lx",
    "'hello",
    " 'hello",
    " 's",
    " 'S",
    "x'0",
    "3's",
    "3'ts",
    "123",
    "1234",
    "1234567",
    " 123",
    "  123",
    "3rd",
    "abc1234def",
    "hello, world!",
    "hi!\n\ndef",
    "hi !!\n\ndef",
    " !!!",
    "a-b",
    "a - b",
    "...",
    "a/b",
    "a//b",
    "http://x.com/path",
    ".\n//x",
    "!\n/",
    "!\n/\n/x",
    "\n/",
    "//\n/",
    "x/\n",
    "x\n/",
    "hello\n",
    "hello \n",
    "hello \nx",
    "hello\n x",
    "hello  \n\n  ",
    "x \n\n ",
    "x  ",
    "x \t",
    "  \n  hello",
    "\r\nhello",
    "a\r\n",
    "a\r\n ",
    "a\n \n",
    "a \n \t",
    "\n\n",
    "\n\n\t",
    "   ",
    " ",
    "",
    "café",
    "Café",
    "CAFÉ",
    "cafÉ",
    " café",
    "\u{a0}word",
    "voilà ¡hola!",
    "ΑΒΓδε",
    "αβΓΔ",
    "Привет Мир",
    "ПРИВЕТ мир",
    "ẞßẞ",
    "ǅungla ǄUNGLA ǆungla",
    "١٢٣٤٥",
    "1٢3x",
    "١٢٣٤٥٦٧",
    "tab\tsep\tvals",
    "\x0bword",
    "a\u{2028}b",
    "a\u{2028}\n",
    "price: $5.99!",
    "'ſ",
    "x'ſ fine",
    "日本語のテキスト",
    " 日本語",
    "日本語ABC",
    "abc日本語Def",
    "e\u{301}f",
    "cafe\u{301} de\u{301}composed",
    "\u{301}leading mark",
    "\u{301}\u{301}two marks",
    " \u{301}abc",
    "\t\u{301}abc",
    "!\u{301}",
    "!\u{301}!",
    "!!\u{301}x",
    "!!\u{301}X",
    "1\u{301}2",
    "'\u{301}s",
    "A\u{301}B",
    "a\u{301}B",
    "x\u{301}'s",
    "деВНАгарІ",
    "देवनागरी में परीक्षण",
    "עִבְרִית נִקּוּד",
    "الْعَرَبِيَّة",
    "a\u{20dd}b",
    " \u{20dd}",
    "\u{200b}\u{301}x",
    // Han: run splits at script edges, numerals in digit groups,
    // symbols in punct runs, and the `[\r\n]*`-only Kimi tail.
    "中文",
    "中文模型",
    " 中文",
    "  中文",
    "\t中文",
    "\n中文",
    "!中文",
    "中English文",
    "abc中文def",
    "ABC中文",
    "中文ABC",
    "中'se",
    "中's",
    "中'S x",
    "中文's",
    "日本語のテキスト漢字かな",
    "漢字とひらがな",
    "中。文",
    "中，文！",
    "中文123",
    "123中文",
    "1〇2",
    "〇〇",
    "中〇文",
    "1〇〇〇〇",
    "1234〇",
    " 〇",
    "〇1",
    "⼀⼁⼂",
    "!⼀x",
    " ⼀",
    "中⼀文",
    "a⼀b",
    "々中",
    "中々",
    "〆切",
    "㐀㿿",
    "𠀀𠀁",
    "中\u{16FF0}文",
    "!\u{16FF0}",
    "}\n///doc",
    "*/\n/**",
    "`\n//! bindings",
    "path/to/file",
    "中\n文",
    "中\r\n文",
    "中 文",
    "中  文",
    "中\n\n文",
    "。\n中",
    "中。\n\n/x",
];

#[test]
fn cl100k_small_cases() {
    assert_cases(CL100K_FAMILY_CASES, PretokenizerType::GPT4, CL100K_REF_REGEX);
}

#[test]
fn olmo3_small_cases() {
    assert_cases(CL100K_FAMILY_CASES, PretokenizerType::Olmo3, OLMO3_REF_REGEX);
}

#[test]
fn qwen2_small_cases() {
    assert_cases(CL100K_FAMILY_CASES, PretokenizerType::Qwen2, QWEN2_REF_REGEX);
}

#[test]
fn qwen35_small_cases() {
    assert_cases(CL100K_FAMILY_CASES, PretokenizerType::Qwen35, QWEN35_REF_REGEX);
}

#[test]
fn o200k_small_cases() {
    assert_cases(O200K_FAMILY_CASES, PretokenizerType::O200k, O200K_REF_REGEX);
}

#[test]
fn nemotron_small_cases() {
    assert_cases(O200K_FAMILY_CASES, PretokenizerType::Nemotron, NEMOTRON_REF_REGEX);
}

#[test]
fn kimi_small_cases() {
    assert_cases(O200K_FAMILY_CASES, PretokenizerType::Kimi, KIMI_REF_REGEX);
}

#[test]
fn kimi_matches_regex_random() {
    let pools: &[&[char]] = &[
        &['a', 'z', 'é', 'ß', 'ж', 'ا', '한', 'ひ', 'カ'],   // lower/caseless (non-Han)
        &['A', 'Z', 'É', 'Ж', 'Ǆ', 'ǅ'],                  // upper/title
        &['1', '9', '٢', '½', 'Ⅷ', '๕'],                // numbers (non-Han)
        &[' ', '\t', '\n', '\r', '\u{a0}', '\u{2028}'],   // whitespace
        &['\u{301}', '\u{5bf}', '\u{93b}', '\u{20dd}'],   // marks
        &['.', ',', '!', '$', '\'', '«', '¡', '€', '☃', '/'], // punct/symbols
        &['\u{0}', '\u{ad}', '\u{200b}', '\u{e0001}'],    // other (C*)
        &['s', 't', 'm', 'd', 'l', 'v', 'r', 'e', 'S', 'T', 'L'], // suffix letters
        &['中', '文', '日', '本', '語', '々', '〆', '㐀', '𠀀'], // Han letters
        &['〇', '〡', '〢', '㆒'],                          // Han numerals (Nl)
        &['⼀', '⼁', '⺀', '\u{16FF0}'],                   // Han symbols/marks (So/Mc)
    ];
    assert_random_soup(pools, 0x93E3_5EEC, 6000, PretokenizerType::Kimi, KIMI_REF_REGEX);
}

#[test]
fn nemotron_matches_regex_random() {
    let pools: &[&[char]] = &[
        &['a', 'z', 'é', 'ß', 'ж', 'ا', '한', '日'],      // lower/caseless
        &['A', 'Z', 'É', 'Ж', 'Ǆ', 'ǅ'],                  // upper/title
        &['1', '9', '٢', '½', 'Ⅷ', '๕'],                // numbers
        &[' ', '\t', '\n', '\r', '\u{a0}', '\u{2028}'],   // whitespace
        &['\u{301}', '\u{5bf}', '\u{93b}', '\u{20dd}'],   // marks
        &['.', ',', '!', '$', '\'', '«', '¡', '€', '☃', '/'], // punct/symbols
        &['\u{0}', '\u{ad}', '\u{200b}', '\u{e0001}'],    // other (C*)
    ];
    assert_random_soup(pools, 0x93E3_5EEE, 3000, PretokenizerType::Nemotron, NEMOTRON_REF_REGEX);
}

#[test]
fn o200k_matches_regex_random() {
    let pools: &[&[char]] = &[
        &['a', 'z', 'é', 'ß', 'ж', 'ا', '한', '日'],      // lower/caseless
        &['A', 'Z', 'É', 'Ж', 'Ǆ', 'ǅ'],                  // upper/title
        &['1', '9', '٢', '½', 'Ⅷ', '๕'],                // numbers
        &[' ', '\t', '\n', '\r', '\u{a0}', '\u{2028}'],   // whitespace
        &['\u{301}', '\u{5bf}', '\u{93b}', '\u{20dd}'],   // marks
        &['.', ',', '!', '$', '\'', '«', '¡', '€', '☃', '/'], // punct/symbols
        &['\u{0}', '\u{ad}', '\u{200b}', '\u{e0001}'],    // other (C*)
        &['s', 't', 'm', 'd', 'l', 'v', 'r', 'e', 'S', 'T', 'L'], // suffix letters
    ];
    assert_random_soup(pools, 0x93E3_5EED, 3000, PretokenizerType::O200k, O200K_REF_REGEX);
}

#[test]
fn qwen35_matches_regex_random() {
    let pools: &[&[char]] = &[
        &['a', 'Z', 'é', 'ß', 'Ж', 'ا', '한', '日'],      // letters
        &['1', '9', '٢', '½', 'Ⅷ', '๕'],                // numbers
        &[' ', '\t', '\n', '\r', '\u{a0}', '\u{2028}'],   // whitespace
        &['\u{301}', '\u{5bf}', '\u{93b}', '\u{20dd}'],   // marks
        &['.', ',', '!', '$', '\'', '«', '¡', '€', '☃'], // punct/symbols
        &['\u{0}', '\u{ad}', '\u{200b}', '\u{e0001}'],    // other (C*)
    ];
    assert_random_soup(pools, 0x93E3_5EEC, 2000, PretokenizerType::Qwen35, QWEN35_REF_REGEX);
}

/// The GPT-2 scheme on the cases of both families.
#[test]
fn r50k_small_cases() {
    assert_cases(CL100K_FAMILY_CASES, PretokenizerType::GPT2, GPT2_REGEX);
    assert_cases(O200K_FAMILY_CASES, PretokenizerType::GPT2, GPT2_REGEX);
}

/// Generated prose of about `len` bytes: sentences of words in several scripts
/// with contractions, numbers, punctuation, blank lines and indentation.
fn prose(len: usize) -> String {
    const WORDS: &[&str] = &[
        "the", "quick", "Brown", "FOX", "don't", "we'll", "I'VE", "caf\u{e9}", "na\u{ef}ve",
        "\u{43c}\u{438}\u{440}", "\u{65e5}\u{672c}\u{8a9e}", "\u{d55c}\u{ad6d}", "x86_64", "iPhone",
        "e-mail", "1234567", "3.14", "$9.99", "http://a.b/c?d=e", "\u{201c}quoted\u{201d}", "rock'n'roll",
    ];
    const ENDS: &[&str] = &[
        " ", " ", " ", " ", " ", ", ", ". ", "! ", "?\n", ".\n\n", "...\n    ", "  ", " \t", ";\r\n", " (", ") ",
    ];
    let mut rng = StdRng::seed_from_u64(0x05EE_D0F0);
    let mut text = String::new();
    while text.len() < len {
        text.push_str(WORDS.choose(&mut rng).unwrap());
        text.push_str(ENDS.choose(&mut rng).unwrap());
    }
    text
}

/// Long prose has the tokens of the pattern.
fn assert_prose(t: PretokenizerType, pattern: &str) {
    assert_cases(&[prose(200_000).as_str()], t, pattern);
}

#[test]
fn r50k_matches_regex_prose() {
    assert_prose(PretokenizerType::GPT2, GPT2_REGEX);
}

#[test]
fn cl100k_matches_regex_prose() {
    assert_prose(PretokenizerType::GPT4, CL100K_REF_REGEX);
}

#[test]
fn olmo3_matches_regex_prose() {
    assert_prose(PretokenizerType::Olmo3, OLMO3_REF_REGEX);
}

#[test]
fn qwen2_matches_regex_prose() {
    assert_prose(PretokenizerType::Qwen2, QWEN2_REF_REGEX);
}

#[test]
fn qwen35_matches_regex_prose() {
    assert_prose(PretokenizerType::Qwen35, QWEN35_REF_REGEX);
}

#[test]
fn o200k_matches_regex_prose() {
    assert_prose(PretokenizerType::O200k, O200K_REF_REGEX);
}

#[test]
fn nemotron_matches_regex_prose() {
    assert_prose(PretokenizerType::Nemotron, NEMOTRON_REF_REGEX);
}

#[test]
fn kimi_matches_regex_prose() {
    assert_prose(PretokenizerType::Kimi, KIMI_REF_REGEX);
}
