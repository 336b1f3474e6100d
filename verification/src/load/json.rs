//! The contents of a `tokenizer.json` file.
use crate::sp::charsmap::CharsmapError;
use crate::text::text_equal;
use vstd::prelude::*;
use vstd::utf8::encode_utf8;

verus! {

/// A pattern: a regular expression or a literal text.
pub struct PatternJson {
    pub regex: Option<String>,
    pub literal: Option<String>,
}

/// A normalizer. Which fields are set depends on its type.
pub struct NormalizerJson {
    pub kind: String,
    pub normalizers: Vec<NormalizerJson>,
    pub prepend: Option<String>,
    pub pattern: Option<PatternJson>,
    pub content: Option<String>,
    pub strip_left: Option<bool>,
    pub strip_right: Option<bool>,
    /// A charsmap in base64.
    pub precompiled_charsmap: Option<String>,
}

/// A pre-tokenizer. Which fields are set depends on its type.
pub struct PreTokenizerJson {
    pub kind: String,
    pub pretokenizers: Vec<PreTokenizerJson>,
    pub pattern: Option<PatternJson>,
    pub replacement: Option<String>,
    pub prepend_scheme: Option<String>,
    pub add_prefix_space: Option<bool>,
    pub split: Option<bool>,
    pub behavior: Option<String>,
}

/// An added token.
pub struct AddedTokenJson {
    pub id: u32,
    pub content: String,
    pub lstrip: bool,
    pub rstrip: bool,
    pub normalized: bool,
}

/// The model: vocabulary entries and merges in the order of the file.
pub struct ModelJson {
    pub model_type: String,
    pub vocab: Vec<(String, u32)>,
    pub merges: Vec<(String, String)>,
    pub byte_fallback: bool,
    pub ignore_merges: bool,
}

/// The file.
pub struct TokenizerJson {
    pub model: ModelJson,
    pub added_tokens: Vec<AddedTokenJson>,
    pub pre_tokenizer: Option<PreTokenizerJson>,
    pub normalizer: Option<NormalizerJson>,
}

/// Why a file does not make a tokenizer.
#[derive(Clone, Copy, Debug, PartialEq, Eq, Structural)]
pub enum HfError {
    /// The model is of another family, by its type or by its fields.
    Refused(RefusedFamily),
    /// The file does not have the shape of a tokenizer file.
    Unreadable,
    /// The model is not a BPE model.
    UnsupportedModel,
    /// A model without byte fallback where one with it is wanted.
    NeedsByteFallback,
    /// A model with byte fallback where one without it is wanted.
    HasByteFallback,
    /// The vocabulary has no byte tokens to fall back to.
    NoByteTokens,
    /// No token stands for this byte.
    MissingByte(u8),
    /// More entries than can be numbered or held.
    TooLarge,
    PrependWithoutText,
    ReplaceWithoutContent,
    ReplaceWithoutPattern,
    UnsupportedRegex,
    PrecompiledWithoutCharsmap,
    InvalidBase64,
    InvalidCharsmap(CharsmapError),
    UnsupportedNormalizer,
    UnsupportedReplacement,
    UnsupportedPrependScheme,
    UnsupportedPreTokenizer,
    /// The pre-tokenizer is not byte-level and has no split pattern.
    NoSplitRegex,
    /// No pretokenization scheme has these split patterns.
    UnknownSplitRegexes,
}

/// A model family that is not supported.
#[derive(Clone, Copy, Debug, PartialEq, Eq, Structural)]
pub enum RefusedFamily {
    /// The family that the file names.
    Named,
    /// Unigram, by a field that only Unigram models have.
    UntypedUnigram,
    /// WordPiece, by a field that only WordPiece models have.
    UntypedWordPiece,
}

/// The family of a file that is refused for it, from the model type and
/// whether the fields `unk_id` and `max_input_chars_per_word` are there.
pub open spec fn refused_family_of(
    model_type: Option<Seq<char>>,
    has_unk_id: bool,
    has_max_chars: bool,
) -> Option<RefusedFamily> {
    match model_type {
        Some(t) => if t == "BPE"@ {
            None
        } else {
            Some(RefusedFamily::Named)
        },
        None => if has_unk_id {
            Some(RefusedFamily::UntypedUnigram)
        } else if has_max_chars {
            Some(RefusedFamily::UntypedWordPiece)
        } else {
            None
        },
    }
}

/// The family that a file is refused for. Files without a model type are BPE
/// unless a field tells otherwise.
pub fn refused_family(model_type: Option<&str>, has_unk_id: bool, has_max_chars: bool) -> (r: Option<
    RefusedFamily,
>)
    ensures
        r == refused_family_of(
            match model_type {
                Some(t) => Some(t@),
                None => None,
            },
            has_unk_id,
            has_max_chars,
        ),
{
    match model_type {
        Some(t) => if text_equal(t, "BPE") {
            None
        } else {
            Some(RefusedFamily::Named)
        },
        None => if has_unk_id {
            Some(RefusedFamily::UntypedUnigram)
        } else if has_max_chars {
            Some(RefusedFamily::UntypedWordPiece)
        } else {
            None
        },
    }
}

/// What a first look at the model of a file gives.
pub struct ModelProbe {
    pub model_type: Option<String>,
    pub has_unk_id: bool,
    pub has_max_chars: bool,
}

/// What reading a file gives: a first look at its model, where it has one, and
/// its contents, where it has the shape of a tokenizer file.
pub struct ParsedFile {
    pub probe: Option<ModelProbe>,
    pub contents: Option<TokenizerJson>,
}

/// The family that a first look refuses a file for.
pub open spec fn probe_refuses(file: ParsedFile) -> Option<RefusedFamily> {
    match file.probe {
        Some(p) => refused_family_of(
            match p.model_type {
                Some(t) => Some(t@),
                None => None,
            },
            p.has_unk_id,
            p.has_max_chars,
        ),
        None => None,
    }
}

/// The contents of a file. A model of another family is refused before the
/// shape of the file is looked at.
pub open spec fn parsed_contents(file: ParsedFile) -> Result<TokenizerJson, HfError> {
    match probe_refuses(file) {
        Some(f) => Err(HfError::Refused(f)),
        None => match file.contents {
            Some(tj) => Ok(tj),
            None => Err(HfError::Unreadable),
        },
    }
}

/// The contents of a file, or why it has none.
pub fn parse_tokenizer_json(file: ParsedFile) -> (r: Result<TokenizerJson, HfError>)
    ensures
        r == parsed_contents(file),
{
    let refused = match &file.probe {
        Some(p) => {
            let model_type = match &p.model_type {
                Some(t) => Some(t.as_str()),
                None => None,
            };
            refused_family(model_type, p.has_unk_id, p.has_max_chars)
        },
        None => None,
    };
    match refused {
        Some(f) => Err(HfError::Refused(f)),
        None => match file.contents {
            Some(tj) => Ok(tj),
            None => Err(HfError::Unreadable),
        },
    }
}

/// Where the two parts of a merge that is written as one text divide: at the
/// first space.
pub fn merge_split(text: &str) -> (r: Option<(&str, &str)>)
    ensures
        match r {
            Some((a, b)) => {
                let s = encode_utf8(text@);
                let n = encode_utf8(a@).len() as int;
                &&& n < s.len() && s[n] == 0x20
                &&& forall|i: int| 0 <= i < n ==> #[trigger] s[i] != 0x20
                &&& encode_utf8(a@) == s.take(n)
                &&& encode_utf8(b@) == s.skip(n + 1)
            },
            None => forall|i: int|
                0 <= i < encode_utf8(text@).len() ==> #[trigger] encode_utf8(text@)[i] != 0x20,
        },
{
    let bytes = text.as_bytes();
    let ghost s = bytes@;
    let total: usize = bytes.len();
    match crate::search::find_byte(0x20, bytes) {
        None => None,
        Some(n) => {
            let head = vstd::slice::slice_subrange(bytes, 0, n);
            let tail = vstd::slice::slice_subrange(bytes, n + 1, total);
            proof {
                assert(head@ =~= s.take(n as int));
                assert(tail@ =~= s.skip(n + 1));
                lemma_parts_valid(text@, n as int);
            }
            match (crate::text::utf8_text(head), crate::text::utf8_text(tail)) {
                (Some(a), Some(b)) => Some((a, b)),
                _ => None,
            }
        },
    }
}

proof fn lemma_parts_valid(t: Seq<char>, n: int)
    requires
        0 <= n < encode_utf8(t).len(),
        encode_utf8(t)[n] == 0x20,
    ensures
        vstd::utf8::valid_utf8(encode_utf8(t).take(n)),
        vstd::utf8::valid_utf8(encode_utf8(t).skip(n + 1)),
{
    vstd::utf8::encode_utf8_valid_utf8(t);
    lemma_valid_around(encode_utf8(t), n);
}

/// Valid text divides around an ASCII byte.
proof fn lemma_valid_around(s: Seq<u8>, n: int)
    requires
        vstd::utf8::valid_utf8(s),
        0 <= n < s.len(),
        s[n] < 0x80,
    ensures
        vstd::utf8::valid_utf8(s.take(n)),
        vstd::utf8::valid_utf8(s.skip(n + 1)),
    decreases s.len(),
{
    let k = vstd::utf8::length_of_first_scalar(s);
    let t = vstd::utf8::pop_first_scalar(s);
    assert(t =~= s.skip(k));
    if n == 0 {
        assert(k == 1);
        assert(s.take(0) =~= Seq::<u8>::empty());
    } else {
        assert(n >= k);
        if n == k {
            assert(t.take(0) =~= Seq::<u8>::empty());
        }
        lemma_valid_around(t, n - k);
        assert(t.skip(n - k + 1) =~= s.skip(n + 1));
        let h = s.take(n);
        assert(vstd::utf8::length_of_first_scalar(h) == k);
        assert(vstd::utf8::pop_first_scalar(h) =~= t.take(n - k));
    }
}

} // verus!
