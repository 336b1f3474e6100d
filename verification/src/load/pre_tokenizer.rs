//! What the pre-tokenizer and the normalizer of a file ask for.
use crate::load::json::{HfError, NormalizerJson, PatternJson, PreTokenizerJson};
use crate::pretokenize::scheme::{split_scheme, PretokenizerType};
use crate::search::{bytes_equal, find_byte};
use crate::sp::normalize::{step_views, Metaspace, NormOp, NormStep, PrependScheme};
use crate::text::{text_equal, text_views};
use vstd::prelude::*;

verus! {

/// The marking of spaces that a `Metaspace` pre-tokenizer asks for.
pub open spec fn metaspace_of(pt: PreTokenizerJson) -> Result<Metaspace, HfError> {
    let split = pt.split != Some(false);
    if pt.replacement matches Some(r) && r@ != "\u{2581}"@ {
        Err(HfError::UnsupportedReplacement)
    } else {
        match pt.prepend_scheme {
            Some(scheme) => if scheme@ == "never"@ {
                Ok(Metaspace { prepend: PrependScheme::Never, split })
            } else if scheme@ == "always"@ {
                Ok(Metaspace { prepend: PrependScheme::Always, split })
            } else if scheme@ == "first"@ {
                Ok(Metaspace { prepend: PrependScheme::First, split })
            } else {
                Err(HfError::UnsupportedPrependScheme)
            },
            None => if pt.add_prefix_space == Some(false) {
                Ok(Metaspace { prepend: PrependScheme::Never, split })
            } else {
                Ok(Metaspace { prepend: PrependScheme::Always, split })
            },
        }
    }
}

/// The marking of spaces that a `Metaspace` pre-tokenizer asks for.
pub fn from_metaspace(pt: &PreTokenizerJson) -> (r: Result<Metaspace, HfError>)
    ensures
        r == metaspace_of(*pt),
{
    let mark_ok = match &pt.replacement {
        Some(m) => text_equal(m.as_str(), "\u{2581}"),
        None => true,
    };
    if !mark_ok {
        return Err(HfError::UnsupportedReplacement);
    }
    let prepend = match &pt.prepend_scheme {
        Some(scheme) => if text_equal(scheme.as_str(), "never") {
            PrependScheme::Never
        } else if text_equal(scheme.as_str(), "always") {
            PrependScheme::Always
        } else if text_equal(scheme.as_str(), "first") {
            PrependScheme::First
        } else {
            return Err(HfError::UnsupportedPrependScheme);
        },
        None => match pt.add_prefix_space {
            Some(false) => PrependScheme::Never,
            _ => PrependScheme::Always,
        },
    };
    Ok(Metaspace { prepend, split: pt.split.unwrap_or(true) })
}

/// Some step replaces every space by a text without spaces.
pub open spec fn replaces_spaces(steps: Seq<NormStep>) -> bool {
    exists|i: int|
        0 <= i < steps.len() && ((#[trigger] steps[i]) matches NormStep::Replace(p, c) && p
            == seq![0x20u8] && !c.contains(0x20))
}

/// Whether some step replaces every space by a text without spaces.
fn has_space_replace(ops: &Vec<NormOp>) -> (r: bool)
    ensures
        r == replaces_spaces(step_views(ops@)),
{
    let mut i: usize = 0;
    while i < ops.len()
        invariant
            i <= ops@.len(),
            forall|j: int|
                0 <= j < i ==> !((#[trigger] step_views(ops@)[j]) matches NormStep::Replace(p, c)
                    && p == seq![0x20u8] && !c.contains(0x20)),
        decreases ops@.len() - i,
    {
        proof {
            assert(step_views(ops@)[i as int] == ops@[i as int]@);
        }
        match &ops[i] {
            NormOp::Replace { pattern, content } => {
                let space: [u8; 1] = [0x20];
                let space_bytes: &[u8] = &space;
                proof {
                    assert(space_bytes@ =~= seq![0x20u8]);
                }
                if bytes_equal(pattern.as_str().as_bytes(), space_bytes) && find_byte(
                    0x20,
                    content.as_str().as_bytes(),
                ).is_none() {
                    return true;
                }
            },
            _ => {},
        }
        i += 1;
    }
    false
}

/// A split at each space that joins it to what stands before.
pub open spec fn splits_at_spaces(pt: PreTokenizerJson) -> bool {
    &&& pt.pattern matches Some(p) && p.literal matches Some(l) && l@ == " "@
    &&& pt.behavior matches Some(b) && b@ == "MergedWithPrevious"@
}

/// The marking of spaces that a pre-tokenizer asks for, if any. A split at
/// spaces does nothing after a normalizer that leaves none.
pub open spec fn sp_metaspace(pt: Option<PreTokenizerJson>, steps: Seq<NormStep>) -> Result<
    Option<Metaspace>,
    HfError,
> {
    match pt {
        None => Ok(None),
        Some(pt) => {
            let kind = pt.kind@;
            if kind == "Metaspace"@ {
                match metaspace_of(pt) {
                    Ok(m) => Ok(Some(m)),
                    Err(e) => Err(e),
                }
            } else if kind == "Sequence"@ && pt.pretokenizers@.len() == 1 && pt.pretokenizers@[0].kind@
                == "Metaspace"@ {
                match metaspace_of(pt.pretokenizers@[0]) {
                    Ok(m) => Ok(Some(m)),
                    Err(e) => Err(e),
                }
            } else if kind == "Split"@ && splits_at_spaces(pt) && replaces_spaces(steps) {
                Ok(None)
            } else {
                Err(HfError::UnsupportedPreTokenizer)
            }
        },
    }
}

/// The marking of spaces that a pre-tokenizer asks for, after these steps.
pub fn parse_sp_metaspace(pre_tokenizer: &Option<PreTokenizerJson>, norm_ops: &Vec<NormOp>) -> (r:
    Result<Option<Metaspace>, HfError>)
    ensures
        r == sp_metaspace(*pre_tokenizer, step_views(norm_ops@)),
{
    let pt = match pre_tokenizer {
        None => {
            return Ok(None);
        },
        Some(pt) => pt,
    };
    let kind = pt.kind.as_str();
    let inner = if text_equal(kind, "Metaspace") {
        pt
    } else if text_equal(kind, "Sequence") && pt.pretokenizers.len() == 1 && text_equal(
        pt.pretokenizers[0].kind.as_str(),
        "Metaspace",
    ) {
        &pt.pretokenizers[0]
    } else {
        let literal_space = match &pt.pattern {
            Some(PatternJson { regex: _, literal: Some(l) }) => text_equal(l.as_str(), " "),
            _ => false,
        };
        let joins = match &pt.behavior {
            Some(b) => text_equal(b.as_str(), "MergedWithPrevious"),
            None => false,
        };
        if text_equal(kind, "Split") && literal_space && joins && has_space_replace(norm_ops) {
            return Ok(None);
        }
        return Err(HfError::UnsupportedPreTokenizer);
    };
    match from_metaspace(inner) {
        Ok(m) => Ok(Some(m)),
        Err(e) => Err(e),
    }
}

/// Whether a normalizer is NFC, alone or in a sequence; another kind is an
/// error.
pub open spec fn nfc_of(n: NormalizerJson) -> Result<bool, HfError>
    decreases n, 0int,
{
    if n.kind@ == "NFC"@ {
        Ok(true)
    } else if n.kind@ == "Sequence"@ {
        nfc_of_list(n.normalizers@, n.normalizers@.len() as int)
    } else {
        Err(HfError::UnsupportedNormalizer)
    }
}

/// Whether one of the first `k` normalizers of a list is NFC.
pub open spec fn nfc_of_list(v: Seq<NormalizerJson>, k: int) -> Result<bool, HfError>
    decreases v, k,
{
    if k <= 0 || k > v.len() {
        Ok(false)
    } else {
        match nfc_of_list(v, k - 1) {
            Err(e) => Err(e),
            Ok(a) => match nfc_of(v[k - 1]) {
                Err(e) => Err(e),
                Ok(b) => Ok(a || b),
            },
        }
    }
}

proof fn lemma_nfc_error(v: Seq<NormalizerJson>, k: int, n: int)
    requires
        0 <= k <= n <= v.len(),
        nfc_of_list(v, k) is Err,
    ensures
        nfc_of_list(v, n) == nfc_of_list(v, k),
    decreases n - k,
{
    if k < n {
        lemma_nfc_error(v, k, n - 1);
    }
}

fn is_nfc(n: &NormalizerJson) -> (r: Result<bool, HfError>)
    ensures
        r == nfc_of(*n),
    decreases *n,
{
    if text_equal(n.kind.as_str(), "NFC") {
        return Ok(true);
    }
    if !text_equal(n.kind.as_str(), "Sequence") {
        return Err(HfError::UnsupportedNormalizer);
    }
    let ghost all = n.normalizers@;
    let mut found = false;
    let mut i: usize = 0;
    while i < n.normalizers.len()
        invariant
            i <= n.normalizers@.len(),
            all == n.normalizers@,
            n.kind@ == "Sequence"@,
            n.kind@ != "NFC"@,
            nfc_of_list(all, i as int) == Ok::<bool, HfError>(found),
        decreases n.normalizers@.len() - i,
    {
        proof {
            assert(decreases_to!(*n => n.normalizers@[i as int]));
        }
        match is_nfc(&n.normalizers[i]) {
            Ok(b) => {
                found = found || b;
            },
            Err(e) => {
                proof {
                    assert(nfc_of_list(all, i + 1) == Err::<bool, HfError>(e));
                    lemma_nfc_error(all, i + 1, all.len() as int);
                }
                return Err(e);
            },
        }
        i += 1;
    }
    Ok(found)
}

/// Whether the normalizer of a byte-level tokenizer is NFC, the only kind
/// that is supported for one.
pub fn detect_nfc_normalizer(normalizer: &Option<NormalizerJson>) -> (r: Result<bool, HfError>)
    ensures
        r == (match normalizer {
            Some(n) => nfc_of(*n),
            None => Ok(false),
        }),
{
    match normalizer {
        Some(n) => is_nfc(n),
        None => Ok(false),
    }
}

/// The split pattern of a pre-tokenizer itself, if it has one.
pub open spec fn own_regexes(pt: PreTokenizerJson) -> Seq<Seq<char>> {
    match pt.pattern {
        Some(PatternJson { regex: Some(re), literal: _ }) if pt.kind@ == "Split"@ => seq![re@],
        _ => Seq::empty(),
    }
}

/// The split patterns of a pre-tokenizer and those inside it, in order.
pub open spec fn split_regexes(pt: PreTokenizerJson) -> Seq<Seq<char>>
    decreases pt, 0int,
{
    own_regexes(pt) + regexes_of_list(pt.pretokenizers@, pt.pretokenizers@.len() as int)
}

/// The split patterns of the first `k` pre-tokenizers of a list.
pub open spec fn regexes_of_list(v: Seq<PreTokenizerJson>, k: int) -> Seq<Seq<char>>
    decreases v, k,
{
    if k <= 0 || k > v.len() {
        Seq::empty()
    } else {
        regexes_of_list(v, k - 1) + split_regexes(v[k - 1])
    }
}

fn collect_split_regexes(pt: &PreTokenizerJson, out: &mut Vec<String>)
    ensures
        text_views(final(out)@) == text_views(old(out)@) + split_regexes(*pt),
    decreases *pt,
{
    let ghost before = text_views(out@);
    let ghost own = own_regexes(*pt);
    if text_equal(pt.kind.as_str(), "Split") {
        match &pt.pattern {
            Some(PatternJson { regex: Some(re), literal: _ }) => {
                let ghost was = out@;
                out.push(re.clone());
                proof {
                    assert(text_views(out@) =~= text_views(was) + own);
                }
            },
            _ => {},
        }
    }
    let ghost all = pt.pretokenizers@;
    let mut i: usize = 0;
    proof {
        assert(text_views(out@) =~= before + own + regexes_of_list(all, 0));
    }
    while i < pt.pretokenizers.len()
        invariant
            i <= pt.pretokenizers@.len(),
            all == pt.pretokenizers@,
            text_views(out@) == before + own + regexes_of_list(all, i as int),
        decreases pt.pretokenizers@.len() - i,
    {
        proof {
            assert(decreases_to!(*pt => pt.pretokenizers@[i as int]));
        }
        collect_split_regexes(&pt.pretokenizers[i], out);
        proof {
            let x = regexes_of_list(all, i as int);
            let y = split_regexes(all[i as int]);
            assert((before + own + x) + y =~= before + own + (x + y));
        }
        i += 1;
    }
    proof {
        let x = regexes_of_list(all, i as int);
        assert(before + own + x =~= before + (own + x));
    }
}

/// The scheme that a pre-tokenizer asks for. Without one, or with a bare
/// byte-level one, it is GPT-2; otherwise the split patterns decide.
pub open spec fn scheme_of(pt: Option<PreTokenizerJson>) -> Result<PretokenizerType, HfError> {
    match pt {
        None => Ok(PretokenizerType::GPT2),
        Some(pt) => {
            let regexes = split_regexes(pt);
            if regexes.len() == 0 {
                if pt.kind@ == "ByteLevel"@ {
                    Ok(PretokenizerType::GPT2)
                } else {
                    Err(HfError::NoSplitRegex)
                }
            } else {
                match split_scheme(regexes) {
                    Some(t) => Ok(t),
                    None => Err(HfError::UnknownSplitRegexes),
                }
            }
        },
    }
}

/// The pretokenization scheme that a pre-tokenizer asks for.
pub fn detect_pretokenizer_type(pre_tokenizer: &Option<PreTokenizerJson>) -> (r: Result<
    PretokenizerType,
    HfError,
>)
    ensures
        r == scheme_of(*pre_tokenizer),
{
    let pt = match pre_tokenizer {
        None => {
            return Ok(PretokenizerType::GPT2);
        },
        Some(pt) => pt,
    };
    let mut regexes: Vec<String> = Vec::new();
    collect_split_regexes(pt, &mut regexes);
    proof {
        assert(text_views(regexes@) =~= split_regexes(*pt));
    }
    if regexes.len() == 0 {
        if text_equal(pt.kind.as_str(), "ByteLevel") {
            return Ok(PretokenizerType::GPT2);
        }
        return Err(HfError::NoSplitRegex);
    }
    match PretokenizerType::from_split_regexes(&regexes) {
        Some(t) => Ok(t),
        None => Err(HfError::UnknownSplitRegexes),
    }
}

/// A byte-level pre-tokenizer in the chain puts a space before the text.
pub open spec fn adds_prefix_space(pt: PreTokenizerJson) -> bool
    decreases pt, 0int,
{
    (pt.kind@ == "ByteLevel"@ && pt.add_prefix_space == Some(true)) || list_adds_prefix_space(
        pt.pretokenizers@,
        pt.pretokenizers@.len() as int,
    )
}

/// One of the first `k` pre-tokenizers of a list puts a space before the text.
pub open spec fn list_adds_prefix_space(v: Seq<PreTokenizerJson>, k: int) -> bool
    decreases v, k,
{
    if k <= 0 || k > v.len() {
        false
    } else {
        list_adds_prefix_space(v, k - 1) || adds_prefix_space(v[k - 1])
    }
}

proof fn lemma_adds_early(v: Seq<PreTokenizerJson>, k: int, n: int)
    requires
        0 <= k <= n <= v.len(),
        list_adds_prefix_space(v, k),
    ensures
        list_adds_prefix_space(v, n),
    decreases n - k,
{
    if k < n {
        lemma_adds_early(v, k, n - 1);
    }
}

fn walk_prefix_space(pt: &PreTokenizerJson) -> (r: bool)
    ensures
        r == adds_prefix_space(*pt),
    decreases *pt,
{
    let own = match pt.add_prefix_space {
        Some(true) => text_equal(pt.kind.as_str(), "ByteLevel"),
        _ => false,
    };
    if own {
        return true;
    }
    let ghost all = pt.pretokenizers@;
    let mut i: usize = 0;
    while i < pt.pretokenizers.len()
        invariant
            i <= pt.pretokenizers@.len(),
            all == pt.pretokenizers@,
            !list_adds_prefix_space(all, i as int),
        decreases pt.pretokenizers@.len() - i,
    {
        proof {
            assert(decreases_to!(*pt => pt.pretokenizers@[i as int]));
        }
        if walk_prefix_space(&pt.pretokenizers[i]) {
            proof {
                assert(list_adds_prefix_space(all, i + 1));
                lemma_adds_early(all, i + 1, all.len() as int);
            }
            return true;
        }
        i += 1;
    }
    false
}

/// Whether a byte-level pre-tokenizer in the chain puts a space before the
/// text.
pub fn detect_add_prefix_space(pre_tokenizer: &Option<PreTokenizerJson>) -> (r: bool)
    ensures
        r == (pre_tokenizer matches Some(pt) && adds_prefix_space(*pt)),
{
    match pre_tokenizer {
        Some(pt) => walk_prefix_space(pt),
        None => false,
    }
}

} // verus!
