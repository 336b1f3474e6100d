//! The normalizer of a SentencePiece-style tokenizer.
use crate::load::json::{HfError, NormalizerJson};
use crate::sp::charsmap::{map_sized, map_text, CharsmapError, PrecompiledCharsmap};
use crate::sp::lookups::ascii_fits;
use crate::sp::normalize::{step_views, NormOp, NormStep};
use crate::text::text_equal;
use vstd::prelude::*;
use vstd::utf8::{encode_utf8, valid_utf8};

verus! {

/// The bytes that a base64 text stands for, or `None` when it is none.
pub uninterp spec fn base64_bytes(text: Seq<char>) -> Option<Seq<u8>>;

/// `base64::engine::general_purpose::STANDARD.decode`: the bytes that `text`
/// stands for, or `None` when it is no base64 text in the standard alphabet.
/// The outcome depends on the text alone.
#[verifier::external_body]
fn base64_decode(text: &str) -> (r: Option<Vec<u8>>)
    ensures
        match r {
            Some(b) => base64_bytes(text@) == Some(b@),
            None => base64_bytes(text@) is None,
        },
{
    base64::Engine::decode(&base64::engine::general_purpose::STANDARD, text).ok()
}

/// The step that a decoded charsmap gives.
pub open spec fn charsmap_steps(bytes: Option<Seq<u8>>) -> Result<Seq<NormStep>, HfError> {
    match bytes {
        None => Err(HfError::InvalidBase64),
        Some(b) => if !map_sized(b) {
            Err(HfError::InvalidCharsmap(CharsmapError::BrokenTrie))
        } else if !valid_utf8(map_text(b)) {
            Err(HfError::InvalidCharsmap(CharsmapError::InvalidText))
        } else if !ascii_fits(b) {
            Err(HfError::InvalidCharsmap(CharsmapError::BrokenTrie))
        } else {
            Ok(seq![NormStep::Precompiled(b)])
        },
    }
}

/// The step of a decoded charsmap; `None` stands for a text that is no base64.
pub fn charsmap_step(bytes: Option<Vec<u8>>) -> (r: Result<NormOp, HfError>)
    ensures
        match r {
            Ok(op) => charsmap_steps(
                match bytes {
                    Some(b) => Some(b@),
                    None => None,
                },
            ) == Ok::<Seq<NormStep>, HfError>(seq![op@]),
            Err(e) => charsmap_steps(
                match bytes {
                    Some(b) => Some(b@),
                    None => None,
                },
            ) == Err::<Seq<NormStep>, HfError>(e),
        },
{
    match bytes {
        None => Err(HfError::InvalidBase64),
        Some(b) => match PrecompiledCharsmap::new(b.as_slice()) {
            Ok(m) => Ok(NormOp::Precompiled(m)),
            Err(e) => Err(HfError::InvalidCharsmap(e)),
        },
    }
}

/// The steps of a replacing normalizer.
pub open spec fn replace_steps(n: NormalizerJson) -> Result<Seq<NormStep>, HfError> {
    match n.content {
        None => Err(HfError::ReplaceWithoutContent),
        Some(content) => match n.pattern {
            None => Err(HfError::ReplaceWithoutPattern),
            Some(p) => match (p.literal, p.regex) {
                (Some(literal), _) => Ok(
                    seq![NormStep::Replace(encode_utf8(literal@), encode_utf8(content@))],
                ),
                (None, Some(regex)) => if regex@ == " {2,}"@ {
                    Ok(seq![NormStep::CollapseSpaces(encode_utf8(content@))])
                } else {
                    Err(HfError::UnsupportedRegex)
                },
                (None, None) => Err(HfError::ReplaceWithoutPattern),
            },
        },
    }
}

/// The steps of a normalizer.
pub open spec fn normalizer_steps(n: NormalizerJson) -> Result<Seq<NormStep>, HfError>
    decreases n, 0int,
{
    let kind = n.kind@;
    if kind == "Sequence"@ {
        list_steps(n.normalizers@, n.normalizers@.len() as int)
    } else if kind == "Prepend"@ {
        match n.prepend {
            Some(p) => Ok(seq![NormStep::Prepend(encode_utf8(p@))]),
            None => Err(HfError::PrependWithoutText),
        }
    } else if kind == "Replace"@ {
        replace_steps(n)
    } else if kind == "Strip"@ {
        Ok(
            seq![
                NormStep::Strip(
                    n.strip_left != Some(false),
                    n.strip_right != Some(false),
                ),
            ],
        )
    } else if kind == "Precompiled"@ {
        match n.precompiled_charsmap {
            Some(text) => charsmap_steps(base64_bytes(text@)),
            None => Err(HfError::PrecompiledWithoutCharsmap),
        }
    } else {
        Err(HfError::UnsupportedNormalizer)
    }
}

/// The steps of the first `k` normalizers of a list, one after the other; the
/// first error where there is one.
pub open spec fn list_steps(v: Seq<NormalizerJson>, k: int) -> Result<Seq<NormStep>, HfError>
    decreases v, k,
{
    if k <= 0 || k > v.len() {
        Ok(Seq::empty())
    } else {
        match list_steps(v, k - 1) {
            Err(e) => Err(e),
            Ok(head) => match normalizer_steps(v[k - 1]) {
                Err(e) => Err(e),
                Ok(tail) => Ok(head + tail),
            },
        }
    }
}

proof fn lemma_list_error(v: Seq<NormalizerJson>, k: int, n: int)
    requires
        0 <= k <= n <= v.len(),
        list_steps(v, k) is Err,
    ensures
        list_steps(v, n) == list_steps(v, k),
    decreases n - k,
{
    if k < n {
        lemma_list_error(v, k, n - 1);
    }
}

/// Appends the steps of a normalizer. What is not supported is an error.
pub fn parse_sp_normalizer(n: &NormalizerJson, out: &mut Vec<NormOp>) -> (r: Result<(), HfError>)
    ensures
        match r {
            Ok(()) => normalizer_steps(*n) matches Ok(steps) && step_views(final(out)@)
                == step_views(old(out)@) + steps,
            Err(e) => normalizer_steps(*n) == Err::<Seq<NormStep>, HfError>(e),
        },
    decreases *n,
{
    let ghost before = step_views(out@);
    let kind = n.kind.as_str();
    let step: NormOp = if text_equal(kind, "Sequence") {
        let ghost all = n.normalizers@;
        let mut i: usize = 0;
        proof {
            assert(before + Seq::<NormStep>::empty() =~= before);
        }
        while i < n.normalizers.len()
            invariant
                i <= n.normalizers@.len(),
                all == n.normalizers@,
                n.kind@ == "Sequence"@,
                list_steps(all, i as int) matches Ok(steps) && step_views(out@) == before + steps,
            decreases n.normalizers@.len() - i,
        {
            let ghost head = list_steps(all, i as int)->Ok_0;
            let ghost now = step_views(out@);
            proof {
                assert(decreases_to!(*n => n.normalizers@[i as int]));
            }
            match parse_sp_normalizer(&n.normalizers[i], out) {
                Err(e) => {
                    proof {
                        assert(list_steps(all, i + 1) == Err::<Seq<NormStep>, HfError>(e));
                        lemma_list_error(all, i + 1, all.len() as int);
                    }
                    return Err(e);
                },
                Ok(()) => {},
            }
            proof {
                let tail = normalizer_steps(all[i as int])->Ok_0;
                assert((before + head) + tail =~= before + (head + tail));
            }
            i += 1;
        }
        return Ok(());
    } else if text_equal(kind, "Prepend") {
        match &n.prepend {
            Some(p) => NormOp::Prepend(p.clone()),
            None => {
                return Err(HfError::PrependWithoutText);
            },
        }
    } else if text_equal(kind, "Replace") {
        match replace_step(n) {
            Ok(op) => op,
            Err(e) => {
                return Err(e);
            },
        }
    } else if text_equal(kind, "Strip") {
        NormOp::Strip {
            left: n.strip_left.unwrap_or(true),
            right: n.strip_right.unwrap_or(true),
        }
    } else if text_equal(kind, "Precompiled") {
        match &n.precompiled_charsmap {
            Some(text) => match charsmap_step(base64_decode(text.as_str())) {
                Ok(op) => op,
                Err(e) => {
                    return Err(e);
                },
            },
            None => {
                return Err(HfError::PrecompiledWithoutCharsmap);
            },
        }
    } else {
        return Err(HfError::UnsupportedNormalizer);
    };
    let ghost was = out@;
    let ghost value = step@;
    out.push(step);
    proof {
        assert(step_views(out@) =~= step_views(was) + seq![value]);
    }
    Ok(())
}

/// The step of a replacing normalizer.
fn replace_step(n: &NormalizerJson) -> (r: Result<NormOp, HfError>)
    ensures
        match r {
            Ok(op) => replace_steps(*n) == Ok::<Seq<NormStep>, HfError>(seq![op@]),
            Err(e) => replace_steps(*n) == Err::<Seq<NormStep>, HfError>(e),
        },
{
    let content: String = match &n.content {
        Some(c) => c.clone(),
        None => {
            return Err(HfError::ReplaceWithoutContent);
        },
    };
    match &n.pattern {
        None => Err(HfError::ReplaceWithoutPattern),
        Some(p) => match (&p.literal, &p.regex) {
            (Some(literal), _) => Ok(NormOp::Replace { pattern: literal.clone(), content }),
            (None, Some(regex)) => if text_equal(regex.as_str(), " {2,}") {
                Ok(NormOp::CollapseSpaces { content })
            } else {
                Err(HfError::UnsupportedRegex)
            },
            (None, None) => Err(HfError::ReplaceWithoutPattern),
        },
    }
}

} // verus!
