//! Which files make a tokenizer, and with what settings.
use crate::bpe::added::AddedToken;
use crate::bpe::added_laws::law_by_length_keeps_tokens;
use crate::load::assemble::{
    added_defs, any_fallback, bpe_outcome, fallback_ids, level_entries, missing_from, sp_outcome,
    tokens_matched,
};
use crate::load::file_laws::{
    byte_name, law_fallback_is_the_named_entry, law_missing_byte_is_missing,
};
use crate::load::json::{
    parsed_contents, AddedTokenJson, HfError, ModelProbe, ParsedFile, RefusedFamily, TokenizerJson,
};
use crate::load::normalizer::normalizer_steps;
use crate::load::pre_tokenizer::{adds_prefix_space, nfc_of, scheme_of, sp_metaspace};
use crate::load::vocab::{added_contents, file_vocab, too_large};
use crate::sp::model::{first_empty, normalized_specs, with_content};
use crate::sp::normalize::norm_steps;
use crate::token::TokenId;
use vstd::prelude::*;
use vstd::utf8::encode_utf8;

verus! {

/// A byte-level tokenizer comes of exactly the BPE files without byte fallback
/// that are not too large, have an entry for every byte that UTF-8 can hold, and
/// whose pre-tokenizer and normalizer can be had.
pub proof fn law_byte_level_files(tj: TokenizerJson)
    ensures
        bpe_outcome(tj) is Ok <==> {
            &&& tj.model.model_type@ == "BPE"@
            &&& !tj.model.byte_fallback
            &&& !too_large(tj)
            &&& forall|b: u8|
                b < 0xF5 && b != 0xC0 && b != 0xC1 ==> #[trigger] file_vocab(
                    level_entries(tj.model.vocab@),
                    added_contents(tj.added_tokens@),
                ).contains(seq![b])
            &&& scheme_of(tj.pre_tokenizer) is Ok
            &&& tj.normalizer matches Some(n) ==> nfc_of(n) is Ok
        },
{
    let vocab = file_vocab(level_entries(tj.model.vocab@), added_contents(tj.added_tokens@));
    assert forall|b: u8| missing_from(vocab, 0) is None && b < 0xF5 && b != 0xC0 && b
        != 0xC1 implies #[trigger] vocab.contains(seq![b]) by {
        law_missing_byte_is_missing(vocab, b);
    }
    if missing_from(vocab, 0) is Some {
        law_missing_byte_is_missing(vocab, missing_from(vocab, 0)->0);
        assert(!vocab.contains(seq![missing_from(vocab, 0)->0]));
    }
}

/// The settings of a byte-level tokenizer are those of its file: whether whole
/// tokens come first, its scheme, NFC, the space before the text, and the added
/// tokens that have content, with their IDs and what they strip.
pub proof fn law_byte_level_settings(tj: TokenizerJson, i: int)
    requires
        bpe_outcome(tj) is Ok,
    ensures
        ({
            let t = bpe_outcome(tj)->Ok_0;
            &&& t.ignore_merges == tj.model.ignore_merges
            &&& scheme_of(tj.pre_tokenizer) == Ok::<_, HfError>(t.scheme)
            &&& t.nfc == (tj.normalizer is Some && nfc_of(tj.normalizer->0) == Ok::<bool, HfError>(
                true,
            ))
            &&& t.prefix_space == (tj.pre_tokenizer is Some && adds_prefix_space(
                tj.pre_tokenizer->0,
            ))
            &&& 0 <= i < tj.added_tokens@.len() && encode_utf8(tj.added_tokens@[i].content@).len()
                > 0 ==> exists|k: int|
                {
                    &&& 0 <= k < t.added.len()
                    &&& (#[trigger] t.added[k]).content == encode_utf8(
                        tj.added_tokens@[i].content@,
                    )
                    &&& t.added[k].id == TokenId(tj.added_tokens@[i].id)
                    &&& t.added[k].lstrip == tj.added_tokens@[i].lstrip
                    &&& t.added[k].rstrip == tj.added_tokens@[i].rstrip
                }
        }),
{
    let t = bpe_outcome(tj)->Ok_0;
    if 0 <= i < tj.added_tokens@.len() && encode_utf8(tj.added_tokens@[i].content@).len() > 0 {
        let defs = added_defs(tj.added_tokens@);
        let x = defs[i];
        law_by_length_keeps_tokens(defs, x);
        assert(defs.contains(x));
        assert(t.added.contains(x));
        let k = choose|k: int| 0 <= k < t.added.len() && t.added[k] == x;
        assert(t.added[k].content == encode_utf8(tj.added_tokens@[i].content@));
    }
}

/// The added tokens of a SentencePiece-style model are those of its file that
/// have content. Those that the file matches in normalized text are normalized
/// themselves.
pub proof fn law_sentencepiece_added_tokens(tj: TokenizerJson, i: int)
    requires
        sp_outcome(tj) is Ok,
        0 <= i < tj.added_tokens@.len(),
    ensures
        ({
            let m = sp_outcome(tj)->Ok_0;
            let t = tj.added_tokens@[i];
            let raw = AddedToken {
                content: encode_utf8(t.content@),
                id: TokenId(t.id),
                lstrip: t.lstrip,
                rstrip: t.rstrip,
            };
            let normed = AddedToken { content: norm_steps(m.steps, raw.content), ..raw };
            &&& !t.normalized && raw.content.len() > 0 ==> m.added.contains(raw)
            &&& t.normalized && normed.content.len() > 0 ==> m.norm_added.contains(normed)
            &&& !t.normalized && raw.content.len() == 0 ==> m.between is Some
        }),
{
    let v = tj.added_tokens@;
    let m = sp_outcome(tj)->Ok_0;
    let t = v[i];
    let raw = added_defs(v)[i];
    let normed = AddedToken { content: norm_steps(m.steps, raw.content), ..raw };
    let list = tokens_matched(v, t.normalized);
    lemma_matched_contains(v, t.normalized, i);
    let k = choose|k: int| 0 <= k < list.len() && list[k] == raw;
    if t.normalized {
        let more = normalized_specs(m.steps, list);
        assert(more[k] == normed);
        lemma_content_contains(more, k);
    } else {
        lemma_content_contains(list, k);
    }
}

proof fn lemma_matched_contains(v: Seq<AddedTokenJson>, normalized: bool, i: int)
    requires
        0 <= i < v.len(),
        v[i].normalized == normalized,
    ensures
        tokens_matched(v, normalized).contains(added_defs(v)[i]),
    decreases v.len(),
{
    let d = v.drop_last();
    let r = tokens_matched(v, normalized);
    if i < d.len() {
        lemma_matched_contains(d, normalized, i);
        assert(added_defs(d)[i] == added_defs(v)[i]);
        let h = tokens_matched(d, normalized);
        let k = choose|k: int| 0 <= k < h.len() && h[k] == added_defs(v)[i];
        assert(r[k] == added_defs(v)[i]);
    } else {
        assert(r[r.len() - 1] == added_defs(v)[i]);
    }
}

proof fn lemma_content_contains(v: Seq<AddedToken>, k: int)
    requires
        0 <= k < v.len(),
    ensures
        v[k].content.len() > 0 ==> with_content(v).contains(v[k]),
        v[k].content.len() == 0 ==> first_empty(v) is Some,
    decreases v.len(),
{
    let d = v.drop_last();
    if k < d.len() {
        lemma_content_contains(d, k);
        assert(d[k] == v[k]);
        if v[k].content.len() > 0 {
            let h = with_content(d);
            let j = choose|j: int| 0 <= j < h.len() && h[j] == v[k];
            assert(with_content(v)[j] == v[k]);
        }
    } else if v[k].content.len() > 0 {
        let r = with_content(v);
        assert(r[r.len() - 1] == v[k]);
    }
}

/// A SentencePiece-style model comes of exactly the BPE files with byte fallback
/// that are not too large, have the token of some byte, and whose normalizer and
/// pre-tokenizer can be had.
pub proof fn law_sentencepiece_files(tj: TokenizerJson)
    ensures
        sp_outcome(tj) is Ok <==> {
            &&& tj.model.model_type@ == "BPE"@
            &&& tj.model.byte_fallback
            &&& !too_large(tj)
            &&& exists|i: int, b: u8|
                0 <= i < tj.model.vocab@.len() && encode_utf8(
                    (#[trigger] tj.model.vocab@[i]).0@,
                ) == #[trigger] byte_name(b)
            &&& match tj.normalizer {
                Some(n) => normalizer_steps(n) is Ok && sp_metaspace(
                    tj.pre_tokenizer,
                    normalizer_steps(n)->Ok_0,
                ) is Ok,
                None => sp_metaspace(tj.pre_tokenizer, Seq::empty()) is Ok,
            }
        },
{
    let v = tj.model.vocab@;
    let f = fallback_ids(v);
    law_fallback_is_the_named_entry(v, 0, 0);
    if any_fallback(f) {
        let b = choose|b: int| 0 <= b < f.len() && (#[trigger] f[b]) is Some;
        law_fallback_is_the_named_entry(v, b as u8, 0);
        let i = choose|i: int|
            0 <= i < v.len() && encode_utf8((#[trigger] v[i]).0@) == byte_name(b as u8);
        assert(0 <= i < v.len() && encode_utf8(v[i].0@) == byte_name(b as u8));
    }
    if exists|i: int, b: u8|
        0 <= i < v.len() && encode_utf8((#[trigger] v[i]).0@) == #[trigger] byte_name(b) {
        let (i, b) = choose|i: int, b: u8|
            0 <= i < v.len() && encode_utf8((#[trigger] v[i]).0@) == #[trigger] byte_name(b);
        let k = lemma_last_named(v, b, i);
        law_fallback_is_the_named_entry(v, b, k);
        assert(f[b as int] is Some);
    }
}

proof fn lemma_last_named(v: Seq<(String, u32)>, b: u8, i: int) -> (k: int)
    requires
        0 <= i < v.len(),
        encode_utf8(v[i].0@) == byte_name(b),
    ensures
        0 <= k < v.len(),
        encode_utf8(v[k].0@) == byte_name(b),
        forall|j: int| k < j < v.len() ==> encode_utf8((#[trigger] v[j]).0@) != byte_name(b),
    decreases v.len() - i,
{
    if exists|j: int| i < j < v.len() && encode_utf8((#[trigger] v[j]).0@) == byte_name(b) {
        let j = choose|j: int|
            i < j < v.len() && encode_utf8((#[trigger] v[j]).0@) == byte_name(b);
        lemma_last_named(v, b, j)
    } else {
        i
    }
}

/// A file is looked into where its model type is BPE or not given, and nothing
/// in it is of another family; otherwise it is refused, whatever its shape.
pub proof fn law_other_families_are_refused(p: ModelProbe, contents: Option<TokenizerJson>)
    ensures
        ({
            let r = parsed_contents(ParsedFile { probe: Some(p), contents });
            &&& p.model_type matches Some(t) ==> (t@ != "BPE"@ ==> r
                == Err::<TokenizerJson, HfError>(HfError::Refused(RefusedFamily::Named)))
            &&& p.model_type is None && p.has_unk_id ==> r == Err::<TokenizerJson, HfError>(
                HfError::Refused(RefusedFamily::UntypedUnigram),
            )
            &&& p.model_type is None && !p.has_unk_id && p.has_max_chars ==> r == Err::<
                TokenizerJson,
                HfError,
            >(HfError::Refused(RefusedFamily::UntypedWordPiece))
            &&& contents is Some && ((p.model_type is Some && p.model_type->0@ == "BPE"@) || (
            p.model_type is None && !p.has_unk_id && !p.has_max_chars)) ==> r == Ok::<
                TokenizerJson,
                HfError,
            >(contents->0)
            &&& contents is None ==> r is Err
        }),
{
}

} // verus!
