//! Building a tokenizer from a file.
use crate::bpe::added::{added_views, AddedToken, AddedTokenDef};
use crate::bpe::bytes::{
    byte_position, byte_table, contents, symbol_table, utf8_byte, ByteRemapping, MissingByte,
};
use crate::bpe::listing::{ids_of, ranks_of};
use crate::bpe::merge::{
    id_rules, merge_key, ranked_merge_key, ranked_rules, IdMerges, RankedMerges,
};
use crate::bpe::model::{vocab_inverse, ModelView};
use crate::bpe::tiktoken::{by_length, max_entries, Tokenizer, TokenizerView};
use crate::bytes_map::BytesMap;
use crate::load::json::{
    parse_tokenizer_json, parsed_contents, AddedTokenJson, HfError, ParsedFile, TokenizerJson,
};
use crate::load::normalizer::{normalizer_steps, parse_sp_normalizer};
use crate::load::pre_tokenizer::{
    adds_prefix_space, detect_add_prefix_space, detect_nfc_normalizer, detect_pretokenizer_type,
    nfc_of, parse_sp_metaspace, scheme_of, sp_metaspace,
};
use crate::load::vocab::{
    added_contents, build_vocab, entries_inverse, entry_views, fallback_byte, file_vocab, ids_fit,
    is_too_large, level_bytes, parse_byte_fallback, piece_bytes, token_str_to_bytes, too_large,
    unicode_to_bytes, VocabEntry,
};
use crate::search::copy_bytes;
use crate::sp::model::{
    first_empty, normalized_specs, spec_views, with_content, AddedTokenSpec, SentencePieceBPE,
    SpModel,
};
use crate::sp::normalize::{append_bytes, step_views, NormOp, NormStep};
use crate::sp::symbols::{SpTables, SpView};
use crate::text::{lemma_encode_concat, text_equal};
use crate::token::TokenId;
use std::collections::HashMap;
use vstd::prelude::*;
use vstd::utf8::encode_utf8;

verus! {

broadcast use vstd::std_specs::hash::group_hash_axioms;

/// The bytes of the two parts of a merge and of what they merge to.
pub type MergeBytes = (Seq<u8>, Seq<u8>, Seq<u8>);

/// The IDs of a merge, when all three byte strings have one.
pub open spec fn merge_ids(inv: Map<Seq<u8>, TokenId>, m: MergeBytes) -> Option<
    (TokenId, TokenId, TokenId),
> {
    if inv.contains_key(m.0) && inv.contains_key(m.1) && inv.contains_key(m.2) {
        Some((inv[m.0], inv[m.1], inv[m.2]))
    } else {
        None
    }
}

/// The IDs of the merges that have them, in order.
pub open spec fn known_merges(inv: Map<Seq<u8>, TokenId>, merges: Seq<MergeBytes>) -> Seq<
    (TokenId, TokenId, TokenId),
>
    decreases merges.len(),
{
    if merges.len() == 0 {
        Seq::empty()
    } else {
        let head = known_merges(inv, merges.drop_last());
        match merge_ids(inv, merges.last()) {
            Some(ids) => head.push(ids),
            None => head,
        }
    }
}

/// The merged IDs do not descend.
pub open spec fn in_id_order(ms: Seq<(TokenId, TokenId, TokenId)>) -> bool {
    forall|i: int|
        0 <= i < ms.len() - 1 ==> (#[trigger] ms[i]).2.0 <= ms[i + 1].2.0
}

/// The merged ID of each pair; its first merge counts.
pub open spec fn first_ids(ms: Seq<(TokenId, TokenId, TokenId)>) -> Map<u64, TokenId>
    decreases ms.len(),
{
    if ms.len() == 0 {
        Map::empty()
    } else {
        let head = first_ids(ms.drop_last());
        let (a, b, m) = ms.last();
        if head.contains_key(merge_key(a, b)) {
            head
        } else {
            head.insert(merge_key(a, b), m)
        }
    }
}

/// The merged ID and the rank of each pair; its first merge counts.
pub open spec fn first_ranks(ms: Seq<(TokenId, TokenId, TokenId)>) -> Map<u64, (TokenId, u32)>
    decreases ms.len(),
{
    if ms.len() == 0 {
        Map::empty()
    } else {
        let head = first_ranks(ms.drop_last());
        let (a, b, m) = ms.last();
        if head.contains_key(merge_key(a, b)) {
            head
        } else {
            head.insert(merge_key(a, b), (m, (ms.len() - 1) as u32))
        }
    }
}

/// The merged ID and the rank of each pair, with the position in the whole
/// list as the rank; merges of unknown pieces are skipped.
pub open spec fn listed_ranks(inv: Map<Seq<u8>, TokenId>, merges: Seq<MergeBytes>) -> Map<
    u64,
    (TokenId, u32),
>
    decreases merges.len(),
{
    if merges.len() == 0 {
        Map::empty()
    } else {
        let head = listed_ranks(inv, merges.drop_last());
        match merge_ids(inv, merges.last()) {
            Some((a, b, m)) => if head.contains_key(merge_key(a, b)) {
                head
            } else {
                head.insert(merge_key(a, b), (m, (merges.len() - 1) as u32))
            },
            None => head,
        }
    }
}

/// The entries of a byte-level vocabulary.
pub open spec fn level_entries(v: Seq<(String, u32)>) -> Seq<VocabEntry> {
    v.map_values(|e: (String, u32)| (level_bytes(e.0@), e.1, false))
}

/// The merges of a byte-level model: the bytes of the parts are joined.
pub open spec fn level_merges(v: Seq<(String, String)>) -> Seq<MergeBytes> {
    v.map_values(
        |m: (String, String)|
            (level_bytes(m.0@), level_bytes(m.1@), level_bytes(m.0@) + level_bytes(m.1@)),
    )
}

/// The entries of a SentencePiece vocabulary; byte tokens give way.
pub open spec fn piece_entries(v: Seq<(String, u32)>) -> Seq<VocabEntry> {
    v.map_values(
        |e: (String, u32)|
            (
                piece_bytes(encode_utf8(e.0@)),
                e.1,
                fallback_byte(encode_utf8(e.0@)) is Some,
            ),
    )
}

/// The merges of a SentencePiece model: the texts of the parts are joined.
pub open spec fn piece_merges(v: Seq<(String, String)>) -> Seq<MergeBytes> {
    v.map_values(
        |m: (String, String)|
            (
                piece_bytes(encode_utf8(m.0@)),
                piece_bytes(encode_utf8(m.1@)),
                piece_bytes(encode_utf8(m.0@) + encode_utf8(m.1@)),
            ),
    )
}

/// The first byte from `b` on that text needs and that has no token.
pub open spec fn missing_from(vocab: Seq<Seq<u8>>, b: int) -> Option<u8>
    decreases 256 - b,
{
    if b >= 256 {
        None
    } else if utf8_byte(b as u8) && byte_position(vocab, b as u8) is None {
        Some(b as u8)
    } else {
        missing_from(vocab, b + 1)
    }
}

proof fn lemma_missing_is(vocab: Seq<Seq<u8>>, b: int, m: u8)
    requires
        0 <= b <= m,
        utf8_byte(m),
        byte_position(vocab, m) is None,
        forall|x: u8| x < m && utf8_byte(x) ==> #[trigger] byte_position(vocab, x) is Some,
    ensures
        missing_from(vocab, b) == Some(m),
    decreases m - b,
{
    if b < m {
        assert((b as u8) as int == b);
        lemma_missing_is(vocab, b + 1, m);
    }
}

proof fn lemma_missing_none(vocab: Seq<Seq<u8>>, b: int)
    requires
        0 <= b,
        forall|x: u8| utf8_byte(x) ==> #[trigger] byte_position(vocab, x) is Some,
    ensures
        missing_from(vocab, b) is None,
    decreases 256 - b,
{
    if b < 256 {
        lemma_missing_none(vocab, b + 1);
    }
}

/// The added tokens of a file.
pub open spec fn added_defs(v: Seq<AddedTokenJson>) -> Seq<AddedToken> {
    v.map_values(
        |t: AddedTokenJson|
            AddedToken {
                content: encode_utf8(t.content@),
                id: TokenId(t.id),
                lstrip: t.lstrip,
                rstrip: t.rstrip,
            },
    )
}

/// The rank of each merge of a byte-level file: the merged ID where the list
/// produces IDs in order, else the place in the list.
pub open spec fn bpe_ranks(tj: TokenizerJson) -> Map<u64, u32> {
    let ms = known_merges(
        entries_inverse(level_entries(tj.model.vocab@)),
        level_merges(tj.model.merges@),
    );
    if in_id_order(ms) {
        ids_of(first_ids(ms))
    } else {
        ranks_of(first_ranks(ms))
    }
}

/// The byte-level tokenizer of a file, or the first reason why there is none.
pub open spec fn bpe_outcome(tj: TokenizerJson) -> Result<TokenizerView, HfError> {
    let entries = level_entries(tj.model.vocab@);
    let vocab = file_vocab(entries, added_contents(tj.added_tokens@));
    let ms = known_merges(entries_inverse(entries), level_merges(tj.model.merges@));
    if tj.model.model_type@ != "BPE"@ {
        Err(HfError::UnsupportedModel)
    } else if tj.model.byte_fallback {
        Err(HfError::HasByteFallback)
    } else if too_large(tj) {
        Err(HfError::TooLarge)
    } else if missing_from(vocab, 0) is Some {
        Err(HfError::MissingByte(missing_from(vocab, 0)->0))
    } else {
        match (
            scheme_of(tj.pre_tokenizer),
            match tj.normalizer {
                Some(n) => nfc_of(n),
                None => Ok(false),
            },
        ) {
            (Err(e), _) => Err(e),
            (_, Err(e)) => Err(e),
            (Ok(scheme), Ok(nfc)) => Ok(
                TokenizerView {
                    model: ModelView {
                        rules: if in_id_order(ms) {
                            id_rules(first_ids(ms))
                        } else {
                            ranked_rules(first_ranks(ms))
                        },
                        vocab,
                        vocab_inv: vocab_inverse(vocab),
                        table: byte_table(vocab),
                    },
                    added: by_length(added_defs(tj.added_tokens@)),
                    ignore_merges: tj.model.ignore_merges,
                    scheme,
                    nfc,
                    prefix_space: tj.pre_tokenizer matches Some(pt) && adds_prefix_space(pt),
                },
            ),
        }
    }
}

/// The vocabulary entries of a byte-level file.
fn level_entry_list(v: &Vec<(String, u32)>) -> (r: Vec<(Vec<u8>, u32, bool)>)
    ensures
        entry_views(r@) == level_entries(v@),
{
    let mut r: Vec<(Vec<u8>, u32, bool)> = Vec::new();
    let mut i: usize = 0;
    while i < v.len()
        invariant
            i <= v@.len(),
            r@.len() == i,
            forall|j: int|
                0 <= j < i ==> (#[trigger] r@[j]).0@ == level_bytes(v@[j].0@) && r@[j].1 == v@[j].1
                    && !r@[j].2,
        decreases v@.len() - i,
    {
        r.push((unicode_to_bytes(v[i].0.as_str()), v[i].1, false));
        i += 1;
    }
    proof {
        assert(entry_views(r@) =~= level_entries(v@));
    }
    r
}

/// The vocabulary entries of a SentencePiece file.
fn piece_entry_list(v: &Vec<(String, u32)>) -> (r: Vec<(Vec<u8>, u32, bool)>)
    ensures
        entry_views(r@) == piece_entries(v@),
{
    let mut r: Vec<(Vec<u8>, u32, bool)> = Vec::new();
    let mut i: usize = 0;
    while i < v.len()
        invariant
            i <= v@.len(),
            r@.len() == i,
            forall|j: int|
                0 <= j < i ==> (#[trigger] r@[j]).0@ == piece_bytes(encode_utf8(v@[j].0@)) && r@[j].1
                    == v@[j].1 && r@[j].2 == (fallback_byte(encode_utf8(v@[j].0@)) is Some),
        decreases v@.len() - i,
    {
        let text = v[i].0.as_str();
        let weak = parse_byte_fallback(text).is_some();
        r.push((token_str_to_bytes(text), v[i].1, weak));
        i += 1;
    }
    proof {
        assert(entry_views(r@) =~= piece_entries(v@));
    }
    r
}

/// Looks up the IDs of a merge.
fn find_merge(inv: &BytesMap<TokenId>, a: &[u8], b: &[u8], m: &[u8]) -> (r: Option<
    (TokenId, TokenId, TokenId),
>)
    ensures
        r == merge_ids(inv@, (a@, b@, m@)),
{
    match (inv.get(a), inv.get(b), inv.get(m)) {
        (Some(x), Some(y), Some(z)) => Some((x, y, z)),
        _ => None,
    }
}

/// The IDs of the merges of a byte-level file.
fn level_merge_list(inv: &BytesMap<TokenId>, merges: &Vec<(String, String)>) -> (r: Vec<
    (TokenId, TokenId, TokenId),
>)
    ensures
        r@ == known_merges(inv@, level_merges(merges@)),
        r@.len() <= merges@.len(),
{
    let ghost all = level_merges(merges@);
    let mut r: Vec<(TokenId, TokenId, TokenId)> = Vec::new();
    let mut i: usize = 0;
    proof {
        assert(all.take(0) =~= Seq::<MergeBytes>::empty());
    }
    while i < merges.len()
        invariant
            i <= merges@.len(),
            all == level_merges(merges@),
            r@ == known_merges(inv@, all.take(i as int)),
            r@.len() <= i,
        decreases merges@.len() - i,
    {
        let a: Vec<u8> = unicode_to_bytes(merges[i].0.as_str());
        let b: Vec<u8> = unicode_to_bytes(merges[i].1.as_str());
        let mut m: Vec<u8> = copy_bytes(a.as_slice());
        append_bytes(&mut m, b.as_slice());
        proof {
            assert(all[i as int] == (a@, b@, m@));
            assert(all.take(i + 1).drop_last() =~= all.take(i as int));
        }
        match find_merge(inv, a.as_slice(), b.as_slice(), m.as_slice()) {
            Some(ids) => {
                r.push(ids);
            },
            None => {},
        }
        i += 1;
    }
    proof {
        assert(all.take(i as int) =~= all);
    }
    r
}

/// Whether the merged IDs do not descend.
fn is_in_id_order(ms: &Vec<(TokenId, TokenId, TokenId)>) -> (r: bool)
    ensures
        r == in_id_order(ms@),
{
    let mut i: usize = 1;
    while i < ms.len()
        invariant
            1 <= i,
            forall|j: int| 0 <= j < i - 1 && j < ms@.len() - 1 ==> (#[trigger] ms@[j]).2.0 <= ms@[j + 1].2.0,
        decreases ms@.len() - i,
    {
        if ms[i - 1].2.0 > ms[i].2.0 {
            assert(ms@[i - 1].2.0 > ms@[i - 1 + 1].2.0);
            return false;
        }
        i += 1;
    }
    true
}

/// The merged ID of each pair.
fn id_table(ms: &Vec<(TokenId, TokenId, TokenId)>) -> (r: IdMerges)
    ensures
        r@ == first_ids(ms@),
{
    let mut r: IdMerges = HashMap::new();
    let mut i: usize = 0;
    proof {
        assert(ms@.take(0) =~= Seq::<(TokenId, TokenId, TokenId)>::empty());
    }
    while i < ms.len()
        invariant
            i <= ms@.len(),
            r@ == first_ids(ms@.take(i as int)),
        decreases ms@.len() - i,
    {
        proof {
            assert(ms@.take(i + 1).drop_last() =~= ms@.take(i as int));
        }
        let key: u64 = ranked_merge_key(ms[i].0, ms[i].1);
        if !r.contains_key(&key) {
            r.insert(key, ms[i].2);
        }
        i += 1;
    }
    proof {
        assert(ms@.take(i as int) =~= ms@);
    }
    r
}

/// The merged ID and the rank of each pair.
fn rank_table(ms: &Vec<(TokenId, TokenId, TokenId)>) -> (r: RankedMerges)
    requires
        ms@.len() <= u32::MAX,
    ensures
        r@ == first_ranks(ms@),
{
    let mut r: RankedMerges = HashMap::new();
    let mut i: usize = 0;
    proof {
        assert(ms@.take(0) =~= Seq::<(TokenId, TokenId, TokenId)>::empty());
    }
    while i < ms.len()
        invariant
            i <= ms@.len() <= u32::MAX,
            r@ == first_ranks(ms@.take(i as int)),
        decreases ms@.len() - i,
    {
        proof {
            assert(ms@.take(i + 1).drop_last() =~= ms@.take(i as int));
        }
        let key: u64 = ranked_merge_key(ms[i].0, ms[i].1);
        if !r.contains_key(&key) {
            r.insert(key, (ms[i].2, i as u32));
        }
        i += 1;
    }
    proof {
        assert(ms@.take(i as int) =~= ms@);
    }
    r
}

/// The merged ID and the rank of each pair of a SentencePiece file.
fn piece_rank_table(inv: &BytesMap<TokenId>, merges: &Vec<(String, String)>) -> (r: RankedMerges)
    requires
        merges@.len() <= u32::MAX,
    ensures
        r@ == listed_ranks(inv@, piece_merges(merges@)),
{
    let ghost all = piece_merges(merges@);
    let mut r: RankedMerges = HashMap::new();
    let mut i: usize = 0;
    proof {
        assert(all.take(0) =~= Seq::<MergeBytes>::empty());
    }
    while i < merges.len()
        invariant
            i <= merges@.len() <= u32::MAX,
            all == piece_merges(merges@),
            r@ == listed_ranks(inv@, all.take(i as int)),
        decreases merges@.len() - i,
    {
        let a: Vec<u8> = token_str_to_bytes(merges[i].0.as_str());
        let b: Vec<u8> = token_str_to_bytes(merges[i].1.as_str());
        let mut text: String = merges[i].0.clone();
        text.append(merges[i].1.as_str());
        let m: Vec<u8> = token_str_to_bytes(text.as_str());
        proof {
            lemma_encode_concat(merges@[i as int].0@, merges@[i as int].1@);
            assert(all[i as int] == (a@, b@, m@));
            assert(all.take(i + 1).drop_last() =~= all.take(i as int));
        }
        match find_merge(inv, a.as_slice(), b.as_slice(), m.as_slice()) {
            Some((x, y, z)) => {
                let key: u64 = ranked_merge_key(x, y);
                if !r.contains_key(&key) {
                    r.insert(key, (z, i as u32));
                }
            },
            None => {},
        }
        i += 1;
    }
    proof {
        assert(all.take(i as int) =~= all);
    }
    r
}

/// The added tokens of a file.
fn added_def_list(v: &Vec<AddedTokenJson>) -> (r: Vec<AddedTokenDef>)
    ensures
        added_views(r@) == added_defs(v@),
        r@.len() == v@.len(),
{
    let mut r: Vec<AddedTokenDef> = Vec::new();
    let mut i: usize = 0;
    while i < v.len()
        invariant
            i <= v@.len(),
            r@.len() == i,
            forall|j: int| 0 <= j < i ==> (#[trigger] r@[j])@ == added_defs(v@)[j],
        decreases v@.len() - i,
    {
        r.push(
            AddedTokenDef {
                content: copy_bytes(v[i].content.as_str().as_bytes()),
                id: TokenId(v[i].id),
                lstrip: v[i].lstrip,
                rstrip: v[i].rstrip,
            },
        );
        i += 1;
    }
    proof {
        assert(added_views(r@) =~= added_defs(v@));
    }
    r
}

/// Builds the byte-level tokenizer of a file. Merge priority is the merged ID
/// where the merge list produces IDs in order, else the place in the list.
pub fn build_bpe(tj: &TokenizerJson) -> (r: Result<Tokenizer, HfError>)
    ensures
        match r {
            Ok(t) => {
                &&& t.wf()
                &&& bpe_outcome(*tj) == Ok::<TokenizerView, HfError>(t@)
                &&& t.merge_ranks() == bpe_ranks(*tj)
            },
            Err(e) => bpe_outcome(*tj) == Err::<TokenizerView, HfError>(e),
        },
{
    if !text_equal(tj.model.model_type.as_str(), "BPE") {
        return Err(HfError::UnsupportedModel);
    }
    if tj.model.byte_fallback {
        return Err(HfError::HasByteFallback);
    }
    if is_too_large(tj) {
        return Err(HfError::TooLarge);
    }
    let entries = level_entry_list(&tj.model.vocab);
    proof {
        assert(ids_fit(entry_views(entries@))) by {
            let v = entry_views(entries@);
            assert forall|i: int| 0 <= i < v.len() implies (#[trigger] v[i]).1 + 1 < max_entries() by {
                assert(v[i].1 == tj.model.vocab@[i].1);
            }
        }
    }
    let (vocab, inv) = build_vocab(&entries, &tj.added_tokens);
    let ms = level_merge_list(&inv, &tj.model.merges);
    let ghost table = byte_table(contents(vocab@));
    let byte_remapping = match ByteRemapping::from_byte_vocab(&vocab) {
        Ok(m) => m,
        Err(MissingByte(b)) => {
            proof {
                lemma_missing_is(contents(vocab@), 0, b);
            }
            return Err(HfError::MissingByte(b));
        },
    };
    proof {
        lemma_missing_none(contents(vocab@), 0);
        assert(symbol_table(byte_remapping) == table);
    }
    let mut tokenizer = if is_in_id_order(&ms) {
        Tokenizer::new(id_table(&ms), vocab, byte_remapping)
    } else {
        Tokenizer::new_ranked(rank_table(&ms), vocab, byte_remapping)
    };
    let scheme = match detect_pretokenizer_type(&tj.pre_tokenizer) {
        Ok(t) => t,
        Err(e) => {
            return Err(e);
        },
    };
    let nfc = match detect_nfc_normalizer(&tj.normalizer) {
        Ok(b) => b,
        Err(e) => {
            return Err(e);
        },
    };
    tokenizer.set_pretokenizer_type(scheme);
    tokenizer.set_normalize_nfc(nfc);
    tokenizer.set_add_prefix_space(detect_add_prefix_space(&tj.pre_tokenizer));
    tokenizer.set_ignore_merges(tj.model.ignore_merges);
    tokenizer.set_added_tokens(added_def_list(&tj.added_tokens));
    Ok(tokenizer)
}

/// An upper-case hexadecimal digit.
pub open spec fn upper_hex(b: u8) -> bool {
    0x30 <= b <= 0x39 || 0x41 <= b <= 0x46
}

/// The byte of a byte token with upper-case digits.
pub open spec fn exact_fallback(s: Seq<u8>) -> Option<u8> {
    if s.len() == 6 && upper_hex(s[3]) && upper_hex(s[4]) {
        fallback_byte(s)
    } else {
        None
    }
}

/// The fallback token of each byte value: the entry with its name.
pub open spec fn fallback_ids(v: Seq<(String, u32)>) -> Seq<Option<TokenId>>
    decreases v.len(),
{
    if v.len() == 0 {
        Seq::new(256, |i: int| None::<TokenId>)
    } else {
        let head = fallback_ids(v.drop_last());
        match exact_fallback(encode_utf8(v.last().0@)) {
            Some(b) => head.update(b as int, Some(TokenId(v.last().1))),
            None => head,
        }
    }
}

/// Some byte has a fallback token.
pub open spec fn any_fallback(f: Seq<Option<TokenId>>) -> bool {
    exists|i: int| 0 <= i < f.len() && (#[trigger] f[i]) is Some
}

/// The tokens of a list that are matched in raw text, or in normalized text.
pub open spec fn tokens_matched(v: Seq<AddedTokenJson>, normalized: bool) -> Seq<AddedToken>
    decreases v.len(),
{
    if v.len() == 0 {
        Seq::empty()
    } else if v.last().normalized == normalized {
        tokens_matched(v.drop_last(), normalized).push(added_defs(v).last())
    } else {
        tokens_matched(v.drop_last(), normalized)
    }
}

/// The rank of each merge of a SentencePiece-style file.
pub open spec fn sp_ranks(tj: TokenizerJson) -> Map<u64, u32> {
    ranks_of(
        listed_ranks(
            entries_inverse(piece_entries(tj.model.vocab@)),
            piece_merges(tj.model.merges@),
        ),
    )
}

/// The SentencePiece-style model of a file, or the first reason why there is
/// none.
pub open spec fn sp_outcome(tj: TokenizerJson) -> Result<SpModel, HfError> {
    let entries = piece_entries(tj.model.vocab@);
    let inv = entries_inverse(entries);
    if tj.model.model_type@ != "BPE"@ {
        Err(HfError::UnsupportedModel)
    } else if !tj.model.byte_fallback {
        Err(HfError::NeedsByteFallback)
    } else if too_large(tj) {
        Err(HfError::TooLarge)
    } else if !any_fallback(fallback_ids(tj.model.vocab@)) {
        Err(HfError::NoByteTokens)
    } else {
        match (match tj.normalizer {
            Some(n) => normalizer_steps(n),
            None => Ok(Seq::empty()),
        }) {
            Err(e) => Err(e),
            Ok(steps) => match sp_metaspace(tj.pre_tokenizer, steps) {
                Err(e) => Err(e),
                Ok(metaspace) => Ok(
                    SpModel {
                        tables: SpView {
                            rules: ranked_rules(listed_ranks(inv, piece_merges(tj.model.merges@))),
                            vocab: file_vocab(entries, added_contents(tj.added_tokens@)),
                            vocab_inv: inv,
                            fallback: fallback_ids(tj.model.vocab@),
                        },
                        added: with_content(tokens_matched(tj.added_tokens@, false)),
                        between: first_empty(tokens_matched(tj.added_tokens@, false)),
                        norm_added: with_content(
                            normalized_specs(steps, tokens_matched(tj.added_tokens@, true)),
                        ),
                        steps,
                        metaspace,
                    },
                ),
            },
        }
    }
}

/// The fallback token of each byte value.
fn fallback_list(v: &Vec<(String, u32)>) -> (r: Vec<Option<TokenId>>)
    ensures
        r@ == fallback_ids(v@),
        r@.len() == 256,
{
    let mut r: Vec<Option<TokenId>> = Vec::new();
    let mut b: usize = 0;
    while b < 256
        invariant
            b <= 256,
            r@.len() == b,
            forall|i: int| 0 <= i < b ==> (#[trigger] r@[i]) is None,
        decreases 256 - b,
    {
        r.push(None);
        b += 1;
    }
    let mut i: usize = 0;
    proof {
        assert(v@.take(0) =~= Seq::<(String, u32)>::empty());
        assert(r@ =~= fallback_ids(v@.take(0)));
    }
    while i < v.len()
        invariant
            i <= v@.len(),
            r@.len() == 256,
            r@ == fallback_ids(v@.take(i as int)),
        decreases v@.len() - i,
    {
        proof {
            assert(v@.take(i + 1).drop_last() =~= v@.take(i as int));
        }
        let text = v[i].0.as_str();
        let bytes = text.as_bytes();
        let exact = bytes.len() == 6 && is_upper_hex(bytes[3]) && is_upper_hex(bytes[4]);
        if exact {
            match parse_byte_fallback(text) {
                Some(x) => {
                    r.set(x as usize, Some(TokenId(v[i].1)));
                },
                None => {},
            }
        }
        i += 1;
    }
    proof {
        assert(v@.take(i as int) =~= v@);
    }
    r
}

fn is_upper_hex(b: u8) -> (r: bool)
    ensures
        r == upper_hex(b),
{
    (0x30 <= b && b <= 0x39) || (0x41 <= b && b <= 0x46)
}

/// Whether some byte has a fallback token.
fn has_fallback(f: &Vec<Option<TokenId>>) -> (r: bool)
    ensures
        r == any_fallback(f@),
{
    let mut i: usize = 0;
    while i < f.len()
        invariant
            i <= f@.len(),
            forall|j: int| 0 <= j < i ==> (#[trigger] f@[j]) is None,
        decreases f@.len() - i,
    {
        if f[i].is_some() {
            return true;
        }
        i += 1;
    }
    false
}

/// The tokens of a file that are matched in raw text, or in normalized text.
fn matched_list(v: &Vec<AddedTokenJson>, normalized: bool) -> (r: Vec<AddedTokenSpec>)
    ensures
        spec_views(r@) == tokens_matched(v@, normalized),
{
    let mut r: Vec<AddedTokenSpec> = Vec::new();
    let mut i: usize = 0;
    proof {
        assert(v@.take(0) =~= Seq::<AddedTokenJson>::empty());
        assert(spec_views(r@) =~= tokens_matched(v@.take(0), normalized));
    }
    while i < v.len()
        invariant
            i <= v@.len(),
            spec_views(r@) == tokens_matched(v@.take(i as int), normalized),
        decreases v@.len() - i,
    {
        proof {
            assert(v@.take(i + 1).drop_last() =~= v@.take(i as int));
            assert(v@.take(i + 1).last() == v@[i as int]);
        }
        if v[i].normalized == normalized {
            let ghost before = r@;
            r.push(
                AddedTokenSpec {
                    content: v[i].content.clone(),
                    id: TokenId(v[i].id),
                    lstrip: v[i].lstrip,
                    rstrip: v[i].rstrip,
                },
            );
            proof {
                assert(spec_views(r@) =~= spec_views(before).push(
                    added_defs(v@.take(i + 1)).last(),
                ));
            }
        }
        i += 1;
    }
    proof {
        assert(v@.take(i as int) =~= v@);
    }
    r
}

/// Builds the SentencePiece-style tokenizer of a file. Merges keep their place
/// in the list as their rank.
pub fn build_sentencepiece(tj: &TokenizerJson) -> (r: Result<SentencePieceBPE, HfError>)
    ensures
        match r {
            Ok(m) => {
                &&& sp_outcome(*tj) == Ok::<SpModel, HfError>(m@)
                &&& m.merge_ranks() == sp_ranks(*tj)
            },
            Err(e) => sp_outcome(*tj) == Err::<SpModel, HfError>(e),
        },
{
    if !text_equal(tj.model.model_type.as_str(), "BPE") {
        return Err(HfError::UnsupportedModel);
    }
    if !tj.model.byte_fallback {
        return Err(HfError::NeedsByteFallback);
    }
    if is_too_large(tj) {
        return Err(HfError::TooLarge);
    }
    let fallback = fallback_list(&tj.model.vocab);
    if !has_fallback(&fallback) {
        return Err(HfError::NoByteTokens);
    }
    let mut norm_ops: Vec<NormOp> = Vec::new();
    match &tj.normalizer {
        Some(n) => {
            match parse_sp_normalizer(n, &mut norm_ops) {
                Ok(()) => {},
                Err(e) => {
                    return Err(e);
                },
            }
            proof {
                assert(step_views(norm_ops@) =~= normalizer_steps(*n)->Ok_0);
            }
        },
        None => {
            proof {
                assert(step_views(norm_ops@) =~= Seq::<NormStep>::empty());
            }
        },
    }
    let metaspace = match parse_sp_metaspace(&tj.pre_tokenizer, &norm_ops) {
        Ok(m) => m,
        Err(e) => {
            return Err(e);
        },
    };
    let entries = piece_entry_list(&tj.model.vocab);
    proof {
        assert(ids_fit(entry_views(entries@))) by {
            let v = entry_views(entries@);
            assert forall|i: int| 0 <= i < v.len() implies (#[trigger] v[i]).1 + 1 < max_entries() by {
                assert(v[i].1 == tj.model.vocab@[i].1);
            }
        }
    }
    let (vocab, vocab_inv) = build_vocab(&entries, &tj.added_tokens);
    let merges = piece_rank_table(&vocab_inv, &tj.model.merges);
    let tables = SpTables { merges, vocab, vocab_inv, fallback };
    Ok(
        SentencePieceBPE::new(
            tables,
            matched_list(&tj.added_tokens, false),
            matched_list(&tj.added_tokens, true),
            norm_ops,
            metaspace,
        ),
    )
}

/// A tokenizer of either style.
pub enum HfTokenizer {
    Bpe(Tokenizer),
    SentencePiece(SentencePieceBPE),
}

/// Loads a byte-level tokenizer.
pub fn load_hf_bpe(file: ParsedFile) -> (r: Result<Tokenizer, HfError>)
    ensures
        match parsed_contents(file) {
            Ok(tj) => match r {
                Ok(t) => {
                    &&& t.wf()
                    &&& bpe_outcome(tj) == Ok::<TokenizerView, HfError>(t@)
                    &&& t.merge_ranks() == bpe_ranks(tj)
                },
                Err(e) => bpe_outcome(tj) == Err::<TokenizerView, HfError>(e),
            },
            Err(e) => r == Err::<Tokenizer, HfError>(e),
        },
{
    match parse_tokenizer_json(file) {
        Ok(tj) => build_bpe(&tj),
        Err(e) => Err(e),
    }
}

/// Loads a SentencePiece-style tokenizer.
pub fn load_hf_sentencepiece(file: ParsedFile) -> (r: Result<SentencePieceBPE, HfError>)
    ensures
        match parsed_contents(file) {
            Ok(tj) => match r {
                Ok(m) => {
                    &&& sp_outcome(tj) == Ok::<SpModel, HfError>(m@)
                    &&& m.merge_ranks() == sp_ranks(tj)
                },
                Err(e) => sp_outcome(tj) == Err::<SpModel, HfError>(e),
            },
            Err(e) => r == Err::<SentencePieceBPE, HfError>(e),
        },
{
    match parse_tokenizer_json(file) {
        Ok(tj) => build_sentencepiece(&tj),
        Err(e) => Err(e),
    }
}

/// Loads a tokenizer: SentencePiece-style where the model has byte fallback,
/// else byte-level.
pub fn load_hf_slice(file: ParsedFile) -> (r: Result<HfTokenizer, HfError>)
    ensures
        match parsed_contents(file) {
            Ok(tj) => match r {
                Ok(HfTokenizer::Bpe(t)) => {
                    &&& !tj.model.byte_fallback
                    &&& t.wf()
                    &&& bpe_outcome(tj) == Ok::<TokenizerView, HfError>(t@)
                    &&& t.merge_ranks() == bpe_ranks(tj)
                },
                Ok(HfTokenizer::SentencePiece(m)) => {
                    &&& tj.model.byte_fallback
                    &&& sp_outcome(tj) == Ok::<SpModel, HfError>(m@)
                    &&& m.merge_ranks() == sp_ranks(tj)
                },
                Err(e) => if tj.model.byte_fallback {
                    sp_outcome(tj) == Err::<SpModel, HfError>(e)
                } else {
                    bpe_outcome(tj) == Err::<TokenizerView, HfError>(e)
                },
            },
            Err(e) => r == Err::<HfTokenizer, HfError>(e),
        },
{
    match parse_tokenizer_json(file) {
        Ok(tj) => if tj.model.byte_fallback {
            match build_sentencepiece(&tj) {
                Ok(m) => Ok(HfTokenizer::SentencePiece(m)),
                Err(e) => Err(e),
            }
        } else {
            match build_bpe(&tj) {
                Ok(t) => Ok(HfTokenizer::Bpe(t)),
                Err(e) => Err(e),
            }
        },
        Err(e) => Err(e),
    }
}

} // verus!
