//! Which merges, byte tokens and added tokens a file gives.
use crate::bpe::added::AddedToken;
use crate::bpe::byte_level::{byte_codepoint, law_byte_codepoints_differ};
use crate::bpe::bytes::{byte_position, utf8_byte};
use crate::bpe::merge::{id_rules, merge_key, ranked_rules};
use crate::bpe::rank_laws::lemma_key_parts;
use crate::load::assemble::{
    added_defs, bpe_outcome, exact_fallback, fallback_ids, first_ids, first_ranks, in_id_order,
    known_merges, level_entries, level_merges, listed_ranks, merge_ids, missing_from, MergeBytes,
    tokens_matched,
};
use crate::load::json::{AddedTokenJson, TokenizerJson};
use crate::load::vocab::{
    all_in_alphabet, alphabet_byte, entries_inverse, fallback_byte, level_bytes, piece_bytes,
};
use crate::sp::model::{first_empty, with_content};
use crate::token::TokenId;
use vstd::prelude::*;
use vstd::utf8::encode_utf8;

verus! {

pub proof fn lemma_same_pair(a: TokenId, b: TokenId, c: TokenId, d: TokenId)
    requires
        merge_key(a, b) == merge_key(c, d),
    ensures
        a == c && b == d,
{
    lemma_key_parts(a, b);
    lemma_key_parts(c, d);
}

/// The first merge of a pair in a list of known merges decides: the pair merges
/// to its ID, with its place in the list as the rank, or with the ID itself
/// where IDs are ranks.
pub proof fn law_first_merge_counts(ms: Seq<(TokenId, TokenId, TokenId)>, i: int)
    requires
        0 <= i < ms.len() <= u32::MAX,
        forall|j: int| 0 <= j < i ==> (#[trigger] ms[j]).0 != ms[i].0 || ms[j].1 != ms[i].1,
    ensures
        ranked_rules(first_ranks(ms))(ms[i].0, ms[i].1) == (ms[i].2, i as u32),
        id_rules(first_ids(ms))(ms[i].0, ms[i].1) == (ms[i].2, ms[i].2.0),
{
    lemma_first_at(ms, i);
}

proof fn lemma_first_at(ms: Seq<(TokenId, TokenId, TokenId)>, i: int)
    requires
        0 <= i < ms.len() <= u32::MAX,
        forall|j: int| 0 <= j < i ==> (#[trigger] ms[j]).0 != ms[i].0 || ms[j].1 != ms[i].1,
    ensures
        ({
            let k = merge_key(ms[i].0, ms[i].1);
            &&& first_ranks(ms).contains_key(k)
            &&& first_ranks(ms)[k] == (ms[i].2, i as u32)
            &&& first_ids(ms).contains_key(k)
            &&& first_ids(ms)[k] == ms[i].2
        }),
    decreases ms.len(),
{
    let d = ms.drop_last();
    if i < d.len() {
        assert(d[i] == ms[i]);
        assert forall|j: int| 0 <= j < i implies (#[trigger] d[j]).0 != d[i].0 || d[j].1
            != d[i].1 by {
            assert(d[j] == ms[j]);
        }
        lemma_first_at(d, i);
    } else {
        assert forall|j: int| 0 <= j < d.len() implies (#[trigger] d[j]).0 != ms[i].0 || d[j].1
            != ms[i].1 by {
            assert(d[j] == ms[j]);
        }
        lemma_not_listed(d, ms[i].0, ms[i].1);
    }
}

proof fn lemma_not_listed(ms: Seq<(TokenId, TokenId, TokenId)>, a: TokenId, b: TokenId)
    requires
        forall|j: int| 0 <= j < ms.len() ==> (#[trigger] ms[j]).0 != a || ms[j].1 != b,
    ensures
        !first_ranks(ms).contains_key(merge_key(a, b)),
        !first_ids(ms).contains_key(merge_key(a, b)),
    decreases ms.len(),
{
    if ms.len() > 0 {
        let d = ms.drop_last();
        assert forall|j: int| 0 <= j < d.len() implies (#[trigger] d[j]).0 != a || d[j].1 != b by {
            assert(d[j] == ms[j]);
        }
        lemma_not_listed(d, a, b);
        assert(ms.last() == ms[ms.len() - 1]);
        if merge_key(ms.last().0, ms.last().1) == merge_key(a, b) {
            lemma_same_pair(ms.last().0, ms.last().1, a, b);
        }
    }
}

/// A pair that no merge of the list has does not merge.
pub proof fn law_other_pairs_do_not_merge(
    ms: Seq<(TokenId, TokenId, TokenId)>,
    a: TokenId,
    b: TokenId,
)
    requires
        forall|j: int| 0 <= j < ms.len() ==> (#[trigger] ms[j]).0 != a || ms[j].1 != b,
    ensures
        ranked_rules(first_ranks(ms))(a, b).1 == u32::MAX,
        id_rules(first_ids(ms))(a, b).1 == u32::MAX,
{
    lemma_not_listed(ms, a, b);
}

/// The merges of a file that are known are those whose parts and whole have an
/// ID, in the order of the file.
pub proof fn law_known_merges_in_order(
    inv: Map<Seq<u8>, TokenId>,
    a: Seq<MergeBytes>,
    m: MergeBytes,
    b: Seq<MergeBytes>,
)
    ensures
        known_merges(inv, a + b) == known_merges(inv, a) + known_merges(inv, b),
        inv.contains_key(m.0) && inv.contains_key(m.1) && inv.contains_key(m.2) ==> known_merges(
            inv,
            seq![m],
        ) == seq![(inv[m.0], inv[m.1], inv[m.2])],
        !(inv.contains_key(m.0) && inv.contains_key(m.1) && inv.contains_key(m.2))
            ==> known_merges(inv, seq![m]).len() == 0,
    decreases b.len(),
{
    let none = Seq::<MergeBytes>::empty();
    assert(seq![m].drop_last() =~= none);
    assert(known_merges(inv, none) =~= Seq::<(TokenId, TokenId, TokenId)>::empty());
    if inv.contains_key(m.0) && inv.contains_key(m.1) && inv.contains_key(m.2) {
        assert(known_merges(inv, seq![m]) =~= seq![(inv[m.0], inv[m.1], inv[m.2])]);
    }
    if b.len() == 0 {
        assert(a + b =~= a);
        assert(known_merges(inv, a) + known_merges(inv, b) =~= known_merges(inv, a));
    } else {
        assert((a + b).drop_last() =~= a + b.drop_last());
        assert((a + b).last() == b.last());
        law_known_merges_in_order(inv, a, m, b.drop_last());
        assert(known_merges(inv, a + b) =~= known_merges(inv, a) + known_merges(inv, b));
    }
}

/// In a byte-level tokenizer from a file, an earlier merge never has a higher
/// rank than a later one, and each merges its pair to its own ID.
pub proof fn law_earlier_merges_rank_lower(tj: TokenizerJson, i: int, j: int)
    requires
        bpe_outcome(tj) is Ok,
        ({
            let ms = known_merges(
                entries_inverse(level_entries(tj.model.vocab@)),
                level_merges(tj.model.merges@),
            );
            &&& 0 <= i <= j < ms.len()
            &&& forall|k: int| 0 <= k < i ==> (#[trigger] ms[k]).0 != ms[i].0 || ms[k].1 != ms[i].1
            &&& forall|k: int| 0 <= k < j ==> (#[trigger] ms[k]).0 != ms[j].0 || ms[k].1 != ms[j].1
        }),
    ensures
        ({
            let ms = known_merges(
                entries_inverse(level_entries(tj.model.vocab@)),
                level_merges(tj.model.merges@),
            );
            let rules = bpe_outcome(tj)->Ok_0.model.rules;
            &&& rules(ms[i].0, ms[i].1).0 == ms[i].2
            &&& rules(ms[i].0, ms[i].1).1 <= rules(ms[j].0, ms[j].1).1
        }),
{
    let inv = entries_inverse(level_entries(tj.model.vocab@));
    let ms = known_merges(inv, level_merges(tj.model.merges@));
    lemma_known_len(inv, level_merges(tj.model.merges@));
    law_first_merge_counts(ms, i);
    law_first_merge_counts(ms, j);
    if in_id_order(ms) {
        lemma_in_order(ms, i, j);
    }
}

proof fn lemma_known_len(inv: Map<Seq<u8>, TokenId>, merges: Seq<MergeBytes>)
    ensures
        known_merges(inv, merges).len() <= merges.len(),
    decreases merges.len(),
{
    if merges.len() > 0 {
        lemma_known_len(inv, merges.drop_last());
    }
}

proof fn lemma_in_order(ms: Seq<(TokenId, TokenId, TokenId)>, i: int, j: int)
    requires
        0 <= i <= j < ms.len(),
        in_id_order(ms),
    ensures
        ms[i].2.0 <= ms[j].2.0,
    decreases j - i,
{
    if i < j {
        lemma_in_order(ms, i, j - 1);
        assert(ms[j - 1].2.0 <= ms[j - 1 + 1].2.0);
    }
}

/// In a SentencePiece-style model from a file, the first merge of a pair that
/// is known merges it, with its place in the whole list as the rank.
pub proof fn law_listed_merge_has_its_place(
    inv: Map<Seq<u8>, TokenId>,
    merges: Seq<MergeBytes>,
    i: int,
)
    requires
        0 <= i < merges.len() <= u32::MAX,
        inv.contains_key(merges[i].0),
        inv.contains_key(merges[i].1),
        inv.contains_key(merges[i].2),
        forall|j: int|
            0 <= j < i ==> !(inv.contains_key((#[trigger] merges[j]).0) && inv.contains_key(
                merges[j].1,
            ) && inv.contains_key(merges[j].2) && inv[merges[j].0] == inv[merges[i].0]
                && inv[merges[j].1] == inv[merges[i].1]),
    ensures
        ranked_rules(listed_ranks(inv, merges))(inv[merges[i].0], inv[merges[i].1]) == (
            inv[merges[i].2],
            i as u32,
        ),
{
    lemma_listed_at(inv, merges, i);
}

proof fn lemma_listed_at(inv: Map<Seq<u8>, TokenId>, merges: Seq<MergeBytes>, i: int)
    requires
        0 <= i < merges.len() <= u32::MAX,
        merge_ids(inv, merges[i]) is Some,
        forall|j: int|
            0 <= j < i ==> !(inv.contains_key((#[trigger] merges[j]).0) && inv.contains_key(
                merges[j].1,
            ) && inv.contains_key(merges[j].2) && inv[merges[j].0] == inv[merges[i].0]
                && inv[merges[j].1] == inv[merges[i].1]),
    ensures
        ({
            let k = merge_key(inv[merges[i].0], inv[merges[i].1]);
            &&& listed_ranks(inv, merges).contains_key(k)
            &&& listed_ranks(inv, merges)[k] == (inv[merges[i].2], i as u32)
        }),
    decreases merges.len(),
{
    let d = merges.drop_last();
    if i < d.len() {
        assert(d[i] == merges[i]);
        assert forall|j: int| 0 <= j < i implies !(inv.contains_key((#[trigger] d[j]).0)
            && inv.contains_key(d[j].1) && inv.contains_key(d[j].2) && inv[d[j].0] == inv[d[i].0]
            && inv[d[j].1] == inv[d[i].1]) by {
            assert(d[j] == merges[j]);
        }
        lemma_listed_at(inv, d, i);
    } else {
        assert forall|j: int| 0 <= j < d.len() implies !(inv.contains_key((#[trigger] d[j]).0)
            && inv.contains_key(d[j].1) && inv.contains_key(d[j].2) && inv[d[j].0]
            == inv[merges[i].0] && inv[d[j].1] == inv[merges[i].1]) by {
            assert(d[j] == merges[j]);
        }
        lemma_not_placed(inv, d, inv[merges[i].0], inv[merges[i].1]);
    }
}

proof fn lemma_not_placed(
    inv: Map<Seq<u8>, TokenId>,
    merges: Seq<MergeBytes>,
    a: TokenId,
    b: TokenId,
)
    requires
        forall|j: int|
            0 <= j < merges.len() ==> !(inv.contains_key((#[trigger] merges[j]).0)
                && inv.contains_key(merges[j].1) && inv.contains_key(merges[j].2)
                && inv[merges[j].0] == a && inv[merges[j].1] == b),
    ensures
        !listed_ranks(inv, merges).contains_key(merge_key(a, b)),
    decreases merges.len(),
{
    if merges.len() > 0 {
        let d = merges.drop_last();
        assert forall|j: int| 0 <= j < d.len() implies !(inv.contains_key((#[trigger] d[j]).0)
            && inv.contains_key(d[j].1) && inv.contains_key(d[j].2) && inv[d[j].0] == a
            && inv[d[j].1] == b) by {
            assert(d[j] == merges[j]);
        }
        lemma_not_placed(inv, d, a, b);
        let m = merges.last();
        assert(m == merges[merges.len() - 1]);
        if merge_ids(inv, m) is Some && merge_key(inv[m.0], inv[m.1]) == merge_key(a, b) {
            lemma_same_pair(inv[m.0], inv[m.1], a, b);
        }
    }
}

/// A pair that no known merge of the list has does not merge.
pub proof fn law_unlisted_pairs_do_not_merge(
    inv: Map<Seq<u8>, TokenId>,
    merges: Seq<MergeBytes>,
    a: TokenId,
    b: TokenId,
)
    requires
        forall|j: int|
            0 <= j < merges.len() ==> !(inv.contains_key((#[trigger] merges[j]).0)
                && inv.contains_key(merges[j].1) && inv.contains_key(merges[j].2)
                && inv[merges[j].0] == a && inv[merges[j].1] == b),
    ensures
        ranked_rules(listed_ranks(inv, merges))(a, b).1 == u32::MAX,
{
    lemma_not_placed(inv, merges, a, b);
}

/// An upper-case hexadecimal digit.
pub open spec fn hex_digit(d: int) -> u8 {
    if d < 10 {
        (0x30 + d) as u8
    } else {
        (0x37 + d) as u8
    }
}

/// The name of the token of a byte: `<0x00>` to `<0xFF>`.
pub open spec fn byte_name(b: u8) -> Seq<u8> {
    seq![0x3Cu8, 0x30u8, 0x78u8, hex_digit(b as int / 16), hex_digit(b as int % 16), 0x3Eu8]
}

/// A text is the name of a byte token where it is that of its byte.
proof fn lemma_byte_name(s: Seq<u8>, b: u8)
    ensures
        exact_fallback(s) == Some(b) <==> s == byte_name(b),
        s == byte_name(b) ==> fallback_byte(s) == Some(b),
{
    let hi = b as int / 16;
    let lo = b as int % 16;
    let n = byte_name(b);
    assert(n.len() == 6 && n[0] == 0x3C && n[1] == 0x30 && n[2] == 0x78 && n[3] == hex_digit(hi)
        && n[4] == hex_digit(lo) && n[5] == 0x3E);
    if exact_fallback(s) == Some(b) {
        assert(s =~= n);
    }
}

/// The name of a byte token stands for its byte, and other text that is not such
/// a name, with digits of either case, for itself.
pub proof fn law_byte_name_is_its_byte(b: u8, s: Seq<u8>)
    ensures
        piece_bytes(byte_name(b)) == seq![b],
        s.len() != 6 || s[0] != 0x3C || s[1] != 0x30 || s[2] != 0x78 || s[5] != 0x3E
            ==> piece_bytes(s) == s,
{
    lemma_byte_name(byte_name(b), b);
}

/// A byte falls back to the entry with its name, the last one if there are
/// several, and to none if there is none.
pub proof fn law_fallback_is_the_named_entry(v: Seq<(String, u32)>, b: u8, i: int)
    ensures
        fallback_ids(v).len() == 256,
        0 <= i < v.len() && encode_utf8(v[i].0@) == byte_name(b) && (forall|j: int|
            i < j < v.len() ==> encode_utf8((#[trigger] v[j]).0@) != byte_name(b))
            ==> fallback_ids(v)[b as int] == Some(TokenId(v[i].1)),
        (forall|j: int|
            0 <= j < v.len() ==> encode_utf8((#[trigger] v[j]).0@) != byte_name(b))
            ==> fallback_ids(v)[b as int] is None,
    decreases v.len(),
{
    if v.len() > 0 {
        let d = v.drop_last();
        law_fallback_is_the_named_entry(d, b, i);
        let last = encode_utf8(v.last().0@);
        assert(v.last() == v[v.len() - 1]);
        lemma_byte_name(last, b);
        assert(forall|j: int| 0 <= j < d.len() ==> (#[trigger] d[j]) == v[j]);
        if 0 <= i < d.len() && encode_utf8(v[i].0@) == byte_name(b) && (forall|j: int|
            i < j < v.len() ==> encode_utf8((#[trigger] v[j]).0@) != byte_name(b)) {
            assert(encode_utf8(v[v.len() - 1].0@) != byte_name(b));
            assert forall|j: int| i < j < d.len() implies encode_utf8((#[trigger] d[j]).0@)
                != byte_name(b) by {
                assert(d[j] == v[j]);
            }
        }
        if forall|j: int| 0 <= j < v.len() ==> encode_utf8((#[trigger] v[j]).0@) != byte_name(b) {
            assert(encode_utf8(v[v.len() - 1].0@) != byte_name(b));
            assert forall|j: int| 0 <= j < d.len() implies encode_utf8((#[trigger] d[j]).0@)
                != byte_name(b) by {
                assert(d[j] == v[j]);
            }
        }
    }
}

/// A byte-level text of which each character stands for a byte is those bytes.
pub proof fn law_level_text_is_its_bytes(t: Seq<char>, s: Seq<u8>)
    requires
        t.len() == s.len(),
        forall|i: int| 0 <= i < s.len() ==> (#[trigger] t[i]) as u32 == byte_codepoint(s[i]),
    ensures
        level_bytes(t) == s,
{
    assert forall|i: int| 0 <= i < t.len() implies alphabet_byte(#[trigger] t[i]) == Some(s[i]) by {
        assert(byte_codepoint(s[i]) == t[i] as u32);
        let c = t[i];
        let x = choose|x: u8| byte_codepoint(x) == c as u32;
        law_byte_codepoints_differ(x, s[i]);
    }
    assert(all_in_alphabet(t));
    assert(level_bytes(t) =~= s);
}

/// The added tokens that are matched in raw text, or in normalized text, are
/// those that the file says so of, in its order.
pub proof fn law_matched_tokens_are_marked_so(v: Seq<AddedTokenJson>, normalized: bool)
    ensures
        tokens_matched(v, normalized) == added_defs(
            v.filter(|t: AddedTokenJson| t.normalized == normalized),
        ),
    decreases v.len(),
{
    reveal(Seq::filter);
    let f = |t: AddedTokenJson| t.normalized == normalized;
    if v.len() > 0 {
        law_matched_tokens_are_marked_so(v.drop_last(), normalized);
    }
    assert(tokens_matched(v, normalized) =~= added_defs(v.filter(f)));
}

/// The tokens with content are those of the list that have some, in order.
pub proof fn law_tokens_with_content(v: Seq<AddedToken>)
    ensures
        with_content(v) == v.filter(|t: AddedToken| t.content.len() > 0),
    decreases v.len(),
{
    reveal(Seq::filter);
    if v.len() > 0 {
        law_tokens_with_content(v.drop_last());
    }
    assert(with_content(v) =~= v.filter(|t: AddedToken| t.content.len() > 0));
}

/// The token without content is the first one of the list.
pub proof fn law_first_token_without_content(v: Seq<AddedToken>, i: int)
    ensures
        0 <= i < v.len() && v[i].content.len() == 0 && (forall|j: int|
            0 <= j < i ==> (#[trigger] v[j]).content.len() > 0) ==> first_empty(v) == Some(v[i]),
        (forall|j: int| 0 <= j < v.len() ==> (#[trigger] v[j]).content.len() > 0) ==> first_empty(
            v,
        ) is None,
    decreases v.len(),
{
    if v.len() > 0 {
        let d = v.drop_last();
        law_first_token_without_content(d, i);
        assert(v.last() == v[v.len() - 1]);
        assert(forall|j: int| 0 <= j < d.len() ==> (#[trigger] d[j]) == v[j]);
        if forall|j: int| 0 <= j < v.len() - 1 ==> (#[trigger] v[j]).content.len() > 0 {
            assert forall|j: int| 0 <= j < d.len() implies (#[trigger] d[j]).content.len() > 0 by {
                assert(d[j] == v[j]);
            }
        }
        if 0 <= i < d.len() && (forall|j: int| 0 <= j < i ==> (#[trigger] v[j]).content.len() > 0) {
            assert forall|j: int| 0 <= j < i implies (#[trigger] d[j]).content.len() > 0 by {
                assert(d[j] == v[j]);
            }
        }
    }
}

/// A byte-level file is refused for a missing byte only where text can hold that
/// byte and no entry is that byte alone.
pub proof fn law_missing_byte_is_missing(vocab: Seq<Seq<u8>>, b: u8)
    ensures
        missing_from(vocab, 0) is None && b < 0xF5 && b != 0xC0 && b != 0xC1 ==> vocab.contains(
            seq![b],
        ),
        missing_from(vocab, 0) == Some(b) ==> b < 0xF5 && b != 0xC0 && b != 0xC1
            && !vocab.contains(seq![b]),
{
    lemma_missing(vocab, 0, b);
    lemma_position_contained(vocab, b);
}

proof fn lemma_missing(vocab: Seq<Seq<u8>>, from: int, b: u8)
    requires
        0 <= from,
    ensures
        missing_from(vocab, from) is None && from <= b && utf8_byte(b) ==> byte_position(vocab, b) is Some,
        missing_from(vocab, from) == Some(b) ==> utf8_byte(b) && byte_position(vocab, b) is None,
    decreases 256 - from,
{
    if from < 256 {
        lemma_missing(vocab, from + 1, b);
    }
}

proof fn lemma_position_contained(vocab: Seq<Seq<u8>>, b: u8)
    ensures
        byte_position(vocab, b) is Some <==> vocab.contains(seq![b]),
    decreases vocab.len(),
{
    if vocab.len() > 0 {
        let d = vocab.drop_last();
        lemma_position_contained(d, b);
        assert(vocab.last() == vocab[vocab.len() - 1]);
        if vocab.contains(seq![b]) {
            let i = choose|i: int| 0 <= i < vocab.len() && vocab[i] == seq![b];
            if i < d.len() {
                assert(d[i] == seq![b]);
            }
        }
        if d.contains(seq![b]) {
            let i = choose|i: int| 0 <= i < d.len() && d[i] == seq![b];
            assert(vocab[i] == seq![b]);
        }
    }
}

} // verus!
