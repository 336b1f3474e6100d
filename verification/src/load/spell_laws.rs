//! Tokenizers from files give back the text that they encode.
use crate::bpe::bytes::{byte_position, lemma_byte_position_bound, lemma_byte_position_some};
use crate::bpe::merge::merge_key;
use crate::bpe::model::lemma_vocab_inverse;
use crate::bpe::rules::{rules_spell, NO_MERGE};
use crate::bpe::tiktoken::{
    bytes_spell, encoded, expand_ids, law_decode_inverts_encode, max_entries, TokenizerView,
};
use crate::load::assemble::{
    bpe_outcome, first_ids, first_ranks, known_merges, level_entries, level_merges, listed_ranks,
    merge_ids, missing_from, piece_entries, piece_merges, sp_outcome, MergeBytes,
};
use crate::load::file_laws::{law_missing_byte_is_missing, lemma_same_pair};
use crate::load::json::{HfError, TokenizerJson};
use crate::load::merge_laws::lemma_placed_len;
use crate::load::vocab::{
    added_contents, entries_inverse, fallback_byte, file_vocab, id_count, ids_fit, lemma_id_count,
    level_bytes, piece_bytes, placed, with_added, VocabEntry,
};
use crate::load::vocab_laws::{law_entry_has_its_bytes, law_inverse_is_an_entry};
use crate::pretokenize::scalar_laws::law_text_has_utf8_bytes;
use crate::token::TokenId;
use vstd::prelude::*;
use vstd::utf8::{encode_utf8, valid_utf8};

verus! {

/// No two vocabulary entries of a file have the same ID, and each has bytes.
pub open spec fn is_plain_vocab(v: Seq<(String, u32)>) -> bool {
    &&& forall|i: int, j: int|
        0 <= i < j < v.len() ==> (#[trigger] v[i]).1 != (#[trigger] v[j]).1
    &&& forall|i: int| 0 <= i < v.len() ==> level_bytes((#[trigger] v[i]).0@).len() > 0
}

proof fn lemma_id_spells(tj: TokenizerJson, b: Seq<u8>)
    requires
        is_plain_vocab(tj.model.vocab@),
        ids_fit(level_entries(tj.model.vocab@)),
        entries_inverse(level_entries(tj.model.vocab@)).contains_key(b),
    ensures
        ({
            let entries = level_entries(tj.model.vocab@);
            let vocab = file_vocab(entries, added_contents(tj.added_tokens@));
            let id = entries_inverse(entries)[b].0;
            &&& id < vocab.len()
            &&& vocab[id as int] == b
            &&& id + 1 < max_entries()
        }),
{
    let v = tj.model.vocab@;
    let entries = level_entries(v);
    law_inverse_is_an_entry(entries, b);
    let i = choose|i: int|
        0 <= i < entries.len() && (#[trigger] entries[i]).0 == b && entries[i].1 == entries_inverse(
            entries,
        )[b].0;
    assert(entries[i].0 == level_bytes(v[i].0@));
    assert forall|j: int| i < j < entries.len() implies (#[trigger] entries[j]).1 != entries[i].1 by {
        assert(entries[j].1 == v[j].1 && entries[i].1 == v[i].1);
    }
    law_entry_has_its_bytes(entries, added_contents(tj.added_tokens@), i);
}

proof fn lemma_first_source(ms: Seq<(TokenId, TokenId, TokenId)>, a: TokenId, b: TokenId) -> (i: int)
    requires
        first_ids(ms).contains_key(merge_key(a, b)) || first_ranks(ms).contains_key(
            merge_key(a, b),
        ),
    ensures
        0 <= i < ms.len(),
        ms[i].0 == a,
        ms[i].1 == b,
        first_ids(ms).contains_key(merge_key(a, b)),
        first_ids(ms)[merge_key(a, b)] == ms[i].2,
        first_ranks(ms).contains_key(merge_key(a, b)),
        first_ranks(ms)[merge_key(a, b)].0 == ms[i].2,
    decreases ms.len(),
{
    let d = ms.drop_last();
    let k = merge_key(a, b);
    if first_ids(d).contains_key(k) || first_ranks(d).contains_key(k) {
        lemma_first_source(d, a, b)
    } else {
        lemma_same_pair(ms.last().0, ms.last().1, a, b);
        ms.len() - 1
    }
}

proof fn lemma_known_source(
    inv: Map<Seq<u8>, TokenId>,
    merges: Seq<MergeBytes>,
    i: int,
) -> (j: int)
    requires
        0 <= i < known_merges(inv, merges).len(),
    ensures
        0 <= j < merges.len(),
        merge_ids(inv, merges[j]) == Some(known_merges(inv, merges)[i]),
    decreases merges.len(),
{
    let d = merges.drop_last();
    if i < known_merges(inv, d).len() {
        lemma_known_source(inv, d, i)
    } else {
        merges.len() - 1
    }
}

/// The merges of a byte-level tokenizer from a file put bytes together: the
/// token of a merge is the bytes of its left part and then of its right part.
pub proof fn law_file_merges_spell(tj: TokenizerJson)
    requires
        bpe_outcome(tj) is Ok,
        is_plain_vocab(tj.model.vocab@),
    ensures
        rules_spell(bpe_outcome(tj)->Ok_0.model.rules, bpe_outcome(tj)->Ok_0.model.vocab),
{
    let t = bpe_outcome(tj)->Ok_0;
    let entries = level_entries(tj.model.vocab@);
    let inv = entries_inverse(entries);
    let merges = level_merges(tj.model.merges@);
    let ms = known_merges(inv, merges);
    let rules = t.model.rules;
    let vocab = t.model.vocab;
    lemma_ids_fit(tj);
    assert forall|a: TokenId, b: TokenId|
        (#[trigger] rules(a, b)).1 != NO_MERGE && a.0 < vocab.len() && b.0 < vocab.len() implies {
        &&& rules(a, b).0.0 < vocab.len()
        &&& vocab[rules(a, b).0.0 as int] == vocab[a.0 as int] + vocab[b.0 as int]
    } by {
        let i = lemma_first_source(ms, a, b);
        let j = lemma_known_source(inv, merges, i);
        let m = merges[j];
        lemma_id_spells(tj, m.0);
        lemma_id_spells(tj, m.1);
        lemma_id_spells(tj, m.2);
        assert(m.2 == m.0 + m.1);
        assert(rules(a, b).0 == ms[i].2);
    }
}

proof fn lemma_ids_fit(tj: TokenizerJson)
    requires
        bpe_outcome(tj) is Ok,
    ensures
        ids_fit(level_entries(tj.model.vocab@)),
{
    let v = tj.model.vocab@;
    let entries = level_entries(v);
    assert forall|i: int| 0 <= i < entries.len() implies (#[trigger] entries[i]).1 + 1
        < max_entries() by {
        assert(entries[i].1 == v[i].1);
    }
}

proof fn lemma_vocab_fits(tj: TokenizerJson)
    requires
        bpe_outcome(tj) is Ok,
    ensures
        bpe_outcome(tj)->Ok_0.model.vocab.len() <= u32::MAX,
{
    let entries = level_entries(tj.model.vocab@);
    let added = added_contents(tj.added_tokens@);
    lemma_ids_fit(tj);
    law_vocab_ends_with_an_id(entries, added);
    let n = file_vocab(entries, added).len();
    if n > 1 {
        if exists|i: int| 0 <= i < entries.len() && (#[trigger] entries[i]).1 + 1 == n {
            let i = choose|i: int| 0 <= i < entries.len() && (#[trigger] entries[i]).1 + 1 == n;
            assert(entries[i].1 + 1 < max_entries());
        } else {
            let k = choose|k: int| 0 <= k < added.len() && (#[trigger] added[k]).1 + 1 == n;
            assert(added[k].1 == tj.added_tokens@[k].id);
        }
    }
}

/// The vocabulary of a file ends with its greatest ID: that of an entry or of an
/// added token. Without any it has one place.
pub proof fn law_vocab_ends_with_an_id(entries: Seq<VocabEntry>, added: Seq<(Seq<u8>, u32)>)
    requires
        ids_fit(entries),
    ensures
        ({
            let n = file_vocab(entries, added).len();
            n == 1 || (exists|i: int|
                0 <= i < entries.len() && (#[trigger] entries[i]).1 + 1 == n) || (exists|k: int|
                0 <= k < added.len() && (#[trigger] added[k]).1 + 1 == n)
        }),
        forall|i: int|
            0 <= i < entries.len() ==> (#[trigger] entries[i]).1 < file_vocab(entries, added).len(),
        forall|k: int|
            0 <= k < added.len() ==> (#[trigger] added[k]).1 < file_vocab(entries, added).len(),
{
    let c = id_count(entries);
    lemma_count_source(entries);
    lemma_id_count(entries);
    lemma_placed_len(entries, c);
    lemma_added_ends(placed(entries, c), added);
}

proof fn lemma_count_source(entries: Seq<VocabEntry>)
    ensures
        id_count(entries) == 1 || exists|i: int|
            0 <= i < entries.len() && (#[trigger] entries[i]).1 + 1 == id_count(entries),
    decreases entries.len(),
{
    if entries.len() > 0 {
        let d = entries.drop_last();
        lemma_count_source(d);
        assert(entries[entries.len() - 1] == entries.last());
        if id_count(entries) == id_count(d) && id_count(d) != 1 {
            let i = choose|i: int| 0 <= i < d.len() && (#[trigger] d[i]).1 + 1 == id_count(d);
            assert(entries[i].1 + 1 == id_count(entries));
        }
    }
}

proof fn lemma_added_ends(vocab: Seq<Seq<u8>>, added: Seq<(Seq<u8>, u32)>)
    ensures
        ({
            let n = with_added(vocab, added).len();
            &&& n >= vocab.len()
            &&& n == vocab.len() || exists|k: int|
                0 <= k < added.len() && (#[trigger] added[k]).1 + 1 == n
            &&& forall|k: int| 0 <= k < added.len() ==> (#[trigger] added[k]).1 < n
        }),
    decreases added.len(),
{
    if added.len() > 0 {
        let d = added.drop_last();
        lemma_added_ends(vocab, d);
        let n = with_added(vocab, added).len();
        assert(added[added.len() - 1] == added.last());
        if n == with_added(vocab, d).len() && n != vocab.len() {
            let k = choose|k: int| 0 <= k < d.len() && (#[trigger] d[k]).1 + 1 == n;
            assert(added[k].1 + 1 == n);
        }
        assert forall|k: int| 0 <= k < added.len() implies (#[trigger] added[k]).1 < n by {
            if k < d.len() {
                assert(d[k] == added[k]);
            }
        }
    }
}

/// Every byte of UTF-8 text has a symbol that stands for it, in every byte-level
/// tokenizer from a file.
pub proof fn law_file_bytes_spell(tj: TokenizerJson, s: Seq<u8>)
    requires
        bpe_outcome(tj) is Ok,
        valid_utf8(s),
    ensures
        bytes_spell(bpe_outcome(tj)->Ok_0.model, s),
{
    let t = bpe_outcome(tj)->Ok_0;
    let vocab = t.model.vocab;
    lemma_vocab_fits(tj);
    assert forall|i: int| 0 <= i < s.len() implies t.model.table[(#[trigger] s[i]) as int].0
        < vocab.len() && vocab[t.model.table[s[i] as int].0 as int] == seq![s[i]] by {
        law_text_has_utf8_bytes(s, i);
        assert(missing_from(vocab, 0) is None);
        law_missing_byte_is_missing(vocab, s[i]);
        assert(vocab.contains(seq![s[i]]));
        let k = choose|k: int| 0 <= k < vocab.len() && vocab[k] == seq![s[i]];
        lemma_byte_position_some(vocab, s[i], k);
        lemma_byte_position_bound(vocab, s[i]);
        assert(byte_position(vocab, s[i]) is Some);
    }
}

/// Decoding what a tokenizer from a file encodes gives the text back, where the
/// file neither normalizes nor pads nor strips and its added tokens have the IDs
/// of their content.
pub proof fn law_file_round_trip(tj: TokenizerJson, t: TokenizerView, s: Seq<u8>)
    requires
        bpe_outcome(tj) == Ok::<TokenizerView, HfError>(t),
        is_plain_vocab(tj.model.vocab@),
        valid_utf8(s),
        !t.nfc,
        !t.prefix_space,
        forall|i: int|
            0 <= i < t.added.len() ==> {
                &&& !(#[trigger] t.added[i]).lstrip
                &&& !t.added[i].rstrip
                &&& t.added[i].content.len() > 0
                &&& t.model.vocab[t.added[i].id.0 as int] == t.added[i].content
            },
    ensures
        expand_ids(t.model.vocab, encoded(t, s)) == s,
{
    law_file_merges_spell(tj);
    law_file_bytes_spell(tj, s);
    lemma_vocab_fits(tj);
    lemma_vocab_inverse(t.model.vocab);
    law_decode_inverts_encode(t, s, 0);
}

/// The same of a vocabulary for SentencePiece-style models: no two entries have
/// the same ID, and each has bytes.
pub open spec fn is_plain_piece_vocab(v: Seq<(String, u32)>) -> bool {
    &&& forall|i: int, j: int|
        0 <= i < j < v.len() ==> (#[trigger] v[i]).1 != (#[trigger] v[j]).1
    &&& forall|i: int| 0 <= i < v.len() ==> encode_utf8((#[trigger] v[i]).0@).len() > 0
}

/// No part of a merge, and no merge as a whole, is the name of a byte token.
pub open spec fn merges_are_text(v: Seq<(String, String)>) -> bool {
    forall|i: int|
        0 <= i < v.len() ==> {
            &&& fallback_byte(encode_utf8((#[trigger] v[i]).0@)) is None
            &&& fallback_byte(encode_utf8(v[i].1@)) is None
            &&& fallback_byte(encode_utf8(v[i].0@) + encode_utf8(v[i].1@)) is None
        }
}

proof fn lemma_piece_spells(tj: TokenizerJson, b: Seq<u8>)
    requires
        is_plain_piece_vocab(tj.model.vocab@),
        ids_fit(piece_entries(tj.model.vocab@)),
        entries_inverse(piece_entries(tj.model.vocab@)).contains_key(b),
    ensures
        ({
            let entries = piece_entries(tj.model.vocab@);
            let vocab = file_vocab(entries, added_contents(tj.added_tokens@));
            let id = entries_inverse(entries)[b].0;
            &&& id < vocab.len()
            &&& vocab[id as int] == b
        }),
{
    let v = tj.model.vocab@;
    let entries = piece_entries(v);
    law_inverse_is_an_entry(entries, b);
    let i = choose|i: int|
        0 <= i < entries.len() && (#[trigger] entries[i]).0 == b && entries[i].1 == entries_inverse(
            entries,
        )[b].0;
    assert(entries[i].0 == piece_bytes(encode_utf8(v[i].0@)));
    assert forall|j: int| i < j < entries.len() implies (#[trigger] entries[j]).1 != entries[i].1 by {
        assert(entries[j].1 == v[j].1 && entries[i].1 == v[i].1);
    }
    law_entry_has_its_bytes(entries, added_contents(tj.added_tokens@), i);
}

proof fn lemma_listed_source(
    inv: Map<Seq<u8>, TokenId>,
    merges: Seq<MergeBytes>,
    a: TokenId,
    b: TokenId,
) -> (j: int)
    requires
        listed_ranks(inv, merges).contains_key(merge_key(a, b)),
    ensures
        0 <= j < merges.len(),
        merge_ids(inv, merges[j]) == Some(
            (a, b, listed_ranks(inv, merges)[merge_key(a, b)].0),
        ),
    decreases merges.len(),
{
    let d = merges.drop_last();
    if listed_ranks(inv, d).contains_key(merge_key(a, b)) {
        lemma_listed_source(inv, d, a, b)
    } else {
        let ids = merge_ids(inv, merges.last())->0;
        lemma_same_pair(ids.0, ids.1, a, b);
        merges.len() - 1
    }
}

/// The merges of a SentencePiece-style model from a file put bytes together.
pub proof fn law_sp_file_merges_spell(tj: TokenizerJson)
    requires
        sp_outcome(tj) is Ok,
        is_plain_piece_vocab(tj.model.vocab@),
        merges_are_text(tj.model.merges@),
    ensures
        rules_spell(sp_outcome(tj)->Ok_0.tables.rules, sp_outcome(tj)->Ok_0.tables.vocab),
{
    let m = sp_outcome(tj)->Ok_0;
    let v = tj.model.vocab@;
    let entries = piece_entries(v);
    let inv = entries_inverse(entries);
    let merges = piece_merges(tj.model.merges@);
    let rules = m.tables.rules;
    let vocab = m.tables.vocab;
    assert forall|i: int| 0 <= i < entries.len() implies (#[trigger] entries[i]).1 + 1
        < max_entries() by {
        assert(entries[i].1 == v[i].1);
    }
    assert forall|a: TokenId, b: TokenId|
        (#[trigger] rules(a, b)).1 != NO_MERGE && a.0 < vocab.len() && b.0 < vocab.len() implies {
        &&& rules(a, b).0.0 < vocab.len()
        &&& vocab[rules(a, b).0.0 as int] == vocab[a.0 as int] + vocab[b.0 as int]
    } by {
        let j = lemma_listed_source(inv, merges, a, b);
        let x = merges[j];
        lemma_piece_spells(tj, x.0);
        lemma_piece_spells(tj, x.1);
        lemma_piece_spells(tj, x.2);
        let t = tj.model.merges@[j];
        assert(x.0 == encode_utf8(t.0@));
        assert(x.1 == encode_utf8(t.1@));
        assert(x.2 == x.0 + x.1);
    }
}

} // verus!
