//! The merges of a file can be listed.
use crate::bpe::listing::{ids_of, parts_in_vocab, ranks_of};
use crate::bpe::merge::merge_key;
use crate::bpe::rank_laws::lemma_key_parts;
use crate::bpe::tiktoken::max_entries;
use crate::load::assemble::{
    bpe_ranks, first_ids, first_ranks, known_merges, level_entries, level_merges, listed_ranks,
    merge_ids, piece_entries, piece_merges, sp_ranks, MergeBytes,
};
use crate::load::json::TokenizerJson;
use crate::load::vocab::{
    added_contents, entries_inverse, file_vocab, id_count, ids_fit, lemma_id_count, placed,
    too_large, with_added, VocabEntry,
};
use crate::token::TokenId;
use vstd::prelude::*;

verus! {

/// All IDs that byte strings have are below `n`.
spec fn ids_below(inv: Map<Seq<u8>, TokenId>, n: int) -> bool {
    forall|b: Seq<u8>| #[trigger] inv.contains_key(b) ==> inv[b].0 < n
}

/// Both parts of every merge are below `n`.
spec fn pairs_below(ms: Seq<(TokenId, TokenId, TokenId)>, n: int) -> bool {
    forall|i: int| 0 <= i < ms.len() ==> (#[trigger] ms[i]).0.0 < n && ms[i].1.0 < n
}

proof fn lemma_inverse_below(entries: Seq<VocabEntry>)
    ensures
        ids_below(entries_inverse(entries), id_count(entries)),
    decreases entries.len(),
{
    if entries.len() > 0 {
        lemma_inverse_below(entries.drop_last());
    }
}

pub proof fn lemma_placed_len(entries: Seq<VocabEntry>, n: int)
    requires
        n >= 0,
        forall|i: int| 0 <= i < entries.len() ==> (#[trigger] entries[i]).1 < n,
    ensures
        placed(entries, n).len() == n,
    decreases entries.len(),
{
    if entries.len() > 0 {
        let d = entries.drop_last();
        assert forall|i: int| 0 <= i < d.len() implies (#[trigger] d[i]).1 < n by {
            assert(d[i] == entries[i]);
        }
        lemma_placed_len(d, n);
        assert(entries.last() == entries[entries.len() - 1]);
    }
}

pub proof fn lemma_added_len(vocab: Seq<Seq<u8>>, added: Seq<(Seq<u8>, u32)>)
    ensures
        with_added(vocab, added).len() >= vocab.len(),
    decreases added.len(),
{
    if added.len() > 0 {
        lemma_added_len(vocab, added.drop_last());
    }
}

/// The IDs of the entries of a file lie in its vocabulary.
proof fn lemma_file_ids(entries: Seq<VocabEntry>, added: Seq<(Seq<u8>, u32)>)
    requires
        ids_fit(entries),
    ensures
        ids_below(entries_inverse(entries), file_vocab(entries, added).len() as int),
{
    lemma_id_count(entries);
    lemma_inverse_below(entries);
    lemma_placed_len(entries, id_count(entries));
    lemma_added_len(placed(entries, id_count(entries)), added);
}

proof fn lemma_known_below(inv: Map<Seq<u8>, TokenId>, merges: Seq<MergeBytes>, n: int)
    requires
        ids_below(inv, n),
    ensures
        pairs_below(known_merges(inv, merges), n),
        known_merges(inv, merges).len() <= merges.len(),
    decreases merges.len(),
{
    if merges.len() > 0 {
        lemma_known_below(inv, merges.drop_last(), n);
    }
}

proof fn lemma_first_ids_listed(ms: Seq<(TokenId, TokenId, TokenId)>, n: nat)
    requires
        pairs_below(ms, n as int),
    ensures
        ids_of(first_ids(ms)).dom().finite(),
        ids_of(first_ids(ms)).len() <= ms.len(),
        parts_in_vocab(ids_of(first_ids(ms)), n),
    decreases ms.len(),
{
    assert(ids_of(first_ids(ms)).dom() =~= first_ids(ms).dom());
    if ms.len() > 0 {
        let d = ms.drop_last();
        assert(pairs_below(d, n as int)) by {
            assert forall|i: int| 0 <= i < d.len() implies (#[trigger] d[i]).0.0 < n && d[i].1.0
                < n by {
                assert(d[i] == ms[i]);
            }
        }
        lemma_first_ids_listed(d, n);
        assert(ids_of(first_ids(d)).dom() =~= first_ids(d).dom());
        let (a, b, _) = ms.last();
        assert(ms.last() == ms[ms.len() - 1]);
        lemma_key_parts(a, b);
        assert(first_ids(ms).dom() =~= first_ids(d).dom().insert(merge_key(a, b)));
    }
}

proof fn lemma_first_ranks_listed(ms: Seq<(TokenId, TokenId, TokenId)>, n: nat)
    requires
        pairs_below(ms, n as int),
    ensures
        ranks_of(first_ranks(ms)).dom().finite(),
        ranks_of(first_ranks(ms)).len() <= ms.len(),
        parts_in_vocab(ranks_of(first_ranks(ms)), n),
    decreases ms.len(),
{
    assert(ranks_of(first_ranks(ms)).dom() =~= first_ranks(ms).dom());
    if ms.len() > 0 {
        let d = ms.drop_last();
        assert(pairs_below(d, n as int)) by {
            assert forall|i: int| 0 <= i < d.len() implies (#[trigger] d[i]).0.0 < n && d[i].1.0
                < n by {
                assert(d[i] == ms[i]);
            }
        }
        lemma_first_ranks_listed(d, n);
        assert(ranks_of(first_ranks(d)).dom() =~= first_ranks(d).dom());
        let (a, b, _) = ms.last();
        assert(ms.last() == ms[ms.len() - 1]);
        lemma_key_parts(a, b);
        assert(first_ranks(ms).dom() =~= first_ranks(d).dom().insert(merge_key(a, b)));
    }
}

proof fn lemma_listed_ranks_listed(
    inv: Map<Seq<u8>, TokenId>,
    merges: Seq<MergeBytes>,
    n: nat,
)
    requires
        ids_below(inv, n as int),
    ensures
        ranks_of(listed_ranks(inv, merges)).dom().finite(),
        ranks_of(listed_ranks(inv, merges)).len() <= merges.len(),
        parts_in_vocab(ranks_of(listed_ranks(inv, merges)), n),
    decreases merges.len(),
{
    let all = listed_ranks(inv, merges);
    assert(ranks_of(all).dom() =~= all.dom());
    if merges.len() > 0 {
        let head = listed_ranks(inv, merges.drop_last());
        lemma_listed_ranks_listed(inv, merges.drop_last(), n);
        assert(ranks_of(head).dom() =~= head.dom());
        if let Some((a, b, _)) = merge_ids(inv, merges.last()) {
            lemma_key_parts(a, b);
            assert(all.dom() =~= head.dom().insert(merge_key(a, b)));
        }
    }
}

/// The merges that a byte-level tokenizer has from a file can be listed: they
/// are no more than the file lists, and made of entries of its vocabulary.
pub proof fn law_bpe_merges_listed(tj: TokenizerJson)
    requires
        !too_large(tj),
    ensures
        bpe_ranks(tj).len() <= tj.model.merges@.len() <= u32::MAX,
        parts_in_vocab(
            bpe_ranks(tj),
            file_vocab(
                level_entries(tj.model.vocab@),
                added_contents(tj.added_tokens@),
            ).len(),
        ),
{
    let entries = level_entries(tj.model.vocab@);
    let added = added_contents(tj.added_tokens@);
    assert forall|i: int| 0 <= i < entries.len() implies (#[trigger] entries[i]).1 + 1
        < max_entries() by {
        assert(entries[i].1 == tj.model.vocab@[i].1);
    }
    lemma_file_ids(entries, added);
    let n = file_vocab(entries, added).len();
    let inv = entries_inverse(entries);
    let ms = known_merges(inv, level_merges(tj.model.merges@));
    lemma_known_below(inv, level_merges(tj.model.merges@), n as int);
    lemma_first_ids_listed(ms, n);
    lemma_first_ranks_listed(ms, n);
}

/// The merges that a SentencePiece-style model has from a file can be listed:
/// they are no more than the file lists, and made of entries of its vocabulary.
pub proof fn law_sp_merges_listed(tj: TokenizerJson)
    requires
        !too_large(tj),
    ensures
        sp_ranks(tj).len() <= tj.model.merges@.len() <= u32::MAX,
        parts_in_vocab(
            sp_ranks(tj),
            file_vocab(
                piece_entries(tj.model.vocab@),
                added_contents(tj.added_tokens@),
            ).len(),
        ),
{
    let entries = piece_entries(tj.model.vocab@);
    let added = added_contents(tj.added_tokens@);
    assert forall|i: int| 0 <= i < entries.len() implies (#[trigger] entries[i]).1 + 1
        < max_entries() by {
        assert(entries[i].1 == tj.model.vocab@[i].1);
    }
    lemma_file_ids(entries, added);
    let n = file_vocab(entries, added).len();
    lemma_listed_ranks_listed(entries_inverse(entries), piece_merges(tj.model.merges@), n);
}

} // verus!
