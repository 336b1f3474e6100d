//! The merge rules of a vocabulary can be listed.
use crate::bpe::listing::{ids_of, parts_in_vocab};
use crate::bpe::merge::{id_rules, merge_key};
use crate::bpe::model::{lemma_vocab_inverse, vocab_inverse};
use crate::bpe::rules::{bpe_merge, is_best, merge_at, Rules, NO_MERGE};
use crate::bpe::tiktoken::{rank_merges, single_byte_tokens};
use crate::token::TokenId;
use vstd::prelude::*;

verus! {

/// A key tells the two symbols of its pair.
pub proof fn lemma_key_parts(a: TokenId, b: TokenId)
    ensures
        merge_key(a, b) / 0x1_0000_0000 == a.0,
        merge_key(a, b) % 0x1_0000_0000 == b.0,
{
    let x = a.0;
    let y = b.0;
    assert((((x as u64) << 32) | y as u64) / 0x1_0000_0000u64 == x as u64) by (bit_vector);
    assert((((x as u64) << 32) | y as u64) % 0x1_0000_0000u64 == y as u64) by (bit_vector);
}

/// All symbols are below `n`.
pub open spec fn symbols_below(s: Seq<TokenId>, n: int) -> bool {
    forall|i: int| 0 <= i < s.len() ==> (#[trigger] s[i]).0 < n
}

/// Merging by rules whose results are below `n` stays below `n`.
proof fn lemma_merge_below(rules: Rules, s: Seq<TokenId>, n: int)
    requires
        symbols_below(s, n),
        forall|a: TokenId, b: TokenId|
            (#[trigger] rules(a, b)).1 != NO_MERGE ==> rules(a, b).0.0 < n,
    ensures
        symbols_below(bpe_merge(rules, s), n),
    decreases s.len(),
{
    if exists|i: int| is_best(rules, s, i) {
        let i = choose|i: int| is_best(rules, s, i);
        let v = merge_at(rules, s, i);
        assert forall|j: int| 0 <= j < v.len() implies (#[trigger] v[j]).0 < n by {
            if j < i {
                assert(v[j] == s[j]);
            } else if j == i {
                assert(v[j] == rules(s[i], s[i + 1]).0);
            } else {
                assert(v[j] == s[j + 1]);
            }
        }
        lemma_merge_below(rules, v, n);
    }
}

/// The merge rules of a vocabulary in merge order are no more than its
/// entries, and each is made of two entries: they can be listed.
pub proof fn law_rank_merges_listed(vocab: Seq<Seq<u8>>, n: nat)
    requires
        n <= vocab.len() < u32::MAX,
        rank_merges(vocab, n) is Some,
    ensures
        ({
            let m = rank_merges(vocab, n)->0;
            &&& ids_of(m).dom().finite()
            &&& ids_of(m).len() <= n
            &&& parts_in_vocab(ids_of(m), vocab.len())
            &&& forall|k: u64| #[trigger] m.contains_key(k) ==> m[k].0 < n
        }),
    decreases n,
{
    let m = rank_merges(vocab, n)->0;
    if n == 0 {
        assert(ids_of(m).dom() =~= Set::<u64>::empty());
    } else {
        let head = rank_merges(vocab, (n - 1) as nat)->0;
        law_rank_merges_listed(vocab, (n - 1) as nat);
        assert(ids_of(head).dom() =~= head.dom());
        assert(ids_of(m).dom() =~= m.dom());
        if vocab[n - 1].len() >= 2 {
            let inv = vocab_inverse(vocab);
            let symbols = single_byte_tokens(inv, vocab[n - 1])->0;
            let r = bpe_merge(id_rules(head), symbols);
            assert(symbols_below(symbols, vocab.len() as int)) by {
                lemma_vocab_inverse(vocab);
                assert forall|i: int| 0 <= i < symbols.len() implies (#[trigger] symbols[i]).0
                    < vocab.len() by {
                    let one = seq![vocab[n - 1][i]];
                    assert(inv.contains_key(one));
                    assert(symbols[i] == inv[one]);
                }
            }
            lemma_merge_below(id_rules(head), symbols, vocab.len() as int);
            lemma_key_parts(r[0], r[1]);
            let key = merge_key(r[0], r[1]);
            assert(m == head.insert(key, TokenId((n - 1) as u32)));
            assert(m.dom() =~= head.dom().insert(key));
        }
    }
}

} // verus!
