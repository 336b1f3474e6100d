//! What the tables of a model are, stated of their entries.
use crate::bpe::byte_level::byte_codepoint;
use crate::bpe::bytes::{byte_position, byte_symbols, byte_table};
use crate::bpe::listing::vocab_listing;
use crate::bpe::merge::{id_rules, merge_key, ranked_rules};
use crate::bpe::model::{model_tokens, vocab_inverse, with_tokens, ModelView};
use crate::bpe::rank_laws::lemma_key_parts;
use crate::bpe::rules::{
    bpe_merge, is_best, is_final, law_merge_is_final, lemma_final_unchanged, lemma_merge_step,
    merge_at, pair_rank, Rules, NO_MERGE,
};
use crate::bpe::tiktoken::{prepared, rank_merges, segment_ids, single_byte_tokens, TokenizerView};
use crate::token::TokenId;
use vstd::prelude::*;

verus! {

/// Merging goes on with the pair of lowest rank, the leftmost among equals: its
/// two symbols become the one that the rule gives.
pub proof fn law_lowest_pair_merges_first(rules: Rules, s: Seq<TokenId>, i: int)
    requires
        0 <= i < s.len() - 1,
        rules(s[i], s[i + 1]).1 < u32::MAX,
        forall|j: int|
            0 <= j < i ==> rules(s[i], s[i + 1]).1 < rules(#[trigger] s[j], s[j + 1]).1,
        forall|j: int|
            i < j < s.len() - 1 ==> rules(s[i], s[i + 1]).1 <= rules(#[trigger] s[j], s[j + 1]).1,
    ensures
        bpe_merge(rules, s) == bpe_merge(
            rules,
            s.take(i) + seq![rules(s[i], s[i + 1]).0] + s.skip(i + 2),
        ),
{
    assert forall|j: int| 0 <= j < s.len() - 1 implies pair_rank(rules, s, i)
        <= #[trigger] pair_rank(rules, s, j) by {
        assert(s[j] == s[j]);
    }
    assert forall|j: int| 0 <= j < i implies pair_rank(rules, s, i) < #[trigger] pair_rank(
        rules,
        s,
        j,
    ) by {
        assert(s[j] == s[j]);
    }
    assert(is_best(rules, s, i));
    lemma_merge_step(rules, s, i);
    assert(merge_at(rules, s, i) =~= s.take(i) + seq![rules(s[i], s[i + 1]).0] + s.skip(i + 2));
}

/// Symbols of which no two neighbours merge stay as they are.
pub proof fn law_nothing_to_merge(rules: Rules, s: Seq<TokenId>)
    requires
        forall|j: int| 0 <= j < s.len() - 1 ==> rules(#[trigger] s[j], s[j + 1]).1 == u32::MAX,
    ensures
        bpe_merge(rules, s) == s,
{
    assert forall|j: int| 0 <= j < s.len() - 1 implies #[trigger] pair_rank(rules, s, j)
        == NO_MERGE by {
        assert(s[j] == s[j]);
    }
    lemma_final_unchanged(rules, s);
}

/// The symbol of a byte is the first entry that is that byte alone.
pub proof fn law_byte_has_its_first_entry(vocab: Seq<Seq<u8>>, i: int, b: u8)
    requires
        0 <= i < vocab.len(),
        vocab[i] == seq![b],
        forall|j: int| 0 <= j < i ==> #[trigger] vocab[j] != seq![b],
    ensures
        byte_table(vocab)[b as int] == TokenId(i as u32),
{
    lemma_byte_position_at(vocab, i, b);
}

proof fn lemma_byte_position_at(vocab: Seq<Seq<u8>>, i: int, b: u8)
    requires
        0 <= i < vocab.len(),
        vocab[i] == seq![b],
        forall|j: int| 0 <= j < i ==> #[trigger] vocab[j] != seq![b],
    ensures
        byte_position(vocab, b) == Some(i as nat),
    decreases vocab.len(),
{
    let d = vocab.drop_last();
    if i < d.len() {
        assert(d[i] == vocab[i]);
        lemma_byte_position_at(d, i, b);
    } else {
        lemma_no_byte_position(d, b);
    }
}

proof fn lemma_no_byte_position(vocab: Seq<Seq<u8>>, b: u8)
    requires
        forall|j: int| 0 <= j < vocab.len() ==> #[trigger] vocab[j] != seq![b],
    ensures
        byte_position(vocab, b) is None,
    decreases vocab.len(),
{
    if vocab.len() > 0 {
        assert(vocab.last() == vocab[vocab.len() - 1]);
        lemma_no_byte_position(vocab.drop_last(), b);
    }
}

/// A byte string has the token of the last entry that is equal to it.
pub proof fn law_inverse_is_the_last_equal_entry(vocab: Seq<Seq<u8>>, i: int)
    requires
        0 <= i < vocab.len(),
        forall|j: int| i < j < vocab.len() ==> #[trigger] vocab[j] != vocab[i],
    ensures
        vocab_inverse(vocab).contains_key(vocab[i]),
        vocab_inverse(vocab)[vocab[i]] == TokenId(i as u32),
    decreases vocab.len(),
{
    let d = vocab.drop_last();
    if i < d.len() {
        assert(d[i] == vocab[i]);
        assert(vocab.last() == vocab[vocab.len() - 1]);
        law_inverse_is_the_last_equal_entry(d, i);
    }
}

/// A byte string that is no entry has no token.
pub proof fn law_inverse_has_only_entries(vocab: Seq<Seq<u8>>, b: Seq<u8>)
    ensures
        vocab_inverse(vocab).contains_key(b) <==> vocab.contains(b),
    decreases vocab.len(),
{
    if vocab.len() > 0 {
        let d = vocab.drop_last();
        law_inverse_has_only_entries(d, b);
        assert(vocab.last() == vocab[vocab.len() - 1]);
        if vocab.contains(b) {
            let i = choose|i: int| 0 <= i < vocab.len() && vocab[i] == b;
            if i < d.len() {
                assert(d[i] == b);
            }
        }
        if d.contains(b) {
            let i = choose|i: int| 0 <= i < d.len() && d[i] == b;
            assert(vocab[i] == b);
        }
    }
}

/// A token that has content keeps it when tokens are set, and stays the one of
/// its position.
pub proof fn law_set_tokens_keep_content(m: ModelView, tokens: Seq<(Seq<u8>, TokenId)>, id: int)
    requires
        0 <= id < m.vocab.len(),
        m.vocab[id].len() > 0,
    ensures
        id < with_tokens(m, tokens).vocab.len(),
        with_tokens(m, tokens).vocab[id] == m.vocab[id],
    decreases tokens.len(),
{
    if tokens.len() > 0 {
        law_set_tokens_keep_content(m, tokens.drop_last(), id);
    }
}

/// A token without content gets the first content that is set for it, and that
/// byte string has a token from then on.
pub proof fn law_set_token_has_its_content(m: ModelView, tokens: Seq<(Seq<u8>, TokenId)>, i: int)
    requires
        0 <= i < tokens.len(),
        tokens[i].0.len() > 0,
        tokens[i].1.0 < m.vocab.len() ==> m.vocab[tokens[i].1.0 as int].len() == 0,
        forall|j: int|
            0 <= j < i && (#[trigger] tokens[j]).1 == tokens[i].1 ==> tokens[j].0.len() == 0,
    ensures
        ({
            let r = with_tokens(m, tokens);
            &&& tokens[i].1.0 < r.vocab.len()
            &&& r.vocab[tokens[i].1.0 as int] == tokens[i].0
            &&& r.vocab_inv.contains_key(tokens[i].0)
        }),
    decreases tokens.len(),
{
    let d = tokens.drop_last();
    let id = tokens[i].1.0 as int;
    if i < d.len() {
        assert(d[i] == tokens[i]);
        assert forall|j: int| 0 <= j < i && (#[trigger] d[j]).1 == d[i].1 implies d[j].0.len()
            == 0 by {
            assert(d[j] == tokens[j]);
        }
        law_set_token_has_its_content(m, d, i);
    } else {
        assert forall|j: int| 0 <= j < d.len() && (#[trigger] d[j]).1.0 == id implies d[j].0.len()
            == 0 by {
            assert(d[j] == tokens[j]);
        }
        lemma_set_none(m, d, id);
    }
}

proof fn lemma_set_none(m: ModelView, tokens: Seq<(Seq<u8>, TokenId)>, id: int)
    requires
        0 <= id,
        id < m.vocab.len() ==> m.vocab[id].len() == 0,
        forall|j: int|
            0 <= j < tokens.len() && (#[trigger] tokens[j]).1.0 == id ==> tokens[j].0.len() == 0,
    ensures
        id < with_tokens(m, tokens).vocab.len() ==> with_tokens(m, tokens).vocab[id].len() == 0,
    decreases tokens.len(),
{
    if tokens.len() > 0 {
        let d = tokens.drop_last();
        assert forall|j: int| 0 <= j < d.len() && (#[trigger] d[j]).1.0 == id implies d[j].0.len()
            == 0 by {
            assert(d[j] == tokens[j]);
        }
        lemma_set_none(m, d, id);
        assert(tokens.last() == tokens[tokens.len() - 1]);
    }
}

/// Setting tokens changes neither the merges nor the symbols of bytes.
pub proof fn law_set_tokens_keep_merges(m: ModelView, tokens: Seq<(Seq<u8>, TokenId)>)
    ensures
        with_tokens(m, tokens).rules == m.rules,
        with_tokens(m, tokens).table == m.table,
    decreases tokens.len(),
{
    if tokens.len() > 0 {
        law_set_tokens_keep_merges(m, tokens.drop_last());
    }
}

/// Bytes that are printed as they are: the visible ones of Latin-1.
pub open spec fn is_visible(b: int) -> bool {
    33 <= b <= 126 || 161 <= b <= 172 || 174 <= b <= 255
}

/// How many bytes below `b` are not visible.
pub open spec fn hidden_below(b: int) -> int
    decreases b,
{
    if b <= 0 {
        0
    } else {
        hidden_below(b - 1) + if is_visible(b - 1) {
            0int
        } else {
            1
        }
    }
}

proof fn lemma_hidden_below(b: int)
    requires
        0 <= b <= 256,
    ensures
        hidden_below(b) == if b <= 33 {
            b
        } else if b <= 127 {
            33
        } else if b <= 161 {
            b - 94
        } else if b <= 173 {
            67
        } else {
            68
        },
    decreases b,
{
    if b > 0 {
        lemma_hidden_below(b - 1);
    }
}

/// A visible byte stands for itself, and the others take the code points from
/// 256 on, one after the other.
pub proof fn law_alphabet_of_bytes(b: u8)
    ensures
        is_visible(b as int) ==> byte_codepoint(b) == b,
        !is_visible(b as int) ==> byte_codepoint(b) == 256 + hidden_below(b as int),
{
    lemma_hidden_below(b as int);
}

/// The listing of a vocabulary has each entry with content once, with its
/// position, in order.
pub proof fn law_listing_has_the_entries(vocab: Seq<Seq<u8>>)
    requires
        vocab.len() <= u32::MAX,
    ensures
        ({
            let l = vocab_listing(vocab);
            &&& forall|i: int|
                0 <= i < l.len() ==> (#[trigger] l[i]).0 < vocab.len() && l[i].1
                    == vocab[l[i].0 as int] && l[i].1.len() > 0
            &&& forall|i: int, j: int| 0 <= i < j < l.len() ==> (#[trigger] l[i]).0 < (#[trigger] l[j]).0
            &&& forall|k: int|
                0 <= k < vocab.len() && (#[trigger] vocab[k]).len() > 0 ==> l.contains(
                    (k as u32, vocab[k]),
                )
        }),
    decreases vocab.len(),
{
    if vocab.len() > 0 {
        let d = vocab.drop_last();
        let h = vocab_listing(d);
        let l = vocab_listing(vocab);
        law_listing_has_the_entries(d);
        assert(vocab.last() == vocab[vocab.len() - 1]);
        assert forall|k: int| 0 <= k < vocab.len() && (#[trigger] vocab[k]).len() > 0 implies l.contains(
            (k as u32, vocab[k]),
        ) by {
            if k < d.len() {
                assert(d[k] == vocab[k]);
                assert(h.contains((k as u32, d[k])));
                let i = choose|i: int| 0 <= i < h.len() && h[i] == (k as u32, d[k]);
                assert(l[i] == h[i]);
            } else {
                assert(l[l.len() - 1] == (k as u32, vocab[k]));
            }
        }
        assert forall|i: int| 0 <= i < l.len() implies (#[trigger] l[i]).0 < vocab.len() && l[i].1
            == vocab[l[i].0 as int] && l[i].1.len() > 0 by {
            if i < h.len() {
                assert(l[i] == h[i]);
                assert(d[h[i].0 as int] == vocab[h[i].0 as int]);
            }
        }
        assert forall|i: int, j: int| 0 <= i < j < l.len() implies (#[trigger] l[i]).0
            < (#[trigger] l[j]).0 by {
            assert(l[i] == h[i]);
            if j < h.len() {
                assert(l[j] == h[j]);
            }
        }
    }
}

/// A tokenizer that takes whole tokens first has one token for each entry.
pub proof fn law_whole_entry_is_one_token(m: ModelView, bytes: Seq<u8>)
    requires
        m.vocab_inv.contains_key(bytes),
    ensures
        model_tokens(m, true, bytes) == seq![m.vocab_inv[bytes]],
        model_tokens(m, false, bytes) == bpe_merge(m.rules, byte_symbols(m.table, bytes)),
{
}

/// A space before the text is as if the text had one, unless it does.
pub proof fn law_prefix_space_is_a_space(t: TokenizerView, s: Seq<u8>)
    requires
        t.prefix_space,
        !t.nfc,
        s.len() > 0,
    ensures
        ({
            let plain = TokenizerView { prefix_space: false, ..t };
            segment_ids(t, s) == segment_ids(
                plain,
                if s[0] == 0x20 {
                    s
                } else {
                    seq![0x20u8] + s
                },
            )
        }),
{
}

/// An empty segment stays empty.
pub proof fn law_prefix_space_needs_text(t: TokenizerView, s: Seq<u8>)
    requires
        !t.nfc,
    ensures
        s.len() == 0 ==> prepared(t, s).len() == 0,
        !t.prefix_space ==> prepared(t, s) == s,
{
}

/// Rules with more merges of higher rank go on from where the first ones end.
proof fn lemma_more_merges(f: Rules, g: Rules, s: Seq<TokenId>, n: int)
    requires
        forall|a: TokenId, b: TokenId|
            (#[trigger] f(a, b)).1 != NO_MERGE ==> g(a, b) == f(a, b) && f(a, b).1 < n,
        forall|a: TokenId, b: TokenId|
            (#[trigger] f(a, b)).1 == NO_MERGE ==> g(a, b).1 >= n,
    ensures
        bpe_merge(g, s) == bpe_merge(g, bpe_merge(f, s)),
    decreases s.len(),
{
    lemma_final_unchanged(f, s);
    if !is_final(f, s) {
        let k = choose|k: int| is_best(f, s, k);
        assert forall|j: int| 0 <= j < s.len() - 1 implies pair_rank(g, s, k)
            <= #[trigger] pair_rank(g, s, j) by {
            assert(pair_rank(f, s, k) <= pair_rank(f, s, j));
            assert(f(s[j], s[j + 1]).1 != NO_MERGE || g(s[j], s[j + 1]).1 >= n);
        }
        assert forall|j: int| 0 <= j < k implies pair_rank(g, s, k) < #[trigger] pair_rank(
            g,
            s,
            j,
        ) by {
            assert(pair_rank(f, s, k) < pair_rank(f, s, j));
            assert(f(s[j], s[j + 1]).1 != NO_MERGE || g(s[j], s[j + 1]).1 >= n);
        }
        assert(is_best(g, s, k));
        lemma_merge_step(f, s, k);
        lemma_merge_step(g, s, k);
        assert(merge_at(f, s, k) == merge_at(g, s, k));
        lemma_more_merges(f, g, merge_at(f, s, k), n);
    }
}

proof fn lemma_rank_merges_grow(vocab: Seq<Seq<u8>>, k: nat, n: nat)
    requires
        k <= n <= vocab.len() < u32::MAX,
        rank_merges(vocab, n) is Some,
    ensures
        rank_merges(vocab, k) is Some,
        ({
            let f = rank_merges(vocab, k)->0;
            let g = rank_merges(vocab, n)->0;
            &&& forall|x: u64| #[trigger] f.contains_key(x) ==> g.contains_key(x) && g[x] == f[x]
                && f[x].0 < k
            &&& forall|x: u64| #[trigger] g.contains_key(x) && !f.contains_key(x) ==> g[x].0 >= k
        }),
    decreases n,
{
    let g = rank_merges(vocab, n)->0;
    if n > 0 {
        let h = rank_merges(vocab, (n - 1) as nat)->0;
        if k < n {
            lemma_rank_merges_grow(vocab, k, (n - 1) as nat);
        } else {
            lemma_rank_merges_grow(vocab, (n - 1) as nat, (n - 1) as nat);
        }
        if vocab[n - 1].len() >= 2 {
            let symbols = single_byte_tokens(vocab_inverse(vocab), vocab[n - 1])->0;
            let r = bpe_merge(id_rules(h), symbols);
            law_merge_is_final(id_rules(h), symbols);
            assert(pair_rank(id_rules(h), r, 0) == NO_MERGE);
            if h.contains_key(merge_key(r[0], r[1])) {
                assert(h[merge_key(r[0], r[1])].0 < n - 1) by {
                    lemma_rank_merges_grow(vocab, (n - 1) as nat, (n - 1) as nat);
                }
            }
        }
    }
}

/// Every entry of a vocabulary in merge order encodes to itself: its bytes merge
/// to the one token that it is.
pub proof fn law_entry_encodes_to_itself(vocab: Seq<Seq<u8>>, n: nat, id: int)
    requires
        n <= vocab.len() < u32::MAX,
        rank_merges(vocab, n) is Some,
        0 <= id < n,
        vocab[id].len() >= 2,
    ensures
        ({
            let inv = vocab_inverse(vocab);
            let symbols = Seq::new(vocab[id].len(), |i: int| inv[seq![vocab[id][i]]]);
            bpe_merge(id_rules(rank_merges(vocab, n)->0), symbols) == seq![TokenId(id as u32)]
        }),
{
    let inv = vocab_inverse(vocab);
    let symbols = Seq::new(vocab[id].len(), |i: int| inv[seq![vocab[id][i]]]);
    lemma_rank_merges_grow(vocab, (id + 1) as nat, n);
    lemma_rank_merges_grow(vocab, id as nat, n);
    lemma_rank_merges_grow(vocab, id as nat, (id + 1) as nat);
    let f = rank_merges(vocab, id as nat)->0;
    let h = rank_merges(vocab, (id + 1) as nat)->0;
    let g = rank_merges(vocab, n)->0;
    assert(single_byte_tokens(inv, vocab[id]) is Some);
    assert(single_byte_tokens(inv, vocab[id])->0 =~= symbols);
    let r = bpe_merge(id_rules(f), symbols);
    assert(r.len() == 2);
    let key = merge_key(r[0], r[1]);
    assert(h == f.insert(key, TokenId(id as u32)));
    assert(h.contains_key(key));
    assert(g[key] == TokenId(id as u32));
    lemma_more_merges(id_rules(f), id_rules(g), symbols, id);
    law_lowest_pair_merges_first(id_rules(g), r, 0);
    assert(r.take(0) + seq![TokenId(id as u32)] + r.skip(2) =~= seq![TokenId(id as u32)]);
    law_nothing_to_merge(id_rules(g), seq![TokenId(id as u32)]);
}

/// A rule of a list of merges, with the place of the merge as its rank, merges
/// the pair of its key and no other.
pub proof fn law_rules_are_of_their_pair(m: Map<u64, (TokenId, u32)>, a: TokenId, b: TokenId)
    ensures
        m.contains_key(merge_key(a, b)) ==> ranked_rules(m)(a, b) == m[merge_key(a, b)],
        !m.contains_key(merge_key(a, b)) ==> ranked_rules(m)(a, b).1 == u32::MAX,
        merge_key(a, b) as int == a.0 * 0x1_0000_0000 + b.0,
{
    lemma_key_parts(a, b);
}

} // verus!
