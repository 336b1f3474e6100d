//! What a BPE merge computes.
use crate::token::TokenId;
use vstd::prelude::*;

verus! {

/// The rank that stands for "this pair does not merge".
pub const NO_MERGE: u32 = u32::MAX;

/// A merge table as a function: a pair of adjacent symbols to the merged
/// symbol and its rank; rank [`NO_MERGE`] means the pair does not merge.
pub type Rules = spec_fn(TokenId, TokenId) -> (TokenId, u32);

/// A table of merge rules that can be looked up.
pub trait MergeRules {
    /// The rules held by the table.
    spec fn rules(&self) -> Rules;

    /// The merged symbol and rank of one pair.
    fn get(&self, a: TokenId, b: TokenId) -> (r: (TokenId, u32))
        ensures
            r == (self.rules())(a, b),
    ;
}

/// The rank of the pair that starts at position `i` of `s`.
pub open spec fn pair_rank(rules: Rules, s: Seq<TokenId>, i: int) -> u32 {
    rules(s[i], s[i + 1]).1
}

/// The pair at `i` is the one to merge next: it merges, no pair has a lower
/// rank, and no earlier pair has the same rank.
pub open spec fn is_best(rules: Rules, s: Seq<TokenId>, i: int) -> bool {
    &&& 0 <= i < s.len() - 1
    &&& pair_rank(rules, s, i) != NO_MERGE
    &&& forall|j: int|
        0 <= j < s.len() - 1 ==> pair_rank(rules, s, i) <= #[trigger] pair_rank(rules, s, j)
    &&& forall|j: int| 0 <= j < i ==> pair_rank(rules, s, i) < #[trigger] pair_rank(rules, s, j)
}

/// `s` with the pair at `i` replaced by its merged symbol.
pub open spec fn merge_at(rules: Rules, s: Seq<TokenId>, i: int) -> Seq<TokenId> {
    s.update(i, rules(s[i], s[i + 1]).0).remove(i + 1)
}

/// No adjacent pair of `s` merges.
pub open spec fn is_final(rules: Rules, s: Seq<TokenId>) -> bool {
    forall|i: int| 0 <= i < s.len() - 1 ==> #[trigger] pair_rank(rules, s, i) == NO_MERGE
}

/// `s` after all merges: the lowest-ranked pair first, the leftmost among
/// equals, until no pair merges.
pub open spec fn bpe_merge(rules: Rules, s: Seq<TokenId>) -> Seq<TokenId>
    decreases s.len(),
{
    if exists|i: int| is_best(rules, s, i) {
        bpe_merge(rules, merge_at(rules, s, choose|i: int| is_best(rules, s, i)))
    } else {
        s
    }
}

/// At most one pair is the next to merge.
pub proof fn lemma_best_unique(rules: Rules, s: Seq<TokenId>, i: int, j: int)
    requires
        is_best(rules, s, i),
        is_best(rules, s, j),
    ensures
        i == j,
{
    assert(pair_rank(rules, s, i) <= pair_rank(rules, s, j));
    assert(pair_rank(rules, s, j) <= pair_rank(rules, s, i));
}

/// One merge step does not change what the whole merge gives.
pub proof fn lemma_merge_step(rules: Rules, s: Seq<TokenId>, i: int)
    requires
        is_best(rules, s, i),
    ensures
        bpe_merge(rules, s) == bpe_merge(rules, merge_at(rules, s, i)),
{
    let k = choose|k: int| is_best(rules, s, k);
    lemma_best_unique(rules, s, i, k);
}

/// A sequence with a pair that merges has a pair to merge next.
proof fn lemma_best_of_prefix(rules: Rules, s: Seq<TokenId>, n: int) -> (i: int)
    requires
        1 <= n <= s.len() - 1,
    ensures
        0 <= i < n,
        forall|j: int|
            0 <= j < n ==> pair_rank(rules, s, i) <= #[trigger] pair_rank(rules, s, j),
        forall|j: int| 0 <= j < i ==> pair_rank(rules, s, i) < #[trigger] pair_rank(rules, s, j),
    decreases n,
{
    if n == 1 {
        0
    } else {
        let k = lemma_best_of_prefix(rules, s, n - 1);
        if pair_rank(rules, s, n - 1) < pair_rank(rules, s, k) {
            n - 1
        } else {
            k
        }
    }
}

/// A sequence is its own merge exactly when no pair of it merges.
pub proof fn lemma_final_unchanged(rules: Rules, s: Seq<TokenId>)
    ensures
        is_final(rules, s) ==> bpe_merge(rules, s) == s,
        !is_final(rules, s) ==> exists|i: int| is_best(rules, s, i),
{
    if !is_final(rules, s) {
        let i = lemma_best_of_prefix(rules, s, s.len() - 1);
        assert(is_best(rules, s, i));
    } else if exists|i: int| is_best(rules, s, i) {
        let k = choose|k: int| is_best(rules, s, k);
        assert(pair_rank(rules, s, k) == NO_MERGE);
    }
}

/// `b` is `a` with its next pair merged.
pub open spec fn is_merge_step(rules: Rules, a: Seq<TokenId>, b: Seq<TokenId>) -> bool {
    exists|k: int| #[trigger] is_best(rules, a, k) && b == merge_at(rules, a, k)
}

/// Each sequence is the one before it with its next pair merged, until no
/// pair merges.
pub open spec fn is_merge_run(rules: Rules, states: Seq<Seq<TokenId>>) -> bool {
    &&& states.len() > 0
    &&& forall|i: int|
        0 < i < states.len() ==> is_merge_step(rules, states[i - 1], #[trigger] states[i])
    &&& is_final(rules, states.last())
}

/// Whatever finds the next pair, by a scan or in a heap, the merge comes to the
/// same end: the lowest rank goes first, the leftmost among equals.
pub proof fn law_merge_runs_agree(rules: Rules, states: Seq<Seq<TokenId>>)
    requires
        is_merge_run(rules, states),
    ensures
        states.last() == bpe_merge(rules, states[0]),
{
    let n = states.len() - 1;
    lemma_final_unchanged(rules, states[n]);
    lemma_run_keeps(rules, states, n);
}

/// The whole merge is the same from every sequence of a run.
proof fn lemma_run_keeps(rules: Rules, states: Seq<Seq<TokenId>>, n: int)
    requires
        is_merge_run(rules, states),
        0 <= n < states.len(),
    ensures
        bpe_merge(rules, states[n]) == bpe_merge(rules, states[0]),
    decreases n,
{
    if n > 0 {
        lemma_run_keeps(rules, states, n - 1);
        let a = states[n - 1];
        assert(is_merge_step(rules, a, states[n]));
        let k = choose|k: int| #[trigger] is_best(rules, a, k) && states[n] == merge_at(rules, a, k);
        lemma_merge_step(rules, a, k);
    }
}

/// After a merge no pair merges any more, and merging again changes nothing.
pub proof fn law_merge_is_final(rules: Rules, s: Seq<TokenId>)
    ensures
        is_final(rules, bpe_merge(rules, s)),
        bpe_merge(rules, bpe_merge(rules, s)) == bpe_merge(rules, s),
        bpe_merge(rules, s).len() <= s.len(),
        s.len() > 0 ==> bpe_merge(rules, s).len() > 0,
    decreases s.len(),
{
    lemma_final_unchanged(rules, s);
    if exists|i: int| is_best(rules, s, i) {
        let k = choose|k: int| is_best(rules, s, k);
        law_merge_is_final(rules, merge_at(rules, s, k));
    }
}

/// The bytes that a sequence of symbols stands for.
pub open spec fn expand(vocab: Seq<Seq<u8>>, s: Seq<TokenId>) -> Seq<u8>
    decreases s.len(),
{
    if s.len() == 0 {
        Seq::empty()
    } else {
        expand(vocab, s.drop_last()) + vocab[s.last().0 as int]
    }
}

/// Every merge gives the symbol that stands for the bytes of its two parts.
pub open spec fn rules_spell(rules: Rules, vocab: Seq<Seq<u8>>) -> bool {
    forall|a: TokenId, b: TokenId|
        (#[trigger] rules(a, b)).1 != NO_MERGE && a.0 < vocab.len() && b.0 < vocab.len() ==> {
            &&& rules(a, b).0.0 < vocab.len()
            &&& vocab[rules(a, b).0.0 as int] == vocab[a.0 as int] + vocab[b.0 as int]
        }
}

/// All symbols lie in the vocabulary.
pub open spec fn in_vocab(vocab: Seq<Seq<u8>>, s: Seq<TokenId>) -> bool {
    forall|i: int| 0 <= i < s.len() ==> (#[trigger] s[i]).0 < vocab.len()
}

/// Expansion distributes over concatenation.
pub proof fn lemma_expand_add(vocab: Seq<Seq<u8>>, s: Seq<TokenId>, t: Seq<TokenId>)
    ensures
        expand(vocab, s + t) == expand(vocab, s) + expand(vocab, t),
    decreases t.len(),
{
    if t.len() == 0 {
        assert(s + t =~= s);
    } else {
        assert((s + t).drop_last() =~= s + t.drop_last());
        lemma_expand_add(vocab, s, t.drop_last());
        assert(expand(vocab, s + t) =~= expand(vocab, s) + expand(vocab, t));
    }
}

/// Expansion of one symbol.
pub proof fn lemma_expand_one(vocab: Seq<Seq<u8>>, t: TokenId)
    ensures
        expand(vocab, seq![t]) == vocab[t.0 as int],
{
    assert(seq![t].drop_last() =~= Seq::<TokenId>::empty());
    assert(expand(vocab, seq![t].drop_last()) =~= Seq::<u8>::empty());
    assert(expand(vocab, seq![t]) =~= vocab[t.0 as int]);
}

/// One merge step keeps the bytes a sequence stands for.
proof fn lemma_step_expand(rules: Rules, vocab: Seq<Seq<u8>>, s: Seq<TokenId>, i: int)
    requires
        rules_spell(rules, vocab),
        in_vocab(vocab, s),
        0 <= i < s.len() - 1,
        pair_rank(rules, s, i) != NO_MERGE,
    ensures
        expand(vocab, merge_at(rules, s, i)) == expand(vocab, s),
        in_vocab(vocab, merge_at(rules, s, i)),
{
    let a = s.take(i);
    let b = s.skip(i + 2);
    let m = rules(s[i], s[i + 1]).0;
    assert(s =~= a + seq![s[i]] + seq![s[i + 1]] + b);
    assert(merge_at(rules, s, i) =~= a + seq![m] + b);
    lemma_expand_add(vocab, a + seq![s[i]] + seq![s[i + 1]], b);
    lemma_expand_add(vocab, a + seq![s[i]], seq![s[i + 1]]);
    lemma_expand_add(vocab, a, seq![s[i]]);
    lemma_expand_add(vocab, a + seq![m], b);
    lemma_expand_add(vocab, a, seq![m]);
    lemma_expand_one(vocab, m);
    lemma_expand_one(vocab, s[i]);
    lemma_expand_one(vocab, s[i + 1]);
    assert(expand(vocab, merge_at(rules, s, i)) =~= expand(vocab, s));
}

/// Merging keeps the bytes: where every merge spells the concatenation of its
/// parts, the merged symbols stand for exactly the bytes they were made from.
pub proof fn law_merge_keeps_bytes(rules: Rules, vocab: Seq<Seq<u8>>, s: Seq<TokenId>)
    requires
        rules_spell(rules, vocab),
        in_vocab(vocab, s),
    ensures
        expand(vocab, bpe_merge(rules, s)) == expand(vocab, s),
        in_vocab(vocab, bpe_merge(rules, s)),
    decreases s.len(),
{
    if exists|i: int| is_best(rules, s, i) {
        let k = choose|k: int| is_best(rules, s, k);
        lemma_step_expand(rules, vocab, s, k);
        law_merge_keeps_bytes(rules, vocab, merge_at(rules, s, k));
    }
}

/// All symbols stand for at least one byte.
pub open spec fn all_solid(vocab: Seq<Seq<u8>>, s: Seq<TokenId>) -> bool {
    forall|i: int| 0 <= i < s.len() ==> vocab[(#[trigger] s[i]).0 as int].len() > 0
}

/// `s` ends with `t`.
pub open spec fn has_suffix(s: Seq<u8>, t: Seq<u8>) -> bool {
    t.len() <= s.len() && s.skip(s.len() - t.len()) == t
}

/// `s` starts with `t`.
pub open spec fn has_prefix(s: Seq<u8>, t: Seq<u8>) -> bool {
    t.len() <= s.len() && s.take(t.len() as int) == t
}

/// No merge joins a symbol that ends `a` to one that starts `b`.
pub open spec fn cross_free(rules: Rules, vocab: Seq<Seq<u8>>, a: Seq<u8>, b: Seq<u8>) -> bool {
    forall|x: TokenId, y: TokenId|
        x.0 < vocab.len() && y.0 < vocab.len() && vocab[x.0 as int].len() > 0 && vocab[y.0 as int].len()
            > 0 && has_suffix(a, vocab[x.0 as int]) && has_prefix(b, vocab[y.0 as int]) ==> (
        #[trigger] rules(x, y)).1 == NO_MERGE
}

proof fn lemma_expand_last(vocab: Seq<Seq<u8>>, s: Seq<TokenId>)
    requires
        s.len() > 0,
    ensures
        has_suffix(expand(vocab, s), vocab[s.last().0 as int]),
{
    let e = expand(vocab, s.drop_last());
    let v = vocab[s.last().0 as int];
    assert((e + v).skip(e.len() as int) =~= v);
}

proof fn lemma_expand_first(vocab: Seq<Seq<u8>>, s: Seq<TokenId>)
    requires
        s.len() > 0,
    ensures
        has_prefix(expand(vocab, s), vocab[s[0].0 as int]),
{
    lemma_expand_add(vocab, s.take(1), s.skip(1));
    assert(s =~= s.take(1) + s.skip(1));
    assert(s.take(1) =~= seq![s[0]]);
    lemma_expand_one(vocab, s[0]);
    let v = vocab[s[0].0 as int];
    assert((v + expand(vocab, s.skip(1))).take(v.len() as int) =~= v);
}

proof fn lemma_step_solid(rules: Rules, vocab: Seq<Seq<u8>>, s: Seq<TokenId>, i: int)
    requires
        rules_spell(rules, vocab),
        in_vocab(vocab, s),
        all_solid(vocab, s),
        is_best(rules, s, i),
    ensures
        all_solid(vocab, merge_at(rules, s, i)),
{
    let t = merge_at(rules, s, i);
    assert(s[i].0 < vocab.len() && s[i + 1].0 < vocab.len());
    assert(vocab[s[i].0 as int].len() > 0);
    assert forall|j: int| 0 <= j < t.len() implies vocab[(#[trigger] t[j]).0 as int].len() > 0 by {
        if j < i {
            assert(t[j] == s[j]);
        } else if j > i {
            assert(t[j] == s[j + 1]);
        }
    }
}

/// Two parts that no merge can join merge on their own.
pub proof fn law_merge_splits(
    rules: Rules,
    vocab: Seq<Seq<u8>>,
    a: Seq<TokenId>,
    b: Seq<TokenId>,
)
    requires
        rules_spell(rules, vocab),
        in_vocab(vocab, a),
        in_vocab(vocab, b),
        all_solid(vocab, a),
        all_solid(vocab, b),
        cross_free(rules, vocab, expand(vocab, a), expand(vocab, b)),
    ensures
        bpe_merge(rules, a + b) == bpe_merge(rules, a) + bpe_merge(rules, b),
    decreases a.len() + b.len(),
{
    let s = a + b;
    let n = a.len() as int;
    assert forall|j: int| 0 <= j < n - 1 implies #[trigger] pair_rank(rules, a, j) == pair_rank(
        rules,
        s,
        j,
    ) by {}
    assert forall|j: int| 0 <= j < b.len() - 1 implies #[trigger] pair_rank(rules, b, j)
        == pair_rank(rules, s, n + j) by {}
    if a.len() > 0 && b.len() > 0 {
        lemma_expand_last(vocab, a);
        lemma_expand_first(vocab, b);
        assert(rules(a.last(), b[0]).1 == NO_MERGE);
        assert(pair_rank(rules, s, n - 1) == NO_MERGE);
    }
    if exists|i: int| is_best(rules, s, i) {
        let k = choose|k: int| is_best(rules, s, k);
        if k < n - 1 {
            assert(pair_rank(rules, a, k) == pair_rank(rules, s, k));
            assert(is_best(rules, a, k)) by {
                assert forall|j: int| 0 <= j < a.len() - 1 implies pair_rank(rules, a, k) <= #[trigger] pair_rank(
                    rules,
                    a,
                    j,
                ) by {
                    assert(pair_rank(rules, s, k) <= pair_rank(rules, s, j));
                }
                assert forall|j: int| 0 <= j < k implies pair_rank(rules, a, k) < #[trigger] pair_rank(
                    rules,
                    a,
                    j,
                ) by {
                    assert(pair_rank(rules, s, k) < pair_rank(rules, s, j));
                }
            }
            lemma_merge_step(rules, s, k);
            lemma_merge_step(rules, a, k);
            lemma_step_solid(rules, vocab, a, k);
            lemma_step_expand(rules, vocab, a, k);
            let a2 = merge_at(rules, a, k);
            assert(merge_at(rules, s, k) =~= a2 + b);
            law_merge_splits(rules, vocab, a2, b);
        } else {
            assert(k != n - 1);
            let m = k - n;
            assert(pair_rank(rules, b, m) == pair_rank(rules, s, k));
            assert(is_best(rules, b, m)) by {
                assert forall|j: int| 0 <= j < b.len() - 1 implies pair_rank(rules, b, m) <= #[trigger] pair_rank(
                    rules,
                    b,
                    j,
                ) by {
                    assert(pair_rank(rules, s, k) <= pair_rank(rules, s, n + j));
                }
                assert forall|j: int| 0 <= j < m implies pair_rank(rules, b, m) < #[trigger] pair_rank(
                    rules,
                    b,
                    j,
                ) by {
                    assert(pair_rank(rules, s, k) < pair_rank(rules, s, n + j));
                }
            }
            lemma_merge_step(rules, s, k);
            lemma_merge_step(rules, b, m);
            lemma_step_solid(rules, vocab, b, m);
            lemma_step_expand(rules, vocab, b, m);
            let b2 = merge_at(rules, b, m);
            assert(merge_at(rules, s, k) =~= a + b2);
            law_merge_splits(rules, vocab, a, b2);
        }
    } else {
        lemma_final_unchanged(rules, s);
        assert(is_final(rules, a)) by {
            assert forall|j: int| 0 <= j < a.len() - 1 implies #[trigger] pair_rank(rules, a, j) == NO_MERGE by {
                assert(pair_rank(rules, s, j) == NO_MERGE);
            }
        }
        assert(is_final(rules, b)) by {
            assert forall|j: int| 0 <= j < b.len() - 1 implies #[trigger] pair_rank(rules, b, j) == NO_MERGE by {
                assert(pair_rank(rules, s, n + j) == NO_MERGE);
            }
        }
        lemma_final_unchanged(rules, a);
        lemma_final_unchanged(rules, b);
    }
}

} // verus!
