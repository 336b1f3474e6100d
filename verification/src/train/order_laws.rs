//! What a training run depends on.
use crate::bpe::byte_level::law_rank_is_codepoint_order;
use crate::bpe::bytes::contents;
use crate::sp::cuts::pair_views;
use crate::train::queue::{count_in, Pair};
use crate::train::run::{
    goes_on, is_run, is_step, is_training, picks, run_merges, some_word_holds, stands_in,
    start_words, tie_rank, total_occurrences, BPEResult, TieBreaking, TrainState,
};
use crate::train::update::{any_touches, follows, merged_words, total_change, WordView};
use crate::train::words::{occurrences, word_change, word_touches};
use vstd::prelude::*;
use vstd::seq_lib::{
    to_multiset_build, to_multiset_contains, to_multiset_len, to_multiset_remove,
};

verus! {

/// The rule leaves no tie.
spec fn breaks_all_ties(tb: TieBreaking) -> bool {
    tb != TieBreaking::AssembledBytes
}

proof fn lemma_tie_rank_differs(a: u32, b: u32)
    requires
        tie_rank(a) == tie_rank(b),
    ensures
        a == b,
{
    if a < 256 {
        law_rank_is_codepoint_order(a as u8, b as u8);
    }
    if b < 256 {
        law_rank_is_codepoint_order(b as u8, a as u8);
    }
}

proof fn lemma_pick_is_unique(st: TrainState, p: Pair, q: Pair, tb: TieBreaking)
    requires
        breaks_all_ties(tb),
        picks(st, p, tb),
        picks(st, q, tb),
    ensures
        p == q,
{
    assert(st.queue.contains_key(p) && st.queue.contains_key(q));
    if tie_rank(p.0) == tie_rank(q.0) {
        lemma_tie_rank_differs(p.0, q.0);
    }
    if tie_rank(p.1) == tie_rank(q.1) {
        lemma_tie_rank_differs(p.1, q.1);
    }
}

proof fn lemma_queue_is_determined(a: Map<Pair, i128>, b: Map<Pair, i128>)
    requires
        forall|p: Pair| #[trigger] a.contains_key(p) == b.contains_key(p),
        forall|p: Pair| #[trigger] count_in(a, p) == count_in(b, p),
    ensures
        a == b,
{
    assert forall|p: Pair| #[trigger] a.contains_key(p) implies a[p] == b[p] by {
        assert(count_in(a, p) == count_in(b, p));
    }
    assert(a =~= b);
}

/// Two lists hold the same words, each as often.
pub open spec fn same_words(a: Seq<WordView>, b: Seq<WordView>) -> bool {
    a.to_multiset() == b.to_multiset()
}

/// The last of some words stands somewhere in a list of the same words.
proof fn lemma_find_last(a: Seq<WordView>, b: Seq<WordView>) -> (k: int)
    requires
        same_words(a, b),
        a.len() > 0,
    ensures
        0 <= k < b.len(),
        b[k] == a.last(),
        same_words(a.drop_last(), b.remove(k)),
{
    let x = a.last();
    let n = a.len() - 1;
    assert(a[n] == x);
    assert(a.contains(x));
    to_multiset_contains(a, x);
    to_multiset_contains(b, x);
    let k = choose|k: int| 0 <= k < b.len() && b[k] == x;
    to_multiset_remove(a, n);
    to_multiset_remove(b, k);
    assert(a.remove(n) =~= a.drop_last());
    k
}

proof fn lemma_empty_words(a: Seq<WordView>, b: Seq<WordView>)
    requires
        same_words(a, b),
    ensures
        a.len() == b.len(),
{
    to_multiset_len(a);
    to_multiset_len(b);
}

proof fn lemma_occurrences_without(b: Seq<WordView>, k: int, p: Pair)
    requires
        0 <= k < b.len(),
    ensures
        total_occurrences(b, p) == total_occurrences(b.remove(k), p) + b[k].1 * occurrences(
            b[k].0,
            p,
        ),
    decreases b.len(),
{
    if k == b.len() - 1 {
        assert(b.remove(k) =~= b.drop_last());
    } else {
        lemma_occurrences_without(b.drop_last(), k, p);
        assert(b.remove(k).drop_last() =~= b.drop_last().remove(k));
        assert(b.remove(k).last() == b.last());
    }
}

proof fn lemma_change_without(b: Seq<WordView>, k: int, pair: Pair, new: u32, p: Pair)
    requires
        0 <= k < b.len(),
    ensures
        total_change(b, pair, new, p) == total_change(b.remove(k), pair, new, p) + b[k].1
            * word_change(None, b[k].0, pair, new, p),
    decreases b.len(),
{
    if k == b.len() - 1 {
        assert(b.remove(k) =~= b.drop_last());
    } else {
        lemma_change_without(b.drop_last(), k, pair, new, p);
        assert(b.remove(k).drop_last() =~= b.drop_last().remove(k));
        assert(b.remove(k).last() == b.last());
    }
}

/// Sums over words do not depend on their order.
proof fn lemma_sums_agree(a: Seq<WordView>, b: Seq<WordView>, pair: Pair, new: u32, p: Pair)
    requires
        same_words(a, b),
    ensures
        total_occurrences(a, p) == total_occurrences(b, p),
        total_change(a, pair, new, p) == total_change(b, pair, new, p),
    decreases a.len(),
{
    lemma_empty_words(a, b);
    if a.len() > 0 {
        let k = lemma_find_last(a, b);
        lemma_sums_agree(a.drop_last(), b.remove(k), pair, new, p);
        lemma_occurrences_without(b, k, p);
        lemma_change_without(b, k, pair, new, p);
    }
}

proof fn lemma_same_member(a: Seq<WordView>, b: Seq<WordView>, w: int) -> (v: int)
    requires
        same_words(a, b),
        0 <= w < a.len(),
    ensures
        0 <= v < b.len(),
        b[v] == a[w],
{
    assert(a.contains(a[w]));
    to_multiset_contains(a, a[w]);
    to_multiset_contains(b, a[w]);
    choose|v: int| 0 <= v < b.len() && b[v] == a[w]
}

proof fn lemma_some_agree(a: Seq<WordView>, b: Seq<WordView>, pair: Pair, new: u32, p: Pair)
    requires
        same_words(a, b),
    ensures
        some_word_holds(a, p) ==> some_word_holds(b, p),
        any_touches(a, pair, new, p) ==> any_touches(b, pair, new, p),
{
    if some_word_holds(a, p) {
        let w = choose|w: int| 0 <= w < a.len() && stands_in((#[trigger] a[w]).0, p);
        let v = lemma_same_member(a, b, w);
        assert(stands_in(b[v].0, p));
    }
    if any_touches(a, pair, new, p) {
        let w = choose|w: int|
            0 <= w < a.len() && follows(#[trigger] a[w], pair) && word_touches(
                None,
                a[w].0,
                pair,
                new,
                p,
            );
        let v = lemma_same_member(a, b, w);
        assert(follows(b[v], pair) && word_touches(None, b[v].0, pair, new, p));
    }
}

/// Merging a pair in the same words gives the same words.
proof fn lemma_merged_agree(a: Seq<WordView>, b: Seq<WordView>, pair: Pair, new: u32)
    requires
        same_words(a, b),
    ensures
        same_words(merged_words(a, pair, new), merged_words(b, pair, new)),
    decreases a.len(),
{
    lemma_empty_words(a, b);
    let x = merged_words(a, pair, new);
    let y = merged_words(b, pair, new);
    if a.len() > 0 {
        let k = lemma_find_last(a, b);
        lemma_merged_agree(a.drop_last(), b.remove(k), pair, new);
        assert(x.drop_last() =~= merged_words(a.drop_last(), pair, new));
        assert(y.remove(k) =~= merged_words(b.remove(k), pair, new));
        let w = x.last();
        assert(y[k] == w);
        assert(x =~= x.drop_last().push(w));
        to_multiset_build(x.drop_last(), w);
        to_multiset_remove(y, k);
        to_multiset_contains(y, w);
        assert(y.contains(y[k]));
        assert(y.to_multiset() =~= y.to_multiset().remove(w).insert(w));
    } else {
        assert(x =~= y);
    }
}

/// Two states differ in the order of the words at most.
spec fn agree(a: TrainState, b: TrainState) -> bool {
    &&& same_words(a.words, b.words)
    &&& a.queue == b.queue
    &&& a.symbols == b.symbols
}

proof fn lemma_steps_agree(a: TrainState, b: TrainState, c: TrainState, d: TrainState, pair: Pair)
    requires
        agree(a, c),
        is_step(a, b, pair),
        is_step(c, d, pair),
    ensures
        agree(b, d),
{
    let new = a.symbols.len() as u32;
    let q = a.queue.remove(pair);
    assert forall|p: Pair| #[trigger] b.queue.contains_key(p) == d.queue.contains_key(p) by {
        lemma_some_agree(a.words, c.words, pair, new, p);
        lemma_some_agree(c.words, a.words, pair, new, p);
        assert(d.queue.contains_key(p) == (q.contains_key(p) || any_touches(
            c.words,
            pair,
            new,
            p,
        )));
    }
    assert forall|p: Pair| #[trigger] count_in(b.queue, p) == count_in(d.queue, p) by {
        lemma_sums_agree(a.words, c.words, pair, new, p);
        assert(b.queue.contains_key(p) || !b.queue.contains_key(p));
        assert(d.queue.contains_key(p) || !d.queue.contains_key(p));
    }
    lemma_queue_is_determined(b.queue, d.queue);
    lemma_merged_agree(a.words, c.words, pair, new);
}

proof fn lemma_runs_agree(
    states: Seq<TrainState>,
    pairs: Seq<Pair>,
    states2: Seq<TrainState>,
    pairs2: Seq<Pair>,
    tb: TieBreaking,
    vocab_size: int,
    i: int,
)
    requires
        breaks_all_ties(tb),
        is_run(states, pairs, tb, vocab_size),
        is_run(states2, pairs2, tb, vocab_size),
        agree(states[0], states2[0]),
        0 <= i < states.len(),
        i < states2.len(),
    ensures
        forall|j: int| 0 <= j < i ==> #[trigger] pairs[j] == pairs2[j],
        forall|j: int| 0 <= j <= i ==> agree(#[trigger] states[j], states2[j]),
    decreases i,
{
    if i > 0 {
        lemma_runs_agree(states, pairs, states2, pairs2, tb, vocab_size, i - 1);
        let a = states[i - 1];
        let c = states2[i - 1];
        assert(goes_on(a, vocab_size));
        assert(goes_on(c, vocab_size));
        assert(states[i - 1 + 1] == states[i]);
        assert(states2[i - 1 + 1] == states2[i]);
        assert(agree(a, c));
        assert(picks(a, pairs2[i - 1], tb));
        lemma_pick_is_unique(a, pairs[i - 1], pairs2[i - 1], tb);
        lemma_steps_agree(a, states[i], c, states2[i], pairs[i - 1]);
    }
}

/// Under a rule that goes by token IDs, training has one outcome, and the order
/// in which the words are listed does not change it.
pub proof fn law_training_is_determined(
    states: Seq<TrainState>,
    pairs: Seq<Pair>,
    counts: Seq<(Vec<u8>, usize)>,
    r: BPEResult,
    states2: Seq<TrainState>,
    pairs2: Seq<Pair>,
    counts2: Seq<(Vec<u8>, usize)>,
    r2: BPEResult,
    special: Seq<String>,
    tb: TieBreaking,
    vocab_size: int,
)
    requires
        tb != TieBreaking::AssembledBytes,
        is_training(states, pairs, counts, special, tb, vocab_size, r),
        is_training(states2, pairs2, counts2, special, tb, vocab_size, r2),
        same_words(start_words(counts), start_words(counts2)),
    ensures
        contents(r.vocab@) == contents(r2.vocab@),
        pair_views(r.merges@) == pair_views(r2.merges@),
{
    assert(agree(states[0], states2[0])) by {
        let a = states[0].queue;
        let b = states2[0].queue;
        let x = states[0].words;
        let y = states2[0].words;
        assert forall|p: Pair| #[trigger] a.contains_key(p) == b.contains_key(p) by {
            lemma_some_agree(x, y, p, 0, p);
            lemma_some_agree(y, x, p, 0, p);
            assert(b.contains_key(p) == some_word_holds(y, p));
        }
        assert forall|p: Pair| #[trigger] count_in(a, p) == count_in(b, p) by {
            lemma_sums_agree(x, y, p, 0, p);
            assert(a.contains_key(p) || !a.contains_key(p));
            assert(b.contains_key(p) || !b.contains_key(p));
        }
        lemma_queue_is_determined(a, b);
    }
    let n = if pairs.len() <= pairs2.len() {
        pairs.len() as int
    } else {
        pairs2.len() as int
    };
    lemma_runs_agree(states, pairs, states2, pairs2, tb, vocab_size, n);
    assert(agree(states[n], states2[n]));
    if pairs.len() < pairs2.len() {
        assert(goes_on(states2[n], vocab_size));
    }
    if pairs2.len() < pairs.len() {
        assert(goes_on(states[n], vocab_size));
    }
    assert(run_merges(states, pairs) =~= run_merges(states2, pairs2)) by {
        assert forall|i: int| 0 <= i < pairs.len() implies run_merges(states, pairs)[i]
            == run_merges(states2, pairs2)[i] by {
            assert(agree(states[i], states2[i]));
            assert(pairs[i] == pairs2[i]);
        }
    }
}

} // verus!
