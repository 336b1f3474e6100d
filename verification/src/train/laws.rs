//! What holds of every training run.
use crate::bpe::bytes::contents;
use crate::sp::cuts::pair_views;
use crate::train::queue::{count_in, Pair};
use crate::train::run::{
    counts_pairs, goes_on, is_run, is_start, is_step, is_training, lemma_start_known,
    lemma_step_known, pairs_known, run_merges, some_word_holds, start_symbols, total_occurrences,
    words_known, BPEResult, TieBreaking, TrainState,
};
use crate::train::update::{follows, merged_word, merged_words, total_change, WordView};
use crate::train::words::{law_changes_are_differences, merge_pair, occurrences};
use vstd::prelude::*;

verus! {

proof fn lemma_total_difference(words: Seq<WordView>, pair: Pair, new: u32, p: Pair)
    requires
        p != pair,
    ensures
        total_change(words, pair, new, p) == total_occurrences(merged_words(words, pair, new), p)
            - total_occurrences(words, p),
    decreases words.len(),
{
    if words.len() > 0 {
        lemma_total_difference(words.drop_last(), pair, new, p);
        let m = merged_words(words, pair, new);
        assert(m.drop_last() =~= merged_words(words.drop_last(), pair, new));
        let (s, c) = words.last();
        law_changes_are_differences(s, pair, new, p);
        let a = occurrences(merge_pair(s, pair, new), p);
        let b = occurrences(s, p);
        assert(c * (a - b) == c * a - c * b) by (nonlinear_arith);
        assert(words[words.len() - 1] == words.last());
        assert(m.last() == merged_word(words.last(), pair, new));
        if !follows(words.last(), pair) {
            assert(c == 0);
            assert(c * a == 0 && c * b == 0) by (nonlinear_arith)
                requires
                    c == 0,
            ;
        }
    }
}

/// The counts stay true: in every state of a run, each pair that was not
/// merged so far has the count of how often it stands in the words.
pub proof fn law_counts_stay_true(
    states: Seq<TrainState>,
    pairs: Seq<Pair>,
    tb: TieBreaking,
    vocab_size: int,
    i: int,
    p: Pair,
)
    requires
        is_run(states, pairs, tb, vocab_size),
        counts_pairs(states[0].queue, states[0].words),
        0 <= i < states.len(),
        forall|j: int| 0 <= j < i ==> #[trigger] pairs[j] != p,
    ensures
        count_in(states[i].queue, p) == total_occurrences(states[i].words, p),
    decreases i,
{
    if i == 0 {
        assert(states[0].queue.contains_key(p) == some_word_holds(states[0].words, p));
    } else {
        law_counts_stay_true(states, pairs, tb, vocab_size, i - 1, p);
        let a = states[i - 1];
        let b = states[i];
        let pair = pairs[i - 1];
        assert(goes_on(a, vocab_size));
        assert(states[i - 1 + 1] == b);
        assert(is_step(a, b, pair));
        let new = a.symbols.len() as u32;
        assert(b.queue.contains_key(p) || !b.queue.contains_key(p));
        assert(count_in(a.queue.remove(pair), p) == count_in(a.queue, p));
        lemma_total_difference(a.words, pair, new, p);
    }
}

pub proof fn lemma_symbols_grow(
    states: Seq<TrainState>,
    pairs: Seq<Pair>,
    tb: TieBreaking,
    vocab_size: int,
    i: int,
)
    requires
        is_run(states, pairs, tb, vocab_size),
        0 <= i < states.len(),
    ensures
        states[i].symbols.len() == states[0].symbols.len() + i,
    decreases i,
{
    if i > 0 {
        lemma_symbols_grow(states, pairs, tb, vocab_size, i - 1);
        assert(goes_on(states[i - 1], vocab_size));
        assert(states[i - 1 + 1] == states[i]);
    }
}

/// The vocabulary holds the bytes, the special tokens and one token for each
/// merge, and is never fuller than asked for unless it starts so.
pub proof fn law_vocab_has_one_token_per_merge(
    states: Seq<TrainState>,
    pairs: Seq<Pair>,
    counts: Seq<(Vec<u8>, usize)>,
    special: Seq<String>,
    tb: TieBreaking,
    vocab_size: int,
    r: BPEResult,
)
    requires
        is_training(states, pairs, counts, special, tb, vocab_size, r),
    ensures
        r.vocab@.len() == 256 + special.len() + r.merges@.len(),
        r.merges@.len() > 0 ==> r.vocab@.len() <= vocab_size,
{
    lemma_symbols_grow(states, pairs, tb, vocab_size, states.len() - 1);
    assert(pair_views(r.merges@).len() == run_merges(states, pairs).len());
    assert(contents(r.vocab@).len() == r.vocab@.len());
    if pairs.len() > 0 {
        let n = pairs.len() - 1;
        lemma_symbols_grow(states, pairs, tb, vocab_size, n);
        assert(goes_on(states[n], vocab_size));
    }
}

/// In every state of a run, words and counts speak of tokens that are there.
pub proof fn lemma_run_known(
    states: Seq<TrainState>,
    pairs: Seq<Pair>,
    counts: Seq<(Vec<u8>, usize)>,
    special: Seq<String>,
    tb: TieBreaking,
    vocab_size: int,
    i: int,
)
    requires
        is_run(states, pairs, tb, vocab_size),
        is_start(states[0], counts, special),
        vocab_size <= u32::MAX,
        0 <= i < states.len(),
    ensures
        words_known(states[i].words, states[i].symbols.len() as int),
        pairs_known(states[i].queue, states[i].symbols.len() as int),
    decreases i,
{
    if i == 0 {
        let st = states[0];
        lemma_start_known(st.words, counts, st.queue);
        assert(st.symbols.len() >= 256);
        assert forall|w: int, j: int|
            0 <= w < st.words.len() && 0 <= j < st.words[w].0.len() implies #[trigger] st.words[w].0[j]
            < st.symbols.len() by {
            assert(st.words[w].0[j] < 256);
        }
    } else {
        lemma_run_known(states, pairs, counts, special, tb, vocab_size, i - 1);
        let a = states[i - 1];
        let pair = pairs[i - 1];
        assert(goes_on(a, vocab_size));
        assert(states[i - 1 + 1] == states[i]);
        let popped = a.queue.remove(pair);
        let n = a.symbols.len() as u32;
        assert(pairs_known(popped, n as int)) by {
            assert forall|p: Pair| #[trigger] popped.contains_key(p) implies p.0 < n && p.1 < n by {
                assert(a.queue.contains_key(p));
            }
        }
        lemma_step_known(a.words, popped, states[i].queue, pair, n);
    }
}

/// The tokens of a state stay at their places.
proof fn lemma_symbols_stay(
    states: Seq<TrainState>,
    pairs: Seq<Pair>,
    tb: TieBreaking,
    vocab_size: int,
    i: int,
    j: int,
    k: int,
)
    requires
        is_run(states, pairs, tb, vocab_size),
        0 <= i <= j < states.len(),
        0 <= k < states[i].symbols.len(),
    ensures
        k < states[j].symbols.len(),
        states[j].symbols[k] == states[i].symbols[k],
    decreases j - i,
{
    if i < j {
        lemma_symbols_stay(states, pairs, tb, vocab_size, i, j - 1, k);
        assert(goes_on(states[j - 1], vocab_size));
        assert(states[j - 1 + 1] == states[j]);
    }
}

/// The vocabulary starts with the bytes and the special tokens.
pub proof fn law_vocab_starts_with_bytes(
    states: Seq<TrainState>,
    pairs: Seq<Pair>,
    counts: Seq<(Vec<u8>, usize)>,
    special: Seq<String>,
    tb: TieBreaking,
    vocab_size: int,
    r: BPEResult,
    k: int,
)
    requires
        is_training(states, pairs, counts, special, tb, vocab_size, r),
        0 <= k < 256 + special.len(),
    ensures
        k < r.vocab@.len(),
        r.vocab@[k]@ == start_symbols(special)[k],
{
    lemma_symbols_stay(states, pairs, tb, vocab_size, 0, states.len() - 1, k);
    assert(contents(r.vocab@)[k] == r.vocab@[k]@);
}

/// The token at place `x` of the vocabulary is the left part of merge `i`, the
/// one at `y` its right part, and both stand before the merged token, which is
/// the two parts in a row.
pub open spec fn merges_earlier(
    vocab: Seq<Seq<u8>>,
    merges: Seq<(Seq<u8>, Seq<u8>)>,
    i: int,
    x: int,
    y: int,
) -> bool {
    let at = vocab.len() - merges.len() + i;
    &&& 0 <= x < at
    &&& 0 <= y < at
    &&& merges[i] == (vocab[x], vocab[y])
    &&& vocab[at] == vocab[x] + vocab[y]
}

/// The parts of each merge are earlier entries of the vocabulary, and the entry
/// of the merge is the two in a row.
pub proof fn law_merge_parts_are_earlier(
    states: Seq<TrainState>,
    pairs: Seq<Pair>,
    counts: Seq<(Vec<u8>, usize)>,
    special: Seq<String>,
    tb: TieBreaking,
    vocab_size: int,
    r: BPEResult,
    i: int,
)
    requires
        is_training(states, pairs, counts, special, tb, vocab_size, r),
        vocab_size <= u32::MAX,
        0 <= i < r.merges@.len(),
    ensures
        exists|x: int, y: int| #[trigger]
            merges_earlier(contents(r.vocab@), pair_views(r.merges@), i, x, y),
{
    let vocab = contents(r.vocab@);
    let merges = pair_views(r.merges@);
    let last = states.len() - 1;
    assert(merges.len() == run_merges(states, pairs).len());
    lemma_symbols_grow(states, pairs, tb, vocab_size, last);
    lemma_symbols_grow(states, pairs, tb, vocab_size, i);
    lemma_run_known(states, pairs, counts, special, tb, vocab_size, i);
    let (x, y) = (pairs[i].0 as int, pairs[i].1 as int);
    let st = states[i];
    assert(goes_on(st, vocab_size));
    assert(st.queue.contains_key(pairs[i]));
    assert(states[i + 1].symbols == st.symbols.push(st.symbols[x] + st.symbols[y]));
    lemma_symbols_stay(states, pairs, tb, vocab_size, i, last, x);
    lemma_symbols_stay(states, pairs, tb, vocab_size, i, last, y);
    lemma_symbols_stay(states, pairs, tb, vocab_size, i + 1, last, st.symbols.len() as int);
    assert(merges[i] == run_merges(states, pairs)[i]);
    assert(merges_earlier(vocab, merges, i, x, y));
}

} // verus!
