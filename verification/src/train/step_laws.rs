//! What training does to the words.
use crate::bpe::bytes::contents;
use crate::train::laws::{law_vocab_starts_with_bytes, lemma_run_known, lemma_symbols_grow};
use crate::train::queue::Pair;
use crate::train::run::{
    byte_ids, goes_on, is_run, is_start, is_step, is_training, some_word_holds, stands_in, start_symbols,
    total_occurrences, BPEResult, TieBreaking, TrainState,
};
use crate::train::update::{any_touches, follows, merged_word, WordView};
use crate::train::words::{merge_pair, occurrences, word_touches};
use vstd::prelude::*;
use vstd::utf8::encode_utf8;

verus! {

/// Merging a pair in a word replaces its first occurrence, keeps what stands
/// before, and goes on behind it.
pub proof fn law_merge_takes_the_first(s: Seq<u32>, pair: Pair, new: u32, i: int)
    requires
        0 <= i < s.len() - 1,
        s[i] == pair.0,
        s[i + 1] == pair.1,
        forall|j: int| 0 <= j < i ==> !(#[trigger] s[j] == pair.0 && s[j + 1] == pair.1),
    ensures
        merge_pair(s, pair, new) == s.take(i) + seq![new] + merge_pair(s.skip(i + 2), pair, new),
    decreases i,
{
    if i == 0 {
        assert(s.take(0) + seq![new] + merge_pair(s.skip(2), pair, new) =~= seq![new] + merge_pair(
            s.skip(2),
            pair,
            new,
        ));
    } else {
        let t = s.skip(1);
        assert(!(s[0] == pair.0 && s[1] == pair.1));
        assert forall|j: int| 0 <= j < i - 1 implies !(#[trigger] t[j] == pair.0 && t[j + 1]
            == pair.1) by {
            assert(t[j] == s[j + 1] && t[j + 1] == s[j + 2]);
        }
        law_merge_takes_the_first(t, pair, new, i - 1);
        assert(t.skip(i + 1) =~= s.skip(i + 2));
        let rest = merge_pair(s.skip(i + 2), pair, new);
        assert(seq![s[0]] + (t.take(i - 1) + seq![new] + rest) =~= s.take(i) + seq![new] + rest);
    }
}

/// A word without the pair stays as it is.
pub proof fn law_merge_keeps_other_words(s: Seq<u32>, pair: Pair, new: u32)
    requires
        !stands_in(s, pair),
    ensures
        merge_pair(s, pair, new) == s,
    decreases s.len(),
{
    if s.len() >= 2 {
        let t = s.skip(1);
        if stands_in(t, pair) {
            let j = choose|j: int| 0 <= j < t.len() - 1 && #[trigger] t[j] == pair.0 && t[j + 1]
                == pair.1;
            assert(s[j + 1] == pair.0 && s[j + 2] == pair.1);
            assert(stands_in(s, pair));
        }
        law_merge_keeps_other_words(t, pair, new);
        if s[0] == pair.0 && s[1] == pair.1 {
            assert(s[0] == pair.0 && s[1] == pair.1);
            assert(stands_in(s, pair));
        }
        assert(seq![s[0]] + t =~= s);
    }
}

/// The occurrences of a pair in a word are those in its two parts up to and from
/// any place; in two symbols it occurs once if they are the pair; in fewer
/// never.
pub proof fn law_occurrences_divide(s: Seq<u32>, p: Pair, i: int)
    requires
        0 <= i < s.len(),
    ensures
        occurrences(s, p) == occurrences(s.take(i + 1), p) + occurrences(s.skip(i), p),
        s.len() < 2 ==> occurrences(s, p) == 0,
        s.len() == 2 ==> occurrences(s, p) == if s[0] == p.0 && s[1] == p.1 {
            1int
        } else {
            0
        },
    decreases i,
{
    if s.len() == 2 {
        assert(occurrences(s.skip(1), p) == 0);
    }
    if i == 0 {
        assert(s.skip(0) =~= s);
        assert(occurrences(s.take(1), p) == 0);
    } else {
        let t = s.skip(1);
        law_occurrences_divide(t, p, i - 1);
        assert(t.take(i) =~= s.take(i + 1).skip(1));
        assert(t.skip(i - 1) =~= s.skip(i));
        assert(s.take(i + 1)[0] == s[0] && s.take(i + 1)[1] == s[1]);
    }
}

/// The count of a pair is that in each word, as often as the word occurs.
pub proof fn law_counts_weigh_words(a: Seq<WordView>, w: WordView, b: Seq<WordView>, p: Pair)
    ensures
        total_occurrences(a + b, p) == total_occurrences(a, p) + total_occurrences(b, p),
        total_occurrences(seq![w], p) == w.1 * occurrences(w.0, p),
    decreases b.len(),
{
    assert(seq![w].drop_last() =~= Seq::<WordView>::empty());
    assert(total_occurrences(Seq::<WordView>::empty(), p) == 0);
    assert(seq![w].last() == w);
    if b.len() == 0 {
        assert(a + b =~= a);
    } else {
        assert((a + b).drop_last() =~= a + b.drop_last());
        assert((a + b).last() == b.last());
        law_counts_weigh_words(a, w, b.drop_last(), p);
    }
}

/// The bytes of a word.
pub open spec fn word_bytes(symbols: Seq<Seq<u8>>, s: Seq<u32>) -> Seq<u8>
    decreases s.len(),
{
    if s.len() == 0 {
        Seq::empty()
    } else {
        symbols[s[0] as int] + word_bytes(symbols, s.skip(1))
    }
}

proof fn lemma_merge_bytes(symbols: Seq<Seq<u8>>, s: Seq<u32>, pair: Pair)
    requires
        symbols.len() < u32::MAX,
        pair.0 < symbols.len(),
        pair.1 < symbols.len(),
        forall|i: int| 0 <= i < s.len() ==> #[trigger] s[i] < symbols.len(),
    ensures
        ({
            let more = symbols.push(symbols[pair.0 as int] + symbols[pair.1 as int]);
            &&& word_bytes(more, merge_pair(s, pair, symbols.len() as u32)) == word_bytes(
                symbols,
                s,
            )
            &&& word_bytes(more, s) == word_bytes(symbols, s)
        }),
    decreases s.len(),
{
    let new = symbols.len() as u32;
    let more = symbols.push(symbols[pair.0 as int] + symbols[pair.1 as int]);
    if s.len() > 0 {
        let t = s.skip(1);
        assert(forall|i: int| 0 <= i < t.len() ==> (#[trigger] t[i]) == s[i + 1]);
        lemma_merge_bytes(symbols, t, pair);
        assert(s[0] < symbols.len());
        assert(more[s[0] as int] == symbols[s[0] as int]);
        if s.len() >= 2 {
            if s[0] == pair.0 && s[1] == pair.1 {
                let u = s.skip(2);
                assert(forall|i: int| 0 <= i < u.len() ==> (#[trigger] u[i]) == s[i + 2]);
                lemma_merge_bytes(symbols, u, pair);
                let m = merge_pair(u, pair, new);
                assert((seq![new] + m).skip(1) =~= m);
                assert(t.skip(1) =~= u);
                assert(t[0] == s[1]);
                assert(word_bytes(symbols, s) =~= (symbols[s[0] as int] + symbols[s[1] as int])
                    + word_bytes(symbols, u));
                assert(more[new as int] == symbols[pair.0 as int] + symbols[pair.1 as int]);
                assert(word_bytes(more, seq![new] + m) == more[new as int] + word_bytes(more, m));
            } else {
                let m = merge_pair(t, pair, new);
                assert((seq![s[0]] + m).skip(1) =~= m);
                assert(word_bytes(more, seq![s[0]] + m) == more[s[0] as int] + word_bytes(more, m));
            }
        }
    }
}

/// Training does not change what a word says: in every state the bytes of its
/// symbols in a row are the bytes that were counted, and it occurs as often.
pub proof fn law_words_keep_their_bytes(
    states: Seq<TrainState>,
    pairs: Seq<Pair>,
    counts: Seq<(Vec<u8>, usize)>,
    special: Seq<String>,
    tb: TieBreaking,
    vocab_size: int,
    i: int,
    w: int,
)
    requires
        is_run(states, pairs, tb, vocab_size),
        is_start(states[0], counts, special),
        vocab_size <= u32::MAX,
        0 <= i < states.len(),
        0 <= w < counts.len(),
    ensures
        states[i].words.len() == counts.len(),
        word_bytes(states[i].symbols, states[i].words[w].0) == counts[w].0@,
        states[i].words[w].1 == counts[w].1,
    decreases i,
{
    if i == 0 {
        let st = states[0];
        assert(st.words[w].0 == byte_ids(counts[w].0@));
        lemma_byte_words(st.symbols, counts[w].0@, special);
    } else {
        law_words_keep_their_bytes(states, pairs, counts, special, tb, vocab_size, i - 1, w);
        lemma_run_known(states, pairs, counts, special, tb, vocab_size, i - 1);
        let a = states[i - 1];
        let b = states[i];
        let pair = pairs[i - 1];
        assert(goes_on(a, vocab_size));
        assert(states[i - 1 + 1] == b);
        assert(is_step(a, b, pair));
        assert(a.queue.contains_key(pair));
        let new = a.symbols.len() as u32;
        assert(b.words[w] == merged_word(a.words[w], pair, new));
        assert forall|j: int| 0 <= j < a.words[w].0.len() implies #[trigger] a.words[w].0[j]
            < a.symbols.len() by {}
        lemma_merge_bytes(a.symbols, a.words[w].0, pair);
    }
}

proof fn lemma_byte_words(symbols: Seq<Seq<u8>>, s: Seq<u8>, special: Seq<String>)
    requires
        symbols == start_symbols(special),
    ensures
        word_bytes(symbols, byte_ids(s)) == s,
    decreases s.len(),
{
    let ids = byte_ids(s);
    if s.len() > 0 {
        lemma_byte_words(symbols, s.skip(1), special);
        assert(ids.skip(1) =~= byte_ids(s.skip(1)));
        assert(ids[0] == s[0] as u32);
        assert(symbols[s[0] as int] =~= seq![s[0]]);
        assert(seq![s[0]] + s.skip(1) =~= s);
    } else {
        assert(word_bytes(symbols, ids) =~= s);
    }
}

proof fn lemma_pair_gone(s: Seq<u32>, pair: Pair, new: u32)
    requires
        new != pair.0,
        new != pair.1,
    ensures
        !stands_in(merge_pair(s, pair, new), pair),
        merge_pair(s, pair, new).len() > 0 <==> s.len() > 0,
        s.len() > 0 ==> merge_pair(s, pair, new)[0] == s[0] || merge_pair(s, pair, new)[0] == new,
    decreases s.len(),
{
    let t = merge_pair(s, pair, new);
    if s.len() >= 2 {
        let merged = s[0] == pair.0 && s[1] == pair.1;
        let rest = if merged {
            s.skip(2)
        } else {
            s.skip(1)
        };
        lemma_pair_gone(rest, pair, new);
        let u = merge_pair(rest, pair, new);
        if stands_in(t, pair) {
            let j = choose|j: int| 0 <= j < t.len() - 1 && #[trigger] t[j] == pair.0 && t[j + 1]
                == pair.1;
            if j > 0 {
                assert(u[j - 1] == pair.0 && u[j - 1 + 1] == pair.1);
                assert(stands_in(u, pair));
            } else {
                assert(t[1] == u[0]);
            }
        }
    }
}

/// A pair that was merged stands in no word any more that occurs.
pub proof fn law_merged_pair_is_gone(
    states: Seq<TrainState>,
    pairs: Seq<Pair>,
    counts: Seq<(Vec<u8>, usize)>,
    special: Seq<String>,
    tb: TieBreaking,
    vocab_size: int,
    i: int,
    w: int,
)
    requires
        is_run(states, pairs, tb, vocab_size),
        is_start(states[0], counts, special),
        vocab_size <= u32::MAX,
        0 <= i < pairs.len(),
        0 <= w < counts.len(),
        counts[w].1 > 0,
    ensures
        !stands_in(states[i + 1].words[w].0, pairs[i]),
{
    law_words_keep_their_bytes(states, pairs, counts, special, tb, vocab_size, i, w);
    lemma_run_known(states, pairs, counts, special, tb, vocab_size, i);
    let a = states[i];
    assert(goes_on(a, vocab_size));
    assert(is_step(a, states[i + 1], pairs[i]));
    assert(a.queue.contains_key(pairs[i]));
    let new = a.symbols.len() as u32;
    assert(states[i + 1].words[w] == merged_word(a.words[w], pairs[i], new));
    lemma_pair_gone(a.words[w].0, pairs[i], new);
}

/// Where a pair of a merged word comes from.
proof fn lemma_pair_source(prev: Option<u32>, s: Seq<u32>, pair: Pair, new: u32, p: Pair)
    ensures
        stands_in(merge_pair(s, pair, new), p) ==> (p != pair && stands_in(s, p)) || word_touches(
            prev,
            s,
            pair,
            new,
            p,
        ),
        prev is Some && s.len() > 0 && merge_pair(s, pair, new).len() > 0 && p == (
            prev->0,
            merge_pair(s, pair, new)[0],
        ) ==> p == (prev->0, s[0]) || word_touches(prev, s, pair, new, p),
        s.len() == 0 ==> merge_pair(s, pair, new).len() == 0,
    decreases s.len(),
{
    let t = merge_pair(s, pair, new);
    if s.len() >= 2 {
        let merged = s[0] == pair.0 && s[1] == pair.1;
        let n: int = if merged {
            2
        } else {
            1
        };
        let rest = s.skip(n);
        let head = if merged {
            new
        } else {
            s[0]
        };
        lemma_pair_source(Some(head), rest, pair, new, p);
        let u = merge_pair(rest, pair, new);
        assert(t =~= seq![head] + u);
        if stands_in(t, p) {
            let j = choose|j: int| 0 <= j < t.len() - 1 && #[trigger] t[j] == p.0 && t[j + 1] == p.1;
            if j > 0 {
                assert(u[j - 1] == p.0 && u[j - 1 + 1] == p.1);
                assert(stands_in(u, p));
                if stands_in(rest, p) {
                    let k = choose|k: int| 0 <= k < rest.len() - 1 && #[trigger] rest[k] == p.0
                        && rest[k + 1] == p.1;
                    assert(s[k + n] == p.0 && s[k + n + 1] == p.1);
                    assert(stands_in(s, p));
                }
            } else {
                assert(t[1] == u[0]);
                assert(rest.len() > 0);
                assert(rest[0] == s[n]);
                if !merged && p == (s[0], s[1]) {
                    assert(s[0] == p.0 && s[1] == p.1);
                    assert(stands_in(s, p));
                }
            }
        }
    }
}

proof fn lemma_pairs_queued(
    states: Seq<TrainState>,
    pairs: Seq<Pair>,
    counts: Seq<(Vec<u8>, usize)>,
    special: Seq<String>,
    tb: TieBreaking,
    vocab_size: int,
    i: int,
    w: int,
    p: Pair,
)
    requires
        is_run(states, pairs, tb, vocab_size),
        is_start(states[0], counts, special),
        vocab_size <= u32::MAX,
        0 <= i < states.len(),
        0 <= w < counts.len(),
        counts[w].1 > 0,
        stands_in(states[i].words[w].0, p),
    ensures
        states[i].queue.contains_key(p),
    decreases i,
{
    law_words_keep_their_bytes(states, pairs, counts, special, tb, vocab_size, i, w);
    if i == 0 {
        assert(some_word_holds(states[0].words, p));
    } else {
        law_words_keep_their_bytes(states, pairs, counts, special, tb, vocab_size, i - 1, w);
        let a = states[i - 1];
        let b = states[i];
        let pair = pairs[i - 1];
        assert(goes_on(a, vocab_size));
        assert(states[i - 1 + 1] == b);
        assert(is_step(a, b, pair));
        let new = a.symbols.len() as u32;
        assert(b.words[w] == merged_word(a.words[w], pair, new));
        assert(follows(a.words[w], pair));
        lemma_pair_source(None, a.words[w].0, pair, new, p);
        if p != pair && stands_in(a.words[w].0, p) {
            lemma_pairs_queued(states, pairs, counts, special, tb, vocab_size, i - 1, w, p);
            assert(a.queue.remove(pair).contains_key(p));
        } else {
            assert(any_touches(a.words, pair, new, p));
        }
        assert(b.queue.contains_key(p) == (a.queue.remove(pair).contains_key(p) || any_touches(
            a.words,
            pair,
            new,
            p,
        )));
    }
}

/// Training ends when the vocabulary is full or every word that occurs is one
/// token.
pub proof fn law_training_goes_to_the_end(
    states: Seq<TrainState>,
    pairs: Seq<Pair>,
    counts: Seq<(Vec<u8>, usize)>,
    special: Seq<String>,
    tb: TieBreaking,
    vocab_size: int,
    r: BPEResult,
    w: int,
)
    requires
        is_training(states, pairs, counts, special, tb, vocab_size, r),
        vocab_size <= u32::MAX,
        0 <= w < counts.len(),
        counts[w].1 > 0,
    ensures
        r.vocab@.len() >= vocab_size || states.last().words[w].0.len() <= 1,
{
    let n = states.len() - 1;
    let s = states[n].words[w].0;
    assert(contents(r.vocab@).len() == r.vocab@.len());
    if r.vocab@.len() < vocab_size && s.len() > 1 {
        let p = (s[0], s[1]);
        assert(s[0] == p.0 && s[1] == p.1);
        assert(stands_in(s, p));
        lemma_pairs_queued(states, pairs, counts, special, tb, vocab_size, n, w, p);
        assert(states[n].queue.dom().contains(p));
    }
}

/// The vocabulary starts with each byte in order, and the special tokens follow
/// as they are given.
pub proof fn law_first_tokens(
    states: Seq<TrainState>,
    pairs: Seq<Pair>,
    counts: Seq<(Vec<u8>, usize)>,
    special: Seq<String>,
    tb: TieBreaking,
    vocab_size: int,
    r: BPEResult,
    b: u8,
    k: int,
)
    requires
        is_training(states, pairs, counts, special, tb, vocab_size, r),
    ensures
        b < r.vocab@.len(),
        r.vocab@[b as int]@ == seq![b],
        0 <= k < special.len() ==> 256 + k < r.vocab@.len() && r.vocab@[256 + k]@ == encode_utf8(
            special[k]@,
        ),
{
    law_vocab_starts_with_bytes(states, pairs, counts, special, tb, vocab_size, r, b as int);
    if 0 <= k < special.len() {
        law_vocab_starts_with_bytes(states, pairs, counts, special, tb, vocab_size, r, 256 + k);
    }
}

/// A word that never occurs is cut no coarser than into pairs of bytes.
pub proof fn law_absent_words_stay_fine(
    states: Seq<TrainState>,
    pairs: Seq<Pair>,
    counts: Seq<(Vec<u8>, usize)>,
    special: Seq<String>,
    tb: TieBreaking,
    vocab_size: int,
    i: int,
    w: int,
    j: int,
)
    requires
        is_run(states, pairs, tb, vocab_size),
        is_start(states[0], counts, special),
        vocab_size <= u32::MAX,
        0 <= i < states.len(),
        0 <= w < counts.len(),
        counts[w].1 == 0,
        0 <= j < states[i].words[w].0.len(),
    ensures
        states[i].words[w].0[j] < states[i].symbols.len(),
        states[i].symbols[states[i].words[w].0[j] as int].len() <= 2,
    decreases i,
{
    law_words_keep_their_bytes(states, pairs, counts, special, tb, vocab_size, i, w);
    lemma_run_known(states, pairs, counts, special, tb, vocab_size, i);
    assert(states[i].words[w].0[j] < states[i].symbols.len());
    if i == 0 {
        assert(states[0].words[w].0 == byte_ids(counts[w].0@));
    } else {
        law_words_keep_their_bytes(states, pairs, counts, special, tb, vocab_size, i - 1, w);
        lemma_run_known(states, pairs, counts, special, tb, vocab_size, i - 1);
        lemma_symbols_grow(states, pairs, tb, vocab_size, i - 1);
        let a = states[i - 1];
        let b = states[i];
        let pair = pairs[i - 1];
        assert(goes_on(a, vocab_size));
        assert(states[i - 1 + 1] == b);
        assert(is_step(a, b, pair));
        assert(a.queue.contains_key(pair));
        let new = a.symbols.len() as u32;
        let old_word = a.words[w].0;
        assert(b.words[w] == merged_word(a.words[w], pair, new));
        lemma_merge_members(old_word, pair, new, j);
        if b.words[w].0[j] == new && follows(a.words[w], pair) {
            lemma_first_symbols(states, pairs, special, tb, vocab_size, i - 1, pair.0 as int);
            lemma_first_symbols(states, pairs, special, tb, vocab_size, i - 1, pair.1 as int);
            assert(b.symbols[new as int].len() == 2);
        } else {
            let x = b.words[w].0[j];
            assert(old_word.contains(x));
            let k = choose|k: int| 0 <= k < old_word.len() && old_word[k] == x;
            law_absent_words_stay_fine(
                states,
                pairs,
                counts,
                special,
                tb,
                vocab_size,
                i - 1,
                w,
                k,
            );
            assert(b.symbols[x as int] == a.symbols[x as int]);
        }
    }
}

proof fn lemma_first_symbols(
    states: Seq<TrainState>,
    pairs: Seq<Pair>,
    special: Seq<String>,
    tb: TieBreaking,
    vocab_size: int,
    i: int,
    k: int,
)
    requires
        is_run(states, pairs, tb, vocab_size),
        states[0].symbols == start_symbols(special),
        0 <= i < states.len(),
        0 <= k < 256,
    ensures
        k < states[i].symbols.len(),
        states[i].symbols[k] == seq![k as u8],
    decreases i,
{
    if i > 0 {
        lemma_first_symbols(states, pairs, special, tb, vocab_size, i - 1, k);
        assert(goes_on(states[i - 1], vocab_size));
        assert(states[i - 1 + 1] == states[i]);
        assert(is_step(states[i - 1], states[i], pairs[i - 1]));
    }
}

proof fn lemma_merge_members(s: Seq<u32>, pair: Pair, new: u32, j: int)
    ensures
        0 <= j < merge_pair(s, pair, new).len() ==> merge_pair(s, pair, new)[j] == new
            || s.contains(merge_pair(s, pair, new)[j]),
        0 <= j < s.len() ==> s.contains(s[j]),
    decreases s.len(),
{
    let t = merge_pair(s, pair, new);
    if s.len() >= 2 && 0 <= j < t.len() {
        let merged = s[0] == pair.0 && s[1] == pair.1;
        let n: int = if merged {
            2
        } else {
            1
        };
        let rest = s.skip(n);
        lemma_merge_members(rest, pair, new, j - 1);
        if j > 0 {
            let u = merge_pair(rest, pair, new);
            assert(t[j] == u[j - 1]);
            if rest.contains(u[j - 1]) {
                let k = choose|k: int| 0 <= k < rest.len() && rest[k] == u[j - 1];
                assert(s[k + n] == u[j - 1]);
            }
        } else if !merged {
            assert(s[0] == t[0]);
        }
    } else if 0 <= j < t.len() {
        assert(t == s);
        assert(s[j] == t[j]);
    }
}

} // verus!
