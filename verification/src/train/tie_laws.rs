//! Which of several pairs is merged.
use crate::bpe::byte_level::{byte_codepoint, law_rank_is_codepoint_order};
use crate::train::queue::Pair;
use crate::train::run::{goes_on, is_run, lex_less, tie_rank, TieBreaking, TrainState};
use vstd::prelude::*;

verus! {

/// Token `x` comes before token `y` in the vocabulary that HuggingFace's trainer
/// starts from: bytes in the order of the characters that stand for them, then
/// the other tokens by their IDs.
pub open spec fn listed_before(x: u32, y: u32) -> bool {
    if x < 256 && y < 256 {
        byte_codepoint(x as u8) < byte_codepoint(y as u8)
    } else if x < 256 {
        true
    } else if y < 256 {
        false
    } else {
        x < y
    }
}

proof fn lemma_tie_rank(x: u32, y: u32)
    ensures
        tie_rank(x) < tie_rank(y) <==> listed_before(x, y),
        tie_rank(x) == tie_rank(y) <==> x == y,
{
    law_rank_is_codepoint_order(x as u8, y as u8);
    law_rank_is_codepoint_order(y as u8, x as u8);
}

/// The pair that is merged occurs most often.
pub proof fn law_merged_pair_is_most_frequent(
    states: Seq<TrainState>,
    pairs: Seq<Pair>,
    tb: TieBreaking,
    vocab_size: int,
    i: int,
    q: Pair,
)
    requires
        is_run(states, pairs, tb, vocab_size),
        0 <= i < pairs.len(),
        states[i].queue.contains_key(q),
    ensures
        states[i].queue.contains_key(pairs[i]),
        states[i].queue[q] <= states[i].queue[pairs[i]],
{
    assert(goes_on(states[i], vocab_size));
}

/// Of the pairs that occur most often, the one is merged whose first token, and
/// then whose second, comes first in HuggingFace's vocabulary.
pub proof fn law_huggingface_takes_the_first(
    states: Seq<TrainState>,
    pairs: Seq<Pair>,
    vocab_size: int,
    i: int,
    q: Pair,
)
    requires
        is_run(states, pairs, TieBreaking::HuggingFace, vocab_size),
        0 <= i < pairs.len(),
        states[i].queue.contains_key(q),
        states[i].queue[q] == states[i].queue[pairs[i]],
        q != pairs[i],
    ensures
        listed_before(pairs[i].0, q.0) || (pairs[i].0 == q.0 && listed_before(pairs[i].1, q.1)),
{
    assert(goes_on(states[i], vocab_size));
    lemma_tie_rank(pairs[i].0, q.0);
    lemma_tie_rank(q.0, pairs[i].0);
    lemma_tie_rank(pairs[i].1, q.1);
    lemma_tie_rank(q.1, pairs[i].1);
}

/// Where ties go by token IDs, the pair is merged whose first ID is least, and
/// then whose second is.
pub proof fn law_raw_ids_take_the_least(
    states: Seq<TrainState>,
    pairs: Seq<Pair>,
    vocab_size: int,
    i: int,
    q: Pair,
)
    requires
        is_run(states, pairs, TieBreaking::RawTokenIds, vocab_size),
        0 <= i < pairs.len(),
        states[i].queue.contains_key(q),
        states[i].queue[q] == states[i].queue[pairs[i]],
        q != pairs[i],
    ensures
        pairs[i].0 < q.0 || (pairs[i].0 == q.0 && pairs[i].1 < q.1),
{
    assert(goes_on(states[i], vocab_size));
}

/// `a` is `b`, or stands before it in a dictionary: it is a shorter beginning of
/// it, or the first byte in which they differ is less.
pub open spec fn up_to(a: Seq<u8>, b: Seq<u8>) -> bool {
    ||| a.len() <= b.len() && b.take(a.len() as int) == a
    ||| exists|k: int|
        0 <= k < a.len() && k < b.len() && a.take(k) == b.take(k) && #[trigger] a[k] < b[k]
}

proof fn lemma_lex_is_dictionary(a: Seq<u8>, b: Seq<u8>)
    ensures
        !lex_less(b, a) ==> up_to(a, b),
    decreases a.len(),
{
    if !lex_less(b, a) {
        if a.len() == 0 {
            assert(b.take(0) =~= a);
        } else if b.len() == 0 {
            assert(lex_less(b, a));
        } else if a[0] < b[0] {
            assert(a.take(0) =~= b.take(0));
        } else {
            assert(a[0] == b[0]);
            let (x, y) = (a.skip(1), b.skip(1));
            lemma_lex_is_dictionary(x, y);
            if x.len() <= y.len() && y.take(x.len() as int) == x {
                assert(b.take(a.len() as int) =~= a) by {
                    assert forall|j: int| 0 <= j < a.len() implies b[j] == a[j] by {
                        if j > 0 {
                            assert(y.take(x.len() as int)[j - 1] == x[j - 1]);
                        }
                    }
                }
            } else {
                let k = choose|k: int|
                    0 <= k < x.len() && k < y.len() && x.take(k) == y.take(k) && #[trigger] x[k]
                        < y[k];
                assert(a[k + 1] < b[k + 1]);
                assert(a.take(k + 1) =~= b.take(k + 1)) by {
                    assert forall|j: int| 0 <= j < k + 1 implies a[j] == b[j] by {
                        if j > 0 {
                            assert(x.take(k)[j - 1] == y.take(k)[j - 1]);
                        }
                    }
                }
            }
        }
    }
}

/// Where ties go by the bytes of the tokens, the pair is merged whose first
/// token stands first in a dictionary, and then whose second does.
pub proof fn law_assembled_bytes_take_the_first(
    states: Seq<TrainState>,
    pairs: Seq<Pair>,
    vocab_size: int,
    i: int,
    q: Pair,
)
    requires
        is_run(states, pairs, TieBreaking::AssembledBytes, vocab_size),
        0 <= i < pairs.len(),
        states[i].queue.contains_key(q),
        states[i].queue[q] == states[i].queue[pairs[i]],
    ensures
        ({
            let symbols = states[i].symbols;
            let (a, c) = (symbols[pairs[i].0 as int], symbols[q.0 as int]);
            let (b, d) = (symbols[pairs[i].1 as int], symbols[q.1 as int]);
            up_to(a, c) && (a == c ==> up_to(b, d))
        }),
{
    assert(goes_on(states[i], vocab_size));
    let symbols = states[i].symbols;
    lemma_lex_is_dictionary(symbols[pairs[i].0 as int], symbols[q.0 as int]);
    lemma_lex_is_dictionary(symbols[pairs[i].1 as int], symbols[q.1 as int]);
}

} // verus!
