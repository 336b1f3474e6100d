//! The training loop.
use crate::bpe::byte_level::{byte_rank, codepoint_rank};
use crate::bpe::bytes::contents;
use crate::search::copy_bytes;
use crate::sp::cuts::pair_views;
use crate::sp::normalize::append_bytes;
use crate::train::queue::{
    bump, count_in, new_queue, queue_counts, queue_peek, queue_pop, queue_push, same, Pair,
    PairQueue,
};
use crate::train::update::{
    all_occur, follows, index_add, index_grows, indexed, is_recorded, lemma_weight_nonneg, listed,
    lists_words, merged_word, merged_words, update_words, weight, word_indexed, word_views, WordIndex, WordView,
};
use crate::train::words::{
    lemma_merged_symbols, lemma_touched_symbols, occurrences, within, word_touches, Word,
};
use std::collections::HashMap;
use vstd::prelude::*;
use vstd::utf8::encode_utf8;

verus! {

broadcast use vstd::std_specs::hash::group_hash_axioms;

/// How to break ties when several pairs have the same count.
#[derive(Clone, Copy, Debug, PartialEq, Eq, Structural)]
pub enum TieBreaking {
    /// By token IDs, with byte tokens in the order of their characters in the
    /// byte-level alphabet.
    HuggingFace,
    /// By token IDs.
    RawTokenIds,
    /// By the bytes of the tokens.
    AssembledBytes,
}

impl Default for TieBreaking {
    fn default() -> (r: Self)
        ensures
            r == TieBreaking::HuggingFace,
    {
        TieBreaking::HuggingFace
    }
}

/// The outcome of training.
pub struct BPEResult {
    /// Token bytes by ID.
    pub vocab: Vec<Vec<u8>>,
    /// The merges in order, as the bytes of their parts.
    pub merges: Vec<(Vec<u8>, Vec<u8>)>,
}

/// `a` comes before `b` in the order of byte strings.
pub open spec fn lex_less(a: Seq<u8>, b: Seq<u8>) -> bool
    decreases b.len(),
{
    if b.len() == 0 {
        false
    } else if a.len() == 0 {
        true
    } else {
        a[0] < b[0] || (a[0] == b[0] && lex_less(a.skip(1), b.skip(1)))
    }
}

proof fn lemma_lex_trans(a: Seq<u8>, b: Seq<u8>, c: Seq<u8>)
    ensures
        lex_less(a, b) && lex_less(b, c) ==> lex_less(a, c),
        lex_less(a, b) ==> a != b,
    decreases c.len() + b.len(),
{
    if a.len() > 0 && b.len() > 0 {
        if a == b {
            assert(a.skip(1) == b.skip(1));
        }
        if c.len() > 0 {
            lemma_lex_trans(a.skip(1), b.skip(1), c.skip(1));
        } else {
            lemma_lex_trans(a.skip(1), b.skip(1), c);
        }
    }
}

/// Whether `a` comes before `b` in the order of byte strings.
fn bytes_less(a: &[u8], b: &[u8]) -> (r: bool)
    ensures
        r == lex_less(a@, b@),
{
    let mut i: usize = 0;
    proof {
        assert(a@.skip(0) =~= a@);
        assert(b@.skip(0) =~= b@);
    }
    while i < a.len() && i < b.len()
        invariant
            i <= a@.len(),
            i <= b@.len(),
            lex_less(a@, b@) == lex_less(a@.skip(i as int), b@.skip(i as int)),
        decreases a@.len() - i,
    {
        proof {
            assert(a@.skip(i as int).skip(1) =~= a@.skip(i + 1));
            assert(b@.skip(i as int).skip(1) =~= b@.skip(i + 1));
        }
        if a[i] < b[i] {
            return true;
        }
        if a[i] > b[i] {
            return false;
        }
        i += 1;
    }
    i < b.len()
}

/// The ID by which ties are broken.
pub open spec fn tie_rank(id: u32) -> u32 {
    if id < 256 {
        codepoint_rank(id as u8)
    } else {
        id
    }
}

fn rank_of(id: u32) -> (r: u32)
    ensures
        r == tie_rank(id),
{
    if id < 256 {
        byte_rank(id as u8)
    } else {
        id
    }
}

/// `p` comes before `q` under a tie-breaking rule.
pub open spec fn pair_before(tb: TieBreaking, symbols: Seq<Seq<u8>>, p: Pair, q: Pair) -> bool {
    match tb {
        TieBreaking::HuggingFace => tie_rank(p.0) < tie_rank(q.0) || (tie_rank(p.0) == tie_rank(q.0)
            && tie_rank(p.1) < tie_rank(q.1)),
        TieBreaking::RawTokenIds => p.0 < q.0 || (p.0 == q.0 && p.1 < q.1),
        TieBreaking::AssembledBytes => {
            let (a, b) = (symbols[p.0 as int], symbols[q.0 as int]);
            lex_less(a, b) || (a == b && lex_less(symbols[p.1 as int], symbols[q.1 as int]))
        },
    }
}

proof fn lemma_before_trans(tb: TieBreaking, symbols: Seq<Seq<u8>>, p: Pair, q: Pair, r: Pair)
    requires
        pair_before(tb, symbols, p, q),
        pair_before(tb, symbols, q, r),
    ensures
        pair_before(tb, symbols, p, r),
{
    lemma_lex_trans(symbols[p.0 as int], symbols[q.0 as int], symbols[r.0 as int]);
    lemma_lex_trans(symbols[p.1 as int], symbols[q.1 as int], symbols[r.1 as int]);
}

proof fn lemma_before_self(tb: TieBreaking, symbols: Seq<Seq<u8>>, p: Pair)
    ensures
        !pair_before(tb, symbols, p, p),
{
    lemma_lex_trans(symbols[p.0 as int], symbols[p.0 as int], symbols[p.0 as int]);
    lemma_lex_trans(symbols[p.1 as int], symbols[p.1 as int], symbols[p.1 as int]);
}

/// Whether `p` comes before `q` under a tie-breaking rule.
fn is_before(tb: TieBreaking, symbols: &Vec<Vec<u8>>, p: Pair, q: Pair) -> (r: bool)
    requires
        p.0 < symbols@.len(),
        p.1 < symbols@.len(),
        q.0 < symbols@.len(),
        q.1 < symbols@.len(),
    ensures
        r == pair_before(tb, contents(symbols@), p, q),
{
    match tb {
        TieBreaking::HuggingFace => {
            let a: u32 = rank_of(p.0);
            let b: u32 = rank_of(q.0);
            a < b || (a == b && rank_of(p.1) < rank_of(q.1))
        },
        TieBreaking::RawTokenIds => p.0 < q.0 || (p.0 == q.0 && p.1 < q.1),
        TieBreaking::AssembledBytes => {
            let a: &[u8] = symbols[p.0 as usize].as_slice();
            let b: &[u8] = symbols[q.0 as usize].as_slice();
            bytes_less(a, b) || (crate::search::bytes_equal(a, b) && bytes_less(
                symbols[p.1 as usize].as_slice(),
                symbols[q.1 as usize].as_slice(),
            ))
        },
    }
}

/// Where training stands: the words, the pair counts, and the tokens so far.
pub struct TrainState {
    pub words: Seq<WordView>,
    pub queue: Map<Pair, i128>,
    pub symbols: Seq<Seq<u8>>,
}

/// `pair` is one to merge next: no pair has a greater count, and none of the
/// same count comes before it.
pub open spec fn picks(st: TrainState, pair: Pair, tb: TieBreaking) -> bool {
    &&& st.queue.contains_key(pair)
    &&& forall|p: Pair| #[trigger]
        st.queue.contains_key(p) ==> st.queue[p] < st.queue[pair] || (st.queue[p] == st.queue[pair]
            && !pair_before(tb, st.symbols, p, pair))
}

/// `b` is what `a` becomes when `pair` is merged: a new token, the pair merged
/// in all words, and the counts of the other pairs changed accordingly.
pub open spec fn is_step(a: TrainState, b: TrainState, pair: Pair) -> bool {
    let new = a.symbols.len() as u32;
    &&& b.symbols == a.symbols.push(a.symbols[pair.0 as int] + a.symbols[pair.1 as int])
    &&& b.words == merged_words(a.words, pair, new)
    &&& is_recorded(a.queue.remove(pair), b.queue, a.words, pair, new)
}

/// Training can go on: a pair is left, and the vocabulary is not full.
pub open spec fn goes_on(st: TrainState, vocab_size: int) -> bool {
    st.queue.dom() != Set::<Pair>::empty() && st.symbols.len() < vocab_size
}

/// A run of training steps.
pub open spec fn is_run(
    states: Seq<TrainState>,
    pairs: Seq<Pair>,
    tb: TieBreaking,
    vocab_size: int,
) -> bool {
    &&& states.len() == pairs.len() + 1
    &&& forall|i: int|
        0 <= i < pairs.len() ==> goes_on(#[trigger] states[i], vocab_size) && picks(
            states[i],
            pairs[i],
            tb,
        ) && is_step(states[i], states[i + 1], pairs[i])
}

/// Bytes as symbols.
pub open spec fn byte_ids(s: Seq<u8>) -> Seq<u32> {
    s.map_values(|b: u8| b as u32)
}

/// The words to start from.
pub open spec fn start_words(counts: Seq<(Vec<u8>, usize)>) -> Seq<WordView> {
    counts.map_values(|c: (Vec<u8>, usize)| (byte_ids(c.0@), c.1 as int))
}

/// How often `p` stands in all words.
pub open spec fn total_occurrences(words: Seq<WordView>, p: Pair) -> int
    decreases words.len(),
{
    if words.len() == 0 {
        0
    } else {
        total_occurrences(words.drop_last(), p) + words.last().1 * occurrences(words.last().0, p)
    }
}

/// `p` stands in `s`.
pub open spec fn stands_in(s: Seq<u32>, p: Pair) -> bool {
    exists|i: int| 0 <= i < s.len() - 1 && #[trigger] s[i] == p.0 && s[i + 1] == p.1
}

/// `p` stands in some word.
pub open spec fn some_word_holds(words: Seq<WordView>, p: Pair) -> bool {
    exists|w: int| 0 <= w < words.len() && stands_in((#[trigger] words[w]).0, p)
}

/// The counts to start from: each pair that stands in a word, with how often
/// it does.
pub open spec fn counts_pairs(queue: Map<Pair, i128>, words: Seq<WordView>) -> bool {
    forall|p: Pair|
        {
            &&& #[trigger] queue.contains_key(p) == some_word_holds(words, p)
            &&& count_in(queue, p) == total_occurrences(words, p)
        }
}

/// The tokens to start from: the bytes, then the special tokens.
pub open spec fn start_symbols(special: Seq<String>) -> Seq<Seq<u8>> {
    Seq::new(256, |b: int| seq![b as u8]) + special.map_values(|t: String| encode_utf8(t@))
}

/// The state to start from.
pub open spec fn is_start(st: TrainState, counts: Seq<(Vec<u8>, usize)>, special: Seq<String>) -> bool {
    &&& st.words == start_words(counts)
    &&& st.symbols == start_symbols(special)
    &&& counts_pairs(st.queue, st.words)
}

/// The parts of the merges of a run.
pub open spec fn run_merges(states: Seq<TrainState>, pairs: Seq<Pair>) -> Seq<(Seq<u8>, Seq<u8>)> {
    Seq::new(
        pairs.len(),
        |i: int|
            (
                states[i].symbols[pairs[i].0 as int],
                states[i].symbols[pairs[i].1 as int],
            ),
    )
}

/// A run from the given counts that ends when no pair is left or the
/// vocabulary is full, with this outcome.
pub open spec fn is_training(
    states: Seq<TrainState>,
    pairs: Seq<Pair>,
    counts: Seq<(Vec<u8>, usize)>,
    special: Seq<String>,
    tb: TieBreaking,
    vocab_size: int,
    r: BPEResult,
) -> bool {
    &&& is_run(states, pairs, tb, vocab_size)
    &&& is_start(states[0], counts, special)
    &&& !goes_on(states.last(), vocab_size)
    &&& contents(r.vocab@) == states.last().symbols
    &&& pair_views(r.merges@) == run_merges(states, pairs)
}

/// All symbols of the words are below `n`.
pub open spec fn words_known(words: Seq<WordView>, n: int) -> bool {
    forall|w: int, i: int|
        0 <= w < words.len() && 0 <= i < words[w].0.len() ==> #[trigger] words[w].0[i] < n
}

/// All pairs of the queue hold symbols below `n`.
pub open spec fn pairs_known(queue: Map<Pair, i128>, n: int) -> bool {
    forall|p: Pair| #[trigger] queue.contains_key(p) ==> p.0 < n && p.1 < n
}

/// Takes the pair to merge next out of the queue.
fn pick_pair(queue: &mut PairQueue, symbols: &Vec<Vec<u8>>, tb: TieBreaking) -> (pair: Pair)
    requires
        queue_counts(*old(queue)).dom().finite(),
        queue_counts(*old(queue)).dom() != Set::<Pair>::empty(),
        pairs_known(queue_counts(*old(queue)), symbols@.len() as int),
    ensures
        queue_counts(*final(queue)) == queue_counts(*old(queue)).remove(pair),
        queue_counts(*final(queue)).dom().finite(),
        queue_counts(*old(queue)).contains_key(pair),
        forall|p: Pair| #[trigger]
            queue_counts(*old(queue)).contains_key(p) ==> queue_counts(*old(queue))[p]
                < queue_counts(*old(queue))[pair] || (queue_counts(*old(queue))[p] == queue_counts(
                *old(queue),
            )[pair] && !pair_before(tb, contents(symbols@), p, pair)),
{
    let ghost q0 = queue_counts(*queue);
    let ghost n = symbols@.len() as int;
    let (first, top): (Pair, i128) = match queue_pop(queue) {
        Some(x) => x,
        None => ((0, 0), 0),
    };
    let mut tied: Vec<Pair> = Vec::new();
    tied.push(first);
    let mut best: Pair = first;
    let mut more = true;
    proof {
        lemma_before_self(tb, contents(symbols@), first);
        assert(tied@[0] == first);
        assert(tied@.contains(first));
        assert forall|p: Pair| #[trigger] tied@.contains(p) implies p == first by {}
    }
    while more
        invariant
            n == symbols@.len(),
            q0.dom().finite(),
            queue_counts(*queue).dom().finite(),
            pairs_known(q0, n),
            tied@.contains(best),
            forall|p: Pair| #[trigger] q0.contains_key(p) ==> q0[p] <= top,
            forall|p: Pair| #[trigger]
                tied@.contains(p) ==> q0.contains_key(p) && q0[p] == top && !pair_before(
                    tb,
                    contents(symbols@),
                    p,
                    best,
                ),
            forall|p: Pair| #[trigger]
                queue_counts(*queue).contains_key(p) == (q0.contains_key(p) && !tied@.contains(p)),
            forall|p: Pair| #[trigger]
                queue_counts(*queue).contains_key(p) ==> queue_counts(*queue)[p] == q0[p],
            !more ==> forall|p: Pair| #[trigger] queue_counts(*queue).contains_key(p) ==> q0[p] < top,
        decreases queue_counts(*queue).dom().len(), if more { 1int } else { 0int },
    {
        let next = match queue_peek(queue) {
            Some((_, count)) => count == top,
            None => false,
        };
        if next {
            let ghost q1 = queue_counts(*queue);
            let ghost t1 = tied@;
            let (p, _): (Pair, i128) = match queue_pop(queue) {
                Some(x) => x,
                None => ((0, 0), 0),
            };
            proof {
                assert(q1.contains_key(p));
                assert(q0.contains_key(p) && q0.contains_key(best)) by {
                    assert(t1.contains(best));
                }
            }
            let ghost best1 = best;
            if is_before(tb, symbols, p, best) {
                best = p;
            }
            tied.push(p);
            proof {
                assert(tied@[t1.len() as int] == p);
                assert forall|x: Pair| #[trigger] tied@.contains(x) == (t1.contains(x) || x == p) by {
                    if t1.contains(x) {
                        let i = choose|i: int| 0 <= i < t1.len() && t1[i] == x;
                        assert(tied@[i] == x);
                    }
                    if tied@.contains(x) {
                        let i = choose|i: int| 0 <= i < tied@.len() && tied@[i] == x;
                        if i < t1.len() {
                            assert(t1[i] == x);
                        }
                    }
                }
                assert forall|x: Pair| #[trigger] tied@.contains(x) implies q0.contains_key(x)
                    && q0[x] == top && !pair_before(tb, contents(symbols@), x, best) by {
                    if t1.contains(x) {
                        if best != best1 && pair_before(tb, contents(symbols@), x, best) {
                            lemma_before_trans(tb, contents(symbols@), x, best, best1);
                        }
                    }
                    lemma_before_self(tb, contents(symbols@), p);
                }
            }
        } else {
            more = false;
            proof {
                assert forall|p: Pair| #[trigger] queue_counts(*queue).contains_key(p) implies q0[p]
                    < top by {
                    assert(q0[p] <= top);
                }
            }
        }
    }
    let mut i: usize = 0;
    proof {
        assert(tied@.take(0) =~= Seq::<Pair>::empty());
        assert(q0[best] == top);
        assert forall|p: Pair| #[trigger] q0.contains_key(p) implies q0[p] < q0[best] || (q0[p]
            == q0[best] && !pair_before(tb, contents(symbols@), p, best)) by {
            if !tied@.contains(p) {
                assert(queue_counts(*queue).contains_key(p));
            }
        }
    }
    while i < tied.len()
        invariant
            i <= tied@.len(),
            queue_counts(*queue).dom().finite(),
            forall|p: Pair| #[trigger] tied@.contains(p) ==> q0.contains_key(p) && q0[p] == top,
            forall|p: Pair| #[trigger]
                queue_counts(*queue).contains_key(p) == (q0.contains_key(p) && (!tied@.contains(p)
                    || (tied@.take(i as int).contains(p) && p != best))),
            forall|p: Pair| #[trigger]
                queue_counts(*queue).contains_key(p) ==> queue_counts(*queue)[p] == q0[p],
        decreases tied@.len() - i,
    {
        let p: Pair = tied[i];
        let ghost q1 = queue_counts(*queue);
        proof {
            assert(tied@.contains(p));
            let a = tied@.take(i as int);
            let b = tied@.take(i + 1);
            assert(b =~= a.push(p));
            assert forall|x: Pair| #[trigger] b.contains(x) == (a.contains(x) || x == p) by {
                assert(b[i as int] == p);
                if a.contains(x) {
                    let j = choose|j: int| 0 <= j < a.len() && a[j] == x;
                    assert(b[j] == x);
                }
                if b.contains(x) {
                    let j = choose|j: int| 0 <= j < b.len() && b[j] == x;
                    if j < i {
                        assert(a[j] == x);
                    }
                }
            }
        }
        if p.0 != best.0 || p.1 != best.1 {
            queue_push(queue, p, top);
        }
        i += 1;
    }
    proof {
        assert(tied@.take(i as int) =~= tied@);
        let q1 = queue_counts(*queue);
        assert forall|p: Pair| #[trigger] q1.contains_key(p) == q0.remove(best).contains_key(p) by {}
        assert(q1 =~= q0.remove(best));
        assert(tied@.contains(best));
    }
    best
}

proof fn lemma_stands_step(s: Seq<u32>, p: Pair)
    requires
        s.len() >= 2,
    ensures
        stands_in(s, p) == (p == (s[0], s[1]) || stands_in(s.skip(1), p)),
{
    let t = s.skip(1);
    if stands_in(t, p) {
        let i = choose|i: int| 0 <= i < t.len() - 1 && #[trigger] t[i] == p.0 && t[i + 1] == p.1;
        assert(s[i + 1] == p.0 && s[i + 1 + 1] == p.1);
    }
    if p == (s[0], s[1]) {
        assert(s[0] == p.0 && s[0int + 1] == p.1);
    }
    if stands_in(s, p) {
        let i = choose|i: int| 0 <= i < s.len() - 1 && #[trigger] s[i] == p.0 && s[i + 1] == p.1;
        if i > 0 {
            assert(t[i - 1] == p.0 && t[i - 1 + 1] == p.1);
        }
    }
}

/// Counts the pairs of a word that occurs `count` times.
fn count_word(queue: &mut PairQueue, symbols: &Vec<u32>, count: usize, bound: Ghost<int>)
    requires
        within(queue_counts(*old(queue)), bound@),
        0 <= bound@,
        bound@ + count * symbols@.len() <= i128::MAX,
    ensures
        queue_counts(*old(queue)).dom().finite() ==> queue_counts(*final(queue)).dom().finite(),
        within(queue_counts(*final(queue)), bound@ + count * symbols@.len()),
        forall|p: Pair|
            {
                &&& #[trigger] queue_counts(*final(queue)).contains_key(p) == (queue_counts(
                    *old(queue),
                ).contains_key(p) || stands_in(symbols@, p))
                &&& count_in(queue_counts(*final(queue)), p) == count_in(
                    queue_counts(*old(queue)),
                    p,
                ) + count * occurrences(symbols@, p)
            },
{
    let ghost s = symbols@;
    let ghost c = count as int;
    let ghost q0 = queue_counts(*queue);
    let mut j: usize = 0;
    let n: usize = symbols.len();
    proof {
        assert(s.skip(0) =~= s);
        assert(c * 0 == 0) by (nonlinear_arith);
    }
    while n - j >= 2
        invariant
            j <= n,
            n == s.len(),
            s == symbols@,
            c == count,
            0 <= bound@,
            bound@ + c * s.len() <= i128::MAX,
            within(queue_counts(*queue), bound@ + c * j),
            q0.dom().finite() ==> queue_counts(*queue).dom().finite(),
            forall|p: Pair|
                {
                    &&& (#[trigger] queue_counts(*queue).contains_key(p) || stands_in(
                        s.skip(j as int),
                        p,
                    )) == (q0.contains_key(p) || stands_in(s, p))
                    &&& count_in(queue_counts(*queue), p) == count_in(q0, p) + c * (occurrences(
                        s,
                        p,
                    ) - occurrences(s.skip(j as int), p))
                },
        decreases n - j,
    {
        let ghost rest = s.skip(j as int);
        let ghost q1 = queue_counts(*queue);
        let x: Pair = (symbols[j], symbols[j + 1]);
        proof {
            assert(0 <= c * j && c * j + c == c * (j + 1) && c * (j + 1) <= c * s.len())
                by (nonlinear_arith)
                requires
                    0 <= c,
                    0 <= j,
                    j + 1 <= s.len(),
            ;
            assert(q1.contains_key(x) || !q1.contains_key(x));
        }
        bump(queue, x, count as i128);
        j += 1;
        proof {
            let q2 = queue_counts(*queue);
            assert(rest.skip(1) =~= s.skip(j as int));
            assert(rest[0] == x.0 && rest[1] == x.1);
            assert forall|p: Pair|
                {
                    &&& (#[trigger] q2.contains_key(p) || stands_in(s.skip(j as int), p)) == (
                    q0.contains_key(p) || stands_in(s, p))
                    &&& count_in(q2, p) == count_in(q0, p) + c * (occurrences(s, p) - occurrences(
                        s.skip(j as int),
                        p,
                    ))
                } by {
                assert(q1.contains_key(p) || !q1.contains_key(p));
                lemma_stands_step(rest, p);
                let all = occurrences(s, p);
                let was = occurrences(rest, p);
                let now = occurrences(s.skip(j as int), p);
                let one = same(p, x);
                assert(was == one + now);
                assert(c * (all - was) + c * one == c * (all - now)) by (nonlinear_arith)
                    requires
                        was == one + now,
                ;
            }
            assert forall|p: Pair| #[trigger] q2.contains_key(p) implies -(bound@ + c * j) <= q2[p]
                <= bound@ + c * j by {
                assert(q1.contains_key(p) || !q1.contains_key(p));
                assert(count_in(q2, p) == count_in(q1, p) + c * same(p, x));
                assert(c * 1 == c && c * 0 == 0) by (nonlinear_arith);
            }
        }
    }
    proof {
        let rest = s.skip(j as int);
        assert(c * j <= c * s.len()) by (nonlinear_arith)
            requires
                0 <= c,
                j <= s.len(),
        ;
        assert forall|p: Pair|
            {
                &&& #[trigger] queue_counts(*queue).contains_key(p) == (q0.contains_key(p)
                    || stands_in(s, p))
                &&& count_in(queue_counts(*queue), p) == count_in(q0, p) + c * occurrences(s, p)
            } by {
            assert(!stands_in(rest, p));
            assert(occurrences(rest, p) == 0);
        }
    }
}

/// Lists word `w` for each pair that it holds.
fn index_pairs(index: &mut WordIndex, w: usize, symbols: &Vec<u32>, n: Ghost<nat>)
    requires
        lists_words(old(index)@, n@),
        w < n@,
    ensures
        lists_words(final(index)@, n@),
        index_grows(old(index)@, final(index)@),
        word_indexed(final(index)@, symbols@, w as int),
{
    let ghost before = index@;
    let mut i: usize = 0;
    while symbols.len() - i >= 2
        invariant
            i <= symbols@.len(),
            w < n@,
            lists_words(index@, n@),
            index_grows(before, index@),
            forall|j: int|
                0 <= j < i ==> listed(index@, (#[trigger] symbols@[j], symbols@[j + 1]), w as int),
        decreases symbols@.len() - i,
    {
        let ghost now = index@;
        let p: Pair = (symbols[i], symbols[i + 1]);
        index_add(index, p, w, n);
        proof {
            assert forall|q: Pair, x: int| #[trigger] listed(before, q, x) implies listed(
                index@,
                q,
                x,
            ) by {
                assert(listed(now, q, x));
            }
            assert forall|j: int| 0 <= j < i + 1 implies listed(
                index@,
                (#[trigger] symbols@[j], symbols@[j + 1]),
                w as int,
            ) by {
                if j < i {
                    assert(listed(now, (symbols@[j], symbols@[j + 1]), w as int));
                }
            }
        }
        i += 1;
    }
}

proof fn lemma_indexed_push(
    a: Map<u64, Vec<usize>>,
    b: Map<u64, Vec<usize>>,
    words: Seq<WordView>,
    x: WordView,
)
    requires
        indexed(a, words),
        index_grows(a, b),
        lists_words(b, words.len() + 1),
        word_indexed(b, x.0, words.len() as int),
    ensures
        indexed(b, words.push(x)),
{
    let all = words.push(x);
    assert forall|w: int| 0 <= w < all.len() implies word_indexed(
        b,
        (#[trigger] all[w]).0,
        w,
    ) by {
        if w < words.len() {
            assert(word_indexed(a, words[w].0, w));
            let s = words[w].0;
            assert(all[w] == words[w]);
            assert forall|i: int| 0 <= i < s.len() - 1 implies listed(
                b,
                (#[trigger] s[i], s[i + 1]),
                w,
            ) by {
                assert(listed(a, (s[i], s[i + 1]), w));
            }
        }
    }
}

proof fn lemma_counts_push(a: Map<Pair, i128>, b: Map<Pair, i128>, words: Seq<WordView>, x: WordView)
    requires
        counts_pairs(a, words),
        forall|p: Pair|
            {
                &&& #[trigger] b.contains_key(p) == (a.contains_key(p) || stands_in(x.0, p))
                &&& count_in(b, p) == count_in(a, p) + x.1 * occurrences(x.0, p)
            },
    ensures
        counts_pairs(b, words.push(x)),
{
    let all = words.push(x);
    assert(all.drop_last() =~= words);
    assert forall|p: Pair|
        {
            &&& #[trigger] b.contains_key(p) == some_word_holds(all, p)
            &&& count_in(b, p) == total_occurrences(all, p)
        } by {
        assert(a.contains_key(p) == some_word_holds(words, p));
        if some_word_holds(words, p) {
            let w = choose|w: int| 0 <= w < words.len() && stands_in((#[trigger] words[w]).0, p);
            assert(stands_in(all[w].0, p));
        }
        if stands_in(x.0, p) {
            assert(stands_in(all[words.len() as int].0, p));
        }
        if some_word_holds(all, p) {
            let w = choose|w: int| 0 <= w < all.len() && stands_in((#[trigger] all[w]).0, p);
            if w < words.len() {
                assert(stands_in(words[w].0, p));
            }
        }
    }
}

/// The bytes of a word as symbols.
fn byte_word(bytes: &Vec<u8>) -> (r: Vec<u32>)
    ensures
        r@ == byte_ids(bytes@),
{
    let mut r: Vec<u32> = Vec::new();
    let mut i: usize = 0;
    while i < bytes.len()
        invariant
            i <= bytes@.len(),
            r@ == byte_ids(bytes@.take(i as int)),
        decreases bytes@.len() - i,
    {
        r.push(bytes[i] as u32);
        proof {
            assert(r@ =~= byte_ids(bytes@.take(i + 1)));
        }
        i += 1;
    }
    proof {
        assert(bytes@.take(i as int) =~= bytes@);
    }
    r
}

proof fn lemma_weight_prefix(words: Seq<WordView>, i: int)
    requires
        0 <= i <= words.len(),
        all_occur(words),
    ensures
        0 <= weight(words.take(i)) <= weight(words),
    decreases words.len() - i,
{
    let t = words.take(i);
    assert forall|w: int| 0 <= w < t.len() implies (#[trigger] t[w]).1 >= 0 by {
        assert(words[w].1 >= 0);
    }
    lemma_weight_nonneg(t);
    if i < words.len() {
        lemma_weight_prefix(words, i + 1);
        assert(words.take(i + 1).drop_last() =~= t);
        let x = words[i];
        assert(0 <= x.1 * x.0.len()) by (nonlinear_arith)
            requires
                x.1 >= 0,
        ;
    } else {
        assert(t =~= words);
    }
}

/// The words, the index and the pair counts to start from.
fn start_training(counts: &Vec<(Vec<u8>, usize)>) -> (r: (Vec<Word>, WordIndex, PairQueue))
    requires
        weight(start_words(counts@)) <= i128::MAX,
    ensures
        word_views(r.0@) == start_words(counts@),
        indexed(r.1@, start_words(counts@)),
        counts_pairs(queue_counts(r.2), start_words(counts@)),
        queue_counts(r.2).dom().finite(),
        within(queue_counts(r.2), weight(start_words(counts@))),
{
    let ghost all = start_words(counts@);
    let mut words: Vec<Word> = Vec::new();
    let mut index: WordIndex = HashMap::new();
    let mut queue = new_queue();
    let mut i: usize = 0;
    proof {
        assert(all.take(0) =~= Seq::<WordView>::empty());
        assert(word_views(words@) =~= all.take(0));
        assert(all_occur(all)) by {
            assert forall|w: int| 0 <= w < all.len() implies (#[trigger] all[w]).1 >= 0 by {
                assert(all[w].1 == counts@[w].1 as int);
            }
        }
        assert(queue_counts(queue).dom().finite());
        assert forall|p: Pair|
            {
                &&& #[trigger] queue_counts(queue).contains_key(p) == some_word_holds(all.take(0), p)
                &&& count_in(queue_counts(queue), p) == total_occurrences(all.take(0), p)
            } by {}
    }
    while i < counts.len()
        invariant
            i <= counts@.len(),
            all == start_words(counts@),
            all.len() == counts@.len(),
            all_occur(all),
            weight(all) <= i128::MAX,
            word_views(words@) == all.take(i as int),
            words@.len() == i,
            indexed(index@, all.take(i as int)),
            counts_pairs(queue_counts(queue), all.take(i as int)),
            queue_counts(queue).dom().finite(),
            within(queue_counts(queue), weight(all.take(i as int))),
        decreases counts@.len() - i,
    {
        let ghost x = all[i as int];
        let ghost bound = weight(all.take(i as int));
        let ghost q1 = queue_counts(queue);
        let ghost index1 = index@;
        let symbols: Vec<u32> = byte_word(&counts[i].0);
        let count: usize = counts[i].1;
        proof {
            lemma_weight_prefix(all, i as int);
            lemma_weight_prefix(all, i + 1);
            assert(all.take(i + 1).drop_last() =~= all.take(i as int));
            assert(all.take(i + 1) =~= all.take(i as int).push(x));
            assert(x == (symbols@, count as int));
            assert(lists_words(index@, i as nat));
            assert(lists_words(index@, (i + 1) as nat)) by {
                assert forall|k: u64, j: int|
                    index@.contains_key(k) && 0 <= j < index@[k]@.len() implies #[trigger] index@[k]@[j]
                    < i + 1 by {
                    assert(index@[k]@[j] < i);
                }
            }
        }
        count_word(&mut queue, &symbols, count, Ghost(bound));
        index_pairs(&mut index, i, &symbols, Ghost((i + 1) as nat));
        proof {
            lemma_indexed_push(index1, index@, all.take(i as int), x);
            lemma_counts_push(q1, queue_counts(queue), all.take(i as int), x);
        }
        let ghost before = words@;
        words.push(Word { symbols, word_count: count });
        proof {
            assert(word_views(words@) =~= word_views(before).push(x));
        }
        i += 1;
    }
    proof {
        assert(all.take(i as int) =~= all);
    }
    (words, index, queue)
}

/// The tokens to start from.
fn start_vocab(special_tokens: &Vec<String>) -> (r: Vec<Vec<u8>>)
    ensures
        contents(r@) == start_symbols(special_tokens@),
        r@.len() == 256 + special_tokens@.len(),
{
    let mut r: Vec<Vec<u8>> = Vec::new();
    let mut b: u16 = 0;
    while b < 256
        invariant
            b <= 256,
            r@.len() == b,
            forall|i: int| 0 <= i < b ==> (#[trigger] r@[i])@ == seq![i as u8],
        decreases 256 - b,
    {
        let mut one: Vec<u8> = Vec::new();
        one.push(b as u8);
        proof {
            assert(one@ =~= seq![b as u8]);
        }
        r.push(one);
        b += 1;
    }
    let mut i: usize = 0;
    while i < special_tokens.len()
        invariant
            i <= special_tokens@.len(),
            r@.len() == 256 + i,
            forall|j: int| 0 <= j < 256 ==> (#[trigger] r@[j])@ == seq![j as u8],
            forall|j: int|
                256 <= j < 256 + i ==> (#[trigger] r@[j])@ == encode_utf8(special_tokens@[j - 256]@),
        decreases special_tokens@.len() - i,
    {
        r.push(copy_bytes(special_tokens[i].as_str().as_bytes()));
        i += 1;
    }
    proof {
        assert(contents(r@) =~= start_symbols(special_tokens@));
    }
    r
}

pub proof fn lemma_start_known(words: Seq<WordView>, counts: Seq<(Vec<u8>, usize)>, queue: Map<Pair, i128>)
    requires
        words == start_words(counts),
        counts_pairs(queue, words),
    ensures
        words_known(words, 256),
        pairs_known(queue, 256),
{
    assert forall|w: int, i: int| 0 <= w < words.len() && 0 <= i < words[w].0.len() implies #[trigger] words[w].0[i]
        < 256 by {
        assert(words[w].0[i] == counts[w].0@[i] as u32);
    }
    assert forall|p: Pair| #[trigger] queue.contains_key(p) implies p.0 < 256 && p.1 < 256 by {
        assert(some_word_holds(words, p));
        let w = choose|w: int| 0 <= w < words.len() && stands_in((#[trigger] words[w]).0, p);
        let s = words[w].0;
        let i = choose|i: int| 0 <= i < s.len() - 1 && #[trigger] s[i] == p.0 && s[i + 1] == p.1;
        assert(words[w].0[i] < 256);
        assert(words[w].0[i + 1] < 256);
    }
}

/// After a step all symbols are still known.
pub proof fn lemma_step_known(
    words: Seq<WordView>,
    a: Map<Pair, i128>,
    b: Map<Pair, i128>,
    pair: Pair,
    n: u32,
)
    requires
        words_known(words, n as int),
        pairs_known(a, n as int),
        pair.0 < n,
        pair.1 < n,
        is_recorded(a, b, words, pair, n),
    ensures
        words_known(merged_words(words, pair, n), n + 1),
        pairs_known(b, n + 1),
{
    let m = merged_words(words, pair, n);
    assert forall|w: int, i: int| 0 <= w < m.len() && 0 <= i < m[w].0.len() implies #[trigger] m[w].0[i]
        < n + 1 by {
        lemma_merged_symbols(words[w].0, pair, n);
        assert(m[w] == merged_word(words[w], pair, n));
        assert(m[w].0.contains(m[w].0[i]));
        if !follows(words[w], pair) {
            assert(words[w].0[i] < n);
        } else if m[w].0[i] != n {
            let j = choose|j: int| 0 <= j < words[w].0.len() && words[w].0[j] == m[w].0[i];
            assert(words[w].0[j] < n);
        }
    }
    assert forall|p: Pair| #[trigger] b.contains_key(p) implies p.0 < n + 1 && p.1 < n + 1 by {
        if !a.contains_key(p) {
            let w = choose|w: int|
                0 <= w < words.len() && follows(#[trigger] words[w], pair) && word_touches(
                    None,
                    words[w].0,
                    pair,
                    n,
                    p,
                );
            let s = words[w].0;
            assert forall|i: int| 0 <= i < s.len() implies #[trigger] s[i] < n by {
                assert(words[w].0[i] < n);
            }
            lemma_touched_symbols(None, s, pair, n, p, n);
        }
    }
}

proof fn lemma_run_push(
    states: Seq<TrainState>,
    pairs: Seq<Pair>,
    tb: TieBreaking,
    vocab_size: int,
    next: TrainState,
    pair: Pair,
)
    requires
        is_run(states, pairs, tb, vocab_size),
        goes_on(states.last(), vocab_size),
        picks(states.last(), pair, tb),
        is_step(states.last(), next, pair),
    ensures
        is_run(states.push(next), pairs.push(pair), tb, vocab_size),
        run_merges(states.push(next), pairs.push(pair)) == run_merges(states, pairs).push(
            (
                states.last().symbols[pair.0 as int],
                states.last().symbols[pair.1 as int],
            ),
        ),
{
    let states2 = states.push(next);
    let pairs2 = pairs.push(pair);
    assert forall|i: int| 0 <= i < pairs2.len() implies goes_on(#[trigger] states2[i], vocab_size)
        && picks(states2[i], pairs2[i], tb) && is_step(states2[i], states2[i + 1], pairs2[i]) by {
        assert(states2[i] == states[i]);
        if i < pairs.len() {
            assert(goes_on(states[i], vocab_size));
            assert(states2[i + 1] == states[i + 1]);
        }
    }
    assert(run_merges(states2, pairs2) =~= run_merges(states, pairs).push(
        (states.last().symbols[pair.0 as int], states.last().symbols[pair.1 as int]),
    ));
}

/// Trains merges from how often each word occurs, until the vocabulary has
/// `vocab_size` tokens or no pair is left. The tokens are the 256 bytes, the
/// special tokens, then one for each merge. Each step merges a pair with the
/// greatest count.
#[verifier::spinoff_prover]
#[verifier::rlimit(40)]
pub fn train_bpe(
    counts: &Vec<(Vec<u8>, usize)>,
    vocab_size: usize,
    special_tokens: &Vec<String>,
    tie_breaking: TieBreaking,
) -> (r: BPEResult)
    requires
        weight(start_words(counts@)) <= isize::MAX,
        vocab_size <= u32::MAX,
    ensures
        exists|states: Seq<TrainState>, pairs: Seq<Pair>| #[trigger]
            is_training(
                states,
                pairs,
                counts@,
                special_tokens@,
                tie_breaking,
                vocab_size as int,
                r,
            ),
{
    let (mut words, mut index, mut queue) = start_training(counts);
    let mut symbols: Vec<Vec<u8>> = start_vocab(special_tokens);
    let mut merges: Vec<(Vec<u8>, Vec<u8>)> = Vec::new();
    let ghost start = weight(start_words(counts@));
    let ghost first = TrainState {
        words: word_views(words@),
        queue: queue_counts(queue),
        symbols: contents(symbols@),
    };
    let ghost mut states: Seq<TrainState> = seq![first];
    let ghost mut pairs: Seq<Pair> = Seq::empty();
    let mut more = true;
    proof {
        lemma_start_known(first.words, counts@, first.queue);
        assert(all_occur(first.words)) by {
            assert forall|w: int| 0 <= w < first.words.len() implies (#[trigger] first.words[w]).1
                >= 0 by {
                assert(first.words[w].1 == counts@[w].1 as int);
            }
        }
        lemma_weight_nonneg(first.words);
        assert(pair_views(merges@) =~= run_merges(states, pairs));
        assert(first.symbols.len() == symbols@.len());
    }
    while more
        invariant
            is_run(states, pairs, tie_breaking, vocab_size as int),
            is_start(states[0], counts@, special_tokens@),
            states.last() == (TrainState {
                words: word_views(words@),
                queue: queue_counts(queue),
                symbols: contents(symbols@),
            }),
            pair_views(merges@) == run_merges(states, pairs),
            !more ==> !goes_on(states.last(), vocab_size as int),
            indexed(index@, word_views(words@)),
            words_known(word_views(words@), symbols@.len() as int),
            pairs_known(queue_counts(queue), symbols@.len() as int),
            queue_counts(queue).dom().finite(),
            0 <= start <= isize::MAX,
            weight(word_views(words@)) <= start,
            within(queue_counts(queue), 5 * start - 4 * weight(word_views(words@))),
            vocab_size <= u32::MAX,
        decreases
                if !more {
                    0
                } else if symbols@.len() < vocab_size {
                    vocab_size - symbols@.len() + 1
                } else {
                    1
                },
    {
        if symbols.len() >= vocab_size || queue_peek(&queue).is_none() {
            more = false;
        } else {
            let ghost st = states.last();
            let ghost n = symbols@.len() as u32;
            proof {
                assert(st.queue.dom() != Set::<Pair>::empty()) by {
                    let x = choose|x: Pair| st.queue.contains_key(x);
                    assert(st.queue.dom().contains(x));
                }
            }
            let pair: Pair = pick_pair(&mut queue, &symbols, tie_breaking);
            let left: Vec<u8> = copy_bytes(symbols[pair.0 as usize].as_slice());
            let right: Vec<u8> = copy_bytes(symbols[pair.1 as usize].as_slice());
            let mut merged: Vec<u8> = copy_bytes(left.as_slice());
            append_bytes(&mut merged, right.as_slice());
            let new: u32 = symbols.len() as u32;
            let ghost sym = symbols@;
            let ghost mer = merges@;
            symbols.push(merged);
            merges.push((left, right));
            let ghost popped = queue_counts(queue);
            proof {
                assert(pairs_known(popped, n as int)) by {
                    assert forall|p: Pair| #[trigger] popped.contains_key(p) implies p.0 < n && p.1
                        < n by {
                        assert(st.queue.contains_key(p));
                    }
                }
                assert(within(popped, 5 * start - 4 * weight(st.words))) by {
                    assert forall|p: Pair| #[trigger] popped.contains_key(p) implies -(5 * start - 4
                        * weight(st.words)) <= popped[p] <= 5 * start - 4 * weight(st.words) by {
                        assert(st.queue.contains_key(p));
                    }
                }
            }
            update_words(&mut words, &mut index, pair, new, &mut queue, Ghost(start));
            proof {
                let next = TrainState {
                    words: word_views(words@),
                    queue: queue_counts(queue),
                    symbols: contents(symbols@),
                };
                lemma_step_known(st.words, popped, next.queue, pair, n);
                assert(next.symbols =~= st.symbols.push(
                    st.symbols[pair.0 as int] + st.symbols[pair.1 as int],
                ));
                assert(is_step(st, next, pair));
                assert(st.symbols[pair.0 as int] == sym[pair.0 as int]@);
                assert(st.symbols[pair.1 as int] == sym[pair.1 as int]@);
                lemma_run_push(states, pairs, tie_breaking, vocab_size as int, next, pair);
                assert(pair_views(merges@) =~= pair_views(mer).push(
                    (st.symbols[pair.0 as int], st.symbols[pair.1 as int]),
                ));
                states = states.push(next);
                pairs = pairs.push(pair);
            }
        }
    }
    let r = BPEResult { vocab: symbols, merges };
    proof {
        assert(is_training(
            states,
            pairs,
            counts@,
            special_tokens@,
            tie_breaking,
            vocab_size as int,
            r,
        ));
    }
    r
}

} // verus!
