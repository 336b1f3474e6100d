//! Merging a pair in every word that holds it.
use crate::bpe::merge::{lemma_merge_key, merge_key, ranked_merge_key};
use crate::token::TokenId;
use crate::train::queue::{count_in, queue_counts, Pair, PairQueue};
use crate::train::words::{
    holds_pair, lemma_merged_has_no_pair, lemma_merged_neighbours, lemma_merged_symbols,
    lemma_no_pair, merge_pair, update_word, within, word_change, word_touches, Word,
};
use std::collections::HashMap;
use vstd::prelude::*;

verus! {

broadcast use vstd::std_specs::hash::group_hash_axioms;

/// The words: symbols, and how often each occurs.
pub type WordView = (Seq<u32>, int);

/// The values of a list of words.
pub open spec fn word_views(v: Seq<Word>) -> Seq<WordView> {
    v.map_values(|w: Word| w@)
}

/// A word takes part in the merge of `pair`: every word that occurs does, one
/// that does not only where both parts are bytes.
pub open spec fn follows(w: WordView, pair: Pair) -> bool {
    w.1 != 0 || (pair.0 < 256 && pair.1 < 256)
}

/// A word with `pair` merged, if it takes part.
pub open spec fn merged_word(w: WordView, pair: Pair, new: u32) -> WordView {
    if follows(w, pair) {
        (merge_pair(w.0, pair, new), w.1)
    } else {
        w
    }
}

/// The words with `pair` merged.
pub open spec fn merged_words(words: Seq<WordView>, pair: Pair, new: u32) -> Seq<WordView> {
    words.map_values(|w: WordView| merged_word(w, pair, new))
}

/// What merging `pair` in all words does to the count of `p`.
pub open spec fn total_change(words: Seq<WordView>, pair: Pair, new: u32, p: Pair) -> int
    decreases words.len(),
{
    if words.len() == 0 {
        0
    } else {
        total_change(words.drop_last(), pair, new, p) + words.last().1 * word_change(
            None,
            words.last().0,
            pair,
            new,
            p,
        )
    }
}

/// Merging `pair` touches the count of `p` in some word.
pub open spec fn any_touches(words: Seq<WordView>, pair: Pair, new: u32, p: Pair) -> bool {
    exists|w: int|
        0 <= w < words.len() && follows(#[trigger] words[w], pair) && word_touches(
            None,
            words[w].0,
            pair,
            new,
            p,
        )
}

/// `b` is `a` after `pair` was merged in all words.
pub open spec fn is_recorded(
    a: Map<Pair, i128>,
    b: Map<Pair, i128>,
    words: Seq<WordView>,
    pair: Pair,
    new: u32,
) -> bool {
    forall|p: Pair|
        {
            &&& #[trigger] b.contains_key(p) == (a.contains_key(p) || any_touches(
                words,
                pair,
                new,
                p,
            ))
            &&& count_in(b, p) == count_in(a, p) + total_change(words, pair, new, p)
        }
}

/// The symbols of all words, each as often as its word occurs.
pub open spec fn weight(words: Seq<WordView>) -> int
    decreases words.len(),
{
    if words.len() == 0 {
        0
    } else {
        weight(words.drop_last()) + words.last().1 * words.last().0.len()
    }
}

/// Every word occurs.
pub open spec fn all_occur(words: Seq<WordView>) -> bool {
    forall|w: int| 0 <= w < words.len() ==> (#[trigger] words[w]).1 >= 0
}

proof fn lemma_weight_update(words: Seq<WordView>, w: int, x: WordView)
    requires
        0 <= w < words.len(),
    ensures
        weight(words.update(w, x)) == weight(words) - words[w].1 * words[w].0.len() + x.1
            * x.0.len(),
    decreases words.len(),
{
    let u = words.update(w, x);
    if w < words.len() - 1 {
        assert(u.drop_last() =~= words.drop_last().update(w, x));
        lemma_weight_update(words.drop_last(), w, x);
    } else {
        assert(u.drop_last() =~= words.drop_last());
    }
}

/// One word weighs at most what all do.
pub proof fn lemma_weight_of_word(words: Seq<WordView>, w: int)
    requires
        0 <= w < words.len(),
        all_occur(words),
    ensures
        0 <= words[w].1 * words[w].0.len() <= weight(words),
    decreases words.len(),
{
    lemma_weight_nonneg(words.drop_last());
    assert(words.last().1 >= 0);
    assert(0 <= words.last().1 * words.last().0.len()) by (nonlinear_arith)
        requires
            words.last().1 >= 0,
    ;
    if w < words.len() - 1 {
        assert(words.drop_last()[w] == words[w]);
        assert forall|i: int| 0 <= i < words.drop_last().len() implies (
        #[trigger] words.drop_last()[i]).1 >= 0 by {
            assert(words[i].1 >= 0);
        }
        lemma_weight_of_word(words.drop_last(), w);
    }
}

pub proof fn lemma_weight_nonneg(words: Seq<WordView>)
    requires
        forall|w: int| 0 <= w < words.len() ==> (#[trigger] words[w]).1 >= 0,
    ensures
        weight(words) >= 0,
    decreases words.len(),
{
    if words.len() > 0 {
        let d = words.drop_last();
        assert forall|w: int| 0 <= w < d.len() implies (#[trigger] d[w]).1 >= 0 by {
            assert(words[w].1 >= 0);
        }
        lemma_weight_nonneg(d);
        assert(words.last().1 >= 0);
        assert(0 <= words.last().1 * words.last().0.len()) by (nonlinear_arith)
            requires
                words.last().1 >= 0,
        ;
    }
}

/// The part of the change that the words that are done make.
spec fn done_change(
    words: Seq<WordView>,
    done: Seq<bool>,
    pair: Pair,
    new: u32,
    p: Pair,
) -> int
    decreases words.len(),
{
    if words.len() == 0 {
        0
    } else {
        done_change(words.drop_last(), done.drop_last(), pair, new, p) + if done.last() {
            words.last().1 * word_change(None, words.last().0, pair, new, p)
        } else {
            0
        }
    }
}

proof fn lemma_done_set(
    words: Seq<WordView>,
    done: Seq<bool>,
    w: int,
    pair: Pair,
    new: u32,
    p: Pair,
)
    requires
        done.len() == words.len(),
        0 <= w < words.len(),
        !done[w],
    ensures
        done_change(words, done.update(w, true), pair, new, p) == done_change(
            words,
            done,
            pair,
            new,
            p,
        ) + words[w].1 * word_change(None, words[w].0, pair, new, p),
    decreases words.len(),
{
    let u = done.update(w, true);
    if w < words.len() - 1 {
        assert(u.drop_last() =~= done.drop_last().update(w, true));
        lemma_done_set(words.drop_last(), done.drop_last(), w, pair, new, p);
    } else {
        assert(u.drop_last() =~= done.drop_last());
    }
}

proof fn lemma_done_none(words: Seq<WordView>, done: Seq<bool>, pair: Pair, new: u32, p: Pair)
    requires
        done.len() == words.len(),
        forall|w: int| 0 <= w < done.len() ==> !#[trigger] done[w],
    ensures
        done_change(words, done, pair, new, p) == 0,
    decreases words.len(),
{
    if words.len() > 0 {
        assert(!done.last());
        let d = done.drop_last();
        assert forall|w: int| 0 <= w < d.len() implies !#[trigger] d[w] by {
            assert(!done[w]);
        }
        lemma_done_none(words.drop_last(), d, pair, new, p);
    }
}

/// When the words that are not done do not hold the pair or do not occur, all
/// is done.
proof fn lemma_done_all(words: Seq<WordView>, done: Seq<bool>, pair: Pair, new: u32, p: Pair)
    requires
        done.len() == words.len(),
        forall|w: int|
            0 <= w < words.len() && !done[w] ==> !holds_pair((#[trigger] words[w]).0, pair)
                || words[w].1 == 0,
    ensures
        done_change(words, done, pair, new, p) == total_change(words, pair, new, p),
    decreases words.len(),
{
    if words.len() > 0 {
        let n = words.len() - 1;
        assert(words[n] == words.last());
        let c = words.last().1;
        let change = word_change(None, words[n].0, pair, new, p);
        if !done[n] {
            if !holds_pair(words[n].0, pair) {
                lemma_no_pair(None, words[n].0, pair, new);
            }
            assert(c == 0 || change == 0);
            assert(c * change == 0) by (nonlinear_arith)
                requires
                    c == 0 || change == 0,
            ;
        }
        let d = words.drop_last();
        assert forall|w: int| 0 <= w < d.len() && !done.drop_last()[w] implies !holds_pair(
            (#[trigger] d[w]).0,
            pair,
        ) || d[w].1 == 0 by {
            assert(words[w] == d[w]);
        }
        lemma_done_all(d, done.drop_last(), pair, new, p);
    }
}

/// For each pair, the words that may hold it.
pub type WordIndex = HashMap<u64, Vec<usize>>;

/// The key of a pair.
pub open spec fn pair_key(p: Pair) -> u64 {
    merge_key(TokenId(p.0), TokenId(p.1))
}

proof fn lemma_pair_key(p: Pair, q: Pair)
    ensures
        (pair_key(p) == pair_key(q)) == (p == q),
{
    lemma_merge_key(TokenId(p.0), TokenId(p.1));
    lemma_merge_key(TokenId(q.0), TokenId(q.1));
}

/// Word `w` is listed for `p`.
pub open spec fn listed(index: Map<u64, Vec<usize>>, p: Pair, w: int) -> bool {
    &&& index.contains_key(pair_key(p))
    &&& exists|i: int| 0 <= i < index[pair_key(p)]@.len() && #[trigger] index[pair_key(p)]@[i] == w
}

/// Every word is listed for every pair that it holds.
pub open spec fn word_indexed(index: Map<u64, Vec<usize>>, s: Seq<u32>, w: int) -> bool {
    forall|i: int| 0 <= i < s.len() - 1 ==> listed(index, (#[trigger] s[i], s[i + 1]), w)
}

/// Every word is listed for every pair that it holds, and only words are
/// listed.
pub open spec fn indexed(index: Map<u64, Vec<usize>>, words: Seq<WordView>) -> bool {
    &&& forall|w: int| 0 <= w < words.len() ==> word_indexed(index, (#[trigger] words[w]).0, w)
    &&& lists_words(index, words.len())
}

/// Only words are listed.
pub open spec fn lists_words(index: Map<u64, Vec<usize>>, n: nat) -> bool {
    forall|k: u64, i: int|
        index.contains_key(k) && 0 <= i < index[k]@.len() ==> #[trigger] index[k]@[i] < n
}

/// Every list of `a` is in `b`, with perhaps more words.
pub open spec fn index_grows(a: Map<u64, Vec<usize>>, b: Map<u64, Vec<usize>>) -> bool {
    forall|p: Pair, w: int| #[trigger] listed(a, p, w) ==> listed(b, p, w)
}

/// Lists word `w` for a pair.
pub(crate) fn index_add(index: &mut WordIndex, p: Pair, w: usize, n: Ghost<nat>)
    requires
        lists_words(old(index)@, n@),
        w < n@,
    ensures
        lists_words(final(index)@, n@),
        listed(final(index)@, p, w as int),
        index_grows(old(index)@, final(index)@),
        forall|k: u64|
            k != pair_key(p) ==> #[trigger] final(index)@.contains_key(k) == old(
                index,
            )@.contains_key(k) && final(index)@[k] == old(index)@[k],
{
    let ghost before = index@;
    let key: u64 = ranked_merge_key(TokenId(p.0), TokenId(p.1));
    let mut list: Vec<usize> = match index.remove(&key) {
        Some(l) => l,
        None => Vec::new(),
    };
    let ghost was = list@;
    let known = list.len() > 0 && list[list.len() - 1] == w;
    if !known {
        list.push(w);
    }
    let ghost l = list@;
    index.insert(key, list);
    proof {
        assert(key == pair_key(p));
        assert(index@[pair_key(p)]@ == l);
        assert(index@[pair_key(p)]@[l.len() - 1] == w as int);
        assert forall|q: Pair, x: int| #[trigger] listed(before, q, x) implies listed(
            index@,
            q,
            x,
        ) by {
            lemma_pair_key(p, q);
            if p == q {
                let i = choose|i: int|
                    0 <= i < before[pair_key(q)]@.len() && #[trigger] before[pair_key(q)]@[i] == x;
                assert(index@[key]@[i] == x);
            } else {
                let i = choose|i: int|
                    0 <= i < before[pair_key(q)]@.len() && #[trigger] before[pair_key(q)]@[i] == x;
                assert(index@[pair_key(q)]@[i] == x);
            }
        }
        assert forall|k: u64, i: int|
            index@.contains_key(k) && 0 <= i < index@[k]@.len() implies #[trigger] index@[k]@[i]
            < n@ by {
            if k == key {
                if i < was.len() {
                    assert(before.contains_key(key));
                    assert(before[key]@[i] < n@);
                }
            } else {
                assert(before[k]@[i] < n@);
            }
        }
    }
}

proof fn lemma_grows(a: Map<u64, Vec<usize>>, b: Map<u64, Vec<usize>>, c: Map<u64, Vec<usize>>)
    requires
        index_grows(a, b),
        index_grows(b, c),
    ensures
        index_grows(a, c),
{
}

/// Lists word `w` for each pair that holds the new symbol.
#[verifier::rlimit(30)]
fn index_word(index: &mut WordIndex, w: usize, symbols: &Vec<u32>, new: u32, n: Ghost<nat>)
    requires
        lists_words(old(index)@, n@),
        w < n@,
    ensures
        lists_words(final(index)@, n@),
        index_grows(old(index)@, final(index)@),
        forall|i: int|
            0 <= i < symbols@.len() - 1 && (symbols@[i] == new || symbols@[i + 1] == new) ==> listed(
                final(index)@,
                (#[trigger] symbols@[i], symbols@[i + 1]),
                w as int,
            ),
        forall|p: Pair|
            p.0 != new && p.1 != new ==> final(index)@.contains_key(#[trigger] pair_key(p)) == old(
                index,
            )@.contains_key(pair_key(p)) && final(index)@[pair_key(p)] == old(index)@[pair_key(
                p,
            )],
{
    let ghost before = index@;
    let mut i: usize = 0;
    while symbols.len() >= 2 && i < symbols.len() - 1
        invariant
            i == 0 || i <= symbols@.len() - 1,
            w < n@,
            lists_words(index@, n@),
            index_grows(before, index@),
            forall|j: int|
                0 <= j < i && (symbols@[j] == new || symbols@[j + 1] == new) ==> listed(
                    index@,
                    (#[trigger] symbols@[j], symbols@[j + 1]),
                    w as int,
                ),
            forall|p: Pair|
                p.0 != new && p.1 != new ==> index@.contains_key(#[trigger] pair_key(p))
                    == before.contains_key(pair_key(p)) && index@[pair_key(p)] == before[pair_key(
                    p,
                )],
        decreases symbols@.len() - i,
    {
        let p: Pair = (symbols[i], symbols[i + 1]);
        if p.0 == new || p.1 == new {
            let ghost now = index@;
            index_add(index, p, w, n);
            proof {
                lemma_grows(before, now, index@);
                assert forall|j: int|
                    0 <= j < i + 1 && (symbols@[j] == new || symbols@[j + 1] == new) implies listed(
                    index@,
                    (#[trigger] symbols@[j], symbols@[j + 1]),
                    w as int,
                ) by {
                    if j < i {
                        assert(listed(now, (symbols@[j], symbols@[j + 1]), w as int));
                    }
                }
                assert forall|q: Pair| q.0 != new && q.1 != new implies index@.contains_key(
                    #[trigger] pair_key(q),
                ) == before.contains_key(pair_key(q)) && index@[pair_key(q)] == before[pair_key(
                    q,
                )] by {
                    lemma_pair_key(p, q);
                    assert(index@.contains_key(pair_key(q)) == now.contains_key(pair_key(q)));
                }
            }
        }
        i += 1;
    }
}

/// A merged word is listed for what it holds when it was before and is for
/// the new pairs.
proof fn lemma_word_indexed(
    a: Map<u64, Vec<usize>>,
    b: Map<u64, Vec<usize>>,
    s: Seq<u32>,
    w: int,
    pair: Pair,
    new: u32,
)
    requires
        word_indexed(a, s, w),
        index_grows(a, b),
        forall|i: int|
            0 <= i < merge_pair(s, pair, new).len() - 1 && (merge_pair(s, pair, new)[i] == new
                || merge_pair(s, pair, new)[i + 1] == new) ==> listed(
                b,
                (#[trigger] merge_pair(s, pair, new)[i], merge_pair(s, pair, new)[i + 1]),
                w,
            ),
    ensures
        word_indexed(b, merge_pair(s, pair, new), w),
{
    let m = merge_pair(s, pair, new);
    assert forall|i: int| 0 <= i < m.len() - 1 implies listed(b, (#[trigger] m[i], m[i + 1]), w) by {
        if m[i] != new && m[i + 1] != new {
            lemma_merged_neighbours(s, pair, new, i);
            let j = choose|j: int|
                0 <= j < s.len() - 1 && #[trigger] s[j] == m[i] && s[j + 1] == m[i + 1];
            assert(listed(a, (s[j], s[j + 1]), w));
        }
    }
}

/// Merges `pair` to `new` in every word that holds it, records what that does
/// to the pair counts, and lists the words for their new pairs.
#[verifier::rlimit(40)]
pub(crate) fn update_words(
    words: &mut Vec<Word>,
    index: &mut WordIndex,
    pair: Pair,
    new: u32,
    queue: &mut PairQueue,
    start: Ghost<int>,
)
    requires
        new != pair.0,
        new != pair.1,
        indexed(old(index)@, word_views(old(words)@)),
        0 <= start@,
        5 * start@ <= i128::MAX,
        weight(word_views(old(words)@)) <= start@,
        within(
            queue_counts(*old(queue)),
            5 * start@ - 4 * weight(word_views(old(words)@)),
        ),
    ensures
        word_views(final(words)@) == merged_words(word_views(old(words)@), pair, new),
        indexed(final(index)@, word_views(final(words)@)),
        queue_counts(*old(queue)).dom().finite() ==> queue_counts(*final(queue)).dom().finite(),
        weight(word_views(final(words)@)) <= start@,
        within(
            queue_counts(*final(queue)),
            5 * start@ - 4 * weight(word_views(final(words)@)),
        ),
        is_recorded(
            queue_counts(*old(queue)),
            queue_counts(*final(queue)),
            word_views(old(words)@),
            pair,
            new,
        ),
{
    let ghost w0 = word_views(words@);
    let ghost q0 = queue_counts(*queue);
    let ghost n = w0.len();
    let key: u64 = ranked_merge_key(TokenId(pair.0), TokenId(pair.1));
    let ghost index0 = index@;
    let list: Vec<usize> = match index.remove(&key) {
        Some(l) => l,
        None => Vec::new(),
    };
    let ghost mut done: Seq<bool> = Seq::new(n, |i: int| false);
    proof {
        assert(all_occur(w0)) by {
            assert forall|w: int| 0 <= w < w0.len() implies (#[trigger] w0[w]).1 >= 0 by {
                assert(w0[w] == words@[w]@);
            }
        }
        lemma_start(index0, index@, list, w0, pair);
        assert forall|p: Pair| done_change(w0, done, pair, new, p) == 0 by {
            lemma_done_none(w0, done, pair, new, p);
        }
    }
    let mut i: usize = 0;
    while i < list.len()
        invariant
            i <= list@.len(),
            new != pair.0,
            new != pair.1,
            key == pair_key(pair),
            n == w0.len(),
            n == words@.len(),
            done.len() == n,
            all_occur(w0),
            0 <= start@,
            5 * start@ <= i128::MAX,
            weight(word_views(words@)) <= start@,
            forall|j: int| 0 <= j < list@.len() ==> #[trigger] list@[j] < n,
            indexed(index@.insert(key, list), word_views(words@)),
            lists_words(index@, n),
            within(queue_counts(*queue), 5 * start@ - 4 * weight(word_views(words@))),
            q0.dom().finite() ==> queue_counts(*queue).dom().finite(),
            forall|w: int|
                0 <= w < n ==> #[trigger] words@[w]@ == (if done[w] {
                    (merge_pair(w0[w].0, pair, new), w0[w].1)
                } else {
                    w0[w]
                }),
            forall|w: int| 0 <= w < n && #[trigger] done[w] ==> follows(w0[w], pair),
            forall|j: int|
                0 <= j < i ==> done[#[trigger] list@[j] as int] || !follows(
                    w0[list@[j] as int],
                    pair,
                ),
            forall|p: Pair|
                {
                    &&& #[trigger] queue_counts(*queue).contains_key(p) == (q0.contains_key(p)
                        || exists|w: int|
                        0 <= w < n && done[w] && word_touches(
                            None,
                            (#[trigger] w0[w]).0,
                            pair,
                            new,
                            p,
                        ))
                    &&& count_in(queue_counts(*queue), p) == count_in(q0, p) + done_change(
                        w0,
                        done,
                        pair,
                        new,
                        p,
                    )
                },
        decreases list@.len() - i,
    {
        let w: usize = list[i];
        if words[w].word_count == 0 && (pair.0 >= 256 || pair.1 >= 256) {
            proof {
                assert(words@[w as int]@.1 == w0[w as int].1);
            }
            i += 1;
            continue;
        }
        let ghost cur = word_views(words@);
        let ghost bound = 5 * start@ - 4 * weight(cur);
        let ghost q1 = queue_counts(*queue);
        let ghost done1 = done;
        let ghost index1 = index@;
        let ghost s = words@[w as int]@.0;
        let ghost c = words@[w as int]@.1;
        proof {
            assert(cur[w as int] == words@[w as int]@);
            assert(w0[w as int].1 == words@[w as int]@.1);
            assert(follows(w0[w as int], pair));
            assert(all_occur(cur)) by {
                assert forall|x: int| 0 <= x < cur.len() implies (#[trigger] cur[x]).1 >= 0 by {
                    assert(cur[x] == words@[x]@);
                }
            }
            lemma_weight_of_word(cur, w as int);
        }
        update_word(&mut words[w], pair, new, queue, Ghost(bound));
        index_word(index, w, &words[w].symbols, new, Ghost(n));
        proof {
            let x = (merge_pair(s, pair, new), c);
            assert(words@[w as int]@ == x);
            assert(word_views(words@) =~= cur.update(w as int, x));
            lemma_weight_update(cur, w as int, x);
            lemma_merged_symbols(s, pair, new);
            assert(c * x.0.len() == c * s.len() - c * (s.len() - x.0.len())) by (nonlinear_arith);
            assert(0 <= c * (s.len() - x.0.len())) by (nonlinear_arith)
                requires
                    0 <= c,
                    x.0.len() <= s.len(),
            ;
            assert(bound + 4 * (c * (s.len() - x.0.len())) == 5 * start@ - 4 * weight(
                word_views(words@),
            ));
            lemma_reindexed(index1, index@, list, cur, word_views(words@), w as int, pair, new);
            if done1[w as int] {
                lemma_merged_has_no_pair(w0[w as int].0, pair, new);
                lemma_no_pair(None, s, pair, new);
                assert forall|p: Pair|
                    {
                        &&& #[trigger] queue_counts(*queue).contains_key(p) == q1.contains_key(p)
                        &&& count_in(queue_counts(*queue), p) == count_in(q1, p)
                    } by {
                    assert(!word_touches(None, s, pair, new, p));
                    assert(word_change(None, s, pair, new, p) == 0);
                    assert(c * 0 == 0) by (nonlinear_arith);
                }
            } else {
                done = done1.update(w as int, true);
                assert forall|p: Pair|
                    {
                        &&& #[trigger] queue_counts(*queue).contains_key(p) == (q0.contains_key(p)
                            || exists|v: int|
                            0 <= v < n && done[v] && word_touches(
                                None,
                                (#[trigger] w0[v]).0,
                                pair,
                                new,
                                p,
                            ))
                        &&& count_in(queue_counts(*queue), p) == count_in(q0, p) + done_change(
                            w0,
                            done,
                            pair,
                            new,
                            p,
                        )
                    } by {
                    lemma_done_set(w0, done1, w as int, pair, new, p);
                    assert(q1.contains_key(p) || !q1.contains_key(p));
                    if word_touches(None, w0[w as int].0, pair, new, p) {
                        assert(done[w as int]);
                    }
                    if q1.contains_key(p) && !q0.contains_key(p) {
                        let v = choose|v: int|
                            0 <= v < n && done1[v] && word_touches(
                                None,
                                (#[trigger] w0[v]).0,
                                pair,
                                new,
                                p,
                            );
                        assert(done[v] && word_touches(None, w0[v].0, pair, new, p));
                    }
                }
            }
        }
        i += 1;
    }
    proof {
        assert forall|w: int| 0 <= w < n && !done[w] implies !holds_pair(
            (#[trigger] w0[w]).0,
            pair,
        ) || !follows(w0[w], pair) by {
            if holds_pair(w0[w].0, pair) && follows(w0[w], pair) {
                let s = w0[w].0;
                let j = choose|j: int|
                    0 <= j < s.len() - 1 && #[trigger] s[j] == pair.0 && s[j + 1] == pair.1;
                let cur = word_views(words@);
                assert(cur[w] == words@[w]@);
                assert(cur[w].0[j] == pair.0);
                let full = index@.insert(key, list);
                assert(word_indexed(full, cur[w].0, w));
                assert(listed(full, (cur[w].0[j], cur[w].0[j + 1]), w));
                let l = choose|l: int|
                    0 <= l < full[pair_key(pair)]@.len() && #[trigger] full[pair_key(pair)]@[l] == w;
                assert(list@[l] == w);
                assert(done[list@[l] as int]);
            }
        }
        assert(word_views(words@) =~= merged_words(w0, pair, new)) by {
            assert forall|w: int| 0 <= w < n implies word_views(words@)[w] == merged_words(
                w0,
                pair,
                new,
            )[w] by {
                assert(words@[w]@ == words@[w]@);
                if !done[w] && follows(w0[w], pair) {
                    lemma_no_pair(None, w0[w].0, pair, new);
                }
            }
        }
        let q2 = queue_counts(*queue);
        assert forall|p: Pair|
            {
                &&& #[trigger] q2.contains_key(p) == (q0.contains_key(p) || any_touches(
                    w0,
                    pair,
                    new,
                    p,
                ))
                &&& count_in(q2, p) == count_in(q0, p) + total_change(w0, pair, new, p)
            } by {
            lemma_done_all(w0, done, pair, new, p);
            if any_touches(w0, pair, new, p) {
                let w = choose|w: int|
                    0 <= w < w0.len() && follows(#[trigger] w0[w], pair) && word_touches(
                        None,
                        w0[w].0,
                        pair,
                        new,
                        p,
                    );
                if !done[w] {
                    lemma_no_pair(None, w0[w].0, pair, new);
                    assert(!word_touches(None, w0[w].0, pair, new, p));
                }
                assert(done[w]);
            }
        }
    }
    index.insert(key, list);
}

/// Taking out the list of one pair.
proof fn lemma_start(
    index0: Map<u64, Vec<usize>>,
    index1: Map<u64, Vec<usize>>,
    list: Vec<usize>,
    words: Seq<WordView>,
    pair: Pair,
)
    requires
        indexed(index0, words),
        index1 == index0.remove(pair_key(pair)),
        index0.contains_key(pair_key(pair)) ==> list == index0[pair_key(pair)],
        !index0.contains_key(pair_key(pair)) ==> list@.len() == 0,
    ensures
        indexed(index1.insert(pair_key(pair), list), words),
        lists_words(index1, words.len()),
        forall|j: int| 0 <= j < list@.len() ==> #[trigger] list@[j] < words.len(),
{
    let key = pair_key(pair);
    let full = index1.insert(key, list);
    assert forall|p: Pair, w: int| #[trigger] listed(index0, p, w) implies listed(full, p, w) by {
        lemma_pair_key(p, pair);
        let i = choose|i: int|
            0 <= i < index0[pair_key(p)]@.len() && #[trigger] index0[pair_key(p)]@[i] == w;
        assert(full[pair_key(p)]@[i] == w);
    }
    assert forall|w: int| 0 <= w < words.len() implies word_indexed(
        full,
        (#[trigger] words[w]).0,
        w,
    ) by {
        assert(word_indexed(index0, words[w].0, w));
    }
    assert forall|j: int| 0 <= j < list@.len() implies #[trigger] list@[j] < words.len() by {
        assert(index0[key]@[j] < words.len());
    }
    assert forall|k: u64, i: int|
        full.contains_key(k) && 0 <= i < full[k]@.len() implies #[trigger] full[k]@[i]
        < words.len() by {
        if k == key {
            assert(list@[i] < words.len());
        } else {
            assert(index0[k]@[i] < words.len());
        }
    }
    assert forall|k: u64, i: int|
        index1.contains_key(k) && 0 <= i < index1[k]@.len() implies #[trigger] index1[k]@[i]
        < words.len() by {
        assert(index0[k]@[i] < words.len());
    }
}

/// Listing a merged word for its new pairs.
proof fn lemma_reindexed(
    index1: Map<u64, Vec<usize>>,
    index2: Map<u64, Vec<usize>>,
    list: Vec<usize>,
    words1: Seq<WordView>,
    words2: Seq<WordView>,
    w: int,
    pair: Pair,
    new: u32,
)
    requires
        new != pair.0,
        new != pair.1,
        0 <= w < words1.len(),
        indexed(index1.insert(pair_key(pair), list), words1),
        forall|j: int| 0 <= j < list@.len() ==> #[trigger] list@[j] < words1.len(),
        words2 == words1.update(w, (merge_pair(words1[w].0, pair, new), words1[w].1)),
        lists_words(index2, words1.len()),
        index_grows(index1, index2),
        forall|i: int|
            0 <= i < words2[w].0.len() - 1 && (words2[w].0[i] == new || words2[w].0[i + 1] == new)
                ==> listed(index2, (#[trigger] words2[w].0[i], words2[w].0[i + 1]), w),
        forall|p: Pair|
            p.0 != new && p.1 != new ==> index2.contains_key(#[trigger] pair_key(p))
                == index1.contains_key(pair_key(p)) && index2[pair_key(p)] == index1[pair_key(p)],
    ensures
        indexed(index2.insert(pair_key(pair), list), words2),
{
    let key = pair_key(pair);
    let a = index1.insert(key, list);
    let b = index2.insert(key, list);
    assert forall|p: Pair, x: int| #[trigger] listed(index2, p, x) && p != pair implies listed(
        b,
        p,
        x,
    ) by {
        lemma_pair_key(p, pair);
        let i = choose|i: int|
            0 <= i < index2[pair_key(p)]@.len() && #[trigger] index2[pair_key(p)]@[i] == x;
        assert(b[pair_key(p)]@[i] == x);
    }
    assert(index_grows(a, b)) by {
        assert forall|p: Pair, x: int| #[trigger] listed(a, p, x) implies listed(b, p, x) by {
            lemma_pair_key(p, pair);
            let i = choose|i: int|
                0 <= i < a[pair_key(p)]@.len() && #[trigger] a[pair_key(p)]@[i] == x;
            if p == pair {
                assert(b[pair_key(p)]@[i] == x);
            } else {
                assert(index1[pair_key(p)]@[i] == x);
                assert(listed(index1, p, x));
                assert(listed(index2, p, x));
            }
        }
    }
    assert forall|x: int| 0 <= x < words2.len() implies word_indexed(
        b,
        (#[trigger] words2[x]).0,
        x,
    ) by {
        assert(word_indexed(a, words1[x].0, x));
        if x == w {
            let m = words2[w].0;
            assert forall|i: int|
                0 <= i < m.len() - 1 && (m[i] == new || m[i + 1] == new) implies listed(
                b,
                (#[trigger] m[i], m[i + 1]),
                w,
            ) by {
                assert(listed(index2, (words2[w].0[i], words2[w].0[i + 1]), w));
            }
            lemma_word_indexed(a, b, words1[w].0, w, pair, new);
        } else {
            assert(words2[x] == words1[x]);
            let s = words1[x].0;
            assert forall|i: int| 0 <= i < s.len() - 1 implies listed(
                b,
                (#[trigger] s[i], s[i + 1]),
                x,
            ) by {
                assert(listed(a, (s[i], s[i + 1]), x));
            }
        }
    }
    assert forall|k: u64, i: int| b.contains_key(k) && 0 <= i < b[k]@.len() implies #[trigger] b[k]@[i]
        < words2.len() by {
        if k == key {
            assert(list@[i] < words1.len());
        } else {
            assert(index2[k]@[i] < words1.len());
        }
    }
}

} // verus!
