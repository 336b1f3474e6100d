//! Words as symbols: merging a pair, and what that does to the pair counts.
use crate::train::queue::{bump, count_in, queue_counts, same, Pair, PairQueue};
use vstd::prelude::*;

verus! {

/// `s` with each occurrence of `pair` merged to `new`, from left to right.
pub open spec fn merge_pair(s: Seq<u32>, pair: Pair, new: u32) -> Seq<u32>
    decreases s.len(),
{
    if s.len() < 2 {
        s
    } else if s[0] == pair.0 && s[1] == pair.1 {
        seq![new] + merge_pair(s.skip(2), pair, new)
    } else {
        seq![s[0]] + merge_pair(s.skip(1), pair, new)
    }
}

/// How many times `p` stands in `s`.
pub open spec fn occurrences(s: Seq<u32>, p: Pair) -> int
    decreases s.len(),
{
    if s.len() < 2 {
        0
    } else {
        same(p, (s[0], s[1])) + occurrences(s.skip(1), p)
    }
}

/// What one merge with these neighbours does to the count of `p`. The merged
/// pair itself is not counted.
pub open spec fn merge_change(
    prev: Option<u32>,
    next: Option<u32>,
    pair: Pair,
    new: u32,
    p: Pair,
) -> int {
    (match prev {
        Some(x) => same(p, (x, new)) - same(p, (x, pair.0)),
        None => 0,
    }) + (match next {
        Some(y) => same(p, (new, y)) - same(p, (pair.1, y)),
        None => 0,
    })
}

/// One merge with these neighbours changes the count of `p`, if only back and
/// forth.
pub open spec fn merge_touches(
    prev: Option<u32>,
    next: Option<u32>,
    pair: Pair,
    new: u32,
    p: Pair,
) -> bool {
    ||| prev matches Some(x) && (p == (x, new) || p == (x, pair.0))
    ||| next matches Some(y) && (p == (new, y) || p == (pair.1, y))
}

/// What stands after the first two symbols.
pub open spec fn after_two(s: Seq<u32>) -> Option<u32> {
    if s.len() >= 3 {
        Some(s[2])
    } else {
        None
    }
}

/// What merging `pair` in `s`, which stands after `prev`, does to the count of
/// `p`.
pub open spec fn word_change(prev: Option<u32>, s: Seq<u32>, pair: Pair, new: u32, p: Pair) -> int
    decreases s.len(),
{
    if s.len() < 2 {
        0
    } else if s[0] == pair.0 && s[1] == pair.1 {
        merge_change(prev, after_two(s), pair, new, p) + word_change(
            Some(new),
            s.skip(2),
            pair,
            new,
            p,
        )
    } else {
        word_change(Some(s[0]), s.skip(1), pair, new, p)
    }
}

/// Merging `pair` in `s`, which stands after `prev`, touches the count of `p`.
pub open spec fn word_touches(prev: Option<u32>, s: Seq<u32>, pair: Pair, new: u32, p: Pair) -> bool
    decreases s.len(),
{
    if s.len() < 2 {
        false
    } else if s[0] == pair.0 && s[1] == pair.1 {
        merge_touches(prev, after_two(s), pair, new, p) || word_touches(
            Some(new),
            s.skip(2),
            pair,
            new,
            p,
        )
    } else {
        word_touches(Some(s[0]), s.skip(1), pair, new, p)
    }
}

/// `pair` stands in `s`.
pub open spec fn holds_pair(s: Seq<u32>, pair: Pair) -> bool {
    exists|i: int| 0 <= i < s.len() - 1 && #[trigger] s[i] == pair.0 && s[i + 1] == pair.1
}

/// Where `pair` does not stand nothing changes.
pub proof fn lemma_no_pair(prev: Option<u32>, s: Seq<u32>, pair: Pair, new: u32)
    requires
        !holds_pair(s, pair),
    ensures
        merge_pair(s, pair, new) == s,
        forall|p: Pair| #[trigger] word_change(prev, s, pair, new, p) == 0,
        forall|p: Pair| !#[trigger] word_touches(prev, s, pair, new, p),
    decreases s.len(),
{
    if s.len() >= 2 {
        let t = s.skip(1);
        assert(!(s[0] == pair.0 && s[1] == pair.1)) by {
            if s[0] == pair.0 && s[1] == pair.1 {
                assert(s[0] == pair.0 && s[0int + 1] == pair.1);
            }
        }
        assert(!holds_pair(t, pair)) by {
            if holds_pair(t, pair) {
                let i = choose|i: int|
                    0 <= i < t.len() - 1 && #[trigger] t[i] == pair.0 && t[i + 1] == pair.1;
                assert(s[i + 1] == pair.0 && s[i + 1 + 1] == pair.1);
            }
        }
        lemma_no_pair(Some(s[0]), t, pair, new);
        assert(seq![s[0]] + t =~= s);
        assert forall|p: Pair| #[trigger] word_change(prev, s, pair, new, p) == 0 by {
            assert(word_change(Some(s[0]), t, pair, new, p) == 0);
        }
        assert forall|p: Pair| !#[trigger] word_touches(prev, s, pair, new, p) by {
            assert(!word_touches(Some(s[0]), t, pair, new, p));
        }
    }
}

/// Neighbours in the merged word that are not the new symbol were neighbours
/// before, and are not the merged pair.
pub proof fn lemma_merged_neighbours(s: Seq<u32>, pair: Pair, new: u32, i: int)
    requires
        0 <= i < merge_pair(s, pair, new).len() - 1,
        merge_pair(s, pair, new)[i] != new,
        merge_pair(s, pair, new)[i + 1] != new,
    ensures
        exists|j: int|
            0 <= j < s.len() - 1 && #[trigger] s[j] == merge_pair(s, pair, new)[i] && s[j + 1]
                == merge_pair(s, pair, new)[i + 1],
        (merge_pair(s, pair, new)[i], merge_pair(s, pair, new)[i + 1]) != pair,
    decreases s.len(),
{
    let m = merge_pair(s, pair, new);
    if s.len() >= 2 {
        if s[0] == pair.0 && s[1] == pair.1 {
            let t = s.skip(2);
            let r = merge_pair(t, pair, new);
            assert(m =~= seq![new] + r);
            assert(i >= 1);
            assert(m[i] == r[i - 1] && m[i + 1] == r[i]);
            lemma_merged_neighbours(t, pair, new, i - 1);
            let j = choose|j: int|
                0 <= j < t.len() - 1 && #[trigger] t[j] == r[i - 1] && t[j + 1] == r[i];
            assert(s[j + 2] == m[i] && s[j + 2 + 1] == m[i + 1]);
        } else {
            let t = s.skip(1);
            let r = merge_pair(t, pair, new);
            assert(m =~= seq![s[0]] + r);
            if i >= 1 {
                assert(m[i] == r[i - 1] && m[i + 1] == r[i]);
                lemma_merged_neighbours(t, pair, new, i - 1);
                let j = choose|j: int|
                    0 <= j < t.len() - 1 && #[trigger] t[j] == r[i - 1] && t[j + 1] == r[i];
                assert(s[j + 1] == m[i] && s[j + 1 + 1] == m[i + 1]);
            } else {
                assert(m[1] == r[0]);
                if t.len() >= 2 && t[0] == pair.0 && t[1] == pair.1 {
                    assert(r[0] == new);
                } else {
                    assert(r[0] == t[0]);
                }
                assert(s[0] == m[0] && s[0int + 1] == m[1]);
            }
        }
    }
}

/// After merging, the pair is gone.
pub proof fn lemma_merged_has_no_pair(s: Seq<u32>, pair: Pair, new: u32)
    requires
        new != pair.0,
        new != pair.1,
    ensures
        !holds_pair(merge_pair(s, pair, new), pair),
{
    let m = merge_pair(s, pair, new);
    if holds_pair(m, pair) {
        let i = choose|i: int|
            0 <= i < m.len() - 1 && #[trigger] m[i] == pair.0 && m[i + 1] == pair.1;
        lemma_merged_neighbours(s, pair, new, i);
    }
}

/// A merged word is not longer, and holds what the word held or the new
/// symbol.
pub proof fn lemma_merged_symbols(s: Seq<u32>, pair: Pair, new: u32)
    ensures
        merge_pair(s, pair, new).len() <= s.len(),
        forall|x: u32| #[trigger]
            merge_pair(s, pair, new).contains(x) ==> x == new || s.contains(x),
    decreases s.len(),
{
    if s.len() >= 2 {
        let n = if s[0] == pair.0 && s[1] == pair.1 {
            2int
        } else {
            1int
        };
        let t = s.skip(n);
        lemma_merged_symbols(t, pair, new);
        let m = merge_pair(s, pair, new);
        let r = merge_pair(t, pair, new);
        assert forall|x: u32| #[trigger] m.contains(x) implies x == new || s.contains(x) by {
            let i = choose|i: int| 0 <= i < m.len() && m[i] == x;
            if i == 0 {
                assert(s.contains(s[0]));
            } else {
                assert(m[i] == r[i - 1]);
                assert(r.contains(x));
                if t.contains(x) {
                    let j = choose|j: int| 0 <= j < t.len() && t[j] == x;
                    assert(s[j + n] == x);
                }
            }
        }
    }
}

/// The pairs whose counts are touched hold known symbols or the new one.
pub proof fn lemma_touched_symbols(prev: Option<u32>, s: Seq<u32>, pair: Pair, new: u32, p: Pair, n: u32)
    requires
        word_touches(prev, s, pair, new, p),
        forall|i: int| 0 <= i < s.len() ==> #[trigger] s[i] < n,
        prev matches Some(x) ==> x <= n,
        pair.0 < n,
        pair.1 < n,
        new <= n,
    ensures
        p.0 <= n,
        p.1 <= n,
    decreases s.len(),
{
    if s.len() >= 2 {
        if s[0] == pair.0 && s[1] == pair.1 {
            if !merge_touches(prev, after_two(s), pair, new, p) {
                lemma_touched_symbols(Some(new), s.skip(2), pair, new, p, n);
            }
        } else {
            lemma_touched_symbols(Some(s[0]), s.skip(1), pair, new, p, n);
        }
    }
}

/// With `prev` before it.
spec fn led(prev: Option<u32>, s: Seq<u32>) -> Seq<u32> {
    match prev {
        Some(x) => seq![x] + s,
        None => s,
    }
}

proof fn lemma_led(prev: Option<u32>, s: Seq<u32>, p: Pair)
    ensures
        occurrences(led(prev, s), p) == occurrences(s, p) + (match prev {
            Some(x) => if s.len() > 0 {
                same(p, (x, s[0]))
            } else {
                0
            },
            None => 0,
        }),
{
    match prev {
        Some(x) => {
            let t = seq![x] + s;
            assert(t.skip(1) =~= s);
            if s.len() > 0 {
                assert(t[0] == x && t[1] == s[0]);
            }
        },
        None => {},
    }
}

proof fn lemma_change_is_difference(prev: Option<u32>, s: Seq<u32>, pair: Pair, new: u32, p: Pair)
    requires
        p != pair,
    ensures
        word_change(prev, s, pair, new, p) == occurrences(led(prev, merge_pair(s, pair, new)), p)
            - occurrences(led(prev, s), p),
    decreases s.len(),
{
    let m = merge_pair(s, pair, new);
    lemma_led(prev, m, p);
    lemma_led(prev, s, p);
    if s.len() >= 2 {
        if s[0] == pair.0 && s[1] == pair.1 {
            let t = s.skip(2);
            let r = merge_pair(t, pair, new);
            lemma_change_is_difference(Some(new), t, pair, new, p);
            assert(m =~= led(Some(new), r));
            assert(m[0] == new);
            lemma_led(Some(new), t, p);
            assert(s.skip(1).skip(1) =~= t);
            assert(s.skip(1)[0] == s[1]);
            if s.len() >= 3 {
                assert(s.skip(1)[1] == s[2]);
                assert(t[0] == s[2]);
                assert(occurrences(s.skip(1), p) == same(p, (s[1], s[2])) + occurrences(t, p));
            }
            assert(occurrences(s, p) == same(p, (s[0], s[1])) + occurrences(s.skip(1), p));
        } else {
            let t = s.skip(1);
            let r = merge_pair(t, pair, new);
            lemma_change_is_difference(Some(s[0]), t, pair, new, p);
            assert(m =~= led(Some(s[0]), r));
            assert(s =~= led(Some(s[0]), t));
            assert(m[0] == s[0]);
        }
    }
}

/// The recorded changes are true: for every pair but the merged one, they are
/// the difference between how often the pair stands in the word after and
/// before.
pub proof fn law_changes_are_differences(s: Seq<u32>, pair: Pair, new: u32, p: Pair)
    requires
        p != pair,
    ensures
        word_change(None, s, pair, new, p) == occurrences(merge_pair(s, pair, new), p)
            - occurrences(s, p),
{
    lemma_change_is_difference(None, s, pair, new, p);
}

/// A word: its symbols, and how often it occurs.
pub struct Word {
    pub symbols: Vec<u32>,
    pub word_count: usize,
}

impl Word {
    /// The value of the word.
    pub open spec fn view(&self) -> (Seq<u32>, int) {
        (self.symbols@, self.word_count as int)
    }
}

/// All counts of a queue lie within `bound`.
pub open spec fn within(m: Map<Pair, i128>, bound: int) -> bool {
    forall|p: Pair| #[trigger] m.contains_key(p) ==> -bound <= m[p] <= bound
}

/// `b` is `a` after one merge with these neighbours in a word that occurs `c`
/// times.
pub open spec fn is_merge_recorded(
    a: Map<Pair, i128>,
    b: Map<Pair, i128>,
    prev: Option<u32>,
    next: Option<u32>,
    pair: Pair,
    new: u32,
    c: int,
) -> bool {
    forall|p: Pair|
        {
            &&& #[trigger] b.contains_key(p) == (a.contains_key(p) || merge_touches(
                prev,
                next,
                pair,
                new,
                p,
            ))
            &&& count_in(b, p) == count_in(a, p) + c * merge_change(prev, next, pair, new, p)
        }
}

/// Two changes around one neighbour.
fn record_side(queue: &mut PairQueue, gone: Pair, come: Pair, c: i128, bound: Ghost<int>)
    requires
        within(queue_counts(*old(queue)), bound@),
        0 <= bound@,
        0 <= c,
        bound@ + 2 * c <= i128::MAX,
    ensures
        queue_counts(*old(queue)).dom().finite() ==> queue_counts(*final(queue)).dom().finite(),
        within(queue_counts(*final(queue)), bound@ + 2 * c),
        forall|p: Pair|
            {
                &&& #[trigger] queue_counts(*final(queue)).contains_key(p) == (queue_counts(
                    *old(queue),
                ).contains_key(p) || p == gone || p == come)
                &&& count_in(queue_counts(*final(queue)), p) == count_in(
                    queue_counts(*old(queue)),
                    p,
                ) + c * (same(p, come) - same(p, gone))
            },
{
    let ghost q0 = queue_counts(*queue);
    bump(queue, gone, 0 - c);
    let ghost q1 = queue_counts(*queue);
    proof {
        assert forall|p: Pair| #[trigger] q1.contains_key(p) implies -(bound@ + c) <= q1[p] <= bound@
            + c by {
            assert(count_in(q1, p) == count_in(q0, p) + (0 - c) * same(p, gone));
            assert((0 - c) * 1 == -c && (0 - c) * 0 == 0) by (nonlinear_arith);
        }
        assert(q1.contains_key(come) || !q1.contains_key(come));
    }
    bump(queue, come, c);
    proof {
        let q2 = queue_counts(*queue);
        assert forall|p: Pair|
            {
                &&& #[trigger] q2.contains_key(p) == (q0.contains_key(p) || p == gone || p == come)
                &&& count_in(q2, p) == count_in(q0, p) + c * (same(p, come) - same(p, gone))
            } by {
            assert(q1.contains_key(p) == (q0.contains_key(p) || p == gone));
            assert(count_in(q1, p) == count_in(q0, p) + (0 - c) * same(p, gone));
            assert(count_in(q2, p) == count_in(q1, p) + c * same(p, come));
            let x = same(p, come);
            let y = same(p, gone);
            assert((0 - c) * y + c * x == c * (x - y)) by (nonlinear_arith);
        }
        assert forall|p: Pair| #[trigger] q2.contains_key(p) implies -(bound@ + 2 * c) <= q2[p]
            <= bound@ + 2 * c by {
            assert(count_in(q2, p) == count_in(q1, p) + c * same(p, come));
            assert(q1.contains_key(p) || !q1.contains_key(p));
            assert(c * 1 == c && c * 0 == 0) by (nonlinear_arith);
        }
    }
}

/// Records what one merge does to the pair counts.
fn record_merge(
    queue: &mut PairQueue,
    prev: Option<u32>,
    next: Option<u32>,
    pair: Pair,
    new: u32,
    c: i128,
    bound: Ghost<int>,
)
    requires
        within(queue_counts(*old(queue)), bound@),
        0 <= bound@,
        0 <= c,
        bound@ + 4 * c <= i128::MAX,
    ensures
        queue_counts(*old(queue)).dom().finite() ==> queue_counts(*final(queue)).dom().finite(),
        within(queue_counts(*final(queue)), bound@ + 4 * c),
        is_merge_recorded(
            queue_counts(*old(queue)),
            queue_counts(*final(queue)),
            prev,
            next,
            pair,
            new,
            c as int,
        ),
{
    let ghost q0 = queue_counts(*queue);
    match prev {
        Some(x) => {
            record_side(queue, (x, pair.0), (x, new), c, bound);
        },
        None => {},
    }
    let ghost q1 = queue_counts(*queue);
    proof {
        assert(within(q1, bound@ + 2 * c));
    }
    match next {
        Some(y) => {
            record_side(queue, (pair.1, y), (new, y), c, Ghost(bound@ + 2 * c));
        },
        None => {},
    }
    proof {
        let q2 = queue_counts(*queue);
        assert(within(q2, bound@ + 4 * c));
        assert forall|p: Pair|
            {
                &&& #[trigger] q2.contains_key(p) == (q0.contains_key(p) || merge_touches(
                    prev,
                    next,
                    pair,
                    new,
                    p,
                ))
                &&& count_in(q2, p) == count_in(q0, p) + c * merge_change(prev, next, pair, new, p)
            } by {
            assert(q1.contains_key(p) || !q1.contains_key(p));
            let a = match prev {
                Some(x) => same(p, (x, new)) - same(p, (x, pair.0)),
                None => 0,
            };
            let b = match next {
                Some(y) => same(p, (new, y)) - same(p, (pair.1, y)),
                None => 0,
            };
            assert(c * 0 == 0) by (nonlinear_arith);
            assert(count_in(q1, p) == count_in(q0, p) + c * a);
            assert(count_in(q2, p) == count_in(q1, p) + c * b);
            assert(c * a + c * b == c * (a + b)) by (nonlinear_arith);
        }
    }
}

/// `b` is `a` after `pair` was merged in a word that occurs `c` times.
pub open spec fn is_word_recorded(
    a: Map<Pair, i128>,
    b: Map<Pair, i128>,
    s: Seq<u32>,
    pair: Pair,
    new: u32,
    c: int,
) -> bool {
    forall|p: Pair|
        {
            &&& #[trigger] b.contains_key(p) == (a.contains_key(p) || word_touches(
                None,
                s,
                pair,
                new,
                p,
            ))
            &&& count_in(b, p) == count_in(a, p) + c * word_change(None, s, pair, new, p)
        }
}

/// Merges `pair` to `new` in a word and records what that does to the pair
/// counts.
pub(crate) fn update_word(w: &mut Word, pair: Pair, new: u32, queue: &mut PairQueue, bound: Ghost<int>)
    requires
        within(queue_counts(*old(queue)), bound@),
        0 <= bound@,
        bound@ + 4 * (old(w)@.1 * old(w)@.0.len()) <= i128::MAX,
    ensures
        final(w)@ == (merge_pair(old(w)@.0, pair, new), old(w)@.1),
        queue_counts(*old(queue)).dom().finite() ==> queue_counts(*final(queue)).dom().finite(),
        within(
            queue_counts(*final(queue)),
            bound@ + 4 * (old(w)@.1 * (old(w)@.0.len() - final(w)@.0.len())),
        ),
        is_word_recorded(
            queue_counts(*old(queue)),
            queue_counts(*final(queue)),
            old(w)@.0,
            pair,
            new,
            old(w)@.1,
        ),
{
    let ghost s = w.symbols@;
    let ghost c = w.word_count as int;
    let ghost q0 = queue_counts(*queue);
    let count: i128 = w.word_count as i128;
    let mut out: Vec<u32> = Vec::new();
    let mut j: usize = 0;
    let n: usize = w.symbols.len();
    let mut prev: Option<u32> = None;
    proof {
        assert(s.skip(0) =~= s);
        assert(out@ + merge_pair(s.skip(0), pair, new) =~= merge_pair(s, pair, new));
        assert(c * 0 == 0) by (nonlinear_arith);
    }
    while j < n
        invariant
            j <= n,
            n == s.len(),
            w.symbols@ == s,
            w.word_count == c,
            count == c,
            0 <= bound@,
            out@.len() <= j,
            bound@ + 4 * (c * s.len()) <= i128::MAX,
            prev == (if out@.len() == 0 {
                None::<u32>
            } else {
                Some(out@.last())
            }),
            merge_pair(s, pair, new) == out@ + merge_pair(s.skip(j as int), pair, new),
            within(queue_counts(*queue), bound@ + 4 * (c * (j - out@.len()))),
            q0.dom().finite() ==> queue_counts(*queue).dom().finite(),
            forall|p: Pair|
                {
                    &&& (#[trigger] queue_counts(*queue).contains_key(p) || word_touches(
                        prev,
                        s.skip(j as int),
                        pair,
                        new,
                        p,
                    )) == (q0.contains_key(p) || word_touches(None, s, pair, new, p))
                    &&& count_in(queue_counts(*queue), p) == count_in(q0, p) + c * (word_change(
                        None,
                        s,
                        pair,
                        new,
                        p,
                    ) - word_change(prev, s.skip(j as int), pair, new, p))
                },
        decreases n - j,
    {
        let ghost rest = s.skip(j as int);
        let ghost q1 = queue_counts(*queue);
        let ghost prev1 = prev;
        if n - j >= 2 && w.symbols[j] == pair.0 && w.symbols[j + 1] == pair.1 {
            let next: Option<u32> = if n - j >= 3 {
                Some(w.symbols[j + 2])
            } else {
                None
            };
            let ghost b1 = bound@ + 4 * (c * (j - out@.len()));
            proof {
                assert(next == after_two(rest));
                assert(0 <= 4 * (c * (j - out@.len()))) by (nonlinear_arith)
                    requires
                        0 <= c,
                        out@.len() <= j,
                ;
                assert(4 * (c * (j - out@.len())) + 4 * c <= 4 * (c * s.len())) by (nonlinear_arith)
                    requires
                        0 <= c,
                        out@.len() <= j,
                        j + 1 <= s.len(),
                ;
            }
            record_merge(queue, prev, next, pair, new, count, Ghost(b1));
            let ghost before = out@;
            out.push(new);
            prev = Some(new);
            j += 2;
            proof {
                assert(rest.skip(2) =~= s.skip(j as int));
                assert(merge_pair(rest, pair, new) =~= seq![new] + merge_pair(
                    s.skip(j as int),
                    pair,
                    new,
                ));
                assert(out@ + merge_pair(s.skip(j as int), pair, new) =~= before + merge_pair(
                    rest,
                    pair,
                    new,
                ));
                assert(b1 + 4 * c == bound@ + 4 * (c * (j - out@.len()))) by (nonlinear_arith)
                    requires
                        b1 == bound@ + 4 * (c * (j - 2 - (out@.len() - 1))),
                ;
                let q2 = queue_counts(*queue);
                assert forall|p: Pair|
                    {
                        &&& (#[trigger] q2.contains_key(p) || word_touches(
                            prev,
                            s.skip(j as int),
                            pair,
                            new,
                            p,
                        )) == (q0.contains_key(p) || word_touches(None, s, pair, new, p))
                        &&& count_in(q2, p) == count_in(q0, p) + c * (word_change(
                            None,
                            s,
                            pair,
                            new,
                            p,
                        ) - word_change(prev, s.skip(j as int), pair, new, p))
                    } by {
                    assert(q1.contains_key(p) || !q1.contains_key(p));
                    assert(word_touches(prev1, rest, pair, new, p) == (merge_touches(
                        prev1,
                        next,
                        pair,
                        new,
                        p,
                    ) || word_touches(prev, s.skip(j as int), pair, new, p)));
                    let all = word_change(None, s, pair, new, p);
                    let was = word_change(prev1, rest, pair, new, p);
                    let now = word_change(prev, s.skip(j as int), pair, new, p);
                    let one = merge_change(prev1, next, pair, new, p);
                    assert(was == one + now);
                    assert(c * (all - was) + c * one == c * (all - now)) by (nonlinear_arith)
                        requires
                            was == one + now,
                    ;
                }
            }
        } else {
            let x: u32 = w.symbols[j];
            let ghost before = out@;
            out.push(x);
            prev = Some(x);
            j += 1;
            proof {
                assert(rest.skip(1) =~= s.skip(j as int));
                assert(rest[0] == x);
                if rest.len() >= 2 {
                    assert(rest[1] == s[j as int]);
                } else {
                    assert(s.skip(j as int) =~= Seq::<u32>::empty());
                    assert(rest =~= seq![x]);
                }
                assert(merge_pair(rest, pair, new) =~= seq![x] + merge_pair(
                    s.skip(j as int),
                    pair,
                    new,
                ));
                assert(out@ + merge_pair(s.skip(j as int), pair, new) =~= before + merge_pair(
                    rest,
                    pair,
                    new,
                ));
                assert(j - out@.len() == (j - 1) - before.len());
                assert forall|p: Pair|
                    {
                        &&& (#[trigger] q1.contains_key(p) || word_touches(
                            prev,
                            s.skip(j as int),
                            pair,
                            new,
                            p,
                        )) == (q0.contains_key(p) || word_touches(None, s, pair, new, p))
                        &&& count_in(q1, p) == count_in(q0, p) + c * (word_change(
                            None,
                            s,
                            pair,
                            new,
                            p,
                        ) - word_change(prev, s.skip(j as int), pair, new, p))
                    } by {
                    assert(q1.contains_key(p) || !q1.contains_key(p));
                    assert(word_touches(prev1, rest, pair, new, p) == word_touches(
                        prev,
                        s.skip(j as int),
                        pair,
                        new,
                        p,
                    ));
                    let all = word_change(None, s, pair, new, p);
                    let was = word_change(prev1, rest, pair, new, p);
                    let now = word_change(prev, s.skip(j as int), pair, new, p);
                    assert(was == now);
                    assert(c * (all - was) == c * (all - now));
                    assert(count_in(q1, p) == count_in(q0, p) + c * (all - was));
                }
            }
        }
    }
    proof {
        assert(s.skip(j as int) =~= Seq::<u32>::empty());
        assert(out@ =~= merge_pair(s, pair, new));
        assert forall|p: Pair|
            {
                &&& #[trigger] queue_counts(*queue).contains_key(p) == (q0.contains_key(p)
                    || word_touches(None, s, pair, new, p))
                &&& count_in(queue_counts(*queue), p) == count_in(q0, p) + c * word_change(
                    None,
                    s,
                    pair,
                    new,
                    p,
                )
            } by {
            assert(word_change(prev, s.skip(j as int), pair, new, p) == 0);
        }
    }
    w.symbols = out;
}

} // verus!
