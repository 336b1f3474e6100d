//! The merge loops: a linear scan for short sequences and a heap for long
//! ones, all computing [`bpe_merge`].
use crate::bpe::rules::{
    bpe_merge, is_best, is_final, lemma_final_unchanged, lemma_merge_step, merge_at, pair_rank,
    MergeRules, Rules, NO_MERGE,
};
use crate::heap::MinHeap;
use crate::token::TokenId;
use std::collections::HashMap;
use vstd::multiset::Multiset;
use vstd::prelude::*;

verus! {

broadcast use vstd::std_specs::hash::group_hash_axioms;

/// List end, and the link of a symbol that was merged away.
pub const NONE: u32 = u32::MAX;

/// Sequences up to this length use the linear-scan merge instead of the heap.
pub const SMALL_MERGE_MAX: usize = 32;

/// Symbol capacity of the short merge: short pretokens have at most 15
/// bytes, so at most 15 initial symbols.
pub const SHORT_MERGE_MAX: usize = 16;

/// A pair of symbols as one map key.
pub open spec fn merge_key(a: TokenId, b: TokenId) -> u64 {
    ((a.0 as u64) << 32) | b.0 as u64
}

/// Distinct pairs have distinct keys, and a key gives back its pair.
pub proof fn lemma_merge_key(a: TokenId, b: TokenId)
    ensures
        (merge_key(a, b) >> 32) as u32 == a.0,
        merge_key(a, b) as u32 == b.0,
{
    let x = a.0;
    let y = b.0;
    assert(((((x as u64) << 32) | y as u64) >> 32) as u32 == x) by (bit_vector);
    assert((((x as u64) << 32) | y as u64) as u32 == y) by (bit_vector);
}

/// Packs a pair of symbols into one `u64` map key.
pub fn ranked_merge_key(a: TokenId, b: TokenId) -> (k: u64)
    ensures
        k == merge_key(a, b),
{
    ((a.0 as u64) << 32) | b.0 as u64
}

/// Merge priorities by pair: [`ranked_merge_key`] to `(merged, rank)`.
pub type RankedMerges = HashMap<u64, (TokenId, u32)>;

/// Merges whose priority is the merged symbol's own index.
pub type IdMerges = HashMap<u64, TokenId>;

/// The rules of a ranked table.
pub open spec fn ranked_rules(m: Map<u64, (TokenId, u32)>) -> Rules {
    |a: TokenId, b: TokenId|
        if m.contains_key(merge_key(a, b)) {
            m[merge_key(a, b)]
        } else {
            (TokenId(0), NO_MERGE)
        }
}

/// The rules of a table whose ranks are the merged indices.
pub open spec fn id_rules(m: Map<u64, TokenId>) -> Rules {
    |a: TokenId, b: TokenId|
        if m.contains_key(merge_key(a, b)) {
            (m[merge_key(a, b)], m[merge_key(a, b)].0)
        } else {
            (TokenId(NO_MERGE), NO_MERGE)
        }
}

impl MergeRules for RankedMerges {
    open spec fn rules(&self) -> Rules {
        ranked_rules(self@)
    }

    fn get(&self, a: TokenId, b: TokenId) -> (r: (TokenId, u32)) {
        ranked_get(self, a, b)
    }
}

impl MergeRules for IdMerges {
    open spec fn rules(&self) -> Rules {
        id_rules(self@)
    }

    fn get(&self, a: TokenId, b: TokenId) -> (r: (TokenId, u32)) {
        match HashMap::get(self, &ranked_merge_key(a, b)) {
            Some(m) => (*m, m.0),
            None => (TokenId(NO_MERGE), NO_MERGE),
        }
    }
}

/// `(merged, rank)` for a pair, with rank [`NO_MERGE`] for no merge.
fn ranked_get(merges: &RankedMerges, a: TokenId, b: TokenId) -> (r: (TokenId, u32))
    ensures
        r == ranked_rules(merges@)(a, b),
{
    match HashMap::get(merges, &ranked_merge_key(a, b)) {
        Some(m) => *m,
        None => (TokenId(0), NO_MERGE),
    }
}

/// Reusable buffers of [`bpe_merge_symbols_with_scratch`].
pub struct MergeScratch {
    next: Vec<u32>,
    prev: Vec<u32>,
    heap: MinHeap,
}

impl MergeScratch {
    /// The buffers can be used: the heap is ordered.
    pub closed spec fn wf(&self) -> bool {
        self.heap.wf()
    }
}

impl Default for MergeScratch {
    fn default() -> (r: Self)
        ensures
            r.wf(),
    {
        MergeScratch { next: Vec::new(), prev: Vec::new(), heap: MinHeap::new() }
    }
}

/// A heap entry: the rank in the high half, the position in the low half.
spec fn entry(rank: u32, pos: u32) -> u64 {
    ((rank as u64) << 32) | pos as u64
}

/// Entries compare by rank first and by position second, and can be unpacked.
proof fn lemma_entry(r: u32, p: u32, s: u32, q: u32)
    ensures
        entry(r, p) <= entry(s, q) <==> r < s || (r == s && p <= q),
        (entry(r, p) >> 32) as u32 == r,
        (entry(r, p) & u32::MAX as u64) as u32 == p,
        entry(r, p) & u32::MAX as u64 == p as u64,
        entry(r, p) >> 32 == r as u64,
{
    assert(((((r as u64) << 32) | p as u64) <= (((s as u64) << 32) | q as u64)) <==> (r < s || (r
        == s && p <= q))) by (bit_vector);
    assert(((((r as u64) << 32) | p as u64) >> 32) == r as u64) by (bit_vector);
    assert(((((r as u64) << 32) | p as u64) & 0xffff_ffff) == p as u64) by (bit_vector);
}

/// Packs a heap entry: rank first, position as tie-break.
fn pack_merge_entry(rank: u32, pos: u32) -> (e: u64)
    ensures
        e == entry(rank, pos),
{
    ((rank as u64) << 32) | pos as u64
}

/// `act` lists the live positions of a doubly linked list over `n` slots.
spec fn chain(next: Seq<u32>, prev: Seq<u32>, act: Seq<int>, n: int) -> bool {
    &&& next.len() == n
    &&& prev.len() == n
    &&& 0 < act.len() <= n < NONE
    &&& act[0] == 0
    &&& forall|k: int| 0 <= k < act.len() ==> 0 <= #[trigger] act[k] < n
    &&& forall|j: int, k: int| 0 <= j < k < act.len() ==> #[trigger] act[j] < #[trigger] act[k]
    &&& forall|k: int|
        0 <= k < act.len() ==> #[trigger] next[act[k]] == (if k + 1 < act.len() {
            act[k + 1]
        } else {
            NONE as int
        })
    &&& forall|k: int|
        0 <= k < act.len() ==> #[trigger] prev[act[k]] == (if k > 0 {
            act[k - 1]
        } else {
            NONE as int
        })
}

/// The symbols at the live positions.
spec fn live(symbols: Seq<TokenId>, act: Seq<int>) -> Seq<TokenId> {
    Seq::new(act.len(), |k: int| symbols[act[k]])
}

/// Unlinking the right neighbour of live position `k`.
proof fn lemma_unlink(next: Seq<u32>, prev: Seq<u32>, act: Seq<int>, n: int, k: int)
    requires
        chain(next, prev, act, n),
        0 <= k < act.len() - 1,
    ensures
        ({
            let right = act[k + 1];
            let rr = next[right];
            let next2 = next.update(act[k], rr).update(right, NONE);
            let prev2 = if rr != NONE {
                prev.update(rr as int, act[k] as u32)
            } else {
                prev
            };
            chain(next2, prev2, act.remove(k + 1), n)
        }),
{
    let right = act[k + 1];
    let rr = next[right];
    let next2 = next.update(act[k], rr).update(right, NONE);
    let prev2 = if rr != NONE {
        prev.update(rr as int, act[k] as u32)
    } else {
        prev
    };
    let act2 = act.remove(k + 1);
    assert forall|j: int| 0 <= j < act2.len() implies 0 <= #[trigger] act2[j] < n by {
        assert(act2[j] == act[if j <= k { j } else { j + 1 }]);
    }
    assert forall|i: int, j: int| 0 <= i < j < act2.len() implies #[trigger] act2[i]
        < #[trigger] act2[j] by {
        assert(act2[i] == act[if i <= k { i } else { i + 1 }]);
        assert(act2[j] == act[if j <= k { j } else { j + 1 }]);
    }
    assert forall|j: int| 0 <= j < act2.len() implies #[trigger] next2[act2[j]] == (if j + 1
        < act2.len() {
        act2[j + 1]
    } else {
        NONE as int
    }) by {
        let jj = if j <= k { j } else { j + 1 };
        assert(act2[j] == act[jj]);
        assert(act[jj] != right);
        if j == k {
            assert(next[act[k + 1]] == rr);
        } else {
            assert(act[jj] != act[k]);
        }
    }
    assert forall|j: int| 0 <= j < act2.len() implies #[trigger] prev2[act2[j]] == (if j > 0 {
        act2[j - 1]
    } else {
        NONE as int
    }) by {
        let jj = if j <= k { j } else { j + 1 };
        assert(act2[j] == act[jj]);
        if k + 2 < act.len() {
            assert(next[act[k + 1]] == act[k + 2]);
            assert(jj != k + 2 ==> act[jj] != act[k + 2]);
        }
    }
}

/// The live symbols after writing the merged symbol and unlinking.
proof fn lemma_live_merge(
    rules: Rules,
    symbols: Seq<TokenId>,
    act: Seq<int>,
    k: int,
    m: TokenId,
    n: int,
)
    requires
        0 <= k < act.len() - 1,
        forall|k: int| 0 <= k < act.len() ==> 0 <= #[trigger] act[k] < n,
        forall|j: int, k: int| 0 <= j < k < act.len() ==> #[trigger] act[j] < #[trigger] act[k],
        symbols.len() >= n,
        m == rules(symbols[act[k]], symbols[act[k + 1]]).0,
    ensures
        live(symbols.update(act[k], m), act.remove(k + 1)) == merge_at(rules, live(symbols, act), k),
{
    let a = live(symbols.update(act[k], m), act.remove(k + 1));
    let b = merge_at(rules, live(symbols, act), k);
    assert forall|j: int| 0 <= j < a.len() implies a[j] == b[j] by {
        let jj = if j <= k { j } else { j + 1 };
        assert(act.remove(k + 1)[j] == act[jj]);
        if jj != k {
            assert(act[jj] != act[k]);
        }
    }
    assert(a =~= b);
}

/// Sets up the list links of `n` live positions.
fn init_links(next: &mut Vec<u32>, prev: &mut Vec<u32>, n: usize) -> (act: Ghost<Seq<int>>)
    requires
        0 < n < NONE,
    ensures
        chain(final(next)@, final(prev)@, act@, n as int),
        act@ == Seq::new(n as nat, |k: int| k),
{
    next.clear();
    prev.clear();
    let mut i: usize = 0;
    while i < n
        invariant
            i <= n,
            n < NONE,
            next@.len() == i,
            prev@.len() == i,
            forall|k: int|
                0 <= k < i ==> #[trigger] next@[k] == (if k + 1 < n {
                    k + 1
                } else {
                    NONE as int
                }),
            forall|k: int|
                0 <= k < i ==> #[trigger] prev@[k] == (if k > 0 {
                    k - 1
                } else {
                    NONE as int
                }),
        decreases n - i,
    {
        next.push(
            if i + 1 < n {
                (i + 1) as u32
            } else {
                NONE
            },
        );
        prev.push(
            if i > 0 {
                (i - 1) as u32
            } else {
                NONE
            },
        );
        i += 1;
    }
    Ghost(Seq::new(n as nat, |k: int| k))
}

/// Moves the live symbols to the front; their positions increase, so writes
/// never overtake reads.
fn compact(symbols: &mut [TokenId], next: &Vec<u32>, prev: Ghost<Seq<u32>>, act: Ghost<Seq<int>>) -> (len: usize)
    requires
        chain(next@, prev@, act@, old(symbols)@.len() as int),
    ensures
        len == act@.len(),
        len <= final(symbols)@.len() == old(symbols)@.len(),
        final(symbols)@.take(len as int) == live(old(symbols)@, act@),
{
    let ghost s0 = symbols@;
    let mut write: usize = 0;
    let mut i: usize = 0;
    loop
        invariant_except_break
            0 <= write < act@.len(),
            i == act@[write as int],
            chain(next@, prev@, act@, s0.len() as int),
            symbols@.len() == s0.len(),
            forall|k: int| write <= k < s0.len() ==> #[trigger] symbols@[k] == s0[k],
            forall|k: int| 0 <= k < write ==> #[trigger] symbols@[k] == s0[act@[k]],
        ensures
            write == act@.len(),
            write <= symbols@.len(),
            symbols@.len() == s0.len(),
            forall|k: int| 0 <= k < write ==> #[trigger] symbols@[k] == s0[act@[k]],
        decreases act@.len() - write,
    {
        proof {
            lemma_act_at_least(act@, write as int);
        }
        symbols[write] = symbols[i];
        write += 1;
        if next[i] == NONE {
            break;
        }
        i = next[i] as usize;
    }
    proof {
        assert(symbols@.take(write as int) =~= live(s0, act@));
    }
    write
}

/// In an increasing list of positions, the `k`-th is at least `k`.
proof fn lemma_act_at_least(act: Seq<int>, k: int)
    requires
        0 <= k < act.len(),
        act[0] == 0,
        forall|i: int, j: int| 0 <= i < j < act.len() ==> #[trigger] act[i] < #[trigger] act[j],
    ensures
        act[k] >= k,
    decreases k,
{
    if k > 0 {
        lemma_act_at_least(act, k - 1);
        assert(act[k - 1] < act[k]);
    }
}

/// Merges `symbols` in place by repeated linear scans for the best pair and
/// returns the surviving count: per-position ranks, the lowest rank (leftmost
/// among equals) merges, the two neighbouring ranks are refreshed.
#[verifier::spinoff_prover]
#[verifier::rlimit(40)]
fn merge_linear<R: MergeRules>(rules: &R, symbols: &mut [TokenId]) -> (len: usize)
    requires
        2 <= old(symbols)@.len() < NONE,
    ensures
        len <= final(symbols)@.len() == old(symbols)@.len(),
        final(symbols)@.take(len as int) == bpe_merge(rules.rules(), old(symbols)@),
{
    let ghost rs = rules.rules();
    let ghost s0 = symbols@;
    let n: usize = symbols.len();
    let mut next: Vec<u32> = Vec::new();
    let mut prev: Vec<u32> = Vec::new();
    let act0 = init_links(&mut next, &mut prev, n);
    let ghost mut act = act0@;
    // For the pair starting at live position i: its rank and merged symbol;
    // rank NO_MERGE = no merge, or merged away.
    let mut ranks: Vec<u32> = Vec::new();
    let mut merged: Vec<TokenId> = Vec::new();
    let mut i: usize = 0;
    while i < n
        invariant
            i <= n,
            n == s0.len(),
            symbols@ == s0,
            rs == rules.rules(),
            ranks@.len() == i,
            merged@.len() == i,
            forall|k: int|
                0 <= k < i && k < n - 1 ==> (merged@[k], #[trigger] ranks@[k]) == rs(
                    s0[k],
                    s0[k + 1],
                ),
            i == n ==> ranks@[n - 1] == NO_MERGE,
        decreases n - i,
    {
        if i + 1 < n {
            let (m, r) = rules.get(symbols[i], symbols[i + 1]);
            merged.push(m);
            ranks.push(r);
        } else {
            merged.push(TokenId(0));
            ranks.push(NO_MERGE);
        }
        i += 1;
    }
    proof {
        assert(live(s0, act) =~= s0);
    }
    loop
        invariant_except_break
            n == s0.len(),
            n >= 2,
            rs == rules.rules(),
            symbols@.len() == n,
            ranks@.len() == n,
            merged@.len() == n,
            chain(next@, prev@, act, n as int),
            forall|k: int|
                0 <= k < act.len() - 1 ==> (merged@[act[k]], #[trigger] ranks@[act[k]]) == rs(
                    symbols@[act[k]],
                    symbols@[act[k + 1]],
                ),
            ranks@[act[act.len() - 1]] == NO_MERGE,
            forall|j: int|
                0 <= j < n && #[trigger] ranks@[j] != NO_MERGE ==> act.contains(j),
            bpe_merge(rs, live(symbols@, act)) == bpe_merge(rs, s0),
        ensures
            n == s0.len(),
            symbols@.len() == n,
            chain(next@, prev@, act, n as int),
            live(symbols@, act) == bpe_merge(rs, s0),
        decreases act.len(),
    {
        let mut best: u32 = NO_MERGE;
        let mut best_i: usize = 0;
        let mut j: usize = 0;
        while j < n
            invariant
                j <= n,
                ranks@.len() == n,
                best_i < n,
                best != NO_MERGE ==> ranks@[best_i as int] == best,
                forall|k: int| 0 <= k < j ==> best <= #[trigger] ranks@[k],
                best != NO_MERGE ==> forall|k: int| 0 <= k < best_i ==> best < #[trigger] ranks@[k],
            decreases n - j,
        {
            if ranks[j] < best {
                best = ranks[j];
                best_i = j;
            }
            j += 1;
        }
        let ghost view = live(symbols@, act);
        if best == NO_MERGE {
            proof {
                assert forall|k: int| 0 <= k < view.len() - 1 implies #[trigger] pair_rank(
                    rs,
                    view,
                    k,
                ) == NO_MERGE by {
                    assert(ranks@[act[k]] == NO_MERGE);
                }
                assert(is_final(rs, view));
                lemma_final_unchanged(rs, view);
            }
            break;
        }
        let i: usize = best_i;
        let ghost k = choose|k: int| 0 <= k < act.len() && act[k] == i;
        proof {
            assert(act.contains(i as int));
            assert(k < act.len() - 1);
            assert(is_best(rs, view, k)) by {
                assert forall|q: int| 0 <= q < view.len() - 1 implies pair_rank(rs, view, k)
                    <= #[trigger] pair_rank(rs, view, q) by {
                    assert(ranks@[act[q]] >= best);
                }
                assert forall|q: int| 0 <= q < k implies pair_rank(rs, view, k)
                    < #[trigger] pair_rank(rs, view, q) by {
                    assert(act[q] < act[k]);
                    assert(ranks@[act[q]] > best);
                }
            }
            lemma_merge_step(rs, view, k);
            lemma_unlink(next@, prev@, act, n as int, k);
            lemma_live_merge(rs, symbols@, act, k, merged@[i as int], n as int);
            assert(next@[act[k]] == act[k + 1]);
        }
        let ghost act1 = act;
        let ghost ranks1 = ranks@;
        let ghost merged1 = merged@;
        let ghost symbols1 = symbols@;
        symbols[i] = merged[i];
        // Unlink the right element of the merged pair.
        let dead: usize = next[i] as usize;
        let new_right: u32 = next[dead];
        next[i] = new_right;
        next[dead] = NONE;
        ranks[dead] = NO_MERGE;
        if new_right != NONE {
            prev[new_right as usize] = i as u32;
        }
        proof {
            act = act1.remove(k + 1);
            assert(chain(next@, prev@, act, n as int));
            assert(act[k] == i);
            assert(live(symbols@, act) == merge_at(rs, view, k));
        }
        // Refresh the two pairs now touching the merged symbol.
        if new_right != NONE {
            let (m, r) = rules.get(symbols[i], symbols[new_right as usize]);
            merged[i] = m;
            ranks[i] = r;
        } else {
            ranks[i] = NO_MERGE;
        }
        let left: u32 = prev[i];
        if left != NONE {
            let (m, r) = rules.get(symbols[left as usize], symbols[i]);
            merged[left as usize] = m;
            ranks[left as usize] = r;
        }
        proof {
            assert(prev@[act[k]] == left);
            assert(next@[act[k]] == new_right);
            assert forall|q: int| 0 <= q < act.len() - 1 implies (
                merged@[act[q]],
                #[trigger] ranks@[act[q]],
            ) == rs(symbols@[act[q]], symbols@[act[q + 1]]) by {
                let qq = if q <= k { q } else { q + 1 };
                assert(act[q] == act1[qq]);
                if q == k {
                    assert(act[k + 1] == new_right);
                    if k > 0 {
                        assert(act[k - 1] < act[k]);
                    }
                } else if q == k - 1 {
                    assert(act[q] == left);
                } else {
                    assert(act1[qq] != act1[k]);
                    assert(act1[qq] != act1[k + 1]);
                    assert(act[q + 1] == act1[qq + 1]);
                    assert(act1[qq + 1] != act1[k]);
                    if k > 0 {
                        assert(act1[k - 1] == left);
                        assert(act1[qq] != act1[k - 1]);
                    }
                    assert(merged@[act[q]] == merged1[act1[qq]]);
                }
            }
            assert(ranks@[act[act.len() - 1]] == NO_MERGE) by {
                let q = act.len() - 1;
                let qq = if q <= k { q } else { q + 1 };
                assert(act[q] == act1[qq]);
                if q != k {
                    assert(act1[qq] != act1[k]);
                    assert(act1[qq] != act1[k + 1]);
                    if k > 0 {
                        assert(act[k - 1] < act[q]);
                    }
                } else if k > 0 {
                    assert(act[k - 1] < act[k]);
                }
            }
            assert forall|j: int| 0 <= j < n && #[trigger] ranks@[j] != NO_MERGE implies
                act.contains(j) by {
                if j == i {
                    assert(act[k] == j);
                } else if left != NONE && j == left {
                    assert(act[k - 1] == j);
                } else {
                    assert(ranks1[j] != NO_MERGE);
                    let q = choose|q: int| 0 <= q < act1.len() && act1[q] == j;
                    assert(q != k + 1);
                    assert(act[if q <= k { q } else { q - 1 }] == j);
                }
            }
        }
    }
    compact(symbols, &next, Ghost(prev@), Ghost(act))
}

/// A heap entry with a live-looking position and a real rank.
spec fn entry_ok(e: u64, n: int) -> bool {
    &&& (e & u32::MAX as u64) < n
    &&& (e >> 32) as u32 != NO_MERGE
    &&& e == entry((e >> 32) as u32, (e & u32::MAX as u64) as u32)
}

/// Every pair that merges has its entry in the heap.
spec fn covered(
    rules: Rules,
    symbols: Seq<TokenId>,
    act: Seq<int>,
    heap: Multiset<u64>,
) -> bool {
    forall|k: int|
        0 <= k < act.len() - 1 && #[trigger] pair_rank(rules, live(symbols, act), k) != NO_MERGE
            ==> heap.contains(entry(pair_rank(rules, live(symbols, act), k), act[k] as u32))
}

/// Every entry of the heap is well-formed.
spec fn all_ok(heap: Multiset<u64>, n: int) -> bool {
    forall|e: u64| #[trigger] heap.contains(e) ==> entry_ok(e, n)
}

/// Pushing a real candidate keeps the heap well-formed.
proof fn lemma_push_ok(heap: Multiset<u64>, n: int, rank: u32, pos: u32)
    requires
        all_ok(heap, n),
        pos < n,
        rank != NO_MERGE,
    ensures
        all_ok(heap.insert(entry(rank, pos)), n),
        heap.insert(entry(rank, pos)).contains(entry(rank, pos)),
        heap.insert(entry(rank, pos)).len() == heap.len() + 1,
        forall|x: u64| #[trigger] heap.contains(x) ==> heap.insert(entry(rank, pos)).contains(x),
{
    lemma_entry(rank, pos, rank, pos);
    let e = entry(rank, pos);
    assert forall|x: u64| #[trigger] heap.insert(e).contains(x) implies entry_ok(x, n) by {
        if x != e {
            assert(heap.contains(x));
        }
    }
}

/// Popping keeps the heap well-formed.
proof fn lemma_pop_ok(heap: Multiset<u64>, n: int, e: u64)
    requires
        all_ok(heap, n),
        heap.contains(e),
    ensures
        all_ok(heap.remove(e), n),
        entry_ok(e, n),
        heap.remove(e).len() == heap.len() - 1,
{
    assert forall|x: u64| #[trigger] heap.remove(e).contains(x) implies entry_ok(x, n) by {
        assert(heap.contains(x));
    }
}

/// Removing an entry that belongs to no live pair keeps the pairs covered.
proof fn lemma_drop_stale(
    rules: Rules,
    symbols: Seq<TokenId>,
    act: Seq<int>,
    heap: Multiset<u64>,
    rank: u32,
    pos: u32,
)
    requires
        covered(rules, symbols, act, heap),
        heap.contains(entry(rank, pos)),
        forall|k: int| 0 <= k < act.len() ==> 0 <= #[trigger] act[k] < NONE,
        forall|k: int|
            0 <= k < act.len() - 1 && #[trigger] act[k] == pos ==> pair_rank(
                rules,
                live(symbols, act),
                k,
            ) != rank,
    ensures
        covered(rules, symbols, act, heap.remove(entry(rank, pos))),
{
    let view = live(symbols, act);
    let e = entry(rank, pos);
    assert forall|q: int|
        0 <= q < act.len() - 1 && #[trigger] pair_rank(rules, view, q)
            != NO_MERGE implies heap.remove(e).contains(
        entry(pair_rank(rules, view, q), act[q] as u32),
    ) by {
        let x = entry(pair_rank(rules, view, q), act[q] as u32);
        assert(heap.contains(x));
        lemma_entry(pair_rank(rules, view, q), act[q] as u32, rank, pos);
        lemma_entry(rank, pos, rank, pos);
        assert(x != e);
    }
}

/// The lowest entry, when it matches its pair, is the pair to merge next.
proof fn lemma_lowest_is_best(
    rules: Rules,
    symbols: Seq<TokenId>,
    act: Seq<int>,
    heap: Multiset<u64>,
    k: int,
)
    requires
        covered(rules, symbols, act, heap),
        0 <= k < act.len() - 1,
        forall|k: int| 0 <= k < act.len() ==> 0 <= #[trigger] act[k] < NONE,
        forall|i: int, j: int| 0 <= i < j < act.len() ==> #[trigger] act[i] < #[trigger] act[j],
        pair_rank(rules, live(symbols, act), k) != NO_MERGE,
        forall|x: u64| #[trigger]
            heap.contains(x) ==> entry(pair_rank(rules, live(symbols, act), k), act[k] as u32) <= x,
    ensures
        is_best(rules, live(symbols, act), k),
{
    let view = live(symbols, act);
    let rank = pair_rank(rules, view, k);
    assert forall|q: int| 0 <= q < view.len() - 1 implies rank <= #[trigger] pair_rank(
        rules,
        view,
        q,
    ) by {
        if pair_rank(rules, view, q) != NO_MERGE {
            assert(heap.contains(entry(pair_rank(rules, view, q), act[q] as u32)));
            lemma_entry(rank, act[k] as u32, pair_rank(rules, view, q), act[q] as u32);
        }
    }
    assert forall|q: int| 0 <= q < k implies rank < #[trigger] pair_rank(rules, view, q) by {
        assert(act[q] < act[k]);
        if pair_rank(rules, view, q) != NO_MERGE {
            assert(heap.contains(entry(pair_rank(rules, view, q), act[q] as u32)));
            lemma_entry(rank, act[k] as u32, pair_rank(rules, view, q), act[q] as u32);
        }
    }
}

/// After the merge at `k` the pairs are covered once the two pairs that touch
/// the merged symbol are queued.
proof fn lemma_cover_after(
    rules: Rules,
    symbols: Seq<TokenId>,
    act: Seq<int>,
    heap: Multiset<u64>,
    k: int,
    symbols2: Seq<TokenId>,
    act2: Seq<int>,
    heap2: Multiset<u64>,
)
    requires
        covered(rules, symbols, act, heap),
        0 <= k < act.len() - 1,
        forall|k: int| 0 <= k < act.len() ==> 0 <= #[trigger] act[k] < NONE,
        forall|i: int, j: int| 0 <= i < j < act.len() ==> #[trigger] act[i] < #[trigger] act[j],
        act2 == act.remove(k + 1),
        live(symbols2, act2) == merge_at(rules, live(symbols, act), k),
        forall|x: u64| #[trigger]
            heap.contains(x) && x != entry(pair_rank(rules, live(symbols, act), k), act[k] as u32)
                ==> heap2.contains(x),
        k > 0 && pair_rank(rules, live(symbols2, act2), k - 1) != NO_MERGE ==> heap2.contains(
            entry(pair_rank(rules, live(symbols2, act2), k - 1), act2[k - 1] as u32),
        ),
        k < act2.len() - 1 && pair_rank(rules, live(symbols2, act2), k) != NO_MERGE
            ==> heap2.contains(entry(pair_rank(rules, live(symbols2, act2), k), act2[k] as u32)),
    ensures
        covered(rules, symbols2, act2, heap2),
{
    let view = live(symbols, act);
    let view2 = live(symbols2, act2);
    assert forall|q: int|
        0 <= q < act2.len() - 1 && #[trigger] pair_rank(rules, view2, q)
            != NO_MERGE implies heap2.contains(
        entry(pair_rank(rules, view2, q), act2[q] as u32),
    ) by {
        if q != k - 1 && q != k {
            lemma_pairs_after(rules, view, k, q);
            let qq = if q < k { q } else { q + 1 };
            assert(act2[q] == act[qq]);
            let x = entry(pair_rank(rules, view, qq), act[qq] as u32);
            assert(heap.contains(x));
            if qq < k {
                assert(act[qq] < act[k]);
            } else {
                assert(act[k] < act[qq]);
            }
            let r = pair_rank(rules, view, k);
            lemma_entry(pair_rank(rules, view, qq), act[qq] as u32, r, act[k] as u32);
            lemma_entry(r, act[k] as u32, r, act[k] as u32);
            assert(x != entry(r, act[k] as u32));
        }
    }
}

/// The pairs of a sequence after the merge at `k`, seen from before it.
proof fn lemma_pairs_after(rules: Rules, s: Seq<TokenId>, k: int, q: int)
    requires
        0 <= k < s.len() - 1,
        0 <= q < s.len() - 2,
        q != k,
        q != k - 1,
    ensures
        pair_rank(rules, merge_at(rules, s, k), q) == pair_rank(
            rules,
            s,
            if q < k {
                q
            } else {
                q + 1
            },
        ),
{
}

/// With no entry left no pair merges.
proof fn lemma_empty_is_final(
    rules: Rules,
    symbols: Seq<TokenId>,
    act: Seq<int>,
    heap: Multiset<u64>,
)
    requires
        covered(rules, symbols, act, heap),
        heap.len() == 0,
    ensures
        bpe_merge(rules, live(symbols, act)) == live(symbols, act),
{
    let view = live(symbols, act);
    assert forall|k: int| 0 <= k < view.len() - 1 implies #[trigger] pair_rank(rules, view, k)
        == NO_MERGE by {
        if pair_rank(rules, view, k) != NO_MERGE {
            let x = entry(pair_rank(rules, view, k), act[k] as u32);
            assert(heap.contains(x));
            assert(heap.count(x) <= 0);
        }
    }
    lemma_final_unchanged(rules, view);
}

/// Only live positions keep a link to a right neighbour.
proof fn lemma_links_live(next: Seq<u32>, next2: Seq<u32>, act: Seq<int>, k: int, n: int)
    requires
        next.len() == n,
        0 <= k < act.len() - 1,
        forall|j: int| 0 <= j < n && #[trigger] next[j] != NONE ==> act.contains(j),
        forall|k: int| 0 <= k < act.len() ==> 0 <= #[trigger] act[k] < n,
        next2 == next.update(act[k], next[act[k + 1]]).update(act[k + 1], NONE),
    ensures
        forall|j: int|
            0 <= j < n && #[trigger] next2[j] != NONE ==> act.remove(k + 1).contains(j),
{
    let act2 = act.remove(k + 1);
    assert forall|j: int| 0 <= j < n && #[trigger] next2[j] != NONE implies act2.contains(j) by {
        if j == act[k] {
            assert(act2[k] == j);
        } else {
            assert(next[j] != NONE);
            let q = choose|q: int| 0 <= q < act.len() && act[q] == j;
            assert(q != k + 1);
            assert(act2[if q <= k { q } else { q - 1 }] == j);
        }
    }
}

/// Min-heap and doubly-linked-list merge: pops the lowest entry, skips it when
/// an earlier merge made it stale, merges otherwise and queues the two pairs
/// that now touch the merged symbol.
#[verifier::spinoff_prover]
#[verifier::rlimit(40)]
pub fn bpe_merge_symbols_heap<R: MergeRules>(
    rules: &R,
    symbols: &mut Vec<TokenId>,
    scratch: &mut MergeScratch,
)
    requires
        2 <= old(symbols)@.len() < NONE,
        old(scratch).wf(),
    ensures
        final(symbols)@ == bpe_merge(rules.rules(), old(symbols)@),
        final(scratch).wf(),
{
    let ghost rs = rules.rules();
    let ghost s0 = symbols@;
    let n: usize = symbols.len();
    let act0 = init_links(&mut scratch.next, &mut scratch.prev, n);
    let ghost mut act = act0@;
    scratch.heap.clear();
    proof {
        assert(live(s0, act) =~= s0);
    }
    let mut i: usize = 0;
    while i < n - 1
        invariant
            i <= n - 1,
            n == s0.len(),
            2 <= n < NONE,
            symbols@ == s0,
            rs == rules.rules(),
            act == Seq::new(n as nat, |k: int| k),
            live(s0, act) == s0,
            chain(scratch.next@, scratch.prev@, act, n as int),
            scratch.heap.wf(),
            all_ok(scratch.heap@, n as int),
            forall|k: int|
                0 <= k < i && #[trigger] pair_rank(rs, s0, k) != NO_MERGE
                    ==> scratch.heap@.contains(entry(pair_rank(rs, s0, k), k as u32)),
        decreases n - i,
    {
        let (_, rank) = rules.get(symbols[i], symbols[i + 1]);
        if rank != NO_MERGE {
            proof {
                lemma_push_ok(scratch.heap@, n as int, rank, i as u32);
            }
            scratch.heap.push(pack_merge_entry(rank, i as u32));
        }
        i += 1;
    }
    proof {
        assert(covered(rs, symbols@, act, scratch.heap@));
        assert forall|j: int| 0 <= j < n && #[trigger] scratch.next@[j] != NONE implies
            act.contains(j) by {
            assert(act[j] == j);
        }
    }
    loop
        invariant_except_break
            n == s0.len(),
            2 <= n < NONE,
            rs == rules.rules(),
            symbols@.len() == n,
            chain(scratch.next@, scratch.prev@, act, n as int),
            forall|j: int|
                0 <= j < n && #[trigger] scratch.next@[j] != NONE ==> act.contains(j),
            scratch.heap.wf(),
            all_ok(scratch.heap@, n as int),
            covered(rs, symbols@, act, scratch.heap@),
            bpe_merge(rs, live(symbols@, act)) == bpe_merge(rs, s0),
        ensures
            n == s0.len(),
            symbols@.len() == n,
            chain(scratch.next@, scratch.prev@, act, n as int),
            scratch.heap.wf(),
            live(symbols@, act) == bpe_merge(rs, s0),
        decreases 3 * act.len() + scratch.heap@.len(),
    {
        let ghost heap1 = scratch.heap@;
        let ghost view = live(symbols@, act);
        let popped = scratch.heap.pop();
        if popped.is_none() {
            proof {
                lemma_empty_is_final(rs, symbols@, act, heap1);
            }
            break;
        }
        let e: u64 = popped.unwrap();
        let pos: usize = (e & u32::MAX as u64) as usize;
        let expected_rank: u32 = (e >> 32) as u32;
        proof {
            lemma_pop_ok(heap1, n as int, e);
            lemma_entry(expected_rank, pos as u32, expected_rank, pos as u32);
            assert(e == entry(expected_rank, pos as u32));
        }
        let right32: u32 = scratch.next[pos];
        let ghost k = choose|k: int| 0 <= k < act.len() && act[k] == pos;
        if right32 == NONE {
            proof {
                assert forall|q: int|
                    0 <= q < act.len() - 1 && #[trigger] act[q] == pos implies pair_rank(
                    rs,
                    view,
                    q,
                ) != expected_rank by {
                    assert(scratch.next@[act[q]] == act[q + 1]);
                }
                lemma_drop_stale(rs, symbols@, act, heap1, expected_rank, pos as u32);
            }
            continue;
        }
        proof {
            assert(act.contains(pos as int));
            assert(scratch.next@[act[k]] == right32);
        }
        let right: usize = right32 as usize;
        // Stale entries (invalidated by an earlier merge) no longer match.
        let (merged, rank) = rules.get(symbols[pos], symbols[right]);
        if rank != expected_rank {
            proof {
                assert forall|q: int|
                    0 <= q < act.len() - 1 && #[trigger] act[q] == pos implies pair_rank(
                    rs,
                    view,
                    q,
                ) != expected_rank by {
                    if q < k {
                        assert(act[q] < act[k]);
                    } else if k < q {
                        assert(act[k] < act[q]);
                    }
                }
                lemma_drop_stale(rs, symbols@, act, heap1, expected_rank, pos as u32);
            }
            continue;
        }
        proof {
            assert(pair_rank(rs, view, k) == rank);
            lemma_lowest_is_best(rs, symbols@, act, heap1, k);
            lemma_merge_step(rs, view, k);
            lemma_unlink(scratch.next@, scratch.prev@, act, n as int, k);
            lemma_live_merge(rs, symbols@, act, k, merged, n as int);
        }
        let ghost act1 = act;
        let ghost symbols1 = symbols@;
        let ghost next1 = scratch.next@;
        let ghost heap2 = scratch.heap@;
        symbols[pos] = merged;
        let right_right: u32 = scratch.next[right];
        scratch.next[pos] = right_right;
        if right_right != NONE {
            scratch.prev[right_right as usize] = pos as u32;
        }
        // Invalidates any stale heap entries at `right`.
        scratch.next[right] = NONE;
        proof {
            act = act1.remove(k + 1);
            assert(chain(scratch.next@, scratch.prev@, act, n as int));
            assert(act[k] == pos);
            assert(live(symbols@, act) == merge_at(rs, view, k));
            lemma_links_live(next1, scratch.next@, act1, k, n as int);
        }
        let ghost view2 = live(symbols@, act);
        let left: u32 = scratch.prev[pos];
        proof {
            assert(scratch.prev@[act[k]] == left);
            assert(scratch.next@[act[k]] == right_right);
        }
        if left != NONE {
            proof {
                assert(act[k - 1] == left);
            }
            let (_, rank2) = rules.get(symbols[left as usize], symbols[pos]);
            if rank2 != NO_MERGE {
                proof {
                    lemma_push_ok(scratch.heap@, n as int, rank2, left);
                }
                scratch.heap.push(pack_merge_entry(rank2, left));
            }
            proof {
                assert(rank2 == pair_rank(rs, view2, k - 1));
            }
        }
        let ghost heap3 = scratch.heap@;
        if scratch.next[pos] != NONE {
            let nr: usize = scratch.next[pos] as usize;
            let (_, rank2) = rules.get(symbols[pos], symbols[nr]);
            if rank2 != NO_MERGE {
                proof {
                    lemma_push_ok(scratch.heap@, n as int, rank2, pos as u32);
                }
                scratch.heap.push(pack_merge_entry(rank2, pos as u32));
            }
            proof {
                assert(act[k + 1] == nr);
                assert(rank2 == pair_rank(rs, view2, k));
            }
        }
        proof {
            assert forall|x: u64| #[trigger] heap1.contains(x) && x != e implies scratch.heap@.contains(
                x,
            ) by {
                assert(heap2.contains(x));
                assert(heap3.contains(x));
            }
            lemma_cover_after(rs, symbols1, act1, heap1, k, symbols@, act, scratch.heap@);
        }
    }
    let len: usize = compact(symbols.as_mut_slice(), &scratch.next, Ghost(scratch.prev@), Ghost(act));
    symbols.truncate(len);
    proof {
        assert(symbols@ =~= bpe_merge(rs, s0));
    }
}

/// Linear-scan merge of a short sequence.
pub fn bpe_merge_symbols_small<R: MergeRules>(rules: &R, symbols: &mut Vec<TokenId>)
    requires
        2 <= old(symbols)@.len() <= SMALL_MERGE_MAX,
    ensures
        final(symbols)@ == bpe_merge(rules.rules(), old(symbols)@),
{
    let len: usize = merge_linear(rules, symbols.as_mut_slice());
    symbols.truncate(len);
}

/// Linear-scan merge of the first `n` symbols of a caller-owned array;
/// returns the merged length.
pub fn bpe_merge_symbols_short_scalar<R: MergeRules>(
    rules: &R,
    symbols: &mut [TokenId; SHORT_MERGE_MAX],
    n: usize,
) -> (len: usize)
    requires
        2 <= n < SHORT_MERGE_MAX,
    ensures
        len <= n,
        final(symbols)@.take(len as int) == bpe_merge(rules.rules(), old(symbols)@.take(n as int)),
        final(symbols)@.skip(n as int) == old(symbols)@.skip(n as int),
{
    let whole: &mut [TokenId] = symbols;
    let (head, _tail) = whole.split_at_mut(n);
    let len: usize = merge_linear(rules, head);
    len
}

/// Merges `symbols` in place by explicit ranks and returns the surviving
/// count.
pub fn bpe_merge_symbols_ranked_slice(merges: &RankedMerges, symbols: &mut [TokenId]) -> (len: usize)
    requires
        2 <= old(symbols)@.len() <= SMALL_MERGE_MAX,
    ensures
        len <= final(symbols)@.len() == old(symbols)@.len(),
        final(symbols)@.take(len as int) == bpe_merge(ranked_rules(merges@), old(symbols)@),
{
    merge_linear(merges, symbols)
}

/// Sequences of at most one symbol have nothing to merge.
proof fn lemma_short_final(rules: Rules, s: Seq<TokenId>)
    requires
        s.len() < 2,
    ensures
        bpe_merge(rules, s) == s,
{
    assert(is_final(rules, s));
    lemma_final_unchanged(rules, s);
}

/// Merges in place, one scan per merge. For sequences too long for 32-bit
/// links.
fn merge_in_place<R: MergeRules>(rules: &R, symbols: &mut Vec<TokenId>)
    ensures
        final(symbols)@ == bpe_merge(rules.rules(), old(symbols)@),
{
    let ghost f = rules.rules();
    let ghost s0 = symbols@;
    let mut more = true;
    while more
        invariant
            f == rules.rules(),
            bpe_merge(f, symbols@) == bpe_merge(f, s0),
            !more ==> is_final(f, symbols@),
        decreases symbols@.len(), if more { 1int } else { 0int },
    {
        let n: usize = symbols.len();
        let mut best: usize = 0;
        let mut best_rank: u32 = NO_MERGE;
        let mut best_id = TokenId(0);
        let mut i: usize = 0;
        while n >= 2 && i < n - 1
            invariant
                f == rules.rules(),
                n == symbols@.len(),
                n >= 2 ==> i <= n - 1,
                n < 2 ==> i == 0,
                best_rank != NO_MERGE ==> best < i && (best_id, best_rank) == f(
                    symbols@[best as int],
                    symbols@[best + 1],
                ),
                forall|j: int| 0 <= j < i ==> best_rank <= #[trigger] pair_rank(f, symbols@, j),
                best_rank != NO_MERGE ==> forall|j: int|
                    0 <= j < best ==> best_rank < #[trigger] pair_rank(f, symbols@, j),
            decreases n - i,
        {
            let (id, rank) = rules.get(symbols[i], symbols[i + 1]);
            if rank < best_rank {
                best = i;
                best_rank = rank;
                best_id = id;
            }
            i += 1;
        }
        if best_rank == NO_MERGE {
            more = false;
        } else {
            proof {
                assert(pair_rank(f, symbols@, best as int) == best_rank);
                assert(is_best(f, symbols@, best as int));
                lemma_merge_step(f, symbols@, best as int);
            }
            symbols[best] = best_id;
            symbols.remove(best + 1);
        }
    }
    proof {
        lemma_final_unchanged(f, symbols@);
    }
}

/// Merge by any table, dispatching on size: the linear scan up to
/// [`SMALL_MERGE_MAX`] symbols, the heap above.
pub fn bpe_merge_symbols_by_rank<R: MergeRules>(
    rules: &R,
    symbols: &mut Vec<TokenId>,
    scratch: &mut MergeScratch,
)
    requires
        old(scratch).wf(),
    ensures
        final(symbols)@ == bpe_merge(rules.rules(), old(symbols)@),
        final(scratch).wf(),
{
    let n: usize = symbols.len();
    if n < 2 {
        proof {
            lemma_short_final(rules.rules(), symbols@);
        }
        return;
    }
    if n <= SMALL_MERGE_MAX {
        bpe_merge_symbols_small(rules, symbols);
        return;
    }
    if n >= NONE as usize {
        merge_in_place(rules, symbols);
        return;
    }
    bpe_merge_symbols_heap(rules, symbols, scratch);
}

/// Applies BPE merges to a symbol sequence; the priority is the merged
/// symbol's index (lower first).
pub fn bpe_merge_symbols(merges: &IdMerges, symbols: &mut Vec<TokenId>)
    ensures
        final(symbols)@ == bpe_merge(id_rules(merges@), old(symbols)@),
{
    let mut scratch = MergeScratch::default();
    bpe_merge_symbols_with_scratch(merges, symbols, &mut scratch);
}

/// [`bpe_merge_symbols`] with caller-provided buffers.
pub fn bpe_merge_symbols_with_scratch(
    merges: &IdMerges,
    symbols: &mut Vec<TokenId>,
    scratch: &mut MergeScratch,
)
    requires
        old(scratch).wf(),
    ensures
        final(symbols)@ == bpe_merge(id_rules(merges@), old(symbols)@),
        final(scratch).wf(),
{
    bpe_merge_symbols_by_rank(merges, symbols, scratch);
}

/// Applies BPE merges with explicit ranks (lower rank first).
pub fn bpe_merge_symbols_ranked(merges: &RankedMerges, symbols: &mut Vec<TokenId>)
    ensures
        final(symbols)@ == bpe_merge(ranked_rules(merges@), old(symbols)@),
{
    let n: usize = symbols.len();
    if n < 2 {
        proof {
            lemma_short_final(ranked_rules(merges@), symbols@);
        }
        return;
    }
    if n <= SMALL_MERGE_MAX {
        let len: usize = bpe_merge_symbols_ranked_slice(merges, symbols.as_mut_slice());
        symbols.truncate(len);
        return;
    }
    if n >= NONE as usize {
        merge_in_place(merges, symbols);
        return;
    }
    let mut scratch = MergeScratch::default();
    bpe_merge_symbols_heap(merges, symbols, &mut scratch);
}

/// A table whose explicit ranks are its merged indices merges exactly like
/// the same table without ranks.
pub proof fn law_ranked_by_id_agrees(
    ids: Map<u64, TokenId>,
    ranked: Map<u64, (TokenId, u32)>,
    s: Seq<TokenId>,
)
    requires
        forall|k: u64| #[trigger] ranked.contains_key(k) <==> ids.contains_key(k),
        forall|k: u64| #[trigger] ids.contains_key(k) ==> ranked[k] == (ids[k], ids[k].0),
    ensures
        bpe_merge(id_rules(ids), s) == bpe_merge(ranked_rules(ranked), s),
    decreases s.len(),
{
    let f = id_rules(ids);
    let g = ranked_rules(ranked);
    lemma_rules_agree(f, g, s);
}

/// Rules that give the same ranks, and the same symbol wherever a pair
/// merges, merge every sequence alike.
pub proof fn lemma_rules_agree(f: Rules, g: Rules, s: Seq<TokenId>)
    requires
        forall|a: TokenId, b: TokenId| (#[trigger] f(a, b)).1 == g(a, b).1,
        forall|a: TokenId, b: TokenId|
            (#[trigger] f(a, b)).1 != NO_MERGE ==> f(a, b).0 == g(a, b).0,
    ensures
        bpe_merge(f, s) == bpe_merge(g, s),
    decreases s.len(),
{
    assert forall|i: int| 0 <= i < s.len() - 1 implies #[trigger] pair_rank(f, s, i) == pair_rank(
        g,
        s,
        i,
    ) by {
        assert(f(s[i], s[i + 1]).1 == g(s[i], s[i + 1]).1);
    }
    assert forall|i: int| #[trigger] is_best(f, s, i) == is_best(g, s, i) by {
        if is_best(f, s, i) {
            assert forall|j: int| 0 <= j < s.len() - 1 implies pair_rank(g, s, i)
                <= #[trigger] pair_rank(g, s, j) by {
                assert(pair_rank(f, s, i) <= pair_rank(f, s, j));
            }
            assert forall|j: int| 0 <= j < i implies pair_rank(g, s, i) < #[trigger] pair_rank(
                g,
                s,
                j,
            ) by {
                assert(pair_rank(f, s, i) < pair_rank(f, s, j));
            }
        }
        if is_best(g, s, i) {
            assert forall|j: int| 0 <= j < s.len() - 1 implies pair_rank(f, s, i)
                <= #[trigger] pair_rank(f, s, j) by {
                assert(pair_rank(g, s, i) <= pair_rank(g, s, j));
            }
            assert forall|j: int| 0 <= j < i implies pair_rank(f, s, i) < #[trigger] pair_rank(
                f,
                s,
                j,
            ) by {
                assert(pair_rank(g, s, i) < pair_rank(g, s, j));
            }
        }
    }
    if exists|i: int| is_best(f, s, i) {
        let k = choose|k: int| is_best(f, s, k);
        assert(is_best(g, s, k));
        lemma_merge_step(f, s, k);
        lemma_merge_step(g, s, k);
        assert(f(s[k], s[k + 1]).1 != NO_MERGE);
        assert(merge_at(f, s, k) == merge_at(g, s, k));
        lemma_rules_agree(f, g, merge_at(f, s, k));
    } else {
        assert forall|i: int| !is_best(g, s, i) by {
            assert(!is_best(f, s, i));
        }
    }
}

} // verus!
