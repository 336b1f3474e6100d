//! Listings of a vocabulary and of its merge rules.
use crate::bpe::bytes::contents;
use crate::bpe::merge::{IdMerges, RankedMerges};
use crate::heap::MinHeap;
use crate::maps::map_entries;
use crate::search::copy_bytes;
use vstd::prelude::*;

verus! {

broadcast use vstd::std_specs::hash::group_hash_axioms;

/// The entries that have content, as pairs of position and bytes in order.
pub open spec fn vocab_listing(vocab: Seq<Seq<u8>>) -> Seq<(u32, Seq<u8>)>
    decreases vocab.len(),
{
    if vocab.len() == 0 {
        Seq::empty()
    } else if vocab.last().len() == 0 {
        vocab_listing(vocab.drop_last())
    } else {
        vocab_listing(vocab.drop_last()).push(((vocab.len() - 1) as u32, vocab.last()))
    }
}

/// The contents of a listing.
pub open spec fn listed_contents(v: Seq<(u32, Vec<u8>)>) -> Seq<(u32, Seq<u8>)> {
    v.map_values(|e: (u32, Vec<u8>)| (e.0, e.1@))
}

/// Vocabulary entries as `(id, bytes)` pairs in ID order, skipping IDs with
/// no content.
pub fn vocab_entries(vocab: &Vec<Vec<u8>>) -> (r: Vec<(u32, Vec<u8>)>)
    requires
        vocab@.len() <= u32::MAX,
    ensures
        listed_contents(r@) == vocab_listing(contents(vocab@)),
{
    let mut r: Vec<(u32, Vec<u8>)> = Vec::new();
    let ghost all = contents(vocab@);
    let mut i: usize = 0;
    proof {
        assert(all.take(0) =~= Seq::<Seq<u8>>::empty());
        assert(listed_contents(r@) =~= vocab_listing(all.take(0)));
    }
    while i < vocab.len()
        invariant
            i <= vocab@.len() <= u32::MAX,
            all == contents(vocab@),
            listed_contents(r@) == vocab_listing(all.take(i as int)),
        decreases vocab@.len() - i,
    {
        proof {
            assert(all.take(i + 1).drop_last() =~= all.take(i as int));
            assert(all.take(i + 1).last() == vocab@[i as int]@);
        }
        if vocab[i].len() > 0 {
            let ghost before = r@;
            r.push((i as u32, copy_bytes(vocab[i].as_slice())));
            proof {
                assert(listed_contents(r@) =~= listed_contents(before).push(
                    (i as u32, vocab@[i as int]@),
                ));
            }
        }
        i += 1;
    }
    proof {
        assert(all.take(i as int) =~= all);
    }
    r
}

/// `order` lists the positions of `ranks` once each, lower ranks first.
pub open spec fn is_rank_order(order: Seq<usize>, ranks: Seq<u32>) -> bool {
    &&& order.len() == ranks.len()
    &&& forall|i: int| 0 <= i < order.len() ==> (#[trigger] order[i]) < ranks.len()
    &&& forall|i: int, j: int|
        0 <= i < j < order.len() ==> (#[trigger] order[i]) != (#[trigger] order[j])
            && ranks[order[i] as int] <= ranks[order[j] as int]
}

/// The heap entry of a position.
spec fn rank_entry(ranks: Seq<u32>, i: int) -> u64 {
    (ranks[i] * 0x1_0000_0000 + i) as u64
}

/// The positions of `ranks`, lower ranks first.
pub fn rank_order(ranks: &Vec<u32>) -> (order: Vec<usize>)
    requires
        ranks@.len() <= u32::MAX,
    ensures
        is_rank_order(order@, ranks@),
{
    let n: usize = ranks.len();
    let mut heap = MinHeap::new();
    let mut i: usize = 0;
    while i < n
        invariant
            i <= n == ranks@.len() <= u32::MAX,
            heap.wf(),
            heap@.len() == i,
            forall|j: int| 0 <= j < n ==> heap@.count(#[trigger] rank_entry(ranks@, j)) == if j < i { 1nat } else { 0nat },
            forall|k: u64| #[trigger] heap@.contains(k) ==> k % 0x1_0000_0000 < n && rank_entry(ranks@, (k % 0x1_0000_0000) as int) == k,
        decreases n - i,
    {
        let k: u64 = ranks[i] as u64 * 0x1_0000_0000 + i as u64;
        proof {
            assert(k == rank_entry(ranks@, i as int));
            assert(k % 0x1_0000_0000 == i);
            assert forall|j: int| 0 <= j < n && j != i implies #[trigger] rank_entry(ranks@, j) != k by {
                assert(rank_entry(ranks@, j) % 0x1_0000_0000 == j);
            }
        }
        let ghost held = heap@;
        heap.push(k);
        proof {
            assert forall|q: u64| #[trigger] heap@.contains(q) implies q % 0x1_0000_0000 < n && rank_entry(
                ranks@,
                (q % 0x1_0000_0000) as int,
            ) == q by {
                assert(q == k || held.contains(q));
            }
        }
        i += 1;
    }
    let mut order: Vec<usize> = Vec::new();
    let ghost mut last: u64 = 0;
    while order.len() < n
        invariant
            n == ranks@.len() <= u32::MAX,
            heap.wf(),
            order@.len() <= n,
            heap@.len() + order@.len() == n,
            forall|j: int| 0 <= j < n ==> heap@.count(#[trigger] rank_entry(ranks@, j)) == if order@.contains(j as usize) { 0nat } else { 1nat },
            forall|k: u64| #[trigger] heap@.contains(k) ==> k % 0x1_0000_0000 < n && rank_entry(ranks@, (k % 0x1_0000_0000) as int) == k && last <= k,
            forall|i: int| 0 <= i < order@.len() ==> (#[trigger] order@[i]) < n && rank_entry(ranks@, order@[i] as int) <= last,
            forall|i: int, j: int| 0 <= i < j < order@.len() ==> (#[trigger] order@[i]) != (#[trigger] order@[j]) && ranks@[order@[i] as int] <= ranks@[order@[j] as int],
        decreases n - order@.len(),
    {
        let ghost held = heap@;
        match heap.pop() {
            None => {
                assert(false);
            },
            Some(k) => {
                let p: usize = (k % 0x1_0000_0000) as usize;
                let ghost before = order@;
                proof {
                    assert(!before.contains(p));
                    assert forall|i: int| 0 <= i < before.len() implies #[trigger] before[i] != p && ranks@[before[i] as int] <= ranks@[p as int] by {
                        assert(rank_entry(ranks@, before[i] as int) <= k);
                        assert(before.contains(before[i]));
                    }
                    assert forall|j: int| 0 <= j < n && j != p implies #[trigger] rank_entry(ranks@, j) != k by {
                        assert(rank_entry(ranks@, j) % 0x1_0000_0000 == j);
                    }
                    last = k;
                }
                order.push(p);
                proof {
                    assert forall|q: u64| #[trigger] heap@.contains(q) implies held.contains(q) by {
                        assert(heap@.count(q) <= held.count(q));
                    }
                    assert(order@[before.len() as int] == p);
                    assert forall|j: int| 0 <= j < n implies #[trigger] order@.contains(j as usize) == (before.contains(j as usize) || j == p) by {
                        if before.contains(j as usize) {
                            let c = choose|c: int| 0 <= c < before.len() && before[c] == j as usize;
                            assert(order@[c] == j as usize);
                        }
                    }
                }
            },
        }
    }
    order
}

/// The merge rules of a rank map: `keys` lists the pair keys once each, lower
/// ranks first.
pub open spec fn is_merge_order(keys: Seq<u64>, ranks: Map<u64, u32>) -> bool {
    &&& keys.len() == ranks.len()
    &&& forall|i: int| 0 <= i < keys.len() ==> ranks.contains_key(#[trigger] keys[i])
    &&& forall|k: u64| #[trigger] ranks.contains_key(k) ==> keys.contains(k)
    &&& forall|i: int, j: int|
        0 <= i < j < keys.len() ==> (#[trigger] keys[i]) != (#[trigger] keys[j]) && ranks[keys[i]]
            <= ranks[keys[j]]
}

/// The rank of each rule.
pub open spec fn ranks_of(m: Map<u64, (crate::token::TokenId, u32)>) -> Map<u64, u32> {
    m.map_values(|v: (crate::token::TokenId, u32)| v.1)
}

/// The rank of each rule whose rank is the merged symbol.
pub open spec fn ids_of(m: Map<u64, crate::token::TokenId>) -> Map<u64, u32> {
    m.map_values(|v: crate::token::TokenId| v.0)
}

/// Both parts of every rule lie in a vocabulary of `n` entries.
pub open spec fn parts_in_vocab(ranks: Map<u64, u32>, n: nat) -> bool {
    forall|k: u64| #[trigger] ranks.contains_key(k) ==> k / 0x1_0000_0000 < n && k % 0x1_0000_0000 < n
}

/// The listing `r` spells the rules of `ranks` in rank order.
pub open spec fn spells_merges(r: Seq<(Vec<u8>, Vec<u8>)>, keys: Seq<u64>, vocab: Seq<Seq<u8>>) -> bool {
    &&& r.len() == keys.len()
    &&& forall|i: int|
        0 <= i < r.len() ==> (#[trigger] r[i]).0@ == vocab[(keys[i] / 0x1_0000_0000) as int] && r[i].1@ == vocab[(
        keys[i] % 0x1_0000_0000) as int]
}

/// The byte pairs of the listed rules, lower ranks first.
fn spell_by_rank(
    keys: &Vec<u64>,
    ranks: &Vec<u32>,
    vocab: &Vec<Vec<u8>>,
    m: Ghost<Map<u64, u32>>,
) -> (r: Vec<(Vec<u8>, Vec<u8>)>)
    requires
        keys@.len() == ranks@.len() <= u32::MAX,
        keys@.len() == m@.len(),
        parts_in_vocab(m@, vocab@.len()),
        forall|i: int| 0 <= i < keys@.len() ==> m@.contains_key(#[trigger] keys@[i]) && m@[keys@[i]] == ranks@[i],
        forall|i: int, j: int| 0 <= i < j < keys@.len() ==> (#[trigger] keys@[i]) != (#[trigger] keys@[j]),
        forall|k: u64| #[trigger] m@.contains_key(k) ==> exists|i: int| 0 <= i < keys@.len() && #[trigger] keys@[i] == k,
    ensures
        exists|order: Seq<u64>| #[trigger]
            is_merge_order(order, m@) && spells_merges(r@, order, contents(vocab@)),
{
    let order = rank_order(ranks);
    let mut r: Vec<(Vec<u8>, Vec<u8>)> = Vec::new();
    let ghost sorted = Seq::new(order@.len(), |i: int| keys@[order@[i] as int]);
    let mut i: usize = 0;
    while i < order.len()
        invariant
            i <= order@.len(),
            r@.len() == i,
            keys@.len() == ranks@.len(),
            is_rank_order(order@, ranks@),
            parts_in_vocab(m@, vocab@.len()),
            forall|j: int| 0 <= j < keys@.len() ==> m@.contains_key(#[trigger] keys@[j]),
            sorted == Seq::new(order@.len(), |j: int| keys@[order@[j] as int]),
            forall|j: int|
                0 <= j < i ==> (#[trigger] r@[j]).0@ == contents(vocab@)[(sorted[j] / 0x1_0000_0000) as int] && r@[j].1@
                    == contents(vocab@)[(sorted[j] % 0x1_0000_0000) as int],
        decreases order@.len() - i,
    {
        let k: u64 = keys[order[i]];
        assert(m@.contains_key(k));
        let a: usize = (k / 0x1_0000_0000) as usize;
        let b: usize = (k % 0x1_0000_0000) as usize;
        r.push((copy_bytes(vocab[a].as_slice()), copy_bytes(vocab[b].as_slice())));
        i += 1;
    }
    proof {
        assert(is_merge_order(sorted, m@)) by {
            assert forall|k: u64| #[trigger] m@.contains_key(k) implies sorted.contains(k) by {
                let p = choose|p: int| 0 <= p < keys@.len() && #[trigger] keys@[p] == k;
                lemma_order_covers(order@, ranks@, p);
                let c = choose|c: int| 0 <= c < order@.len() && order@[c] == p as usize;
                assert(sorted[c] == k);
            }
        }
        assert(spells_merges(r@, sorted, contents(vocab@)));
    }
    r
}

/// A rank order lists every position.
proof fn lemma_order_covers(order: Seq<usize>, ranks: Seq<u32>, p: int)
    requires
        is_rank_order(order, ranks),
        0 <= p < ranks.len() <= u32::MAX,
    ensures
        order.contains(p as usize),
{
    let ints = order.map_values(|x: usize| x as int);
    assert(ints.no_duplicates()) by {
        assert forall|i: int, j: int| 0 <= i < ints.len() && 0 <= j < ints.len() && i != j implies ints[i] != ints[j] by {
            if i < j {
                assert(order[i] != order[j]);
            } else {
                assert(order[j] != order[i]);
            }
        }
    }
    let all = vstd::set_lib::set_int_range(0, ranks.len() as int);
    vstd::set_lib::lemma_int_range(0, ranks.len() as int);
    ints.unique_seq_to_set();
    vstd::seq_lib::seq_to_set_is_finite(ints);
    assert(ints.to_set().subset_of(all)) by {
        assert forall|x: int| ints.to_set().contains(x) implies all.contains(x) by {
            let i = choose|i: int| 0 <= i < ints.len() && ints[i] == x;
            assert(order[i] < ranks.len());
        }
    }
    vstd::set_lib::lemma_subset_equality(ints.to_set(), all);
    assert(all.contains(p));
    assert(ints.to_set().contains(p));
    let c = choose|c: int| 0 <= c < ints.len() && ints[c] == p;
    assert(order[c] == p as usize);
}

/// Merge rules of a ranked table as `(left, right)` byte pairs in rank order.
pub fn ranked_merge_entries(rm: &RankedMerges, vocab: &Vec<Vec<u8>>) -> (r: Vec<(Vec<u8>, Vec<u8>)>)
    requires
        rm@.len() <= u32::MAX,
        parts_in_vocab(ranks_of(rm@), vocab@.len()),
    ensures
        exists|keys: Seq<u64>| #[trigger]
            is_merge_order(keys, ranks_of(rm@)) && spells_merges(r@, keys, contents(vocab@)),
{
    let es = map_entries(rm);
    let mut keys: Vec<u64> = Vec::new();
    let mut ranks: Vec<u32> = Vec::new();
    let mut i: usize = 0;
    while i < es.len()
        invariant
            i <= es@.len(),
            keys@.len() == i,
            ranks@.len() == i,
            forall|j: int| 0 <= j < i ==> #[trigger] keys@[j] == es@[j].0,
            forall|j: int| 0 <= j < i ==> #[trigger] ranks@[j] == es@[j].1.1,
        decreases es@.len() - i,
    {
        keys.push(es[i].0);
        ranks.push(es[i].1.1);
        i += 1;
    }
    let ghost m = ranks_of(rm@);
    proof {
        assert(m.dom() =~= rm@.dom());
        assert forall|k: u64| #[trigger] m.contains_key(k) implies exists|i: int|
            0 <= i < keys@.len() && #[trigger] keys@[i] == k by {
            assert(rm@.contains_key(k));
            let i = choose|i: int| 0 <= i < es@.len() && (#[trigger] es@[i]).0 == k;
            assert(keys@[i] == k);
        }
        assert forall|i: int, j: int| 0 <= i < j < keys@.len() implies (#[trigger] keys@[i]) != (
        #[trigger] keys@[j]) by {
            assert(es@[i].0 != es@[j].0);
        }
        assert forall|i: int| 0 <= i < keys@.len() implies m.contains_key(#[trigger] keys@[i]) && m[keys@[i]] == ranks@[i] by {
            assert(rm@.contains_key(es@[i].0));
        }
    }
    spell_by_rank(&keys, &ranks, vocab, Ghost(m))
}

/// Merge rules of a table ranked by merged symbol, as `(left, right)` byte
/// pairs in rank order.
pub fn id_merge_entries(merges: &IdMerges, vocab: &Vec<Vec<u8>>) -> (r: Vec<(Vec<u8>, Vec<u8>)>)
    requires
        merges@.len() <= u32::MAX,
        parts_in_vocab(ids_of(merges@), vocab@.len()),
    ensures
        exists|keys: Seq<u64>| #[trigger]
            is_merge_order(keys, ids_of(merges@)) && spells_merges(r@, keys, contents(vocab@)),
{
    let es = map_entries(merges);
    let mut keys: Vec<u64> = Vec::new();
    let mut ranks: Vec<u32> = Vec::new();
    let mut i: usize = 0;
    while i < es.len()
        invariant
            i <= es@.len(),
            keys@.len() == i,
            ranks@.len() == i,
            forall|j: int| 0 <= j < i ==> #[trigger] keys@[j] == es@[j].0,
            forall|j: int| 0 <= j < i ==> #[trigger] ranks@[j] == es@[j].1.0,
        decreases es@.len() - i,
    {
        keys.push(es[i].0);
        ranks.push(es[i].1.0);
        i += 1;
    }
    let ghost m = ids_of(merges@);
    proof {
        assert(m.dom() =~= merges@.dom());
        assert forall|k: u64| #[trigger] m.contains_key(k) implies exists|i: int|
            0 <= i < keys@.len() && #[trigger] keys@[i] == k by {
            assert(merges@.contains_key(k));
            let i = choose|i: int| 0 <= i < es@.len() && (#[trigger] es@[i]).0 == k;
            assert(keys@[i] == k);
        }
        assert forall|i: int, j: int| 0 <= i < j < keys@.len() implies (#[trigger] keys@[i]) != (
        #[trigger] keys@[j]) by {
            assert(es@[i].0 != es@[j].0);
        }
        assert forall|i: int| 0 <= i < keys@.len() implies m.contains_key(#[trigger] keys@[i]) && m[keys@[i]] == ranks@[i] by {
            assert(merges@.contains_key(es@[i].0));
        }
    }
    spell_by_rank(&keys, &ranks, vocab, Ghost(m))
}

} // verus!
