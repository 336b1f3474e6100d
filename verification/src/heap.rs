//! A binary min-heap of packed merge candidates.
use vstd::multiset::Multiset;
use vstd::prelude::*;
use vstd::seq_lib::{
    to_multiset_build, to_multiset_contains, to_multiset_insert, to_multiset_len,
    to_multiset_remove,
};

verus! {

/// A min-heap of `u64` entries, stored level by level in one vector.
pub struct MinHeap {
    items: Vec<u64>,
}

/// Every entry but the root is at least its parent.
spec fn heap_ordered(s: Seq<u64>) -> bool {
    forall|i: int| 0 < i < s.len() ==> s[(i - 1) / 2] <= #[trigger] s[i]
}

/// `heap_ordered`, except that entry `hole` may be smaller than its parent;
/// the children of `hole` are ordered against its parent.
spec fn ordered_above(s: Seq<u64>, hole: int) -> bool {
    &&& forall|i: int| 0 < i < s.len() && i != hole ==> s[(i - 1) / 2] <= #[trigger] s[i]
    &&& forall|i: int|
        0 < i < s.len() && (i - 1) / 2 == hole && hole > 0 ==> s[(hole - 1) / 2] <= #[trigger] s[i]
}

/// `heap_ordered`, except that entry `hole` may be larger than its children;
/// the children of `hole` are ordered against its parent.
spec fn ordered_below(s: Seq<u64>, hole: int) -> bool {
    &&& forall|i: int|
        0 < i < s.len() && (i - 1) / 2 != hole ==> s[(i - 1) / 2] <= #[trigger] s[i]
    &&& forall|i: int|
        0 < i < s.len() && (i - 1) / 2 == hole && hole > 0 ==> s[(hole - 1) / 2] <= #[trigger] s[i]
}

/// The root of an ordered heap is a minimum.
proof fn lemma_root_is_min(s: Seq<u64>, i: int)
    requires
        heap_ordered(s),
        0 <= i < s.len(),
    ensures
        s[0] <= s[i],
    decreases i,
{
    if i > 0 {
        lemma_root_is_min(s, (i - 1) / 2);
    }
}

/// Overwriting one position exchanges one element of the multiset.
proof fn lemma_update_multiset(s: Seq<u64>, i: int, x: u64)
    requires
        0 <= i < s.len(),
    ensures
        s.update(i, x).to_multiset() == s.to_multiset().remove(s[i]).insert(x),
{
    assert(s.update(i, x) =~= s.remove(i).insert(i, x));
    to_multiset_remove(s, i);
    to_multiset_insert(s.remove(i), i, x);
}

/// Swapping two positions keeps the multiset.
proof fn lemma_swap_multiset(s: Seq<u64>, i: int, j: int)
    requires
        0 <= i < s.len(),
        0 <= j < s.len(),
        i != j,
    ensures
        s.update(i, s[j]).update(j, s[i]).to_multiset() == s.to_multiset(),
{
    lemma_update_multiset(s, i, s[j]);
    lemma_update_multiset(s.update(i, s[j]), j, s[i]);
    to_multiset_contains(s, s[i]);
    to_multiset_contains(s, s[j]);
    assert(s.contains(s[i]));
    assert(s.contains(s[j]));
    assert(s.update(i, s[j]).update(j, s[i]).to_multiset() =~= s.to_multiset());
}

impl MinHeap {
    /// The entries held, with their multiplicities.
    pub closed spec fn view(&self) -> Multiset<u64> {
        self.items@.to_multiset()
    }

    /// The heap order holds.
    pub closed spec fn wf(&self) -> bool {
        heap_ordered(self.items@)
    }

    /// An empty heap.
    pub fn new() -> (h: Self)
        ensures
            h.wf(),
            h@ == Multiset::<u64>::empty(),
    {
        let h = MinHeap { items: Vec::new() };
        proof {
            to_multiset_len(h.items@);
            assert(h@ =~= Multiset::<u64>::empty());
        }
        h
    }

    /// Drops all entries.
    pub fn clear(&mut self)
        ensures
            final(self).wf(),
            final(self)@ == Multiset::<u64>::empty(),
    {
        self.items.clear();
        proof {
            to_multiset_len(self.items@);
            assert(self.items@.to_multiset() =~= Multiset::<u64>::empty());
        }
    }

    /// Adds one entry.
    pub fn push(&mut self, x: u64)
        requires
            old(self).wf(),
        ensures
            final(self).wf(),
            final(self)@ == old(self)@.insert(x),
    {
        let ghost before = self.items@;
        self.items.push(x);
        proof {
            to_multiset_build(before, x);
        }
        let mut i: usize = self.items.len() - 1;
        while i > 0
            invariant_except_break
                i < self.items@.len(),
                ordered_above(self.items@, i as int),
                self.items@.to_multiset() == before.to_multiset().insert(x),
            ensures
                heap_ordered(self.items@),
                self.items@.to_multiset() == before.to_multiset().insert(x),
            decreases i,
        {
            let p: usize = (i - 1) / 2;
            let a: u64 = self.items[p];
            let b: u64 = self.items[i];
            if a <= b {
                break;
            }
            let ghost s = self.items@;
            self.items[p] = b;
            self.items[i] = a;
            proof {
                lemma_swap_multiset(s, p as int, i as int);
                assert(self.items@ =~= s.update(p as int, b).update(i as int, a));
                assert forall|k: int| 0 < k < self.items@.len() && k != p implies self.items@[(k
                    - 1) / 2] <= #[trigger] self.items@[k] by {
                    assert(s[(k - 1) / 2] <= s[k] || k == i);
                }
                assert forall|k: int|
                    0 < k < self.items@.len() && (k - 1) / 2 == p && p > 0 implies self.items@[(p
                    - 1) / 2] <= #[trigger] self.items@[k] by {
                    assert(s[(p - 1) / 2] <= s[p as int]);
                    assert(k == i || s[(k - 1) / 2] <= s[k]);
                }
            }
            i = p;
        }
    }

    /// Removes a smallest entry, or nothing from an empty heap.
    #[verifier::spinoff_prover]
    #[verifier::rlimit(60)]
    pub fn pop(&mut self) -> (r: Option<u64>)
        requires
            old(self).wf(),
        ensures
            final(self).wf(),
            match r {
                Some(x) => {
                    &&& old(self)@.contains(x)
                    &&& forall|y: u64| #[trigger] old(self)@.contains(y) ==> x <= y
                    &&& final(self)@ == old(self)@.remove(x)
                },
                None => old(self)@.len() == 0 && final(self)@ == old(self)@,
            },
    {
        let ghost before = self.items@;
        let n: usize = self.items.len();
        if n == 0 {
            proof {
                to_multiset_len(before);
            }
            return None;
        }
        let top: u64 = self.items[0];
        proof {
            assert forall|y: u64| #[trigger] before.to_multiset().contains(y) implies top <= y by {
                to_multiset_contains(before, y);
                let k = choose|k: int| 0 <= k < before.len() && before[k] == y;
                lemma_root_is_min(before, k);
            }
            to_multiset_contains(before, top);
            assert(before.contains(before[0]));
        }
        let last: u64 = self.items[n - 1];
        self.items.pop();
        proof {
            assert(before.drop_last() =~= before.remove(n - 1));
            to_multiset_remove(before, n - 1);
        }
        if n == 1 {
            return Some(top);
        }
        let ghost tail = self.items@;
        self.items[0] = last;
        let m: usize = n - 1;
        proof {
            lemma_update_multiset(tail, 0, last);
            assert(self.items@.to_multiset() =~= before.to_multiset().remove(top)) by {
                to_multiset_contains(before, last);
                assert(before.contains(before[n - 1]));
                to_multiset_contains(tail, top);
                assert(tail.contains(tail[0]));
            }
            assert(ordered_below(self.items@, 0)) by {
                assert forall|i: int| 0 < i < self.items@.len() && (i - 1) / 2 != 0 implies
                    self.items@[(i - 1) / 2] <= #[trigger] self.items@[i] by {
                    assert(before[(i - 1) / 2] <= before[i]);
                }
            }
        }
        let mut i: usize = 0;
        loop
            invariant_except_break
                i < m,
                m == self.items@.len(),
                m <= usize::MAX,
                n == m + 1,
                ordered_below(self.items@, i as int),
                self.items@.to_multiset() == before.to_multiset().remove(top),
            ensures
                heap_ordered(self.items@),
                self.items@.to_multiset() == before.to_multiset().remove(top),
            decreases m - i,
        {
            if i >= m / 2 {
                proof {
                    assert forall|k: int| 0 < k < self.items@.len() implies self.items@[(k - 1) / 2]
                        <= #[trigger] self.items@[k] by {
                        assert((k - 1) / 2 != i as int);
                    }
                }
                break;
            }
            let l: usize = 2 * i + 1;
            let mut c: usize = l;
            if l + 1 < m && self.items[l + 1] < self.items[l] {
                c = l + 1;
            }
            let a: u64 = self.items[i];
            let b: u64 = self.items[c];
            if a <= b {
                proof {
                    assert forall|k: int| 0 < k < self.items@.len() implies self.items@[(k - 1) / 2]
                        <= #[trigger] self.items@[k] by {
                        if (k - 1) / 2 == i as int {
                            assert(k == l || k == l + 1);
                        }
                    }
                }
                break;
            }
            let ghost s = self.items@;
            self.items[i] = b;
            self.items[c] = a;
            proof {
                lemma_swap_multiset(s, i as int, c as int);
                assert(self.items@ =~= s.update(i as int, b).update(c as int, a));
                assert forall|k: int| 0 < k < self.items@.len() && (k - 1) / 2 != c implies
                    self.items@[(k - 1) / 2] <= #[trigger] self.items@[k] by {
                    if (k - 1) / 2 == i as int {
                        assert(k == l || k == l + 1);
                    } else if k == i {
                        assert((c - 1) / 2 == i as int);
                        assert(s[(i - 1) / 2] <= s[c as int]);
                    } else {
                        assert(s[(k - 1) / 2] <= s[k]);
                    }
                }
                assert forall|k: int|
                    0 < k < self.items@.len() && (k - 1) / 2 == c && c > 0 implies self.items@[(c
                    - 1) / 2] <= #[trigger] self.items@[k] by {
                    assert(s[(k - 1) / 2] <= s[k]);
                    assert((c - 1) / 2 == i as int);
                }
            }
            i = c;
        }
        Some(top)
    }
}

} // verus!
