//! A map keyed by byte strings.
use crate::search::{bytes_equal, copy_bytes};
use std::collections::HashMap;
use vstd::prelude::*;

verus! {

broadcast use vstd::std_specs::hash::group_hash_axioms;

/// The hash of a byte string: each byte is mixed in by one multiplication.
pub open spec fn bytes_hash(s: Seq<u8>) -> u64
    decreases s.len(),
{
    if s.len() == 0 {
        0xCBF2_9CE4_8422_2325
    } else {
        (bytes_hash(s.drop_last()) ^ (s.last() as u64)).wrapping_mul(0x0000_0100_0000_01B3)
    }
}

/// Hashes a byte string.
fn hash_bytes(bytes: &[u8]) -> (h: u64)
    ensures
        h == bytes_hash(bytes@),
{
    let mut h: u64 = 0xCBF2_9CE4_8422_2325;
    let mut i: usize = 0;
    proof {
        assert(bytes@.take(0) =~= Seq::<u8>::empty());
    }
    while i < bytes.len()
        invariant
            i <= bytes@.len(),
            h == bytes_hash(bytes@.take(i as int)),
        decreases bytes@.len() - i,
    {
        proof {
            assert(bytes@.take(i + 1).drop_last() =~= bytes@.take(i as int));
        }
        h = (h ^ (bytes[i] as u64)).wrapping_mul(0x0000_0100_0000_01B3);
        i += 1;
    }
    proof {
        assert(bytes@.take(i as int) =~= bytes@);
    }
    h
}

/// `std::collections::HashMap::capacity`. How much was allocated is left open.
#[verifier::external_body]
fn index_capacity(m: &HashMap<u64, Vec<usize>>) -> usize {
    m.capacity()
}

/// A hash map from byte strings to small values: the entries in the order of
/// their first insertion, and for each hash the entries that have it.
pub struct BytesMap<V: Copy> {
    keys: Vec<Vec<u8>>,
    values: Vec<V>,
    index: HashMap<u64, Vec<usize>>,
}

/// Entry `i` is listed under its hash.
spec fn listed(keys: Seq<Vec<u8>>, index: Map<u64, Vec<usize>>, i: int) -> bool {
    let h = bytes_hash(keys[i]@);
    index.contains_key(h) && exists|c: int|
        0 <= c < index[h]@.len() && (#[trigger] index[h]@[c]) as int == i
}

/// `es` lists every entry of `m` once.
pub open spec fn lists_entries<V>(es: Seq<(Vec<u8>, V)>, m: Map<Seq<u8>, V>) -> bool {
    &&& forall|i: int|
        0 <= i < es.len() ==> m.contains_key((#[trigger] es[i]).0@) && m[es[i].0@] == es[i].1
    &&& forall|i: int, j: int|
        0 <= i < j < es.len() ==> (#[trigger] es[i]).0@ != (#[trigger] es[j]).0@
    &&& forall|k: Seq<u8>| #[trigger]
        m.contains_key(k) ==> exists|i: int| 0 <= i < es.len() && (#[trigger] es[i]).0@ == k
}

impl<V: Copy> BytesMap<V> {
    /// What the map holds.
    pub closed spec fn view(&self) -> Map<Seq<u8>, V> {
        Map::new(
            |k: Seq<u8>| exists|i: int| 0 <= i < self.keys@.len() && #[trigger] self.keys@[i]@ == k,
            |k: Seq<u8>| self.values@[choose|i: int| 0 <= i < self.keys@.len() && #[trigger] self.keys@[i]@ == k],
        )
    }

    #[verifier::type_invariant]
    spec fn wf(&self) -> bool {
        &&& self.values@.len() == self.keys@.len()
        &&& forall|i: int, j: int|
            0 <= i < j < self.keys@.len() ==> (#[trigger] self.keys@[i])@ != (#[trigger] self.keys@[j])@
        &&& forall|i: int| 0 <= i < self.keys@.len() ==> #[trigger] listed(self.keys@, self.index@, i)
        &&& forall|h: u64, c: int|
            self.index@.contains_key(h) && 0 <= c < self.index@[h]@.len() ==> #[trigger] self.index@[h]@[c] < self.keys@.len()
    }

    proof fn lemma_at(&self, i: int)
        requires
            self.wf(),
            0 <= i < self.keys@.len(),
        ensures
            self@.contains_key(self.keys@[i]@),
            self@[self.keys@[i]@] == self.values@[i],
    {
        let k = self.keys@[i]@;
        let c = choose|c: int| 0 <= c < self.keys@.len() && #[trigger] self.keys@[c]@ == k;
        if c < i {
            assert(self.keys@[c]@ != self.keys@[i]@);
        } else if c > i {
            assert(self.keys@[i]@ != self.keys@[c]@);
        }
    }

    /// An empty map.
    pub fn new() -> (m: Self)
        ensures
            m@ == Map::<Seq<u8>, V>::empty(),
            m.key_weight() == 0,
    {
        let m = BytesMap { keys: Vec::new(), values: Vec::new(), index: HashMap::new() };
        proof {
            assert(m@ =~= Map::<Seq<u8>, V>::empty());
        }
        m
    }

    /// The entry that holds `key`.
    fn find(&self, key: &[u8]) -> (r: Option<usize>)
        ensures
            match r {
                Some(i) => i < self.keys@.len() && self.keys@[i as int]@ == key@
                    && self@.contains_key(key@) && self@[key@] == self.values@[i as int],
                None => !self@.contains_key(key@),
            },
    {
        proof {
            use_type_invariant(self);
        }
        let h: u64 = hash_bytes(key);
        match self.index.get(&h) {
            None => {
                proof {
                    if self@.contains_key(key@) {
                        let i = choose|i: int| 0 <= i < self.keys@.len() && #[trigger] self.keys@[i]@ == key@;
                        assert(listed(self.keys@, self.index@, i));
                    }
                }
                None
            },
            Some(bucket) => {
                let mut c: usize = 0;
                while c < bucket.len()
                    invariant
                        self.wf(),
                        h == bytes_hash(key@),
                        self.index@.contains_key(h),
                        *bucket == self.index@[h],
                        c <= bucket@.len(),
                        forall|d: int| 0 <= d < c ==> self.keys@[#[trigger] bucket@[d] as int]@ != key@,
                    decreases bucket@.len() - c,
                {
                    proof {
                        assert(self.index@[h]@[c as int] < self.keys@.len());
                    }
                    let i: usize = bucket[c];
                    if bytes_equal(self.keys[i].as_slice(), key) {
                        proof {
                            self.lemma_at(i as int);
                        }
                        return Some(i);
                    }
                    c += 1;
                }
                proof {
                    if self@.contains_key(key@) {
                        let i = choose|i: int| 0 <= i < self.keys@.len() && #[trigger] self.keys@[i]@ == key@;
                        assert(listed(self.keys@, self.index@, i));
                        let d = choose|d: int| 0 <= d < bucket@.len() && (#[trigger] bucket@[d]) as int == i;
                        assert(self.keys@[bucket@[d] as int]@ != key@);
                    }
                }
                None
            },
        }
    }

    /// The value of `key`.
    pub fn get(&self, key: &[u8]) -> (r: Option<V>)
        ensures
            r == (if self@.contains_key(key@) {
                Some(self@[key@])
            } else {
                None
            }),
    {
        proof {
            use_type_invariant(self);
        }
        match self.find(key) {
            Some(i) => Some(self.values[i]),
            None => None,
        }
    }

    /// The number of entries.
    pub fn len(&self) -> (n: usize)
        ensures
            self@.dom().finite(),
            n == self@.len(),
    {
        proof {
            use_type_invariant(self);
            self.lemma_len();
        }
        self.keys.len()
    }

    proof fn lemma_len(&self)
        requires
            self.wf(),
        ensures
            self@.dom().finite(),
            self@.len() == self.keys@.len(),
    {
        let keys = Seq::new(self.keys@.len(), |i: int| self.keys@[i]@);
        assert(keys.no_duplicates());
        keys.unique_seq_to_set();
        assert(self@.dom() =~= keys.to_set()) by {
            assert forall|k: Seq<u8>| self@.dom().contains(k) == keys.to_set().contains(k) by {
                if self@.dom().contains(k) {
                    let i = choose|i: int| 0 <= i < self.keys@.len() && #[trigger] self.keys@[i]@ == k;
                    assert(keys[i] == k);
                }
                if keys.to_set().contains(k) {
                    let i = choose|i: int| 0 <= i < keys.len() && keys[i] == k;
                    self.lemma_at(i);
                }
            }
        }
        vstd::seq_lib::seq_to_set_is_finite(keys);
    }

    /// Sets the value of `key`.
    pub fn insert(&mut self, key: &[u8], value: V)
        ensures
            final(self)@ == old(self)@.insert(key@, value),
            final(self).key_weight() == old(self).key_weight() + if old(self)@.contains_key(key@) {
                0
            } else {
                key@.len()
            },
    {
        proof {
            use_type_invariant(&*self);
        }
        let ghost before = *self;
        let found = self.find(key);
        let mut fresh: BytesMap<V> = BytesMap::new();
        std::mem::swap(&mut fresh, self);
        let BytesMap { mut keys, mut values, mut index } = fresh;
        match found {
            Some(i) => {
                values[i] = value;
            },
            None => {
                let h: u64 = hash_bytes(key);
                let n: usize = keys.len();
                let mut bucket: Vec<usize> = match index.remove(&h) {
                    Some(b) => b,
                    None => Vec::new(),
                };
                let ghost old_bucket = bucket@;
                bucket.push(n);
                keys.push(copy_bytes(key));
                values.push(value);
                index.insert(h, bucket);
                proof {
                    let old_index = before.index@;
                    assert forall|i: int| 0 <= i < keys@.len() implies #[trigger] listed(
                        keys@,
                        index@,
                        i,
                    ) by {
                        if i < n {
                            assert(listed(before.keys@, old_index, i));
                            assert(keys@[i] == before.keys@[i]);
                            let hi = bytes_hash(keys@[i]@);
                            assert(old_index.contains_key(hi));
                            if hi == h {
                                let d = choose|d: int| 0 <= d < old_bucket.len() && (#[trigger] old_bucket[d]) as int == i;
                                assert(index@[h]@[d] as int == i);
                            } else {
                                let d = choose|d: int|
                                    0 <= d < old_index[hi]@.len() && (
                                    #[trigger] old_index[hi]@[d]) as int == i;
                                assert(index@[hi] == old_index[hi]);
                                assert(index@[hi]@[d] as int == i);
                            }
                        } else {
                            assert(index@[h]@[old_bucket.len() as int] == n);
                        }
                    }
                    assert forall|i: int, j: int| 0 <= i < j < keys@.len() implies (
                    #[trigger] keys@[i])@ != (#[trigger] keys@[j])@ by {
                        if j == n {
                            before.lemma_at(i);
                        }
                    }
                    assert forall|g: u64, c: int|
                        index@.contains_key(g) && 0 <= c < index@[g]@.len() implies #[trigger] index@[g]@[c] < keys@.len() by {
                        if g == h {
                            if c < old_bucket.len() {
                                assert(before.index@[h]@[c] < before.keys@.len());
                            }
                        } else {
                            assert(before.index@[g]@[c] < before.keys@.len());
                        }
                    }
                }
            },
        }
        *self = BytesMap { keys, values, index };
        proof {
            if found is None {
                assert(self.keys@.drop_last() =~= before.keys@);
            }
            assert forall|k: Seq<u8>| #![trigger self@.contains_key(k)]
                self@.contains_key(k) == before@.insert(key@, value).contains_key(k) && (self@.contains_key(k) ==> self@[k] == before@.insert(key@, value)[k]) by {
                if self@.contains_key(k) {
                    let i = choose|i: int| 0 <= i < self.keys@.len() && #[trigger] self.keys@[i]@ == k;
                    self.lemma_at(i);
                    if i < before.keys@.len() {
                        before.lemma_at(i);
                    }
                }
                if before@.contains_key(k) {
                    let i = choose|i: int| 0 <= i < before.keys@.len() && #[trigger] before.keys@[i]@ == k;
                    assert(self.keys@[i]@ == k);
                    self.lemma_at(i);
                }
                if k == key@ {
                    let n = before.keys@.len() as int;
                    if found is None {
                        assert(self.keys@[n]@ == k);
                        self.lemma_at(n);
                    } else {
                        self.lemma_at(found->0 as int);
                    }
                }
            }
            assert(self@ =~= before@.insert(key@, value));
        }
    }

    /// The entries in the order of their first insertion.
    pub fn entries(&self) -> (r: Vec<(Vec<u8>, V)>)
        ensures
            lists_entries(r@, self@),
    {
        proof {
            use_type_invariant(self);
        }
        let mut r: Vec<(Vec<u8>, V)> = Vec::new();
        let mut i: usize = 0;
        while i < self.keys.len()
            invariant
                self.wf(),
                i <= self.keys@.len(),
                r@.len() == i,
                forall|j: int|
                    0 <= j < i ==> (#[trigger] r@[j]).0@ == self.keys@[j]@ && r@[j].1
                        == self.values@[j],
            decreases self.keys@.len() - i,
        {
            r.push((copy_bytes(self.keys[i].as_slice()), self.values[i]));
            i += 1;
        }
        proof {
            assert forall|j: int| 0 <= j < r@.len() implies self@.contains_key((#[trigger] r@[j]).0@)
                && self@[r@[j].0@] == r@[j].1 by {
                self.lemma_at(j);
            }
            assert forall|a: int, b: int| 0 <= a < b < r@.len() implies (#[trigger] r@[a]).0@ != (
            #[trigger] r@[b]).0@ by {
                assert(self.keys@[a]@ != self.keys@[b]@);
            }
            assert forall|k: Seq<u8>| #[trigger] self@.contains_key(k) implies exists|j: int|
                0 <= j < r@.len() && (#[trigger] r@[j]).0@ == k by {
                let j = choose|j: int| 0 <= j < self.keys@.len() && #[trigger] self.keys@[j]@ == k;
                assert(r@[j].0@ == k);
            }
        }
        r
    }

    /// The same map again.
    pub fn copy(&self) -> (m: Self)
        ensures
            m@ == self@,
    {
        proof {
            use_type_invariant(self);
        }
        let mut m: BytesMap<V> = BytesMap::new();
        let mut i: usize = 0;
        while i < self.keys.len()
            invariant
                self.wf(),
                i <= self.keys@.len(),
                forall|j: int|
                    0 <= j < i ==> m@.contains_key(#[trigger] self.keys@[j]@) && m@[self.keys@[j]@]
                        == self.values@[j],
                forall|k: Seq<u8>| #[trigger]
                    m@.contains_key(k) ==> exists|j: int| 0 <= j < i && #[trigger] self.keys@[j]@ == k,
            decreases self.keys@.len() - i,
        {
            let ghost before = m@;
            m.insert(self.keys[i].as_slice(), self.values[i]);
            proof {
                assert forall|k: Seq<u8>| #[trigger] m@.contains_key(k) implies exists|j: int|
                    0 <= j < i + 1 && #[trigger] self.keys@[j]@ == k by {
                    if before.contains_key(k) {
                        let j = choose|j: int| 0 <= j < i && #[trigger] self.keys@[j]@ == k;
                        assert(self.keys@[j]@ == k);
                    } else {
                        assert(self.keys@[i as int]@ == k);
                    }
                }
            }
            i += 1;
        }
        proof {
            assert forall|k: Seq<u8>| #![trigger m@.contains_key(k)]
                m@.contains_key(k) == self@.contains_key(k) && (self@.contains_key(k) ==> m@[k] == self@[k]) by {
                if m@.contains_key(k) {
                    let j = choose|j: int| 0 <= j < i && #[trigger] self.keys@[j]@ == k;
                    self.lemma_at(j);
                }
                if self@.contains_key(k) {
                    let j = choose|j: int| 0 <= j < self.keys@.len() && #[trigger] self.keys@[j]@ == k;
                    self.lemma_at(j);
                }
            }
            assert(m@ =~= self@);
        }
        m
    }

    /// Drops every entry.
    pub fn clear(&mut self)
        ensures
            final(self)@ == Map::<Seq<u8>, V>::empty(),
            final(self).key_weight() == 0,
    {
        *self = BytesMap::new();
    }

    /// The hashes that the map has room for; how many is left open.
    pub(crate) fn capacity(&self) -> usize {
        index_capacity(&self.index)
    }

    /// The sum of the key lengths.
    pub fn key_bytes(&self) -> (n: u128)
        ensures
            n == self.key_weight(),
    {
        let mut n: u128 = 0;
        let mut i: usize = 0;
        while i < self.keys.len()
            invariant
                i <= self.keys@.len(),
                n == total_len(self.keys@.take(i as int)),
                n <= i * usize::MAX,
            decreases self.keys@.len() - i,
        {
            proof {
                assert(self.keys@.take(i + 1).drop_last() =~= self.keys@.take(i as int));
                assert(i * usize::MAX <= usize::MAX * usize::MAX) by (nonlinear_arith)
                    requires
                        i <= usize::MAX,
                ;
                assert((i + 1) * usize::MAX == i * usize::MAX + usize::MAX) by (nonlinear_arith);
                assert(usize::MAX * usize::MAX + usize::MAX <= u128::MAX) by (nonlinear_arith)
                    requires
                        usize::MAX <= u64::MAX,
                ;
            }
            n = n + self.keys[i].len() as u128;
            i += 1;
        }
        proof {
            assert(self.keys@.take(i as int) =~= self.keys@);
        }
        n
    }

    /// The sum of the key lengths.
    pub closed spec fn key_weight(&self) -> int {
        total_len(self.keys@)
    }
}

/// The sum of the lengths.
spec fn total_len(keys: Seq<Vec<u8>>) -> int
    decreases keys.len(),
{
    if keys.len() == 0 {
        0
    } else {
        total_len(keys.drop_last()) + keys.last()@.len()
    }
}

} // verus!
