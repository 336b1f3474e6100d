//! Open-addressing cache of short pretoken encodings.
use crate::pretokenize::keys::{key_hash, pretoken_key_hash};
use vstd::prelude::*;
use vstd::set_lib::{lemma_int_range, lemma_len_subset, lemma_map_size, set_int_range};

verus! {

/// One slot: the packed pretoken key and its packed encoding. Key 0 marks an
/// empty slot.
#[derive(Clone, Copy, Debug, PartialEq, Eq, Structural)]
pub struct Entry {
    pub key: u128,
    pub val: u64,
    pub ext: u64,
}

/// The smallest table.
pub const MIN_CAPACITY: usize = 0x1_0000;

/// A hash table from nonzero keys to packed encodings. Probes walk aligned
/// pairs of slots from the key's home pair; an insert takes the first empty
/// slot of the walk; the table doubles at 3/4 load.
pub struct ShortPretokenCache {
    slots: Vec<Entry>,
    /// `slots.len() - 1`.
    mask: usize,
    len: usize,
    /// What the table maps each key to.
    map: Ghost<Map<u128, (u64, u64)>>,
    /// The taken slots.
    taken: Ghost<Set<int>>,
}

/// The position `d` steps after `h` on a ring of `n` slots.
spec fn ring(h: int, d: int, n: int) -> int {
    if h + d < n {
        h + d
    } else {
        h + d - n
    }
}

/// The first slot of a hash's home pair.
spec fn home(h: u64, mask: usize) -> int {
    ((h as usize) & mask & !1usize) as int
}

proof fn lemma_home(h: u64, mask: usize)
    requires
        mask % 2 == 1,
    ensures
        0 <= home(h, mask) < mask,
        home(h, mask) % 2 == 0,
{
    let x = h as usize;
    assert((x & mask & !1usize) <= mask && (x & mask & !1usize) % 2 == 0) by (bit_vector);
}

/// The slot `d` steps along the walk of `h` holds `e`, and every slot before
/// it is taken.
spec fn stands(slots: Seq<Entry>, h: int, d: int, e: Entry) -> bool {
    &&& 0 <= d < slots.len()
    &&& 0 <= h < slots.len()
    &&& slots[ring(h, d, slots.len() as int)] == e
    &&& forall|c: int|
        0 <= c < d ==> slots[#[trigger] ring(h, c, slots.len() as int)].key != 0
}

/// `key` stands somewhere on its walk with its value.
spec fn placed(slots: Seq<Entry>, mask: usize, key: u128, v: (u64, u64)) -> bool {
    exists|d: int|
        stands(slots, home(key_hash(key), mask), d, Entry { key, val: v.0, ext: v.1 })
}

/// The slots hold exactly the map.
spec fn holds(slots: Seq<Entry>, mask: usize, m: Map<u128, (u64, u64)>) -> bool {
    &&& forall|k: u128| #[trigger] m.contains_key(k) ==> k != 0 && placed(slots, mask, k, m[k])
    &&& forall|p: int|
        0 <= p < slots.len() && (#[trigger] slots[p]).key != 0 ==> m.contains_key(slots[p].key)
            && m[slots[p].key] == (slots[p].val, slots[p].ext)
}

/// `taken` is the set of taken slots.
spec fn counts(slots: Seq<Entry>, taken: Set<int>) -> bool {
    &&& taken.finite()
    &&& forall|p: int|
        0 <= p < slots.len() && (#[trigger] slots[p]).key != 0 ==> taken.contains(p)
    &&& forall|p: int| #[trigger] taken.contains(p) ==> 0 <= p < slots.len() && slots[p].key != 0
}

/// A walk over taken slots is no longer than the number of taken slots.
proof fn lemma_walk_bound(slots: Seq<Entry>, h: int, d: int, taken: Set<int>)
    requires
        counts(slots, taken),
        0 <= h < slots.len(),
        0 <= d <= slots.len(),
        forall|c: int| 0 <= c < d ==> slots[#[trigger] ring(h, c, slots.len() as int)].key != 0,
    ensures
        d <= taken.len(),
{
    let n = slots.len() as int;
    let f = |c: int| ring(h, c, n);
    lemma_int_range(0, d);
    let steps = set_int_range(0, d);
    let run = steps.map(f);
    lemma_map_size(steps, run, f);
    assert forall|p: int| run.contains(p) implies taken.contains(p) by {
        let c = choose|c: int| steps.contains(c) && f(c) == p;
        assert(slots[ring(h, c, n)].key != 0);
    }
    lemma_len_subset(run, taken);
}

/// What the slot at distance `d` says of a key, when the slots before it are
/// taken by other keys.
proof fn lemma_lookup(slots: Seq<Entry>, mask: usize, m: Map<u128, (u64, u64)>, key: u128, d: int)
    requires
        holds(slots, mask, m),
        key != 0,
        0 <= d < slots.len(),
        0 <= home(key_hash(key), mask) < slots.len(),
        forall|c: int|
            0 <= c < d ==> slots[#[trigger] ring(
                home(key_hash(key), mask),
                c,
                slots.len() as int,
            )].key != key,
    ensures
        ({
            let e = slots[ring(home(key_hash(key), mask), d, slots.len() as int)];
            &&& e.key == key ==> m.contains_key(key) && m[key] == (e.val, e.ext)
            &&& e.key == 0 ==> !m.contains_key(key)
        }),
{
    let h = home(key_hash(key), mask);
    let n = slots.len() as int;
    let p = ring(h, d, n);
    assert(slots[p].key != 0 || slots[p].key == 0);
    if slots[p].key == 0 && m.contains_key(key) {
        assert(placed(slots, mask, key, m[key]));
        let e = Entry { key, val: m[key].0, ext: m[key].1 };
        let dk = choose|d: int| stands(slots, h, d, e);
        assert(stands(slots, h, dk, e));
        if dk < d {
            assert(slots[ring(h, dk, n)].key != key);
        } else if dk > d {
            assert(slots[ring(h, d, n)].key != 0);
        }
    }
}

/// Filling an empty slot on the walk of a new key.
proof fn lemma_place(
    slots: Seq<Entry>,
    mask: usize,
    m: Map<u128, (u64, u64)>,
    taken: Set<int>,
    e: Entry,
    d: int,
)
    requires
        holds(slots, mask, m),
        counts(slots, taken),
        e.key != 0,
        !m.contains_key(e.key),
        0 <= d < slots.len(),
        0 <= home(key_hash(e.key), mask) < slots.len(),
        slots[ring(home(key_hash(e.key), mask), d, slots.len() as int)].key == 0,
        forall|c: int|
            0 <= c < d ==> slots[#[trigger] ring(
                home(key_hash(e.key), mask),
                c,
                slots.len() as int,
            )].key != 0,
    ensures
        ({
            let p = ring(home(key_hash(e.key), mask), d, slots.len() as int);
            &&& holds(slots.update(p, e), mask, m.insert(e.key, (e.val, e.ext)))
            &&& counts(slots.update(p, e), taken.insert(p))
            &&& !taken.contains(p)
        }),
{
    let h = home(key_hash(e.key), mask);
    let n = slots.len() as int;
    let p = ring(h, d, n);
    let slots2 = slots.update(p, e);
    let m2 = m.insert(e.key, (e.val, e.ext));
    assert forall|k: u128| #[trigger] m2.contains_key(k) implies k != 0 && placed(
        slots2,
        mask,
        k,
        m2[k],
    ) by {
        if k == e.key {
            assert(stands(slots2, h, d, e));
        } else {
            assert(m.contains_key(k));
            assert(placed(slots, mask, k, m[k]));
            let ek = Entry { key: k, val: m[k].0, ext: m[k].1 };
            let hk = home(key_hash(k), mask);
            let dk = choose|d: int| stands(slots, hk, d, ek);
            assert(stands(slots, hk, dk, ek));
            assert(stands(slots2, hk, dk, ek)) by {
                assert forall|c: int| 0 <= c < dk implies slots2[#[trigger] ring(hk, c, n)].key
                    != 0 by {
                    assert(slots[ring(hk, c, n)].key != 0);
                }
            }
        }
    }
    assert forall|q: int| 0 <= q < slots2.len() && (#[trigger] slots2[q]).key
        != 0 implies m2.contains_key(slots2[q].key) && m2[slots2[q].key] == (
        slots2[q].val,
        slots2[q].ext,
    ) by {
        if q != p {
            assert(slots[q].key != 0);
        }
    }
    let taken2 = taken.insert(p);
    assert forall|q: int| 0 <= q < slots2.len() && (#[trigger] slots2[q]).key
        != 0 implies taken2.contains(q) by {
        if q != p {
            assert(slots[q].key != 0);
        }
    }
    assert forall|q: int| #[trigger] taken2.contains(q) implies 0 <= q < slots2.len()
        && slots2[q].key != 0 by {
        if q != p {
            assert(taken.contains(q));
        }
    }
}

/// Overwriting the value of a key in its slot.
proof fn lemma_overwrite(
    slots: Seq<Entry>,
    mask: usize,
    m: Map<u128, (u64, u64)>,
    taken: Set<int>,
    p: int,
    e: Entry,
)
    requires
        holds(slots, mask, m),
        counts(slots, taken),
        0 <= p < slots.len(),
        e.key != 0,
        slots[p].key == e.key,
        forall|q: int| 0 <= q < slots.len() && q != p ==> (#[trigger] slots[q]).key != e.key,
    ensures
        holds(slots.update(p, e), mask, m.insert(e.key, (e.val, e.ext))),
        counts(slots.update(p, e), taken),
        m.contains_key(e.key),
{
    let n = slots.len() as int;
    let slots2 = slots.update(p, e);
    let m2 = m.insert(e.key, (e.val, e.ext));
    assert(m.contains_key(slots[p].key));
    assert forall|k: u128| #[trigger] m2.contains_key(k) implies k != 0 && placed(
        slots2,
        mask,
        k,
        m2[k],
    ) by {
        assert(m.contains_key(k));
        assert(placed(slots, mask, k, m[k]));
        let ek = Entry { key: k, val: m[k].0, ext: m[k].1 };
        let hk = home(key_hash(k), mask);
        let dk = choose|d: int| stands(slots, hk, d, ek);
        assert(stands(slots, hk, dk, ek));
        let e2 = Entry { key: k, val: m2[k].0, ext: m2[k].1 };
        assert(stands(slots2, hk, dk, e2)) by {
            assert forall|c: int| 0 <= c < dk implies slots2[#[trigger] ring(hk, c, n)].key
                != 0 by {
                assert(slots[ring(hk, c, n)].key != 0);
            }
            if k == e.key {
                assert(ring(hk, dk, n) == p);
            }
        }
    }
    assert forall|q: int| 0 <= q < slots2.len() && (#[trigger] slots2[q]).key
        != 0 implies m2.contains_key(slots2[q].key) && m2[slots2[q].key] == (
        slots2[q].val,
        slots2[q].ext,
    ) by {
        if q != p {
            assert(slots[q].key != 0);
        }
    }
    assert forall|q: int| 0 <= q < slots2.len() && (#[trigger] slots2[q]).key
        != 0 implies taken.contains(q) by {
        if q != p {
            assert(slots[q].key != 0);
        } else {
            assert(slots[p].key != 0);
        }
    }
    assert forall|q: int| #[trigger] taken.contains(q) implies 0 <= q < slots2.len()
        && slots2[q].key != 0 by {}
}

/// Whether `n` is a power of two.
pub open spec fn is_pow2(n: int) -> bool
    decreases n,
{
    n == 1 || (n > 1 && n % 2 == 0 && is_pow2(n / 2))
}

/// The smallest power of two that is at least `n`, found by doubling `p`.
pub fn next_pow2(n: usize) -> (p: usize)
    requires
        n <= usize::MAX / 2,
    ensures
        is_pow2(p as int),
        p >= n,
        p == 1 || p / 2 < n,
        p >= 1,
        p == 1 || p < 2 * n,
{
    let mut p: usize = 1;
    while p < n
        invariant
            is_pow2(p as int),
            p >= 1,
            p == 1 || p / 2 < n,
            n <= usize::MAX / 2,
        decreases 2 * n - p,
    {
        assert(is_pow2(2 * p)) by {
            assert((2 * p) / 2 == p as int);
        }
        p = p * 2;
    }
    p
}

impl ShortPretokenCache {
    /// What the cache maps each key to.
    pub closed spec fn view(&self) -> Map<u128, (u64, u64)> {
        self.map@
    }

    /// The number of slots.
    pub closed spec fn slot_count(&self) -> nat {
        self.slots@.len()
    }

    /// The slot where a new key with this walk belongs.
    pub closed spec fn is_free_slot(&self, key: u128, slot: int) -> bool {
        exists|d: int|
            {
                &&& 0 <= d < self.slots@.len()
                &&& slot == ring(home(key_hash(key), self.mask), d, self.slots@.len() as int)
                &&& self.slots@[slot].key == 0
                &&& forall|c: int|
                    0 <= c < d ==> self.slots@[#[trigger] ring(
                        home(key_hash(key), self.mask),
                        c,
                        self.slots@.len() as int,
                    )].key != 0
                &&& #[trigger] free_mark(d)
            }
    }

    #[verifier::type_invariant]
    spec fn wf(&self) -> bool {
        &&& self.slots@.len() == self.mask + 1
        &&& self.mask % 2 == 1
        &&& is_pow2(self.slots@.len() as int)
        &&& self.slots@.len() <= usize::MAX / 8
        &&& holds(self.slots@, self.mask, self.map@)
        &&& counts(self.slots@, self.taken@)
        &&& self.taken@.len() == self.len
        &&& self.map@.dom().finite()
        &&& self.map@.len() == self.len
        &&& self.len * 4 <= self.slots@.len() * 3
    }

    /// An empty table of `cap` slots.
    pub fn with_pow2_capacity(cap: usize) -> (c: Self)
        requires
            2 <= cap <= usize::MAX / 8,
            is_pow2(cap as int),
        ensures
            c@ == Map::<u128, (u64, u64)>::empty(),
            c.slot_count() == cap,
    {
        let slots: Vec<Entry> = vec![Entry { key: 0, val: 0, ext: 0 }; cap];
        let map: Ghost<Map<u128, (u64, u64)>> = Ghost(Map::empty());
        let taken: Ghost<Set<int>> = Ghost(Set::empty());
        proof {
            assert(map@.dom() =~= Set::<u128>::empty());
        }
        ShortPretokenCache { slots, mask: cap - 1, len: 0, map, taken }
    }

    /// The slot count that [`Self::with_at_least`] allocates: a power of two
    /// of at least `min_slots` and 65536 slots, doubled until `n` entries
    /// keep it under 3/4 load.
    pub fn required_capacity(n: usize, min_slots: usize) -> (cap: usize)
        requires
            n < usize::MAX / 32,
            min_slots <= usize::MAX / 32,
        ensures
            is_pow2(cap as int),
            cap >= min_slots,
            cap >= MIN_CAPACITY,
            (n + 1) * 4 <= cap * 3,
            cap == MIN_CAPACITY || cap / 2 < min_slots || (n + 1) * 4 > (cap / 2) * 3,
            cap <= usize::MAX / 8,
    {
        let floor: usize = if min_slots > MIN_CAPACITY {
            min_slots
        } else {
            MIN_CAPACITY
        };
        let mut cap: usize = next_pow2(floor);
        proof {
            reveal_with_fuel(is_pow2, 18);
            assert(is_pow2(0x1_0000));
            if floor == MIN_CAPACITY {
                lemma_pow2_gap(cap as int, 0x1_0000);
            }
        }
        while (n + 1) * 4 > cap * 3
            invariant
                is_pow2(cap as int),
                cap >= min_slots,
                cap >= MIN_CAPACITY,
                n < usize::MAX / 32,
                cap <= usize::MAX / 8,
                cap == MIN_CAPACITY || cap / 2 < min_slots || (n + 1) * 4 > (cap / 2) * 3,
            decreases 4 * (n + 1) - cap,
        {
            assert(is_pow2(2 * cap)) by {
                assert((2 * cap) / 2 == cap as int);
            }
            cap = cap * 2;
        }
        cap
    }

    /// A table that holds at least `n` entries without growing, with at least
    /// `min_slots` slots.
    pub fn with_at_least(n: usize, min_slots: usize) -> (c: Self)
        requires
            n < usize::MAX / 32,
            min_slots <= usize::MAX / 32,
        ensures
            c@ == Map::<u128, (u64, u64)>::empty(),
            (n + 1) * 4 <= c.slot_count() * 3,
            c.slot_count() >= min_slots,
            c.slot_count() >= MIN_CAPACITY,
            is_pow2(c.slot_count() as int),
            c.slot_count() == MIN_CAPACITY || c.slot_count() / 2 < min_slots || (n + 1) * 4 > (
            c.slot_count() / 2) * 3,
    {
        let cap: usize = Self::required_capacity(n, min_slots);
        proof {
            assert(cap % 2 == 0);
        }
        Self::with_pow2_capacity(cap)
    }

    /// The number of entries.
    pub fn len(&self) -> (n: usize)
        ensures
            n == self@.len(),
            self@.dom().finite(),
    {
        proof {
            use_type_invariant(self);
        }
        self.len
    }

    /// The number of slots.
    pub fn capacity(&self) -> (n: usize)
        ensures
            n == self.slot_count(),
            2 <= n <= usize::MAX / 8,
            is_pow2(n as int),
    {
        proof {
            use_type_invariant(self);
        }
        self.slots.len()
    }

    /// Looks up `key`. A miss reports the first empty slot of its walk, where
    /// [`Self::insert_at`] places the key.
    #[verifier::spinoff_prover]
    #[verifier::rlimit(40)]
    pub fn get_or_slot(&self, key: u128, h: u64) -> (r: Result<(u64, u64), usize>)
        requires
            key != 0,
            h == key_hash(key),
        ensures
            match r {
                Ok(v) => self@.contains_key(key) && self@[key] == v,
                Err(slot) => !self@.contains_key(key) && self.is_free_slot(key, slot as int),
            },
    {
        proof {
            use_type_invariant(self);
            lemma_home(h, self.mask);
        }
        let mut idx: usize = (h as usize) & self.mask & !1usize;
        let ghost hm = home(h, self.mask);
        let ghost n = self.slots@.len() as int;
        let ghost mut d: int = 0;
        loop
            invariant
                self.wf(),
                key != 0,
                h == key_hash(key),
                hm == home(h, self.mask),
                0 <= hm < n,
                n == self.slots@.len(),
                0 <= d < n,
                d % 2 == 0,
                hm % 2 == 0,
                n % 2 == 0,
                idx == ring(hm, d, n),
                idx % 2 == 0,
                forall|c: int|
                    0 <= c < d ==> self.slots@[#[trigger] ring(hm, c, n)].key != 0
                        && self.slots@[ring(hm, c, n)].key != key,
            decreases n - d,
        {
            let e0 = self.slots[idx];
            let e1 = self.slots[idx + 1];
            proof {
                lemma_lookup(self.slots@, self.mask, self.map@, key, d);
                assert(ring(hm, d + 1, n) == idx + 1);
            }
            if e0.key == key {
                return Ok((e0.val, e0.ext));
            }
            proof {
                lemma_lookup(self.slots@, self.mask, self.map@, key, d + 1);
            }
            if e1.key == key {
                return Ok((e1.val, e1.ext));
            }
            if e0.key == 0 {
                proof {
                    assert(free_mark(d));
                }
                return Err(idx);
            }
            if e1.key == 0 {
                proof {
                    assert(free_mark(d + 1));
                }
                return Err(idx + 1);
            }
            proof {
                lemma_walk_bound(self.slots@, hm, d + 2, self.taken@);
                d = d + 2;
            }
            idx = if idx + 2 < self.slots.len() {
                idx + 2
            } else {
                0
            };
        }
    }

    /// The first empty slot of a key's walk.
    fn first_empty(&self, key: u128, h: u64) -> (slot: usize)
        requires
            h == key_hash(key),
        ensures
            self.is_free_slot(key, slot as int),
    {
        proof {
            use_type_invariant(self);
            lemma_home(h, self.mask);
        }
        let mut idx: usize = (h as usize) & self.mask & !1usize;
        let ghost hm = home(h, self.mask);
        let ghost n = self.slots@.len() as int;
        let ghost mut d: int = 0;
        loop
            invariant
                self.wf(),
                h == key_hash(key),
                hm == home(h, self.mask),
                0 <= hm < n,
                n == self.slots@.len(),
                0 <= d < n,
                idx == ring(hm, d, n),
                forall|c: int| 0 <= c < d ==> self.slots@[#[trigger] ring(hm, c, n)].key != 0,
            decreases n - d,
        {
            if self.slots[idx].key == 0 {
                proof {
                    assert(free_mark(d));
                }
                return idx;
            }
            proof {
                lemma_walk_bound(self.slots@, hm, d + 1, self.taken@);
                d = d + 1;
            }
            idx = if idx + 1 < self.slots.len() {
                idx + 1
            } else {
                0
            };
        }
    }

    /// Doubles the table.
    fn grow(&mut self)
        requires
            old(self).slot_count() <= usize::MAX / 16,
        ensures
            final(self)@ == old(self)@,
            final(self).slot_count() == 2 * old(self).slot_count(),
    {
        proof {
            use_type_invariant(&*self);
        }
        let new_cap: usize = self.slots.len() * 2;
        proof {
            assert(is_pow2(new_cap as int)) by {
                assert(new_cap as int / 2 == self.slots@.len());
            }
        }
        let mut bigger = Self::with_pow2_capacity(new_cap);
        let n: usize = self.slots.len();
        let mut i: usize = 0;
        while i < n
            invariant
                i <= n == self.slots@.len(),
                self.wf(),
                bigger.slot_count() == 2 * n,
                2 * n <= usize::MAX / 8,
                bigger@.dom().finite(),
                bigger@.len() <= i,
                bigger@.submap_of(self.map@),
                forall|p: int|
                    0 <= p < i && (#[trigger] self.slots@[p]).key != 0 ==> bigger@.contains_key(
                        self.slots@[p].key,
                    ),
                forall|p: int| i <= p < n && (#[trigger] self.slots@[p]).key != 0 && bigger@.contains_key(
                    self.slots@[p].key,
                ) ==> exists|q: int| 0 <= q < i && (#[trigger] self.slots@[q]).key == self.slots@[p].key,
            decreases n - i,
        {
            let e = self.slots[i];
            if e.key != 0 {
                proof {
                    assert(self.map@.contains_key(self.slots@[i as int].key));
                    assert(bigger@.len() <= i);
                }
                let h: u64 = pretoken_key_hash(e.key);
                let slot: usize = bigger.first_empty(e.key, h);
                proof {
                    lemma_unique(self.slots@, self.mask, self.map@, self.taken@);
                    if bigger@.contains_key(e.key) {
                        let q = choose|q: int| 0 <= q < i && (#[trigger] self.slots@[q]).key == e.key;
                        assert(false);
                    }
                }
                bigger.put(slot, e);
            }
            i += 1;
        }
        proof {
            assert(bigger@ =~= self.map@) by {
                assert forall|k: u128| #[trigger] self.map@.contains_key(k) implies bigger@.contains_key(k) by {
                    assert(placed(self.slots@, self.mask, k, self.map@[k]));
                    let e = Entry { key: k, val: self.map@[k].0, ext: self.map@[k].1 };
                    let d = choose|d: int| stands(self.slots@, home(key_hash(k), self.mask), d, e);
                    assert(self.slots@[ring(home(key_hash(k), self.mask), d, self.slots@.len() as int)].key == k);
                }
            }
        }
        *self = bigger;
    }

    /// Fills an empty slot of a key that the cache does not hold, with room
    /// to spare.
    fn put(&mut self, slot: usize, e: Entry)
        requires
            e.key != 0,
            !old(self)@.contains_key(e.key),
            old(self).is_free_slot(e.key, slot as int),
            (old(self)@.len() + 1) * 4 <= old(self).slot_count() * 3,
        ensures
            final(self)@ == old(self)@.insert(e.key, (e.val, e.ext)),
            final(self).slot_count() == old(self).slot_count(),
            final(self)@.dom().finite(),
            final(self)@.len() == old(self)@.len() + 1,
    {
        proof {
            use_type_invariant(&*self);
            lemma_home(key_hash(e.key), self.mask);
        }
        let ghost s0 = self.slots@;
        let ghost m0 = self.map@;
        let ghost t0 = self.taken@;
        let ghost mask0 = self.mask;
        let mask: usize = self.mask;
        let len: usize = self.len;
        proof {
            reveal_with_fuel(is_pow2, 3);
        }
        let mut whole = ShortPretokenCache::with_pow2_capacity(2);
        std::mem::swap(&mut whole, self);
        let ShortPretokenCache { slots: mut owned, mask: _, len: _, map: _, taken: _ } = whole;
        proof {
            let d = choose|d: int|
                {
                    &&& 0 <= d < s0.len()
                    &&& slot == ring(home(key_hash(e.key), mask0), d, s0.len() as int)
                    &&& s0[slot as int].key == 0
                    &&& forall|c: int|
                        0 <= c < d ==> s0[#[trigger] ring(
                            home(key_hash(e.key), mask0),
                            c,
                            s0.len() as int,
                        )].key != 0
                    &&& #[trigger] free_mark(d)
                };
            lemma_place(s0, mask0, m0, t0, e, d);
        }
        owned[slot] = e;
        let map: Ghost<Map<u128, (u64, u64)>> = Ghost(m0.insert(e.key, (e.val, e.ext)));
        let taken: Ghost<Set<int>> = Ghost(t0.insert(slot as int));
        *self = ShortPretokenCache { slots: owned, mask, len: len + 1, map, taken };
    }

    /// Whether one more entry would fill more than 3/4 of the slots.
    pub fn is_full(&self) -> (full: bool)
        ensures
            full == ((self@.len() + 1) * 4 > self.slot_count() * 3),
            self@.len() * 4 <= self.slot_count() * 3,
    {
        proof {
            use_type_invariant(self);
        }
        (self.len + 1) * 4 > self.slots.len() * 3
    }

    /// Places a key that the cache does not hold at the slot that
    /// [`Self::get_or_slot`] reported for it.
    pub fn insert_at(&mut self, slot: usize, key: u128, h: u64, val: u64, ext: u64)
        requires
            key != 0,
            h == key_hash(key),
            !old(self)@.contains_key(key),
            old(self).is_free_slot(key, slot as int),
            old(self)@.len() < usize::MAX / 32,
        ensures
            final(self)@ == old(self)@.insert(key, (val, ext)),
            final(self).slot_count() == grown(old(self).slot_count(), old(self)@.len()),
    {
        if self.is_full() {
            self.grow();
            let slot: usize = self.first_empty(key, h);
            self.put(slot, Entry { key, val, ext });
        } else {
            self.put(slot, Entry { key, val, ext });
        }
    }

    /// Adds a key that the cache does not hold.
    pub fn insert(&mut self, key: u128, h: u64, val: u64, ext: u64)
        requires
            key != 0,
            h == key_hash(key),
            !old(self)@.contains_key(key),
            old(self)@.len() < usize::MAX / 32,
        ensures
            final(self)@ == old(self)@.insert(key, (val, ext)),
            final(self).slot_count() == grown(old(self).slot_count(), old(self)@.len()),
    {
        if self.is_full() {
            self.grow();
        }
        let slot: usize = self.first_empty(key, h);
        self.put(slot, Entry { key, val, ext });
    }

    /// Sets the encoding of `key`, which the cache may hold already.
    pub fn replace(&mut self, key: u128, h: u64, val: u64, ext: u64)
        requires
            key != 0,
            h == key_hash(key),
            old(self)@.len() < usize::MAX / 32,
        ensures
            final(self)@ == old(self)@.insert(key, (val, ext)),
            final(self).slot_count() == if old(self)@.contains_key(key) {
                old(self).slot_count()
            } else {
                grown(old(self).slot_count(), old(self)@.len())
            },
    {
        match self.find_slot(key, h) {
            Some(slot) => {
                self.overwrite(slot, Entry { key, val, ext });
            },
            None => {
                self.insert(key, h, val, ext);
            },
        }
    }

    /// The slot that holds `key`.
    fn find_slot(&self, key: u128, h: u64) -> (r: Option<usize>)
        requires
            key != 0,
            h == key_hash(key),
        ensures
            match r {
                Some(slot) => slot < self.slots@.len() && self.slots@[slot as int].key == key,
                None => !self@.contains_key(key),
            },
    {
        proof {
            use_type_invariant(self);
            lemma_home(h, self.mask);
        }
        let mut idx: usize = (h as usize) & self.mask & !1usize;
        let ghost hm = home(h, self.mask);
        let ghost n = self.slots@.len() as int;
        let ghost mut d: int = 0;
        loop
            invariant
                self.wf(),
                key != 0,
                h == key_hash(key),
                hm == home(h, self.mask),
                0 <= hm < n,
                n == self.slots@.len(),
                0 <= d < n,
                idx == ring(hm, d, n),
                forall|c: int|
                    0 <= c < d ==> self.slots@[#[trigger] ring(hm, c, n)].key != 0
                        && self.slots@[ring(hm, c, n)].key != key,
            decreases n - d,
        {
            proof {
                lemma_lookup(self.slots@, self.mask, self.map@, key, d);
            }
            if self.slots[idx].key == key {
                return Some(idx);
            }
            if self.slots[idx].key == 0 {
                return None;
            }
            proof {
                lemma_walk_bound(self.slots@, hm, d + 1, self.taken@);
                d = d + 1;
            }
            idx = if idx + 1 < self.slots.len() {
                idx + 1
            } else {
                0
            };
        }
    }

    /// Sets the encoding in the slot of a key.
    fn overwrite(&mut self, slot: usize, e: Entry)
        requires
            slot < old(self).slots@.len(),
            old(self).slots@[slot as int].key == e.key,
            e.key != 0,
        ensures
            final(self)@ == old(self)@.insert(e.key, (e.val, e.ext)),
            final(self).slot_count() == old(self).slot_count(),
            old(self)@.contains_key(e.key),
    {
        proof {
            use_type_invariant(&*self);
            lemma_unique(self.slots@, self.mask, self.map@, self.taken@);
            lemma_overwrite(self.slots@, self.mask, self.map@, self.taken@, slot as int, e);
        }
        let ghost m0 = self.map@;
        let ghost t0 = self.taken@;
        let mask: usize = self.mask;
        let len: usize = self.len;
        proof {
            reveal_with_fuel(is_pow2, 3);
        }
        let mut whole = ShortPretokenCache::with_pow2_capacity(2);
        std::mem::swap(&mut whole, self);
        let ShortPretokenCache { slots: mut owned, mask: _, len: _, map: _, taken: _ } = whole;
        owned[slot] = e;
        let map: Ghost<Map<u128, (u64, u64)>> = Ghost(m0.insert(e.key, (e.val, e.ext)));
        let taken: Ghost<Set<int>> = Ghost(t0);
        proof {
            assert(map@.dom() =~= m0.dom());
        }
        *self = ShortPretokenCache { slots: owned, mask, len, map, taken };
    }

    /// Drops every entry and keeps the slot count.
    pub fn clear(&mut self)
        ensures
            final(self)@ == Map::<u128, (u64, u64)>::empty(),
            final(self).slot_count() == old(self).slot_count(),
    {
        proof {
            use_type_invariant(&*self);
        }
        *self = Self::with_pow2_capacity(self.slots.len());
    }

    /// Looks `key` up in its home pair of slots alone: the value, the
    /// extension and whether the pair holds the key. A key that stands
    /// further along its walk is not found.
    pub fn probe_pair(&self, key: u128, h: u64) -> (r: (u64, u64, bool))
        requires
            key != 0,
            h == key_hash(key),
        ensures
            r.2 ==> self@.contains_key(key) && self@[key] == (r.0, r.1),
            r.2 <==> self.in_home_pair(key),
    {
        proof {
            use_type_invariant(self);
            lemma_home(h, self.mask);
        }
        let idx: usize = (h as usize) & self.mask & !1usize;
        let e0 = self.slots[idx];
        let e1 = self.slots[idx + 1];
        let m0 = e0.key == key;
        let m1 = e1.key == key;
        let e = if m0 {
            e0
        } else {
            e1
        };
        (e.val, e.ext, m0 || m1)
    }

    /// One of the two slots of the key's home pair holds it.
    pub closed spec fn in_home_pair(&self, key: u128) -> bool {
        let p = home(key_hash(key), self.mask);
        self.slots@[p].key == key || self.slots@[p + 1].key == key
    }
}

/// A mark that names the distance of a free slot.
spec fn free_mark(d: int) -> bool {
    true
}

/// Two taken slots never hold the same key.
proof fn lemma_unique(slots: Seq<Entry>, mask: usize, m: Map<u128, (u64, u64)>, taken: Set<int>)
    requires
        holds(slots, mask, m),
        counts(slots, taken),
        m.dom().finite(),
        m.len() == taken.len(),
    ensures
        forall|p: int, q: int|
            0 <= p < slots.len() && 0 <= q < slots.len() && (#[trigger] slots[p]).key != 0
                && slots[p].key == (#[trigger] slots[q]).key ==> p == q,
{
    let f = |k: u128|
        {
            let e = Entry { key: k, val: m[k].0, ext: m[k].1 };
            let h = home(key_hash(k), mask);
            ring(h, choose|d: int| stands(slots, h, d, e), slots.len() as int)
        };
    // Each key has one slot on its walk; there are as many slots as keys, so
    // these are all of them.
    assert forall|k: u128| #[trigger] m.dom().contains(k) implies taken.contains(f(k))
        && slots[f(k)].key == k by {
        assert(m.contains_key(k));
        assert(placed(slots, mask, k, m[k]));
        let e = Entry { key: k, val: m[k].0, ext: m[k].1 };
        let h = home(key_hash(k), mask);
        let d = choose|d: int| stands(slots, h, d, e);
        assert(stands(slots, h, d, e));
        assert(slots[f(k)] == e);
        assert(slots[f(k)].key != 0);
    }
    let image = m.dom().map(f);
    assert forall|a: u128, b: u128|
        m.dom().contains(a) && m.dom().contains(b) && f(a) == f(b) implies a == b by {
        assert(slots[f(a)].key == a);
        assert(slots[f(b)].key == b);
    }
    lemma_map_size(m.dom(), image, f);
    assert(image.subset_of(taken)) by {
        assert forall|p: int| image.contains(p) implies taken.contains(p) by {
            let k = choose|k: u128| m.dom().contains(k) && f(k) == p;
            assert(taken.contains(f(k)));
        }
    }
    vstd::set_lib::lemma_subset_equality(image, taken);
    assert forall|p: int, q: int|
        0 <= p < slots.len() && 0 <= q < slots.len() && (#[trigger] slots[p]).key != 0
            && slots[p].key == (#[trigger] slots[q]).key implies p == q by {
        assert(taken.contains(p));
        assert(taken.contains(q));
        assert(image.contains(p));
        assert(image.contains(q));
        let a = choose|k: u128| m.dom().contains(k) && f(k) == p;
        let b = choose|k: u128| m.dom().contains(k) && f(k) == q;
        assert(slots[f(a)].key == a);
        assert(slots[f(b)].key == b);
    }
}

/// The slot count after adding one key to a table of `n` entries: doubled
/// when the key would fill more than 3/4.
pub open spec fn grown(slots: nat, n: nat) -> nat {
    if (n + 1) * 4 > slots * 3 {
        2 * slots
    } else {
        slots
    }
}

/// An empty cache once the entries `(key, value, extension)` are inserted in
/// turn.
pub open spec fn filled(entries: Seq<(u128, u64, u64)>) -> Map<u128, (u64, u64)>
    decreases entries.len(),
{
    if entries.len() == 0 {
        Map::empty()
    } else {
        let (key, val, ext) = entries.last();
        filled(entries.drop_last()).insert(key, (val, ext))
    }
}

/// The slots of a cache that was made with `slots` of them once `n` keys are
/// inserted.
pub open spec fn slots_after(slots: nat, n: nat) -> nat
    decreases n,
{
    if n == 0 {
        slots
    } else {
        grown(slots_after(slots, (n - 1) as nat), (n - 1) as nat)
    }
}

/// A cache that distinct keys were inserted into, however often it grew, holds
/// each with its value and extension and nothing else, and at most three
/// quarters of its slots are taken.
pub proof fn law_inserted_keys_are_found(entries: Seq<(u128, u64, u64)>, slots: nat)
    requires
        slots >= 2,
        forall|i: int, j: int|
            0 <= i < j < entries.len() ==> (#[trigger] entries[i]).0 != (#[trigger] entries[j]).0,
    ensures
        filled(entries).dom().finite(),
        filled(entries).len() == entries.len(),
        forall|i: int|
            0 <= i < entries.len() ==> filled(entries).contains_key((#[trigger] entries[i]).0)
                && filled(entries)[entries[i].0] == (entries[i].1, entries[i].2),
        forall|k: u128| #[trigger]
            filled(entries).contains_key(k) ==> exists|i: int|
                0 <= i < entries.len() && (#[trigger] entries[i]).0 == k,
        slots_after(slots, entries.len()) >= 2,
        4 * entries.len() <= 3 * slots_after(slots, entries.len()),
    decreases entries.len(),
{
    let all = filled(entries);
    if entries.len() == 0 {
        assert(all.dom() =~= Set::<u128>::empty());
    } else {
        let d = entries.drop_last();
        let n = d.len() as int;
        let head = filled(d);
        let (key, val, ext) = entries.last();
        assert(entries[n] == (key, val, ext));
        assert forall|i: int, j: int| 0 <= i < j < d.len() implies (#[trigger] d[i]).0 != (
        #[trigger] d[j]).0 by {
            assert(d[i] == entries[i] && d[j] == entries[j]);
        }
        law_inserted_keys_are_found(d, slots);
        assert(!head.contains_key(key)) by {
            if head.contains_key(key) {
                let i = choose|i: int| 0 <= i < d.len() && (#[trigger] d[i]).0 == key;
                assert(entries[i].0 != entries[n].0);
            }
        }
        assert(all.dom() =~= head.dom().insert(key));
        assert forall|i: int| 0 <= i < entries.len() implies all.contains_key(
            (#[trigger] entries[i]).0,
        ) && all[entries[i].0] == (entries[i].1, entries[i].2) by {
            if i < n {
                assert(d[i] == entries[i]);
                assert(entries[i].0 != entries[n].0);
            }
        }
        assert forall|k: u128| #[trigger] all.contains_key(k) implies exists|i: int|
            0 <= i < entries.len() && (#[trigger] entries[i]).0 == k by {
            if k == key {
                assert(entries[n].0 == k);
            } else {
                assert(head.contains_key(k));
                let i = choose|i: int| 0 <= i < d.len() && (#[trigger] d[i]).0 == k;
                assert(entries[i].0 == k);
            }
        }
    }
}

/// A power of two below another one fits into it twice.
pub proof fn lemma_pow2_double(a: int, b: int)
    requires
        is_pow2(a),
        is_pow2(b),
        a < b,
    ensures
        2 * a <= b,
    decreases b,
{
    if a > 1 {
        lemma_pow2_double(a / 2, b / 2);
    }
}

/// The least table for `n` entries is no larger than any other.
pub proof fn lemma_least_capacity(cap: int, other: int, n: int)
    requires
        is_pow2(cap),
        is_pow2(other),
        other >= MIN_CAPACITY,
        (n + 1) * 4 <= other * 3,
        cap == MIN_CAPACITY || (n + 1) * 4 > (cap / 2) * 3,
    ensures
        cap <= other,
{
    if cap > other {
        lemma_pow2_double(other, cap);
    }
}

/// Between a power of two and its double there is no other.
pub proof fn lemma_pow2_gap(p: int, q: int)
    requires
        is_pow2(p),
        is_pow2(q),
        q <= p,
        p == 1 || p / 2 < q,
    ensures
        p == q,
    decreases p,
{
    if q > 1 && p > 1 {
        lemma_pow2_gap(p / 2, q / 2);
    }
}

} // verus!
