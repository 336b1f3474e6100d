//! A flat lookup table for merges whose priority is the merged index.
use crate::bpe::merge::{id_rules, lemma_merge_key, merge_key, IdMerges};
use crate::bpe::rules::{MergeRules, Rules, NO_MERGE};
use crate::maps::{lists_map, map_entries};
use crate::token::TokenId;
use vstd::prelude::*;
use vstd::set_lib::lemma_int_range;

verus! {

/// Every index must fit a 21-bit key lane.
pub const PAIR_ID_LIMIT: u32 = 0x20_0000;

/// The dense grid covers pairs with both sides below this.
const DENSE_SIDE: u32 = 2048;

/// Number of grid cells.
const DENSE_CELLS: usize = 0x40_0000;

/// An empty slot; real slots fit 63 bits.
const EMPTY: u64 = u64::MAX;

/// A table slot gives up on an entry displaced further than this.
pub const MAX_DISPLACEMENT: usize = 64;

/// Merge lookup: a dense grid for pairs of small indices, over an
/// open-addressed table of all merges whose slots pack key and value.
pub struct PairRankTable {
    /// `dense[a * 2048 + b]`, [`NO_MERGE`] when the pair does not merge.
    dense: Vec<u32>,
    /// `((a << 21 | b) << 21) | merged`, or [`EMPTY`].
    slots: Vec<u64>,
    /// `slots.len() - 1`; the length is a power of two.
    mask: u64,
    /// The hash keeps the top `64 - shift` bits.
    shift: u32,
    /// The merges the table was built from.
    merges: Ghost<Map<u64, TokenId>>,
    /// The same merges, in the order they were placed.
    entries: Ghost<Seq<(u64, TokenId)>>,
    /// A slot that is empty, which ends every probe.
    hole: Ghost<int>,
}

/// The 42-bit key of a pair.
spec fn pack_pair(a: u32, b: u32) -> u64 {
    ((a as u64) << 21) | b as u64
}

/// The slot of a pair and its merged index.
spec fn pack_slot(a: u32, b: u32, m: u32) -> u64 {
    (pack_pair(a, b) << 21) | m as u64
}

proof fn lemma_slot(a: u32, b: u32, m: u32)
    requires
        a < PAIR_ID_LIMIT,
        b < PAIR_ID_LIMIT,
        m < PAIR_ID_LIMIT,
    ensures
        pack_slot(a, b, m) >> 21 == pack_pair(a, b),
        pack_slot(a, b, m) & 0x1f_ffff == m as u64,
        pack_slot(a, b, m) != EMPTY,
        EMPTY >> 21 != pack_pair(a, b),
{
    assert(((((((a as u64) << 21) | b as u64) << 21) | m as u64) >> 21) == (((a as u64) << 21)
        | b as u64)) by (bit_vector)
        requires
            a < 0x20_0000,
            b < 0x20_0000,
            m < 0x20_0000,
    ;
    assert(((((((a as u64) << 21) | b as u64) << 21) | m as u64) & 0x1f_ffff) == m as u64)
        by (bit_vector)
        requires
            m < 0x20_0000,
    ;
    assert(((((((a as u64) << 21) | b as u64) << 21) | m as u64)) != 0xffff_ffff_ffff_ffffu64
        && (0xffff_ffff_ffff_ffffu64 >> 21) != (((a as u64) << 21) | b as u64)) by (bit_vector)
        requires
            a < 0x20_0000,
            b < 0x20_0000,
            m < 0x20_0000,
    ;
}

proof fn lemma_pair_injective(a: u32, b: u32, c: u32, d: u32)
    requires
        a < PAIR_ID_LIMIT,
        b < PAIR_ID_LIMIT,
        c < PAIR_ID_LIMIT,
        d < PAIR_ID_LIMIT,
        pack_pair(a, b) == pack_pair(c, d),
    ensures
        a == c,
        b == d,
{
    assert((((a as u64) << 21) | b as u64) == (((c as u64) << 21) | d as u64) ==> a == c && b == d)
        by (bit_vector)
        requires
            a < 0x20_0000,
            b < 0x20_0000,
            c < 0x20_0000,
            d < 0x20_0000,
    ;
}

/// Both sides are small exactly when their union has no high bit.
proof fn lemma_dense(a: u32, b: u32)
    ensures
        ((a | b) >> 11 == 0) <==> (a < DENSE_SIDE && b < DENSE_SIDE),
{
    assert(((a | b) >> 11 == 0) <==> (a < 2048 && b < 2048)) by (bit_vector);
}

/// The position `d` steps after `h` on a ring of `n` slots.
spec fn ring(h: int, d: int, n: int) -> int {
    if h + d < n {
        h + d
    } else {
        h + d - n
    }
}

/// Advancing by one on a ring whose length is a power of two.
proof fn lemma_next(x: u64, shift: u32)
    requires
        1 <= shift <= 63,
        x <= u64::MAX >> shift,
    ensures
        x < u64::MAX,
        (x + 1) as u64 & (u64::MAX >> shift) == if x == u64::MAX >> shift {
            0
        } else {
            (x + 1) as u64
        },
{
    assert(x < 0xffff_ffff_ffff_ffffu64 && ((x + 1) as u64) & (0xffff_ffff_ffff_ffffu64 >> shift)
        == if x == 0xffff_ffff_ffff_ffffu64 >> shift {
        0
    } else {
        (x + 1) as u64
    }) by (bit_vector)
        requires
            1 <= shift <= 63,
            x <= 0xffff_ffff_ffff_ffffu64 >> shift,
    ;
}

/// The first slot probed for a key.
spec fn home(key: u64, shift: u32) -> int {
    (key.wrapping_mul(0x9E37_79B9_7F4A_7C15) >> shift) as int
}

proof fn lemma_home(x: u64, shift: u32)
    requires
        1 <= shift <= 63,
    ensures
        x >> shift <= u64::MAX >> shift,
{
    assert(x >> shift <= 0xffff_ffff_ffff_ffffu64 >> shift) by (bit_vector)
        requires
            1 <= shift <= 63,
    ;
}

/// Slot `home + d` holds `v`, and every slot before it on the probe path is
/// taken.
spec fn stands(slots: Seq<u64>, h: int, d: int, v: u64) -> bool {
    &&& 0 <= d < slots.len()
    &&& 0 <= h < slots.len()
    &&& slots[ring(h, d, slots.len() as int)] == v
    &&& forall|c: int|
        0 <= c < d ==> slots[#[trigger] ring(h, c, slots.len() as int)] != EMPTY
}

/// The left index of an entry.
pub open spec fn left_of(e: (u64, TokenId)) -> u32 {
    (e.0 >> 32) as u32
}

/// The right index of an entry.
pub open spec fn right_of(e: (u64, TokenId)) -> u32 {
    e.0 as u32
}

/// The slot of an entry.
spec fn slot_of(e: (u64, TokenId)) -> u64 {
    pack_slot(left_of(e), right_of(e), e.1.0)
}

/// All indices of an entry fit a key lane.
pub open spec fn fits(e: (u64, TokenId)) -> bool {
    left_of(e) < PAIR_ID_LIMIT && right_of(e) < PAIR_ID_LIMIT && e.1.0 < PAIR_ID_LIMIT
}

/// The first slot probed for an entry.
spec fn home_of(e: (u64, TokenId), shift: u32) -> int {
    home(pack_pair(left_of(e), right_of(e)), shift)
}

/// An entry stands somewhere on its probe path.
spec fn placed(slots: Seq<u64>, e: (u64, TokenId), shift: u32) -> bool {
    exists|d: int| stands(slots, home_of(e, shift), d, slot_of(e))
}

/// A slot value belongs to one of the first `n` entries.
spec fn listed(es: Seq<(u64, TokenId)>, n: int, v: u64) -> bool {
    exists|j: int| 0 <= j < n && v == slot_of(#[trigger] es[j])
}

/// The first `n` entries stand in `slots`, and nothing else does.
spec fn slots_hold(slots: Seq<u64>, es: Seq<(u64, TokenId)>, n: int, shift: u32) -> bool {
    &&& forall|j: int| 0 <= j < n ==> placed(slots, #[trigger] es[j], shift)
    &&& forall|p: int|
        0 <= p < slots.len() && #[trigger] slots[p] != EMPTY ==> listed(es, n, slots[p])
}

/// The small pairs among the first `n` entries stand in `dense`, and nothing
/// else does.
spec fn dense_holds(dense: Seq<u32>, es: Seq<(u64, TokenId)>, n: int) -> bool {
    &&& forall|j: int|
        0 <= j < n && left_of(#[trigger] es[j]) < DENSE_SIDE && right_of(es[j]) < DENSE_SIDE
            ==> dense[left_of(es[j]) * DENSE_SIDE + right_of(es[j])] == es[j].1.0
    &&& forall|p: int|
        0 <= p < DENSE_CELLS && #[trigger] dense[p] != NO_MERGE ==> exists|j: int|
            0 <= j < n && left_of(#[trigger] es[j]) < DENSE_SIDE && right_of(es[j]) < DENSE_SIDE
                && p == left_of(es[j]) * DENSE_SIDE + right_of(es[j])
}

/// Two cells of the grid are the same only for the same pair.
proof fn lemma_cell(a: u32, b: u32, c: u32, d: u32)
    requires
        b < DENSE_SIDE,
        d < DENSE_SIDE,
        a * DENSE_SIDE + b == c * DENSE_SIDE + d,
    ensures
        a == c,
        b == d,
{
}

/// Placing a slot value into an empty slot keeps the others standing.
proof fn lemma_place(
    slots: Seq<u64>,
    es: Seq<(u64, TokenId)>,
    n: int,
    shift: u32,
    h: int,
    d: int,
    v: u64,
)
    requires
        slots_hold(slots, es, n, shift),
        0 <= n < es.len(),
        0 <= h < slots.len(),
        0 <= d < slots.len(),
        h == home_of(es[n], shift),
        v == slot_of(es[n]),
        v != EMPTY,
        slots[ring(h, d, slots.len() as int)] == EMPTY,
        forall|c: int| 0 <= c < d ==> slots[#[trigger] ring(h, c, slots.len() as int)] != EMPTY,
        forall|j: int| 0 <= j < es.len() ==> slot_of(#[trigger] es[j]) != EMPTY,
    ensures
        slots_hold(slots.update(ring(h, d, slots.len() as int), v), es, n + 1, shift),
{
    let p = ring(h, d, slots.len() as int);
    let slots2 = slots.update(p, v);
    assert forall|j: int| 0 <= j < n + 1 implies placed(slots2, #[trigger] es[j], shift) by {
        let hj = home_of(es[j], shift);
        if j == n {
            assert(stands(slots2, hj, d, slot_of(es[j])));
        } else {
            lemma_still_stands(slots, p, v, es[j], shift);
        }
    }
    assert forall|q: int| 0 <= q < slots2.len() && #[trigger] slots2[q] != EMPTY implies listed(
        es,
        n + 1,
        slots2[q],
    ) by {
        if q == p {
            assert(slots2[q] == slot_of(es[n]));
        } else {
            assert(slots[q] != EMPTY);
            assert(listed(es, n, slots[q]));
            let j = choose|j: int| 0 <= j < n && slots[q] == slot_of(#[trigger] es[j]);
            assert(slots2[q] == slot_of(es[j]));
        }
    }
}

/// Filling an empty slot moves no other entry.
proof fn lemma_still_stands(slots: Seq<u64>, p: int, v: u64, e: (u64, TokenId), shift: u32)
    requires
        placed(slots, e, shift),
        0 <= p < slots.len(),
        slots[p] == EMPTY,
        v != EMPTY,
        slot_of(e) != EMPTY,
    ensures
        placed(slots.update(p, v), e, shift),
{
    let h = home_of(e, shift);
    let n = slots.len() as int;
    let d = choose|d: int| stands(slots, h, d, slot_of(e));
    assert(stands(slots, h, d, slot_of(e)));
    let slots2 = slots.update(p, v);
    assert forall|c: int| 0 <= c < d implies slots2[#[trigger] ring(h, c, n)] != EMPTY by {
        assert(slots[ring(h, c, n)] != EMPTY);
    }
    assert(stands(slots2, h, d, slot_of(e)));
}

/// A probe from `h` on meets more than [`MAX_DISPLACEMENT`] taken slots.
spec fn no_hole(slots: Seq<u64>, h: int) -> bool {
    forall|c: int|
        0 <= c <= MAX_DISPLACEMENT ==> slots[#[trigger] ring(h, c, slots.len() as int)] != EMPTY
}

/// The slots for `n` merges, as the shift that leaves their index of a hash: the
/// fewest, as a power of two of at least 64, that are at most half taken.
spec fn is_table_shift(shift: u32, n: int) -> bool {
    let slots = (u64::MAX >> shift) + 1;
    20 <= shift <= 58 && n <= slots / 2 && (slots == 64 || slots / 4 < n)
}

/// The first `i` of the entries `es` stand in `slots`, and a probe for the next
/// one meets more than [`MAX_DISPLACEMENT`] taken slots.
spec fn blocked(es: Seq<(u64, TokenId)>, slots: Seq<u64>, shift: u32, i: int) -> bool {
    &&& slots.len() == (u64::MAX >> shift) + 1
    &&& 0 <= i < es.len()
    &&& slots_hold(slots, es, i, shift)
    &&& no_hole(slots, home_of(es[i], shift))
}

/// The hash clusters badly: placed one after the other in some order, each in
/// the first empty slot from its hash on, the merges come to one for which more
/// than [`MAX_DISPLACEMENT`] slots from its hash on are taken.
pub closed spec fn clusters(m: Map<u64, TokenId>) -> bool {
    exists|es: Seq<(u64, TokenId)>, slots: Seq<u64>, shift: u32, i: int|
        lists_map(es, m) && is_table_shift(shift, es.len() as int) && #[trigger] blocked(
            es,
            slots,
            shift,
            i,
        )
}

/// More merges than a table can address.
pub open spec fn too_many(n: nat) -> bool {
    n > 0x800_0000_0000 || n > usize::MAX / 4
}

/// The first empty slot on a probe path and its distance, or `None` when it
/// lies more than [`MAX_DISPLACEMENT`] steps away.
fn find_empty(slots: &Vec<u64>, hash: u64, mask: u64, shift: u32, occ: Ghost<Set<int>>) -> (r: Option<
    (usize, usize),
>)
    requires
        64 <= slots@.len() == mask + 1,
        1 <= shift <= 63,
        mask == u64::MAX >> shift,
        hash <= mask,
        occ@.finite(),
        occ@.len() < slots@.len(),
        forall|p: int| 0 <= p < slots@.len() && #[trigger] slots@[p] != EMPTY ==> occ@.contains(p),
    ensures
        r matches Some((idx, d)) ==> {
            &&& d < slots@.len()
            &&& idx == ring(hash as int, d as int, slots@.len() as int)
            &&& idx < slots@.len()
            &&& slots@[idx as int] == EMPTY
            &&& forall|c: int|
                0 <= c < d ==> slots@[#[trigger] ring(hash as int, c, slots@.len() as int)] != EMPTY
        },
        r is None ==> occ@.len() > MAX_DISPLACEMENT && no_hole(slots@, hash as int),
{
    let len: usize = slots.len();
    let mut idx: usize = hash as usize;
    let mut displacement: usize = 0;
    while slots[idx] != EMPTY
        invariant
            idx < slots@.len(),
            len == slots@.len() == mask + 1,
            64 <= slots@.len(),
            1 <= shift <= 63,
            mask == u64::MAX >> shift,
            hash <= mask,
            displacement <= 64,
            displacement < slots@.len(),
            idx == ring(hash as int, displacement as int, slots@.len() as int),
            forall|c: int|
                0 <= c < displacement ==> slots@[#[trigger] ring(hash as int, c, slots@.len() as int)]
                    != EMPTY,
            occ@.finite(),
            occ@.len() < slots@.len(),
            forall|p: int|
                0 <= p < slots@.len() && #[trigger] slots@[p] != EMPTY ==> occ@.contains(p),
        decreases 65 - displacement,
    {
        proof {
            lemma_next(idx as u64, shift);
            lemma_probe_bound(slots@, hash as int, displacement as int + 1, occ@);
        }
        idx = ((idx as u64 + 1) & mask) as usize;
        displacement += 1;
        // Give up on ugly clustering.
        if displacement > MAX_DISPLACEMENT {
            proof {
                assert forall|c: int| 0 <= c <= MAX_DISPLACEMENT implies slots@[#[trigger] ring(
                    hash as int,
                    c,
                    slots@.len() as int,
                )] != EMPTY by {}
            }
            return None;
        }
    }
    Some((idx, displacement))
}

/// The sizes of grid and slots, and one slot that is empty.
spec fn levels_ok(dense: Seq<u32>, slots: Seq<u64>, mask: u64, shift: u32, hole: int) -> bool {
    &&& dense.len() == DENSE_CELLS
    &&& 1 <= shift <= 63
    &&& mask == u64::MAX >> shift
    &&& slots.len() == mask + 1
    &&& 0 <= hole < slots.len()
    &&& slots[hole] == EMPTY
}

/// Grid and slots hold exactly the entries `es` of the merges `m`.
spec fn table_ok(
    dense: Seq<u32>,
    slots: Seq<u64>,
    shift: u32,
    es: Seq<(u64, TokenId)>,
    m: Map<u64, TokenId>,
) -> bool {
    &&& lists_map(es, m)
    &&& forall|j: int| 0 <= j < es.len() ==> fits(#[trigger] es[j])
    &&& slots_hold(slots, es, es.len() as int, shift)
    &&& dense_holds(dense, es, es.len() as int)
}

impl PairRankTable {
    /// The merges the table answers for.
    pub closed spec fn view(&self) -> Map<u64, TokenId> {
        self.merges@
    }

    #[verifier::type_invariant]
    spec fn wf(&self) -> bool {
        &&& levels_ok(self.dense@, self.slots@, self.mask, self.shift, self.hole@)
        &&& table_ok(self.dense@, self.slots@, self.shift, self.entries@, self.merges@)
    }

    /// Builds the table, or `None` when these merges cannot use it: the
    /// vocabulary or an index is too large for the packed key, or the hash
    /// clusters badly. A table of at most 64 merges never clusters.
    pub fn build(merges: &IdMerges, vocab_len: usize) -> (r: Option<Self>)
        ensures
            r matches Some(t) ==> t@ == merges@ && vocab_len <= PAIR_ID_LIMIT && forall|k: u64| #[trigger]
                merges@.contains_key(k) ==> fits((k, merges@[k])),
            r is None ==> {
                ||| vocab_len > PAIR_ID_LIMIT
                ||| exists|k: u64| #[trigger] merges@.contains_key(k) && !fits((k, merges@[k]))
                ||| too_many(merges@.len())
                ||| merges@.len() > MAX_DISPLACEMENT && clusters(merges@)
            },
    {
        if vocab_len > 0x20_0000 {
            return None;
        }
        let es = map_entries(merges);
        let mut i: usize = 0;
        while i < es.len()
            invariant
                i <= es@.len(),
                lists_map(es@, merges@),
                forall|j: int| 0 <= j < i ==> fits(#[trigger] es@[j]),
            decreases es@.len() - i,
        {
            let (k, m) = es[i];
            if (k >> 32) as u32 >= PAIR_ID_LIMIT || k as u32 >= PAIR_ID_LIMIT || m.0
                >= PAIR_ID_LIMIT {
                proof {
                    assert(merges@.contains_key(es@[i as int].0));
                    assert(!fits((k, merges@[k])));
                }
                return None;
            }
            i += 1;
        }
        let count: usize = es.len();
        // The flat level holds all merges at no more than half load.
        let mut n_slots: u64 = 64;
        let mut shift: u32 = 58;
        proof {
            assert(0xffff_ffff_ffff_ffffu64 >> 58u32 == 63) by (bit_vector);
        }
        while n_slots / 2 < count as u64 && shift > 20
            invariant
                n_slots == 64 || n_slots / 4 < count,
                20 <= shift <= 58,
                64 <= n_slots,
                n_slots - 1 == u64::MAX >> shift,
            decreases shift,
        {
            proof {
                let s = shift;
                assert((0xffff_ffff_ffff_ffffu64 >> ((s - 1) as u32)) == 2 * (
                0xffff_ffff_ffff_ffffu64 >> s) + 1) by (bit_vector)
                    requires
                        1 <= s <= 63,
                ;
                assert(0xffff_ffff_ffff_ffffu64 >> s <= 0xfff_ffff_ffff) by (bit_vector)
                    requires
                        20 <= s <= 63,
                ;
            }
            n_slots = n_slots * 2;
            shift = shift - 1;
        }
        if n_slots / 2 < count as u64 || n_slots > usize::MAX as u64 {
            proof {
                assert(0xffff_ffff_ffff_ffffu64 >> 20u32 == 0xfff_ffff_ffff) by (bit_vector);
                assert(merges@.len() == count);
            }
            return None;
        }
        let mut dense: Vec<u32> = vec![NO_MERGE; DENSE_CELLS];
        let mut slots: Vec<u64> = vec![EMPTY; n_slots as usize];
        let mask: u64 = n_slots - 1;
        let ghost mut occ: Set<int> = Set::empty();
        let mut i: usize = 0;
        while i < count
            invariant
                i <= count == es@.len(),
                lists_map(es@, merges@),
                forall|j: int| 0 <= j < es@.len() ==> fits(#[trigger] es@[j]),
                dense@.len() == DENSE_CELLS,
                slots@.len() == n_slots == mask + 1,
                64 <= n_slots <= usize::MAX,
                20 <= shift <= 58,
                mask == u64::MAX >> shift,
                count <= n_slots / 2,
                n_slots == 64 || n_slots / 4 < count,
                slots_hold(slots@, es@, i as int, shift),
                dense_holds(dense@, es@, i as int),
                occ.finite(),
                occ.len() == i,
                forall|p: int| 0 <= p < slots@.len() && #[trigger] slots@[p] != EMPTY ==> occ.contains(p),
                forall|p: int| #[trigger] occ.contains(p) ==> 0 <= p < slots@.len() && slots@[p] != EMPTY,
            decreases count - i,
        {
            let (k, m) = es[i];
            let a: u32 = (k >> 32) as u32;
            let b: u32 = k as u32;
            proof {
                assert(fits(es@[i as int]));
                lemma_dense(a, b);
                lemma_slot(a, b, m.0);
                assert forall|j: int| 0 <= j < es@.len() implies slot_of(#[trigger] es@[j]) != EMPTY by {
                    lemma_slot(left_of(es@[j]), right_of(es@[j]), es@[j].1.0);
                }
            }
            if (a | b) >> 11 == 0 {
                let cell: usize = a as usize * 2048 + b as usize;
                let ghost dense1 = dense@;
                dense[cell] = m.0;
                proof {
                    lemma_dense_place(dense1, es@, i as int, merges@);
                }
            }
            let key: u64 = ((a as u64) << 21) | b as u64;
            let hash: u64 = key.wrapping_mul(0x9E37_79B9_7F4A_7C15) >> shift;
            proof {
                lemma_home(key.wrapping_mul(0x9E37_79B9_7F4A_7C15), shift);
            }
            let found = find_empty(&slots, hash, mask, shift, Ghost(occ));
            if found.is_none() {
                proof {
                    assert(merges@.len() == count);
                    assert(is_table_shift(shift, count as int));
                    assert(blocked(es@, slots@, shift, i as int));
                }
                return None;
            }
            let (idx, displacement) = found.unwrap();
            let slot: u64 = (key << 21) | m.0 as u64;
            proof {
                lemma_place(slots@, es@, i as int, shift, hash as int, displacement as int, slot);
            }
            let ghost slots1 = slots@;
            slots[idx] = slot;
            proof {
                let occ1 = occ;
                occ = occ1.insert(idx as int);
                assert(!occ1.contains(idx as int));
                assert forall|p: int|
                    0 <= p < slots@.len() && #[trigger] slots@[p] != EMPTY implies occ.contains(
                    p,
                ) by {
                    if p != idx {
                        assert(slots1[p] != EMPTY);
                    }
                }
                assert forall|p: int| #[trigger] occ.contains(p) implies 0 <= p < slots@.len()
                    && slots@[p] != EMPTY by {
                    if p != idx {
                        assert(occ1.contains(p));
                    }
                }
            }
            i += 1;
        }
        let held: Ghost<Map<u64, TokenId>> = Ghost(merges@);
        let hole: Ghost<int> = Ghost(
            choose|e: int| 0 <= e < slots@.len() && #[trigger] slots@[e] == EMPTY,
        );
        proof {
            if forall|e: int| 0 <= e < slots@.len() ==> #[trigger] slots@[e] != EMPTY {
                lemma_int_range(0, slots@.len() as int);
                let all = vstd::set_lib::set_int_range(0, slots@.len() as int);
                assert forall|p: int| all.contains(p) implies occ.contains(p) by {
                    assert(slots@[p] != EMPTY);
                }
                vstd::set_lib::lemma_len_subset(all, occ);
                assert(false);
            }
            assert forall|k: u64| #[trigger] merges@.contains_key(k) implies fits((k, merges@[k])) by {
                let j = choose|j: int| 0 <= j < es@.len() && (#[trigger] es@[j]).0 == k;
                assert(fits(es@[j]));
            }
            assert(table_ok(dense@, slots@, shift, es@, held@));
            assert(levels_ok(dense@, slots@, mask, shift, hole@));
        }
        Some(PairRankTable { dense, slots, mask, shift, merges: held, entries: Ghost(es@), hole })
    }

    /// The merged index of the pair `(a, b)`, or [`NO_MERGE`] when it does
    /// not merge.
    pub fn rank(&self, a: TokenId, b: TokenId) -> (r: u32)
        ensures
            r == id_rules(self@)(a, b).1,
    {
        proof {
            use_type_invariant(self);
            lemma_dense(a.0, b.0);
            lemma_merge_key(a, b);
        }
        let ghost es = self.entries@;
        if (a.0 | b.0) >> 11 == 0 {
            let cell: usize = a.0 as usize * 2048 + b.0 as usize;
            proof {
                lemma_dense_lookup(self.dense@, es, self.merges@, a, b);
            }
            return self.dense[cell];
        }
        if a.0 >= PAIR_ID_LIMIT || b.0 >= PAIR_ID_LIMIT {
            proof {
                if self.merges@.contains_key(merge_key(a, b)) {
                    let j = choose|j: int| 0 <= j < es.len() && (#[trigger] es[j]).0 == merge_key(a, b);
                    assert(fits(es[j]));
                }
            }
            return NO_MERGE;
        }
        let key: u64 = ((a.0 as u64) << 21) | b.0 as u64;
        let hash: u64 = key.wrapping_mul(0x9E37_79B9_7F4A_7C15) >> self.shift;
        proof {
            lemma_home(key.wrapping_mul(0x9E37_79B9_7F4A_7C15), self.shift);
        }
        let len: usize = self.slots.len();
        let mut idx: usize = hash as usize;
        let ghost mut d: int = 0;
        let ghost n = self.slots@.len() as int;
        let ghost e = self.hole@;
        let ghost de = if e >= hash { e - hash } else { e - hash + n };
        loop
            invariant
                n == self.slots@.len() == len,
                self.slots@.len() == self.mask + 1,
                1 <= self.shift <= 63,
                self.mask == u64::MAX >> self.shift,
                0 <= hash < n,
                0 <= d <= de < n,
                ring(hash as int, de, n) == e,
                self.slots@[e] == EMPTY,
                idx == ring(hash as int, d, n),
                idx < n,
                key == pack_pair(a.0, b.0),
                a.0 < PAIR_ID_LIMIT,
                b.0 < PAIR_ID_LIMIT,
                hash == home(key, self.shift),
                lists_map(es, self.merges@),
                forall|j: int| 0 <= j < es.len() ==> fits(#[trigger] es[j]),
                slots_hold(self.slots@, es, es.len() as int, self.shift),
                forall|c: int|
                    0 <= c < d ==> self.slots@[#[trigger] ring(hash as int, c, n)] != EMPTY
                        && self.slots@[ring(hash as int, c, n)] >> 21 != key,
                self@ == self.merges@,
            decreases de - d,
        {
            let slot: u64 = self.slots[idx];
            proof {
                lemma_slot(a.0, b.0, 0);
                lemma_slot_lookup(self.slots@, es, self.merges@, a, b, self.shift, d);
            }
            if slot >> 21 == key {
                return (slot & 0x1f_ffff) as u32;
            }
            if slot == EMPTY {
                return NO_MERGE;
            }
            proof {
                lemma_next(idx as u64, self.shift);
                d = d + 1;
            }
            idx = ((idx as u64 + 1) & self.mask) as usize;
        }
    }
}

/// A run of taken slots is no longer than the number of taken slots.
proof fn lemma_probe_bound(slots: Seq<u64>, h: int, d: int, occ: Set<int>)
    requires
        0 <= h < slots.len(),
        0 <= d <= slots.len(),
        occ.finite(),
        forall|p: int| 0 <= p < slots.len() && #[trigger] slots[p] != EMPTY ==> occ.contains(p),
        forall|c: int| 0 <= c < d ==> slots[#[trigger] ring(h, c, slots.len() as int)] != EMPTY,
    ensures
        d <= occ.len(),
{
    let n = slots.len() as int;
    let f = |c: int| ring(h, c, n);
    lemma_int_range(0, d);
    let steps = vstd::set_lib::set_int_range(0, d);
    let run = steps.map(f);
    assert forall|x: int, y: int| steps.contains(x) && steps.contains(y) && f(x) == f(y) implies x
        == y by {}
    vstd::set_lib::lemma_map_size(steps, run, f);
    assert forall|p: int| run.contains(p) implies occ.contains(p) by {
        let c = choose|c: int| steps.contains(c) && f(c) == p;
        assert(slots[ring(h, c, n)] != EMPTY);
    }
    vstd::set_lib::lemma_len_subset(run, occ);
}

/// Writing one grid cell.
proof fn lemma_dense_place(
    dense: Seq<u32>,
    es: Seq<(u64, TokenId)>,
    n: int,
    merges: Map<u64, TokenId>,
)
    requires
        dense.len() == DENSE_CELLS,
        dense_holds(dense, es, n),
        lists_map(es, merges),
        0 <= n < es.len(),
        left_of(es[n]) < DENSE_SIDE,
        right_of(es[n]) < DENSE_SIDE,
    ensures
        dense_holds(
            dense.update(left_of(es[n]) * DENSE_SIDE + right_of(es[n]), es[n].1.0),
            es,
            n + 1,
        ),
{
    let cell = left_of(es[n]) * DENSE_SIDE + right_of(es[n]);
    let dense2 = dense.update(cell, es[n].1.0);
    assert forall|j: int|
        0 <= j < n + 1 && left_of(#[trigger] es[j]) < DENSE_SIDE && right_of(es[j])
            < DENSE_SIDE implies dense2[left_of(es[j]) * DENSE_SIDE + right_of(es[j])] == es[j].1.0 by {
        if j != n {
            assert(es[j].0 != es[n].0);
            lemma_key_parts(es[j].0, es[n].0);
            if left_of(es[j]) * DENSE_SIDE + right_of(es[j]) == cell {
                lemma_cell(left_of(es[j]), right_of(es[j]), left_of(es[n]), right_of(es[n]));
            }
        }
    }
    assert forall|p: int| 0 <= p < DENSE_CELLS && #[trigger] dense2[p] != NO_MERGE implies exists|
        j: int,
    |
        0 <= j < n + 1 && left_of(#[trigger] es[j]) < DENSE_SIDE && right_of(es[j]) < DENSE_SIDE
            && p == left_of(es[j]) * DENSE_SIDE + right_of(es[j]) by {
        if p == cell {
            assert(left_of(es[n]) < DENSE_SIDE);
        } else {
            assert(dense[p] != NO_MERGE);
        }
    }
}

/// A key is determined by its two halves.
proof fn lemma_key_parts(k: u64, l: u64)
    ensures
        (k >> 32) as u32 == (l >> 32) as u32 && k as u32 == l as u32 ==> k == l,
{
    assert((k >> 32) as u32 == (l >> 32) as u32 && k as u32 == l as u32 ==> k == l)
        by (bit_vector);
}

/// The entry of a pair that merges.
proof fn lemma_entry_of(es: Seq<(u64, TokenId)>, m: Map<u64, TokenId>, a: TokenId, b: TokenId, j: int)
    requires
        lists_map(es, m),
        0 <= j < es.len(),
    ensures
        left_of(es[j]) == a.0 && right_of(es[j]) == b.0 <==> es[j].0 == merge_key(a, b),
        es[j].0 == merge_key(a, b) ==> m.contains_key(merge_key(a, b)) && m[merge_key(a, b)]
            == es[j].1,
{
    lemma_merge_key(a, b);
    lemma_key_parts(es[j].0, merge_key(a, b));
}

/// What a grid cell says of its pair.
proof fn lemma_dense_lookup(
    dense: Seq<u32>,
    es: Seq<(u64, TokenId)>,
    m: Map<u64, TokenId>,
    a: TokenId,
    b: TokenId,
)
    requires
        lists_map(es, m),
        forall|j: int| 0 <= j < es.len() ==> fits(#[trigger] es[j]),
        dense_holds(dense, es, es.len() as int),
        dense.len() == DENSE_CELLS,
        a.0 < DENSE_SIDE,
        b.0 < DENSE_SIDE,
    ensures
        dense[a.0 * DENSE_SIDE + b.0] == id_rules(m)(a, b).1,
{
    let p = a.0 * DENSE_SIDE + b.0;
    if m.contains_key(merge_key(a, b)) {
        let j = choose|j: int| 0 <= j < es.len() && (#[trigger] es[j]).0 == merge_key(a, b);
        lemma_entry_of(es, m, a, b, j);
        assert(left_of(es[j]) < DENSE_SIDE);
    } else if dense[p] != NO_MERGE {
        let j = choose|j: int|
            0 <= j < es.len() && left_of(#[trigger] es[j]) < DENSE_SIDE && right_of(es[j])
                < DENSE_SIDE && p == left_of(es[j]) * DENSE_SIDE + right_of(es[j]);
        lemma_cell(a.0, b.0, left_of(es[j]), right_of(es[j]));
        lemma_entry_of(es, m, a, b, j);
    }
}

/// What the slot at probe distance `d` says of the pair, when no earlier slot
/// on the path was empty or held it.
proof fn lemma_slot_lookup(
    slots: Seq<u64>,
    es: Seq<(u64, TokenId)>,
    m: Map<u64, TokenId>,
    a: TokenId,
    b: TokenId,
    shift: u32,
    d: int,
)
    requires
        lists_map(es, m),
        forall|j: int| 0 <= j < es.len() ==> fits(#[trigger] es[j]),
        slots_hold(slots, es, es.len() as int, shift),
        a.0 < PAIR_ID_LIMIT,
        b.0 < PAIR_ID_LIMIT,
        0 <= home(pack_pair(a.0, b.0), shift) < slots.len(),
        0 <= d < slots.len(),
        forall|c: int|
            0 <= c < d ==> slots[#[trigger] ring(
                home(pack_pair(a.0, b.0), shift),
                c,
                slots.len() as int,
            )] >> 21 != pack_pair(a.0, b.0),
    ensures
        ({
            let slot = slots[ring(home(pack_pair(a.0, b.0), shift), d, slots.len() as int)];
            &&& slot >> 21 == pack_pair(a.0, b.0) ==> (slot & 0x1f_ffff) as u32 == id_rules(m)(a, b).1
            &&& slot == EMPTY ==> id_rules(m)(a, b).1 == NO_MERGE
        }),
{
    let h = home(pack_pair(a.0, b.0), shift);
    let p = ring(h, d, slots.len() as int);
    let slot = slots[p];
    lemma_slot(a.0, b.0, 0);
    if slot >> 21 == pack_pair(a.0, b.0) {
        assert(slots[p] != EMPTY);
        assert(listed(es, es.len() as int, slots[p]));
        let j = choose|j: int| 0 <= j < es.len() && slots[p] == slot_of(#[trigger] es[j]);
        assert(fits(es[j]));
        lemma_slot(left_of(es[j]), right_of(es[j]), es[j].1.0);
        lemma_pair_injective(a.0, b.0, left_of(es[j]), right_of(es[j]));
        lemma_entry_of(es, m, a, b, j);
    }
    if slot == EMPTY && m.contains_key(merge_key(a, b)) {
        let j = choose|j: int| 0 <= j < es.len() && (#[trigger] es[j]).0 == merge_key(a, b);
        lemma_entry_of(es, m, a, b, j);
        assert(placed(slots, es[j], shift));
        let dj = choose|d: int| stands(slots, h, d, slot_of(es[j]));
        assert(stands(slots, h, dj, slot_of(es[j])));
        assert(fits(es[j]));
        lemma_slot(left_of(es[j]), right_of(es[j]), es[j].1.0);
        if dj < d {
            assert(slots[ring(h, dj, slots.len() as int)] >> 21 != pack_pair(a.0, b.0));
        } else if dj > d {
            assert(slots[ring(h, d, slots.len() as int)] != EMPTY);
        }
    }
}

impl MergeRules for PairRankTable {
    open spec fn rules(&self) -> Rules {
        id_rules(self@)
    }

    fn get(&self, a: TokenId, b: TokenId) -> (r: (TokenId, u32)) {
        let r: u32 = self.rank(a, b);
        (TokenId(r), r)
    }
}

} // verus!
