//! The unit caches of one encoder.
use crate::bpe::cache_value::append_tokens;
use crate::bpe::caches::{continues, is_short, key_of};
use crate::bpe::tiktoken::DEFAULT_MAX_CACHE_BYTES;
use crate::bytes_map::BytesMap;
use crate::pretokenize::keys::{law_keys_distinct, pack_pretoken_key};
use crate::sp::cuts::unit_tokens;
use crate::sp::symbols::SpView;
use crate::token::TokenId;
use std::collections::HashMap;
use vstd::prelude::*;

verus! {

broadcast use vstd::std_specs::hash::group_hash_axioms;

/// The entries of the direct-mapped front cache.
pub const FRONT_ENTRIES: usize = 0x10_0000;

/// The bytes of the front cache: a key of 16 and a value of 8 per entry.
pub const FRONT_BYTES: usize = 0x180_0000;

/// Estimated bytes of a map entry; a long one has its key bytes on top.
pub const MAP_ENTRY_BYTES: usize = 48;

/// The place of a key in the front cache.
pub open spec fn front_place(key: u128) -> int {
    let folded = (key as u64) ^ ((key >> 64) as u64);
    (folded.wrapping_mul(0x9E37_79B9_7F4A_7C15) >> 44) as int
}

/// The place of a key in the front cache.
fn front_index(key: u128) -> (i: usize)
    ensures
        i == front_place(key),
        i < FRONT_ENTRIES,
{
    let folded: u64 = (key as u64) ^ ((key >> 64) as u64);
    let h: u64 = folded.wrapping_mul(0x9E37_79B9_7F4A_7C15);
    proof {
        assert(h >> 44u64 < 0x10_0000u64) by (bit_vector);
    }
    (h >> 44) as usize
}

/// A cache value: where the tokens stand in the arena and how many they are.
pub open spec fn slice_is(arena: Seq<TokenId>, val: (u32, u32), toks: Seq<TokenId>) -> bool {
    val.0 + val.1 <= arena.len() && arena.subrange(val.0 as int, val.0 + val.1) == toks
}

proof fn lemma_slice_grows(a: Seq<TokenId>, b: Seq<TokenId>, val: (u32, u32), toks: Seq<TokenId>)
    requires
        slice_is(a, val, toks),
        continues(a, b),
    ensures
        slice_is(b, val, toks),
{
    let x = b.subrange(val.0 as int, val.0 + val.1);
    let y = a.subrange(val.0 as int, val.0 + val.1);
    assert(x =~= y) by {
        assert forall|i: int| 0 <= i < val.1 implies #[trigger] x[i] == y[i] by {
            assert(b.take(a.len() as int)[val.0 + i] == a[val.0 + i]);
        }
    }
}

/// What a state holds: the arena, the front cache, the maps of short and long
/// units, the mode, and what decides when the caches are wiped.
pub struct StateView {
    pub arena: Seq<TokenId>,
    pub front_keys: Seq<u128>,
    pub front_vals: Seq<(u32, u32)>,
    pub short: Map<u128, (u32, u32)>,
    pub long: Map<Seq<u8>, (u32, u32)>,
    pub raw: bool,
    pub budget: usize,
    pub long_bytes_used: usize,
    pub max_encoding: usize,
}

/// A unit is cached.
pub open spec fn is_cached(s: StateView, key: Seq<u8>) -> bool {
    if is_short(key) {
        s.short.contains_key(key_of(key))
    } else {
        s.long.contains_key(key)
    }
}

/// What `a` holds, `b` holds in the same mode, and `b` is no smaller.
pub open spec fn state_keeps(a: StateView, b: StateView) -> bool {
    &&& a.raw == b.raw
    &&& a.arena.len() <= b.arena.len()
    &&& forall|key: Seq<u8>| is_cached(a, key) ==> #[trigger] is_cached(b, key)
}

/// Units are cached, unless the arena is at the limit of what 32 bits address.
pub open spec fn units_cached(s: StateView, v: SpView, keys: Seq<Seq<u8>>) -> bool {
    forall|i: int| 0 <= i < keys.len() ==> unit_cached(s, v, #[trigger] keys[i])
}

/// A unit is cached, unless the arena is at the limit of what 32 bits address.
pub open spec fn unit_cached(s: StateView, v: SpView, key: Seq<u8>) -> bool {
    s.arena.len() + unit_tokens(v, key, s.raw).len() <= u32::MAX ==> is_cached(s, key)
}

/// A state that keeps what it has holds the units that were there and those
/// that came.
pub proof fn lemma_units_cached_add(
    a: StateView,
    b: StateView,
    v: SpView,
    x: Seq<Seq<u8>>,
    y: Seq<Seq<u8>>,
)
    ensures
        state_keeps(a, b) && units_cached(a, v, x) && units_cached(b, v, y) ==> units_cached(
            b,
            v,
            x + y,
        ),
{
    if state_keeps(a, b) && units_cached(a, v, x) && units_cached(b, v, y) {
        let z = x + y;
        assert forall|i: int| 0 <= i < z.len() implies unit_cached(b, v, #[trigger] z[i]) by {
            if i < x.len() {
                assert(z[i] == x[i]);
                assert(unit_cached(a, v, x[i]));
            } else {
                assert(z[i] == y[i - x.len()]);
            }
        }
    }
}

/// The front entry of a short unit set to `val`.
pub open spec fn fronted(s: StateView, key: Seq<u8>, val: (u32, u32)) -> StateView {
    let place = front_place(key_of(key));
    StateView {
        front_keys: s.front_keys.update(place, key_of(key)),
        front_vals: s.front_vals.update(place, val),
        ..s
    }
}

/// The state after a look-up: a short unit that is cached is in front.
pub open spec fn after_lookup(s: StateView, key: Seq<u8>) -> StateView {
    if is_short(key) && is_cached(s, key) {
        fronted(s, key, s.short[key_of(key)])
    } else {
        s
    }
}

/// What a budget leaves to the caches that grow: all but the front cache, and
/// at least a mebibyte.
pub open spec fn growing_limit(max_bytes: Option<usize>) -> usize {
    match max_bytes {
        None => usize::MAX,
        Some(t) => if t < FRONT_BYTES + 0x10_0000 {
            0x10_0000usize
        } else {
            (t - FRONT_BYTES) as usize
        },
    }
}

/// The estimated size of the growing caches.
pub open spec fn estimate(s: StateView) -> int {
    s.short.len() * 48 + s.long_bytes_used + s.arena.len() * 4
}

/// The largest encoding before and after `n` tokens were encoded: it is one
/// that was there before or is among the `n` tokens.
pub open spec fn largest_grows(before: StateView, after: StateView, n: int) -> bool {
    &&& before.max_encoding <= after.max_encoding
    &&& after.max_encoding == before.max_encoding || after.max_encoding <= n
}

/// There is a limit, and the estimated size of the growing caches is past it,
/// with the largest single encoding on top.
pub open spec fn is_over(s: StateView) -> bool {
    s.budget < usize::MAX && estimate(s) > s.budget + s.max_encoding * 4
}

/// The estimated size is within the limit if there is one, with the largest
/// single encoding on top, but for one unit: an encoding, an entry of 48 bytes
/// and the key of a long unit.
pub open spec fn is_settled(s: StateView) -> bool {
    ||| s.budget == usize::MAX
    ||| estimate(s) <= s.budget + s.max_encoding * 8 + 48
    ||| exists|k: Seq<u8>| #[trigger]
        s.long.contains_key(k) && estimate(s) <= s.budget + s.max_encoding * 8 + 48 + k.len()
}

/// The state without its entries, in the given mode. Front values without a key
/// stay behind.
pub open spec fn wiped(s: StateView, raw: bool) -> StateView {
    StateView {
        arena: Seq::empty(),
        front_keys: Seq::new(FRONT_ENTRIES as nat, |i: int| 0u128),
        short: Map::empty(),
        long: Map::empty(),
        raw,
        long_bytes_used: 0,
        ..s
    }
}

/// The state with the tokens of one more unit: they stand at the end of the
/// arena, and the unit is in its map, a short one in front too.
pub open spec fn with_unit(s: StateView, key: Seq<u8>, symbols: Seq<TokenId>) -> StateView {
    let val = (s.arena.len() as u32, symbols.len() as u32);
    let more = StateView {
        arena: s.arena + symbols,
        max_encoding: if symbols.len() > s.max_encoding {
            symbols.len() as usize
        } else {
            s.max_encoding
        },
        ..s
    };
    if is_short(key) {
        fronted(StateView { short: s.short.insert(key_of(key), val), ..more }, key, val)
    } else {
        let used = s.long_bytes_used + key.len() + MAP_ENTRY_BYTES;
        StateView {
            long: s.long.insert(key, val),
            long_bytes_used: if used > usize::MAX {
                usize::MAX
            } else {
                used as usize
            },
            ..more
        }
    }
}

/// The state after a unit is recorded: wiped first if it is past the limit, and
/// without the unit if its place in the arena would not fit 32 bits.
pub open spec fn recorded(s: StateView, key: Seq<u8>, symbols: Seq<TokenId>) -> StateView {
    let t = if is_over(s) {
        wiped(s, s.raw)
    } else {
        s
    };
    if t.arena.len() + symbols.len() > u32::MAX {
        t
    } else {
        with_unit(t, key, symbols)
    }
}

/// The caches of encoded units with scratch space. All entries are of one
/// mode: raw text or normalized text.
pub struct EncodeState {
    arena: Vec<TokenId>,
    front_keys: Vec<u128>,
    front_vals: Vec<(u32, u32)>,
    short: HashMap<u128, (u32, u32)>,
    long: BytesMap<(u32, u32)>,
    raw: bool,
    budget: usize,
    long_bytes_used: usize,
    max_encoding: usize,
}

impl EncodeState {
    /// What the state holds.
    pub closed spec fn view(&self) -> StateView {
        StateView {
            arena: self.arena@,
            front_keys: self.front_keys@,
            front_vals: self.front_vals@,
            short: self.short@,
            long: self.long@,
            raw: self.raw,
            budget: self.budget,
            long_bytes_used: self.long_bytes_used,
            max_encoding: self.max_encoding,
        }
    }

    /// The front cache has its size, and each of its entries is one of the
    /// short map at the place of its key.
    pub closed spec fn wf(&self) -> bool {
        &&& self.front_keys@.len() == FRONT_ENTRIES
        &&& self.front_vals@.len() == FRONT_ENTRIES
        &&& forall|p: int|
            0 <= p < FRONT_ENTRIES && #[trigger] self.front_keys@[p] != 0 ==> {
                &&& front_place(self.front_keys@[p]) == p
                &&& self.short@.contains_key(self.front_keys@[p])
                &&& self.front_vals@[p] == self.short@[self.front_keys@[p]]
            }
        &&& is_settled(self@)
    }

    /// In every state the estimated size of the caches is within the limit, the
    /// largest encoding on top, but for one unit.
    pub proof fn law_estimate_within_limit(&self)
        requires
            self.wf(),
        ensures
            is_settled(self@),
            self@.budget == self.limit(),
    {
    }

    /// The mode of the entries.
    pub open spec fn mode(&self) -> bool {
        self@.raw
    }

    /// The bytes that the growing caches may use.
    pub open spec fn limit(&self) -> usize {
        self@.budget
    }

    /// The number of cached units.
    pub closed spec fn units(&self) -> (nat, nat) {
        (self.short@.len(), self.long@.len())
    }

    /// Every entry is what the model encodes its unit to.
    pub closed spec fn hold(&self, v: SpView) -> bool {
        &&& forall|b: Seq<u8>|
            is_short(b) && #[trigger] self.short@.contains_key(key_of(b)) ==> slice_is(
                self.arena@,
                self.short@[key_of(b)],
                unit_tokens(v, b, self.raw),
            )
        &&& forall|b: Seq<u8>|
            is_short(b) && self.front_keys@[#[trigger] front_place(key_of(b))] == key_of(b) ==> slice_is(
                self.arena@,
                self.front_vals@[front_place(key_of(b))],
                unit_tokens(v, b, self.raw),
            )
        &&& forall|b: Seq<u8>| #[trigger]
            self.long@.contains_key(b) ==> slice_is(
                self.arena@,
                self.long@[b],
                unit_tokens(v, b, self.raw),
            )
    }

    /// An empty state whose growing caches are wiped when their estimated size
    /// passes `max_bytes` less the front cache, and at least 1 MiB.
    pub fn with_budget(max_bytes: Option<usize>) -> (s: Self)
        ensures
            s.wf(),
            forall|v: SpView| s.hold(v),
            s.units() == (0nat, 0nat),
            s.limit() == growing_limit(max_bytes),
    {
        let front_keys: Vec<u128> = vec![0u128; FRONT_ENTRIES];
        let front_vals: Vec<(u32, u32)> = vec![(0u32, 0u32); FRONT_ENTRIES];
        let s = EncodeState {
            arena: Vec::new(),
            front_keys,
            front_vals,
            short: HashMap::new(),
            long: BytesMap::new(),
            raw: false,
            budget: match max_bytes {
                None => usize::MAX,
                Some(t) => if t < FRONT_BYTES + 0x10_0000 {
                    0x10_0000
                } else {
                    t - FRONT_BYTES
                },
            },
            long_bytes_used: 0,
            max_encoding: 0,
        };
        proof {
            assert forall|v: SpView| s.hold(v) by {
                lemma_zero_keys(s.front_keys@);
            }
        }
        s
    }

    /// The number of cached units.
    pub fn cache_size(&self) -> (n: u128)
        ensures
            n == self.units().0 + self.units().1,
    {
        self.short.len() as u128 + self.long.len() as u128
    }

    /// The estimated size of the growing caches is past the limit, with the
    /// largest single encoding on top.
    pub closed spec fn over_limit(&self) -> bool {
        is_over(self@)
    }

    /// Whether the estimated size is past the limit.
    fn over_budget(&self) -> (r: bool)
        ensures
            r == self.over_limit(),
    {
        let used: u128 = self.short.len() as u128 * 48 + self.long_bytes_used as u128
            + self.arena.len() as u128 * 4;
        let limit: u128 = self.budget as u128 + self.max_encoding as u128 * 4;
        self.budget < usize::MAX && used > limit
    }

    /// Drops every entry, and sets the mode.
    fn wipe(&mut self, raw: bool)
        requires
            old(self).wf(),
        ensures
            final(self).wf(),
            forall|v: SpView| final(self).hold(v),
            final(self)@ == wiped(old(self)@, raw),
    {
        self.arena.clear();
        let front_keys: Vec<u128> = vec![0u128; FRONT_ENTRIES];
        self.front_keys = front_keys;
        self.short.clear();
        self.long.clear();
        self.long_bytes_used = 0;
        self.raw = raw;
        proof {
            assert(self.arena@ =~= Seq::<TokenId>::empty());
            assert(self.front_keys@ =~= Seq::new(FRONT_ENTRIES as nat, |i: int| 0u128));
            assert(self@ == wiped(old(self)@, raw));
            assert forall|v: SpView| self.hold(v) by {
                lemma_zero_keys(self.front_keys@);
            }
        }
    }

    /// Makes the state one of the given mode.
    pub(crate) fn set_mode(&mut self, raw: bool, v: Ghost<SpView>)
        requires
            old(self).wf(),
            old(self).hold(v@),
        ensures
            final(self).wf(),
            final(self).hold(v@),
            final(self).mode() == raw,
            final(self).limit() == old(self).limit(),
            old(self).mode() == raw ==> *final(self) == *old(self),
            old(self).mode() != raw ==> final(self)@ == wiped(old(self)@, raw),
    {
        if self.raw != raw {
            self.wipe(raw);
        }
    }

    /// Appends the tokens of a cached unit, and puts a short one in front.
    /// Returns whether it is cached.
    pub(crate) fn emit(&mut self, key: &[u8], out: &mut Vec<TokenId>, v: Ghost<SpView>) -> (found: bool)
        requires
            old(self).wf(),
            old(self).hold(v@),
        ensures
            final(self).wf(),
            final(self).hold(v@),
            final(self).mode() == old(self).mode(),
            final(self).limit() == old(self).limit(),
            found == is_cached(old(self)@, key@),
            final(self)@ == after_lookup(old(self)@, key@),
            final(out)@ == if found {
                old(out)@ + unit_tokens(v@, key@, old(self).mode())
            } else {
                old(out)@
            },
    {
        let packed: u128 = match pack_pretoken_key(key) {
            Some(k) => k,
            None => 0,
        };
        if packed != 0 {
            proof {
                law_keys_distinct(key@, key@);
                assert(is_short(key@));
            }
            let place: usize = front_index(packed);
            if self.front_keys[place] == packed {
                let val = self.front_vals[place];
                proof {
                    assert(front_place(key_of(key@)) == place);
                    assert(self.front_keys@[place as int] != 0);
                    assert(self.front_keys@.update(place as int, packed) =~= self.front_keys@);
                    assert(self.front_vals@.update(place as int, val) =~= self.front_vals@);
                }
                emit_slice(&self.arena, val, out, Ghost(unit_tokens(v@, key@, self.raw)));
                return true;
            }
            match self.short.get(&packed) {
                Some(val) => {
                    let val = *val;
                    proof {
                        assert(self.short@.contains_key(key_of(key@)));
                    }
                    emit_slice(&self.arena, val, out, Ghost(unit_tokens(v@, key@, self.raw)));
                    let ghost before = *self;
                    self.front_keys[place] = packed;
                    self.front_vals[place] = val;
                    proof {
                        self.lemma_front_set(before, key@, place as int, val, v@);
                        lemma_settled_stays(before@, self@);
                        self.lemma_front_wf(before, packed, place as int);
                    }
                    true
                },
                None => false,
            }
        } else {
            proof {
                if key@.len() <= 15 {
                    law_keys_distinct(key@, key@);
                }
            }
            match self.long.get(key) {
                Some(val) => {
                    emit_slice(&self.arena, val, out, Ghost(unit_tokens(v@, key@, self.raw)));
                    true
                },
                None => false,
            }
        }
    }

    /// One front entry set to what the short map has for its key.
    proof fn lemma_front_wf(&self, before: EncodeState, key: u128, place: int)
        requires
            before.wf(),
            place == front_place(key),
            0 <= place < FRONT_ENTRIES,
            self.front_keys@ == before.front_keys@.update(place, key),
            self.short@.contains_key(key),
            self.front_vals@ == before.front_vals@.update(place, self.short@[key]),
            forall|k: u128|
                k != key && #[trigger] before.short@.contains_key(k) ==> self.short@.contains_key(k)
                    && self.short@[k] == before.short@[k],
            is_settled(self@),
        ensures
            self.wf(),
    {
        assert forall|p: int| 0 <= p < FRONT_ENTRIES && #[trigger] self.front_keys@[p] != 0 implies {
            &&& front_place(self.front_keys@[p]) == p
            &&& self.short@.contains_key(self.front_keys@[p])
            &&& self.front_vals@[p] == self.short@[self.front_keys@[p]]
        } by {
            if p != place {
                assert(before.front_keys@[p] != 0);
                assert(before.short@.contains_key(before.front_keys@[p]));
            }
        }
    }

    /// One front entry set to the tokens of its key.
    proof fn lemma_front_set(
        &self,
        before: EncodeState,
        key: Seq<u8>,
        place: int,
        val: (u32, u32),
        v: SpView,
    )
        requires
            before.front_keys@.len() == FRONT_ENTRIES,
            before.front_vals@.len() == FRONT_ENTRIES,
            before.hold(v),
            is_short(key),
            place == front_place(key_of(key)),
            0 <= place < FRONT_ENTRIES,
            self.front_keys@ == before.front_keys@.update(place, key_of(key)),
            self.front_vals@ == before.front_vals@.update(place, val),
            self.arena == before.arena,
            self.short == before.short,
            self.long == before.long,
            self.raw == before.raw,
            slice_is(self.arena@, val, unit_tokens(v, key, self.raw)),
        ensures
            self.hold(v),
    {
        assert forall|b: Seq<u8>|
            is_short(b) && self.front_keys@[#[trigger] front_place(key_of(b))] == key_of(b) implies slice_is(
            self.arena@,
            self.front_vals@[front_place(key_of(b))],
            unit_tokens(v, b, self.raw),
        ) by {
            if front_place(key_of(b)) == place {
                law_keys_distinct(b, key);
            } else {
                lemma_front_range(key_of(b));
                assert(before.front_keys@[front_place(key_of(b))] == key_of(b));
            }
        }
    }

    /// Records the tokens of a unit; the caches are wiped first if they are
    /// past the limit.
    pub(crate) fn record(&mut self, key: &[u8], symbols: &[TokenId], v: Ghost<SpView>)
        requires
            old(self).wf(),
            old(self).hold(v@),
            symbols@ == unit_tokens(v@, key@, old(self).mode()),
        ensures
            final(self).wf(),
            final(self).hold(v@),
            final(self).mode() == old(self).mode(),
            final(self).limit() == old(self).limit(),
            final(self)@ == recorded(old(self)@, key@, symbols@),
    {
        if self.over_budget() {
            let raw = self.raw;
            self.wipe(raw);
        }
        let start: usize = self.arena.len();
        let n: usize = symbols.len();
        if start as u64 > u32::MAX as u64 || n as u64 > u32::MAX as u64 - start as u64 {
            return;
        }
        let ghost before = *self;
        append_tokens(&mut self.arena, symbols);
        let val: (u32, u32) = (start as u32, n as u32);
        if n > self.max_encoding {
            self.max_encoding = n;
        }
        proof {
            assert(continues(before.arena@, self.arena@)) by {
                assert(self.arena@.take(before.arena@.len() as int) =~= before.arena@);
            }
            assert(self.arena@.subrange(start as int, start + n) =~= symbols@);
            self.lemma_hold_grows(before, v@);
        }
        let packed: u128 = match pack_pretoken_key(key) {
            Some(k) => k,
            None => 0,
        };
        if packed != 0 {
            proof {
                law_keys_distinct(key@, key@);
            }
            let ghost mid = *self;
            self.short.insert(packed, val);
            proof {
                assert forall|b: Seq<u8>|
                    is_short(b) && #[trigger] self.short@.contains_key(key_of(b)) implies slice_is(
                    self.arena@,
                    self.short@[key_of(b)],
                    unit_tokens(v@, b, self.raw),
                ) by {
                    if key_of(b) == packed {
                        law_keys_distinct(b, key@);
                    } else {
                        assert(mid.short@.contains_key(key_of(b)));
                    }
                }
            }
            let place: usize = front_index(packed);
            let ghost after = *self;
            proof {
                assert(self.short@.len() <= mid.short@.len() + 1);
            }
            self.front_keys[place] = packed;
            self.front_vals[place] = val;
            proof {
                self.lemma_front_set(after, key@, place as int, val, v@);
                self.lemma_front_wf(mid, packed, place as int);
            }
        } else {
            proof {
                if key@.len() <= 15 {
                    law_keys_distinct(key@, key@);
                }
            }
            self.long_bytes_used = self.long_bytes_used.saturating_add(key.len()).saturating_add(
                MAP_ENTRY_BYTES,
            );
            self.long.insert(key, val);
            proof {
                assert(self@.long.contains_key(key@));
            }
        }
    }

    proof fn lemma_hold_grows(&self, before: EncodeState, v: SpView)
        requires
            before.hold(v),
            continues(before.arena@, self.arena@),
            self.front_keys == before.front_keys,
            self.front_vals == before.front_vals,
            self.short == before.short,
            self.long == before.long,
            self.raw == before.raw,
        ensures
            self.hold(v),
    {
        assert forall|b: Seq<u8>| is_short(b) && #[trigger] self.short@.contains_key(key_of(b)) implies
            slice_is(self.arena@, self.short@[key_of(b)], unit_tokens(v, b, self.raw)) by {
            lemma_slice_grows(
                before.arena@,
                self.arena@,
                self.short@[key_of(b)],
                unit_tokens(v, b, self.raw),
            );
        }
        assert forall|b: Seq<u8>|
            is_short(b) && self.front_keys@[#[trigger] front_place(key_of(b))] == key_of(b) implies slice_is(
            self.arena@,
            self.front_vals@[front_place(key_of(b))],
            unit_tokens(v, b, self.raw),
        ) by {
            lemma_slice_grows(
                before.arena@,
                self.arena@,
                self.front_vals@[front_place(key_of(b))],
                unit_tokens(v, b, self.raw),
            );
        }
        assert forall|b: Seq<u8>| #[trigger] self.long@.contains_key(b) implies slice_is(
            self.arena@,
            self.long@[b],
            unit_tokens(v, b, self.raw),
        ) by {
            lemma_slice_grows(
                before.arena@,
                self.arena@,
                self.long@[b],
                unit_tokens(v, b, self.raw),
            );
        }
    }

    /// Estimated sizes: short entries, bytes of the long map, tokens in the
    /// arena, and the largest single encoding.
    pub fn cache_stats(&self) -> (r: (usize, usize, usize, usize))
        ensures
            r.0 == self.units().0,
            self.over_limit() <==> self.limit() < usize::MAX && r.0 * 48 + r.1 + r.2 * 4
                > self.limit() + r.3 * 4,
    {
        (self.short.len(), self.long_bytes_used, self.arena.len(), self.max_encoding)
    }
}

impl Default for EncodeState {
    fn default() -> (s: Self)
        ensures
            s.wf(),
            forall|v: SpView| s.hold(v),
    {
        Self::with_budget(Some(DEFAULT_MAX_CACHE_BYTES))
    }
}

proof fn lemma_settled_stays(a: StateView, b: StateView)
    requires
        is_settled(a),
        estimate(a) == estimate(b),
        a.long == b.long,
        a.budget == b.budget,
        a.max_encoding == b.max_encoding,
    ensures
        is_settled(b),
{
    if a.budget < usize::MAX && estimate(a) > a.budget + a.max_encoding * 8 + 48 {
        let k = choose|k: Seq<u8>| #[trigger]
            a.long.contains_key(k) && estimate(a) <= a.budget + a.max_encoding * 8 + 48 + k.len();
        assert(b.long.contains_key(k));
    }
}

proof fn lemma_front_range(key: u128)
    ensures
        0 <= front_place(key) < FRONT_ENTRIES,
{
    let folded = (key as u64) ^ ((key >> 64) as u64);
    let h = folded.wrapping_mul(0x9E37_79B9_7F4A_7C15);
    assert(h >> 44u64 < 0x10_0000u64) by (bit_vector);
}

/// Empty slots match no key.
proof fn lemma_zero_keys(keys: Seq<u128>)
    requires
        keys.len() == FRONT_ENTRIES,
        forall|i: int| 0 <= i < keys.len() ==> #[trigger] keys[i] == 0,
    ensures
        forall|b: Seq<u8>| is_short(b) ==> keys[#[trigger] front_place(key_of(b))] != key_of(b),
{
    assert forall|b: Seq<u8>| is_short(b) implies keys[#[trigger] front_place(key_of(b))] != key_of(b) by {
        lemma_front_range(key_of(b));
        law_keys_distinct(b, b);
    }
}

/// Appends a slice of the arena.
fn emit_slice(arena: &Vec<TokenId>, val: (u32, u32), out: &mut Vec<TokenId>, toks: Ghost<Seq<TokenId>>)
    requires
        slice_is(arena@, val, toks@),
    ensures
        final(out)@ == old(out)@ + toks@,
{
    let total: usize = arena.len();
    let start: usize = val.0 as usize;
    let n: usize = val.1 as usize;
    proof {
        assert(start + n <= total);
    }
    append_tokens(out, vstd::slice::slice_subrange(arena.as_slice(), start, start + n));
}

} // verus!
