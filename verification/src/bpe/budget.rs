//! The memory budget of the pretoken caches.
use crate::bpe::pretoken_cache::{is_pow2, lemma_pow2_double, ShortPretokenCache, MIN_CAPACITY};
use vstd::prelude::*;

verus! {

/// Estimated bytes of an entry of the long map besides its key.
pub const LONG_ENTRY_BYTES: usize = 48;

/// How a budget is split between the caches, and what the current generation
/// has used of it.
#[derive(Clone, Copy, Debug, PartialEq, Eq, Structural)]
pub struct CacheBudget {
    pub total_bytes: usize,
    /// The most slots of the short table, a power of two: a full table of
    /// this size is wiped and not doubled.
    pub short_slots: usize,
    /// The share of the token arena, in tokens.
    pub arena_entries: usize,
    /// The share of the long map, in bytes.
    pub long_bytes: usize,
    pub long_bytes_used: usize,
    /// The largest encoding that was appended to the arena. It is allowed on
    /// top of `arena_entries`, so that one recurring giant pretoken does not
    /// wipe the caches at each occurrence.
    pub max_encoding: usize,
    /// Wipes since the budget was set.
    pub generations: u64,
}

/// The largest power of two up to `n`.
fn floor_pow2(n: usize) -> (p: usize)
    requires
        n >= 1,
    ensures
        is_pow2(p as int),
        p <= n,
        n / 2 < p,
{
    let mut p: usize = 1;
    while p <= n / 2
        invariant
            is_pow2(p as int),
            1 <= p <= n,
        decreases n - p,
    {
        assert(is_pow2(2 * p)) by {
            assert((2 * p) / 2 == p as int);
        }
        p = p * 2;
    }
    p
}

/// The bytes that a short table of `slots` slots leaves of a budget.
pub open spec fn budget_rest(total: int, slots: int) -> int {
    if slots * 32 > total {
        0
    } else {
        total - slots * 32
    }
}

/// A number as far as a machine word goes.
pub open spec fn at_most_usize(n: int) -> int {
    if n > usize::MAX {
        usize::MAX as int
    } else {
        n
    }
}

/// A short table of `slots` slots is large enough: twice as many 32-byte slots
/// would pass 70% of the budget, the seed leaves 3/8 of it free, and one more
/// entry keeps it within 3/4.
pub open spec fn slots_suffice(slots: int, total_bytes: int, n_seed: int) -> bool {
    &&& slots >= MIN_CAPACITY
    &&& 2 * slots > (total_bytes / 32) * 7 / 10
    &&& n_seed * 8 <= slots * 5
    &&& (n_seed + 1) * 4 <= slots * 3
}

impl CacheBudget {
    /// The split is usable for a seed of `n_seed` entries.
    pub open spec fn fits(&self, n_seed: nat) -> bool {
        &&& is_pow2(self.short_slots as int)
        &&& self.short_slots >= MIN_CAPACITY
        &&& n_seed * 8 <= self.short_slots * 5
    }

    /// The split of `total_bytes` for a seed of `n_seed` entries that takes
    /// `seed_arena_len` tokens of the arena. The short table has the fewest
    /// slots, as a power of two, of which twice as many would pass 70% of the
    /// budget, and which keep the seed within 5/8; the arena and the long map
    /// share the rest, with floors.
    pub open spec fn splits(&self, total_bytes: int, n_seed: int, seed_arena_len: int) -> bool {
        let rest = budget_rest(total_bytes, self.short_slots as int);
        let arena_floor = at_most_usize(seed_arena_len * 2 + 4096);
        &&& self.total_bytes == total_bytes
        &&& is_pow2(self.short_slots as int)
        &&& slots_suffice(self.short_slots as int, total_bytes, n_seed)
        &&& !slots_suffice(self.short_slots as int / 2, total_bytes, n_seed)
        &&& self.arena_entries == if rest / 2 / 4 > arena_floor {
            rest / 2 / 4
        } else {
            arena_floor
        }
        &&& self.long_bytes == if rest / 2 > 0x1_0000 {
            rest / 2
        } else {
            0x1_0000
        }
    }

    /// Splits `total_bytes`. The short table gets the largest power of two of
    /// 32-byte slots within 70% of the budget, and at least what keeps the
    /// seed within 5/8 of it. The arena and the long map share the rest, with
    /// floors that keep small budgets working.
    pub fn derive(total_bytes: usize, n_seed: usize, seed_arena_len: usize) -> (b: Self)
        requires
            n_seed < usize::MAX / 64,
        ensures
            b.splits(total_bytes as int, n_seed as int, seed_arena_len as int),
            b.fits(n_seed as nat),
            (n_seed + 1) * 4 <= b.short_slots * 3,
            b.long_bytes_used == 0,
            b.max_encoding == 0,
            b.generations == 0,
    {
        let share: usize = (total_bytes / 32) * 7 / 10;
        let target: usize = if share > 0x1_0000 {
            share
        } else {
            0x1_0000
        };
        let min_slots: usize = floor_pow2(target);
        let mut short_slots: usize = ShortPretokenCache::required_capacity(n_seed, min_slots);
        proof {
            if short_slots > MIN_CAPACITY && short_slots / 2 < min_slots {
                if min_slots < short_slots {
                    lemma_pow2_double(min_slots as int, short_slots as int);
                }
                assert(short_slots == min_slots);
            }
            assert(2 * short_slots > share);
        }
        while n_seed * 8 > short_slots * 5
            invariant
                n_seed < usize::MAX / 64,
                is_pow2(short_slots as int),
                short_slots >= MIN_CAPACITY,
                short_slots <= usize::MAX / 8,
                (n_seed + 1) * 4 <= short_slots * 3,
                2 * short_slots > (total_bytes / 32) * 7 / 10,
                !slots_suffice(short_slots as int / 2, total_bytes as int, n_seed as int),
            decreases n_seed * 8 - short_slots,
        {
            assert(is_pow2(2 * short_slots)) by {
                assert((2 * short_slots) / 2 == short_slots as int);
            }
            short_slots = short_slots * 2;
        }
        let rest: usize = if short_slots > total_bytes / 32 {
            0
        } else {
            total_bytes - short_slots * 32
        };
        let arena_floor: usize = if seed_arena_len > (usize::MAX - 4096) / 2 {
            usize::MAX
        } else {
            seed_arena_len * 2 + 4096
        };
        let arena_share: usize = rest / 2 / 4;
        let arena_entries: usize = if arena_share > arena_floor {
            arena_share
        } else {
            arena_floor
        };
        let long_bytes: usize = if rest / 2 > 0x1_0000 {
            rest / 2
        } else {
            0x1_0000
        };
        CacheBudget {
            total_bytes,
            short_slots,
            arena_entries,
            long_bytes,
            long_bytes_used: 0,
            max_encoding: 0,
            generations: 0,
        }
    }

    /// The same split with fresh counters.
    pub fn fresh(&self) -> (b: Self)
        ensures
            b == (CacheBudget { long_bytes_used: 0, max_encoding: 0, generations: 0, ..*self }),
    {
        CacheBudget {
            total_bytes: self.total_bytes,
            short_slots: self.short_slots,
            arena_entries: self.arena_entries,
            long_bytes: self.long_bytes,
            long_bytes_used: 0,
            max_encoding: 0,
            generations: 0,
        }
    }
}

} // verus!
