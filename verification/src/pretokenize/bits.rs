//! Sets of positions in a 64-byte batch, one bit per position.
use vstd::prelude::*;
use vstd::std_specs::bits::{axiom_u64_leading_zeros, axiom_u64_trailing_zeros};

verus! {

/// Position `k` is in the set.
pub open spec fn bit(m: u64, k: int) -> bool {
    0 <= k < 64 && (m >> (k as u64)) & 1 == 1
}

/// Two sets have no position in common.
pub open spec fn disjoint(a: u64, b: u64) -> bool {
    forall|k: int| !(#[trigger] bit(a, k) && bit(b, k))
}

proof fn lemma_ops(a: u64, b: u64, k: u64)
    by (bit_vector)
    requires
        k < 64,
    ensures
        ((a & b) >> k) & 1 == 1 <==> ((a >> k) & 1 == 1 && (b >> k) & 1 == 1),
        ((a | b) >> k) & 1 == 1 <==> ((a >> k) & 1 == 1 || (b >> k) & 1 == 1),
        ((!a) >> k) & 1 == 1 <==> !((a >> k) & 1 == 1),
        (0u64 >> k) & 1 == 0,
        (0xffff_ffff_ffff_ffffu64 >> k) & 1 == 1,
        (1u64 >> k) & 1 == 1 <==> k == 0,
{
}

proof fn lemma_shifts(a: u64, j: u64, k: u64)
    by (bit_vector)
    requires
        j < 64,
        k < 64,
    ensures
        ((a << j) >> k) & 1 == 1 <==> (k >= j && (a >> ((k - j) as u64)) & 1 == 1),
        ((a >> j) >> k) & 1 == 1 <==> (k + j < 64 && (a >> ((k + j) as u64)) & 1 == 1),
{
}

/// The positions of both sets.
pub broadcast proof fn lemma_bit_and(a: u64, b: u64, k: int)
    ensures
        #[trigger] bit(a & b, k) == (bit(a, k) && bit(b, k)),
{
    if 0 <= k < 64 {
        lemma_ops(a, b, k as u64);
    }
}

/// The positions of either set.
pub broadcast proof fn lemma_bit_or(a: u64, b: u64, k: int)
    ensures
        #[trigger] bit(a | b, k) == (bit(a, k) || bit(b, k)),
{
    if 0 <= k < 64 {
        lemma_ops(a, b, k as u64);
    }
}

/// The positions that a set lacks.
pub broadcast proof fn lemma_bit_not(a: u64, k: int)
    ensures
        #[trigger] bit(!a, k) == (0 <= k < 64 && !bit(a, k)),
{
    if 0 <= k < 64 {
        lemma_ops(a, a, k as u64);
    }
}

/// The positions moved up.
pub broadcast proof fn lemma_bit_shl(a: u64, j: u64, k: int)
    requires
        j < 64,
    ensures
        #[trigger] bit(a << j, k) == (k < 64 && bit(a, k - j)),
{
    if 0 <= k < 64 {
        lemma_shifts(a, j, k as u64);
    }
}

/// The positions moved down.
pub broadcast proof fn lemma_bit_shr(a: u64, j: u64, k: int)
    requires
        j < 64,
    ensures
        #[trigger] bit(a >> j, k) == (0 <= k && bit(a, k + j)),
{
    if 0 <= k < 64 {
        lemma_shifts(a, j, k as u64);
    }
}

/// No position, every position, and the first position.
pub broadcast proof fn lemma_bit_const(k: int)
    ensures
        !(#[trigger] bit(0, k)),
        bit(0xffff_ffff_ffff_ffff, k) == (0 <= k < 64),
        bit(1, k) == (k == 0),
{
    if 0 <= k < 64 {
        lemma_ops(0, 0, k as u64);
    }
}

/// Every position.
pub broadcast proof fn lemma_bit_full(k: int)
    ensures
        #[trigger] bit(0xffff_ffff_ffff_ffff, k) == (0 <= k < 64),
{
    lemma_bit_const(k);
}

/// The first position alone.
pub broadcast proof fn lemma_bit_one(k: int)
    ensures
        #[trigger] bit(1, k) == (k == 0),
{
    lemma_bit_const(k);
}

/// How the operations on words act on positions.
pub broadcast group group_bits {
    lemma_bit_and,
    lemma_bit_or,
    lemma_bit_not,
    lemma_bit_shl,
    lemma_bit_shr,
    lemma_bit_const,
    lemma_bit_full,
    lemma_bit_one,
}

/// The lowest position of a set that is not empty.
pub fn lowest(m: u64) -> (t: u64)
    requires
        m != 0,
    ensures
        t < 64,
        bit(m, t as int),
        forall|k: int| 0 <= k < t ==> !#[trigger] bit(m, k),
{
    let t: u32 = m.trailing_zeros();
    proof {
        axiom_u64_trailing_zeros(m);
        assert forall|k: int| 0 <= k < t implies !#[trigger] bit(m, k) by {
            assert((m >> (k as u64)) & 1 == 0);
        }
    }
    t as u64
}

/// The highest position of a set that is not empty.
pub fn highest(m: u64) -> (t: u64)
    requires
        m != 0,
    ensures
        t < 64,
        bit(m, t as int),
        forall|k: int| t < k < 64 ==> !#[trigger] bit(m, k),
{
    let z: u32 = m.leading_zeros();
    proof {
        axiom_u64_leading_zeros(m);
        let t = (63 - z) as u64;
        lemma_low_bit(m >> t);
        assert forall|k: int| t < k < 64 implies !#[trigger] bit(m, k) by {
            assert((m >> (k as u64)) & 1 == 0);
        }
    }
    63 - z as u64
}

proof fn lemma_low_bit(x: u64)
    by (bit_vector)
    ensures
        x & 1 != 0 <==> x & 1 == 1,
{
}

/// A set with a position is not empty.
pub proof fn lemma_some_bit(m: u64, k: int)
    requires
        bit(m, k),
    ensures
        m != 0,
{
    lemma_bit_const(k);
}

/// The set of position `k` alone.
pub fn single(k: u64) -> (m: u64)
    requires
        k < 64,
    ensures
        forall|j: int| #[trigger] bit(m, j) == (j == k),
{
    broadcast use group_bits;

    1u64 << k
}

/// The positions from `k` on.
pub fn from_bit(k: u64) -> (m: u64)
    requires
        k < 64,
    ensures
        forall|j: int| #[trigger] bit(m, j) == (k <= j < 64),
{
    broadcast use group_bits;

    u64::MAX << k
}

/// The positions before `k`.
pub fn below(k: u64) -> (m: u64)
    requires
        k <= 64,
    ensures
        forall|j: int| #[trigger] bit(m, j) == (0 <= j < k),
{
    broadcast use group_bits;

    if k == 64 {
        u64::MAX
    } else {
        !(u64::MAX << k)
    }
}

/// The set that is empty or holds the first position.
pub fn carry(b: bool) -> (m: u64)
    ensures
        forall|j: int| #[trigger] bit(m, j) == (b && j == 0),
{
    broadcast use group_bits;

    if b {
        1
    } else {
        0
    }
}

} // verus!
