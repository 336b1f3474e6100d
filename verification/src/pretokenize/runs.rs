//! Runs of positions in a 64-byte batch.
use crate::pretokenize::bits::{
    below, bit, from_bit, group_bits, highest, lemma_some_bit, lowest, single,
};
use crate::pretokenize::classes::range_bits;
use vstd::prelude::*;

verus! {

broadcast use group_bits;

/// All positions from `a` to `b` are in the set.
pub open spec fn all_in(m: u64, a: int, b: int) -> bool {
    forall|x: int| a <= x <= b ==> #[trigger] bit(m, x)
}

/// No position from `a` to before `b` is in the set.
pub open spec fn none_in(m: u64, a: int, b: int) -> bool {
    forall|x: int| a <= x < b ==> !#[trigger] bit(m, x)
}

/// `j` is reached from a position of `seed`, fewer than `sh` below it, through
/// positions of `within`.
spec fn reached(seed: u64, within: u64, j: int, sh: int) -> bool {
    exists|i: int|
        j - sh < i <= j && #[trigger] bit(seed, i) && all_in(within, i + 1, j)
}

/// `j` is reached from a position of `seed` at or below it through positions
/// of `within`.
pub open spec fn smeared(seed: u64, within: u64, j: int) -> bool {
    &&& 0 <= j < 64
    &&& exists|i: int| i <= j && #[trigger] bit(seed, i) && all_in(within, i + 1, j)
}

/// Spreads `seed` upward through the positions of `within`.
pub fn smear_up(seed: u64, within: u64) -> (r: u64)
    ensures
        forall|j: int| #[trigger] bit(r, j) == smeared(seed, within, j),
{
    let mut a: u64 = seed;
    let mut m: u64 = within;
    let mut sh: u64 = 1;
    proof {
        assert forall|j: int| 0 <= j < 64 implies #[trigger] bit(a, j) == reached(
            seed,
            within,
            j,
            1,
        ) by {
            if bit(a, j) {
                assert(bit(seed, j) && all_in(within, j + 1, j));
            }
        }
    }
    while sh < 64
        invariant
            0 < sh < 128,
            forall|j: int| 0 <= j < 64 ==> #[trigger] bit(a, j) == reached(
                seed,
                within,
                j,
                sh as int,
            ),
            forall|j: int| 0 <= j < 64 ==> #[trigger] bit(m, j) == (j - sh + 1 >= 0 && all_in(
                within,
                j - sh + 1,
                j,
            )),
        decreases 128 - sh,
    {
        let ghost a0 = a;
        let ghost m0 = m;
        let moved: u64 = a << sh;
        a = a | (moved & m);
        let moved_m: u64 = m << sh;
        m = m & moved_m;
        proof {
            assert forall|j: int| 0 <= j < 64 implies #[trigger] bit(a, j) == reached(
                seed,
                within,
                j,
                2 * sh,
            ) by {
                lemma_reach_step(seed, within, a0, m0, sh as int, j);
            }
            assert forall|j: int| 0 <= j < 64 implies #[trigger] bit(m, j) == (j - 2 * sh + 1 >= 0
                && all_in(within, j - 2 * sh + 1, j)) by {
                if bit(m0, j) && bit(m0, j - sh) {
                    assert forall|x: int| j - 2 * sh + 1 <= x <= j implies #[trigger] bit(
                        within,
                        x,
                    ) by {
                        if x > j - sh {
                            assert(all_in(within, j - sh + 1, j));
                        } else {
                            assert(all_in(within, (j - sh) - sh + 1, j - sh));
                        }
                    }
                }
                if j - 2 * sh + 1 >= 0 && all_in(within, j - 2 * sh + 1, j) {
                    assert(all_in(within, j - sh + 1, j));
                    assert(all_in(within, (j - sh) - sh + 1, j - sh));
                }
            }
        }
        sh = sh * 2;
    }
    proof {
        assert forall|j: int| #[trigger] bit(a, j) == smeared(seed, within, j) by {
            if 0 <= j < 64 {
                assert(bit(a, j) == reached(seed, within, j, sh as int));
            }
        }
    }
    a
}

proof fn lemma_reach_step(seed: u64, within: u64, a: u64, m: u64, sh: int, j: int)
    requires
        0 < sh < 64,
        0 <= j < 64,
        forall|x: int| 0 <= x < 64 ==> #[trigger] bit(a, x) == reached(seed, within, x, sh),
        forall|x: int| 0 <= x < 64 ==> #[trigger] bit(m, x) == (x - sh + 1 >= 0 && all_in(
            within,
            x - sh + 1,
            x,
        )),
    ensures
        (bit(a, j) || (bit(a, j - sh) && bit(m, j))) == reached(seed, within, j, 2 * sh),
{
    if bit(a, j) {
        assert(reached(seed, within, j, sh));
        let i = choose|i: int|
            j - sh < i <= j && #[trigger] bit(seed, i) && all_in(within, i + 1, j);
        assert(bit(seed, i) && all_in(within, i + 1, j));
    }
    if bit(a, j - sh) && bit(m, j) {
        assert(reached(seed, within, j - sh, sh));
        let i = choose|i: int|
            j - sh - sh < i <= j - sh && #[trigger] bit(seed, i) && all_in(within, i + 1, j - sh);
        assert(all_in(within, i + 1, j)) by {
            assert(all_in(within, j - sh + 1, j));
        }
        assert(bit(seed, i));
    }
    if reached(seed, within, j, 2 * sh) {
        let i = choose|i: int|
            j - 2 * sh < i <= j && #[trigger] bit(seed, i) && all_in(within, i + 1, j);
        assert(bit(seed, i));
        if i > j - sh {
            assert(reached(seed, within, j, sh));
        } else {
            assert(all_in(within, i + 1, j - sh));
            assert(reached(seed, within, j - sh, sh));
            assert(all_in(within, j - sh + 1, j));
        }
    }
}

/// One step of spreading.
pub proof fn lemma_smeared_step(seed: u64, within: u64, j: int)
    requires
        0 <= j < 64,
    ensures
        smeared(seed, within, j) == (bit(seed, j) || (bit(within, j) && smeared(
            seed,
            within,
            j - 1,
        ))),
{
    if bit(seed, j) {
        assert(all_in(within, j + 1, j));
    }
    if smeared(seed, within, j) && !bit(seed, j) {
        let i = choose|i: int| i <= j && #[trigger] bit(seed, i) && all_in(within, i + 1, j);
        assert(bit(within, j));
        assert(all_in(within, i + 1, j - 1));
    }
    if bit(within, j) && smeared(seed, within, j - 1) {
        let i = choose|i: int|
            i <= j - 1 && #[trigger] bit(seed, i) && all_in(within, i + 1, j - 1);
        assert(all_in(within, i + 1, j));
    }
}

/// How many positions right before `j` are in the set.
pub open spec fn back(d: u64, j: int) -> nat
    decreases j,
{
    if j > 0 && bit(d, j - 1) {
        back(d, j - 1) + 1
    } else {
        0
    }
}

proof fn lemma_back(d: u64, j: int, n: int)
    requires
        0 <= j < 64,
        0 <= n,
    ensures
        back(d, j) <= j,
        n <= back(d, j) ==> n <= j && all_in(d, j - n, j - 1) && back(d, j) == back(d, j - n) + n,
        n <= j && all_in(d, j - n, j - 1) ==> back(d, j) == back(d, j - n) + n,
    decreases j,
{
    if j > 0 && bit(d, j - 1) {
        if n > 0 {
            lemma_back(d, j - 1, n - 1);
            if n <= back(d, j) {
                assert(all_in(d, j - n, j - 1));
            }
            if n <= j && all_in(d, j - n, j - 1) {
                assert(all_in(d, j - n, j - 2));
            }
        } else {
            lemma_back(d, j - 1, 0);
        }
    } else if n > 0 && n <= j && all_in(d, j - n, j - 1) {
        assert(bit(d, j - 1));
    }
}

/// The positions of digit runs where a group of three starts.
pub fn digit_run_splits3(d: u64) -> (r: u64)
    ensures
        forall|j: int| #[trigger] bit(r, j) == (bit(d, j) && back(d, j) % 3 == 0),
{
    let d1: u64 = d << 1u64;
    let mut b: u64 = d & !d1;
    let mut c: u64 = d & (d >> 1u64) & (d >> 2u64) & (d >> 3u64);
    let mut sh: u64 = 3;
    proof {
        assert forall|j: int| 0 <= j < 64 implies #[trigger] bit(b, j) == (bit(d, j) && back(d, j)
            % 3 == 0 && back(d, j) < 3) by {
            assert(bit(d1, j) == bit(d, j - 1));
            lemma_back(d, j, 0);
        }
        assert forall|p: int| 0 <= p < 64 implies #[trigger] bit(c, p) == all_in(d, p, p + 3) by {
            if bit(c, p) {
                assert(bit(d, p + 1) && bit(d, p + 2) && bit(d, p + 3));
            }
        }
    }
    while sh < 64
        invariant
            3 <= sh,
            sh % 3 == 0,
            sh < 128,
            forall|j: int| 0 <= j < 64 ==> #[trigger] bit(b, j) == (bit(d, j) && back(d, j) % 3 == 0
                && back(d, j) < sh),
            forall|p: int| 0 <= p < 64 ==> #[trigger] bit(c, p) == all_in(d, p, p + sh),
        decreases 128 - sh,
    {
        let ghost b0 = b;
        let ghost c0 = c;
        let hop: u64 = (b & c) << sh;
        b = b | hop;
        let down: u64 = c >> sh;
        c = c & down;
        proof {
            assert forall|j: int| 0 <= j < 64 implies #[trigger] bit(b, j) == (bit(d, j) && back(
                d,
                j,
            ) % 3 == 0 && back(d, j) < 2 * sh) by {
                assert(bit(hop, j) == (bit(b0, j - sh) && bit(c0, j - sh)));
                let i = j - sh;
                lemma_back(d, j, sh as int);
                if i >= 0 {
                    if bit(b0, i) && bit(c0, i) {
                        assert(all_in(d, i, i + sh));
                        assert(all_in(d, j - sh, j - 1));
                        assert(bit(d, j));
                        assert((back(d, i) + sh) % 3 == 0);
                    }
                    if bit(d, j) && back(d, j) % 3 == 0 && sh <= back(d, j) < 2 * sh {
                        assert(back(d, i) == back(d, j) - sh);
                        assert(back(d, i) % 3 == 0);
                        assert(bit(d, i));
                        assert(all_in(d, i, i + sh));
                    }
                }
            }
            assert forall|p: int| 0 <= p < 64 implies #[trigger] bit(c, p) == all_in(
                d,
                p,
                p + 2 * sh,
            ) by {
                assert(bit(down, p) == bit(c0, p + sh));
                if bit(c0, p) && bit(c0, p + sh) {
                    assert(all_in(d, p, p + sh));
                    assert(all_in(d, p + sh, p + sh + sh));
                }
                if all_in(d, p, p + 2 * sh) {
                    assert(bit(d, p + 2 * sh));
                    assert(all_in(d, p, p + sh));
                    assert(all_in(d, p + sh, p + sh + sh));
                }
            }
        }
        sh = sh * 2;
    }
    proof {
        assert forall|j: int| #[trigger] bit(b, j) == (bit(d, j) && back(d, j) % 3 == 0) by {
            if 0 <= j < 64 {
                lemma_back(d, j, 0);
            }
        }
    }
    b
}

/// The first position of the run that `j` lies in.
pub open spec fn run_lo(ws: u64, j: int) -> int
    decreases j,
{
    if j > 0 && bit(ws, j - 1) {
        run_lo(ws, j - 1)
    } else {
        j
    }
}

/// The first position from `j` on that is not in the set, or 64.
pub open spec fn run_hi(ws: u64, j: int) -> int
    decreases 64 - j,
{
    if j < 64 && bit(ws, j) {
        run_hi(ws, j + 1)
    } else {
        j
    }
}

/// The run around a position.
pub proof fn lemma_run_bounds(ws: u64, j: int)
    requires
        0 <= j < 64,
        bit(ws, j),
    ensures
        ({
            let a = run_lo(ws, j);
            let e = run_hi(ws, j);
            &&& 0 <= a <= j < e <= 64
            &&& all_in(ws, a, e - 1)
            &&& !bit(ws, a - 1)
            &&& !bit(ws, e)
        }),
{
    lemma_run_lo(ws, j);
    lemma_run_hi(ws, j);
}

proof fn lemma_run_lo(ws: u64, j: int)
    requires
        0 <= j < 64,
    ensures
        0 <= run_lo(ws, j) <= j,
        all_in(ws, run_lo(ws, j), j - 1),
        !bit(ws, run_lo(ws, j) - 1),
    decreases j,
{
    if j > 0 && bit(ws, j - 1) {
        lemma_run_lo(ws, j - 1);
    }
}

proof fn lemma_run_hi(ws: u64, j: int)
    requires
        0 <= j <= 64,
    ensures
        j <= run_hi(ws, j) <= 64,
        all_in(ws, j, run_hi(ws, j) - 1),
        !bit(ws, run_hi(ws, j)),
        bit(ws, j) ==> run_hi(ws, j) > j,
    decreases 64 - j,
{
    if j < 64 && bit(ws, j) {
        lemma_run_hi(ws, j + 1);
    }
}

/// A run is found from its bounds.
pub proof fn lemma_run_is(ws: u64, a: int, e: int, j: int)
    requires
        0 <= a <= j < e <= 64,
        all_in(ws, a, e - 1),
        !bit(ws, a - 1),
        !bit(ws, e),
    ensures
        run_lo(ws, j) == a,
        run_hi(ws, j) == e,
{
    assert(bit(ws, j));
    lemma_run_bounds(ws, j);
    let x = run_lo(ws, j);
    let y = run_hi(ws, j);
    if x < a {
        assert(bit(ws, a - 1));
    }
    if a < x {
        assert(bit(ws, x - 1));
    }
    if y < e {
        assert(bit(ws, y));
    }
    if e < y {
        assert(bit(ws, e));
    }
}

/// A token starts at `j` of a whitespace run from `a` to before `e` that holds
/// newlines: where the run starts, behind its last newline, and at its last
/// character behind that.
pub open spec fn newline_rule(n: u64, leads: u64, a: int, e: int, j: int) -> bool {
    ||| j == a
    ||| j - 1 >= a && bit(n, j - 1) && none_in(n, j, e)
    ||| bit(leads, j) && none_in(leads, j + 1, e) && none_in(n, j, e)
}

/// Whether the run of `j` holds a position of `f`.
pub open spec fn run_holds(ws: u64, f: u64, j: int) -> bool {
    exists|i: int| run_lo(ws, j) <= i < run_hi(ws, j) && #[trigger] bit(f, i)
}

/// What the treatment of newline runs makes of position `j`.
pub open spec fn run_fixed(
    n: u64,
    ws: u64,
    leads: u64,
    runs: u64,
    b0: u64,
    b: u64,
    j: int,
) -> bool {
    bit(b, j) == if bit(ws, j) && run_holds(ws, runs, j) {
        newline_rule(n, leads, run_lo(ws, j), run_hi(ws, j), j)
    } else {
        bit(b0, j)
    }
}

/// Sets the starts of one whitespace run with newlines.
fn fix_run(n: u64, leads: u64, a: u64, e: u64, b0: u64) -> (b: u64)
    requires
        a < e <= 64,
        exists|i: int| a <= i < e && #[trigger] bit(n, i),
    ensures
        forall|j: int| #[trigger]
            bit(b, j) == if a <= j < e {
                newline_rule(n, leads, a as int, e as int, j)
            } else {
                bit(b0, j)
            },
{
    let run: u64 = range_bits(a, e);
    let mut b: u64 = (b0 & !run) | single(a);
    let inside: u64 = n & run;
    proof {
        let i = choose|i: int| a <= i < e && #[trigger] bit(n, i);
        assert(bit(inside, i));
        lemma_some_bit(inside, i);
    }
    let q: u64 = highest(inside);
    proof {
        assert(bit(inside, q as int));
        assert forall|x: int| q < x < e implies !#[trigger] bit(n, x) by {
            assert(!bit(inside, x));
        }
    }
    if q + 1 < e {
        let behind: u64 = single(q + 1);
        b = b | behind;
        let tail: u64 = leads & range_bits(q + 1, e);
        if tail != 0 {
            let last: u64 = highest(tail);
            let at: u64 = single(last);
            b = b | at;
            proof {
                assert(bit(tail, last as int));
                assert forall|x: int| last < x < e implies !#[trigger] bit(leads, x) by {
                    assert(!bit(tail, x));
                }
                assert forall|j: int| #[trigger]
                    bit(b, j) == if a <= j < e {
                        newline_rule(n, leads, a as int, e as int, j)
                    } else {
                        bit(b0, j)
                    } by {
                    if a <= j < e && j <= q {
                        assert(bit(n, q as int));
                    }
                    if last < j < e {
                        assert(!bit(leads, j));
                    }
                    if q < j < last {
                        assert(bit(leads, last as int));
                    }
                }
            }
        } else {
            proof {
                assert forall|j: int| #[trigger]
                    bit(b, j) == if a <= j < e {
                        newline_rule(n, leads, a as int, e as int, j)
                    } else {
                        bit(b0, j)
                    } by {
                    if a <= j < e && j <= q {
                        assert(bit(n, q as int));
                    }
                    if q < j < e {
                        assert(!bit(tail, j));
                    }
                }
            }
        }
    } else {
        proof {
            assert forall|j: int| #[trigger]
                bit(b, j) == if a <= j < e {
                    newline_rule(n, leads, a as int, e as int, j)
                } else {
                    bit(b0, j)
                } by {
                if a <= j < e {
                    assert(bit(n, q as int));
                }
            }
        }
    }
    b
}

/// Sets the starts of every whitespace run that holds a position of `runs`,
/// all of which are newlines.
pub fn fix_newline_runs(n: u64, ws: u64, leads: u64, runs: u64, b0: u64) -> (b: u64)
    requires
        forall|i: int| #[trigger] bit(runs, i) ==> bit(n, i) && bit(ws, i),
    ensures
        forall|j: int| 0 <= j < 64 ==> #[trigger] run_fixed(n, ws, leads, runs, b0, b, j),
{
    let nonws: u64 = !ws;
    let mut left: u64 = runs;
    let mut b: u64 = b0;
    let ghost mut lo: int = 0;
    while left != 0
        invariant
            nonws == !ws,
            0 <= lo <= 64,
            lo > 0 ==> !bit(ws, lo),
            forall|i: int| #[trigger] bit(runs, i) ==> bit(n, i) && bit(ws, i),
            forall|i: int| #[trigger] bit(left, i) == (bit(runs, i) && lo <= i),
            forall|j: int|
                0 <= j < lo ==> #[trigger] run_fixed(n, ws, leads, runs, b0, b, j),
            forall|j: int| lo <= j < 64 ==> #[trigger] bit(b, j) == bit(b0, j),
        decreases 64 - lo,
    {
        let f: u64 = lowest(left);
        let ghost was = left;
        let ghost b_was = b;
        proof {
            assert(bit(was, f as int));
            assert(bit(runs, f as int));
        }
        let gap: u64 = nonws & below(f);
        let a: u64 = if gap == 0 {
            0
        } else {
            highest(gap) + 1
        };
        let rest: u64 = nonws & from_bit(f);
        let e: u64 = if rest == 0 {
            64
        } else {
            lowest(rest)
        };
        proof {
            assert(a <= f) by {
                if gap != 0 {
                    assert(bit(gap, a - 1));
                }
            }
            assert(f < e) by {
                if rest != 0 {
                    assert(bit(rest, e as int));
                    assert(!bit(rest, f as int));
                }
            }
            assert forall|x: int| a <= x <= e - 1 implies #[trigger] bit(ws, x) by {
                if x < f {
                    assert(!bit(gap, x));
                } else {
                    assert(!bit(rest, x));
                }
            }
            assert(!bit(ws, a - 1)) by {
                if a > 0 {
                    assert(bit(gap, a - 1));
                }
            }
            assert(!bit(ws, e as int)) by {
                if e < 64 {
                    assert(bit(rest, e as int));
                }
            }
            assert(bit(n, f as int));
        }
        b = fix_run(n, leads, a, e, b);
        left = left & !range_bits(a, e);
        proof {
            assert(lo == 0 || lo < a) by {
                if lo > 0 && a <= lo {
                    assert(bit(ws, lo));
                }
            }
            assert forall|j: int| 0 <= j < e implies #[trigger] run_fixed(
                n,
                ws,
                leads,
                runs,
                b0,
                b,
                j,
            ) by {
                if j >= a {
                    lemma_run_is(ws, a as int, e as int, j);
                    assert(bit(runs, f as int));
                } else if j < lo {
                    assert(run_fixed(n, ws, leads, runs, b0, b_was, j));
                } else {
                    assert(bit(b_was, j) == bit(b0, j));
                    if bit(ws, j) {
                        lemma_between(ws, lo, a as int, j);
                        assert(!run_holds(ws, runs, j)) by {
                            if run_holds(ws, runs, j) {
                                let i = choose|i: int|
                                    run_lo(ws, j) <= i < run_hi(ws, j) && #[trigger] bit(runs, i);
                                assert(!bit(was, i));
                            }
                        }
                    }
                }
            }
            assert forall|j: int| e <= j < 64 implies #[trigger] bit(b, j) == bit(b0, j) by {
                assert(bit(b_was, j) == bit(b0, j));
            }
            assert forall|i: int| #[trigger] bit(left, i) == (bit(runs, i) && e <= i) by {
                assert(bit(was, i) == (bit(runs, i) && lo <= i));
                if lo <= i < a {
                    assert(!bit(was, i));
                }
            }
            lo = e as int;
        }
    }
    proof {
        assert forall|j: int| 0 <= j < 64 implies #[trigger] run_fixed(
            n,
            ws,
            leads,
            runs,
            b0,
            b,
            j,
        ) by {
            if j >= lo {
                assert(bit(b, j) == bit(b0, j));
                if bit(ws, j) {
                    lemma_between(ws, lo, 64, j);
                    assert(!run_holds(ws, runs, j)) by {
                        if run_holds(ws, runs, j) {
                            let i = choose|i: int|
                                run_lo(ws, j) <= i < run_hi(ws, j) && #[trigger] bit(runs, i);
                            assert(!bit(left, i));
                        }
                    }
                }
            }
        }
    }
    b
}

/// A run between two positions that are not in the set stays between them.
proof fn lemma_between(ws: u64, lo: int, hi: int, j: int)
    requires
        0 <= lo <= j < hi <= 64,
        bit(ws, j),
        lo > 0 ==> !bit(ws, lo),
        0 < hi < 64 ==> !bit(ws, hi - 1),
    ensures
        lo <= run_lo(ws, j),
        run_hi(ws, j) <= hi,
{
    lemma_run_bounds(ws, j);
    let a = run_lo(ws, j);
    let e = run_hi(ws, j);
    if a < lo {
        assert(bit(ws, lo));
    }
    if e > hi {
        assert(bit(ws, hi - 1));
    }
}

} // verus!
