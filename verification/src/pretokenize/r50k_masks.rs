//! The batch masks of the GPT-2 scheme.
use crate::pretokenize::batches::clear;
use crate::pretokenize::bits::{bit, carry, disjoint, from_bit, group_bits, lowest, single};
use crate::pretokenize::chars::{char_at, char_end, class_at, lemma_char_len};
use crate::pretokenize::classes::{
    ascii_at, ascii_masks, ascii_ok, char_through, lead_of, lemma_lead_of, uni_at, uni_ok,
    unicode_classes, AsciiMasks, UniClasses,
};
use crate::pretokenize::locality::{boundary, well_encoded, whole_char};
use crate::pretokenize::r50k::continuation;
use crate::pretokenize::r50k_starts::{
    law_r50k_starts, prev_lead, r50k_base, r50k_contracts, r50k_start,
};
use crate::pretokenize::scheme::{token_end, PretokenizerType};
use crate::pretokenize::starts::{is_start, law_next_start};
use crate::pretokenize::unicode::CharClass;
use crate::pretokenize::words::{contraction, contraction_end};
use vstd::prelude::*;

verus! {

broadcast use group_bits;

/// No contraction before `scan` reaches it.
pub open spec fn r50k_entered(s: Seq<u8>, scan: int) -> bool {
    forall|i: int, e: int| i < scan && #[trigger] r50k_contracts(s, i, e) ==> e < scan
}

/// Byte `j` of the batch belongs to a whitespace character beyond ASCII that
/// lies across an edge of the batch, or takes four bytes.
pub open spec fn open_ws(s: Seq<u8>, scan: int, j: int, marks: bool) -> bool {
    let y = lead_of(s, scan + j);
    &&& 0 <= j < 64
    &&& s[scan + j] >= 0x80
    &&& class_at(s, y, marks) == CharClass::Whitespace
    &&& y < scan || char_end(s, y) > scan + 64 || char_end(s, y) - y == 4
}

/// Where the masks may have to leave position `k` open: near the end of the
/// text, next to whitespace across an edge of the batch, and from an
/// apostrophe among the last three positions on.
pub open spec fn r50k_open(s: Seq<u8>, scan: int, k: int) -> bool {
    ||| scan + 70 > s.len()
    ||| exists|j: int| k - 1 <= j <= k + 1 && #[trigger] open_ws(s, scan, j, false)
    ||| exists|i: int| 61 <= i < 64 && 61 <= k && #[trigger] s[scan + i] == 0x27
}

/// The class of the character before a batch, as carries into its first
/// position: letter, digit, space, whitespace, other.
fn carries_at(bytes: &[u8], scan: usize) -> (r: (u64, u64, u64, u64, u64))
    requires
        0 < scan <= bytes@.len(),
    ensures
        ({
            let c = class_at(bytes@, lead_of(bytes@, scan - 1), false);
            &&& forall|k: int| #[trigger] bit(r.0, k) == (k == 0 && c == CharClass::Letter)
            &&& forall|k: int| #[trigger] bit(r.1, k) == (k == 0 && c == CharClass::Number)
            &&& forall|k: int| #[trigger] bit(r.2, k) == (k == 0 && bytes@[scan - 1] == 0x20)
            &&& forall|k: int| #[trigger] bit(r.3, k) == (k == 0 && c == CharClass::Whitespace)
            &&& forall|k: int| #[trigger] bit(r.4, k) == (k == 0 && c == CharClass::Other)
        }),
{
    let (c, _, _) = char_through(bytes, scan, false);
    (
        carry(c == CharClass::Letter),
        carry(c == CharClass::Number),
        carry(bytes[scan - 1] == 0x20),
        carry(c == CharClass::Whitespace),
        carry(c == CharClass::Other),
    )
}

/// Whether the character at `idx` is not whitespace.
pub fn nn_at_full(bytes: &[u8], idx: usize, marks: bool) -> (r: bool)
    requires
        idx < bytes@.len(),
    ensures
        r == (class_at(bytes@, idx as int, marks) != CharClass::Whitespace),
{
    let (c, _) = char_at(bytes, idx, marks);
    c != CharClass::Whitespace
}

/// What the effective class sets say of position `k`: the character that the
/// byte belongs to starts at `y`.
spec fn class_bits(
    l: u64,
    d: u64,
    ws: u64,
    o: u64,
    cont: u64,
    s: Seq<u8>,
    x: int,
    k: int,
) -> bool {
    let y = lead_of(s, x);
    let c = class_at(s, y, false);
    &&& bit(l, k) == (c == CharClass::Letter)
    &&& bit(d, k) == (c == CharClass::Number)
    &&& bit(ws, k) == (c == CharClass::Whitespace)
    &&& bit(o, k) == (c == CharClass::Other)
    &&& bit(cont, k) == continuation(s[x])
}

/// The boundaries of a batch before contractions, and the positions left
/// open.
fn extended_masks(bytes: &[u8], scan: usize, am: AsciiMasks) -> (r: (u64, u64))
    requires
        scan + 70 <= bytes@.len(),
        ascii_ok(am, bytes@, scan as int),
    ensures
        well_encoded(bytes@) ==> {
            &&& forall|k: int|
                0 <= k < 64 && !bit(r.1, k) ==> #[trigger] bit(r.0, k) == (boundary(
                    bytes@,
                    scan + k,
                ) && r50k_base(bytes@, scan + k))
            &&& forall|k: int| #[trigger]
                bit(r.1, k) ==> exists|j: int|
                    k - 1 <= j <= k + 1 && #[trigger] open_ws(bytes@, scan as int, j, false)
        },
{
    let ghost s = bytes@;
    let len: usize = bytes.len();
    let wsa: u64 = am.s | am.wt | am.n;
    let (pl, pd, ps, pws, po): (u64, u64, u64, u64, u64) = if scan == 0 {
        (0, 0, 0, 0, 0)
    } else {
        carries_at(bytes, scan)
    };
    let uni = unicode_classes(bytes, scan, am, false, true);
    // Every byte of a character carries its class, so that neighbours in
    // bytes are neighbours in characters.
    let lb: u64 = am.l | uni.l;
    let db: u64 = am.d | uni.n;
    let wsb: u64 = wsa | uni.ws;
    let ob: u64 = !(am.l | am.d | wsa | am.hi) | uni.o;
    let contm: u64 = uni.cont;
    let resid: u64 = uni.resid;

    let lb1: u64 = (lb << 1u64) | pl;
    let db1: u64 = (db << 1u64) | pd;
    let ob1: u64 = (ob << 1u64) | po;
    let cont_same: u64 = (lb & lb1) | (db & db1) | (ob & ob1);
    let after_sp: u64 = (am.s << 1u64) | ps;
    let nb: u64 = !wsb & !cont_same & !after_sp & !contm;

    // Whitespace followed by something else; at the end of the batch the
    // character behind it decides.
    let nn: u64 = !wsb;
    let edge: u64 = (uni.w2 & single(62)) | (uni.w3 & single(61)) | (single(63) & wsa);
    let inner: u64 = ((wsa & (nn >> 1u64)) | (uni.w2 & (nn >> 2u64)) | (uni.w3 & (nn >> 3u64)))
        & !edge;
    let split_ok: u64 = if edge != 0 && nn_at_full(bytes, scan + 64, false) {
        inner | edge
    } else {
        inner
    };
    let ws_leads: u64 = wsa | uni.w2 | uni.w3;
    let pwsb: u64 = (wsb << 1u64) | pws;
    let wsboundary: u64 = ws_leads & (!pwsb | split_ok);
    let boundaries: u64 = nb | wsboundary;
    let up: u64 = resid << 1u64;
    let down: u64 = resid >> 1u64;
    let bad: u64 = resid | up | down;
    proof {
        if well_encoded(s) {
            assert forall|k: int| 0 <= k < 64 implies #[trigger] class_bits(
                lb,
                db,
                wsb,
                ob,
                contm,
                s,
                scan + k,
                k,
            ) by {
                lemma_class_bits(s, scan as int, k, am, uni);
            }
            assert forall|k: int| 0 <= k < 64 && !bit(bad, k) implies #[trigger] bit(
                boundaries,
                k,
            ) == (boundary(s, scan + k) && r50k_base(s, scan + k)) by {
                let x = scan + k;
                assert(class_bits(lb, db, wsb, ob, contm, s, x, k));
                assert(ascii_at(am, s, x, k));
                assert(uni_at(uni, s, scan as int, k, false, true));
                lemma_lead_of(s, x);
                if k > 0 {
                    assert(class_bits(lb, db, wsb, ob, contm, s, scan + (k - 1), k - 1));
                    assert(ascii_at(am, s, scan + (k - 1), k - 1));
                    assert(scan + (k - 1) == x - 1);
                }
                if x > 0 && boundary(s, x) {
                    assert(prev_lead(s, x) == lead_of(s, x - 1));
                }
                if boundary(s, x) && class_at(s, x, false) == CharClass::Whitespace {
                    let n = char_end(s, x);
                    assert(!bit(resid, k));
                    lemma_char_len(s, x);
                    assert(n <= scan + 64);
                    if n < scan + 64 {
                        let j = n - scan;
                        assert(class_bits(lb, db, wsb, ob, contm, s, scan + j, j));
                        lemma_lead_of(s, n);
                        assert(bit(nn, j) == (class_at(s, n, false) != CharClass::Whitespace));
                        assert(bit(nn >> 1u64, k) == bit(nn, k + 1));
                        assert(bit(nn >> 2u64, k) == bit(nn, k + 2));
                        assert(bit(nn >> 3u64, k) == bit(nn, k + 3));
                        assert(!bit(edge, k));
                        assert(bit(split_ok, k) == bit(nn, j));
                    } else {
                        assert(bit(edge, k));
                        assert(bit(split_ok, k) == (class_at(s, n, false)
                            != CharClass::Whitespace));
                    }
                    assert(bit(ws_leads, k));
                }
            }
            assert forall|k: int| #[trigger] bit(bad, k) implies exists|j: int|
                k - 1 <= j <= k + 1 && #[trigger] open_ws(s, scan as int, j, false) by {
                let j = if bit(resid, k) {
                    k
                } else if bit(resid, k - 1) {
                    k - 1
                } else {
                    k + 1
                };
                assert(bit(resid, j));
                assert(uni_at(uni, s, scan as int, j, false, true));
                assert(open_ws(s, scan as int, j, false));
            }
        }
    }
    (boundaries, bad)
}

/// The sets of a batch, ASCII and beyond, give each byte its class.
proof fn lemma_class_bits(s: Seq<u8>, scan: int, k: int, am: AsciiMasks, uni: UniClasses)
    requires
        well_encoded(s),
        0 <= scan,
        scan + 64 <= s.len(),
        0 <= k < 64,
        ascii_ok(am, s, scan),
        uni_ok(uni, s, scan, false, true),
    ensures
        class_bits(
            am.l | uni.l,
            am.d | uni.n,
            (am.s | am.wt | am.n) | uni.ws,
            !(am.l | am.d | (am.s | am.wt | am.n) | am.hi) | uni.o,
            uni.cont,
            s,
            scan + k,
            k,
        ),
{
    assert(ascii_at(am, s, scan + k, k));
    assert(uni_at(uni, s, scan, k, false, true));
    lemma_lead_of(s, scan + k);
}

/// Position `j` of the boundaries once the contractions at `done` are seen to:
/// no token starts behind their apostrophe, one starts behind their end.
spec fn fixed_at(s: Seq<u8>, scan: int, b0: u64, done: u64, b: u64, j: int) -> bool {
    bit(b, j) == {
        ||| bit(b0, j) && !(bit(done, j - 1) && contraction(s, scan + (j - 1)) is Some)
        ||| bit(done, j - 2) && contraction(s, scan + (j - 2)) == Some(scan + j)
        ||| bit(done, j - 3) && contraction(s, scan + (j - 3)) == Some(scan + j)
    }
}

/// What the treatment of contractions comes to: `done` were seen to, all that
/// are not left open among them.
spec fn fixed(
    s: Seq<u8>,
    scan: int,
    b0: u64,
    bad0: u64,
    ap: u64,
    done: u64,
    b: u64,
    bad: u64,
) -> bool {
    &&& forall|j: int| 0 <= j < 64 ==> #[trigger] fixed_at(s, scan, b0, done, b, j)
    &&& forall|i: int| #[trigger]
        bit(done, i) ==> bit(ap, i) && bit(b0, i) && !bit(bad0, i)
    &&& forall|i: int|
        bit(ap, i) && bit(b0, i) && !bit(bad0, i) ==> #[trigger] bit(done, i) || bit(bad, i)
    &&& forall|i: int| #[trigger] bit(bad0, i) ==> bit(bad, i)
    &&& forall|i: int| #[trigger]
        bit(bad, i) ==> bit(bad0, i) || (i >= 61 && exists|a: int|
            61 <= a < 64 && #[trigger] bit(ap, a))
    &&& forall|i: int| 61 <= i && #[trigger] bit(ap, i) && (bit(b0, i) || bit(bad0, i)) ==> bit(
        bad,
        63,
    ) && !bit(done, i)
    &&& forall|i: int, j: int| #[trigger] bit(bad, i) && !bit(bad0, i) && i <= j < 64
        ==> #[trigger] bit(bad, j)
}

/// One more contraction.
proof fn lemma_fix_step(s: Seq<u8>, scan: int, b0: u64, done: u64, b: u64, i: int, b2: u64)
    requires
        0 <= scan,
        0 <= i < 61,
        scan + 64 <= s.len(),
        forall|j: int| 0 <= j < 64 ==> #[trigger] fixed_at(s, scan, b0, done, b, j),
        forall|j: int| #[trigger] bit(done, j) ==> j < i && s[scan + j] == 0x27,
        s[scan + i] == 0x27,
        bit(b0, i),
        match contraction(s, scan + i) {
            Some(e) => forall|j: int| #[trigger]
                bit(b2, j) == (j != i + 1 && (bit(b, j) || scan + j == e)),
            None => b2 == b,
        },
    ensures
        forall|j: int|
            0 <= j < 64 ==> #[trigger] fixed_at(s, scan, b0, done | (1u64 << (i as u64)), b2, j),
{
    let d2 = done | (1u64 << (i as u64));
    assert(forall|j: int| #[trigger] bit(d2, j) == (bit(done, j) || j == i));
    assert forall|j: int| 0 <= j < 64 implies #[trigger] fixed_at(s, scan, b0, d2, b2, j) by {
        assert(fixed_at(s, scan, b0, done, b, j));
        // The byte behind an apostrophe of a contraction is a letter.
        assert(bit(done, j - 2) && contraction(s, scan + (j - 2)) == Some(scan + j) ==> s[scan + (j
            - 1)] != 0x27);
        assert(bit(done, j - 3) && contraction(s, scan + (j - 3)) == Some(scan + j) ==> s[scan + (j
            - 1)] != 0x27);
    }
}

/// Sees to the contractions of a batch. One that could reach past the batch
/// leaves the rest of it open.
fn contraction_fixup(bytes: &[u8], scan: usize, b0: u64, bad0: u64, am: AsciiMasks) -> (r: (
    u64,
    u64,
    Ghost<u64>,
))
    requires
        scan + 70 <= bytes@.len(),
        ascii_ok(am, bytes@, scan as int),
    ensures
        fixed(bytes@, scan as int, b0, bad0, am.ap, r.2@, r.0, r.1),
{
    let ghost s = bytes@;
    let len: usize = bytes.len();
    let cand0: u64 = am.ap & b0 & !bad0;
    let mut cand: u64 = cand0;
    let mut b: u64 = b0;
    let ghost mut done: u64 = 0;
    // An apostrophe among the last three positions that is left open leaves
    // the end open.
    let late: u64 = am.ap & bad0 & from_bit(61);
    let bad: u64 = if late != 0 {
        let from: u64 = lowest(late);
        bad0 | from_bit(from)
    } else {
        bad0
    };
    proof {
        assert forall|j: int| 0 <= j < 64 implies #[trigger] fixed_at(s, scan as int, b0, done, b, j) by {}
        assert forall|i: int| 61 <= i && bit(am.ap, i) && #[trigger] bit(bad0, i) implies bit(
            bad,
            63,
        ) by {
            assert(bit(late, i));
            crate::pretokenize::bits::lemma_some_bit(late, i);
        }
    }
    let ghost mut lo: int = 0;
    while cand != 0
        invariant
            s == bytes@,
            scan + 70 <= len == s.len(),
            ascii_ok(am, s, scan as int),
            cand0 == am.ap & b0 & !bad0,
            0 <= lo <= 64,
            forall|i: int| #[trigger] bit(cand, i) == (bit(cand0, i) && lo <= i),
            forall|i: int| #[trigger] bit(done, i) == (bit(cand0, i) && i < lo),
            lo <= 61,
            forall|j: int| 0 <= j < 64 ==> #[trigger] fixed_at(s, scan as int, b0, done, b, j),
            forall|i: int| #[trigger] bit(bad0, i) ==> bit(bad, i),
            forall|i: int| #[trigger]
                bit(bad, i) ==> bit(bad0, i) || (i >= 61 && exists|a: int|
                    61 <= a < 64 && #[trigger] bit(am.ap, a)),
            forall|i: int| 61 <= i && bit(am.ap, i) && #[trigger] bit(bad0, i) ==> bit(bad, 63),
            forall|i: int, j: int| #[trigger] bit(bad, i) && !bit(bad0, i) && i <= j < 64
                ==> #[trigger] bit(bad, j),
        decreases 64 - lo,
    {
        let i: u64 = lowest(cand);
        let ghost was = cand;
        let one: u64 = single(i);
        cand = cand & !one;
        proof {
            assert(bit(was, i as int));
            assert(ascii_at(am, s, scan + i, i as int));
        }
        if i >= 61 {
            let rest: u64 = from_bit(i);
            let bad2: u64 = bad | rest;
            proof {
                assert(bit(am.ap, i as int));
                assert forall|j: int| bit(am.ap, j) && bit(b0, j) && !bit(bad0, j) implies #[trigger] bit(
                    done,
                    j,
                ) || bit(bad2, j) by {
                    assert(bit(cand0, j));
                    if j < i {
                        assert(!bit(was, j));
                    }
                }
            }
            return (b, bad2, Ghost(done));
        }
        let ghost b_was = b;
        let found = contraction_end(bytes, scan + i as usize);
        if let Some(e) = found {
            let at: u64 = (e - scan) as u64;
            let clear_bit: u64 = single(i + 1);
            let set_bit: u64 = single(at);
            b = (b & !clear_bit) | set_bit;
        }
        proof {
            assert forall|j: int| #[trigger] bit(done, j) implies j < i && s[scan + j] == 0x27 by {
                assert(bit(cand0, j));
                assert(ascii_at(am, s, scan + j, j));
                assert(!bit(was, j) || j >= i);
            }
            lemma_fix_step(s, scan as int, b0, done, b_was, i as int, b);
            let d2 = done | (1u64 << i);
            assert forall|j: int| #[trigger] bit(d2, j) == (bit(cand0, j) && j < i + 1) by {
                assert(bit(done, j) == (bit(cand0, j) && j < lo));
                if lo <= j < i {
                    assert(!bit(was, j));
                }
            }
            done = d2;
            lo = i + 1;
        }
    }
    proof {
        assert forall|i: int| bit(am.ap, i) && bit(b0, i) && !bit(bad0, i) implies #[trigger] bit(
            done,
            i,
        ) || bit(bad, i) by {
            assert(bit(cand0, i));
            assert(!bit(cand, i));
        }
        assert forall|i: int|
            61 <= i && #[trigger] bit(am.ap, i) && (bit(b0, i) || bit(bad0, i)) implies bit(bad, 63)
            && !bit(done, i) by {
            assert(!bit(cand, i));
            assert(bit(cand0, i) == (bit(am.ap, i) && bit(b0, i) && !bit(bad0, i)));
        }
    }
    (b, bad, Ghost(done))
}

/// A true contraction that the masks did not see to lies before the position
/// that they are asked about.
proof fn lemma_unseen_contraction(s: Seq<u8>, scan: int, r: int, k: int, i: int, e: int)
    requires
        well_encoded(s),
        0 <= scan,
        scan + 64 <= s.len(),
        -1 <= r < k < 64,
        if r == -1 {
            r50k_entered(s, scan)
        } else {
            is_start(PretokenizerType::GPT2, s, scan + r)
        },
        i < scan || (r >= 0 && i < scan + r),
        r50k_contracts(s, i, e),
    ensures
        e < scan + k,
{
    let t = PretokenizerType::GPT2;
    if r >= 0 {
        assert(whole_char(s, i));
        law_r50k_starts(s, i);
        assert(boundary(s, i));
        assert(r50k_start(s, i));
        law_next_start(t, s, i);
        assert(token_end(t, s, i) == e);
        if scan + r < e {
            assert(!is_start(t, s, scan + r));
        }
    }
}

/// What the masks say behind a known start is right.
proof fn lemma_r50k_told(
    s: Seq<u8>,
    scan: int,
    am: AsciiMasks,
    b0: u64,
    bad0: u64,
    done: u64,
    b: u64,
    bad: u64,
    r: int,
    k: int,
)
    requires
        well_encoded(s),
        0 <= scan,
        scan + 70 <= s.len(),
        ascii_ok(am, s, scan),
        forall|j: int|
            0 <= j < 64 && !bit(bad0, j) ==> #[trigger] bit(b0, j) == (boundary(s, scan + j)
                && r50k_base(s, scan + j)),
        fixed(s, scan, b0, bad0, am.ap, done, b, bad),
        -1 <= r < k < 64,
        if r == -1 {
            r50k_entered(s, scan)
        } else {
            is_start(PretokenizerType::GPT2, s, scan + r)
        },
        clear(bad, r, k),
    ensures
        bit(b & !bad, k) == is_start(PretokenizerType::GPT2, s, scan + k),
{
    let x = scan + k;
    law_r50k_starts(s, x);
    assert(!bit(bad, k));
    assert(!bit(bad0, k));
    assert(fixed_at(s, scan, b0, done, b, k));
    lemma_seen(s, scan, am, b0, bad0, done, b, bad, r, k, k - 1);
    lemma_seen(s, scan, am, b0, bad0, done, b, bad, r, k, k - 2);
    lemma_seen(s, scan, am, b0, bad0, done, b, bad, r, k, k - 3);
    if r50k_contracts(s, x - 2, x) || r50k_contracts(s, x - 3, x) {
        assert(whole_char(s, x - 1));
    }
}

/// A contraction that bears on a position was seen to, if and only if it is
/// one.
proof fn lemma_seen(
    s: Seq<u8>,
    scan: int,
    am: AsciiMasks,
    b0: u64,
    bad0: u64,
    done: u64,
    b: u64,
    bad: u64,
    r: int,
    k: int,
    i: int,
)
    requires
        well_encoded(s),
        0 <= scan,
        scan + 70 <= s.len(),
        ascii_ok(am, s, scan),
        forall|j: int|
            0 <= j < 64 && !bit(bad0, j) ==> #[trigger] bit(b0, j) == (boundary(s, scan + j)
                && r50k_base(s, scan + j)),
        fixed(s, scan, b0, bad0, am.ap, done, b, bad),
        -1 <= r < k < 64,
        k - 3 <= i < k,
        if r == -1 {
            r50k_entered(s, scan)
        } else {
            is_start(PretokenizerType::GPT2, s, scan + r)
        },
        clear(bad, r, k),
    ensures
        bit(done, i) ==> scan + i >= 0 && s[scan + i] == 0x27 && r50k_base(s, scan + i),
        forall|e: int|
            e >= scan + k && #[trigger] r50k_contracts(s, scan + i, e) ==> bit(done, i),
{
    if bit(done, i) {
        assert(bit(am.ap, i));
        assert(ascii_at(am, s, scan + i, i));
        assert(bit(b0, i));
    }
    assert forall|e: int| e >= scan + k && #[trigger] r50k_contracts(s, scan + i, e) implies bit(
        done,
        i,
    ) by {
        if i < 0 || (r >= 0 && i < r) {
            lemma_unseen_contraction(s, scan, r, k, scan + i, e);
        } else {
            assert(ascii_at(am, s, scan + i, i));
            assert(bit(am.ap, i));
            assert(!bit(bad, i));
            assert(!bit(bad0, i));
            assert(bit(b0, i));
            assert(bit(done, i) || bit(bad, i));
        }
    }
}

/// The masks of the batch at `scan` under the GPT-2 scheme.
pub fn batch_masks(bytes: &[u8], scan: usize) -> (r: (u64, u64))
    requires
        scan + 64 <= bytes@.len(),
    ensures
        disjoint(r.0, r.1),
        well_encoded(bytes@) ==> {
            &&& forall|a: int, k: int|
                -1 <= a < k < 64 && (if a == -1 {
                    r50k_entered(bytes@, scan as int)
                } else {
                    is_start(PretokenizerType::GPT2, bytes@, scan + a)
                }) && #[trigger] clear(r.1, a, k) ==> bit(r.0, k) == is_start(
                    PretokenizerType::GPT2,
                    bytes@,
                    scan + k,
                )
            &&& !bit(r.1, 63) ==> r50k_entered(bytes@, scan + 64)
            &&& forall|k: int|
                0 <= k < 64 && !r50k_open(bytes@, scan as int, k) ==> !#[trigger] bit(r.1, k)
        },
{
    let ghost s = bytes@;
    if bytes.len() - scan < 70 {
        // Not enough behind the batch to tell the character at its edge.
        proof {
            assert forall|a: int, k: int| -1 <= a < k < 64 implies !#[trigger] clear(
                0xffff_ffff_ffff_ffff,
                a,
                k,
            ) by {
                assert(bit(0xffff_ffff_ffff_ffff, k));
            }
        }
        return (0, u64::MAX);
    }
    let am = ascii_masks(bytes, scan);
    let (b0, bad0) = extended_masks(bytes, scan, am);
    let (b, bad, Ghost(done)) = contraction_fixup(bytes, scan, b0, bad0, am);
    proof {
        if well_encoded(s) {
            assert forall|a: int, k: int|
                -1 <= a < k < 64 && (if a == -1 {
                    r50k_entered(s, scan as int)
                } else {
                    is_start(PretokenizerType::GPT2, s, scan + a)
                }) && #[trigger] clear(bad, a, k) implies bit(b & !bad, k) == is_start(
                PretokenizerType::GPT2,
                s,
                scan + k,
            ) by {
                lemma_r50k_told(s, scan as int, am, b0, bad0, done, b, bad, a, k);
            }
            if !bit(bad, 63) {
                assert forall|i: int, e: int|
                    i < scan + 64 && #[trigger] r50k_contracts(s, i, e) implies e < scan + 64 by {
                    if e >= scan + 64 {
                        let j = i - scan;
                        assert(ascii_at(am, s, scan + j, j));
                        assert(bit(am.ap, j));
                        assert(!bit(bad0, j) ==> bit(b0, j));
                    }
                }
            }
            assert forall|k: int| 0 <= k < 64 && !r50k_open(s, scan as int, k) implies !#[trigger] bit(
                bad,
                k,
            ) by {
                if bit(bad, k) && !bit(bad0, k) {
                    let a = choose|a: int| 61 <= a < 64 && #[trigger] bit(am.ap, a);
                    assert(ascii_at(am, s, scan + a, a));
                    assert(s[scan + a] == 0x27);
                }
            }
        }
    }
    (b & !bad, bad)
}

} // verus!
