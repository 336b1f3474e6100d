//! The batch masks of the cl100k family.
use crate::pretokenize::batches::clear;
use crate::pretokenize::bits::{
    bit, carry, disjoint, from_bit, group_bits, highest, lemma_some_bit, lowest, single,
};
use crate::pretokenize::chars::{
    ascii_digit, ascii_ws, char_end, class_at, is_ascii_ws, lemma_char_len, newline, run_end,
};
use crate::pretokenize::cl100k_family::Cl100kRules;
use crate::pretokenize::classes::{
    ascii_at, ascii_masks, ascii_ok, char_through, lead_of, lemma_lead_of, uni_at, uni_ok,
    unicode_classes, AsciiMasks, UniClasses,
};
use crate::pretokenize::family_starts::{
    absorbed, family_base, family_contracts, family_scheme, family_start, law_family_starts,
    lemma_nocase_letters, long_s_is_letter, no_newline, num_index, prev_class,
};
use crate::pretokenize::locality::{
    boundary, lemma_char_boundary, well_encoded, whole_char, whole_chars,
};
use crate::pretokenize::r50k::continuation;
use crate::pretokenize::r50k_masks::{nn_at_full, open_ws};
use crate::pretokenize::r50k_starts::{lemma_prev_char, lemma_prev_of_end, prev_lead};
use crate::pretokenize::runs::{
    all_in, back, digit_run_splits3, fix_newline_runs, lemma_run_bounds, lemma_smeared_step,
    none_in, run_fixed, run_hi, run_holds, run_lo, smear_up, smeared,
};
use crate::pretokenize::scheme::{token_end, PretokenizerType};
use crate::pretokenize::starts::{is_start, law_next_start};
use crate::pretokenize::unicode::{class_of, CharClass};
use crate::pretokenize::words::{contraction_nocase, contraction_nocase_end};
use vstd::prelude::*;

verus! {

broadcast use group_bits;

/// What the two characters before a batch carry into it.
#[derive(Clone, Copy)]
pub struct Carries {
    /// The character before the batch is a letter, a space, other whitespace
    /// than a space or newline, punctuation, whitespace, a number.
    pub pl: u64,
    pub ps: u64,
    pub pwt: u64,
    pub po: u64,
    pub pws: u64,
    pub pd: u64,
    /// The character before that is punctuation or a space: placed at the
    /// first position, or behind a character that lies across the edge.
    pub c2_os: u64,
    pub b2b_in: u64,
}

/// The character before `q` is punctuation or a space.
spec fn os_before(s: Seq<u8>, q: int, m: bool) -> bool {
    q > 0 && (s[q - 1] == 0x20 || class_at(s, lead_of(s, q - 1), m) == CharClass::Other)
}

/// The carries describe what stands before `scan`.
spec fn carries_ok(cr: Carries, s: Seq<u8>, scan: int, m: bool) -> bool {
    let j = lead_of(s, scan - 1);
    let c = class_at(s, j, m);
    let b = s[scan - 1];
    let e = char_end(s, j);
    &&& forall|k: int| #[trigger] bit(cr.pl, k) == (scan > 0 && k == 0 && c == CharClass::Letter)
    &&& forall|k: int| #[trigger] bit(cr.ps, k) == (scan > 0 && k == 0 && b == 0x20)
    &&& forall|k: int| #[trigger]
        bit(cr.pwt, k) == (scan > 0 && k == 0 && c == CharClass::Whitespace && b != 0x20
            && !newline(b))
    &&& forall|k: int| #[trigger] bit(cr.po, k) == (scan > 0 && k == 0 && c == CharClass::Other)
    &&& forall|k: int| #[trigger]
        bit(cr.pws, k) == (scan > 0 && k == 0 && c == CharClass::Whitespace)
    &&& forall|k: int| #[trigger] bit(cr.pd, k) == (scan > 0 && k == 0 && c == CharClass::Number)
    &&& forall|k: int| #[trigger]
        bit(cr.c2_os, k) == (scan > 0 && k == 0 && e <= scan && os_before(s, j, m))
    &&& forall|k: int| #[trigger]
        bit(cr.b2b_in, k) == (scan > 0 && e > scan && k == e - scan && os_before(s, j, m))
}

/// The carries into the batch at `scan`.
fn batch_carries(bytes: &[u8], scan: usize, marks: bool) -> (cr: Carries)
    requires
        scan + 64 <= bytes@.len(),
    ensures
        carries_ok(cr, bytes@, scan as int, marks),
{
    if scan == 0 {
        return Carries { pl: 0, ps: 0, pwt: 0, po: 0, pws: 0, pd: 0, c2_os: 0, b2b_in: 0 };
    }
    let (c1, j1, e1) = char_through(bytes, scan, marks);
    proof {
        lemma_char_len(bytes@, j1 as int);
    }
    let b: u8 = bytes[scan - 1];
    let two_back: bool = if j1 == 0 {
        false
    } else {
        let (c2, _, _) = char_through(bytes, j1, marks);
        bytes[j1 - 1] == 0x20 || c2 == CharClass::Other
    };
    let ws: bool = c1 == CharClass::Whitespace;
    let b2b_in: u64 = if e1 > scan && two_back {
        single((e1 - scan) as u64)
    } else {
        0
    };
    Carries {
        pl: carry(c1 == CharClass::Letter),
        ps: carry(b == 0x20),
        pwt: carry(ws && b != 0x20 && b != 0x0d && b != 0x0a),
        po: carry(c1 == CharClass::Other),
        pws: carry(ws),
        pd: carry(c1 == CharClass::Number),
        c2_os: carry(e1 <= scan && two_back),
        b2b_in,
    }
}

// The effective sets: every byte of a character carries its class.

spec fn l_of(am: AsciiMasks, uni: UniClasses) -> u64 {
    am.l | uni.l
}

spec fn wt_of(am: AsciiMasks, uni: UniClasses) -> u64 {
    am.wt | uni.ws
}

spec fn o_of(am: AsciiMasks, uni: UniClasses) -> u64 {
    !(am.l | am.d | am.s | am.wt | am.n | am.hi) | uni.o
}

spec fn ws_of(am: AsciiMasks, uni: UniClasses) -> u64 {
    am.s | wt_of(am, uni) | am.n
}

/// What the effective sets say of position `k`.
spec fn eff_at(s: Seq<u8>, scan: int, am: AsciiMasks, uni: UniClasses, m: bool, k: int) -> bool {
    let x = scan + k;
    let c = class_at(s, lead_of(s, x), m);
    let b = s[x];
    &&& bit(l_of(am, uni), k) == (c == CharClass::Letter)
    &&& bit(o_of(am, uni), k) == (c == CharClass::Other)
    &&& bit(ws_of(am, uni), k) == (c == CharClass::Whitespace)
    &&& bit(wt_of(am, uni), k) == (c == CharClass::Whitespace && b != 0x20 && !newline(b))
    &&& bit(am.s, k) == (b == 0x20)
    &&& bit(am.n, k) == newline(b)
    &&& bit(am.d, k) == ascii_digit(b)
    &&& bit(am.ap, k) == (b == 0x27)
    &&& bit(uni.cont, k) == continuation(b)
    &&& bit(uni.n, k) == (b >= 0x80 && c == CharClass::Number)
}

/// What is known of a batch before the algebra.
spec fn given(
    s: Seq<u8>,
    scan: int,
    am: AsciiMasks,
    cr: Carries,
    uni: UniClasses,
    m: bool,
) -> bool {
    &&& well_encoded(s)
    &&& 0 <= scan
    &&& scan + 70 <= s.len()
    &&& ascii_ok(am, s, scan)
    &&& uni_ok(uni, s, scan, m, false)
    &&& carries_ok(cr, s, scan, m)
}

proof fn lemma_eff(
    s: Seq<u8>,
    scan: int,
    am: AsciiMasks,
    cr: Carries,
    uni: UniClasses,
    m: bool,
    k: int,
)
    requires
        given(s, scan, am, cr, uni, m),
        0 <= k < 64,
    ensures
        eff_at(s, scan, am, uni, m, k),
{
    assert(ascii_at(am, s, scan + k, k));
    assert(uni_at(uni, s, scan, k, m, false));
    lemma_lead_of(s, scan + k);
}

// Letters and punctuation.

spec fn c_test_of(am: AsciiMasks, cr: Carries, uni: UniClasses) -> u64 {
    ((o_of(am, uni) | am.s) << 1u64) | cr.po | cr.ps
}

spec fn len1_of(uni: UniClasses) -> u64 {
    !(uni.cont | uni.lead2 | uni.lead3 | uni.lead4)
}

spec fn b2back_of(am: AsciiMasks, cr: Carries, uni: UniClasses) -> u64 {
    let c = c_test_of(am, cr, uni);
    ((c & len1_of(uni)) << 1u64) | ((c & uni.lead2) << 2u64) | ((c & uni.lead3) << 3u64) | ((c
        & uni.lead4) << 4u64) | cr.c2_os | cr.b2b_in
}

spec fn letters_of(am: AsciiMasks, cr: Carries, uni: UniClasses) -> u64 {
    let lb = l_of(am, uni);
    let p_l = (lb << 1u64) | cr.pl;
    let p_s = (am.s << 1u64) | cr.ps;
    let p_wt = (wt_of(am, uni) << 1u64) | cr.pwt;
    let p_o = (o_of(am, uni) << 1u64) | cr.po;
    let absorb = p_o & !b2back_of(am, cr, uni);
    lb & !uni.cont & !p_l & !p_s & !p_wt & !absorb
}

spec fn punct_of(am: AsciiMasks, cr: Carries, uni: UniClasses) -> u64 {
    let ob = o_of(am, uni);
    let p_s = (am.s << 1u64) | cr.ps;
    let p_o = (ob << 1u64) | cr.po;
    ob & !uni.cont & !p_o & !p_s
}

/// The test of the byte before position `j`.
proof fn lemma_c_test(
    s: Seq<u8>,
    scan: int,
    am: AsciiMasks,
    cr: Carries,
    uni: UniClasses,
    m: bool,
    j: int,
)
    requires
        given(s, scan, am, cr, uni, m),
        0 <= j < 64,
    ensures
        bit(c_test_of(am, cr, uni), j) == os_before(s, scan + j, m),
{
    if j > 0 {
        lemma_eff(s, scan, am, cr, uni, m, j - 1);
        assert(scan + (j - 1) == scan + j - 1);
    }
}

/// The starts of the characters in a batch by length.
proof fn lemma_lengths(
    s: Seq<u8>,
    scan: int,
    am: AsciiMasks,
    cr: Carries,
    uni: UniClasses,
    m: bool,
    j: int,
)
    requires
        given(s, scan, am, cr, uni, m),
        0 <= j < 64,
    ensures
        ({
            let n = char_end(s, scan + j) - (scan + j);
            let lead = !continuation(s[scan + j]);
            &&& bit(len1_of(uni), j) == (lead && n == 1)
            &&& bit(uni.lead2, j) == (lead && n == 2)
            &&& bit(uni.lead3, j) == (lead && n == 3)
            &&& bit(uni.lead4, j) == (lead && n == 4)
            &&& lead ==> 1 <= n <= 4
        }),
{
    let x = scan + j;
    assert(uni_at(uni, s, scan, j, m, false));
    assert(ascii_at(am, s, x, j));
    lemma_lead_of(s, x);
    lemma_char_len(s, x);
    if !continuation(s[x]) {
        assert(whole_char(s, x));
    }
}

/// The test of the character two back, at a character start.
proof fn lemma_b2back(
    s: Seq<u8>,
    scan: int,
    am: AsciiMasks,
    cr: Carries,
    uni: UniClasses,
    m: bool,
    k: int,
)
    requires
        given(s, scan, am, cr, uni, m),
        0 <= k < 64,
        scan + k > 0,
        boundary(s, scan + k),
    ensures
        bit(b2back_of(am, cr, uni), k) == os_before(s, prev_lead(s, scan + k), m),
{
    let x = scan + k;
    let q = prev_lead(s, x);
    let c = c_test_of(am, cr, uni);
    let len1 = len1_of(uni);
    lemma_prev_char(s, x);
    lemma_char_len(s, q);
    let n = x - q;
    // Which of the shifted tests can reach `k`.
    assert forall|d: int| 1 <= d <= 4 && k - d >= 0 implies (#[trigger] ends_after(s, scan + (k
        - d), d) <==> d == n) by {
        let y = scan + (k - d);
        if ends_after(s, y, d) {
            lemma_prev_of_end(s, y);
        }
        if d == n {
            assert(y == q);
        }
    }
    assert(bit((c & len1) << 1u64, k) == (bit(c, k - 1) && bit(len1, k - 1)));
    assert(bit((c & uni.lead2) << 2u64, k) == (bit(c, k - 2) && bit(uni.lead2, k - 2)));
    assert(bit((c & uni.lead3) << 3u64, k) == (bit(c, k - 3) && bit(uni.lead3, k - 3)));
    assert(bit((c & uni.lead4) << 4u64, k) == (bit(c, k - 4) && bit(uni.lead4, k - 4)));
    if k >= 1 {
        lemma_lengths(s, scan, am, cr, uni, m, k - 1);
        assert(ends_after(s, scan + (k - 1), 1) <==> 1 == n);
    }
    if k >= 2 {
        lemma_lengths(s, scan, am, cr, uni, m, k - 2);
        assert(ends_after(s, scan + (k - 2), 2) <==> 2 == n);
    }
    if k >= 3 {
        lemma_lengths(s, scan, am, cr, uni, m, k - 3);
        assert(ends_after(s, scan + (k - 3), 3) <==> 3 == n);
    }
    if k >= 4 {
        lemma_lengths(s, scan, am, cr, uni, m, k - 4);
        assert(ends_after(s, scan + (k - 4), 4) <==> 4 == n);
    }
    if q >= scan {
        lemma_c_test(s, scan, am, cr, uni, m, q - scan);
        assert(k - n == q - scan);
        if scan > 0 {
            lemma_lead_of(s, scan - 1);
            let e = char_end(s, lead_of(s, scan - 1));
            if e > scan && k == e - scan {
                lemma_prev_of_end(s, lead_of(s, scan - 1));
            }
        }
    } else {
        lemma_lead_of(s, scan - 1);
        assert(lead_of(s, scan - 1) == q) by {
            lemma_lead_of(s, x - 1);
            assert(lead_of(s, x - 1) == q);
        }
    }
}

/// The character at `y` has `d` bytes.
spec fn ends_after(s: Seq<u8>, y: int, d: int) -> bool {
    !continuation(s[y]) && char_end(s, y) - y == d
}

/// Letters and punctuation start tokens where the masks say so.
proof fn lemma_word_starts(
    s: Seq<u8>,
    scan: int,
    am: AsciiMasks,
    cr: Carries,
    uni: UniClasses,
    r: Cl100kRules,
    k: int,
)
    requires
        given(s, scan, am, cr, uni, r.marks_join),
        0 <= k < 64,
    ensures
        ({
            let x = scan + k;
            let c = class_at(s, x, r.marks_join);
            &&& bit(letters_of(am, cr, uni), k) == (boundary(s, x) && c == CharClass::Letter
                && family_base(s, x, r))
            &&& bit(punct_of(am, cr, uni), k) == (boundary(s, x) && c == CharClass::Other
                && family_base(s, x, r))
        }),
{
    let m = r.marks_join;
    let x = scan + k;
    lemma_eff(s, scan, am, cr, uni, m, k);
    lemma_lead_of(s, x);
    if x > 0 && boundary(s, x) {
        lemma_b2back(s, scan, am, cr, uni, m, k);
        lemma_prev_char(s, x);
        let q = prev_lead(s, x);
        assert(q == lead_of(s, x - 1));
        if q > 0 {
            lemma_prev_char(s, q);
            assert(prev_lead(s, q) == lead_of(s, q - 1));
        }
        lemma_char_boundary(s, q);
        if q < x - 1 {
            assert(continuation(s[x - 1]));
        }
    }
    if k > 0 {
        lemma_eff(s, scan, am, cr, uni, m, k - 1);
        assert(scan + (k - 1) == x - 1);
    }
}

// Numbers.

/// The digits whose group does not start in the batch, or that follow an open
/// position.
spec fn digit_seed(am: AsciiMasks, cr: Carries, bad: u64) -> u64 {
    (am.d & (bad << 1u64)) | (am.d & cr.pd)
}

/// Digits count from the start of their run in the batch.
proof fn lemma_digit_count(
    s: Seq<u8>,
    scan: int,
    am: AsciiMasks,
    cr: Carries,
    uni: UniClasses,
    m: bool,
    bad: u64,
    k: int,
)
    requires
        given(s, scan, am, cr, uni, m),
        0 <= k < 64,
        bit(am.d, k),
        forall|j: int| #[trigger] bit(uni.resid, j) ==> bit(bad, j),
        !smeared(digit_seed(am, cr, bad), am.d, k),
    ensures
        num_index(s, scan + k, m) == back(am.d, k),
    decreases k,
{
    let x = scan + k;
    let seed = digit_seed(am, cr, bad);
    lemma_smeared_step(seed, am.d, k);
    lemma_eff(s, scan, am, cr, uni, m, k);
    assert(whole_char(s, x)) by {
        assert(s[x] < 0x80);
    }
    if x > 0 {
        lemma_prev_char(s, x);
        lemma_lead_of(s, x - 1);
    }
    if k > 0 {
        lemma_eff(s, scan, am, cr, uni, m, k - 1);
        assert(scan + (k - 1) == x - 1);
        assert(uni_at(uni, s, scan, k - 1, m, false));
        if bit(am.d, k - 1) {
            lemma_digit_count(s, scan, am, cr, uni, m, bad, k - 1);
        } else {
            assert(bit(bad << 1u64, k) == bit(bad, k - 1));
            assert(!bit(bad, k - 1));
        }
    } else {
        assert(!bit(cr.pd, 0));
    }
}

// Whitespace.

spec fn abs_seed_of(am: AsciiMasks, cr: Carries, uni: UniClasses) -> u64 {
    am.n & ((o_of(am, uni) << 1u64) | cr.po)
}

/// Every byte from `a` to `x` is a newline.
spec fn newlines(s: Seq<u8>, a: int, x: int) -> bool {
    forall|j: int| a <= j <= x ==> newline(#[trigger] s[j])
}

/// Which newlines the batch takes to belong to punctuation.
proof fn lemma_abs(
    s: Seq<u8>,
    scan: int,
    am: AsciiMasks,
    cr: Carries,
    uni: UniClasses,
    m: bool,
    k: int,
)
    requires
        given(s, scan, am, cr, uni, m),
        0 <= k < 64,
    ensures
        smeared(abs_seed_of(am, cr, uni), am.n, k) ==> absorbed(s, scan + k, m),
        absorbed(s, scan + k, m) && !smeared(abs_seed_of(am, cr, uni), am.n, k) ==> newlines(
            s,
            scan,
            scan + k,
        ) && absorbed(s, scan - 1, m),
    decreases k,
{
    let x = scan + k;
    let seed = abs_seed_of(am, cr, uni);
    lemma_smeared_step(seed, am.n, k);
    lemma_eff(s, scan, am, cr, uni, m, k);
    assert(prev_lead(s, x) == lead_of(s, x - 1));
    if k > 0 {
        lemma_eff(s, scan, am, cr, uni, m, k - 1);
        assert(scan + (k - 1) == x - 1);
        lemma_abs(s, scan, am, cr, uni, m, k - 1);
        assert(bit(o_of(am, uni) << 1u64, k) == bit(o_of(am, uni), k - 1));
        assert(!bit(cr.po, k));
    } else {
        assert(!bit(o_of(am, uni) << 1u64, 0));
    }
}

/// Newlines behind one that belongs to punctuation do too.
proof fn lemma_absorbed_on(s: Seq<u8>, a: int, x: int, m: bool)
    requires
        0 <= a <= x < s.len(),
        absorbed(s, a, m),
        newlines(s, a, x),
    ensures
        absorbed(s, x, m),
    decreases x - a,
{
    if x > a {
        lemma_absorbed_on(s, a, x - 1, m);
        assert(newline(s[x]));
    }
}

/// No contraction before `scan` reaches it, and no whitespace run lies across
/// it.
pub open spec fn family_entered(s: Seq<u8>, scan: int, r: Cl100kRules) -> bool {
    &&& forall|i: int, e: int| i < scan && #[trigger] family_contracts(s, i, e, r) ==> e < scan
    &&& 0 < scan < s.len() && boundary(s, scan) ==> !(class_at(s, scan, r.marks_join)
        == CharClass::Whitespace && prev_class(s, scan, r.marks_join) == CharClass::Whitespace)
}

/// What a position is asked from: a token start before it, or the edge.
spec fn asked(s: Seq<u8>, scan: int, rules: Cl100kRules, bad: u64, r: int, k: int) -> bool {
    &&& -1 <= r < k < 64
    &&& clear(bad, r, k)
    &&& long_s_is_letter(rules.marks_join)
    &&& if r == -1 {
        family_entered(s, scan, rules)
    } else {
        family_start(s, scan + r, rules)
    }
}

/// From a start on, the batch knows which newlines belong to punctuation.
proof fn lemma_abs_known(
    s: Seq<u8>,
    scan: int,
    am: AsciiMasks,
    cr: Carries,
    uni: UniClasses,
    rules: Cl100kRules,
    bad: u64,
    r: int,
    k: int,
    j: int,
)
    requires
        given(s, scan, am, cr, uni, rules.marks_join),
        asked(s, scan, rules, bad, r, k),
        0 <= j <= k,
        r <= j,
    ensures
        smeared(abs_seed_of(am, cr, uni), am.n, j) == absorbed(s, scan + j, rules.marks_join),
{
    let m = rules.marks_join;
    lemma_abs(s, scan, am, cr, uni, m, j);
    if absorbed(s, scan + j, m) && !smeared(abs_seed_of(am, cr, uni), am.n, j) {
        assert(newline(s[scan]));
        assert(newline(s[scan - 1]));
        assert(whole_char(s, scan - 1));
        lemma_prev_of_end(s, scan - 1);
        assert(r >= 0);
        let y = scan + r;
        assert(newlines(s, scan - 1, y));
        lemma_absorbed_on(s, scan - 1, y, m);
        assert(newline(s[y]));
        assert(newline(s[y - 1]));
        assert(whole_char(s, y - 1));
        lemma_prev_of_end(s, y - 1);
        crate::pretokenize::family_starts::lemma_no_contraction_end(s, y, rules);
        assert(!family_base(s, y, rules));
    }
}

/// A stretch of characters of one class, up to one of another, is a run.
proof fn lemma_run_covers(s: Seq<u8>, x: int, t: int, c: CharClass, m: bool)
    requires
        whole_chars(s),
        0 <= x <= t <= s.len(),
        boundary(s, x),
        boundary(s, t),
        forall|j: int| x <= j < t ==> class_at(s, #[trigger] lead_of(s, j), m) == c,
        t < s.len() ==> class_at(s, t, m) != c,
    ensures
        run_end(s, x, c, m) == t,
    decreases t - x,
{
    if x < t {
        lemma_lead_of(s, x);
        assert(class_at(s, lead_of(s, x), m) == c);
        lemma_prev_of_end(s, x);
        lemma_char_boundary(s, x);
        if char_end(s, x) > t {
            assert(continuation(s[t]));
        }
        lemma_run_covers(s, char_end(s, x), t, c, m);
    }
}

/// What the whitespace part of the algebra works on.
spec fn ws_given(
    s: Seq<u8>,
    scan: int,
    am: AsciiMasks,
    cr: Carries,
    uni: UniClasses,
    m: bool,
    ws_eff: u64,
    nn64: bool,
    bad: u64,
) -> bool {
    &&& given(s, scan, am, cr, uni, m)
    &&& forall|j: int| #[trigger]
        bit(ws_eff, j) == (bit(ws_of(am, uni), j) && !smeared(
            abs_seed_of(am, cr, uni),
            am.n,
            j,
        ))
    &&& forall|j: int| #[trigger] bit(uni.resid, j) ==> bit(bad, j)
    &&& forall|j: int| !(#[trigger] bit(uni.lead4, j) && bit(uni.ws, j))
    &&& nn64 && bit(ws_of(am, uni), 63) ==> boundary(s, scan + 64) && class_at(s, scan + 64, m)
        != CharClass::Whitespace
    &&& boundary(s, scan + 64) && class_at(s, scan + 64, m) == CharClass::Whitespace ==> !nn64
    &&& !nn64 && bit(ws_eff, 63) ==> forall|j: int|
        bit(ws_eff, j) && run_hi(ws_eff, j) == 64 ==> #[trigger] bit(bad, j)
}

/// The whitespace run of an asked position ends with its run in the batch.
proof fn lemma_ws_run(
    s: Seq<u8>,
    scan: int,
    am: AsciiMasks,
    cr: Carries,
    uni: UniClasses,
    m: bool,
    ws_eff: u64,
    nn64: bool,
    bad: u64,
    k: int,
)
    requires
        ws_given(s, scan, am, cr, uni, m, ws_eff, nn64, bad),
        0 <= k < 64,
        bit(ws_eff, k),
        !bit(bad, k),
        boundary(s, scan + k),
    ensures
        run_end(s, scan + k, CharClass::Whitespace, m) == scan + run_hi(ws_eff, k),
        boundary(s, scan + run_hi(ws_eff, k)),
        k < run_hi(ws_eff, k) <= 64,
        run_hi(ws_eff, k) == 64 ==> nn64,
        forall|j: int| run_lo(ws_eff, k) <= j < run_hi(ws_eff, k) ==> #[trigger] bit(ws_eff, j),
{
    let c = CharClass::Whitespace;
    let seed = abs_seed_of(am, cr, uni);
    lemma_run_bounds(ws_eff, k);
    let e = run_hi(ws_eff, k);
    let t = scan + e;
    assert forall|j: int| scan + k <= j < t implies class_at(s, #[trigger] lead_of(s, j), m) == c by {
        let i = j - scan;
        assert(bit(ws_eff, i));
        lemma_eff(s, scan, am, cr, uni, m, i);
        assert(scan + i == j);
    }
    assert(bit(ws_eff, e - 1));
    lemma_eff(s, scan, am, cr, uni, m, e - 1);
    if e == 64 {
        assert(bit(ws_eff, 63));
        assert(nn64);
    } else {
        lemma_eff(s, scan, am, cr, uni, m, e);
        lemma_lead_of(s, t);
        assert(bit(ws_eff, e) == (bit(ws_of(am, uni), e) && !smeared(seed, am.n, e)));
        // The byte behind the run is no whitespace: a newline there would
        // belong to punctuation right before it.
        assert(!bit(ws_of(am, uni), e)) by {
            if bit(ws_of(am, uni), e) {
                lemma_smeared_step(seed, am.n, e);
                assert(!smeared(seed, am.n, e - 1));
                assert(bit(o_of(am, uni) << 1u64, e) == bit(o_of(am, uni), e - 1));
                assert(!bit(cr.po, e));
            }
        }
        if continuation(s[t]) {
            // It would belong to the last character of the run.
            lemma_lead_of(s, t - 1);
            assert(scan + (e - 1) == t - 1);
            assert(lead_of(s, t - 1) == lead_of(s, t));
        }
    }
    lemma_run_covers(s, scan + k, t, c, m);
}

spec fn ws_leads1_of(am: AsciiMasks, ws_eff: u64) -> u64 {
    (am.s | am.wt | am.n) & ws_eff
}

/// Every whitespace character of a run in the batch has its start among the
/// starts, and no other byte has.
proof fn lemma_ws_leads(
    s: Seq<u8>,
    scan: int,
    am: AsciiMasks,
    cr: Carries,
    uni: UniClasses,
    m: bool,
    ws_eff: u64,
    nn64: bool,
    bad: u64,
    abs: u64,
    j: int,
)
    requires
        ws_given(s, scan, am, cr, uni, m, ws_eff, nn64, bad),
        forall|i: int| #[trigger] bit(abs, i) == smeared(abs_seed_of(am, cr, uni), am.n, i),
        0 <= j < 64,
    ensures
        ({
            let leads = (ws_leads1_of(am, ws_eff) | uni.w2 | uni.w3) & !abs;
            let x = scan + j;
            &&& bit(leads, j) == (bit(ws_eff, j) && boundary(s, x) && char_end(s, x) <= scan + 64)
            &&& bit(leads, j) ==> {
                &&& bit(ws_leads1_of(am, ws_eff), j) == (char_end(s, x) == x + 1)
                &&& bit(uni.w2, j) == (char_end(s, x) == x + 2)
                &&& bit(uni.w3, j) == (char_end(s, x) == x + 3)
            }
        }),
{
    let x = scan + j;
    lemma_eff(s, scan, am, cr, uni, m, j);
    assert(ascii_at(am, s, x, j));
    assert(uni_at(uni, s, scan, j, m, false));
    lemma_lead_of(s, x);
    lemma_char_len(s, x);
    lemma_lengths(s, scan, am, cr, uni, m, j);
    lemma_abs(s, scan, am, cr, uni, m, j);
    assert(!(bit(uni.lead4, j) && bit(uni.ws, j)));
}

spec fn edge_of(am: AsciiMasks, uni: UniClasses, ws_eff: u64) -> u64 {
    (ws_leads1_of(am, ws_eff) & (1u64 << 63u64)) | (uni.w2 & (1u64 << 62u64)) | (uni.w3 & (1u64
        << 61u64))
}

spec fn split_of(am: AsciiMasks, uni: UniClasses, ws_eff: u64, nn64: bool) -> u64 {
    let l1 = ws_leads1_of(am, ws_eff);
    let nonws = !ws_eff;
    let inner = (l1 & (nonws >> 1u64)) | (uni.w2 & (nonws >> 2u64)) | (uni.w3 & (nonws >> 3u64));
    if nn64 {
        inner | edge_of(am, uni, ws_eff)
    } else {
        inner
    }
}

spec fn ws_leads_of(am: AsciiMasks, uni: UniClasses, ws_eff: u64, abs: u64) -> u64 {
    (ws_leads1_of(am, ws_eff) | uni.w2 | uni.w3) & !abs
}

spec fn ws0_of(
    am: AsciiMasks,
    cr: Carries,
    uni: UniClasses,
    ws_eff: u64,
    abs: u64,
    nn64: bool,
) -> u64 {
    let p_ws = (ws_eff << 1u64) | cr.pws;
    ws_leads_of(am, uni, ws_eff, abs) & (!p_ws | split_of(am, uni, ws_eff, nn64))
}

/// The test whether something else follows a whitespace character.
proof fn lemma_split(
    s: Seq<u8>,
    scan: int,
    am: AsciiMasks,
    cr: Carries,
    uni: UniClasses,
    m: bool,
    ws_eff: u64,
    nn64: bool,
    bad: u64,
    abs: u64,
    k: int,
)
    requires
        ws_given(s, scan, am, cr, uni, m, ws_eff, nn64, bad),
        forall|i: int| #[trigger] bit(abs, i) == smeared(abs_seed_of(am, cr, uni), am.n, i),
        0 <= k < 64,
        bit(ws_leads_of(am, uni, ws_eff, abs), k),
    ensures
        ({
            let j = char_end(s, scan + k) - scan;
            &&& k < j <= 64
            &&& j < 64 ==> bit(split_of(am, uni, ws_eff, nn64), k) == !bit(ws_eff, j)
            &&& j == 64 ==> bit(split_of(am, uni, ws_eff, nn64), k) == nn64
        }),
{
    let l1 = ws_leads1_of(am, ws_eff);
    let nonws = !ws_eff;
    lemma_ws_leads(s, scan, am, cr, uni, m, ws_eff, nn64, bad, abs, k);
    lemma_char_len(s, scan + k);
    assert(bit(nonws >> 1u64, k) == bit(nonws, k + 1));
    assert(bit(nonws >> 2u64, k) == bit(nonws, k + 2));
    assert(bit(nonws >> 3u64, k) == bit(nonws, k + 3));
    assert(bit(1u64 << 63u64, k) == (k == 63));
    assert(bit(1u64 << 62u64, k) == (k == 62));
    assert(bit(1u64 << 61u64, k) == (k == 61));
}

/// Whitespace starts tokens where the masks say so, seen from a start.
#[verifier::spinoff_prover]
#[verifier::rlimit(60)]
proof fn lemma_ws_start(
    s: Seq<u8>,
    scan: int,
    am: AsciiMasks,
    cr: Carries,
    uni: UniClasses,
    rules: Cl100kRules,
    ws_eff: u64,
    nn64: bool,
    bad: u64,
    abs: u64,
    runs: u64,
    b_ws: u64,
    last_bad: u64,
    r: int,
    k: int,
)
    requires
        ws_given(s, scan, am, cr, uni, rules.marks_join, ws_eff, nn64, bad),
        forall|i: int| #[trigger] bit(abs, i) == smeared(abs_seed_of(am, cr, uni), am.n, i),
        forall|i: int| #[trigger]
            bit(runs, i) == (bit(am.n, i) && bit(ws_eff, i) && !bit(bad, i)),
        0 <= k < 64,
        run_fixed(
            am.n,
            ws_eff,
            ws_leads_of(am, uni, ws_eff, abs),
            runs,
            ws0_of(am, cr, uni, ws_eff, abs, nn64),
            b_ws,
            k,
        ),
        forall|i: int| #[trigger] bit(bad, i) ==> bit(last_bad, i),
        asked(s, scan, rules, last_bad, r, k),
    ensures
        bit(b_ws, k) == (boundary(s, scan + k) && class_at(s, scan + k, rules.marks_join)
            == CharClass::Whitespace && family_base(s, scan + k, rules)),
{
    let m = rules.marks_join;
    let x = scan + k;
    let seed = abs_seed_of(am, cr, uni);
    let leads = ws_leads_of(am, uni, ws_eff, abs);
    let b0 = ws0_of(am, cr, uni, ws_eff, abs, nn64);
    assert(!bit(last_bad, k));
    assert(!bit(bad, k));
    lemma_eff(s, scan, am, cr, uni, m, k);
    lemma_lead_of(s, x);
    lemma_ws_leads(s, scan, am, cr, uni, m, ws_eff, nn64, bad, abs, k);
    lemma_abs_known(s, scan, am, cr, uni, rules, last_bad, r, k, k);
    if !bit(ws_eff, k) {
        assert(!bit(leads, k));
        assert(!bit(b0, k));
    } else {
        lemma_run_bounds(ws_eff, k);
        let a = run_lo(ws_eff, k);
        let e = run_hi(ws_eff, k);
        if k > 0 {
            lemma_eff(s, scan, am, cr, uni, m, k - 1);
            assert(scan + (k - 1) == x - 1);
            lemma_abs(s, scan, am, cr, uni, m, k - 1);
        }
        if !boundary(s, x) {
            lemma_inside_ws_char(s, scan, am, cr, uni, m, ws_eff, nn64, bad, k);
            assert(!bit(leads, k));
            assert(k != a);
            assert(!bit(am.n, k - 1)) by {
                if newline(s[x - 1]) {
                    assert(whole_char(s, x - 1));
                }
            }
            assert(!bit(b_ws, k));
        } else {
            lemma_ws_run(s, scan, am, cr, uni, m, ws_eff, nn64, bad, k);
            let w = scan + e;
            lemma_prev_of_end(s, x);
            lemma_char_boundary(s, x);
            let n = char_end(s, x);
            assert(n <= w) by {
                if n > w {
                    assert(continuation(s[w]));
                }
            }
            assert(bit(leads, k));
            lemma_split(s, scan, am, cr, uni, m, ws_eff, nn64, bad, abs, k);
            assert(bit(split_of(am, uni, ws_eff, nn64), k) == (n == w)) by {
                let j = n - scan;
                if j < e {
                    assert(bit(ws_eff, j));
                }
            }
            // Is the character before of the same run?
            assert((k == a) == (x == 0 || prev_class(s, x, m) != CharClass::Whitespace || absorbed(
                s,
                prev_lead(s, x),
                m,
            ))) by {
                if k > 0 {
                    lemma_abs_known(s, scan, am, cr, uni, rules, last_bad, r, k, k - 1);
                    lemma_prev_char(s, x);
                    let v = prev_lead(s, x);
                    if v < x - 1 {
                        assert(continuation(s[x - 1]));
                        assert(!newline(s[v])) by {
                            if newline(s[v]) {
                                assert(whole_char(s, v));
                            }
                        }
                    }
                    assert(bit(ws_eff, k - 1) == (k != a));
                }
            }
            assert(none_in(am.n, k, e) == no_newline(s, x, w)) by {
                assert forall|j: int| k <= j < e implies #[trigger] bit(am.n, j) == newline(
                    s[scan + j],
                ) by {
                    lemma_eff(s, scan, am, cr, uni, m, j);
                }
                if none_in(am.n, k, e) {
                    assert forall|y: int| x <= y < w implies !newline(#[trigger] s[y]) by {
                        assert(!bit(am.n, y - scan));
                        assert(scan + (y - scan) == y);
                    }
                }
                if no_newline(s, x, w) {
                    assert forall|j: int| k <= j < e implies !#[trigger] bit(am.n, j) by {
                        assert(!newline(s[scan + j]));
                    }
                }
            }
            assert(none_in(leads, k + 1, e) == (n == w)) by {
                if n < w {
                    let j = n - scan;
                    assert(bit(ws_eff, j));
                    lemma_ws_leads(s, scan, am, cr, uni, m, ws_eff, nn64, bad, abs, j);
                    lemma_prev_of_end(s, n);
                    lemma_char_boundary(s, n);
                    if char_end(s, n) > w {
                        assert(continuation(s[w]));
                    }
                    assert(bit(leads, j));
                } else {
                    assert forall|j: int| k + 1 <= j < e implies !#[trigger] bit(leads, j) by {
                        lemma_ws_leads(s, scan, am, cr, uni, m, ws_eff, nn64, bad, abs, j);
                        assert(continuation(s[scan + j]));
                    }
                }
            }
            let p_ws = (ws_eff << 1u64) | cr.pws;
            assert(bit(p_ws, k) == (k != a)) by {
                if k > 0 {
                    assert(bit(ws_eff << 1u64, k) == bit(ws_eff, k - 1));
                } else {
                    assert(!bit(ws_eff << 1u64, 0));
                    assert(prev_class(s, x, m) == class_at(s, lead_of(s, scan - 1), m));
                }
            }
            assert(bit(b0, k) == (k == a || n == w));
            if run_holds(ws_eff, runs, k) {
                if k > a {
                    assert(bit(am.n, k - 1) == newline(s[x - 1]));
                }
            } else {
                assert(!newline(s[x])) by {
                    if newline(s[x]) {
                        assert(bit(runs, k));
                    }
                }
                if k > a && newline(s[x - 1]) {
                    assert(!bit(last_bad, k - 1));
                    assert(bit(ws_eff, k - 1));
                    assert(bit(runs, k - 1));
                    assert(false);
                }
            }
        }
    }
}

/// Inside a whitespace character, the run goes on.
proof fn lemma_inside_ws_char(
    s: Seq<u8>,
    scan: int,
    am: AsciiMasks,
    cr: Carries,
    uni: UniClasses,
    m: bool,
    ws_eff: u64,
    nn64: bool,
    bad: u64,
    k: int,
)
    requires
        ws_given(s, scan, am, cr, uni, m, ws_eff, nn64, bad),
        0 <= k < 64,
        bit(ws_eff, k),
        !bit(bad, k),
        !boundary(s, scan + k),
    ensures
        k > 0,
        bit(ws_eff, k - 1),
        run_lo(ws_eff, k) < k,
{
    let x = scan + k;
    lemma_eff(s, scan, am, cr, uni, m, k);
    assert(uni_at(uni, s, scan, k, m, false));
    lemma_lead_of(s, x);
    let y = lead_of(s, x);
    assert(y < x);
    assert(!bit(uni.resid, k));
    assert(y >= scan);
    lemma_eff(s, scan, am, cr, uni, m, k - 1);
    assert(scan + (k - 1) == x - 1);
    assert(lead_of(s, x - 1) == y);
    lemma_abs(s, scan, am, cr, uni, m, k - 1);
    lemma_char_boundary(s, y);
    assert(!newline(s[x - 1])) by {
        if x - 1 > y {
            assert(continuation(s[x - 1]));
        } else if newline(s[y]) {
            assert(whole_char(s, y));
        }
    }
    lemma_run_bounds(ws_eff, k);
}

// The algebra.

/// A batch of plain text: ASCII in it and around it, no whitespace at its end,
/// no apostrophe near its end, and no digits across its start.
pub open spec fn plain_batch(s: Seq<u8>, scan: int) -> bool {
    &&& scan + 70 <= s.len()
    &&& forall|j: int| scan - 1 <= j <= scan + 64 && 0 <= j ==> #[trigger] s[j] < 0x80
    &&& !ascii_ws(s[scan + 63])
    &&& forall|j: int| scan + 61 <= j < scan + 64 ==> #[trigger] s[j] != 0x27
    &&& !(scan > 0 && ascii_digit(s[scan - 1]) && ascii_digit(s[scan]))
}

/// The byte at `x` belongs to a whitespace character.
pub open spec fn ws_byte(s: Seq<u8>, x: int, m: bool) -> bool {
    class_at(s, lead_of(s, x), m) == CharClass::Whitespace
}

/// Position `j` belongs to a number beyond ASCII, or to whitespace beyond ASCII
/// that lies across an edge of the batch or takes four bytes.
pub open spec fn open_char(s: Seq<u8>, scan: int, j: int, m: bool) -> bool {
    ||| open_ws(s, scan, j, m)
    ||| 0 <= j < 64 && s[scan + j] >= 0x80 && class_at(s, lead_of(s, scan + j), m)
        == CharClass::Number
}

/// Position `k` or one next to it belongs to such a character.
pub open spec fn near_open(s: Seq<u8>, scan: int, k: int, m: bool) -> bool {
    exists|j: int| k - 1 <= j <= k + 1 && #[trigger] open_char(s, scan, j, m)
}

/// Whitespace goes from position `k` to the end of the batch, and on behind it
/// as far as is known.
pub open spec fn ws_to_end(s: Seq<u8>, scan: int, k: int, m: bool) -> bool {
    &&& forall|j: int| k <= j < 64 ==> #[trigger] ws_byte(s, scan + j, m)
    &&& class_at(s, scan + 64, m) == CharClass::Whitespace || near_open(s, scan, 63, m)
}

/// Position `k` is a digit of a run that comes from before the batch, or from
/// a position that is left open.
pub open spec fn carried_digit(s: Seq<u8>, scan: int, k: int, m: bool) -> bool {
    exists|i: int|
        {
            &&& 0 <= i <= k
            &&& #[trigger] digits_through(s, scan + i, scan + k)
            &&& if i == 0 {
                scan > 0 && class_at(s, lead_of(s, scan - 1), m) == CharClass::Number
            } else {
                near_open(s, scan, i - 1, m) || ws_to_end(s, scan, i - 1, m)
            }
        }
}

/// Every byte from `a` through `b` is a digit.
pub open spec fn digits_through(s: Seq<u8>, a: int, b: int) -> bool {
    forall|x: int| a <= x <= b ==> ascii_digit(#[trigger] s[x])
}

/// A whitespace character of four bytes lies in the batch.
pub open spec fn wide_ws(s: Seq<u8>, scan: int, m: bool) -> bool {
    exists|j: int|
        0 <= j < 64 && #[trigger] ws_byte(s, scan + j, m) && s[scan + j] >= 0x80 && char_end(
            s,
            scan + j,
        ) == scan + j + 4
}

/// Where the masks may leave position `k` open before contractions are seen to.
pub open spec fn algebra_open(s: Seq<u8>, scan: int, k: int, rules: Cl100kRules) -> bool {
    let m = rules.marks_join;
    ||| near_open(s, scan, k, m)
    ||| ws_to_end(s, scan, k, m)
    ||| rules.digits3 && carried_digit(s, scan, k, m)
    ||| wide_ws(s, scan, m)
}

/// An apostrophe at position `i` may leave position `k` open: one among the
/// last three all that follows, one before a character beyond ASCII the two
/// positions behind it.
pub open spec fn open_apostrophe(s: Seq<u8>, scan: int, i: int, k: int) -> bool {
    &&& 0 <= i < 64
    &&& s[scan + i] == 0x27
    &&& i <= k
    &&& i >= 61 || (s[scan + i + 1] >= 0x80 && k < i + 3)
}

/// Where the masks may leave position `k` open.
pub open spec fn family_open(s: Seq<u8>, scan: int, k: int, rules: Cl100kRules) -> bool {
    ||| scan + 70 > s.len()
    ||| algebra_open(s, scan, k, rules)
    ||| exists|i: int| #[trigger] open_apostrophe(s, scan, i, k)
}

/// Whether position `k` is in the set.
fn has_bit(m: u64, k: u64) -> (r: bool)
    requires
        k < 64,
    ensures
        r == bit(m, k as int),
{
    (m >> k) & 1 == 1
}

/// Every position of `a` is one of `b`.
spec fn within(a: u64, b: u64) -> bool {
    forall|i: int| #[trigger] bit(a, i) ==> bit(b, i)
}

/// What the algebra makes of a batch: the starts before contractions, and the
/// positions left open.
spec fn algebra_ok(
    s: Seq<u8>,
    scan: int,
    am: AsciiMasks,
    rules: Cl100kRules,
    b0: u64,
    bad0: u64,
) -> bool {
    let m = rules.marks_join;
    &&& forall|last_bad: u64, r: int, k: int|
        within(bad0, last_bad) && #[trigger] asked(s, scan, rules, last_bad, r, k) ==> bit(b0, k)
            == (boundary(s, scan + k) && family_base(s, scan + k, rules))
    &&& forall|i: int| #[trigger]
        bit(am.ap, i) && !bit(bad0, i) ==> bit(b0, i) == family_base(s, scan + i, rules)
    &&& !bit(bad0, 63) && boundary(s, scan + 64) ==> !(class_at(s, scan + 64, m)
        == CharClass::Whitespace && prev_class(s, scan + 64, m) == CharClass::Whitespace)
    &&& forall|k: int| #[trigger] bit(bad0, k) ==> algebra_open(s, scan, k, rules)
}

proof fn lemma_all_open(
    s: Seq<u8>,
    scan: int,
    am: AsciiMasks,
    rules: Cl100kRules,
)
    requires
        forall|k: int| 0 <= k < 64 ==> #[trigger] algebra_open(s, scan, k, rules),
    ensures
        algebra_ok(s, scan, am, rules, 0, 0xffff_ffff_ffff_ffff),
{
    assert forall|last_bad: u64, r: int, k: int|
        within(0xffff_ffff_ffff_ffff, last_bad) && #[trigger] asked(
            s,
            scan,
            rules,
            last_bad,
            r,
            k,
        ) implies bit(0, k) == (boundary(s, scan + k) && family_base(s, scan + k, rules)) by {
        assert(bit(0xffff_ffff_ffff_ffff, k));
        assert(!bit(last_bad, k));
    }
}

/// The starts of a batch before contractions, and the positions left open.
#[verifier::spinoff_prover]
#[verifier::rlimit(80)]
fn family_algebra(
    bytes: &[u8],
    scan: usize,
    am: AsciiMasks,
    cr: Carries,
    uni: UniClasses,
    rules: Cl100kRules,
) -> (res: (u64, u64))
    requires
        scan + 70 <= bytes@.len(),
        well_encoded(bytes@) ==> given(bytes@, scan as int, am, cr, uni, rules.marks_join),
        ascii_ok(am, bytes@, scan as int),
    ensures
        well_encoded(bytes@) ==> algebra_ok(bytes@, scan as int, am, rules, res.0, res.1),
{
    let ghost s = bytes@;
    let len: usize = bytes.len();
    let m: bool = rules.marks_join;
    let wide: u64 = uni.lead4 & uni.ws;
    if wide != 0 {
        // No whitespace takes four bytes; if some did, its batch is left open.
        proof {
            if well_encoded(s) {
                lemma_wide_open(s, scan as int, am, cr, uni, m);
                lemma_all_open(s, scan as int, am, rules);
            }
        }
        return (0, u64::MAX);
    }
    let contm: u64 = uni.cont;
    let resid: u64 = uni.resid;
    let lb: u64 = am.l | uni.l;
    let sb: u64 = am.s;
    let wtb: u64 = am.wt | uni.ws;
    let ob: u64 = !(am.l | am.d | am.s | am.wt | am.n | am.hi) | uni.o;
    let ws_all: u64 = sb | wtb | am.n;

    // Letters. The character two back is tested at each character's start, by
    // moving the test of the byte before over the character before.
    let len1: u64 = !(contm | uni.lead2 | uni.lead3 | uni.lead4);
    let c_test: u64 = ((ob | sb) << 1u64) | cr.po | cr.ps;
    let b2back: u64 = ((c_test & len1) << 1u64) | ((c_test & uni.lead2) << 2u64) | ((c_test
        & uni.lead3) << 3u64) | ((c_test & uni.lead4) << 4u64) | cr.c2_os | cr.b2b_in;
    let p_l: u64 = (lb << 1u64) | cr.pl;
    let p_s: u64 = (sb << 1u64) | cr.ps;
    let p_wt: u64 = (wtb << 1u64) | cr.pwt;
    let p_o: u64 = (ob << 1u64) | cr.po;
    let absorb: u64 = p_o & !b2back;
    let b_letters: u64 = lb & !contm & !p_l & !p_s & !p_wt & !absorb;

    let b_digits: u64 = if rules.digits3 {
        digit_run_splits3(am.d)
    } else {
        am.d
    };
    let b_punct: u64 = ob & !contm & !p_o & !p_s;

    // Newlines behind punctuation belong to it.
    let abs_seed: u64 = am.n & ((ob << 1u64) | cr.po);
    let abs_n: u64 = smear_up(abs_seed, am.n);
    let ws_eff: u64 = ws_all & !abs_n;
    let up: u64 = resid << 1u64;
    let down: u64 = resid >> 1u64;
    let mut bad: u64 = resid | up | down;

    // Is the character behind the batch something else than whitespace?
    let nb64: u8 = bytes[scan + 64];
    let nn64: bool = if nb64 < 0x80 {
        !is_ascii_ws(nb64)
    } else {
        !has_bit(bad, 63) && nn_at_full(bytes, scan + 64, m)
    };
    let ghost bad1 = bad;
    if has_bit(abs_n, 63) && !nn64 {
        let last: u64 = single(63);
        bad = bad | last;
    }
    // A whitespace run that goes on behind the batch is left open.
    let nonws: u64 = !ws_eff;
    let ghost mut top: int = 63;
    if has_bit(ws_eff, 63) && !nn64 {
        if nonws == 0 {
            proof {
                if well_encoded(s) {
                    assert forall|j: int| 0 <= j < 64 implies #[trigger] bit(
                        ws_of(am, uni),
                        j,
                    ) by {
                        assert(!bit(nonws, j));
                    }
                    assert forall|k: int| 0 <= k < 64 implies #[trigger] algebra_open(
                        s,
                        scan as int,
                        k,
                        rules,
                    ) by {
                        lemma_tail_open(s, scan as int, am, cr, uni, m, bad1, nn64, k);
                    }
                    lemma_all_open(s, scan as int, am, rules);
                }
            }
            return (0, u64::MAX);
        }
        let h: u64 = highest(nonws);
        proof {
            assert(bit(nonws, h as int));
            assert(h < 63);
            top = h as int;
        }
        let tail: u64 = from_bit(h + 1);
        bad = bad | tail;
        proof {
            assert forall|j: int| bit(ws_eff, j) && run_hi(ws_eff, j) == 64 implies #[trigger] bit(
                bad,
                j,
            ) by {
                lemma_run_bounds(ws_eff, j);
                if j < h {
                    assert(bit(ws_eff, h as int));
                }
            }
        }
    }
    let ghost bad2 = bad;
    proof {
        assert forall|j: int| #[trigger] bit(bad2, j) implies bit(bad1, j) || (!nn64 && all_in(
            ws_of(am, uni),
            j,
            63,
        )) by {
            if !bit(bad1, j) {
                if !bit(ws_eff, 63) {
                    assert(j == 63 && bit(abs_n, 63));
                    lemma_smeared_step(abs_seed, am.n, 63);
                } else {
                    assert(j > top || j == 63);
                    assert forall|x: int| j <= x <= 63 implies #[trigger] bit(
                        ws_of(am, uni),
                        x,
                    ) by {
                        assert(!bit(nonws, x) || x == 63);
                    }
                }
            }
        }
    }
    // Digits whose group started elsewhere are left open.
    if rules.digits3 {
        let before: u64 = bad << 1u64;
        let seed: u64 = (am.d & before) | (am.d & cr.pd);
        let more: u64 = smear_up(seed, am.d);
        bad = bad | more;
        proof {
            assert(forall|j: int| smeared(digit_seed(am, cr, bad2), am.d, j) ==> #[trigger] bit(bad, j));
        }
    }
    // Where whitespace runs start and split.
    let leads1: u64 = (am.s | am.wt | am.n) & ws_eff;
    let ws_leads: u64 = (leads1 | uni.w2 | uni.w3) & !abs_n;
    let p_ws: u64 = (ws_eff << 1u64) | cr.pws;
    let inner: u64 = (leads1 & (nonws >> 1u64)) | (uni.w2 & (nonws >> 2u64)) | (uni.w3 & (nonws
        >> 3u64));
    let split_ok: u64 = if nn64 {
        inner | ((leads1 & (1u64 << 63u64)) | (uni.w2 & (1u64 << 62u64)) | (uni.w3 & (1u64
            << 61u64)))
    } else {
        inner
    };
    let ws0: u64 = ws_leads & (!p_ws | split_ok);
    let runs: u64 = am.n & ws_eff & !bad;
    let b_ws: u64 = fix_newline_runs(am.n, ws_eff, ws_leads, runs, ws0);
    let b0: u64 = b_letters | b_digits | b_punct | b_ws;
    proof {
        if well_encoded(s) {
            let sc = scan as int;
            assert(ws_given(s, sc, am, cr, uni, m, ws_eff, nn64, bad)) by {
                assert forall|j: int| !(#[trigger] bit(uni.lead4, j) && bit(uni.ws, j)) by {
                    assert(!bit(wide, j));
                }
                if nn64 && bit(ws_of(am, uni), 63) {
                    lemma_edge_char(s, sc, am, cr, uni, m);
                }
            }
            assert forall|last_bad: u64, r: int, k: int|
                within(bad, last_bad) && #[trigger] asked(s, sc, rules, last_bad, r, k) implies bit(
                b0,
                k,
            ) == (boundary(s, scan + k) && family_base(s, scan + k, rules)) by {
                lemma_ws_start(
                    s,
                    sc,
                    am,
                    cr,
                    uni,
                    rules,
                    ws_eff,
                    nn64,
                    bad,
                    abs_n,
                    runs,
                    b_ws,
                    last_bad,
                    r,
                    k,
                );
                lemma_word_starts(s, sc, am, cr, uni, rules, k);
                assert(!bit(last_bad, k));
                assert(!bit(bad, k));
                lemma_number_bit(s, sc, am, cr, uni, rules, bad2, bad, b_digits, k);
            }
            assert forall|i: int| #[trigger] bit(am.ap, i) && !bit(bad, i) implies bit(b0, i)
                == family_base(s, scan + i, rules) by {
                lemma_word_starts(s, sc, am, cr, uni, rules, i);
                lemma_eff(s, sc, am, cr, uni, m, i);
                assert(ascii_at(am, s, scan + i, i));
                lemma_lead_of(s, scan + i);
                lemma_ws_leads(s, sc, am, cr, uni, m, ws_eff, nn64, bad, abs_n, i);
                assert(run_fixed(am.n, ws_eff, ws_leads, runs, ws0, b_ws, i));
                assert(!bit(ws_eff, i));
                assert(!bit(ws_leads, i));
                assert(!bit(am.d, i));
            }
            if !bit(bad, 63) && boundary(s, scan + 64) {
                lemma_eff(s, sc, am, cr, uni, m, 63);
                assert(prev_lead(s, scan + 64) == lead_of(s, scan + 63));
                if class_at(s, scan + 64, m) == CharClass::Whitespace && prev_class(
                    s,
                    scan + 64,
                    m,
                ) == CharClass::Whitespace {
                    assert(!nn64);
                    assert(bit(ws_of(am, uni), 63));
                    if bit(ws_eff, 63) {
                        lemma_run_bounds(ws_eff, 63);
                    } else {
                        assert(bit(abs_n, 63));
                    }
                    assert(bit(bad, 63));
                }
            }
            assert forall|k: int| #[trigger] bit(bad, k) implies algebra_open(s, sc, k, rules) by {
                if bit(bad2, k) {
                    lemma_open_before(s, sc, am, cr, uni, m, bad1, bad2, nn64, k);
                } else {
                    let seed = digit_seed(am, cr, bad2);
                    let i = choose|i: int|
                        i <= k && #[trigger] bit(seed, i) && all_in(am.d, i + 1, k);
                    assert(bit(am.d, i));
                    assert forall|x: int| scan + i <= x <= scan + k implies ascii_digit(
                        #[trigger] s[x],
                    ) by {
                        let j = x - scan;
                        assert(bit(am.d, j));
                        assert(ascii_at(am, s, scan + j, j));
                    }
                    assert(digits_through(s, scan + i, scan + k));
                    if !bit(cr.pd, i) {
                        assert(bit(bad2 << 1u64, i));
                        assert(bit(bad2, i - 1));
                        lemma_open_before(s, sc, am, cr, uni, m, bad1, bad2, nn64, i - 1);
                    }
                    assert(carried_digit(s, sc, k, m));
                }
            }
        }
    }
    (b0, bad)
}

/// A whitespace character of four bytes leaves its batch open.
proof fn lemma_wide_open(
    s: Seq<u8>,
    scan: int,
    am: AsciiMasks,
    cr: Carries,
    uni: UniClasses,
    m: bool,
)
    requires
        given(s, scan, am, cr, uni, m),
        uni.lead4 & uni.ws != 0,
    ensures
        wide_ws(s, scan, m),
{
    let w = uni.lead4 & uni.ws;
    vstd::std_specs::bits::axiom_u64_trailing_zeros(w);
    let t = vstd::std_specs::bits::u64_trailing_zeros(w) as int;
    assert(bit(w, t));
    assert(uni_at(uni, s, scan, t, m, false));
    assert(ws_byte(s, scan + t, m));
}

/// The positions at and next to the characters that are left to the scan.
proof fn lemma_resid_open(
    s: Seq<u8>,
    scan: int,
    am: AsciiMasks,
    cr: Carries,
    uni: UniClasses,
    m: bool,
    k: int,
)
    requires
        given(s, scan, am, cr, uni, m),
        bit(uni.resid | (uni.resid << 1u64) | (uni.resid >> 1u64), k),
    ensures
        near_open(s, scan, k, m),
{
    let j = if bit(uni.resid, k) {
        k
    } else if bit(uni.resid << 1u64, k) {
        k - 1
    } else {
        k + 1
    };
    assert(bit(uni.resid, j));
    assert(uni_at(uni, s, scan, j, m, false));
    assert(open_char(s, scan, j, m));
}

/// Whitespace up to the end of the batch, with no other character known behind
/// it.
proof fn lemma_tail_open(
    s: Seq<u8>,
    scan: int,
    am: AsciiMasks,
    cr: Carries,
    uni: UniClasses,
    m: bool,
    bad1: u64,
    nn64: bool,
    k: int,
)
    requires
        given(s, scan, am, cr, uni, m),
        bad1 == uni.resid | (uni.resid << 1u64) | (uni.resid >> 1u64),
        0 <= k < 64,
        all_in(ws_of(am, uni), k, 63),
        !nn64,
        !nn64 ==> class_at(s, scan + 64, m) == CharClass::Whitespace || bit(bad1, 63),
    ensures
        ws_to_end(s, scan, k, m),
{
    assert forall|j: int| k <= j < 64 implies #[trigger] ws_byte(s, scan + j, m) by {
        assert(bit(ws_of(am, uni), j));
        lemma_eff(s, scan, am, cr, uni, m, j);
    }
    if bit(bad1, 63) {
        lemma_resid_open(s, scan, am, cr, uni, m, 63);
    }
}

/// What is left open before digits are seen to.
proof fn lemma_open_before(
    s: Seq<u8>,
    scan: int,
    am: AsciiMasks,
    cr: Carries,
    uni: UniClasses,
    m: bool,
    bad1: u64,
    bad2: u64,
    nn64: bool,
    k: int,
)
    requires
        given(s, scan, am, cr, uni, m),
        bad1 == uni.resid | (uni.resid << 1u64) | (uni.resid >> 1u64),
        bit(bad2, k),
        bit(bad1, k) || (!nn64 && all_in(ws_of(am, uni), k, 63)),
        !nn64 ==> class_at(s, scan + 64, m) == CharClass::Whitespace || bit(bad1, 63),
    ensures
        near_open(s, scan, k, m) || ws_to_end(s, scan, k, m),
{
    if bit(bad1, k) {
        lemma_resid_open(s, scan, am, cr, uni, m, k);
    } else {
        lemma_tail_open(s, scan, am, cr, uni, m, bad1, nn64, k);
    }
}

/// Nothing of a plain batch is left open.
pub proof fn lemma_plain_closed(s: Seq<u8>, scan: int, k: int, rules: Cl100kRules)
    requires
        well_encoded(s),
        0 <= scan,
        plain_batch(s, scan),
        0 <= k < 64,
    ensures
        !family_open(s, scan, k, rules),
{
    let m = rules.marks_join;
    assert forall|j: int| !#[trigger] open_char(s, scan, j, m) by {
        if 0 <= j < 64 {
            assert(s[scan + j] < 0x80);
        }
    }
    assert(s[scan + 63] < 0x80);
    lemma_lead_of(s, scan + 63);
    assert(!ws_byte(s, scan + 63, m));
    assert(forall|i: int| i <= 63 ==> !ws_to_end(s, scan, i, m)) by {
        assert forall|i: int| i <= 63 implies !#[trigger] ws_to_end(s, scan, i, m) by {
            assert(!ws_byte(s, scan + 63, m));
        }
    }
    if carried_digit(s, scan, k, m) {
        let i = choose|i: int|
            {
                &&& 0 <= i <= k
                &&& #[trigger] digits_through(s, scan + i, scan + k)
                &&& if i == 0 {
                    scan > 0 && class_at(s, lead_of(s, scan - 1), m) == CharClass::Number
                } else {
                    near_open(s, scan, i - 1, m) || ws_to_end(s, scan, i - 1, m)
                }
            };
        assert(i == 0);
        assert(ascii_digit(s[scan]));
        assert(s[scan - 1] < 0x80);
        lemma_lead_of(s, scan - 1);
    }
    if wide_ws(s, scan, m) {
        let j = choose|j: int|
            0 <= j < 64 && #[trigger] ws_byte(s, scan + j, m) && s[scan + j] >= 0x80 && char_end(
                s,
                scan + j,
            ) == scan + j + 4;
        assert(s[scan + j] < 0x80);
    }
    assert forall|i: int| !#[trigger] open_apostrophe(s, scan, i, k) by {
        if 0 <= i < 64 {
            assert(s[scan + i + 1] < 0x80);
            assert(i >= 61 ==> s[scan + i] != 0x27);
        }
    }
}

/// Behind whitespace at the end of a batch, a character starts, unless that
/// whitespace was left open.
proof fn lemma_edge_char(
    s: Seq<u8>,
    scan: int,
    am: AsciiMasks,
    cr: Carries,
    uni: UniClasses,
    m: bool,
)
    requires
        given(s, scan, am, cr, uni, m),
        bit(ws_of(am, uni), 63),
    ensures
        bit(uni.resid, 63) || boundary(s, scan + 64),
{
    let x = scan + 63;
    lemma_eff(s, scan, am, cr, uni, m, 63);
    assert(uni_at(uni, s, scan, 63, m, false));
    lemma_lead_of(s, x);
    if continuation(s[scan + 64]) {
        let e = char_end(s, lead_of(s, x));
        if e == scan + 64 {
            assert(boundary(s, e));
        }
    }
}

/// Numbers start tokens where the masks say so.
proof fn lemma_number_bit(
    s: Seq<u8>,
    scan: int,
    am: AsciiMasks,
    cr: Carries,
    uni: UniClasses,
    rules: Cl100kRules,
    bad2: u64,
    bad: u64,
    b_digits: u64,
    k: int,
)
    requires
        given(s, scan, am, cr, uni, rules.marks_join),
        0 <= k < 64,
        forall|j: int| #[trigger] bit(uni.resid, j) ==> bit(bad2, j),
        forall|j: int| #[trigger] bit(bad2, j) ==> bit(bad, j),
        rules.digits3 ==> forall|j: int|
            smeared(digit_seed(am, cr, bad2), am.d, j) ==> #[trigger] bit(bad, j),
        forall|j: int| #[trigger]
            bit(b_digits, j) == (bit(am.d, j) && (rules.digits3 ==> back(am.d, j) % 3 == 0)),
        !bit(bad, k),
    ensures
        bit(b_digits, k) == (boundary(s, scan + k) && class_at(s, scan + k, rules.marks_join)
            == CharClass::Number && family_base(s, scan + k, rules)),
{
    let m = rules.marks_join;
    let x = scan + k;
    lemma_eff(s, scan, am, cr, uni, m, k);
    assert(uni_at(uni, s, scan, k, m, false));
    lemma_lead_of(s, x);
    assert(!bit(uni.resid, k)) by {
        if bit(uni.resid, k) {
            assert(bit(bad2, k));
        }
    }
    if bit(am.d, k) {
        if rules.digits3 {
            assert(!smeared(digit_seed(am, cr, bad2), am.d, k));
            lemma_digit_count(s, scan, am, cr, uni, m, bad2, k);
            if x == 0 {
                assert(num_index(s, 0, m) == 0);
            }
        }
    }
}

// Contractions.

/// Position `j` of the starts once the contractions at `done` are seen to: no
/// token starts behind their apostrophe, one starts behind their end.
spec fn fixed_at(s: Seq<u8>, scan: int, b0: u64, done: u64, b: u64, j: int) -> bool {
    bit(b, j) == {
        ||| bit(b0, j) && !(bit(done, j - 1) && contraction_nocase(s, scan + (j - 1)) is Some)
        ||| bit(done, j - 2) && contraction_nocase(s, scan + (j - 2)) == Some(scan + j)
        ||| bit(done, j - 3) && contraction_nocase(s, scan + (j - 3)) == Some(scan + j)
    }
}

/// What the treatment of contractions comes to: `done` were seen to, all that
/// are not left open among them.
spec fn fixed(
    s: Seq<u8>,
    scan: int,
    b0: u64,
    bad0: u64,
    ap: u64,
    done: u64,
    b: u64,
    bad: u64,
) -> bool {
    &&& forall|j: int| 0 <= j < 64 ==> #[trigger] fixed_at(s, scan, b0, done, b, j)
    &&& forall|i: int| #[trigger] bit(done, i) ==> bit(ap, i) && bit(b0, i) && !bit(bad0, i)
    &&& forall|i: int|
        bit(ap, i) && bit(b0, i) && !bit(bad0, i) ==> #[trigger] bit(done, i) || bit(bad, i)
    &&& within(bad0, bad)
    &&& forall|i: int| 61 <= i && #[trigger] bit(ap, i) && (bit(b0, i) || bit(bad0, i)) ==> bit(
        bad,
        63,
    )
    &&& forall|k: int| #[trigger]
        bit(bad, k) ==> bit(bad0, k) || exists|i: int| #[trigger] open_apostrophe(s, scan, i, k)
}

/// One more contraction.
proof fn lemma_fix_step(s: Seq<u8>, scan: int, b0: u64, done: u64, b: u64, i: int, b2: u64)
    requires
        0 <= scan,
        0 <= i < 61,
        scan + 64 <= s.len(),
        s[scan + i + 1] < 0x80,
        forall|j: int| 0 <= j < 64 ==> #[trigger] fixed_at(s, scan, b0, done, b, j),
        forall|j: int| #[trigger]
            bit(done, j) ==> j < i && s[scan + j] == 0x27 && s[scan + j + 1] < 0x80,
        s[scan + i] == 0x27,
        bit(b0, i),
        match contraction_nocase(s, scan + i) {
            Some(e) => forall|j: int| #[trigger]
                bit(b2, j) == (j != i + 1 && (bit(b, j) || scan + j == e)),
            None => b2 == b,
        },
    ensures
        forall|j: int|
            0 <= j < 64 ==> #[trigger] fixed_at(s, scan, b0, done | (1u64 << (i as u64)), b2, j),
{
    let d2 = done | (1u64 << (i as u64));
    assert(forall|j: int| #[trigger] bit(d2, j) == (bit(done, j) || j == i));
    assert forall|j: int| 0 <= j < 64 implies #[trigger] fixed_at(s, scan, b0, d2, b2, j) by {
        assert(fixed_at(s, scan, b0, done, b, j));
        // The byte behind an apostrophe of a contraction is a letter.
        assert(bit(done, j - 2) && contraction_nocase(s, scan + (j - 2)) == Some(scan + j) ==> s[
        scan + (j - 1)] != 0x27);
        assert(bit(done, j - 3) && contraction_nocase(s, scan + (j - 3)) == Some(scan + j) ==> s[
        scan + (j - 1)] != 0x27);
    }
}

/// Sees to the contractions of a batch. One that could reach past the batch
/// leaves the rest of it open, an apostrophe before a character beyond ASCII
/// the bytes around it.
fn contraction_fixup(bytes: &[u8], scan: usize, b0: u64, bad0: u64, am: AsciiMasks) -> (r: (
    u64,
    u64,
    Ghost<u64>,
))
    requires
        scan + 70 <= bytes@.len(),
        ascii_ok(am, bytes@, scan as int),
    ensures
        fixed(bytes@, scan as int, b0, bad0, am.ap, r.2@, r.0, r.1),
{
    let ghost s = bytes@;
    let len: usize = bytes.len();
    let cand0: u64 = am.ap & b0 & !bad0;
    let mut cand: u64 = cand0;
    let mut b: u64 = b0;
    let ghost mut done: u64 = 0;
    // An apostrophe among the last three positions that is left open leaves
    // the end open.
    let late: u64 = am.ap & bad0 & from_bit(61);
    let ghost mut first: int = 64;
    let mut bad: u64 = if late != 0 {
        let from: u64 = lowest(late);
        proof {
            assert(bit(late, from as int));
            assert(bit(am.ap, from as int));
            assert(ascii_at(am, s, scan + from, from as int));
            first = from as int;
        }
        bad0 | from_bit(from)
    } else {
        bad0
    };
    proof {
        assert forall|i: int| 61 <= i && bit(am.ap, i) && #[trigger] bit(bad0, i) implies bit(
            bad,
            63,
        ) by {
            assert(bit(late, i));
            lemma_some_bit(late, i);
        }
        assert forall|k: int| #[trigger] bit(bad, k) && !bit(bad0, k) implies exists|i: int| #[trigger]
            open_apostrophe(s, scan as int, i, k) by {
            assert(open_apostrophe(s, scan as int, first, k));
        }
    }
    let ghost mut lo: int = 0;
    while cand != 0
        invariant
            s == bytes@,
            scan + 70 <= len == s.len(),
            ascii_ok(am, s, scan as int),
            cand0 == am.ap & b0 & !bad0,
            0 <= lo <= 61,
            forall|i: int| #[trigger] bit(cand, i) == (bit(cand0, i) && lo <= i),
            forall|i: int| #[trigger] bit(done, i) ==> bit(cand0, i) && i < lo && s[scan + i + 1]
                < 0x80,
            forall|i: int| #[trigger] bit(cand0, i) && i < lo ==> bit(done, i) || bit(bad, i),
            forall|j: int| 0 <= j < 64 ==> #[trigger] fixed_at(s, scan as int, b0, done, b, j),
            within(bad0, bad),
            forall|i: int| 61 <= i && bit(am.ap, i) && #[trigger] bit(bad0, i) ==> bit(bad, 63),
            forall|k: int| #[trigger]
                bit(bad, k) ==> bit(bad0, k) || exists|i: int| #[trigger]
                    open_apostrophe(s, scan as int, i, k),
        decreases 64 - lo,
    {
        let i: u64 = lowest(cand);
        let ghost was = cand;
        let one: u64 = single(i);
        cand = cand & !one;
        proof {
            assert(bit(was, i as int));
            assert(bit(cand0, i as int));
            assert(bit(am.ap, i as int));
            assert(ascii_at(am, s, scan + i, i as int));
            assert forall|j: int| lo <= j < i implies !#[trigger] bit(cand0, j) by {
                assert(!bit(was, j));
            }
        }
        let ghost bad_was = bad;
        if i >= 61 {
            let rest: u64 = from_bit(i);
            bad = bad | rest;
            proof {
                assert forall|j: int| bit(am.ap, j) && bit(b0, j) && !bit(bad0, j) implies #[trigger] bit(
                    done,
                    j,
                ) || bit(bad, j) by {
                    assert(bit(cand0, j));
                    if j < i {
                        assert(j < lo);
                        assert(bit(done, j) || bit(bad_was, j));
                    }
                }
                assert forall|k: int| #[trigger] bit(bad, k) && !bit(bad_was, k) implies exists|x: int| #[trigger]
                    open_apostrophe(s, scan as int, x, k) by {
                    assert(open_apostrophe(s, scan as int, i as int, k));
                }
            }
            return (b, bad, Ghost(done));
        }
        let b1: u8 = bytes[scan + i as usize + 1];
        if b1 >= 0x80 {
            // U+017F folds to `s`: such an apostrophe is left open.
            let three: u64 = crate::pretokenize::classes::range_bits(i, i + 3);
            bad = bad | three;
            proof {
                assert forall|k: int| #[trigger] bit(bad, k) && !bit(bad_was, k) implies exists|x: int| #[trigger]
                    open_apostrophe(s, scan as int, x, k) by {
                    assert(open_apostrophe(s, scan as int, i as int, k));
                }
                assert(bit(three, i as int));
                assert forall|j: int| #[trigger] bit(cand0, j) && j < i + 1 implies bit(done, j)
                    || bit(bad, j) by {
                    if j < lo {
                        assert(bit(done, j) || bit(bad_was, j));
                    }
                }
                lo = i + 1;
            }
            continue;
        }
        let ghost b_was = b;
        let found = contraction_nocase_end(bytes, scan + i as usize);
        if let Some(e) = found {
            let at: u64 = (e - scan) as u64;
            let clear_bit: u64 = single(i + 1);
            let set_bit: u64 = single(at);
            b = (b & !clear_bit) | set_bit;
        }
        proof {
            assert forall|j: int| #[trigger] bit(done, j) implies j < i && s[scan + j] == 0x27
                && s[scan + j + 1] < 0x80 by {
                assert(bit(cand0, j));
                assert(bit(am.ap, j));
                assert(ascii_at(am, s, scan + j, j));
            }
            lemma_fix_step(s, scan as int, b0, done, b_was, i as int, b);
            let d2 = done | (1u64 << i);
            assert(forall|j: int| #[trigger] bit(d2, j) == (bit(done, j) || j == i));
            assert forall|j: int| #[trigger] bit(cand0, j) && j < i + 1 implies bit(d2, j) || bit(
                bad,
                j,
            ) by {
                if j < lo {
                    assert(bit(done, j) || bit(bad, j));
                }
            }
            done = d2;
            lo = i + 1;
        }
    }
    proof {
        assert forall|i: int| bit(am.ap, i) && bit(b0, i) && !bit(bad0, i) implies #[trigger] bit(
            done,
            i,
        ) || bit(bad, i) by {
            assert(bit(cand0, i));
            assert(!bit(cand, i));
        }
        assert forall|i: int|
            61 <= i && #[trigger] bit(am.ap, i) && (bit(b0, i) || bit(bad0, i)) implies bit(
            bad,
            63,
        ) by {
            assert(!bit(cand, i));
            assert(bit(cand0, i) == (bit(am.ap, i) && bit(b0, i) && !bit(bad0, i)));
        }
    }
    (b, bad, Ghost(done))
}

/// A true contraction that the masks did not see to lies before the position
/// that they are asked about.
proof fn lemma_unseen_contraction(
    t: PretokenizerType,
    s: Seq<u8>,
    scan: int,
    rules: Cl100kRules,
    bad: u64,
    r: int,
    k: int,
    i: int,
    e: int,
)
    requires
        well_encoded(s),
        family_scheme(t, rules),
        0 <= scan,
        scan + 64 <= s.len(),
        asked(s, scan, rules, bad, r, k),
        i < scan || (r >= 0 && i < scan + r),
        family_contracts(s, i, e, rules),
    ensures
        e < scan + k,
{
    if r >= 0 {
        lemma_nocase_letters(s, i, rules.marks_join);
        assert(whole_char(s, i));
        law_family_starts(t, s, i, rules);
        law_family_starts(t, s, scan + r, rules);
        assert(boundary(s, i));
        crate::pretokenize::family_starts::lemma_not_covered(s, i, rules);
        assert(family_start(s, i, rules));
        law_next_start(t, s, i);
        assert(token_end(t, s, i) == e);
        if scan + r < e {
            assert(!is_start(t, s, scan + r));
        }
    }
}

/// A contraction that bears on a position was seen to, if and only if it is
/// one.
proof fn lemma_seen(
    t: PretokenizerType,
    s: Seq<u8>,
    scan: int,
    am: AsciiMasks,
    rules: Cl100kRules,
    b0: u64,
    bad0: u64,
    done: u64,
    b: u64,
    bad: u64,
    r: int,
    k: int,
    i: int,
)
    requires
        well_encoded(s),
        family_scheme(t, rules),
        0 <= scan,
        scan + 70 <= s.len(),
        ascii_ok(am, s, scan),
        algebra_ok(s, scan, am, rules, b0, bad0),
        fixed(s, scan, b0, bad0, am.ap, done, b, bad),
        asked(s, scan, rules, bad, r, k),
        k - 3 <= i < k,
    ensures
        bit(done, i) ==> scan + i >= 0 && s[scan + i] == 0x27 && family_base(s, scan + i, rules),
        forall|e: int|
            e >= scan + k && #[trigger] family_contracts(s, scan + i, e, rules) ==> bit(done, i),
{
    if bit(done, i) {
        assert(bit(am.ap, i));
        assert(ascii_at(am, s, scan + i, i));
    }
    assert forall|e: int| e >= scan + k && #[trigger] family_contracts(
        s,
        scan + i,
        e,
        rules,
    ) implies bit(done, i) by {
        if i < 0 || (r >= 0 && i < r) {
            lemma_unseen_contraction(t, s, scan, rules, bad, r, k, scan + i, e);
        } else {
            assert(ascii_at(am, s, scan + i, i));
            assert(bit(am.ap, i));
            assert(!bit(bad, i));
            assert(!bit(bad0, i));
            assert(bit(b0, i));
            assert(bit(done, i) || bit(bad, i));
        }
    }
}

/// What the masks say behind a known start is right.
proof fn lemma_family_told(
    t: PretokenizerType,
    s: Seq<u8>,
    scan: int,
    am: AsciiMasks,
    rules: Cl100kRules,
    b0: u64,
    bad0: u64,
    done: u64,
    b: u64,
    bad: u64,
    r: int,
    k: int,
)
    requires
        well_encoded(s),
        family_scheme(t, rules),
        0 <= scan,
        scan + 70 <= s.len(),
        ascii_ok(am, s, scan),
        algebra_ok(s, scan, am, rules, b0, bad0),
        fixed(s, scan, b0, bad0, am.ap, done, b, bad),
        asked(s, scan, rules, bad, r, k),
    ensures
        bit(b & !bad, k) == is_start(t, s, scan + k),
{
    let x = scan + k;
    law_family_starts(t, s, x, rules);
    assert(!bit(bad, k));
    assert(fixed_at(s, scan, b0, done, b, k));
    lemma_seen(t, s, scan, am, rules, b0, bad0, done, b, bad, r, k, k - 1);
    lemma_seen(t, s, scan, am, rules, b0, bad0, done, b, bad, r, k, k - 2);
    lemma_seen(t, s, scan, am, rules, b0, bad0, done, b, bad, r, k, k - 3);
    if family_contracts(s, x - 2, x, rules) {
        lemma_nocase_letters(s, x - 2, rules.marks_join);
    }
    if family_contracts(s, x - 3, x, rules) {
        lemma_nocase_letters(s, x - 3, rules.marks_join);
    }
}

/// Where a scheme of the family can be asked from: behind an edge that nothing
/// reaches across, or behind a start.
pub open spec fn family_asked(
    t: PretokenizerType,
    s: Seq<u8>,
    scan: int,
    rules: Cl100kRules,
    a: int,
) -> bool {
    if a == -1 {
        family_entered(s, scan, rules)
    } else {
        is_start(t, s, scan + a)
    }
}

/// The masks of the batch at `scan` under a scheme of the family.
pub(crate) fn batch_masks(
    bytes: &[u8],
    scan: usize,
    rules: Cl100kRules,
    t: Ghost<PretokenizerType>,
) -> (r: (u64, u64))
    requires
        scan + 64 <= bytes@.len(),
        family_scheme(t@, rules),
    ensures
        disjoint(r.0, r.1),
        well_encoded(bytes@) ==> {
            &&& forall|a: int, k: int|
                -1 <= a < k < 64 && family_asked(t@, bytes@, scan as int, rules, a)
                    && #[trigger] clear(r.1, a, k) ==> bit(r.0, k) == is_start(
                    t@,
                    bytes@,
                    scan + k,
                )
            &&& !bit(r.1, 63) ==> family_entered(bytes@, scan + 64, rules)
            &&& long_s_is_letter(rules.marks_join) ==> forall|k: int| #[trigger]
                bit(r.1, k) ==> family_open(bytes@, scan as int, k, rules)
        },
{
    let ghost s = bytes@;
    let m: bool = rules.marks_join;
    if bytes.len() - scan < 70 || class_of(0x17F, m) != CharClass::Letter {
        // Not enough behind the batch to tell the character at its edge.
        proof {
            assert forall|a: int, k: int| -1 <= a < k < 64 implies !#[trigger] clear(
                0xffff_ffff_ffff_ffff,
                a,
                k,
            ) by {
                assert(bit(0xffff_ffff_ffff_ffff, k));
            }
        }
        return (0, u64::MAX);
    }
    let am = ascii_masks(bytes, scan);
    let uni = unicode_classes(bytes, scan, am, m, false);
    let cr = batch_carries(bytes, scan, m);
    let (b0, bad0) = family_algebra(bytes, scan, am, cr, uni, rules);
    let (b, bad, Ghost(done)) = contraction_fixup(bytes, scan, b0, bad0, am);
    proof {
        if well_encoded(s) {
            let sc = scan as int;
            assert forall|a: int, k: int|
                -1 <= a < k < 64 && family_asked(t@, s, sc, rules, a) && #[trigger] clear(
                    bad,
                    a,
                    k,
                ) implies bit(b & !bad, k) == is_start(t@, s, scan + k) by {
                if a >= 0 {
                    law_family_starts(t@, s, scan + a, rules);
                }
                assert(asked(s, sc, rules, bad, a, k));
                lemma_family_told(t@, s, sc, am, rules, b0, bad0, done, b, bad, a, k);
            }
            if !bit(bad, 63) {
                assert forall|i: int, e: int|
                    i < scan + 64 && #[trigger] family_contracts(s, i, e, rules) implies e < scan
                    + 64 by {
                    if e >= scan + 64 {
                        let j = i - scan;
                        lemma_nocase_letters(s, i, m);
                        assert(ascii_at(am, s, scan + j, j));
                        assert(bit(am.ap, j));
                        assert(!bit(bad0, j) ==> bit(b0, j));
                    }
                }
                assert(!bit(bad0, 63));
            }
        }
    }
    (b & !bad, bad)
}

} // verus!
