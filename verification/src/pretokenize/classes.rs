//! The characters of a 64-byte batch as sets of positions.
use crate::pretokenize::bits::{below, bit, from_bit, group_bits, lowest, single};
use crate::pretokenize::chars::{
    ascii_digit, ascii_letter, ascii_ws, char_at, char_end, class_at, is_ascii_ws, is_digit,
    is_letter, is_newline, lemma_char_len, newline,
};
use crate::pretokenize::locality::{
    boundary, lemma_char_boundary, well_encoded, whole_char, whole_chars,
};
use crate::pretokenize::r50k::{
    back_to_lead, continuation, lemma_back_to_lead, lemma_continuation,
};
use crate::pretokenize::r50k_starts::lemma_back_over;
use crate::pretokenize::unicode::CharClass;
use vstd::prelude::*;

verus! {

broadcast use group_bits;

/// One set per byte predicate, for 64 bytes.
#[derive(Clone, Copy)]
pub struct AsciiMasks {
    /// ASCII letters.
    pub l: u64,
    /// ASCII digits.
    pub d: u64,
    /// Spaces.
    pub s: u64,
    /// `\t`, `\x0b` and `\x0c`.
    pub wt: u64,
    /// `\r` and `\n`.
    pub n: u64,
    /// Bytes from 0x80 on.
    pub hi: u64,
    /// Apostrophes.
    pub ap: u64,
}

/// What the masks say of the byte at `x`, position `k` of the batch.
pub open spec fn ascii_at(m: AsciiMasks, s: Seq<u8>, x: int, k: int) -> bool {
    let b = s[x];
    &&& bit(m.l, k) == ascii_letter(b)
    &&& bit(m.d, k) == ascii_digit(b)
    &&& bit(m.s, k) == (b == 0x20)
    &&& bit(m.wt, k) == (ascii_ws(b) && b != 0x20 && !newline(b))
    &&& bit(m.n, k) == newline(b)
    &&& bit(m.hi, k) == (b >= 0x80)
    &&& bit(m.ap, k) == (b == 0x27)
}

/// The masks describe the batch at `scan`.
pub open spec fn ascii_ok(m: AsciiMasks, s: Seq<u8>, scan: int) -> bool {
    forall|k: int| 0 <= k < 64 ==> #[trigger] ascii_at(m, s, scan + k, k)
}

/// `m` with position `k` added where `b` holds.
fn with_bit(m: u64, k: u64, b: bool) -> (r: u64)
    requires
        k < 64,
    ensures
        forall|j: int| #[trigger] bit(r, j) == (bit(m, j) || (b && j == k)),
{
    if b {
        let one: u64 = single(k);
        m | one
    } else {
        m
    }
}

/// Classifies the bytes of the batch at `scan`.
pub fn ascii_masks(bytes: &[u8], scan: usize) -> (m: AsciiMasks)
    requires
        scan + 64 <= bytes@.len(),
    ensures
        ascii_ok(m, bytes@, scan as int),
{
    let mut m = AsciiMasks { l: 0, d: 0, s: 0, wt: 0, n: 0, hi: 0, ap: 0 };
    let len: usize = bytes.len();
    let mut k: u64 = 0;
    while k < 64
        invariant
            k <= 64,
            scan + 64 <= len == bytes@.len(),
            forall|j: int| 0 <= j < k ==> #[trigger] ascii_at(m, bytes@, scan + j, j),
            forall|j: int| k <= j ==> !#[trigger] bit(m.l, j),
            forall|j: int| k <= j ==> !#[trigger] bit(m.d, j),
            forall|j: int| k <= j ==> !#[trigger] bit(m.s, j),
            forall|j: int| k <= j ==> !#[trigger] bit(m.wt, j),
            forall|j: int| k <= j ==> !#[trigger] bit(m.n, j),
            forall|j: int| k <= j ==> !#[trigger] bit(m.hi, j),
            forall|j: int| k <= j ==> !#[trigger] bit(m.ap, j),
        decreases 64 - k,
    {
        let b: u8 = bytes[scan + k as usize];
        let w: bool = is_ascii_ws(b);
        let n: bool = is_newline(b);
        let ghost old_m = m;
        m = AsciiMasks {
            l: with_bit(m.l, k, is_letter(b)),
            d: with_bit(m.d, k, is_digit(b)),
            s: with_bit(m.s, k, b == 0x20),
            wt: with_bit(m.wt, k, w && b != 0x20 && !n),
            n: with_bit(m.n, k, n),
            hi: with_bit(m.hi, k, b >= 0x80),
            ap: with_bit(m.ap, k, b == 0x27),
        };
        proof {
            assert forall|j: int| 0 <= j < k + 1 implies #[trigger] ascii_at(
                m,
                bytes@,
                scan + j,
                j,
            ) by {
                if j < k {
                    assert(ascii_at(old_m, bytes@, scan + j, j));
                }
            }
        }
        k += 1;
    }
    m
}

/// Where the character that byte `i` belongs to starts.
pub open spec fn lead_of(s: Seq<u8>, i: int) -> int {
    back_to_lead(s, 0, i)
}

/// In whole text, a byte lies in the character it belongs to.
pub proof fn lemma_lead_of(s: Seq<u8>, i: int)
    requires
        whole_chars(s),
        0 <= i < s.len(),
    ensures
        0 <= lead_of(s, i) <= i < char_end(s, lead_of(s, i)) <= s.len(),
        boundary(s, lead_of(s, i)),
        lead_of(s, i) == i <==> !continuation(s[i]),
        s[i] < 0x80 ==> lead_of(s, i) == i,
        s[i] < 0x80 <==> s[lead_of(s, i)] < 0x80,
        boundary(s, char_end(s, lead_of(s, i))),
        forall|j: int| lead_of(s, i) <= j < char_end(s, lead_of(s, i)) ==> #[trigger] lead_of(s, j)
            == lead_of(s, i),
    decreases i,
{
    let y = lead_of(s, i);
    lemma_back_to_lead(s, 0, i);
    lemma_leads(s, i);
    lemma_char_len(s, y);
    lemma_char_boundary(s, y);
    assert(whole_char(s, y));
    let e = char_end(s, y);
    if e <= i {
        assert(continuation(s[e]));
    }
    assert forall|j: int| y <= j < e implies #[trigger] lead_of(s, j) == y by {
        lemma_back_over(s, 0, y, j);
    }
}

proof fn lemma_leads(s: Seq<u8>, i: int)
    requires
        whole_chars(s),
        0 <= i < s.len(),
    ensures
        !continuation(s[lead_of(s, i)]),
        forall|j: int| lead_of(s, i) < j <= i ==> continuation(#[trigger] s[j]),
    decreases i,
{
    if i > 0 && continuation(s[i]) {
        lemma_leads(s, i - 1);
    }
}

/// Sets of bytes of characters beyond ASCII: every byte of a character carries
/// its class.
#[derive(Clone, Copy)]
pub struct UniClasses {
    /// Letters.
    pub l: u64,
    /// Numbers.
    pub n: u64,
    /// Others.
    pub o: u64,
    /// Whitespace.
    pub ws: u64,
    /// Starts of whitespace characters of two and of three bytes that end in
    /// the batch.
    pub w2: u64,
    pub w3: u64,
    /// Starts of characters by length.
    pub lead2: u64,
    pub lead3: u64,
    pub lead4: u64,
    /// Bytes behind the first of a character.
    pub cont: u64,
    /// Bytes that only the scan from token to token can decide.
    pub resid: u64,
}

/// Nothing beyond ASCII.
pub fn no_classes() -> (u: UniClasses)
    ensures
        forall|k: int| #[trigger] empty_at(u, k),
{
    UniClasses {
        l: 0,
        n: 0,
        o: 0,
        ws: 0,
        w2: 0,
        w3: 0,
        lead2: 0,
        lead3: 0,
        lead4: 0,
        cont: 0,
        resid: 0,
    }
}

/// No set holds position `k`.
pub open spec fn empty_at(u: UniClasses, k: int) -> bool {
    &&& !bit(u.l, k)
    &&& !bit(u.n, k)
    &&& !bit(u.o, k)
    &&& !bit(u.ws, k)
    &&& !bit(u.w2, k)
    &&& !bit(u.w3, k)
    &&& !bit(u.lead2, k)
    &&& !bit(u.lead3, k)
    &&& !bit(u.lead4, k)
    &&& !bit(u.cont, k)
    &&& !bit(u.resid, k)
}

/// What the sets say of byte `x`, position `k` of the batch at `scan`: its
/// character starts at `y`. With `numbers` false, numbers are left to the
/// scan from token to token; so is whitespace across an edge of the batch.
pub open spec fn uni_byte(
    u: UniClasses,
    s: Seq<u8>,
    scan: int,
    x: int,
    k: int,
    y: int,
    marks: bool,
    numbers: bool,
) -> bool {
    let c = class_at(s, y, marks);
    let n = char_end(s, y) - y;
    let out = char_end(s, y) > scan + 64;
    &&& bit(u.l, k) == (c == CharClass::Letter)
    &&& bit(u.n, k) == (c == CharClass::Number)
    &&& bit(u.o, k) == (c == CharClass::Other)
    &&& bit(u.ws, k) == (c == CharClass::Whitespace)
    &&& bit(u.cont, k) == (y < x)
    &&& bit(u.lead2, k) == (y == x && n == 2)
    &&& bit(u.lead3, k) == (y == x && n == 3)
    &&& bit(u.lead4, k) == (y == x && n == 4)
    &&& bit(u.w2, k) == (y == x && n == 2 && c == CharClass::Whitespace && !out)
    &&& bit(u.w3, k) == (y == x && n == 3 && c == CharClass::Whitespace && !out)
    &&& bit(u.resid, k) == ((c == CharClass::Number && !numbers) || (c == CharClass::Whitespace && (
    out || n == 4 || y < scan)))
}

/// What the sets say of position `k` of the batch at `scan`.
pub open spec fn uni_at(
    u: UniClasses,
    s: Seq<u8>,
    scan: int,
    k: int,
    marks: bool,
    numbers: bool,
) -> bool {
    if s[scan + k] >= 0x80 {
        uni_byte(u, s, scan, scan + k, k, lead_of(s, scan + k), marks, numbers)
    } else {
        empty_at(u, k)
    }
}

/// The sets describe the batch at `scan`.
pub open spec fn uni_ok(
    u: UniClasses,
    s: Seq<u8>,
    scan: int,
    marks: bool,
    numbers: bool,
) -> bool {
    forall|k: int| 0 <= k < 64 ==> #[trigger] uni_at(u, s, scan, k, marks, numbers)
}

/// The positions from `a` to before `b`.
pub fn range_bits(a: u64, b: u64) -> (m: u64)
    requires
        a < 64,
        a <= b <= 64,
    ensures
        forall|j: int| #[trigger] bit(m, j) == (a <= j < b),
{
    from_bit(a) & below(b)
}

/// Adds the part of one character that lies in the batch: positions `a` to
/// before `b`, its start among them if `first`.
fn add_char(
    u: UniClasses,
    a: u64,
    b: u64,
    first: bool,
    c: CharClass,
    n: usize,
    defer: bool,
) -> (r: UniClasses)
    requires
        a < b <= 64,
        forall|k: int| a <= k < b ==> #[trigger] empty_at(u, k),
    ensures
        forall|k: int| !(a <= k < b) && empty_at(u, k) ==> #[trigger] empty_at(r, k),
        forall|k: int| !(a <= k < b) ==> #[trigger] same_at(u, r, k),
        forall|k: int|
            a <= k < b ==> #[trigger] char_bits(r, k, lead_bit(a, first), c, n, defer),
{
    let m: u64 = range_bits(a, b);
    let lead: u64 = if first {
        single(a)
    } else {
        0
    };
    let rest: u64 = m & !lead;
    let mut r = u;
    r.cont = r.cont | rest;
    match c {
        CharClass::Letter => {
            r.l = r.l | m;
        },
        CharClass::Number => {
            r.n = r.n | m;
        },
        CharClass::Other => {
            r.o = r.o | m;
        },
        CharClass::Whitespace => {
            r.ws = r.ws | m;
            if !defer && n == 2 {
                r.w2 = r.w2 | lead;
            }
            if !defer && n == 3 {
                r.w3 = r.w3 | lead;
            }
        },
    }
    if defer {
        r.resid = r.resid | m;
    }
    if n == 2 {
        r.lead2 = r.lead2 | lead;
    } else if n == 3 {
        r.lead3 = r.lead3 | lead;
    } else if n == 4 {
        r.lead4 = r.lead4 | lead;
    }
    proof {
        assert forall|k: int| a <= k < b implies #[trigger] char_bits(
            r,
            k,
            lead_bit(a, first),
            c,
            n,
            defer,
        ) by {
            assert(empty_at(u, k));
            assert(bit(m, k));
            assert(bit(lead, k) == (first && k == a));
        }
        assert forall|k: int| !(a <= k < b) implies #[trigger] same_at(u, r, k) by {
            assert(!bit(m, k));
            assert(!bit(lead, k));
        }
        assert forall|k: int| !(a <= k < b) && empty_at(u, k) implies #[trigger] empty_at(r, k) by {
            assert(same_at(u, r, k));
        }
    }
    r
}

/// The position where a character starts, -1 if that is before the batch.
pub open spec fn lead_bit(a: u64, first: bool) -> int {
    if first {
        a as int
    } else {
        -1
    }
}

/// Two collections of sets agree on position `k`.
pub open spec fn same_at(u: UniClasses, v: UniClasses, k: int) -> bool {
    &&& bit(u.l, k) == bit(v.l, k)
    &&& bit(u.n, k) == bit(v.n, k)
    &&& bit(u.o, k) == bit(v.o, k)
    &&& bit(u.ws, k) == bit(v.ws, k)
    &&& bit(u.w2, k) == bit(v.w2, k)
    &&& bit(u.w3, k) == bit(v.w3, k)
    &&& bit(u.lead2, k) == bit(v.lead2, k)
    &&& bit(u.lead3, k) == bit(v.lead3, k)
    &&& bit(u.lead4, k) == bit(v.lead4, k)
    &&& bit(u.cont, k) == bit(v.cont, k)
    &&& bit(u.resid, k) == bit(v.resid, k)
}

/// Position `k` holds a byte of a character of class `c` with `n` bytes.
pub open spec fn char_bits(
    u: UniClasses,
    k: int,
    lead: int,
    c: CharClass,
    n: usize,
    defer: bool,
) -> bool {
    let first = k == lead;
    &&& bit(u.l, k) == (c == CharClass::Letter)
    &&& bit(u.n, k) == (c == CharClass::Number)
    &&& bit(u.o, k) == (c == CharClass::Other)
    &&& bit(u.ws, k) == (c == CharClass::Whitespace)
    &&& bit(u.cont, k) == !first
    &&& bit(u.lead2, k) == (first && n == 2)
    &&& bit(u.lead3, k) == (first && n == 3)
    &&& bit(u.lead4, k) == (first && n == 4)
    &&& bit(u.w2, k) == (first && n == 2 && c == CharClass::Whitespace && !defer)
    &&& bit(u.w3, k) == (first && n == 3 && c == CharClass::Whitespace && !defer)
    &&& bit(u.resid, k) == defer
}

/// The character that byte `pos - 1` belongs to: its class, start and end.
pub fn char_through(bytes: &[u8], pos: usize, marks: bool) -> (r: (CharClass, usize, usize))
    requires
        0 < pos <= bytes@.len(),
    ensures
        r.1 == lead_of(bytes@, pos - 1),
        r.0 == class_at(bytes@, r.1 as int, marks),
        r.2 == char_end(bytes@, r.1 as int),
        r.1 < pos,
        r.1 < r.2 <= bytes@.len(),
{
    let mut j: usize = pos - 1;
    while j > 0 && bytes[j] & 0xC0 == 0x80
        invariant
            j < pos <= bytes@.len(),
            lead_of(bytes@, j as int) == lead_of(bytes@, pos - 1),
        decreases j,
    {
        proof {
            lemma_continuation(bytes@[j as int]);
        }
        j -= 1;
    }
    proof {
        lemma_continuation(bytes@[j as int]);
    }
    let (c, e) = char_at(bytes, j, marks);
    (c, j, e)
}

/// The first byte beyond ASCII from a boundary on starts a character.
proof fn lemma_not_stray(s: Seq<u8>, scan: int, done: int, i: int)
    requires
        well_encoded(s),
        0 <= scan,
        0 <= done <= i,
        scan + i < s.len(),
        boundary(s, scan + done),
        s[scan + i] >= 0x80,
        forall|k: int| done <= k < i ==> #[trigger] s[scan + k] < 0x80,
    ensures
        !continuation(s[scan + i]),
        s[scan + i] >= 0xC2,
{
    let x = scan + i;
    lemma_lead_of(s, x);
    let y = lead_of(s, x);
    if y < x {
        lemma_char_boundary(s, y);
        if y >= scan + done {
            assert(s[scan + (y - scan)] < 0x80);
        } else {
            assert(continuation(s[scan + done]));
        }
    }
}

/// Classifies every character that starts at a position of `m` in the batch
/// at `scan`. One that runs past the batch has its bytes in the batch
/// classified.
fn classify_uni_chars(
    bytes: &[u8],
    scan: usize,
    m: u64,
    marks: bool,
    numbers: bool,
    claimed: UniClasses,
    from: u64,
) -> (u: UniClasses)
    requires
        scan + 64 <= bytes@.len(),
        from < 64,
        forall|k: int| from <= k < 64 ==> #[trigger] empty_at(claimed, k),
        forall|k: int| #[trigger] bit(m, k) == (from <= k < 64 && bytes@[scan + k] >= 0x80),
        well_encoded(bytes@) ==> boundary(bytes@, scan + from),
    ensures
        forall|k: int| 0 <= k < from ==> #[trigger] same_at(claimed, u, k),
        well_encoded(bytes@) ==> forall|k: int|
            from <= k < 64 ==> #[trigger] uni_at(u, bytes@, scan as int, k, marks, numbers),
{
    let ghost s = bytes@;
    let len: usize = bytes.len();
    let mut u = claimed;
    let mut left: u64 = m;
    let ghost mut lo: int = from as int;
    while left != 0
        invariant
            s == bytes@,
            scan + 64 <= len == s.len(),
            from <= lo <= 64,
            forall|k: int| #[trigger] bit(left, k) == (lo <= k < 64 && s[scan + k] >= 0x80),
            forall|k: int| 0 <= k < from ==> #[trigger] same_at(claimed, u, k),
            forall|k: int| lo <= k < 64 ==> #[trigger] empty_at(u, k),
            well_encoded(s) ==> {
                &&& lo < 64 ==> boundary(s, scan + lo)
                &&& forall|k: int|
                    from <= k < lo ==> #[trigger] uni_at(u, s, scan as int, k, marks, numbers)
            },
        decreases 64 - lo,
    {
        let i: u64 = lowest(left);
        let ghost was = left;
        let ghost before = u;
        proof {
            assert(bit(was, i as int));
            assert forall|k: int| lo <= k < i implies #[trigger] s[scan + k] < 0x80 by {
                assert(!bit(was, k));
            }
            if well_encoded(s) {
                lemma_not_stray(s, scan as int, lo, i as int);
                lemma_lead_of(s, scan + i);
            }
        }
        let b: u8 = bytes[scan + i as usize];
        if b < 0xC2 {
            // A stray byte: not the start of a character.
            let one: u64 = single(i);
            left = left & !one;
            u.resid = u.resid | one;
            proof {
                assert forall|k: int| 0 <= k < from implies #[trigger] same_at(claimed, u, k) by {
                    assert(same_at(claimed, before, k));
                }
                assert forall|k: int| i < k < 64 implies #[trigger] empty_at(u, k) by {
                    assert(empty_at(before, k));
                }
                lo = i + 1;
            }
            continue;
        }
        let (c, end) = char_at(bytes, scan + i as usize, marks);
        let n: usize = end - (scan + i as usize);
        let out: bool = n as u64 > 64 - i;
        let stop: u64 = if out {
            64
        } else {
            i + n as u64
        };
        let chm: u64 = range_bits(i, stop);
        let defer: bool = (c == CharClass::Number && !numbers) || (c == CharClass::Whitespace && (
        out || n == 4));
        left = left & !chm;
        u = add_char(u, i, stop, true, c, n, defer);
        proof {
            assert forall|k: int| 0 <= k < from implies #[trigger] same_at(claimed, u, k) by {
                assert(same_at(claimed, before, k));
                assert(same_at(before, u, k));
            }
            assert forall|k: int| stop <= k < 64 implies #[trigger] empty_at(u, k) by {
                assert(empty_at(before, k));
            }
            assert forall|k: int| #[trigger] bit(left, k) == (stop <= k < 64 && s[scan + k]
                >= 0x80) by {
                assert(bit(was, k) == (lo <= k < 64 && s[scan + k] >= 0x80));
                assert(bit(chm, k) == (i <= k < stop));
            }
            if well_encoded(s) {
                assert forall|k: int| from <= k < stop implies #[trigger] uni_at(
                    u,
                    s,
                    scan as int,
                    k,
                    marks,
                    numbers,
                ) by {
                    if k < lo {
                        assert(uni_at(before, s, scan as int, k, marks, numbers));
                        assert(same_at(before, u, k));
                    } else if k < i {
                        assert(s[scan + k] < 0x80);
                        assert(empty_at(before, k));
                        assert(empty_at(u, k));
                    } else {
                        assert(char_bits(u, k, lead_bit(i, true), c, n, defer));
                        assert(lead_of(s, scan + k) == scan + i);
                        lemma_lead_of(s, scan + k);
                    }
                }
            }
            lo = stop as int;
        }
    }
    proof {
        if well_encoded(s) {
            assert forall|k: int| from <= k < 64 implies #[trigger] uni_at(
                u,
                s,
                scan as int,
                k,
                marks,
                numbers,
            ) by {
                if k >= lo {
                    assert(!bit(left, k));
                    assert(empty_at(u, k));
                }
            }
        }
    }
    u
}

/// The characters beyond ASCII of the batch at `scan`, one that runs into it
/// among them.
pub fn unicode_classes(
    bytes: &[u8],
    scan: usize,
    am: AsciiMasks,
    marks: bool,
    numbers: bool,
) -> (u: UniClasses)
    requires
        scan + 64 <= bytes@.len(),
        ascii_ok(am, bytes@, scan as int),
    ensures
        well_encoded(bytes@) ==> uni_ok(u, bytes@, scan as int, marks, numbers),
{
    let ghost s = bytes@;
    let mut u = no_classes();
    let mut from: u64 = 0;
    if scan > 0 && bytes[scan - 1] >= 0x80 {
        let (c, j, e) = char_through(bytes, scan, marks);
        if e > scan && e - scan < 4 {
            from = (e - scan) as u64;
            let defer: bool = (c == CharClass::Number && !numbers) || c == CharClass::Whitespace;
            u = add_char(u, 0, from, false, c, e - j, defer);
        }
        proof {
            if well_encoded(s) {
                lemma_lead_of(s, scan - 1);
                lemma_char_len(s, j as int);
            }
        }
    } else {
        proof {
            if scan > 0 && well_encoded(s) {
                lemma_lead_of(s, scan - 1);
                lemma_char_len(s, scan - 1);
            }
        }
    }
    let m: u64 = am.hi & from_bit(from);
    proof {
        assert forall|k: int| #[trigger] bit(m, k) == (from <= k < 64 && s[scan + k] >= 0x80) by {
            if 0 <= k < 64 {
                assert(ascii_at(am, s, scan + k, k));
            }
        }
        assert forall|k: int| from <= k < 64 implies #[trigger] empty_at(u, k) by {}
    }
    let ghost claimed = u;
    let u = classify_uni_chars(bytes, scan, m, marks, numbers, u, from);
    proof {
        if well_encoded(s) {
            assert forall|k: int| 0 <= k < 64 implies #[trigger] uni_at(
                u,
                s,
                scan as int,
                k,
                marks,
                numbers,
            ) by {
                if k < from {
                    let y = lead_of(s, scan - 1);
                    lemma_lead_of(s, scan - 1);
                    assert(lead_of(s, scan + k) == y);
                    lemma_lead_of(s, scan + k);
                    assert(same_at(claimed, u, k));
                    let c = class_at(s, y, marks);
                    let n = (char_end(s, y) - y) as usize;
                    assert(char_bits(
                        claimed,
                        k,
                        lead_bit(0, false),
                        c,
                        n,
                        (c == CharClass::Number && !numbers) || c == CharClass::Whitespace,
                    ));
                    assert(s[scan + k] >= 0x80);
                }
            }
        }
    }
    u
}

} // verus!
