//! Characters of a byte string: decoding, classes and runs.
use crate::pretokenize::unicode::{class_of, cp_class, CharClass};
use vstd::prelude::*;

verus! {

/// U+10FFFF, reported for truncated tails and garbage beyond Unicode.
pub const CP_INVALID: u32 = 0x10FFFF;

/// An ASCII letter.
pub open spec fn ascii_letter(b: u8) -> bool {
    0x41 <= b <= 0x5a || 0x61 <= b <= 0x7a
}

/// An ASCII digit.
pub open spec fn ascii_digit(b: u8) -> bool {
    0x30 <= b <= 0x39
}

/// ASCII whitespace: space and `\t` to `\r`.
pub open spec fn ascii_ws(b: u8) -> bool {
    b == 0x20 || 9 <= b <= 13
}

/// `\r` or `\n`.
pub open spec fn newline(b: u8) -> bool {
    b == 0x0d || b == 0x0a
}

/// Whether `b` is an ASCII letter.
pub fn is_letter(b: u8) -> (r: bool)
    ensures
        r == ascii_letter(b),
{
    assert(((b | 0x20) >= 0x61 && (b | 0x20) < 0x7b) <==> (0x41 <= b && b <= 0x5a || 0x61 <= b && b
        <= 0x7a)) by (bit_vector);
    (b | 0x20).wrapping_sub(0x61) < 26
}

/// Whether `b` is an ASCII digit.
pub fn is_digit(b: u8) -> (r: bool)
    ensures
        r == ascii_digit(b),
{
    b.wrapping_sub(0x30) < 10
}

/// Whether `b` is ASCII whitespace.
pub fn is_ascii_ws(b: u8) -> (r: bool)
    ensures
        r == ascii_ws(b),
{
    b == 0x20 || b.wrapping_sub(9) < 5
}

/// Whether `b` is `\r` or `\n`.
pub fn is_newline(b: u8) -> (r: bool)
    ensures
        r == newline(b),
{
    b == 0x0d || b == 0x0a
}

/// The number of bytes that a non-ASCII lead byte announces.
pub open spec fn lead_len(b0: u8) -> int {
    if b0 < 0xE0 {
        2
    } else if b0 < 0xF0 {
        3
    } else {
        4
    }
}

/// The number of bytes of the character at `pos`: one for ASCII, else what
/// its lead byte announces, cut off at the end of the input.
pub open spec fn char_len(s: Seq<u8>, pos: int) -> int {
    if s[pos] < 0x80 {
        1
    } else if pos + lead_len(s[pos]) > s.len() {
        s.len() - pos
    } else {
        lead_len(s[pos])
    }
}

/// The position after the character at `pos`.
pub open spec fn char_end(s: Seq<u8>, pos: int) -> int {
    pos + char_len(s, pos)
}

/// The six payload bits of a byte after the lead.
pub open spec fn payload(b: u8) -> int {
    (b % 64) as int
}

/// The code point of the character at `pos`. Input that is not UTF-8 decodes
/// too: a sequence cut off by the end of the input, and a value beyond
/// Unicode, give [`CP_INVALID`].
pub open spec fn char_cp(s: Seq<u8>, pos: int) -> u32 {
    let b0 = s[pos];
    let v = if b0 < 0x80 {
        b0 as int
    } else if pos + lead_len(b0) > s.len() {
        CP_INVALID as int
    } else if b0 < 0xE0 {
        (b0 % 32) * 64 + payload(s[pos + 1])
    } else if b0 < 0xF0 {
        (b0 % 16) * 4096 + payload(s[pos + 1]) * 64 + payload(s[pos + 2])
    } else {
        (b0 % 8) * 0x40000 + payload(s[pos + 1]) * 4096 + payload(s[pos + 2]) * 64 + payload(
            s[pos + 3],
        )
    };
    if v > CP_INVALID {
        CP_INVALID
    } else {
        v as u32
    }
}

/// Decodes the non-ASCII character at `pos` as code point and byte length.
pub fn decode_cp(bytes: &[u8], pos: usize) -> (r: (u32, usize))
    requires
        pos < bytes@.len(),
        bytes@[pos as int] >= 0x80,
    ensures
        r.0 == char_cp(bytes@, pos as int),
        r.1 == char_len(bytes@, pos as int),
        0 < r.1 <= bytes@.len() - pos,
{
    let len: usize = bytes.len();
    let x0: u8 = bytes[pos];
    let b0: u32 = x0 as u32;
    let need: usize = if b0 < 0xE0 {
        2
    } else if b0 < 0xF0 {
        3
    } else {
        4
    };
    if need > len - pos {
        // A truncated tail is one unclassifiable character.
        return (CP_INVALID, len - pos);
    }
    let x1: u8 = bytes[pos + 1];
    let b1: u32 = (x1 & 0x3F) as u32;
    proof {
        assert((x1 & 0x3F) == x1 % 64) by (bit_vector);
        assert((b0 & 0x1F) == b0 % 32 && (b0 & 0x0F) == b0 % 16 && (b0 & 0x07) == b0 % 8)
            by (bit_vector);
    }
    if need == 2 {
        proof {
            assert((((b0 & 0x1F) << 6) | b1) == (b0 % 32) * 64 + b1) by (bit_vector)
                requires
                    b1 < 64,
                    b0 < 256,
            ;
        }
        return (((b0 & 0x1F) << 6) | b1, 2);
    }
    let x2: u8 = bytes[pos + 2];
    let b2: u32 = (x2 & 0x3F) as u32;
    proof {
        assert((x2 & 0x3F) == x2 % 64) by (bit_vector);
    }
    if need == 3 {
        proof {
            assert((((b0 & 0x0F) << 12) | (b1 << 6) | b2) == (b0 % 16) * 4096 + b1 * 64 + b2)
                by (bit_vector)
                requires
                    b1 < 64,
                    b2 < 64,
                    b0 < 256,
            ;
        }
        return (((b0 & 0x0F) << 12) | (b1 << 6) | b2, 3);
    }
    let x3: u8 = bytes[pos + 3];
    let b3: u32 = (x3 & 0x3F) as u32;
    proof {
        assert((x3 & 0x3F) == x3 % 64) by (bit_vector);
        assert((((b0 & 0x07) << 18) | (b1 << 12) | (b2 << 6) | b3) == (b0 % 8) * 0x40000 + b1 * 4096
            + b2 * 64 + b3) by (bit_vector)
            requires
                b1 < 64,
                b2 < 64,
                b3 < 64,
                b0 < 256,
        ;
    }
    let cp: u32 = ((b0 & 0x07) << 18) | (b1 << 12) | (b2 << 6) | b3;
    (
        if cp > CP_INVALID {
            CP_INVALID
        } else {
            cp
        },
        4,
    )
}

/// The class of the character at `pos`: ASCII by byte, other characters by
/// their code point.
pub open spec fn class_at(s: Seq<u8>, pos: int, marks: bool) -> CharClass {
    let b = s[pos];
    if b < 0x80 {
        if ascii_letter(b) {
            CharClass::Letter
        } else if ascii_digit(b) {
            CharClass::Number
        } else if ascii_ws(b) {
            CharClass::Whitespace
        } else {
            CharClass::Other
        }
    } else {
        cp_class(char_cp(s, pos), marks)
    }
}

/// The class and end of the character at `pos`.
pub fn char_at(bytes: &[u8], pos: usize, marks: bool) -> (r: (CharClass, usize))
    requires
        pos < bytes@.len(),
    ensures
        r.0 == class_at(bytes@, pos as int, marks),
        r.1 == char_end(bytes@, pos as int),
        pos < r.1 <= bytes@.len(),
{
    let b: u8 = bytes[pos];
    if b < 0x80 {
        let c = if is_letter(b) {
            CharClass::Letter
        } else if is_digit(b) {
            CharClass::Number
        } else if is_ascii_ws(b) {
            CharClass::Whitespace
        } else {
            CharClass::Other
        };
        (c, pos + 1)
    } else {
        let (cp, n) = decode_cp(bytes, pos);
        (class_of(cp, marks), pos + n)
    }
}

/// The end of the run of characters of class `c` that starts at `pos`; `pos`
/// itself when no such character stands there.
pub open spec fn run_end(s: Seq<u8>, pos: int, c: CharClass, marks: bool) -> int
    decreases s.len() - pos,
{
    if 0 <= pos < s.len() && class_at(s, pos, marks) == c {
        run_end(s, char_end(s, pos), c, marks)
    } else {
        pos
    }
}

/// A character has at least one byte and lies within the input.
pub proof fn lemma_char_len(s: Seq<u8>, pos: int)
    requires
        0 <= pos < s.len(),
    ensures
        1 <= char_len(s, pos) <= 4,
        char_end(s, pos) <= s.len(),
{
}

/// A run ends within the input, at a character of another class or at the
/// end.
pub proof fn lemma_run_end(s: Seq<u8>, pos: int, c: CharClass, marks: bool)
    requires
        0 <= pos <= s.len(),
    ensures
        pos <= run_end(s, pos, c, marks) <= s.len(),
        run_end(s, pos, c, marks) < s.len() ==> class_at(s, run_end(s, pos, c, marks), marks) != c,
    decreases s.len() - pos,
{
    if pos < s.len() && class_at(s, pos, marks) == c {
        lemma_char_len(s, pos);
        lemma_run_end(s, char_end(s, pos), c, marks);
    }
}

/// The end of the run of characters of class `c` that starts at `pos`.
pub fn scan_run(bytes: &[u8], pos: usize, c: CharClass, marks: bool) -> (e: usize)
    requires
        pos <= bytes@.len(),
    ensures
        e == run_end(bytes@, pos as int, c, marks),
        pos <= e <= bytes@.len(),
{
    let mut p: usize = pos;
    while p < bytes.len()
        invariant_except_break
            pos <= p <= bytes@.len(),
            run_end(bytes@, p as int, c, marks) == run_end(bytes@, pos as int, c, marks),
        ensures
            pos <= p <= bytes@.len(),
            p == run_end(bytes@, pos as int, c, marks),
        decreases bytes@.len() - p,
    {
        let (k, e) = char_at(bytes, p, marks);
        if k != c {
            break;
        }
        p = e;
    }
    p
}

/// `\p{L}+`: the end of the letter run at `pos`.
pub fn scan_letters_from(bytes: &[u8], pos: usize, marks: bool) -> (e: usize)
    requires
        pos <= bytes@.len(),
    ensures
        e == run_end(bytes@, pos as int, CharClass::Letter, marks),
        pos <= e <= bytes@.len(),
{
    scan_run(bytes, pos, CharClass::Letter, marks)
}

/// `[^\s\p{L}\p{N}]+`: the end of the run of other characters at `pos`.
pub fn scan_other_from(bytes: &[u8], pos: usize, marks: bool) -> (e: usize)
    requires
        pos <= bytes@.len(),
    ensures
        e == run_end(bytes@, pos as int, CharClass::Other, marks),
        pos <= e <= bytes@.len(),
{
    scan_run(bytes, pos, CharClass::Other, marks)
}

/// `\p{N}{1,3}`: the end of at most `left` more number characters at `pos`.
pub open spec fn numbers_end(s: Seq<u8>, pos: int, left: nat) -> int
    decreases left,
{
    if left > 0 && 0 <= pos < s.len() && class_at(s, pos, false) == CharClass::Number {
        numbers_end(s, char_end(s, pos), (left - 1) as nat)
    } else {
        pos
    }
}

/// `\p{N}{1,3}`: extends a number run that already has `consumed` characters
/// to at most three.
pub fn scan_numbers_max3(bytes: &[u8], pos: usize, consumed: u32) -> (e: usize)
    requires
        pos <= bytes@.len(),
        consumed <= 3,
    ensures
        e == numbers_end(bytes@, pos as int, (3 - consumed) as nat),
        pos <= e <= bytes@.len(),
{
    let mut p: usize = pos;
    let mut n: u32 = consumed;
    while n < 3 && p < bytes.len()
        invariant_except_break
            pos <= p <= bytes@.len(),
            n <= 3,
            numbers_end(bytes@, p as int, (3 - n) as nat) == numbers_end(
                bytes@,
                pos as int,
                (3 - consumed) as nat,
            ),
        ensures
            pos <= p <= bytes@.len(),
            p == numbers_end(bytes@, pos as int, (3 - consumed) as nat),
        decreases 3 - n,
    {
        let (k, e) = char_at(bytes, p, false);
        if k != CharClass::Number {
            break;
        }
        p = e;
        n += 1;
    }
    p
}

/// `[\r\n]*`: the end of the run of newline bytes at `pos`.
pub open spec fn newlines_end(s: Seq<u8>, pos: int) -> int
    decreases s.len() - pos,
{
    if 0 <= pos < s.len() && newline(s[pos]) {
        newlines_end(s, pos + 1)
    } else {
        pos
    }
}

/// `[\r\n]*`: the end of the run of newline bytes at `pos`.
pub fn scan_newlines(bytes: &[u8], pos: usize) -> (e: usize)
    requires
        pos <= bytes@.len(),
    ensures
        e == newlines_end(bytes@, pos as int),
        pos <= e <= bytes@.len(),
{
    let mut p: usize = pos;
    while p < bytes.len()
        invariant_except_break
            pos <= p <= bytes@.len(),
            newlines_end(bytes@, p as int) == newlines_end(bytes@, pos as int),
        ensures
            pos <= p <= bytes@.len(),
            p == newlines_end(bytes@, pos as int),
        decreases bytes@.len() - p,
    {
        if !is_newline(bytes[p]) {
            break;
        }
        p += 1;
    }
    p
}

/// The end of the letter at `pos`, if one stands there.
pub fn letter_end_at(bytes: &[u8], pos: usize, marks: bool) -> (r: Option<usize>)
    requires
        pos <= bytes@.len(),
    ensures
        r is Some <==> pos < bytes@.len() && class_at(bytes@, pos as int, marks)
            == CharClass::Letter,
        r matches Some(e) ==> e == char_end(bytes@, pos as int) && pos < e <= bytes@.len(),
{
    if pos < bytes.len() {
        let (k, e) = char_at(bytes, pos, marks);
        if k == CharClass::Letter {
            return Some(e);
        }
    }
    None
}

} // verus!
