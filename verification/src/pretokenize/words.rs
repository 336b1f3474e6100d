//! Pattern parts that several schemes share: contractions and whitespace.
use crate::pretokenize::chars::{
    char_at, char_end, class_at, lemma_char_len, lemma_run_end, newline, run_end,
};
use crate::pretokenize::unicode::CharClass;
use vstd::prelude::*;

verus! {

/// ASCII lower case.
pub open spec fn lower(b: u8) -> u8 {
    if 0x41 <= b <= 0x5a {
        (b + 32) as u8
    } else {
        b
    }
}

/// `b` in ASCII lower case.
pub fn to_lower(b: u8) -> (r: u8)
    ensures
        r == lower(b),
{
    if 0x41 <= b && b <= 0x5a {
        b + 32
    } else {
        b
    }
}

/// One of `s`, `d`, `m`, `t`.
pub open spec fn one_letter_suffix(b: u8) -> bool {
    b == 0x73 || b == 0x64 || b == 0x6d || b == 0x74
}

/// One of `ll`, `ve`, `re`.
pub open spec fn two_letter_suffix(b: u8, c: u8) -> bool {
    (b == 0x6c && c == 0x6c) || (b == 0x76 && c == 0x65) || (b == 0x72 && c == 0x65)
}

/// `'(?:[sdmt]|ll|ve|re)`: the end of the contraction at `p`.
pub open spec fn contraction(s: Seq<u8>, p: int) -> Option<int> {
    if s[p] != 0x27 {
        None
    } else if p + 1 < s.len() && one_letter_suffix(s[p + 1]) {
        Some(p + 2)
    } else if p + 2 < s.len() && two_letter_suffix(s[p + 1], s[p + 2]) {
        Some(p + 3)
    } else {
        None
    }
}

/// `'(?i:[sdmt]|ll|ve|re)`: the end of the contraction at `p`; U+017F folds
/// to `s`.
pub open spec fn contraction_nocase(s: Seq<u8>, p: int) -> Option<int> {
    if s[p] != 0x27 {
        None
    } else if p + 1 < s.len() && one_letter_suffix(lower(s[p + 1])) {
        Some(p + 2)
    } else if p + 2 < s.len() && two_letter_suffix(lower(s[p + 1]), lower(s[p + 2])) {
        Some(p + 3)
    } else if p + 2 < s.len() && s[p + 1] == 0xC5 && s[p + 2] == 0xBF {
        Some(p + 3)
    } else {
        None
    }
}

fn is_one_letter_suffix(b: u8) -> (r: bool)
    ensures
        r == one_letter_suffix(b),
{
    b == 0x73 || b == 0x64 || b == 0x6d || b == 0x74
}

fn is_two_letter_suffix(b: u8, c: u8) -> (r: bool)
    ensures
        r == two_letter_suffix(b, c),
{
    (b == 0x6c && c == 0x6c) || (b == 0x76 && c == 0x65) || (b == 0x72 && c == 0x65)
}

/// The end of the contraction at `pos`, case-sensitive.
pub fn contraction_end(bytes: &[u8], pos: usize) -> (r: Option<usize>)
    requires
        pos < bytes@.len(),
    ensures
        match r {
            Some(e) => contraction(bytes@, pos as int) == Some(e as int) && pos < e <= bytes@.len(),
            None => contraction(bytes@, pos as int) is None,
        },
{
    let n: usize = bytes.len() - pos;
    if bytes[pos] != 0x27 {
        return None;
    }
    if n > 1 && is_one_letter_suffix(bytes[pos + 1]) {
        return Some(pos + 2);
    }
    if n > 2 && is_two_letter_suffix(bytes[pos + 1], bytes[pos + 2]) {
        return Some(pos + 3);
    }
    None
}

/// The end of the contraction at `pos`, ignoring case.
pub fn contraction_nocase_end(bytes: &[u8], pos: usize) -> (r: Option<usize>)
    requires
        pos < bytes@.len(),
    ensures
        match r {
            Some(e) => contraction_nocase(bytes@, pos as int) == Some(e as int) && pos < e
                <= bytes@.len(),
            None => contraction_nocase(bytes@, pos as int) is None,
        },
{
    let n: usize = bytes.len() - pos;
    if bytes[pos] != 0x27 {
        return None;
    }
    if n > 1 && is_one_letter_suffix(to_lower(bytes[pos + 1])) {
        return Some(pos + 2);
    }
    if n > 2 && is_two_letter_suffix(to_lower(bytes[pos + 1]), to_lower(bytes[pos + 2])) {
        return Some(pos + 3);
    }
    if n > 2 && bytes[pos + 1] == 0xC5 && bytes[pos + 2] == 0xBF {
        return Some(pos + 3);
    }
    None
}

/// The end of the last newline character among the characters from `p` to
/// `end`, or `none` when there is none.
pub open spec fn last_newline_end(s: Seq<u8>, p: int, end: int, none: int) -> int
    decreases s.len() - p,
{
    if 0 <= p < end <= s.len() {
        last_newline_end(
            s,
            char_end(s, p),
            end,
            if newline(s[p]) {
                char_end(s, p)
            } else {
                none
            },
        )
    } else {
        none
    }
}

/// The start of the last character among the characters from `p` to `end`,
/// or `none` when there is none.
pub open spec fn last_char_start(s: Seq<u8>, p: int, end: int, none: int) -> int
    decreases s.len() - p,
{
    if 0 <= p < end <= s.len() {
        last_char_start(s, char_end(s, p), end, p)
    } else {
        none
    }
}

/// `\s*[\r\n]+ | \s+(?!\S) | \s+` at `p`, in that priority: a whitespace run
/// ends after its last newline; without one it leaves its last character to
/// what follows, unless that is all there is or nothing follows. With `whole`,
/// `\s+$` comes first: whitespace that ends the input is one token.
pub open spec fn ws_token_end(s: Seq<u8>, p: int, marks: bool, whole: bool) -> int {
    let w = run_end(s, p, CharClass::Whitespace, marks);
    let nl = last_newline_end(s, p, w, 0);
    let last = last_char_start(s, p, w, p);
    if whole && w >= s.len() {
        w
    } else if nl != 0 {
        nl
    } else if w >= s.len() {
        w
    } else if last > p {
        last
    } else {
        w
    }
}

/// Where the last newline and the last character of a run can stand.
pub proof fn lemma_last_bounds(s: Seq<u8>, p: int, end: int, none: int)
    requires
        0 <= p <= end <= s.len(),
    ensures
        last_newline_end(s, p, end, none) == none || p < last_newline_end(s, p, end, none)
            <= s.len(),
        last_char_start(s, p, end, none) == none || p <= last_char_start(s, p, end, none) < end,
    decreases end - p,
{
    if p < end {
        lemma_char_len(s, p);
        let q = char_end(s, p);
        if q <= end {
            lemma_last_bounds(
                s,
                q,
                end,
                if newline(s[p]) {
                    q
                } else {
                    none
                },
            );
            lemma_last_bounds(s, q, end, p);
        } else {
            assert(last_char_start(s, q, end, p) == p);
            assert(last_newline_end(s, q, end, q) == q);
            assert(last_newline_end(s, q, end, none) == none);
        }
    }
}

/// A whitespace token makes progress and stays within the input.
pub proof fn lemma_ws_token_end(s: Seq<u8>, p: int, marks: bool, whole: bool)
    requires
        0 <= p < s.len(),
        class_at(s, p, marks) == CharClass::Whitespace,
    ensures
        p < ws_token_end(s, p, marks, whole) <= s.len(),
{
    lemma_char_len(s, p);
    lemma_run_end(s, p, CharClass::Whitespace, marks);
    lemma_run_end(s, char_end(s, p), CharClass::Whitespace, marks);
    let w = run_end(s, p, CharClass::Whitespace, marks);
    lemma_last_bounds(s, p, w, 0);
    lemma_last_bounds(s, p, w, p);
}

/// The end of the whitespace-led token at `start`.
pub fn scan_ws_token(bytes: &[u8], start: usize, marks: bool, whole: bool) -> (e: usize)
    requires
        start < bytes@.len(),
        class_at(bytes@, start as int, marks) == CharClass::Whitespace,
    ensures
        e == ws_token_end(bytes@, start as int, marks, whole),
        start < e <= bytes@.len(),
{
    let len: usize = bytes.len();
    let mut p: usize = start;
    let mut last_nl: usize = 0;
    let mut last_char: usize = start;
    let ghost w = run_end(bytes@, start as int, CharClass::Whitespace, marks);
    while p < len
        invariant_except_break
            start <= p <= len,
            start <= last_char <= p,
            last_nl <= p,
            len == bytes@.len(),
            w == run_end(bytes@, start as int, CharClass::Whitespace, marks),
            run_end(bytes@, p as int, CharClass::Whitespace, marks) == w,
            last_newline_end(bytes@, p as int, w, last_nl as int) == last_newline_end(
                bytes@,
                start as int,
                w,
                0,
            ),
            last_char_start(bytes@, p as int, w, last_char as int) == last_char_start(
                bytes@,
                start as int,
                w,
                start as int,
            ),
        ensures
            p == w,
            start <= p <= len,
            len == bytes@.len(),
            last_nl == last_newline_end(bytes@, start as int, w, 0),
            last_char == last_char_start(bytes@, start as int, w, start as int),
        decreases len - p,
    {
        let (k, e) = char_at(bytes, p, marks);
        if k != CharClass::Whitespace {
            break;
        }
        proof {
            lemma_run_end(bytes@, e as int, CharClass::Whitespace, marks);
        }
        last_char = p;
        if bytes[p] == 0x0d || bytes[p] == 0x0a {
            last_nl = e;
        }
        p = e;
    }
    proof {
        lemma_ws_token_end(bytes@, start as int, marks, whole);
    }
    if whole && p >= len {
        return p;
    }
    if last_nl != 0 {
        return last_nl;
    }
    if p >= len {
        return p;
    }
    if last_char > start {
        return last_char;
    }
    p
}

} // verus!
