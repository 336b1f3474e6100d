//! The GPT-2 scheme:
//! `'(?:[sdmt]|ll|ve|re)| ?\p{L}+| ?\p{N}+| ?[^\s\p{L}\p{N}]+|\s+(?!\S)|\s+`
use crate::pretokenize::chars::{
    char_at, class_at, lemma_run_end, run_end, scan_run,
};
use crate::pretokenize::chars::{char_end, lemma_char_len};
use crate::pretokenize::unicode::CharClass;
use crate::pretokenize::words::{contraction, contraction_end};
use vstd::prelude::*;

verus! {

/// A byte that continues a multi-byte character.
pub open spec fn continuation(b: u8) -> bool {
    0x80 <= b < 0xC0
}

/// The last position in `lo..=i` that holds no continuation byte, or `lo`.
pub open spec fn back_to_lead(s: Seq<u8>, lo: int, i: int) -> int
    decreases i - lo,
{
    if i > lo && continuation(s[i]) {
        back_to_lead(s, lo, i - 1)
    } else {
        i
    }
}

/// `\s+(?!\S)|\s+` at `p`: a whitespace run leaves its last character to what
/// follows, unless that is all there is or nothing follows.
pub open spec fn r50k_ws_end(s: Seq<u8>, p: int) -> int {
    let w = run_end(s, p, CharClass::Whitespace, false);
    let last = back_to_lead(s, p, w - 1);
    if w < s.len() && last > p {
        last
    } else {
        w
    }
}

/// The end of the token that starts at `p`.
pub open spec fn r50k_token_end(s: Seq<u8>, p: int) -> int {
    let q = if s[p] == 0x20 && p + 1 < s.len() {
        p + 1
    } else {
        p
    };
    if let Some(e) = contraction(s, p) {
        e
    } else if class_at(s, q, false) == CharClass::Whitespace {
        r50k_ws_end(s, p)
    } else {
        run_end(s, q, class_at(s, q, false), false)
    }
}

/// `back_to_lead` stays in its range.
pub proof fn lemma_back_to_lead(s: Seq<u8>, lo: int, i: int)
    requires
        lo <= i,
    ensures
        lo <= back_to_lead(s, lo, i) <= i,
    decreases i - lo,
{
    if i > lo && continuation(s[i]) {
        lemma_back_to_lead(s, lo, i - 1);
    }
}

/// A token makes progress and stays within the input.
pub proof fn lemma_r50k_token_end(s: Seq<u8>, p: int)
    requires
        0 <= p < s.len(),
    ensures
        p < r50k_token_end(s, p) <= s.len(),
{
    let q = if s[p] == 0x20 && p + 1 < s.len() {
        p + 1
    } else {
        p
    };
    let c = class_at(s, q, false);
    lemma_char_len(s, q);
    lemma_run_end(s, char_end(s, q), c, false);
    if c == CharClass::Whitespace {
        lemma_char_len(s, p);
        lemma_run_end(s, char_end(s, p), c, false);
        let w = run_end(s, p, c, false);
        lemma_back_to_lead(s, p, w - 1);
    }
}

/// Whitespace from `token_start`, where the run is known to reach `scan_pos`.
fn advance_ws(bytes: &[u8], token_start: usize) -> (e: usize)
    requires
        token_start < bytes@.len(),
        class_at(bytes@, token_start as int, false) == CharClass::Whitespace,
    ensures
        e == r50k_ws_end(bytes@, token_start as int),
        token_start < e <= bytes@.len(),
{
    let p: usize = scan_run(bytes, token_start, CharClass::Whitespace, false);
    proof {
        lemma_char_len(bytes@, token_start as int);
        lemma_run_end(bytes@, char_end(bytes@, token_start as int), CharClass::Whitespace, false);
        lemma_back_to_lead(bytes@, token_start as int, p - 1);
    }
    if p < bytes.len() {
        let mut last: usize = p - 1;
        while last > token_start && bytes[last] & 0xC0 == 0x80
            invariant
                token_start <= last < p <= bytes@.len(),
                back_to_lead(bytes@, token_start as int, last as int) == back_to_lead(
                    bytes@,
                    token_start as int,
                    p - 1,
                ),
            decreases last,
        {
            proof {
                lemma_continuation(bytes@[last as int]);
            }
            last -= 1;
        }
        proof {
            lemma_continuation(bytes@[last as int]);
        }
        if last > token_start {
            return last;
        }
    }
    p
}

/// The bit test for a continuation byte.
pub proof fn lemma_continuation(b: u8)
    ensures
        (b & 0xC0 == 0x80) <==> continuation(b),
{
    assert((b & 0xC0 == 0x80) <==> (0x80 <= b && b < 0xC0)) by (bit_vector);
}

/// The end of the token that starts at `start`.
pub fn advance_pos(bytes: &[u8], start: usize) -> (e: usize)
    requires
        start < bytes@.len(),
    ensures
        e == r50k_token_end(bytes@, start as int),
        start < e <= bytes@.len(),
{
    proof {
        lemma_r50k_token_end(bytes@, start as int);
    }
    let b0: u8 = bytes[start];
    if b0 == 0x27 {
        if let Some(e) = contraction_end(bytes, start) {
            return e;
        }
    }
    let q: usize = if b0 == 0x20 && start + 1 < bytes.len() {
        start + 1
    } else {
        start
    };
    let (c, _) = char_at(bytes, q, false);
    if c == CharClass::Whitespace {
        return advance_ws(bytes, start);
    }
    scan_run(bytes, q, c, false)
}

} // verus!
