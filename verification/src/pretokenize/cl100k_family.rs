//! The cl100k family of schemes: cl100k, Olmo 3, Qwen 2 and Qwen 3.5. Their
//! patterns share the shape
//!
//! `'(?i:[sdmt]|ll|ve|re)|[^\r\n\p{L}\p{N}]?\p{L}+|\p{N}{1,3} or \p{N}|
//!  ?[^\s\p{L}\p{N}]+[\r\n]*|\s*[\r\n]+|\s+(?!\S)|\s+`
use crate::pretokenize::chars::{
    char_at, char_end, class_at, lemma_char_len, lemma_run_end, newline, newlines_end,
    numbers_end, run_end, scan_letters_from, scan_newlines, scan_numbers_max3, scan_other_from,
    letter_end_at,
};
use crate::pretokenize::unicode::CharClass;
use crate::pretokenize::words::{
    contraction_nocase, contraction_nocase_end, lemma_ws_token_end, scan_ws_token, ws_token_end,
};
use vstd::prelude::*;

verus! {

/// What the schemes of the family differ in.
#[derive(Clone, Copy, Debug, PartialEq, Eq, Structural)]
pub struct Cl100kRules {
    /// `\p{N}{1,3}` rather than `\p{N}`.
    pub digits3: bool,
    /// Whitespace that ends the input stays one token (`\s+$`).
    pub eos_ws_whole: bool,
    /// `\p{M}` joins letter runs.
    pub marks_join: bool,
}

/// `[^\r\n\p{L}\p{N}]?\p{L}+` at `p`.
pub open spec fn letters_alt(s: Seq<u8>, p: int, marks: bool) -> Option<int> {
    let c = class_at(s, p, marks);
    let q = char_end(s, p);
    if c == CharClass::Letter {
        Some(run_end(s, p, CharClass::Letter, marks))
    } else if c != CharClass::Number && !newline(s[p]) && q < s.len() && class_at(s, q, marks)
        == CharClass::Letter {
        Some(run_end(s, q, CharClass::Letter, marks))
    } else {
        None
    }
}

/// `\p{N}{1,3}` or `\p{N}` at `p`.
pub open spec fn digits_alt(s: Seq<u8>, p: int, digits3: bool) -> Option<int> {
    if class_at(s, p, false) == CharClass::Number {
        Some(
            numbers_end(
                s,
                p,
                if digits3 {
                    3
                } else {
                    1
                },
            ),
        )
    } else {
        None
    }
}

/// ` ?[^\s\p{L}\p{N}]+[\r\n]*` at `p`.
pub open spec fn punct_alt(s: Seq<u8>, p: int, marks: bool) -> Option<int> {
    let q = if s[p] == 0x20 {
        p + 1
    } else {
        p
    };
    if q < s.len() && class_at(s, q, marks) == CharClass::Other {
        Some(newlines_end(s, run_end(s, q, CharClass::Other, marks)))
    } else {
        None
    }
}

/// The end of the token that starts at `p`: the first alternative that
/// matches.
pub open spec fn family_token_end(s: Seq<u8>, p: int, r: Cl100kRules) -> int {
    if let Some(e) = contraction_nocase(s, p) {
        e
    } else if let Some(e) = letters_alt(s, p, r.marks_join) {
        e
    } else if let Some(e) = digits_alt(s, p, r.digits3) {
        e
    } else if let Some(e) = punct_alt(s, p, r.marks_join) {
        e
    } else {
        ws_token_end(s, p, r.marks_join, r.eos_ws_whole)
    }
}

/// Newline runs end within the input.
pub proof fn lemma_newlines_end(s: Seq<u8>, p: int)
    requires
        0 <= p <= s.len(),
    ensures
        p <= newlines_end(s, p) <= s.len(),
    decreases s.len() - p,
{
    if p < s.len() && newline(s[p]) {
        lemma_newlines_end(s, p + 1);
    }
}

/// Number runs end within the input.
pub proof fn lemma_numbers_end(s: Seq<u8>, p: int, left: nat)
    requires
        0 <= p <= s.len(),
    ensures
        p <= numbers_end(s, p, left) <= s.len(),
    decreases left,
{
    if left > 0 && p < s.len() && class_at(s, p, false) == CharClass::Number {
        lemma_char_len(s, p);
        lemma_numbers_end(s, char_end(s, p), (left - 1) as nat);
    }
}

/// Whether a character is a number does not depend on where marks belong,
/// unless it is a mark.
pub proof fn lemma_number_class(s: Seq<u8>, p: int, marks: bool)
    ensures
        class_at(s, p, false) == CharClass::Number <==> class_at(s, p, marks) == CharClass::Number,
{
}

/// A token makes progress and stays within the input.
pub proof fn lemma_family_token_end(s: Seq<u8>, p: int, r: Cl100kRules)
    requires
        0 <= p < s.len(),
    ensures
        p < family_token_end(s, p, r) <= s.len(),
{
    let m = r.marks_join;
    lemma_char_len(s, p);
    lemma_number_class(s, p, m);
    let q = char_end(s, p);
    lemma_run_end(s, q, CharClass::Letter, m);
    if q < s.len() {
        lemma_char_len(s, q);
        lemma_run_end(s, char_end(s, q), CharClass::Letter, m);
    }
    lemma_numbers_end(s, q, 2);
    lemma_numbers_end(s, q, 0);
    if class_at(s, p, m) == CharClass::Whitespace {
        lemma_ws_token_end(s, p, m, r.eos_ws_whole);
    }
    let q2 = if s[p] == 0x20 {
        p + 1
    } else {
        p
    };
    if q2 < s.len() && class_at(s, q2, m) == CharClass::Other {
        lemma_char_len(s, q2);
        lemma_run_end(s, char_end(s, q2), CharClass::Other, m);
        lemma_newlines_end(s, run_end(s, q2, CharClass::Other, m));
    }
}

/// `\p{N}{1,3}` or `\p{N}` whose first character ends at `first_end`.
pub fn digit_token_end(bytes: &[u8], first_end: usize, digits3: bool) -> (e: usize)
    requires
        first_end <= bytes@.len(),
    ensures
        e == numbers_end(
            bytes@,
            first_end as int,
            if digits3 {
                2
            } else {
                0
            },
        ),
        first_end <= e <= bytes@.len(),
{
    if digits3 {
        scan_numbers_max3(bytes, first_end, 1)
    } else {
        first_end
    }
}

/// The end of the token that starts at `pos`.
pub fn advance_pos(bytes: &[u8], pos: usize, r: Cl100kRules) -> (e: usize)
    requires
        pos < bytes@.len(),
    ensures
        e == family_token_end(bytes@, pos as int, r),
        pos < e <= bytes@.len(),
{
    let m: bool = r.marks_join;
    proof {
        lemma_family_token_end(bytes@, pos as int, r);
        lemma_number_class(bytes@, pos as int, m);
    }
    let b0: u8 = bytes[pos];
    let (c, q) = char_at(bytes, pos, m);
    if c == CharClass::Letter {
        return scan_letters_from(bytes, pos, m);
    }
    if b0 == 0x27 {
        if let Some(e) = contraction_nocase_end(bytes, pos) {
            return e;
        }
    }
    if c == CharClass::Number {
        return digit_token_end(bytes, q, r.digits3);
    }
    // Any other character except a newline may prefix a letter run.
    if b0 != 0x0d && b0 != 0x0a {
        if letter_end_at(bytes, q, m).is_some() {
            return scan_letters_from(bytes, q, m);
        }
    }
    // Punctuation takes one leading space and trailing newlines.
    let o: usize = if b0 == 0x20 {
        pos + 1
    } else {
        pos
    };
    if o < bytes.len() {
        let (k, _) = char_at(bytes, o, m);
        if k == CharClass::Other {
            let e: usize = scan_other_from(bytes, o, m);
            return scan_newlines(bytes, e);
        }
    }
    scan_ws_token(bytes, pos, m, r.eos_ws_whole)
}

} // verus!
