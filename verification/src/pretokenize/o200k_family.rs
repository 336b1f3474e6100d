//! The o200k family of schemes: o200k, Nemotron and Kimi. Their patterns
//! share the shape
//!
//! `[\p{Han}]+|P?U*L+C?|P?U+L*C?|\p{N}{1,3} or \p{N}|
//!  ?[^\s\p{L}\p{N}]+[\r\n/]*|\s*[\r\n]+|\s+(?!\S)|\s+`
//!
//! with the prefix `P = [^\r\n\p{L}\p{N}]`, the upper part
//! `U = [\p{Lu}\p{Lt}\p{Lm}\p{Lo}\p{M}]`, the lower part
//! `L = [\p{Ll}\p{Lm}\p{Lo}\p{M}]` and the contractions
//! `C = (?i:'s|'t|'re|'ve|'m|'ll|'d)`.
use crate::pretokenize::chars::{
    char_at, char_cp, char_end, class_at, decode_cp, lemma_char_len, lemma_run_end, newline,
    run_end, scan_other_from,
};
use crate::pretokenize::cl100k_family::{digit_token_end, digits_alt, lemma_numbers_end};
use crate::pretokenize::unicode::{
    cp_word_part, is_han, is_han_cp, word_part_of, CharClass, WordPart,
};
use crate::pretokenize::words::{
    contraction_nocase, contraction_nocase_end, lemma_ws_token_end, scan_ws_token, ws_token_end,
};
use vstd::prelude::*;

verus! {

/// What the schemes of the family differ in.
#[derive(Clone, Copy, Debug, PartialEq, Eq, Structural)]
pub struct O200kRules {
    /// Words take a contraction suffix.
    pub contractions: bool,
    /// `\p{N}{1,3}` rather than `\p{N}`.
    pub digits3: bool,
    /// The tail of a punctuation run takes `/` besides newlines.
    pub slash: bool,
    /// Han runs are tokens of their own and take no part in words.
    pub han: bool,
}

/// The part that the character at `p` can take in a cased word.
pub open spec fn part_at(s: Seq<u8>, p: int, han: bool) -> WordPart {
    let b = s[p];
    if 0x41 <= b <= 0x5a {
        WordPart::Upper
    } else if 0x61 <= b <= 0x7a {
        WordPart::Lower
    } else if b < 0x80 {
        WordPart::No
    } else {
        cp_word_part(char_cp(s, p), han)
    }
}

/// Whether a character can stand in the upper (or else the lower) part.
pub open spec fn in_part(w: WordPart, upper: bool) -> bool {
    w == WordPart::Either || w == (if upper {
        WordPart::Upper
    } else {
        WordPart::Lower
    })
}

/// `U*` or `L*` at `p`: the end of the longest run.
pub open spec fn part_end(s: Seq<u8>, p: int, upper: bool, han: bool) -> int
    decreases s.len() - p,
{
    if 0 <= p < s.len() && in_part(part_at(s, p, han), upper) {
        part_end(s, char_end(s, p), upper, han)
    } else {
        p
    }
}

/// The end of the last character from `p` to `end` that can stand in either
/// part, or `none` when there is none.
pub open spec fn last_either_end(s: Seq<u8>, p: int, end: int, han: bool, none: int) -> int
    decreases s.len() - p,
{
    if 0 <= p < end <= s.len() {
        last_either_end(
            s,
            char_end(s, p),
            end,
            han,
            if part_at(s, p, han) == WordPart::Either {
                char_end(s, p)
            } else {
                none
            },
        )
    } else {
        none
    }
}

/// `U*L+` at `q`: the upper run, then a lower run; where no lower-case letter
/// follows the upper run, the upper run gives back down to its last character
/// that can also stand in the lower part.
pub open spec fn upper_lower(s: Seq<u8>, q: int, han: bool) -> Option<int> {
    let u = part_end(s, q, true, han);
    let t = last_either_end(s, q, u, han, q);
    if u < s.len() && part_at(s, u, han) == WordPart::Lower {
        Some(part_end(s, u, false, han))
    } else if t > q {
        Some(t)
    } else {
        None
    }
}

/// `U+L*` at `q`.
pub open spec fn upper_only(s: Seq<u8>, q: int, han: bool) -> Option<int> {
    let u = part_end(s, q, true, han);
    if u > q {
        Some(part_end(s, u, false, han))
    } else {
        None
    }
}

/// The character at `p` can prefix a word: `[^\r\n\p{L}\p{N}]`.
pub open spec fn word_prefix(s: Seq<u8>, p: int) -> bool {
    class_at(s, p, false) != CharClass::Letter && class_at(s, p, false) != CharClass::Number
        && !newline(s[p])
}

/// `P?U*L+|P?U+L*` at `p`, without the contraction.
pub open spec fn word_alt(s: Seq<u8>, p: int, han: bool) -> Option<int> {
    let q = char_end(s, p);
    let prefixed = word_prefix(s, p);
    if prefixed && upper_lower(s, q, han) is Some {
        upper_lower(s, q, han)
    } else if upper_lower(s, p, han) is Some {
        upper_lower(s, p, han)
    } else if prefixed && upper_only(s, q, han) is Some {
        upper_only(s, q, han)
    } else {
        upper_only(s, p, han)
    }
}

/// The contraction suffix of a word that ends at `e`.
pub open spec fn with_contraction(s: Seq<u8>, e: int, contractions: bool) -> int {
    if contractions && e < s.len() && contraction_nocase(s, e) is Some {
        contraction_nocase(s, e)->0
    } else {
        e
    }
}

/// `[\r\n]*` or `[\r\n/]*` at `p`.
pub open spec fn tail_end(s: Seq<u8>, p: int, slash: bool) -> int
    decreases s.len() - p,
{
    if 0 <= p < s.len() && (newline(s[p]) || (slash && s[p] == 0x2f)) {
        tail_end(s, p + 1, slash)
    } else {
        p
    }
}

/// ` ?[^\s\p{L}\p{N}]+[\r\n/]*` at `p`.
pub open spec fn punct_tail_alt(s: Seq<u8>, p: int, slash: bool) -> Option<int> {
    let q = if s[p] == 0x20 {
        p + 1
    } else {
        p
    };
    if q < s.len() && class_at(s, q, false) == CharClass::Other {
        Some(tail_end(s, run_end(s, q, CharClass::Other, false), slash))
    } else {
        None
    }
}

/// The character at `p` is Han.
pub open spec fn han_at(s: Seq<u8>, p: int) -> bool {
    s[p] >= 0x80 && is_han_cp(char_cp(s, p))
}

/// `[\p{Han}]*` at `p`.
pub open spec fn han_end(s: Seq<u8>, p: int) -> int
    decreases s.len() - p,
{
    if 0 <= p < s.len() && han_at(s, p) {
        han_end(s, char_end(s, p))
    } else {
        p
    }
}

/// The end of the token that starts at `p`: the first alternative that
/// matches.
pub open spec fn o200k_token_end(s: Seq<u8>, p: int, r: O200kRules) -> int {
    if r.han && han_at(s, p) {
        han_end(s, p)
    } else if let Some(e) = word_alt(s, p, r.han) {
        with_contraction(s, e, r.contractions)
    } else if let Some(e) = digits_alt(s, p, r.digits3) {
        e
    } else if let Some(e) = punct_tail_alt(s, p, r.slash) {
        e
    } else {
        ws_token_end(s, p, false, false)
    }
}

pub proof fn lemma_part_end(s: Seq<u8>, p: int, upper: bool, han: bool)
    requires
        0 <= p <= s.len(),
    ensures
        p <= part_end(s, p, upper, han) <= s.len(),
    decreases s.len() - p,
{
    if p < s.len() && in_part(part_at(s, p, han), upper) {
        lemma_char_len(s, p);
        lemma_part_end(s, char_end(s, p), upper, han);
    }
}

pub proof fn lemma_last_either_end(s: Seq<u8>, p: int, end: int, han: bool, none: int)
    requires
        0 <= p <= end <= s.len(),
        none <= p,
    ensures
        none <= last_either_end(s, p, end, han, none) <= s.len(),
    decreases s.len() - p,
{
    if p < end {
        lemma_char_len(s, p);
        let q = char_end(s, p);
        let next = if part_at(s, p, han) == WordPart::Either {
            q
        } else {
            none
        };
        if q <= end {
            lemma_last_either_end(s, q, end, han, next);
        } else {
            assert(last_either_end(s, q, end, han, next) == next);
        }
    }
}

pub proof fn lemma_word_parts(s: Seq<u8>, q: int, han: bool)
    requires
        0 <= q <= s.len(),
    ensures
        upper_lower(s, q, han) matches Some(e) ==> q < e <= s.len(),
        upper_only(s, q, han) matches Some(e) ==> q < e <= s.len(),
{
    lemma_part_end(s, q, true, han);
    let u = part_end(s, q, true, han);
    lemma_part_end(s, u, false, han);
    lemma_last_either_end(s, q, u, han, q);
    if u < s.len() && part_at(s, u, han) == WordPart::Lower {
        lemma_char_len(s, u);
        lemma_part_end(s, char_end(s, u), false, han);
    }
}

pub proof fn lemma_tail_end(s: Seq<u8>, p: int, slash: bool)
    requires
        0 <= p <= s.len(),
    ensures
        p <= tail_end(s, p, slash) <= s.len(),
    decreases s.len() - p,
{
    if p < s.len() && (newline(s[p]) || (slash && s[p] == 0x2f)) {
        lemma_tail_end(s, p + 1, slash);
    }
}

pub proof fn lemma_han_end(s: Seq<u8>, p: int)
    requires
        0 <= p <= s.len(),
    ensures
        p <= han_end(s, p) <= s.len(),
    decreases s.len() - p,
{
    if p < s.len() && han_at(s, p) {
        lemma_char_len(s, p);
        lemma_han_end(s, char_end(s, p));
    }
}

/// A character with no part in a word, no number and no punctuation is
/// whitespace or a Han letter.
pub proof fn lemma_letter_has_part(s: Seq<u8>, p: int, han: bool)
    requires
        0 <= p < s.len(),
        class_at(s, p, false) == CharClass::Letter,
    ensures
        part_at(s, p, han) != WordPart::No || (han && han_at(s, p)),
        part_at(s, p, han) != WordPart::No ==> word_alt(s, p, han) is Some,
{
    let w = part_at(s, p, han);
    lemma_char_len(s, p);
    let q = char_end(s, p);
    lemma_part_end(s, q, true, han);
    if w == WordPart::Upper || w == WordPart::Either {
        assert(upper_only(s, p, han) is Some);
    }
    if w == WordPart::Lower {
        assert(upper_lower(s, p, han) is Some);
    }
}

/// A token makes progress and stays within the input.
pub proof fn lemma_o200k_token_end(s: Seq<u8>, p: int, r: O200kRules)
    requires
        0 <= p < s.len(),
    ensures
        p < o200k_token_end(s, p, r) <= s.len(),
        !(r.han && han_at(s, p)) && word_alt(s, p, r.han) is None && digits_alt(s, p, r.digits3)
            is None && punct_tail_alt(s, p, r.slash) is None ==> class_at(s, p, false)
            == CharClass::Whitespace,
{
    lemma_char_len(s, p);
    let q = char_end(s, p);
    lemma_han_end(s, q);
    lemma_word_parts(s, p, r.han);
    lemma_word_parts(s, q, r.han);
    lemma_numbers_end(s, q, 2);
    lemma_numbers_end(s, q, 0);
    if class_at(s, p, false) == CharClass::Letter {
        lemma_letter_has_part(s, p, r.han);
    }
    if class_at(s, p, false) == CharClass::Whitespace {
        lemma_ws_token_end(s, p, false, false);
    }
    let q2 = if s[p] == 0x20 {
        p + 1
    } else {
        p
    };
    if q2 < s.len() && class_at(s, q2, false) == CharClass::Other {
        lemma_char_len(s, q2);
        lemma_run_end(s, char_end(s, q2), CharClass::Other, false);
        lemma_tail_end(s, run_end(s, q2, CharClass::Other, false), r.slash);
    }
}

/// The part and end of the character at `pos`.
fn part_of(bytes: &[u8], pos: usize, han: bool) -> (r: (WordPart, usize))
    requires
        pos < bytes@.len(),
    ensures
        r.0 == part_at(bytes@, pos as int, han),
        r.1 == char_end(bytes@, pos as int),
        pos < r.1 <= bytes@.len(),
{
    let b: u8 = bytes[pos];
    if 0x41 <= b && b <= 0x5a {
        (WordPart::Upper, pos + 1)
    } else if 0x61 <= b && b <= 0x7a {
        (WordPart::Lower, pos + 1)
    } else if b < 0x80 {
        (WordPart::No, pos + 1)
    } else {
        let (cp, n) = decode_cp(bytes, pos);
        (word_part_of(cp, han), pos + n)
    }
}

/// `U*` or `L*`: the end of the longest run at `pos`.
fn scan_part(bytes: &[u8], pos: usize, upper: bool, han: bool) -> (e: usize)
    requires
        pos <= bytes@.len(),
    ensures
        e == part_end(bytes@, pos as int, upper, han),
        pos <= e <= bytes@.len(),
{
    let mut p: usize = pos;
    while p < bytes.len()
        invariant_except_break
            pos <= p <= bytes@.len(),
            part_end(bytes@, p as int, upper, han) == part_end(bytes@, pos as int, upper, han),
        ensures
            pos <= p <= bytes@.len(),
            p == part_end(bytes@, pos as int, upper, han),
        decreases bytes@.len() - p,
    {
        let (w, e) = part_of(bytes, p, han);
        let member: bool = w == WordPart::Either || (upper && w == WordPart::Upper) || (!upper && w
            == WordPart::Lower);
        if !member {
            break;
        }
        p = e;
    }
    p
}

/// The end of the last character of `pos..end` that can stand in either part,
/// or `pos`.
fn scan_last_either(bytes: &[u8], pos: usize, end: usize, han: bool) -> (t: usize)
    requires
        pos <= end <= bytes@.len(),
    ensures
        t == last_either_end(bytes@, pos as int, end as int, han, pos as int),
        pos <= t <= bytes@.len(),
{
    let mut p: usize = pos;
    let mut t: usize = pos;
    proof {
        lemma_last_either_end(bytes@, pos as int, end as int, han, pos as int);
    }
    while p < end
        invariant
            pos <= p <= bytes@.len(),
            pos <= t <= bytes@.len(),
            end <= bytes@.len(),
            last_either_end(bytes@, p as int, end as int, han, t as int) == last_either_end(
                bytes@,
                pos as int,
                end as int,
                han,
                pos as int,
            ),
        decreases bytes@.len() - p,
    {
        let (w, e) = part_of(bytes, p, han);
        if w == WordPart::Either {
            t = e;
        }
        p = e;
    }
    t
}

/// `U*L+` at `pos`.
fn scan_upper_lower(bytes: &[u8], pos: usize, han: bool) -> (r: Option<usize>)
    requires
        pos <= bytes@.len(),
    ensures
        match r {
            Some(e) => upper_lower(bytes@, pos as int, han) == Some(e as int) && pos < e
                <= bytes@.len(),
            None => upper_lower(bytes@, pos as int, han) is None,
        },
{
    proof {
        lemma_word_parts(bytes@, pos as int, han);
    }
    let u: usize = scan_part(bytes, pos, true, han);
    if u < bytes.len() {
        let (w, _) = part_of(bytes, u, han);
        if w == WordPart::Lower {
            return Some(scan_part(bytes, u, false, han));
        }
    }
    let t: usize = scan_last_either(bytes, pos, u, han);
    if t > pos {
        Some(t)
    } else {
        None
    }
}

/// `U+L*` at `pos`.
fn scan_upper_only(bytes: &[u8], pos: usize, han: bool) -> (r: Option<usize>)
    requires
        pos <= bytes@.len(),
    ensures
        match r {
            Some(e) => upper_only(bytes@, pos as int, han) == Some(e as int) && pos < e
                <= bytes@.len(),
            None => upper_only(bytes@, pos as int, han) is None,
        },
{
    proof {
        lemma_word_parts(bytes@, pos as int, han);
    }
    let u: usize = scan_part(bytes, pos, true, han);
    if u > pos {
        Some(scan_part(bytes, u, false, han))
    } else {
        None
    }
}

/// `P?U*L+|P?U+L*` at `pos`, without the contraction.
fn scan_word(bytes: &[u8], pos: usize, han: bool) -> (r: Option<usize>)
    requires
        pos < bytes@.len(),
    ensures
        match r {
            Some(e) => word_alt(bytes@, pos as int, han) == Some(e as int) && pos < e
                <= bytes@.len(),
            None => word_alt(bytes@, pos as int, han) is None,
        },
{
    let b0: u8 = bytes[pos];
    let (c, q) = char_at(bytes, pos, false);
    let prefixed: bool = c != CharClass::Letter && c != CharClass::Number && b0 != 0x0d && b0
        != 0x0a;
    if prefixed {
        let r = scan_upper_lower(bytes, q, han);
        if r.is_some() {
            return r;
        }
    }
    let r = scan_upper_lower(bytes, pos, han);
    if r.is_some() {
        return r;
    }
    if prefixed {
        let r = scan_upper_only(bytes, q, han);
        if r.is_some() {
            return r;
        }
    }
    scan_upper_only(bytes, pos, han)
}

/// `[\r\n]*` or `[\r\n/]*` at `pos`.
fn scan_tail(bytes: &[u8], pos: usize, slash: bool) -> (e: usize)
    requires
        pos <= bytes@.len(),
    ensures
        e == tail_end(bytes@, pos as int, slash),
        pos <= e <= bytes@.len(),
{
    let mut p: usize = pos;
    while p < bytes.len()
        invariant_except_break
            pos <= p <= bytes@.len(),
            tail_end(bytes@, p as int, slash) == tail_end(bytes@, pos as int, slash),
        ensures
            pos <= p <= bytes@.len(),
            p == tail_end(bytes@, pos as int, slash),
        decreases bytes@.len() - p,
    {
        let b: u8 = bytes[p];
        if b != 0x0d && b != 0x0a && !(slash && b == 0x2f) {
            break;
        }
        p += 1;
    }
    p
}

/// `[\p{Han}]*` at `pos`.
fn scan_han(bytes: &[u8], pos: usize) -> (e: usize)
    requires
        pos <= bytes@.len(),
    ensures
        e == han_end(bytes@, pos as int),
        pos <= e <= bytes@.len(),
{
    let mut p: usize = pos;
    while p < bytes.len()
        invariant_except_break
            pos <= p <= bytes@.len(),
            han_end(bytes@, p as int) == han_end(bytes@, pos as int),
        ensures
            pos <= p <= bytes@.len(),
            p == han_end(bytes@, pos as int),
        decreases bytes@.len() - p,
    {
        if bytes[p] < 0x80 {
            break;
        }
        let (cp, n) = decode_cp(bytes, p);
        if !is_han(cp) {
            break;
        }
        p += n;
    }
    p
}

/// The end of the token that starts at `pos`.
pub fn advance_pos(bytes: &[u8], pos: usize, r: O200kRules) -> (e: usize)
    requires
        pos < bytes@.len(),
    ensures
        e == o200k_token_end(bytes@, pos as int, r),
        pos < e <= bytes@.len(),
{
    proof {
        lemma_o200k_token_end(bytes@, pos as int, r);
    }
    let b0: u8 = bytes[pos];
    if r.han {
        let e: usize = scan_han(bytes, pos);
        if e > pos {
            return e;
        }
    }
    if let Some(e) = scan_word(bytes, pos, r.han) {
        if r.contractions && e < bytes.len() {
            if let Some(c) = contraction_nocase_end(bytes, e) {
                return c;
            }
        }
        return e;
    }
    let (c, q) = char_at(bytes, pos, false);
    if c == CharClass::Number {
        return digit_token_end(bytes, q, r.digits3);
    }
    let o: usize = if b0 == 0x20 {
        pos + 1
    } else {
        pos
    };
    if o < bytes.len() {
        let (k, _) = char_at(bytes, o, false);
        if k == CharClass::Other {
            let e: usize = scan_other_from(bytes, o, false);
            return scan_tail(bytes, e, r.slash);
        }
    }
    scan_ws_token(bytes, pos, false, false)
}

} // verus!
