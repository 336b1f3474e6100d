//! What a token depends on: the text from its start on, and of that only
//! what stands before the next word break.
use crate::pretokenize::chars::{
    char_cp, char_end, char_len, class_at, lead_len, lemma_char_len, lemma_run_end, newline,
    newlines_end, numbers_end, run_end,
};
use crate::pretokenize::cl100k_family::{family_token_end, Cl100kRules};
use crate::pretokenize::o200k_family::{
    han_at, han_end, in_part, last_either_end, lemma_part_end, lemma_word_parts, o200k_token_end,
    part_at, part_end, punct_tail_alt, tail_end, upper_lower, upper_only, with_contraction,
    word_alt, O200kRules,
};
use crate::pretokenize::r50k::{back_to_lead, continuation, r50k_token_end};
use crate::pretokenize::scheme::{
    lemma_token_end, scheme_rules, spans_from, token_end, PretokenizerType, SchemeRules,
};
use crate::pretokenize::unicode::{CharClass, WordPart};
use crate::pretokenize::words::{
    contraction, contraction_nocase, last_char_start, last_newline_end, ws_token_end,
};
use vstd::prelude::*;
use vstd::utf8::{length_of_first_scalar, pop_first_scalar, valid_utf8};

verus! {

// Tokens depend on the text from their start on.

/// One character, seen from a later origin.
proof fn lemma_char_shift(s: Seq<u8>, b: int, p: int)
    requires
        0 <= b <= s.len(),
        0 <= p < s.len() - b,
    ensures
        s.skip(b)[p] == s[b + p],
        char_len(s.skip(b), p) == char_len(s, b + p),
        char_cp(s.skip(b), p) == char_cp(s, b + p),
        char_end(s.skip(b), p) == char_end(s, b + p) - b,
        class_at(s.skip(b), p, false) == class_at(s, b + p, false),
        class_at(s.skip(b), p, true) == class_at(s, b + p, true),
{
}

proof fn lemma_run_shift(s: Seq<u8>, b: int, p: int, c: CharClass, m: bool)
    requires
        0 <= b <= s.len(),
        0 <= p <= s.len() - b,
    ensures
        run_end(s.skip(b), p, c, m) == run_end(s, b + p, c, m) - b,
    decreases s.len() - p,
{
    if p < s.len() - b {
        lemma_char_shift(s, b, p);
        lemma_char_len(s, b + p);
        if class_at(s, b + p, m) == c {
            lemma_run_shift(s, b, char_end(s.skip(b), p), c, m);
        }
    }
}

proof fn lemma_numbers_shift(s: Seq<u8>, b: int, p: int, left: nat)
    requires
        0 <= b <= s.len(),
        0 <= p <= s.len() - b,
    ensures
        numbers_end(s.skip(b), p, left) == numbers_end(s, b + p, left) - b,
    decreases left,
{
    if p < s.len() - b && left > 0 {
        lemma_char_shift(s, b, p);
        lemma_char_len(s, b + p);
        if class_at(s, b + p, false) == CharClass::Number {
            lemma_numbers_shift(s, b, char_end(s.skip(b), p), (left - 1) as nat);
        }
    }
}

proof fn lemma_newlines_shift(s: Seq<u8>, b: int, p: int)
    requires
        0 <= b <= s.len(),
        0 <= p <= s.len() - b,
    ensures
        newlines_end(s.skip(b), p) == newlines_end(s, b + p) - b,
    decreases s.len() - p,
{
    if p < s.len() - b && newline(s[b + p]) {
        lemma_newlines_shift(s, b, p + 1);
    }
}

proof fn lemma_tail_shift(s: Seq<u8>, b: int, p: int, slash: bool)
    requires
        0 <= b <= s.len(),
        0 <= p <= s.len() - b,
    ensures
        tail_end(s.skip(b), p, slash) == tail_end(s, b + p, slash) - b,
    decreases s.len() - p,
{
    if p < s.len() - b && (newline(s[b + p]) || (slash && s[b + p] == 0x2f)) {
        lemma_tail_shift(s, b, p + 1, slash);
    }
}

proof fn lemma_last_shift(s: Seq<u8>, b: int, p: int, e: int, none: int, none2: int)
    requires
        0 <= b <= s.len(),
        0 <= p <= s.len() - b,
        p <= e <= s.len() - b,
    ensures
        ({
            let x = last_newline_end(s.skip(b), p, e, none);
            let y = last_newline_end(s, b + p, b + e, none2);
            (x == none && y == none2) || (x == y - b && x > p)
        }),
    decreases s.len() - p,
{
    if p < e {
        lemma_char_shift(s, b, p);
        lemma_char_len(s, b + p);
        let q = char_end(s.skip(b), p);
        if q <= e {
            if newline(s[b + p]) {
                lemma_last_shift(s, b, q, e, q, b + q);
            } else {
                lemma_last_shift(s, b, q, e, none, none2);
            }
        } else {
            assert(last_newline_end(s.skip(b), q, e, none) == none);
            assert(last_newline_end(s, b + q, b + e, none2) == none2);
            assert(last_newline_end(s.skip(b), q, e, q) == q);
            assert(last_newline_end(s, b + q, b + e, b + q) == b + q);
        }
    }
}

proof fn lemma_last_char_shift(s: Seq<u8>, b: int, p: int, e: int, none: int)
    requires
        0 <= b <= s.len(),
        0 <= p <= s.len() - b,
        p <= e <= s.len() - b,
    ensures
        last_char_start(s.skip(b), p, e, none) == last_char_start(s, b + p, b + e, b + none) - b,
    decreases s.len() - p,
{
    if p < e {
        lemma_char_shift(s, b, p);
        lemma_char_len(s, b + p);
        let q = char_end(s.skip(b), p);
        if q <= e {
            lemma_last_char_shift(s, b, q, e, p);
        } else {
            assert(last_char_start(s.skip(b), q, e, p) == p);
            assert(last_char_start(s, b + q, b + e, b + p) == b + p);
        }
    }
}

proof fn lemma_ws_shift(s: Seq<u8>, b: int, p: int, m: bool, whole: bool)
    requires
        0 <= b <= s.len(),
        0 <= p < s.len() - b,
    ensures
        ws_token_end(s.skip(b), p, m, whole) == ws_token_end(s, b + p, m, whole) - b,
{
    lemma_run_shift(s, b, p, CharClass::Whitespace, m);
    lemma_run_end(s.skip(b), p, CharClass::Whitespace, m);
    let w = run_end(s.skip(b), p, CharClass::Whitespace, m);
    lemma_last_shift(s, b, p, w, 0, 0);
    lemma_last_char_shift(s, b, p, w, p);
}

proof fn lemma_back_shift(s: Seq<u8>, b: int, lo: int, i: int)
    requires
        0 <= b <= s.len(),
        0 <= lo <= i < s.len() - b,
    ensures
        back_to_lead(s.skip(b), lo, i) == back_to_lead(s, b + lo, b + i) - b,
    decreases i - lo,
{
    if i > lo && continuation(s[b + i]) {
        lemma_back_shift(s, b, lo, i - 1);
    }
}

proof fn lemma_part_shift(s: Seq<u8>, b: int, p: int, upper: bool, han: bool)
    requires
        0 <= b <= s.len(),
        0 <= p <= s.len() - b,
    ensures
        part_end(s.skip(b), p, upper, han) == part_end(s, b + p, upper, han) - b,
    decreases s.len() - p,
{
    if p < s.len() - b {
        lemma_char_shift(s, b, p);
        lemma_char_len(s, b + p);
        if in_part(part_at(s, b + p, han), upper) {
            lemma_part_shift(s, b, char_end(s.skip(b), p), upper, han);
        }
    }
}

proof fn lemma_either_shift(s: Seq<u8>, b: int, p: int, e: int, han: bool, none: int)
    requires
        0 <= b <= s.len(),
        0 <= p <= s.len() - b,
        p <= e <= s.len() - b,
    ensures
        last_either_end(s.skip(b), p, e, han, none) == last_either_end(
            s,
            b + p,
            b + e,
            han,
            b + none,
        ) - b,
    decreases s.len() - p,
{
    if p < e {
        lemma_char_shift(s, b, p);
        lemma_char_len(s, b + p);
        let q = char_end(s.skip(b), p);
        let next = if part_at(s, b + p, han) == WordPart::Either {
            q
        } else {
            none
        };
        if q <= e {
            lemma_either_shift(s, b, q, e, han, next);
        } else {
            assert(last_either_end(s.skip(b), q, e, han, next) == next);
            assert(last_either_end(s, b + q, b + e, han, b + next) == b + next);
        }
    }
}

proof fn lemma_words_shift(s: Seq<u8>, b: int, q: int, han: bool)
    requires
        0 <= b <= s.len(),
        0 <= q <= s.len() - b,
    ensures
        upper_lower(s.skip(b), q, han) is Some <==> upper_lower(s, b + q, han) is Some,
        upper_lower(s.skip(b), q, han) matches Some(e) ==> upper_lower(s, b + q, han) == Some(b + e),
        upper_only(s.skip(b), q, han) is Some <==> upper_only(s, b + q, han) is Some,
        upper_only(s.skip(b), q, han) matches Some(e) ==> upper_only(s, b + q, han) == Some(b + e),
{
    lemma_part_shift(s, b, q, true, han);
    lemma_part_end(s.skip(b), q, true, han);
    let u = part_end(s.skip(b), q, true, han);
    lemma_part_shift(s, b, u, false, han);
    lemma_either_shift(s, b, q, u, han, q);
    if u < s.len() - b {
        lemma_char_shift(s, b, u);
    }
}

proof fn lemma_han_shift(s: Seq<u8>, b: int, p: int)
    requires
        0 <= b <= s.len(),
        0 <= p <= s.len() - b,
    ensures
        han_end(s.skip(b), p) == han_end(s, b + p) - b,
    decreases s.len() - p,
{
    if p < s.len() - b {
        lemma_char_shift(s, b, p);
        lemma_char_len(s, b + p);
        if han_at(s, b + p) {
            lemma_han_shift(s, b, char_end(s.skip(b), p));
        }
    }
}

proof fn lemma_contraction_shift(s: Seq<u8>, b: int, p: int)
    requires
        0 <= b <= s.len(),
        0 <= p < s.len() - b,
    ensures
        contraction(s.skip(b), p) is Some <==> contraction(s, b + p) is Some,
        contraction(s.skip(b), p) matches Some(e) ==> contraction(s, b + p) == Some(b + e),
        contraction_nocase(s.skip(b), p) is Some <==> contraction_nocase(s, b + p) is Some,
        contraction_nocase(s.skip(b), p) matches Some(e) ==> contraction_nocase(s, b + p) == Some(
            b + e,
        ),
{
}

proof fn lemma_family_shift(s: Seq<u8>, b: int, p: int, r: Cl100kRules)
    requires
        0 <= b <= s.len(),
        0 <= p < s.len() - b,
    ensures
        family_token_end(s.skip(b), p, r) == family_token_end(s, b + p, r) - b,
{
    let m = r.marks_join;
    lemma_char_shift(s, b, p);
    lemma_char_len(s, b + p);
    lemma_contraction_shift(s, b, p);
    let q = char_end(s.skip(b), p);
    lemma_run_shift(s, b, p, CharClass::Letter, m);
    lemma_run_shift(s, b, q, CharClass::Letter, m);
    if q < s.len() - b {
        lemma_char_shift(s, b, q);
    }
    lemma_numbers_shift(s, b, p, 3);
    lemma_numbers_shift(s, b, p, 1);
    let o = if s[b + p] == 0x20 {
        p + 1
    } else {
        p
    };
    if o < s.len() - b {
        lemma_char_shift(s, b, o);
        lemma_run_shift(s, b, o, CharClass::Other, m);
        lemma_run_end(s.skip(b), o, CharClass::Other, m);
        lemma_newlines_shift(s, b, run_end(s.skip(b), o, CharClass::Other, m));
    }
    lemma_ws_shift(s, b, p, m, r.eos_ws_whole);
}

proof fn lemma_r50k_shift(s: Seq<u8>, b: int, p: int)
    requires
        0 <= b <= s.len(),
        0 <= p < s.len() - b,
    ensures
        r50k_token_end(s.skip(b), p) == r50k_token_end(s, b + p) - b,
{
    lemma_char_shift(s, b, p);
    lemma_contraction_shift(s, b, p);
    let q = if s[b + p] == 0x20 && p + 1 < s.len() - b {
        p + 1
    } else {
        p
    };
    lemma_char_shift(s, b, q);
    lemma_run_shift(s, b, q, class_at(s, b + q, false), false);
    lemma_run_shift(s, b, p, CharClass::Whitespace, false);
    lemma_run_end(s.skip(b), p, CharClass::Whitespace, false);
    let w = run_end(s.skip(b), p, CharClass::Whitespace, false);
    if w > p {
        lemma_back_shift(s, b, p, w - 1);
    }
}

proof fn lemma_word_alt_shift(s: Seq<u8>, b: int, p: int, r: O200kRules)
    requires
        0 <= b <= s.len(),
        0 <= p < s.len() - b,
    ensures
        word_alt(s.skip(b), p, r.han) is Some <==> word_alt(s, b + p, r.han) is Some,
        word_alt(s.skip(b), p, r.han) matches Some(e) ==> {
            &&& word_alt(s, b + p, r.han) == Some(b + e)
            &&& with_contraction(s.skip(b), e, r.contractions) == with_contraction(
                s,
                b + e,
                r.contractions,
            ) - b
        },
{
    lemma_char_shift(s, b, p);
    lemma_char_len(s, b + p);
    let q = char_end(s.skip(b), p);
    lemma_words_shift(s, b, p, r.han);
    lemma_words_shift(s, b, q, r.han);
    lemma_word_parts(s.skip(b), p, r.han);
    lemma_word_parts(s.skip(b), q, r.han);
    if let Some(e) = word_alt(s.skip(b), p, r.han) {
        if e < s.len() - b {
            lemma_contraction_shift(s, b, e);
        }
    }
}

proof fn lemma_punct_tail_shift(s: Seq<u8>, b: int, p: int, slash: bool)
    requires
        0 <= b <= s.len(),
        0 <= p < s.len() - b,
    ensures
        punct_tail_alt(s.skip(b), p, slash) is Some <==> punct_tail_alt(s, b + p, slash) is Some,
        punct_tail_alt(s.skip(b), p, slash) matches Some(e) ==> punct_tail_alt(s, b + p, slash)
            == Some(b + e),
{
    let o = if s[b + p] == 0x20 {
        p + 1
    } else {
        p
    };
    if o < s.len() - b {
        lemma_char_shift(s, b, o);
        lemma_run_shift(s, b, o, CharClass::Other, false);
        lemma_run_end(s.skip(b), o, CharClass::Other, false);
        lemma_tail_shift(s, b, run_end(s.skip(b), o, CharClass::Other, false), slash);
    }
}

proof fn lemma_o200k_shift(s: Seq<u8>, b: int, p: int, r: O200kRules)
    requires
        0 <= b <= s.len(),
        0 <= p < s.len() - b,
    ensures
        o200k_token_end(s.skip(b), p, r) == o200k_token_end(s, b + p, r) - b,
{
    lemma_char_shift(s, b, p);
    lemma_han_shift(s, b, p);
    lemma_word_alt_shift(s, b, p, r);
    lemma_numbers_shift(s, b, p, 3);
    lemma_numbers_shift(s, b, p, 1);
    lemma_punct_tail_shift(s, b, p, r.slash);
    lemma_ws_shift(s, b, p, false, false);
}

/// A token does not depend on the text before it.
pub proof fn law_token_ignores_prefix(t: PretokenizerType, s: Seq<u8>, b: int, p: int)
    requires
        0 <= b <= s.len(),
        0 <= p < s.len() - b,
    ensures
        token_end(t, s.skip(b), p) == token_end(t, s, b + p) - b,
{
    match scheme_rules(t) {
        SchemeRules::R50k => lemma_r50k_shift(s, b, p),
        SchemeRules::Cl100k(r) => lemma_family_shift(s, b, p, r),
        SchemeRules::O200k(r) => lemma_o200k_shift(s, b, p, r),
    }
}

/// Spans seen from a later origin.
pub open spec fn shift_spans(v: Seq<(int, int)>, b: int) -> Seq<(int, int)> {
    Seq::new(v.len(), |i: int| (v[i].0 + b, v[i].1 + b))
}

/// The spans of a suffix are the spans of the whole from there on.
pub proof fn law_suffix_spans(t: PretokenizerType, s: Seq<u8>, b: int, p: int)
    requires
        0 <= b <= s.len(),
        0 <= p <= s.len() - b,
    ensures
        shift_spans(spans_from(t, s.skip(b), p), b) == spans_from(t, s, b + p),
    decreases s.len() - p,
{
    if p < s.len() - b {
        law_token_ignores_prefix(t, s, b, p);
        lemma_token_end(t, s, b + p);
        let e = token_end(t, s.skip(b), p);
        law_suffix_spans(t, s, b, e);
        let rest = spans_from(t, s.skip(b), e);
        assert(spans_from(t, s.skip(b), p) =~= seq![(p, e)] + rest);
        assert(spans_from(t, s, b + p) =~= seq![(b + p, b + e)] + spans_from(t, s, b + e));
        assert(shift_spans(seq![(p, e)] + rest, b) =~= seq![(b + p, b + e)] + shift_spans(rest, b));
    } else {
        assert(shift_spans(spans_from(t, s.skip(b), p), b) =~= spans_from(t, s, b + p));
    }
}

// Text made of whole characters.

/// No character of `s` is cut short and none is stray: each lead byte is
/// followed by exactly the continuation bytes it announces. Every valid UTF-8
/// text is like this.
pub open spec fn whole_chars(s: Seq<u8>) -> bool {
    &&& s.len() > 0 ==> !continuation(s[0])
    &&& forall|i: int| 0 <= i < s.len() && !continuation(s[i]) ==> #[trigger] whole_char(s, i)
}

/// The character at `i` is complete and ends where the next begins.
pub open spec fn whole_char(s: Seq<u8>, i: int) -> bool {
    let n = if s[i] < 0x80 {
        1
    } else {
        lead_len(s[i])
    };
    &&& i + n <= s.len()
    &&& n >= 2 ==> continuation(s[i + 1])
    &&& n >= 3 ==> continuation(s[i + 2])
    &&& n >= 4 ==> continuation(s[i + 3])
    &&& i + n < s.len() ==> !continuation(s[i + n])
}

/// Whole text without the two lead bytes that only overlong encodings use.
/// Every valid UTF-8 text is like this.
pub open spec fn well_encoded(s: Seq<u8>) -> bool {
    &&& whole_chars(s)
    &&& forall|i: int| 0 <= i < s.len() ==> #[trigger] s[i] != 0xC0 && s[i] != 0xC1
}

/// A position where a character starts, or the end.
pub open spec fn boundary(s: Seq<u8>, x: int) -> bool {
    x == s.len() || (0 <= x < s.len() && !continuation(s[x]))
}

/// Characters of whole text end at boundaries, and a boundary is not inside a
/// character.
pub proof fn lemma_char_boundary(s: Seq<u8>, p: int)
    requires
        whole_chars(s),
        0 <= p < s.len(),
        !continuation(s[p]),
    ensures
        boundary(s, char_end(s, p)),
        forall|x: int| p < x < char_end(s, p) ==> continuation(#[trigger] s[x]),
{
    assert(whole_char(s, p));
}

pub proof fn lemma_run_boundary(s: Seq<u8>, p: int, c: CharClass, m: bool)
    requires
        whole_chars(s),
        0 <= p <= s.len(),
        boundary(s, p),
    ensures
        boundary(s, run_end(s, p, c, m)),
    decreases s.len() - p,
{
    if p < s.len() && class_at(s, p, m) == c {
        lemma_char_boundary(s, p);
        lemma_char_len(s, p);
        lemma_run_boundary(s, char_end(s, p), c, m);
    }
}

proof fn lemma_numbers_boundary(s: Seq<u8>, p: int, left: nat)
    requires
        whole_chars(s),
        0 <= p <= s.len(),
        boundary(s, p),
    ensures
        boundary(s, numbers_end(s, p, left)),
    decreases left,
{
    if left > 0 && p < s.len() && class_at(s, p, false) == CharClass::Number {
        lemma_char_boundary(s, p);
        lemma_char_len(s, p);
        lemma_numbers_boundary(s, char_end(s, p), (left - 1) as nat);
    }
}

proof fn lemma_newlines_boundary(s: Seq<u8>, p: int)
    requires
        whole_chars(s),
        0 <= p <= s.len(),
        boundary(s, p),
    ensures
        boundary(s, newlines_end(s, p)),
    decreases s.len() - p,
{
    if p < s.len() && newline(s[p]) {
        lemma_char_boundary(s, p);
        lemma_newlines_boundary(s, p + 1);
    }
}

proof fn lemma_tail_boundary(s: Seq<u8>, p: int, slash: bool)
    requires
        whole_chars(s),
        0 <= p <= s.len(),
        boundary(s, p),
    ensures
        boundary(s, tail_end(s, p, slash)),
    decreases s.len() - p,
{
    if p < s.len() && (newline(s[p]) || (slash && s[p] == 0x2f)) {
        lemma_char_boundary(s, p);
        lemma_tail_boundary(s, p + 1, slash);
    }
}

proof fn lemma_last_boundary(s: Seq<u8>, p: int, e: int, none: int)
    requires
        whole_chars(s),
        0 <= p <= e <= s.len(),
        boundary(s, p),
    ensures
        last_newline_end(s, p, e, none) == none || boundary(s, last_newline_end(s, p, e, none)),
        last_char_start(s, p, e, none) == none || boundary(s, last_char_start(s, p, e, none)),
    decreases s.len() - p,
{
    if p < e {
        lemma_char_boundary(s, p);
        lemma_char_len(s, p);
        let q = char_end(s, p);
        let next = if newline(s[p]) {
            q
        } else {
            none
        };
        if q <= e {
            lemma_last_boundary(s, q, e, next);
            lemma_last_boundary(s, q, e, p);
        } else {
            assert(last_newline_end(s, q, e, next) == next);
            assert(last_char_start(s, q, e, p) == p);
        }
    }
}

proof fn lemma_ws_boundary(s: Seq<u8>, p: int, m: bool, whole: bool)
    requires
        whole_chars(s),
        0 <= p < s.len(),
        boundary(s, p),
    ensures
        boundary(s, ws_token_end(s, p, m, whole)),
{
    lemma_run_boundary(s, p, CharClass::Whitespace, m);
    lemma_run_end(s, p, CharClass::Whitespace, m);
    let w = run_end(s, p, CharClass::Whitespace, m);
    lemma_last_boundary(s, p, w, 0);
    lemma_last_boundary(s, p, w, p);
}

proof fn lemma_back_boundary(s: Seq<u8>, lo: int, i: int)
    requires
        0 <= lo <= i < s.len(),
        boundary(s, lo),
    ensures
        boundary(s, back_to_lead(s, lo, i)),
    decreases i - lo,
{
    if i > lo && continuation(s[i]) {
        lemma_back_boundary(s, lo, i - 1);
    }
}

proof fn lemma_part_boundary(s: Seq<u8>, p: int, upper: bool, han: bool)
    requires
        whole_chars(s),
        0 <= p <= s.len(),
        boundary(s, p),
    ensures
        boundary(s, part_end(s, p, upper, han)),
    decreases s.len() - p,
{
    if p < s.len() && in_part(part_at(s, p, han), upper) {
        lemma_char_boundary(s, p);
        lemma_char_len(s, p);
        lemma_part_boundary(s, char_end(s, p), upper, han);
    }
}

proof fn lemma_either_boundary(s: Seq<u8>, p: int, e: int, han: bool, none: int)
    requires
        whole_chars(s),
        0 <= p <= e <= s.len(),
        boundary(s, p),
    ensures
        last_either_end(s, p, e, han, none) == none || boundary(
            s,
            last_either_end(s, p, e, han, none),
        ),
    decreases s.len() - p,
{
    if p < e {
        lemma_char_boundary(s, p);
        lemma_char_len(s, p);
        let q = char_end(s, p);
        let next = if part_at(s, p, han) == WordPart::Either {
            q
        } else {
            none
        };
        if q <= e {
            lemma_either_boundary(s, q, e, han, next);
        } else {
            assert(last_either_end(s, q, e, han, next) == next);
        }
    }
}

proof fn lemma_words_boundary(s: Seq<u8>, q: int, han: bool)
    requires
        whole_chars(s),
        0 <= q <= s.len(),
        boundary(s, q),
    ensures
        upper_lower(s, q, han) matches Some(e) ==> boundary(s, e),
        upper_only(s, q, han) matches Some(e) ==> boundary(s, e),
{
    lemma_part_boundary(s, q, true, han);
    lemma_part_end(s, q, true, han);
    let u = part_end(s, q, true, han);
    lemma_part_boundary(s, u, false, han);
    lemma_either_boundary(s, q, u, han, q);
}

proof fn lemma_han_boundary(s: Seq<u8>, p: int)
    requires
        whole_chars(s),
        0 <= p <= s.len(),
        boundary(s, p),
    ensures
        boundary(s, han_end(s, p)),
    decreases s.len() - p,
{
    if p < s.len() && han_at(s, p) {
        lemma_char_boundary(s, p);
        lemma_char_len(s, p);
        lemma_han_boundary(s, char_end(s, p));
    }
}

proof fn lemma_contraction_boundary(s: Seq<u8>, p: int)
    requires
        whole_chars(s),
        0 <= p < s.len(),
        boundary(s, p),
    ensures
        contraction(s, p) matches Some(e) ==> boundary(s, e) && p < e <= s.len(),
        contraction_nocase(s, p) matches Some(e) ==> boundary(s, e) && p < e <= s.len(),
{
    if s[p] == 0x27 {
        lemma_char_boundary(s, p);
        if p + 1 < s.len() {
            lemma_char_boundary(s, p + 1);
            if p + 2 < s.len() && s[p + 2] < 0x80 {
                lemma_char_boundary(s, p + 2);
            }
        }
    }
}

/// In whole text, tokens end at character boundaries.
pub proof fn law_token_boundary(t: PretokenizerType, s: Seq<u8>, p: int)
    requires
        whole_chars(s),
        0 <= p < s.len(),
        boundary(s, p),
    ensures
        boundary(s, token_end(t, s, p)),
{
    lemma_char_boundary(s, p);
    lemma_char_len(s, p);
    lemma_contraction_boundary(s, p);
    let q = char_end(s, p);
    let o = if s[p] == 0x20 {
        p + 1
    } else {
        p
    };
    match scheme_rules(t) {
        SchemeRules::R50k => {
            let q = if s[p] == 0x20 && p + 1 < s.len() {
                p + 1
            } else {
                p
            };
            lemma_run_boundary(s, q, class_at(s, q, false), false);
            lemma_run_boundary(s, p, CharClass::Whitespace, false);
            lemma_run_end(s, p, CharClass::Whitespace, false);
            let w = run_end(s, p, CharClass::Whitespace, false);
            if w > p {
                lemma_back_boundary(s, p, w - 1);
            }
        },
        SchemeRules::Cl100k(r) => {
            lemma_run_boundary(s, p, CharClass::Letter, r.marks_join);
            lemma_run_boundary(s, q, CharClass::Letter, r.marks_join);
            lemma_numbers_boundary(s, p, 3);
            lemma_numbers_boundary(s, p, 1);
            lemma_run_boundary(s, o, CharClass::Other, r.marks_join);
            lemma_run_end(s, o, CharClass::Other, r.marks_join);
            lemma_newlines_boundary(s, run_end(s, o, CharClass::Other, r.marks_join));
            lemma_ws_boundary(s, p, r.marks_join, r.eos_ws_whole);
        },
        SchemeRules::O200k(r) => {
            lemma_han_boundary(s, p);
            lemma_words_boundary(s, p, r.han);
            lemma_words_boundary(s, q, r.han);
            lemma_word_parts(s, p, r.han);
            lemma_word_parts(s, q, r.han);
            if let Some(e) = word_alt(s, p, r.han) {
                if e < s.len() {
                    lemma_contraction_boundary(s, e);
                }
            }
            lemma_numbers_boundary(s, p, 3);
            lemma_numbers_boundary(s, p, 1);
            lemma_run_boundary(s, o, CharClass::Other, false);
            lemma_run_end(s, o, CharClass::Other, false);
            lemma_tail_boundary(s, run_end(s, o, CharClass::Other, false), r.slash);
            lemma_ws_boundary(s, p, false, false);
        },
    }
}

/// Valid UTF-8 is whole: the laws of whole text hold of every string.
pub proof fn law_utf8_is_whole(s: Seq<u8>)
    requires
        valid_utf8(s),
    ensures
        whole_chars(s),
    decreases s.len(),
{
    if s.len() > 0 {
        let rest = pop_first_scalar(s);
        let n = length_of_first_scalar(s);
        law_utf8_is_whole(rest);
        assert forall|i: int| 0 <= i < s.len() && !continuation(s[i]) implies #[trigger] whole_char(
            s,
            i,
        ) by {
            if i >= n {
                assert(rest[i - n] == s[i]);
                assert(whole_char(rest, i - n));
                let m = if s[i] < 0x80 {
                    1
                } else {
                    lead_len(s[i])
                };
                assert(forall|j: int| 0 <= j < rest.len() ==> rest[j] == s[n + j]);
            } else {
                assert(i == 0);
                if n < s.len() {
                    assert(rest[0] == s[n]);
                }
            }
        }
    }
}

/// What the two lead bytes can encode takes one byte.
proof fn lemma_overlong(b0: u8, b1: u8)
    by (bit_vector)
    requires
        b0 == 0xC0 || b0 == 0xC1,
    ensures
        (((b0 & 0x1F) as u32) << 6) | ((b1 & 0x3F) as u32) < 0x80,
{
}

/// Valid UTF-8 has no overlong encodings.
pub proof fn law_utf8_is_well_encoded(s: Seq<u8>)
    requires
        valid_utf8(s),
    ensures
        well_encoded(s),
    decreases s.len(),
{
    law_utf8_is_whole(s);
    if s.len() > 0 {
        let rest = pop_first_scalar(s);
        let n = length_of_first_scalar(s);
        law_utf8_is_well_encoded(rest);
        assert forall|i: int| 0 <= i < s.len() implies #[trigger] s[i] != 0xC0 && s[i] != 0xC1 by {
            if i >= n {
                assert(rest[i - n] == s[i]);
            } else {
                if i == 0 && (s[0] == 0xC0 || s[0] == 0xC1) {
                    lemma_overlong(s[0], s[1]);
                }
            }
        }
    }
}

} // verus!
