//! Cutting a document where no pretoken crosses.
use crate::pretokenize::chars::{
    ascii_digit, ascii_letter, char_cp, char_end, char_len, class_at, is_digit, is_letter,
    lemma_char_len, lemma_run_end, newline, newlines_end, numbers_end, run_end,
};
use crate::pretokenize::cl100k_family::{family_token_end, Cl100kRules};
use crate::pretokenize::locality::{
    boundary, law_suffix_spans, law_token_boundary, lemma_char_boundary, shift_spans, whole_char,
    whole_chars,
};
use crate::pretokenize::o200k_family::{
    han_at, han_end, in_part, last_either_end, lemma_part_end, lemma_word_parts, o200k_token_end,
    part_at, part_end, tail_end, upper_lower, upper_only, with_contraction, word_alt, O200kRules,
};
use crate::pretokenize::r50k::{back_to_lead, continuation, r50k_token_end};
use crate::pretokenize::scheme::{
    lemma_token_end, scheme_rules, spans_from, token_end, PretokenizerType, SchemeRules,
};
use crate::pretokenize::unicode::{CharClass, WordPart};
use crate::pretokenize::words::{
    contraction, contraction_nocase, last_char_start, last_newline_end, ws_token_end,
};
use crate::search::{ends_with, find, occurs_at};
use vstd::prelude::*;

verus! {

/// An ASCII letter or digit.
pub open spec fn ascii_alnum(b: u8) -> bool {
    ascii_letter(b) || ascii_digit(b)
}

/// Position `b` holds a space between a letter or digit and a letter.
pub open spec fn word_break(s: Seq<u8>, b: int) -> bool {
    &&& 0 < b
    &&& b + 1 < s.len()
    &&& s[b] == 0x20
    &&& ascii_alnum(s[b - 1])
    &&& ascii_letter(s[b + 1])
}

/// Position `b` holds a space after a letter or digit.
pub open spec fn space_break(s: Seq<u8>, b: int) -> bool {
    &&& 0 < b < s.len()
    &&& s[b] == 0x20
    &&& ascii_alnum(s[b - 1])
}

// Up to a word break, a token does not depend on what follows the break.

proof fn lemma_char_cut(s: Seq<u8>, b: int, p: int)
    requires
        whole_chars(s.take(b)),
        space_break(s, b),
        0 <= p < b,
        boundary(s, p),
    ensures
        s.take(b)[p] == s[p],
        char_end(s, p) <= b,
        boundary(s, char_end(s, p)),
        forall|x: int| p < x < char_end(s, p) ==> continuation(#[trigger] s[x]),
        char_len(s.take(b), p) == char_len(s, p),
        char_end(s.take(b), p) == char_end(s, p),
        char_cp(s.take(b), p) == char_cp(s, p),
        class_at(s.take(b), p, false) == class_at(s, p, false),
        class_at(s.take(b), p, true) == class_at(s, p, true),
{
    let h = s.take(b);
    assert(forall|x: int| 0 <= x < b ==> #[trigger] h[x] == s[x]);
    lemma_char_boundary(h, p);
    assert(whole_char(h, p));
    assert forall|x: int| p < x < char_end(s, p) implies continuation(#[trigger] s[x]) by {
        assert(continuation(h[x]));
    }
}

proof fn lemma_run_cut(s: Seq<u8>, b: int, p: int, c: CharClass, m: bool)
    requires
        whole_chars(s.take(b)),
        space_break(s, b),
        0 <= p <= b,
        p < b || c != CharClass::Whitespace,
        boundary(s, p),
    ensures
        run_end(s.take(b), p, c, m) == run_end(s, p, c, m),
        run_end(s, p, c, m) <= b,
        c == CharClass::Whitespace ==> run_end(s, p, c, m) < b,
    decreases b - p,
{
    if p < b {
        lemma_char_cut(s, b, p);
        lemma_char_len(s, p);
        if class_at(s, p, m) == c {
            if c == CharClass::Whitespace && char_end(s, p) == b {
                // The character before the break is a letter or digit.
                assert(p == b - 1) by {
                    if p < b - 1 {
                        assert(continuation(s[b - 1]));
                    }
                }
            }
            lemma_run_cut(s, b, char_end(s, p), c, m);
        }
    }
}

proof fn lemma_numbers_cut(s: Seq<u8>, b: int, p: int, left: nat)
    requires
        whole_chars(s.take(b)),
        space_break(s, b),
        0 <= p <= b,
        boundary(s, p),
    ensures
        numbers_end(s.take(b), p, left) == numbers_end(s, p, left),
    decreases left,
{
    if p < b && left > 0 {
        lemma_char_cut(s, b, p);
        if class_at(s, p, false) == CharClass::Number {
            lemma_numbers_cut(s, b, char_end(s, p), (left - 1) as nat);
        }
    }
}

proof fn lemma_tail_cut(s: Seq<u8>, b: int, p: int, slash: bool)
    requires
        space_break(s, b),
        0 <= p <= b,
    ensures
        tail_end(s.take(b), p, slash) == tail_end(s, p, slash),
        newlines_end(s.take(b), p) == newlines_end(s, p),
    decreases b - p,
{
    if p < b && (newline(s[p]) || (slash && s[p] == 0x2f)) {
        lemma_tail_cut(s, b, p + 1, slash);
    }
}

proof fn lemma_last_cut(s: Seq<u8>, b: int, p: int, e: int, none: int)
    requires
        whole_chars(s.take(b)),
        space_break(s, b),
        0 <= p <= b,
        e <= b,
        boundary(s, p),
    ensures
        last_newline_end(s.take(b), p, e, none) == last_newline_end(s, p, e, none),
        last_char_start(s.take(b), p, e, none) == last_char_start(s, p, e, none),
    decreases b - p,
{
    if p < e {
        lemma_char_cut(s, b, p);
        lemma_char_len(s, p);
        let q = char_end(s, p);
        lemma_last_cut(
            s,
            b,
            q,
            e,
            if newline(s[p]) {
                q
            } else {
                none
            },
        );
        lemma_last_cut(s, b, q, e, p);
    }
}

proof fn lemma_ws_cut(s: Seq<u8>, b: int, p: int, m: bool, whole: bool)
    requires
        whole_chars(s.take(b)),
        space_break(s, b),
        0 <= p < b,
        boundary(s, p),
    ensures
        ws_token_end(s.take(b), p, m, whole) == ws_token_end(s, p, m, whole),
{
    lemma_run_cut(s, b, p, CharClass::Whitespace, m);
    let w = run_end(s, p, CharClass::Whitespace, m);
    lemma_last_cut(s, b, p, w, 0);
    lemma_last_cut(s, b, p, w, p);
}

proof fn lemma_back_cut(s: Seq<u8>, b: int, lo: int, i: int)
    requires
        0 <= lo <= i < b <= s.len(),
    ensures
        back_to_lead(s.take(b), lo, i) == back_to_lead(s, lo, i),
    decreases i - lo,
{
    if i > lo && continuation(s[i]) {
        lemma_back_cut(s, b, lo, i - 1);
    }
}

proof fn lemma_part_cut(s: Seq<u8>, b: int, p: int, upper: bool, han: bool)
    requires
        whole_chars(s.take(b)),
        space_break(s, b),
        0 <= p <= b,
        boundary(s, p),
    ensures
        part_end(s.take(b), p, upper, han) == part_end(s, p, upper, han),
        part_end(s, p, upper, han) <= b,
        boundary(s, part_end(s, p, upper, han)),
    decreases b - p,
{
    if p < b {
        lemma_char_cut(s, b, p);
        lemma_char_len(s, p);
        if in_part(part_at(s, p, han), upper) {
            lemma_part_cut(s, b, char_end(s, p), upper, han);
        }
    }
}

proof fn lemma_either_cut(s: Seq<u8>, b: int, p: int, e: int, han: bool, none: int)
    requires
        whole_chars(s.take(b)),
        space_break(s, b),
        0 <= p <= b,
        e <= b,
        boundary(s, p),
    ensures
        last_either_end(s.take(b), p, e, han, none) == last_either_end(s, p, e, han, none),
        last_either_end(s, p, e, han, none) == none || last_either_end(s, p, e, han, none) <= b,
        last_either_end(s, p, e, han, none) == none || boundary(s, last_either_end(s, p, e, han, none)),
    decreases b - p,
{
    if p < e {
        lemma_char_cut(s, b, p);
        lemma_char_len(s, p);
        let q = char_end(s, p);
        lemma_either_cut(
            s,
            b,
            q,
            e,
            han,
            if part_at(s, p, han) == WordPart::Either {
                q
            } else {
                none
            },
        );
    }
}

proof fn lemma_words_cut(s: Seq<u8>, b: int, q: int, han: bool)
    requires
        whole_chars(s.take(b)),
        space_break(s, b),
        0 <= q <= b,
        boundary(s, q),
    ensures
        upper_lower(s.take(b), q, han) == upper_lower(s, q, han),
        upper_only(s.take(b), q, han) == upper_only(s, q, han),
        upper_lower(s, q, han) matches Some(e) ==> e <= b && boundary(s, e),
        upper_only(s, q, han) matches Some(e) ==> e <= b && boundary(s, e),
{
    lemma_part_cut(s, b, q, true, han);
    let u = part_end(s, q, true, han);
    lemma_part_end(s, q, true, han);
    lemma_part_cut(s, b, u, false, han);
    lemma_either_cut(s, b, q, u, han, q);
    if u < b {
        lemma_char_cut(s, b, u);
    }
}

proof fn lemma_han_cut(s: Seq<u8>, b: int, p: int)
    requires
        whole_chars(s.take(b)),
        space_break(s, b),
        0 <= p <= b,
        boundary(s, p),
    ensures
        han_end(s.take(b), p) == han_end(s, p),
    decreases b - p,
{
    if p < b {
        lemma_char_cut(s, b, p);
        lemma_char_len(s, p);
        if han_at(s, p) {
            lemma_han_cut(s, b, char_end(s, p));
        }
    }
}

proof fn lemma_contraction_cut(s: Seq<u8>, b: int, p: int)
    requires
        space_break(s, b),
        0 <= p < b,
    ensures
        contraction(s.take(b), p) == contraction(s, p),
        contraction_nocase(s.take(b), p) == contraction_nocase(s, p),
{
}

proof fn lemma_family_cut(s: Seq<u8>, b: int, p: int, r: Cl100kRules)
    requires
        whole_chars(s.take(b)),
        space_break(s, b),
        0 <= p < b,
        boundary(s, p),
    ensures
        family_token_end(s.take(b), p, r) == family_token_end(s, p, r),
{
    let m = r.marks_join;
    lemma_char_cut(s, b, p);
    lemma_char_len(s, p);
    lemma_contraction_cut(s, b, p);
    let q = char_end(s, p);
    lemma_run_cut(s, b, p, CharClass::Letter, m);
    lemma_run_cut(s, b, q, CharClass::Letter, m);
    if q < b {
        lemma_char_cut(s, b, q);
    }
    lemma_numbers_cut(s, b, p, 3);
    lemma_numbers_cut(s, b, p, 1);
    let o = if s[p] == 0x20 {
        p + 1
    } else {
        p
    };
    assert(o < b);
    lemma_char_cut(s, b, o);
    lemma_run_cut(s, b, o, CharClass::Other, m);
    lemma_run_end(s, o, CharClass::Other, m);
    lemma_tail_cut(s, b, run_end(s, o, CharClass::Other, m), false);
    lemma_ws_cut(s, b, p, m, r.eos_ws_whole);
}

proof fn lemma_r50k_cut(s: Seq<u8>, b: int, p: int)
    requires
        whole_chars(s.take(b)),
        space_break(s, b),
        0 <= p < b,
        boundary(s, p),
    ensures
        r50k_token_end(s.take(b), p) == r50k_token_end(s, p),
{
    lemma_char_cut(s, b, p);
    lemma_contraction_cut(s, b, p);
    let q = if s[p] == 0x20 && p + 1 < s.len() {
        p + 1
    } else {
        p
    };
    assert(q < b);
    lemma_char_cut(s, b, q);
    lemma_run_cut(s, b, q, class_at(s, q, false), false);
    lemma_run_cut(s, b, p, CharClass::Whitespace, false);
    lemma_run_end(s, p, CharClass::Whitespace, false);
    let w = run_end(s, p, CharClass::Whitespace, false);
    if w > p {
        lemma_back_cut(s, b, p, w - 1);
    }
}

proof fn lemma_word_alt_cut(s: Seq<u8>, b: int, p: int, r: O200kRules)
    requires
        whole_chars(s.take(b)),
        space_break(s, b),
        0 <= p < b,
        boundary(s, p),
    ensures
        word_alt(s.take(b), p, r.han) == word_alt(s, p, r.han),
        word_alt(s, p, r.han) matches Some(e) ==> with_contraction(s.take(b), e, r.contractions)
            == with_contraction(s, e, r.contractions),
{
    lemma_char_cut(s, b, p);
    lemma_char_len(s, p);
    let q = char_end(s, p);
    lemma_words_cut(s, b, p, r.han);
    lemma_words_cut(s, b, q, r.han);
    lemma_word_parts(s, p, r.han);
    lemma_word_parts(s, q, r.han);
    if let Some(e) = word_alt(s, p, r.han) {
        if e < b {
            lemma_contraction_cut(s, b, e);
        }
    }
}

proof fn lemma_o200k_cut(s: Seq<u8>, b: int, p: int, r: O200kRules)
    requires
        whole_chars(s.take(b)),
        space_break(s, b),
        0 <= p < b,
        boundary(s, p),
    ensures
        o200k_token_end(s.take(b), p, r) == o200k_token_end(s, p, r),
{
    lemma_char_cut(s, b, p);
    lemma_char_len(s, p);
    lemma_han_cut(s, b, p);
    lemma_word_alt_cut(s, b, p, r);
    lemma_numbers_cut(s, b, p, 3);
    lemma_numbers_cut(s, b, p, 1);
    let o = if s[p] == 0x20 {
        p + 1
    } else {
        p
    };
    assert(o < b);
    lemma_char_cut(s, b, o);
    lemma_run_cut(s, b, o, CharClass::Other, false);
    lemma_run_end(s, o, CharClass::Other, false);
    lemma_tail_cut(s, b, run_end(s, o, CharClass::Other, false), r.slash);
    lemma_ws_cut(s, b, p, false, false);
}

/// A token that starts before a word break ends no later than the break, and
/// does not depend on what follows it.
pub proof fn law_token_stops_at_break(t: PretokenizerType, s: Seq<u8>, b: int, p: int)
    requires
        whole_chars(s.take(b)),
        space_break(s, b),
        0 <= p < b,
        boundary(s, p),
    ensures
        token_end(t, s.take(b), p) == token_end(t, s, p),
        token_end(t, s, p) <= b,
{
    match scheme_rules(t) {
        SchemeRules::R50k => lemma_r50k_cut(s, b, p),
        SchemeRules::Cl100k(r) => lemma_family_cut(s, b, p, r),
        SchemeRules::O200k(r) => lemma_o200k_cut(s, b, p, r),
    }
    lemma_token_end(t, s.take(b), p);
}

proof fn lemma_spans_to_break(t: PretokenizerType, s: Seq<u8>, b: int, p: int)
    requires
        whole_chars(s.take(b)),
        space_break(s, b),
        0 <= p <= b,
        boundary(s, p),
    ensures
        spans_from(t, s, p) == spans_from(t, s.take(b), p) + spans_from(t, s, b),
    decreases b - p,
{
    if p < b {
        law_token_stops_at_break(t, s, b, p);
        let h = s.take(b);
        assert(h[p] == s[p]);
        law_token_boundary(t, h, p);
        lemma_token_end(t, s, p);
        let e = token_end(t, s, p);
        if e < b {
            assert(h[e] == s[e]);
        }
        lemma_spans_to_break(t, s, b, e);
        assert(spans_from(t, s, p) =~= seq![(p, e)] + spans_from(t, s, e));
        assert(spans_from(t, s.take(b), p) =~= seq![(p, e)] + spans_from(t, s.take(b), e));
        assert(spans_from(t, s, p) =~= spans_from(t, s.take(b), p) + spans_from(t, s, b));
    } else {
        assert(spans_from(t, s.take(b), p) =~= Seq::<(int, int)>::empty());
        assert(spans_from(t, s, p) =~= spans_from(t, s.take(b), p) + spans_from(t, s, b));
    }
}

/// Under every scheme, pretokenizing the text before a word break and the text
/// from it on, one after the other, gives the pretokens of the whole.
pub proof fn law_split_at_break(t: PretokenizerType, s: Seq<u8>, b: int)
    requires
        whole_chars(s.take(b)),
        space_break(s, b),
    ensures
        spans_from(t, s, 0) == spans_from(t, s.take(b), 0) + shift_spans(
            spans_from(t, s.skip(b), 0),
            b,
        ),
{
    assert(s.take(b)[0] == s[0]);
    assert(boundary(s, 0));
    lemma_spans_to_break(t, s, b, 0);
    law_suffix_spans(t, s, b, 0);
}

/// Whole text falls into whole parts at a boundary.
pub proof fn lemma_whole_parts(s: Seq<u8>, b: int)
    requires
        whole_chars(s),
        0 <= b <= s.len(),
        boundary(s, b),
    ensures
        whole_chars(s.take(b)),
        whole_chars(s.skip(b)),
{
    let h = s.take(b);
    let t = s.skip(b);
    assert forall|i: int| 0 <= i < h.len() && !continuation(h[i]) implies #[trigger] whole_char(
        h,
        i,
    ) by {
        assert(whole_char(s, i));
        if b < s.len() {
            assert(!continuation(s[b]));
        }
    }
    assert forall|i: int| 0 <= i < t.len() && !continuation(t[i]) implies #[trigger] whole_char(
        t,
        i,
    ) by {
        assert(t[i] == s[b + i]);
        assert(whole_char(s, b + i));
    }
}

/// An added token: its bytes, and whether it takes the whitespace that
/// follows it.
pub type SplitBlocker = (Vec<u8>, bool);

/// An occurrence of the token straddles `p`, or the token takes the
/// whitespace that follows it and ends exactly at `p`.
pub open spec fn blocks(s: Seq<u8>, t: SplitBlocker, p: int) -> bool {
    ||| exists|i: int| #[trigger] occurs_at(s, t.0@, i) && i < p < i + t.0@.len()
    ||| t.1 && t.0@.len() > 0 && occurs_at(s, t.0@, p - t.0@.len())
}

/// The text can be cut at `p`.
pub open spec fn can_cut(s: Seq<u8>, p: int, tokens: Seq<SplitBlocker>) -> bool {
    &&& word_break(s, p)
    &&& forall|k: int| 0 <= k < tokens.len() ==> !#[trigger] blocks(s, tokens[k], p)
}

/// The first position from `p` on where the text can be cut.
pub open spec fn next_cut(s: Seq<u8>, p: int, tokens: Seq<SplitBlocker>) -> Option<int>
    decreases s.len() - p,
{
    if p + 1 >= s.len() {
        None
    } else if can_cut(s, p, tokens) {
        Some(p)
    } else {
        next_cut(s, p + 1, tokens)
    }
}

/// The ranges from `start` on: each ends at the first cut at least `target`
/// bytes after its start, the last at the end of the text.
pub open spec fn split_from(
    s: Seq<u8>,
    start: int,
    target: int,
    tokens: Seq<SplitBlocker>,
) -> Seq<(int, int)>
    decreases s.len() - start,
{
    if 0 <= start < s.len() && target > 0 {
        match next_cut(s, start + target, tokens) {
            Some(p) => if start < p < s.len() {
                seq![(start, p)] + split_from(s, p, target, tokens)
            } else {
                seq![(start, s.len() as int)]
            },
            None => seq![(start, s.len() as int)],
        }
    } else {
        Seq::empty()
    }
}

/// The ranges of a whole text; an empty text is one empty range.
pub open spec fn split_ranges(s: Seq<u8>, target: int, tokens: Seq<SplitBlocker>) -> Seq<
    (int, int),
> {
    if s.len() == 0 {
        seq![(0int, 0int)]
    } else {
        split_from(
            s,
            0,
            if target > 0 {
                target
            } else {
                1
            },
            tokens,
        )
    }
}

/// Machine ranges as mathematical ranges.
pub open spec fn as_ranges(v: Seq<std::ops::Range<usize>>) -> Seq<(int, int)> {
    Seq::new(v.len(), |i: int| (v[i].start as int, v[i].end as int))
}

pub proof fn lemma_next_cut(s: Seq<u8>, p: int, tokens: Seq<SplitBlocker>)
    ensures
        next_cut(s, p, tokens) matches Some(q) ==> p <= q && q + 1 < s.len() && can_cut(
            s,
            q,
            tokens,
        ),
    decreases s.len() - p,
{
    if p + 1 < s.len() && !can_cut(s, p, tokens) {
        lemma_next_cut(s, p + 1, tokens);
    }
}

/// The ranges cover the text from `start` on without a gap, and every inner
/// cut is a word break that no added token blocks.
pub proof fn law_ranges_cover(
    s: Seq<u8>,
    start: int,
    target: int,
    tokens: Seq<SplitBlocker>,
)
    requires
        0 <= start < s.len(),
        target > 0,
    ensures
        ({
            let v = split_from(s, start, target, tokens);
            &&& v.len() > 0
            &&& v[0].0 == start
            &&& v.last().1 == s.len()
            &&& forall|i: int| 0 <= i < v.len() ==> (#[trigger] v[i]).0 < v[i].1 <= s.len()
            &&& forall|i: int|
                0 <= i < v.len() - 1 ==> (#[trigger] v[i]).1 == v[i + 1].0 && can_cut(
                    s,
                    v[i].1,
                    tokens,
                )
        }),
    decreases s.len() - start,
{
    lemma_next_cut(s, start + target, tokens);
    if let Some(p) = next_cut(s, start + target, tokens) {
        law_ranges_cover(s, p, target, tokens);
        let rest = split_from(s, p, target, tokens);
        let v = split_from(s, start, target, tokens);
        assert(v =~= seq![(start, p)] + rest);
        assert forall|i: int| 0 <= i < v.len() - 1 implies (#[trigger] v[i]).1 == v[i + 1].0
            && can_cut(s, v[i].1, tokens) by {
            if i > 0 {
                assert(rest[i - 1].1 == rest[i].0);
            }
        }
        assert forall|i: int| 0 <= i < v.len() implies (#[trigger] v[i]).0 < v[i].1 <= s.len() by {
            if i > 0 {
                assert(rest[i - 1].0 < rest[i - 1].1);
            }
        }
        assert(v.last() == rest.last());
    }
}

/// The pretokens of the ranges, taken one after the other.
pub open spec fn spans_of_ranges(t: PretokenizerType, s: Seq<u8>, v: Seq<(int, int)>) -> Seq<
    (int, int),
>
    decreases v.len(),
{
    if v.len() == 0 {
        Seq::empty()
    } else {
        shift_spans(spans_from(t, s.subrange(v[0].0, v[0].1), 0), v[0].0) + spans_of_ranges(
            t,
            s,
            v.drop_first(),
        )
    }
}

/// The pretokens from `start` on, cut at a word break.
proof fn lemma_cut_spans(t: PretokenizerType, s: Seq<u8>, start: int, p: int)
    requires
        whole_chars(s),
        0 <= start < p,
        boundary(s, start),
        word_break(s, p),
    ensures
        spans_from(t, s, start) == shift_spans(spans_from(t, s.subrange(start, p), 0), start)
            + spans_from(t, s, p),
{
    lemma_whole_parts(s, start);
    let suffix = s.skip(start);
    let b = p - start;
    law_suffix_spans(t, s, start, 0);
    assert(word_break(suffix, b));
    lemma_whole_parts(suffix, b);
    law_split_at_break(t, suffix, b);
    assert(suffix.take(b) =~= s.subrange(start, p));
    assert(suffix.skip(b) =~= s.skip(p));
    law_suffix_spans(t, s, p, 0);
    let head = spans_from(t, suffix.take(b), 0);
    let tail = spans_from(t, suffix.skip(b), 0);
    assert(shift_spans(head + shift_spans(tail, b), start) =~= shift_spans(head, start)
        + shift_spans(tail, p));
}

proof fn lemma_split_from_spans(
    t: PretokenizerType,
    s: Seq<u8>,
    start: int,
    target: int,
    tokens: Seq<SplitBlocker>,
)
    requires
        whole_chars(s),
        0 <= start < s.len(),
        boundary(s, start),
        target > 0,
    ensures
        spans_of_ranges(t, s, split_from(s, start, target, tokens)) == spans_from(t, s, start),
    decreases s.len() - start,
{
    lemma_next_cut(s, start + target, tokens);
    let v = split_from(s, start, target, tokens);
    if let Some(p) = next_cut(s, start + target, tokens) {
        lemma_cut_spans(t, s, start, p);
        lemma_split_from_spans(t, s, p, target, tokens);
        assert(v.drop_first() =~= split_from(s, p, target, tokens));
    } else {
        law_suffix_spans(t, s, start, 0);
        assert(v.drop_first() =~= Seq::<(int, int)>::empty());
        assert(s.subrange(start, s.len() as int) =~= s.skip(start));
        assert(spans_of_ranges(t, s, v.drop_first()) =~= Seq::<(int, int)>::empty());
        assert(spans_of_ranges(t, s, v) =~= spans_from(t, s, start));
    }
}

/// Under every scheme, pretokenizing the ranges independently and
/// concatenating gives the pretokens of the whole text.
pub proof fn law_split_ranges_spans(
    t: PretokenizerType,
    s: Seq<u8>,
    target: int,
    tokens: Seq<SplitBlocker>,
)
    requires
        whole_chars(s),
    ensures
        spans_of_ranges(t, s, split_ranges(s, target, tokens)) == spans_from(t, s, 0),
{
    if s.len() > 0 {
        lemma_split_from_spans(
            t,
            s,
            0,
            if target > 0 {
                target
            } else {
                1
            },
            tokens,
        );
    } else {
        let v = seq![(0int, 0int)];
        assert(v.drop_first() =~= Seq::<(int, int)>::empty());
        assert(spans_of_ranges(t, s, v.drop_first()) =~= Seq::<(int, int)>::empty());
        assert(spans_of_ranges(t, s, v) =~= spans_from(t, s, 0));
    }
}

/// Whether an added token forbids a cut at `p`.
fn token_blocks(bytes: &[u8], t: &SplitBlocker, p: usize) -> (r: bool)
    requires
        p < bytes@.len(),
    ensures
        r == blocks(bytes@, *t, p as int),
{
    let n: usize = t.0.len();
    if n == 0 {
        return false;
    }
    // Every occurrence that straddles `p` lies in this window, and every
    // occurrence in it straddles `p`.
    let lo: usize = if p >= n - 1 {
        p - (n - 1)
    } else {
        0
    };
    let hi: usize = if n - 1 <= bytes.len() - p {
        p + (n - 1)
    } else {
        bytes.len()
    };
    let window = vstd::slice::slice_subrange(bytes, lo, hi);
    let found = find(window, t.0.as_slice());
    proof {
        if let Some(i) = found {
            assert(window@.subrange(i as int, i + n) =~= bytes@.subrange(lo + i, lo + i + n));
            assert(occurs_at(bytes@, t.0@, lo + i));
        } else if exists|i: int| #[trigger] occurs_at(bytes@, t.0@, i) && i < p < i + n {
            let i = choose|i: int| #[trigger] occurs_at(bytes@, t.0@, i) && i < p < i + n;
            assert(window@.subrange(i - lo, i - lo + n) =~= bytes@.subrange(i, i + n));
            assert(occurs_at(window@, t.0@, i - lo));
        }
    }
    if found.is_some() {
        return true;
    }
    if !t.1 {
        return false;
    }
    let head = vstd::slice::slice_subrange(bytes, 0, p);
    proof {
        if n <= p {
            assert(head@.skip(p - n) =~= bytes@.subrange(p - n, p as int));
        }
    }
    ends_with(head, t.0.as_slice())
}

/// Whether the text can be cut at `p`.
fn is_cut(bytes: &[u8], p: usize, tokens: &[SplitBlocker]) -> (r: bool)
    requires
        0 < p,
        p + 1 < bytes@.len(),
    ensures
        r == can_cut(bytes@, p as int, tokens@),
{
    if bytes[p] != 0x20 {
        return false;
    }
    let before: u8 = bytes[p - 1];
    if !(is_letter(before) || is_digit(before)) {
        return false;
    }
    if !is_letter(bytes[p + 1]) {
        return false;
    }
    let mut k: usize = 0;
    while k < tokens.len()
        invariant
            k <= tokens@.len(),
            p < bytes@.len(),
            forall|j: int| 0 <= j < k ==> !#[trigger] blocks(bytes@, tokens@[j], p as int),
        decreases tokens@.len() - k,
    {
        if token_blocks(bytes, &tokens[k], p) {
            assert(blocks(bytes@, tokens@[k as int], p as int));
            return false;
        }
        k += 1;
    }
    true
}

/// Splits `bytes` into ranges of roughly `target` bytes that no pretoken of
/// any scheme crosses: each inner boundary is a space between a letter or
/// digit and a letter, no occurrence of an added token straddles it, and no
/// added token that takes the whitespace after it ends there.
pub fn safe_split_ranges(bytes: &[u8], target: usize, added_tokens: &[SplitBlocker]) -> (out: Vec<
    std::ops::Range<usize>,
>)
    ensures
        as_ranges(out@) == split_ranges(bytes@, target as int, added_tokens@),
{
    let len: usize = bytes.len();
    let step: usize = if target > 0 {
        target
    } else {
        1
    };
    let mut out: Vec<std::ops::Range<usize>> = Vec::new();
    if len == 0 {
        out.push(0..0);
        assert(as_ranges(out@) =~= seq![(0int, 0int)]);
        return out;
    }
    let mut start: usize = 0;
    assert(as_ranges(out@) =~= Seq::<(int, int)>::empty());
    while start < len
        invariant
            start <= len == bytes@.len(),
            step > 0,
            as_ranges(out@) + split_from(bytes@, start as int, step as int, added_tokens@)
                == split_from(bytes@, 0, step as int, added_tokens@),
        decreases len - start,
    {
        let mut probe: usize = if step < len - start {
            start + step
        } else {
            len
        };
        proof {
            if step >= len - start {
                assert(next_cut(bytes@, start + step, added_tokens@) is None);
                assert(next_cut(bytes@, len as int, added_tokens@) is None);
            }
        }
        let ghost before = out@;
        while probe < len - 1 && !is_cut(bytes, probe, added_tokens)
            invariant
                start < probe <= len == bytes@.len(),
                next_cut(bytes@, probe as int, added_tokens@) == next_cut(
                    bytes@,
                    start + step,
                    added_tokens@,
                ),
            decreases len - probe,
        {
            probe += 1;
        }
        let end: usize = if probe < len - 1 {
            probe
        } else {
            len
        };
        out.push(start..end);
        proof {
            let rest = split_from(bytes@, end as int, step as int, added_tokens@);
            assert(split_from(bytes@, start as int, step as int, added_tokens@) =~= seq![
                (start as int, end as int),
            ] + rest);
            assert(as_ranges(out@) + rest =~= as_ranges(before) + (seq![(start as int, end as int)]
                + rest));
        }
        start = end;
    }
    proof {
        assert(as_ranges(out@) + split_from(bytes@, start as int, step as int, added_tokens@)
            =~= as_ranges(out@));
    }
    out
}

} // verus!
