//! Every scheme cuts text by its pattern.
use crate::pretokenize::chars::{
    char_end, class_at, lemma_char_len, newline, newlines_end, numbers_end, run_end,
};
use crate::pretokenize::cl100k_family::{
    digits_alt, family_token_end, letters_alt, punct_alt, Cl100kRules,
};
use crate::pretokenize::locality::{boundary, lemma_char_boundary, whole_chars};
use crate::pretokenize::o200k_family::{
    han_at, han_end, in_part, last_either_end, o200k_token_end, part_at, part_end, punct_tail_alt,
    tail_end, upper_lower, upper_only, with_contraction, word_alt, word_prefix, O200kRules,
};
use crate::pretokenize::pattern::{
    alt, any_case, any_of, any_of_any_case, at_end, blanks, blanks_pattern, cased_words, cat, ch,
    each, gpt2_pattern, gpt4_pattern, han, letters, line_ends, line_ends_or_slash, lowers,
    no_other_than, nothing, numbers, o200k_pattern, one, opt, others, pattern_of, plus, prefixes,
    run_ends, short_forms, short_forms_any_case, short_run_ends, spaced, star, trailing_blanks,
    up_to, uppers, CharSet, Pattern,
};
use crate::pretokenize::r50k::{back_to_lead, continuation, r50k_token_end};
use crate::pretokenize::scheme::{token_end, PretokenizerType};
use crate::pretokenize::unicode::{CharClass, WordPart};
use crate::pretokenize::words::{
    contraction, contraction_nocase, last_char_start, last_newline_end, ws_token_end,
};
use vstd::prelude::*;

verus! {

/// The preferred end is `r`.
pub open spec fn leads(v: Seq<int>, r: Option<int>) -> bool {
    match r {
        Some(e) => v.len() > 0 && v[0] == e,
        None => v.len() == 0,
    }
}

proof fn lemma_each_add(v: Seq<int>, w: Seq<int>, s: Seq<u8>, b: Pattern)
    ensures
        each(v + w, s, b) == each(v, s, b) + each(w, s, b),
    decreases w.len(),
{
    if w.len() == 0 {
        assert(v + w =~= v);
        assert(each(v, s, b) + each(w, s, b) =~= each(v, s, b));
    } else {
        assert((v + w).drop_last() =~= v + w.drop_last());
        lemma_each_add(v, w.drop_last(), s, b);
        assert(each(v + w, s, b) =~= each(v, s, b) + each(w, s, b));
    }
}

proof fn lemma_each_one(q: int, s: Seq<u8>, b: Pattern)
    ensures
        each(seq![q], s, b) == b(s, q),
{
    assert(seq![q].drop_last() =~= Seq::<int>::empty());
    assert(each(Seq::empty(), s, b) == Seq::<int>::empty());
    assert(each(seq![q], s, b) =~= b(s, q));
}

/// A pattern behind the preferred end, where it matches there.
proof fn lemma_each_first(v: Seq<int>, s: Seq<u8>, b: Pattern)
    requires
        v.len() > 0,
        b(s, v[0]).len() > 0,
    ensures
        leads(each(v, s, b), Some(b(s, v[0])[0])),
{
    assert(v =~= seq![v[0]] + v.skip(1));
    lemma_each_add(seq![v[0]], v.skip(1), s, b);
    lemma_each_one(v[0], s, b);
}

proof fn lemma_each_none(v: Seq<int>, s: Seq<u8>, b: Pattern)
    requires
        v.len() == 0,
    ensures
        each(v, s, b).len() == 0,
{
}

/// Where the longest run of characters of a set ends.
spec fn far(t: CharSet, s: Seq<u8>, p: int) -> int
    decreases s.len() - p,
{
    if 0 <= p < s.len() && t(s, p) {
        far(t, s, char_end(s, p))
    } else {
        p
    }
}

proof fn lemma_run_first(t: CharSet, s: Seq<u8>, p: int)
    ensures
        leads(run_ends(t, s, p), Some(far(t, s, p))),
    decreases s.len() - p,
{
    if 0 <= p < s.len() && t(s, p) {
        lemma_char_len(s, p);
        lemma_run_first(t, s, char_end(s, p));
    }
}

proof fn lemma_far_run(t: CharSet, s: Seq<u8>, p: int, c: CharClass, marks: bool)
    requires
        forall|x: int| 0 <= x < s.len() ==> (#[trigger] t(s, x) <==> class_at(s, x, marks) == c),
    ensures
        far(t, s, p) == run_end(s, p, c, marks),
    decreases s.len() - p,
{
    if 0 <= p < s.len() && t(s, p) {
        lemma_char_len(s, p);
        lemma_far_run(t, s, char_end(s, p), c, marks);
    } else if 0 <= p < s.len() {
        assert(!t(s, p));
    }
}

proof fn lemma_one(t: CharSet, s: Seq<u8>, p: int)
    ensures
        0 <= p < s.len() && t(s, p) ==> one(t)(s, p) == seq![char_end(s, p)],
        !(0 <= p < s.len() && t(s, p)) ==> one(t)(s, p).len() == 0,
{
}

/// A set once, and then a pattern.
proof fn lemma_one_cat(t: CharSet, b: Pattern, s: Seq<u8>, p: int)
    ensures
        0 <= p < s.len() && t(s, p) ==> cat(one(t), b)(s, p) == b(s, char_end(s, p)),
        !(0 <= p < s.len() && t(s, p)) ==> cat(one(t), b)(s, p).len() == 0,
{
    lemma_one(t, s, p);
    if 0 <= p < s.len() && t(s, p) {
        lemma_each_one(char_end(s, p), s, b);
    } else {
        lemma_each_none(one(t)(s, p), s, b);
    }
}

proof fn lemma_plus(t: CharSet, s: Seq<u8>, p: int)
    ensures
        0 <= p < s.len() && t(s, p) ==> plus(t)(s, p) == run_ends(t, s, char_end(s, p)) && leads(
            plus(t)(s, p),
            Some(far(t, s, p)),
        ),
        !(0 <= p < s.len() && t(s, p)) ==> plus(t)(s, p).len() == 0,
{
    lemma_one_cat(t, star(t), s, p);
    if 0 <= p < s.len() && t(s, p) {
        lemma_run_first(t, s, char_end(s, p));
    }
}

/// An optional character before a pattern: with it first, without it then.
proof fn lemma_opt_cat(t: CharSet, b: Pattern, s: Seq<u8>, p: int)
    ensures
        0 <= p < s.len() && t(s, p) ==> cat(opt(one(t)), b)(s, p) == b(s, char_end(s, p)) + b(s, p),
        !(0 <= p < s.len() && t(s, p)) ==> cat(opt(one(t)), b)(s, p) == b(s, p),
{
    lemma_one(t, s, p);
    lemma_each_one(p, s, b);
    if 0 <= p < s.len() && t(s, p) {
        let e = char_end(s, p);
        lemma_each_one(e, s, b);
        lemma_each_add(seq![e], seq![p], s, b);
    } else {
        assert(opt(one(t))(s, p) =~= seq![p]);
    }
}

proof fn lemma_classes(s: Seq<u8>, x: int, marks: bool)
    requires
        0 <= x < s.len(),
    ensures
        letters(marks)(s, x) <==> class_at(s, x, marks) == CharClass::Letter,
        blanks(marks)(s, x) <==> class_at(s, x, marks) == CharClass::Whitespace,
        others(marks)(s, x) <==> class_at(s, x, marks) == CharClass::Other,
        numbers()(s, x) <==> class_at(s, x, marks) == CharClass::Number,
        line_ends()(s, x) <==> newline(s[x]),
        newline(s[x]) ==> class_at(s, x, marks) == CharClass::Whitespace,
        s[x] == 0x20 ==> class_at(s, x, marks) == CharClass::Whitespace,
        prefixes()(s, x) <==> word_prefix(s, x),
{
}

proof fn lemma_far_classes(s: Seq<u8>, p: int, marks: bool)
    ensures
        far(letters(marks), s, p) == run_end(s, p, CharClass::Letter, marks),
        far(blanks(marks), s, p) == run_end(s, p, CharClass::Whitespace, marks),
        far(others(marks), s, p) == run_end(s, p, CharClass::Other, marks),
        far(numbers(), s, p) == run_end(s, p, CharClass::Number, marks),
{
    assert forall|x: int| 0 <= x < s.len() implies (#[trigger] letters(marks)(s, x) <==> class_at(
        s,
        x,
        marks,
    ) == CharClass::Letter) by {
        lemma_classes(s, x, marks);
    }
    assert forall|x: int| 0 <= x < s.len() implies (#[trigger] blanks(marks)(s, x) <==> class_at(
        s,
        x,
        marks,
    ) == CharClass::Whitespace) by {
        lemma_classes(s, x, marks);
    }
    assert forall|x: int| 0 <= x < s.len() implies (#[trigger] others(marks)(s, x) <==> class_at(
        s,
        x,
        marks,
    ) == CharClass::Other) by {
        lemma_classes(s, x, marks);
    }
    assert forall|x: int| 0 <= x < s.len() implies (#[trigger] numbers()(s, x) <==> class_at(
        s,
        x,
        marks,
    ) == CharClass::Number) by {
        lemma_classes(s, x, marks);
    }
    lemma_far_run(letters(marks), s, p, CharClass::Letter, marks);
    lemma_far_run(blanks(marks), s, p, CharClass::Whitespace, marks);
    lemma_far_run(others(marks), s, p, CharClass::Other, marks);
    lemma_far_run(numbers(), s, p, CharClass::Number, marks);
}

proof fn lemma_far_newlines(s: Seq<u8>, p: int)
    ensures
        far(line_ends(), s, p) == newlines_end(s, p),
        far(line_ends(), s, p) == tail_end(s, p, false),
        far(line_ends_or_slash(), s, p) == tail_end(s, p, true),
    decreases s.len() - p,
{
    if 0 <= p < s.len() {
        lemma_far_newlines(s, p + 1);
    }
}

// Contractions.

proof fn lemma_pair(a: CharSet, b: CharSet, s: Seq<u8>, p: int)
    requires
        forall|x: int| 0 <= x < s.len() && #[trigger] a(s, x) ==> s[x] < 0x80,
        forall|x: int| 0 <= x < s.len() && #[trigger] b(s, x) ==> s[x] < 0x80,
    ensures
        0 <= p && p + 1 < s.len() && a(s, p) && b(s, p + 1) ==> cat(one(a), one(b))(s, p) == seq![
            p + 2,
        ],
        !(0 <= p && p + 1 < s.len() && a(s, p) && b(s, p + 1)) ==> cat(one(a), one(b))(s, p).len()
            == 0,
{
    lemma_one_cat(a, one(b), s, p);
    if 0 <= p < s.len() && a(s, p) {
        assert(char_end(s, p) == p + 1);
        lemma_one(b, s, p + 1);
        if p + 1 < s.len() && b(s, p + 1) {
            assert(char_end(s, p + 1) == p + 2);
        }
    }
}

proof fn lemma_short_forms(s: Seq<u8>, p: int)
    requires
        0 <= p < s.len(),
    ensures
        leads(short_forms()(s, p), contraction(s, p)),
{
    let x = one(any_of('s', 'd', 'm', 't'));
    let ll = cat(one(ch('l')), one(ch('l')));
    let ve = cat(one(ch('v')), one(ch('e')));
    let re = cat(one(ch('r')), one(ch('e')));
    let tail = alt(x, alt(ll, alt(ve, re)));
    lemma_one_cat(ch('\''), tail, s, p);
    if s[p] == 0x27 {
        let q = p + 1;
        assert(char_end(s, p) == q);
        lemma_one(any_of('s', 'd', 'm', 't'), s, q);
        lemma_pair(ch('l'), ch('l'), s, q);
        lemma_pair(ch('v'), ch('e'), s, q);
        lemma_pair(ch('r'), ch('e'), s, q);
        assert(tail(s, q) == x(s, q) + (ll(s, q) + (ve(s, q) + re(s, q))));
    }
}

proof fn lemma_short_forms_any_case(s: Seq<u8>, p: int)
    requires
        0 <= p < s.len(),
    ensures
        leads(short_forms_any_case()(s, p), contraction_nocase(s, p)),
{
    let t = any_of_any_case('s', 'd', 'm', 't');
    let x = one(t);
    let ll = cat(one(any_case('l')), one(any_case('l')));
    let ve = cat(one(any_case('v')), one(any_case('e')));
    let re = cat(one(any_case('r')), one(any_case('e')));
    let tail = alt(x, alt(ll, alt(ve, re)));
    lemma_one_cat(ch('\''), tail, s, p);
    if s[p] == 0x27 {
        let q = p + 1;
        assert(char_end(s, p) == q);
        lemma_one(t, s, q);
        lemma_pair(any_case('l'), any_case('l'), s, q);
        lemma_pair(any_case('v'), any_case('e'), s, q);
        lemma_pair(any_case('r'), any_case('e'), s, q);
        assert(tail(s, q) == x(s, q) + (ll(s, q) + (ve(s, q) + re(s, q))));
        if q < s.len() && s[q] == 0xC5 && q + 1 < s.len() && s[q + 1] == 0xBF {
            assert(char_end(s, q) == q + 2);
        }
    }
}

// White space.

proof fn lemma_each_run_step(t: CharSet, b: Pattern, s: Seq<u8>, p: int)
    ensures
        0 <= p < s.len() && t(s, p) ==> each(run_ends(t, s, p), s, b) == each(
            run_ends(t, s, char_end(s, p)),
            s,
            b,
        ) + b(s, p),
        !(0 <= p < s.len() && t(s, p)) ==> each(run_ends(t, s, p), s, b) == b(s, p),
{
    lemma_each_one(p, s, b);
    if 0 <= p < s.len() && t(s, p) {
        lemma_each_add(run_ends(t, s, char_end(s, p)), seq![p], s, b);
    }
}

proof fn lemma_last_newline_none(s: Seq<u8>, p: int, w: int, none: int)
    requires
        0 <= p,
        w <= s.len(),
    ensures
        last_newline_end(s, p, w, none) == if last_newline_end(s, p, w, -1) == -1 {
            none
        } else {
            last_newline_end(s, p, w, -1)
        },
        last_newline_end(s, p, w, -1) == -1 || last_newline_end(s, p, w, -1) > p,
    decreases s.len() - p,
{
    if p < w {
        lemma_char_len(s, p);
        let q = char_end(s, p);
        lemma_last_newline_none(s, q, w, none);
        lemma_last_newline_none(s, q, w, q);
    }
}

/// `\s*[\r\n]+` and `\s*[\r\n]`.
proof fn lemma_newline_alt(s: Seq<u8>, p: int, marks: bool)
    requires
        0 <= p <= s.len(),
    ensures
        ({
            let w = run_end(s, p, CharClass::Whitespace, marks);
            let nl = last_newline_end(s, p, w, -1);
            let r = if nl == -1 {
                None
            } else {
                Some(nl)
            };
            &&& leads(each(run_ends(blanks(marks), s, p), s, plus(line_ends())), r)
            &&& leads(each(run_ends(blanks(marks), s, p), s, one(line_ends())), r)
            &&& p <= w <= s.len()
            &&& w < s.len() ==> class_at(s, w, marks) != CharClass::Whitespace
        }),
    decreases s.len() - p,
{
    let t = blanks(marks);
    let w = run_end(s, p, CharClass::Whitespace, marks);
    let b = plus(line_ends());
    let c = one(line_ends());
    lemma_each_run_step(t, b, s, p);
    lemma_each_run_step(t, c, s, p);
    lemma_plus(line_ends(), s, p);
    lemma_one(line_ends(), s, p);
    if p < s.len() {
        lemma_classes(s, p, marks);
    }
    if p < s.len() && t(s, p) {
        lemma_char_len(s, p);
        let q = char_end(s, p);
        lemma_newline_alt(s, q, marks);
        lemma_last_newline_none(s, q, w, q);
        if newline(s[p]) && last_newline_end(s, q, w, -1) == -1 {
            lemma_char_len(s, q - 1);
            if q < s.len() {
                lemma_classes(s, q, marks);
                if newline(s[q]) {
                    assert(q < w);
                    lemma_char_len(s, q);
                    lemma_last_newline_none(s, char_end(s, q), w, char_end(s, q));
                }
            }
            assert(far(line_ends(), s, q) == q);
            assert(far(line_ends(), s, p) == q);
        }
    }
}

proof fn lemma_last_char_none(s: Seq<u8>, p: int, w: int, none: int)
    requires
        0 <= p,
        w <= s.len(),
    ensures
        last_char_start(s, p, w, none) == if last_char_start(s, p, w, -1) == -1 {
            none
        } else {
            last_char_start(s, p, w, -1)
        },
        last_char_start(s, p, w, -1) == -1 || last_char_start(s, p, w, -1) >= p,
    decreases s.len() - p,
{
    if p < w {
        lemma_char_len(s, p);
        let q = char_end(s, p);
        lemma_last_char_none(s, q, w, p);
    }
}

/// `\s*(?!\S)` and `\s*$` from the second character on.
proof fn lemma_trail_alt(s: Seq<u8>, p: int, marks: bool)
    requires
        0 <= p <= s.len(),
    ensures
        ({
            let w = run_end(s, p, CharClass::Whitespace, marks);
            let last = last_char_start(s, p, w, -1);
            &&& leads(
                each(run_ends(blanks(marks), s, p), s, no_other_than(blanks(marks))),
                if w >= s.len() {
                    Some(w)
                } else if last == -1 {
                    None
                } else {
                    Some(last)
                },
            )
            &&& leads(
                each(run_ends(blanks(marks), s, p), s, at_end()),
                if w >= s.len() {
                    Some(w)
                } else {
                    None
                },
            )
            &&& p <= w <= s.len()
        }),
    decreases s.len() - p,
{
    let t = blanks(marks);
    let w = run_end(s, p, CharClass::Whitespace, marks);
    let b = no_other_than(t);
    lemma_each_run_step(t, b, s, p);
    lemma_each_run_step(t, at_end(), s, p);
    if p < s.len() {
        lemma_classes(s, p, marks);
    }
    if p < s.len() && t(s, p) {
        lemma_char_len(s, p);
        let q = char_end(s, p);
        lemma_trail_alt(s, q, marks);
        lemma_last_char_none(s, q, w, p);
        assert(b(s, p) == seq![p]);
        assert(at_end()(s, p).len() == 0);
    }
}

proof fn lemma_trailing(s: Seq<u8>, p: int, marks: bool)
    requires
        0 <= p < s.len(),
        class_at(s, p, marks) == CharClass::Whitespace,
    ensures
        ({
            let w = run_end(s, p, CharClass::Whitespace, marks);
            let last = last_char_start(s, p, w, p);
            leads(
                trailing_blanks(marks)(s, p),
                Some(
                    if w < s.len() && last > p {
                        last
                    } else {
                        w
                    },
                ),
            )
        }),
        ({
            let w = run_end(s, p, CharClass::Whitespace, marks);
            leads(
                cat(plus(blanks(marks)), at_end())(s, p),
                if w >= s.len() {
                    Some(w)
                } else {
                    None
                },
            )
        }),
{
    let t = blanks(marks);
    lemma_classes(s, p, marks);
    lemma_char_len(s, p);
    let q = char_end(s, p);
    let w = run_end(s, p, CharClass::Whitespace, marks);
    lemma_plus(t, s, p);
    lemma_far_classes(s, p, marks);
    lemma_trail_alt(s, q, marks);
    lemma_last_char_none(s, q, w, p);
    let a = cat(plus(t), no_other_than(t));
    assert(trailing_blanks(marks)(s, p) == a(s, p) + plus(t)(s, p));
}

proof fn lemma_blanks(s: Seq<u8>, p: int, marks: bool, whole: bool)
    requires
        0 <= p < s.len(),
        class_at(s, p, marks) == CharClass::Whitespace,
    ensures
        leads(blanks_pattern(marks, whole)(s, p), Some(ws_token_end(s, p, marks, whole))),
{
    let t = blanks(marks);
    let w = run_end(s, p, CharClass::Whitespace, marks);
    lemma_trailing(s, p, marks);
    lemma_newline_alt(s, p, marks);
    lemma_last_newline_none(s, p, w, 0);
    let a = cat(plus(t), at_end());
    let b = cat(star(t), one(line_ends()));
    let c = cat(star(t), plus(line_ends()));
    let d = trailing_blanks(marks);
    assert(b(s, p) == each(run_ends(t, s, p), s, one(line_ends())));
    assert(c(s, p) == each(run_ends(t, s, p), s, plus(line_ends())));
    if whole {
        assert(blanks_pattern(marks, whole)(s, p) == a(s, p) + (b(s, p) + d(s, p)));
    } else {
        assert(blanks_pattern(marks, whole)(s, p) == c(s, p) + d(s, p));
    }
}

// Runs with a space before.

proof fn lemma_spaced(t: CharSet, s: Seq<u8>, p: int)
    requires
        0 <= p < s.len(),
        s[p] == 0x20 ==> !t(s, p),
    ensures
        ({
            let q = if s[p] == 0x20 {
                p + 1
            } else {
                p
            };
            leads(
                spaced(t)(s, p),
                if q < s.len() && t(s, q) {
                    Some(far(t, s, q))
                } else {
                    None
                },
            )
        }),
{
    lemma_opt_cat(ch(' '), plus(t), s, p);
    lemma_plus(t, s, p);
    lemma_plus(t, s, p + 1);
    if s[p] == 0x20 {
        assert(char_end(s, p) == p + 1);
    }
}

proof fn lemma_prefixed_letters(s: Seq<u8>, p: int, marks: bool)
    requires
        0 <= p < s.len(),
    ensures
        leads(cat(opt(one(prefixes())), plus(letters(marks)))(s, p), letters_alt(s, p, marks)),
{
    let t = letters(marks);
    lemma_opt_cat(prefixes(), plus(t), s, p);
    lemma_char_len(s, p);
    let q = char_end(s, p);
    lemma_plus(t, s, p);
    lemma_plus(t, s, q);
    lemma_far_classes(s, p, marks);
    lemma_far_classes(s, q, marks);
    lemma_classes(s, p, marks);
    lemma_classes(s, p, false);
    if q < s.len() {
        lemma_classes(s, q, marks);
    }
}

proof fn lemma_short_run(s: Seq<u8>, p: int, n: nat)
    requires
        0 <= p <= s.len(),
    ensures
        leads(short_run_ends(numbers(), s, p, n), Some(numbers_end(s, p, n))),
    decreases n,
{
    if p < s.len() {
        lemma_classes(s, p, false);
        lemma_char_len(s, p);
        if n > 0 && numbers()(s, p) {
            lemma_short_run(s, char_end(s, p), (n - 1) as nat);
        }
    }
}

proof fn lemma_digits(s: Seq<u8>, p: int, digits3: bool)
    requires
        0 <= p < s.len(),
    ensures
        leads(
            up_to(
                numbers(),
                if digits3 {
                    3
                } else {
                    1
                },
            )(s, p),
            digits_alt(s, p, digits3),
        ),
{
    let n: nat = if digits3 {
        3
    } else {
        1
    };
    let b = |s: Seq<u8>, p: int| short_run_ends(numbers(), s, p, (n - 1) as nat);
    lemma_one_cat(numbers(), b, s, p);
    lemma_classes(s, p, false);
    lemma_char_len(s, p);
    lemma_short_run(s, char_end(s, p), (n - 1) as nat);
}

proof fn lemma_punct(s: Seq<u8>, p: int, marks: bool)
    requires
        0 <= p < s.len(),
    ensures
        leads(cat(spaced(others(marks)), star(line_ends()))(s, p), punct_alt(s, p, marks)),
{
    let t = others(marks);
    lemma_classes(s, p, marks);
    lemma_spaced(t, s, p);
    let q = if s[p] == 0x20 {
        p + 1
    } else {
        p
    };
    let v = spaced(t)(s, p);
    if q < s.len() {
        lemma_classes(s, q, marks);
    }
    if q < s.len() && t(s, q) {
        lemma_far_classes(s, q, marks);
        let e = far(t, s, q);
        lemma_run_first(line_ends(), s, e);
        lemma_far_newlines(s, e);
        assert(star(line_ends())(s, v[0]) == run_ends(line_ends(), s, e));
        lemma_each_first(v, s, star(line_ends()));
    }
}

proof fn lemma_punct_tail(s: Seq<u8>, p: int, slash: bool)
    requires
        0 <= p < s.len(),
    ensures
        leads(
            cat(
                spaced(others(false)),
                star(
                    if slash {
                        line_ends_or_slash()
                    } else {
                        line_ends()
                    },
                ),
            )(s, p),
            punct_tail_alt(s, p, slash),
        ),
{
    let t = others(false);
    let u = if slash {
        line_ends_or_slash()
    } else {
        line_ends()
    };
    lemma_classes(s, p, false);
    lemma_spaced(t, s, p);
    let q = if s[p] == 0x20 {
        p + 1
    } else {
        p
    };
    let v = spaced(t)(s, p);
    if q < s.len() {
        lemma_classes(s, q, false);
    }
    if q < s.len() && t(s, q) {
        lemma_far_classes(s, q, false);
        let e = far(t, s, q);
        lemma_run_first(u, s, e);
        lemma_far_newlines(s, e);
        assert(star(u)(s, v[0]) == run_ends(u, s, e));
        lemma_each_first(v, s, star(u));
    }
}

proof fn lemma_gpt4(s: Seq<u8>, p: int, r: Cl100kRules)
    requires
        0 <= p < s.len(),
    ensures
        leads(
            gpt4_pattern(
                if r.digits3 {
                    3
                } else {
                    1
                },
                r.marks_join,
                r.eos_ws_whole,
            )(s, p),
            Some(family_token_end(s, p, r)),
        ),
{
    let n: nat = if r.digits3 {
        3
    } else {
        1
    };
    let m = r.marks_join;
    lemma_short_forms_any_case(s, p);
    lemma_prefixed_letters(s, p, m);
    lemma_digits(s, p, r.digits3);
    lemma_punct(s, p, m);
    lemma_classes(s, p, m);
    lemma_classes(s, p, false);
    let a = short_forms_any_case();
    let b = cat(opt(one(prefixes())), plus(letters(m)));
    let c = up_to(numbers(), n);
    let d = cat(spaced(others(m)), star(line_ends()));
    let e = blanks_pattern(m, r.eos_ws_whole);
    assert(gpt4_pattern(n, m, r.eos_ws_whole)(s, p) == a(s, p) + (b(s, p) + (c(s, p) + (d(s, p) + e(
        s,
        p,
    )))));
    if class_at(s, p, m) == CharClass::Whitespace {
        lemma_blanks(s, p, m, r.eos_ws_whole);
    }
}

// GPT-2.

proof fn lemma_back_is_last(s: Seq<u8>, p: int, w: int)
    requires
        whole_chars(s),
        0 <= p < w <= s.len(),
        boundary(s, p),
        boundary(s, w),
    ensures
        back_to_lead(s, p, w - 1) == last_char_start(s, p, w, p),
    decreases w - p,
{
    lemma_char_boundary(s, p);
    lemma_char_len(s, p);
    let q = char_end(s, p);
    if q > w {
        assert(continuation(s[w]));
    } else if q == w {
        lemma_back_through(s, p, w - 1);
        assert(last_char_start(s, q, w, p) == p);
    } else {
        lemma_back_is_last(s, q, w);
        lemma_back_lower(s, p, q, w - 1);
        assert(last_char_start(s, p, w, p) == last_char_start(s, q, w, p));
        let n = char_end(s, q);
        assert(last_char_start(s, q, w, p) == last_char_start(s, n, w, q));
        assert(last_char_start(s, q, w, q) == last_char_start(s, n, w, q));
    }
}

proof fn lemma_back_through(s: Seq<u8>, p: int, i: int)
    requires
        0 <= p <= i < s.len(),
        forall|x: int| p < x <= i ==> continuation(#[trigger] s[x]),
    ensures
        back_to_lead(s, p, i) == p,
    decreases i - p,
{
    if i > p {
        assert(continuation(s[i]));
        lemma_back_through(s, p, i - 1);
    }
}

proof fn lemma_back_lower(s: Seq<u8>, p: int, q: int, i: int)
    requires
        0 <= p <= q <= i < s.len(),
        !continuation(s[q]),
    ensures
        back_to_lead(s, p, i) == back_to_lead(s, q, i),
    decreases i - q,
{
    if i > q && continuation(s[i]) {
        lemma_back_lower(s, p, q, i - 1);
    }
}

proof fn lemma_gpt2(s: Seq<u8>, p: int)
    requires
        whole_chars(s),
        boundary(s, p),
        0 <= p < s.len(),
    ensures
        leads(gpt2_pattern()(s, p), Some(r50k_token_end(s, p))),
{
    lemma_short_forms(s, p);
    lemma_classes(s, p, false);
    lemma_spaced(letters(false), s, p);
    lemma_spaced(numbers(), s, p);
    lemma_spaced(others(false), s, p);
    let q = if s[p] == 0x20 && p + 1 < s.len() {
        p + 1
    } else {
        p
    };
    lemma_far_classes(s, q, false);
    lemma_classes(s, q, false);
    let a = short_forms();
    let b = spaced(letters(false));
    let c = spaced(numbers());
    let d = spaced(others(false));
    let e = trailing_blanks(false);
    assert(gpt2_pattern()(s, p) == a(s, p) + (b(s, p) + (c(s, p) + (d(s, p) + e(s, p)))));
    if contraction(s, p) is None && class_at(s, q, false) == CharClass::Whitespace {
        lemma_trailing(s, p, false);
        let w = run_end(s, p, CharClass::Whitespace, false);
        lemma_newline_alt(s, p, false);
        lemma_char_len(s, p);
        lemma_newline_alt(s, char_end(s, p), false);
        lemma_far_boundary(s, p);
        lemma_back_is_last(s, p, w);
    }
}

proof fn lemma_far_boundary(s: Seq<u8>, p: int)
    requires
        whole_chars(s),
        boundary(s, p),
    ensures
        boundary(s, run_end(s, p, CharClass::Whitespace, false)),
    decreases s.len() - p,
{
    if 0 <= p < s.len() && class_at(s, p, false) == CharClass::Whitespace {
        lemma_char_boundary(s, p);
        lemma_char_len(s, p);
        lemma_far_boundary(s, char_end(s, p));
    }
}

// Cased words.

proof fn lemma_parts(s: Seq<u8>, x: int, no_han: bool)
    requires
        0 <= x < s.len(),
    ensures
        uppers(no_han)(s, x) <==> in_part(part_at(s, x, no_han), true),
        lowers(no_han)(s, x) <==> in_part(part_at(s, x, no_han), false),
        han()(s, x) <==> han_at(s, x),
{
}

proof fn lemma_far_parts(s: Seq<u8>, p: int, no_han: bool)
    ensures
        far(uppers(no_han), s, p) == part_end(s, p, true, no_han),
        far(lowers(no_han), s, p) == part_end(s, p, false, no_han),
        far(han(), s, p) == han_end(s, p),
    decreases s.len() - p,
{
    if 0 <= p < s.len() {
        lemma_parts(s, p, no_han);
        lemma_char_len(s, p);
        lemma_far_parts(s, char_end(s, p), no_han);
    }
}

proof fn lemma_last_either_none(s: Seq<u8>, p: int, w: int, no_han: bool, none: int)
    requires
        0 <= p,
        w <= s.len(),
    ensures
        last_either_end(s, p, w, no_han, none) == if last_either_end(s, p, w, no_han, -1) == -1 {
            none
        } else {
            last_either_end(s, p, w, no_han, -1)
        },
        last_either_end(s, p, w, no_han, -1) == -1 || last_either_end(s, p, w, no_han, -1) > p,
    decreases s.len() - p,
{
    if p < w {
        lemma_char_len(s, p);
        let q = char_end(s, p);
        lemma_last_either_none(s, q, w, no_han, none);
        lemma_last_either_none(s, q, w, no_han, q);
    }
}

/// `U*L+`.
proof fn lemma_upper_lower(s: Seq<u8>, p: int, no_han: bool)
    requires
        0 <= p <= s.len(),
    ensures
        ({
            let u = part_end(s, p, true, no_han);
            let t = last_either_end(s, p, u, no_han, -1);
            &&& leads(
                each(run_ends(uppers(no_han), s, p), s, plus(lowers(no_han))),
                if u < s.len() && part_at(s, u, no_han) == WordPart::Lower {
                    Some(part_end(s, u, false, no_han))
                } else if t == -1 {
                    None
                } else {
                    Some(t)
                },
            )
            &&& p <= u <= s.len()
            &&& u < s.len() ==> !in_part(part_at(s, u, no_han), true)
        }),
    decreases s.len() - p,
{
    let t = uppers(no_han);
    let b = plus(lowers(no_han));
    let u = part_end(s, p, true, no_han);
    lemma_each_run_step(t, b, s, p);
    lemma_plus(lowers(no_han), s, p);
    lemma_far_parts(s, p, no_han);
    if p < s.len() {
        lemma_parts(s, p, no_han);
    }
    if p < s.len() && t(s, p) {
        lemma_char_len(s, p);
        let q = char_end(s, p);
        lemma_upper_lower(s, q, no_han);
        lemma_last_either_none(s, q, u, no_han, q);
        let low = u < s.len() && part_at(s, u, no_han) == WordPart::Lower;
        if !low && last_either_end(s, q, u, no_han, -1) == -1 && part_at(s, p, no_han)
            == WordPart::Either {
            if q < s.len() {
                lemma_parts(s, q, no_han);
                if in_part(part_at(s, q, no_han), false) {
                    if q < u {
                        assert(in_part(part_at(s, q, no_han), true));
                        assert(part_at(s, q, no_han) == WordPart::Either);
                        lemma_char_len(s, q);
                        lemma_last_either_none(s, char_end(s, q), u, no_han, char_end(s, q));
                    }
                }
            }
            assert(part_end(s, q, false, no_han) == q);
        }
    }
}

/// `U+L*`.
proof fn lemma_upper_only(s: Seq<u8>, p: int, no_han: bool)
    requires
        0 <= p <= s.len(),
    ensures
        leads(
            cat(plus(uppers(no_han)), star(lowers(no_han)))(s, p),
            upper_only(s, p, no_han),
        ),
{
    let t = uppers(no_han);
    lemma_plus(t, s, p);
    lemma_far_parts(s, p, no_han);
    let u = part_end(s, p, true, no_han);
    lemma_upper_lower(s, p, no_han);
    if p < s.len() {
        lemma_parts(s, p, no_han);
        lemma_char_len(s, p);
        if t(s, p) {
            lemma_upper_lower(s, char_end(s, p), no_han);
            let v = plus(t)(s, p);
            lemma_run_first(lowers(no_han), s, u);
            lemma_far_parts(s, u, no_han);
            assert(star(lowers(no_han))(s, v[0]) == run_ends(lowers(no_han), s, u));
            lemma_each_first(v, s, star(lowers(no_han)));
        }
    }
}

/// A pattern that always matches behind one that leads to `r`.
proof fn lemma_cat_leads(v: Seq<int>, r: Option<int>, b: Pattern, s: Seq<u8>)
    requires
        leads(v, r),
        r matches Some(e) ==> b(s, e).len() > 0,
    ensures
        leads(
            each(v, s, b),
            match r {
                Some(e) => Some(b(s, e)[0]),
                None => None,
            },
        ),
{
    if r is Some {
        lemma_each_first(v, s, b);
    }
}

proof fn lemma_upper_lower_pattern(s: Seq<u8>, p: int, no_han: bool)
    requires
        0 <= p <= s.len(),
    ensures
        leads(cat(star(uppers(no_han)), plus(lowers(no_han)))(s, p), upper_lower(s, p, no_han)),
{
    lemma_upper_lower(s, p, no_han);
    let u = part_end(s, p, true, no_han);
    lemma_last_either_none(s, p, u, no_han, p);
    assert(cat(star(uppers(no_han)), plus(lowers(no_han)))(s, p) == each(
        run_ends(uppers(no_han), s, p),
        s,
        plus(lowers(no_han)),
    ));
}

proof fn lemma_suffix(s: Seq<u8>, e: int, contractions: bool)
    requires
        0 <= e <= s.len(),
    ensures
        leads(
            (if contractions {
                opt(short_forms_any_case())
            } else {
                nothing()
            })(s, e),
            Some(with_contraction(s, e, contractions)),
        ),
{
    if contractions {
        if e < s.len() {
            lemma_short_forms_any_case(s, e);
        } else {
            lemma_one_cat(
                ch('\''),
                alt(
                    one(any_of_any_case('s', 'd', 'm', 't')),
                    alt(
                        cat(one(any_case('l')), one(any_case('l'))),
                        alt(
                            cat(one(any_case('v')), one(any_case('e'))),
                            cat(one(any_case('r')), one(any_case('e'))),
                        ),
                    ),
                ),
                s,
                e,
            );
            assert(short_forms_any_case()(s, e).len() == 0);
        }
    }
}

proof fn lemma_word_ends_in(s: Seq<u8>, p: int, no_han: bool)
    requires
        0 <= p <= s.len(),
    ensures
        upper_lower(s, p, no_han) matches Some(e) ==> 0 <= e <= s.len(),
        upper_only(s, p, no_han) matches Some(e) ==> 0 <= e <= s.len(),
{
    lemma_upper_lower(s, p, no_han);
    let u = part_end(s, p, true, no_han);
    lemma_part_in(s, u, no_han);
    lemma_either_in(s, p, u, no_han, p);
}

proof fn lemma_part_in(s: Seq<u8>, p: int, no_han: bool)
    requires
        0 <= p <= s.len(),
    ensures
        p <= part_end(s, p, false, no_han) <= s.len(),
    decreases s.len() - p,
{
    if p < s.len() {
        lemma_char_len(s, p);
        lemma_part_in(s, char_end(s, p), no_han);
    }
}

proof fn lemma_either_in(s: Seq<u8>, p: int, w: int, no_han: bool, none: int)
    requires
        0 <= p <= s.len(),
        w <= s.len(),
        0 <= none <= s.len(),
    ensures
        0 <= last_either_end(s, p, w, no_han, none) <= s.len(),
    decreases s.len() - p,
{
    if p < w {
        lemma_char_len(s, p);
        let q = char_end(s, p);
        lemma_either_in(
            s,
            q,
            w,
            no_han,
            if part_at(s, p, no_han) == WordPart::Either {
                q
            } else {
                none
            },
        );
    }
}

proof fn lemma_cased_words(s: Seq<u8>, p: int, no_han: bool, contractions: bool)
    requires
        0 <= p < s.len(),
    ensures
        leads(
            cased_words(
                no_han,
                if contractions {
                    opt(short_forms_any_case())
                } else {
                    nothing()
                },
            )(s, p),
            match word_alt(s, p, no_han) {
                Some(e) => Some(with_contraction(s, e, contractions)),
                None => None,
            },
        ),
{
    let suffix = if contractions {
        opt(short_forms_any_case())
    } else {
        nothing()
    };
    let ul = cat(star(uppers(no_han)), plus(lowers(no_han)));
    let uo = cat(plus(uppers(no_han)), star(lowers(no_han)));
    lemma_char_len(s, p);
    let q = char_end(s, p);
    lemma_classes(s, p, false);
    lemma_upper_lower_pattern(s, p, no_han);
    lemma_upper_lower_pattern(s, q, no_han);
    lemma_upper_only(s, p, no_han);
    lemma_upper_only(s, q, no_han);
    lemma_word_ends_in(s, p, no_han);
    lemma_word_ends_in(s, q, no_han);
    lemma_opt_cat(prefixes(), ul, s, p);
    lemma_opt_cat(prefixes(), uo, s, p);
    let a = cat(opt(one(prefixes())), ul);
    let b = cat(opt(one(prefixes())), uo);
    let ra = if word_prefix(s, p) && upper_lower(s, q, no_han) is Some {
        upper_lower(s, q, no_han)
    } else {
        upper_lower(s, p, no_han)
    };
    let rb = if word_prefix(s, p) && upper_only(s, q, no_han) is Some {
        upper_only(s, q, no_han)
    } else {
        upper_only(s, p, no_han)
    };
    assert(leads(a(s, p), ra));
    assert(leads(b(s, p), rb));
    if ra is Some {
        lemma_suffix(s, ra->0, contractions);
    }
    if rb is Some {
        lemma_suffix(s, rb->0, contractions);
    }
    lemma_cat_leads(a(s, p), ra, suffix, s);
    lemma_cat_leads(b(s, p), rb, suffix, s);
    let x = cat(a, suffix);
    let y = cat(b, suffix);
    assert(cased_words(no_han, suffix)(s, p) == x(s, p) + y(s, p));
    assert(x(s, p) == each(a(s, p), s, suffix));
    assert(y(s, p) == each(b(s, p), s, suffix));
}

proof fn lemma_o200k(s: Seq<u8>, p: int, r: O200kRules)
    requires
        0 <= p < s.len(),
        !(r.han && han_at(s, p)),
    ensures
        leads(
            o200k_pattern(
                r.contractions,
                if r.digits3 {
                    3
                } else {
                    1
                },
                r.slash,
                r.han,
            )(s, p),
            Some(o200k_token_end(s, p, r)),
        ),
{
    let n: nat = if r.digits3 {
        3
    } else {
        1
    };
    let suffix = if r.contractions {
        opt(short_forms_any_case())
    } else {
        nothing()
    };
    let u = if r.slash {
        line_ends_or_slash()
    } else {
        line_ends()
    };
    lemma_cased_words(s, p, r.han, r.contractions);
    lemma_digits(s, p, r.digits3);
    lemma_punct_tail(s, p, r.slash);
    lemma_classes(s, p, false);
    let a = cased_words(r.han, suffix);
    let b = up_to(numbers(), n);
    let c = cat(spaced(others(false)), star(u));
    let d = blanks_pattern(false, false);
    assert(o200k_pattern(r.contractions, n, r.slash, r.han)(s, p) == a(s, p) + (b(s, p) + (c(s, p)
        + d(s, p))));
    if class_at(s, p, false) == CharClass::Whitespace {
        lemma_blanks(s, p, false, false);
    } else if class_at(s, p, false) == CharClass::Letter {
        lemma_letter_is_word(s, p, r.han);
    }
}

/// A letter that is not Han where Han is apart starts a word.
proof fn lemma_letter_is_word(s: Seq<u8>, p: int, no_han: bool)
    requires
        0 <= p < s.len(),
        class_at(s, p, false) == CharClass::Letter,
        !(no_han && han_at(s, p)),
    ensures
        word_alt(s, p, no_han) is Some,
{
    lemma_upper_lower(s, p, no_han);
    let u = part_end(s, p, true, no_han);
    lemma_char_len(s, p);
    if in_part(part_at(s, p, no_han), true) {
        lemma_upper_lower(s, char_end(s, p), no_han);
        assert(u > p);
    } else {
        assert(part_at(s, p, no_han) == WordPart::Lower);
        assert(u == p);
    }
}

/// Each scheme cuts text by its pattern: a token ends where the preferred match
/// of the pattern does. For GPT-2 the text is made of whole characters and the
/// token starts at one.
pub proof fn law_token_is_the_match(t: PretokenizerType, s: Seq<u8>, p: int)
    requires
        0 <= p < s.len(),
        t == PretokenizerType::GPT2 ==> whole_chars(s) && boundary(s, p),
    ensures
        pattern_of(t)(s, p).len() > 0,
        pattern_of(t)(s, p)[0] == token_end(t, s, p),
{
    match t {
        PretokenizerType::GPT2 => {
            lemma_gpt2(s, p);
        },
        PretokenizerType::GPT4 => {
            lemma_gpt4(
                s,
                p,
                Cl100kRules { digits3: true, eos_ws_whole: true, marks_join: false },
            );
        },
        PretokenizerType::Qwen2 => {
            lemma_gpt4(
                s,
                p,
                Cl100kRules { digits3: false, eos_ws_whole: false, marks_join: false },
            );
        },
        PretokenizerType::Qwen35 => {
            lemma_gpt4(
                s,
                p,
                Cl100kRules { digits3: false, eos_ws_whole: false, marks_join: true },
            );
        },
        PretokenizerType::Olmo3 => {
            lemma_gpt4(
                s,
                p,
                Cl100kRules { digits3: true, eos_ws_whole: false, marks_join: false },
            );
        },
        PretokenizerType::O200k => {
            lemma_o200k(
                s,
                p,
                O200kRules { contractions: true, digits3: true, slash: true, han: false },
            );
        },
        PretokenizerType::Nemotron => {
            lemma_o200k(
                s,
                p,
                O200kRules { contractions: false, digits3: false, slash: true, han: false },
            );
        },
        PretokenizerType::Kimi => {
            lemma_plus(han(), s, p);
            lemma_parts(s, p, true);
            lemma_far_parts(s, p, true);
            let a = plus(han());
            let b = o200k_pattern(true, 3, false, true);
            assert(pattern_of(t)(s, p) == a(s, p) + b(s, p));
            if !han_at(s, p) {
                lemma_o200k(
                    s,
                    p,
                    O200kRules { contractions: true, digits3: true, slash: false, han: true },
                );
            }
        },
    }
}

} // verus!
