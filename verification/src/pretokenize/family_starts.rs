//! Where the tokens of the cl100k family start.
use crate::pretokenize::chars::{
    char_cp, char_end, class_at, lemma_char_len, lemma_run_end, newline, newlines_end, numbers_end,
    run_end,
};
use crate::pretokenize::cl100k_family::{
    digits_alt, lemma_newlines_end, lemma_number_class, lemma_numbers_end, letters_alt, punct_alt,
    Cl100kRules,
};
use crate::pretokenize::locality::{
    boundary, lemma_char_boundary, lemma_run_boundary, whole_char, whole_chars,
};
use crate::pretokenize::r50k::continuation;
use crate::pretokenize::r50k_starts::{
    lemma_prev_char, lemma_prev_of_end, lemma_run_prev, prev_lead,
};
use crate::pretokenize::scheme::{scheme_rules, token_end, PretokenizerType, SchemeRules};
use crate::pretokenize::starts::{describes, is_start, lemma_described};
use crate::pretokenize::unicode::{cp_class, CharClass};
use crate::pretokenize::words::{
    contraction_nocase, last_char_start, last_newline_end, ws_token_end,
};
use vstd::prelude::*;

verus! {

/// U+017F, which folds to `s`, is a letter.
pub open spec fn long_s_is_letter(marks: bool) -> bool {
    cp_class(0x17F, marks) == CharClass::Letter
}

/// The class of the character before `x`.
pub open spec fn prev_class(s: Seq<u8>, x: int, m: bool) -> CharClass {
    class_at(s, prev_lead(s, x), m)
}

/// A punctuation character at `q` does not continue punctuation, nor follow a
/// space.
pub open spec fn other_starts(s: Seq<u8>, q: int, m: bool) -> bool {
    q == 0 || (prev_class(s, q, m) != CharClass::Other && s[q - 1] != 0x20)
}

/// How many characters of its number run stand before `x`.
pub open spec fn num_index(s: Seq<u8>, x: int, m: bool) -> nat
    decreases x,
{
    if 0 <= prev_lead(s, x) < x && prev_class(s, x, m) == CharClass::Number {
        num_index(s, prev_lead(s, x), m) + 1
    } else {
        0
    }
}

/// The newline at `x` follows punctuation, other newlines between them, and
/// belongs to its token.
pub open spec fn absorbed(s: Seq<u8>, x: int, m: bool) -> bool
    decreases x,
{
    &&& 0 < x < s.len()
    &&& newline(s[x])
    &&& prev_class(s, x, m) == CharClass::Other || absorbed(s, x - 1, m)
}

/// No newline from `x` to before `w`.
pub open spec fn no_newline(s: Seq<u8>, x: int, w: int) -> bool {
    forall|j: int| x <= j < w ==> !newline(#[trigger] s[j])
}

/// A token starts with the whitespace at `x`: where its run starts, behind the
/// last newline of the run, or at its last character before something else.
pub open spec fn ws_base(s: Seq<u8>, x: int, r: Cl100kRules) -> bool {
    let m = r.marks_join;
    let w = run_end(s, x, CharClass::Whitespace, m);
    &&& !absorbed(s, x, m)
    &&& {
        ||| prev_class(s, x, m) != CharClass::Whitespace
        ||| absorbed(s, prev_lead(s, x), m)
        ||| newline(s[x - 1]) && no_newline(s, x, w) && !(r.eos_ws_whole && w >= s.len())
        ||| char_end(s, x) == w && w < s.len() && !newline(s[x])
    }
}

/// A token starts at `x`, contractions aside.
pub open spec fn family_base(s: Seq<u8>, x: int, r: Cl100kRules) -> bool {
    let m = r.marks_join;
    let pc = prev_class(s, x, m);
    x == 0 || match class_at(s, x, m) {
        CharClass::Letter => {
            &&& pc != CharClass::Letter
            &&& !(pc == CharClass::Whitespace && !newline(s[x - 1]))
            &&& !(pc == CharClass::Other && other_starts(s, prev_lead(s, x), m))
        },
        CharClass::Number => r.digits3 ==> num_index(s, x, m) % 3 == 0,
        CharClass::Other => pc != CharClass::Other && s[x - 1] != 0x20,
        CharClass::Whitespace => ws_base(s, x, r),
    }
}

/// A contraction token starts at `i` and ends at `e`.
pub open spec fn family_contracts(s: Seq<u8>, i: int, e: int, r: Cl100kRules) -> bool {
    0 <= i < s.len() && family_base(s, i, r) && contraction_nocase(s, i) == Some(e)
}

/// A token starts at `x`.
pub open spec fn family_start(s: Seq<u8>, x: int, r: Cl100kRules) -> bool {
    &&& boundary(s, x)
    &&& {
        ||| family_base(s, x, r) && !family_contracts(s, x - 1, x + 1, r) && !family_contracts(
            s,
            x - 1,
            x + 2,
            r,
        )
        ||| family_contracts(s, x - 2, x, r)
        ||| family_contracts(s, x - 3, x, r)
    }
}

/// A contraction ends behind a letter.
pub proof fn lemma_nocase_letters(s: Seq<u8>, i: int, m: bool)
    requires
        whole_chars(s),
        long_s_is_letter(m),
        0 <= i < s.len(),
        contraction_nocase(s, i) is Some,
    ensures
        s[i] == 0x27,
        ({
            let e = contraction_nocase(s, i)->0;
            &&& e == i + 2 || e == i + 3
            &&& e <= s.len()
            &&& boundary(s, e)
            &&& boundary(s, i + 1)
            &&& class_at(s, i + 1, m) == CharClass::Letter
            &&& prev_class(s, e, m) == CharClass::Letter
            &&& prev_lead(s, i + 1) == i
            &&& e == i + 3 && boundary(s, i + 2) ==> class_at(s, i + 2, m) == CharClass::Letter
                && prev_lead(s, i + 2) == i + 1
            &&& s[i + 1] != 0x27 && s[e - 1] != 0x27
        }),
{
    let e = contraction_nocase(s, i)->0;
    assert(whole_char(s, i));
    assert(whole_char(s, i + 1));
    lemma_prev_of_end(s, i);
    lemma_prev_of_end(s, i + 1);
    if s[i + 1] == 0xC5 {
        assert(char_cp(s, i + 1) == 0x17F);
    } else if e == i + 3 {
        assert(whole_char(s, i + 2));
        lemma_prev_of_end(s, i + 2);
    }
}

/// What a token that starts at `p` and ends at `e` has to satisfy.
pub open spec fn steps(s: Seq<u8>, p: int, e: int, r: Cl100kRules) -> bool {
    &&& p < e <= s.len()
    &&& e < s.len() ==> family_start(s, e, r)
    &&& forall|x: int| p < x < e ==> !#[trigger] family_start(s, x, r)
}

/// Behind a contraction's end, or at a base start, nothing depends on how the
/// start came about.
proof fn lemma_start_base(s: Seq<u8>, p: int, r: Cl100kRules)
    requires
        whole_chars(s),
        long_s_is_letter(r.marks_join),
        0 <= p < s.len(),
        family_start(s, p, r),
        class_at(s, p, r.marks_join) != CharClass::Letter,
    ensures
        family_base(s, p, r),
{
    let m = r.marks_join;
    if !family_base(s, p, r) {
        let i = if family_contracts(s, p - 2, p, r) {
            p - 2
        } else {
            p - 3
        };
        lemma_nocase_letters(s, i, m);
        assert(prev_class(s, p, m) == CharClass::Letter);
        lemma_prev_char(s, p);
        let v = prev_lead(s, p);
        if class_at(s, p, m) == CharClass::Whitespace {
            if absorbed(s, p, m) {
                assert(absorbed(s, p - 1, m));
                assert(s[p - 1] < 0x80);
                assert(v == p - 1) by {
                    if v < p - 1 {
                        assert(continuation(s[p - 1]));
                    }
                }
            }
        }
        assert(s[p - 1] != 0x20) by {
            if v < p - 1 {
                assert(continuation(s[p - 1]));
            }
        }
    }
}

/// No contraction ends at `x` where the character before is no letter.
pub proof fn lemma_no_contraction_end(s: Seq<u8>, x: int, r: Cl100kRules)
    requires
        whole_chars(s),
        long_s_is_letter(r.marks_join),
        0 < x <= s.len(),
        prev_class(s, x, r.marks_join) != CharClass::Letter,
    ensures
        !family_contracts(s, x - 2, x, r),
        !family_contracts(s, x - 3, x, r),
{
    if family_contracts(s, x - 2, x, r) {
        lemma_nocase_letters(s, x - 2, r.marks_join);
    }
    if family_contracts(s, x - 3, x, r) {
        lemma_nocase_letters(s, x - 3, r.marks_join);
    }
}

/// No contraction covers `x` where the character there is no letter.
pub proof fn lemma_not_covered(s: Seq<u8>, x: int, r: Cl100kRules)
    requires
        whole_chars(s),
        long_s_is_letter(r.marks_join),
        0 <= x < s.len(),
        class_at(s, x, r.marks_join) != CharClass::Letter || x == 0 || s[x - 1] != 0x27,
    ensures
        !family_contracts(s, x - 1, x + 1, r),
        !family_contracts(s, x - 1, x + 2, r),
{
    if family_contracts(s, x - 1, x + 1, r) || family_contracts(s, x - 1, x + 2, r) {
        lemma_nocase_letters(s, x - 1, r.marks_join);
    }
}

proof fn lemma_step_contraction(s: Seq<u8>, p: int, r: Cl100kRules)
    requires
        whole_chars(s),
        long_s_is_letter(r.marks_join),
        0 <= p < s.len(),
        family_start(s, p, r),
        contraction_nocase(s, p) is Some,
    ensures
        steps(s, p, contraction_nocase(s, p)->0, r),
{
    let m = r.marks_join;
    let e = contraction_nocase(s, p)->0;
    lemma_nocase_letters(s, p, m);
    lemma_start_base(s, p, r);
    assert(family_contracts(s, p, e, r));
    assert forall|x: int| p < x < e implies !#[trigger] family_start(s, x, r) by {
        if boundary(s, x) {
            if family_contracts(s, x - 2, x, r) {
                lemma_nocase_letters(s, x - 2, m);
            }
            if family_contracts(s, x - 3, x, r) {
                lemma_nocase_letters(s, x - 3, m);
            }
            if x == p + 1 {
                assert(family_contracts(s, x - 1, x + 1, r) || family_contracts(
                    s,
                    x - 1,
                    x + 2,
                    r,
                ));
            } else {
                assert(prev_class(s, x, m) == CharClass::Letter);
            }
        }
    }
}

/// No contraction ends inside a letter run that starts a token.
proof fn lemma_letters_meet(s: Seq<u8>, p: int, q: int, i: int, x: int, r: Cl100kRules)
    requires
        whole_chars(s),
        long_s_is_letter(r.marks_join),
        0 <= p < s.len(),
        family_start(s, p, r),
        contraction_nocase(s, p) is None,
        boundary(s, q),
        q == p || (q == char_end(s, p) && class_at(s, p, r.marks_join) != CharClass::Letter),
        q < x < run_end(s, q, CharClass::Letter, r.marks_join),
        boundary(s, x),
        x == i + 2 || x == i + 3,
    ensures
        !family_contracts(s, i, x, r),
{
    let m = r.marks_join;
    let c = CharClass::Letter;
    if family_contracts(s, i, x, r) {
        lemma_nocase_letters(s, i, m);
        lemma_run_end(s, q, c, m);
        lemma_run_prev(s, q, c, m, x);
        lemma_prev_of_end(s, p);
        assert(whole_char(s, i));
        if i >= q {
            if i > q {
                lemma_run_prev(s, q, c, m, i);
            }
            assert(class_at(s, i, m) == c);
            assert(false);
        }
        if q > p {
            // The apostrophe is the character before the run.
            lemma_prev_char(s, q);
            if i + 1 < q {
                // The first suffix letter would be that character.
                lemma_prev_char(s, q);
                assert(prev_lead(s, q) == p);
                assert(i + 1 == p || i + 2 == q) ;
                assert(class_at(s, i + 1, m) == c);
                lemma_prev_of_end(s, i + 1);
            } else {
                assert(i == p);
                assert(contraction_nocase(s, p) is Some);
            }
        } else {
            if i + 1 == p {
                assert(family_contracts(s, p - 1, x, r));
                assert(x == p + 1 || x == p + 2);
                if family_contracts(s, p - 2, p, r) {
                    lemma_nocase_letters(s, p - 2, m);
                }
                if family_contracts(s, p - 3, p, r) {
                    lemma_nocase_letters(s, p - 3, m);
                }
            } else {
                assert(p == i + 2 && x == i + 3);
                assert(class_at(s, p, m) == c);
                assert(prev_class(s, p, m) == c);
                assert(!family_base(s, p, r));
                if family_contracts(s, p - 3, p, r) {
                    lemma_nocase_letters(s, p - 3, m);
                }
            }
        }
    }
}

/// A token may start behind a letter or a number, whatever comes.
proof fn lemma_base_after_word(s: Seq<u8>, e: int, r: Cl100kRules)
    requires
        whole_chars(s),
        long_s_is_letter(r.marks_join),
        0 < e < s.len(),
        boundary(s, e),
        ({
            let pc = prev_class(s, e, r.marks_join);
            &&& pc == CharClass::Letter || pc == CharClass::Number
            &&& pc == class_at(s, e, r.marks_join) ==> pc == CharClass::Number && r.digits3 ==> num_index(
                s,
                e,
                r.marks_join,
            ) % 3 == 0
            &&& class_at(s, e, r.marks_join) != CharClass::Letter || pc == CharClass::Number
        }),
    ensures
        family_start(s, e, r),
{
    let m = r.marks_join;
    let v = prev_lead(s, e);
    lemma_prev_char(s, e);
    assert(s[e - 1] != 0x20 && !newline(s[e - 1]) && s[e - 1] != 0x27) by {
        if v < e - 1 {
            assert(continuation(s[e - 1]));
        }
    }
    if absorbed(s, e, m) {
        assert(absorbed(s, e - 1, m));
    }
    assert(num_index(s, e, m) == 0 || prev_class(s, e, m) == CharClass::Number);
    assert(family_base(s, e, r));
    lemma_not_covered(s, e, r);
}

proof fn lemma_step_letters(s: Seq<u8>, p: int, r: Cl100kRules)
    requires
        whole_chars(s),
        long_s_is_letter(r.marks_join),
        0 <= p < s.len(),
        family_start(s, p, r),
        contraction_nocase(s, p) is None,
        letters_alt(s, p, r.marks_join) is Some,
    ensures
        steps(s, p, letters_alt(s, p, r.marks_join)->0, r),
{
    let m = r.marks_join;
    let c = CharClass::Letter;
    lemma_prev_of_end(s, p);
    let q = if class_at(s, p, m) == c {
        p
    } else {
        char_end(s, p)
    };
    let e = run_end(s, q, c, m);
    lemma_char_len(s, q);
    lemma_run_end(s, char_end(s, q), c, m);
    lemma_run_end(s, q, c, m);
    lemma_run_boundary(s, q, c, m);
    if e < s.len() {
        lemma_run_prev(s, q, c, m, e);
        lemma_base_after_word(s, e, r);
    }
    assert forall|x: int| p < x < e implies !#[trigger] family_start(s, x, r) by {
        if boundary(s, x) {
            if x > q {
                lemma_run_prev(s, q, c, m, x);
                lemma_letters_meet(s, p, q, x - 2, x, r);
                lemma_letters_meet(s, p, q, x - 3, x, r);
            } else if x == q {
                assert(prev_lead(s, q) == p);
                lemma_start_base(s, p, r);
                lemma_no_contraction_end(s, x, r);
                lemma_char_boundary(s, p);
                if class_at(s, p, m) == CharClass::Whitespace {
                    assert(!newline(s[q - 1])) by {
                        if q - 1 > p {
                            assert(continuation(s[q - 1]));
                        }
                    }
                } else {
                    assert(other_starts(s, p, m));
                }
            } else {
                lemma_char_boundary(s, p);
                assert(continuation(s[x]));
            }
        }
    }
}

/// Number characters behind a start keep counting.
proof fn lemma_numbers_count(s: Seq<u8>, p: int, left: nat, m: bool, x: int)
    requires
        whole_chars(s),
        0 <= p < s.len(),
        boundary(s, p),
        class_at(s, p, false) == CharClass::Number,
        left > 0,
        p < x <= numbers_end(s, p, left),
        boundary(s, x),
    ensures
        x <= s.len(),
        prev_class(s, x, m) == CharClass::Number,
        num_index(s, p, m) < num_index(s, x, m) <= num_index(s, p, m) + left,
        x < numbers_end(s, p, left) ==> num_index(s, x, m) < num_index(s, p, m) + left
            && class_at(s, x, m) == CharClass::Number,
        x == numbers_end(s, p, left) && x < s.len() && class_at(s, x, m) == CharClass::Number
            ==> num_index(s, x, m) == num_index(s, p, m) + left,
    decreases left,
{
    lemma_prev_of_end(s, p);
    lemma_number_class(s, p, m);
    let q = char_end(s, p);
    lemma_char_boundary(s, p);
    assert(num_index(s, q, m) == num_index(s, p, m) + 1);
    lemma_numbers_end(s, q, (left - 1) as nat);
    if x < q {
        assert(continuation(s[x]));
    } else if x > q {
        assert(left > 1 && class_at(s, q, false) == CharClass::Number);
        lemma_numbers_count(s, q, (left - 1) as nat, m, x);
    } else {
        if q < s.len() {
            lemma_number_class(s, q, m);
            lemma_char_len(s, q);
            if left > 1 {
                lemma_numbers_end(s, char_end(s, q), (left - 2) as nat);
            }
        }
        if x < numbers_end(s, p, left) {
            assert(left > 1 && class_at(s, q, false) == CharClass::Number);
        }
    }
}

proof fn lemma_numbers_boundary(s: Seq<u8>, p: int, left: nat)
    requires
        whole_chars(s),
        0 <= p <= s.len(),
        boundary(s, p),
    ensures
        boundary(s, numbers_end(s, p, left)),
    decreases left,
{
    if left > 0 && p < s.len() && class_at(s, p, false) == CharClass::Number {
        lemma_prev_of_end(s, p);
        lemma_numbers_boundary(s, char_end(s, p), (left - 1) as nat);
    }
}

#[verifier::spinoff_prover]
#[verifier::rlimit(40)]
proof fn lemma_step_digits(s: Seq<u8>, p: int, r: Cl100kRules)
    requires
        whole_chars(s),
        long_s_is_letter(r.marks_join),
        0 <= p < s.len(),
        family_start(s, p, r),
        digits_alt(s, p, r.digits3) is Some,
    ensures
        steps(s, p, digits_alt(s, p, r.digits3)->0, r),
{
    let m = r.marks_join;
    let left: nat = if r.digits3 {
        3
    } else {
        1
    };
    let e = numbers_end(s, p, left);
    lemma_number_class(s, p, m);
    lemma_start_base(s, p, r);
    lemma_char_len(s, p);
    lemma_numbers_end(s, char_end(s, p), (left - 1) as nat);
    lemma_numbers_boundary(s, p, left);
    assert(r.digits3 ==> num_index(s, p, m) % 3 == 0) by {
        if p == 0 {
            assert(num_index(s, 0, m) == 0);
        }
    }
    let n0 = num_index(s, p, m);
    if e < s.len() {
        lemma_numbers_count(s, p, left, m, e);
        assert(class_at(s, e, m) == CharClass::Number && r.digits3 ==> num_index(s, e, m) % 3 == 0)
            by {
            assert((n0 + 3) % 3 == n0 % 3);
        }
        lemma_base_after_word(s, e, r);
    }
    assert forall|x: int| p < x < e implies !#[trigger] family_start(s, x, r) by {
        if boundary(s, x) {
            lemma_numbers_count(s, p, left, m, x);
            let n = num_index(s, x, m);
            assert(r.digits3 && n % 3 != 0) by {
                assert(n == n0 + 1 || n == n0 + 2);
            }
            lemma_no_contraction_end(s, x, r);
        }
    }
}

/// The newlines behind punctuation belong to it.
proof fn lemma_absorbed_run(s: Seq<u8>, u: int, m: bool, x: int)
    requires
        whole_chars(s),
        0 < u <= x < newlines_end(s, u),
        u <= s.len(),
        boundary(s, u),
        prev_class(s, u, m) == CharClass::Other,
    ensures
        x < s.len(),
        newline(s[x]),
        absorbed(s, x, m),
    decreases x,
{
    lemma_newlines_inside(s, u, x);
    if x > u {
        lemma_absorbed_run(s, u, m, x - 1);
    }
}

proof fn lemma_newlines_inside(s: Seq<u8>, u: int, x: int)
    requires
        0 <= u <= x < newlines_end(s, u),
        u <= s.len(),
    ensures
        x < s.len(),
        newline(s[x]),
    decreases x - u,
{
    if x > u {
        lemma_newlines_inside(s, u + 1, x);
    }
}

proof fn lemma_newlines_stop(s: Seq<u8>, u: int)
    requires
        0 <= u <= s.len(),
    ensures
        newlines_end(s, u) < s.len() ==> !newline(s[newlines_end(s, u)]),
    decreases s.len() - u,
{
    if u < s.len() && newline(s[u]) {
        lemma_newlines_stop(s, u + 1);
    }
}

proof fn lemma_step_punct(s: Seq<u8>, p: int, r: Cl100kRules)
    requires
        whole_chars(s),
        long_s_is_letter(r.marks_join),
        0 <= p < s.len(),
        family_start(s, p, r),
        contraction_nocase(s, p) is None,
        letters_alt(s, p, r.marks_join) is None,
        digits_alt(s, p, r.digits3) is None,
        punct_alt(s, p, r.marks_join) is Some,
    ensures
        steps(s, p, punct_alt(s, p, r.marks_join)->0, r),
{
    let m = r.marks_join;
    let c = CharClass::Other;
    let q = if s[p] == 0x20 {
        p + 1
    } else {
        p
    };
    assert(whole_char(s, p));
    lemma_prev_of_end(s, p);
    let u = run_end(s, q, c, m);
    let e = newlines_end(s, u);
    lemma_char_len(s, q);
    lemma_run_end(s, char_end(s, q), c, m);
    lemma_run_end(s, q, c, m);
    lemma_run_boundary(s, q, c, m);
    lemma_newlines_end(s, u);
    lemma_newlines_stop(s, u);
    lemma_run_prev(s, q, c, m, u);
    let v = prev_lead(s, u);
    lemma_char_boundary(s, v);
    lemma_start_base(s, p, r);
    if e > u {
        lemma_absorbed_run(s, u, m, e - 1);
        assert(whole_char(s, e - 1));
        lemma_prev_of_end(s, e - 1);
    }
    if e < s.len() {
        assert(s[e - 1] != 0x20) by {
            if e == u && e - 1 > v {
                assert(continuation(s[e - 1]));
            }
        }
        if e == u {
            lemma_after_other(s, p, q, u, r);
        } else {
            assert(prev_lead(s, e) == e - 1);
            if absorbed(s, e, m) {
                assert(newline(s[e]));
            }
            assert(family_base(s, e, r));
            lemma_not_covered(s, e, r);
        }
    }
    assert forall|x: int| p < x < e implies !#[trigger] family_start(s, x, r) by {
        if boundary(s, x) {
            if x >= u {
                lemma_absorbed_run(s, u, m, x);
                if x > u {
                    lemma_absorbed_run(s, u, m, x - 1);
                    assert(whole_char(s, x - 1));
                    lemma_prev_of_end(s, x - 1);
                }
                lemma_no_contraction_end(s, x, r);
            } else if x > q {
                lemma_run_prev(s, q, c, m, x);
                lemma_no_contraction_end(s, x, r);
            } else {
                assert(x == q && s[x - 1] == 0x20);
                lemma_no_contraction_end(s, x, r);
            }
        }
    }
}

/// A token starts right behind a run of punctuation.
proof fn lemma_after_other(s: Seq<u8>, p: int, q: int, u: int, r: Cl100kRules)
    requires
        whole_chars(s),
        long_s_is_letter(r.marks_join),
        0 <= p < s.len(),
        boundary(s, p),
        family_base(s, p, r),
        contraction_nocase(s, p) is None,
        letters_alt(s, p, r.marks_join) is None,
        q == p || (q == p + 1 && s[p] == 0x20),
        boundary(s, q),
        q < s.len(),
        class_at(s, q, r.marks_join) == CharClass::Other,
        u == run_end(s, q, CharClass::Other, r.marks_join),
        q < u < s.len(),
        boundary(s, u),
        !newline(s[u]),
    ensures
        family_start(s, u, r),
{
    let m = r.marks_join;
    let c = CharClass::Other;
    lemma_run_end(s, q, c, m);
    lemma_run_prev(s, q, c, m, u);
    let v = prev_lead(s, u);
    lemma_char_boundary(s, v);
    assert(s[u - 1] != 0x20) by {
        if u - 1 > v {
            assert(continuation(s[u - 1]));
        }
    }
    if class_at(s, u, m) == CharClass::Letter {
        assert(!other_starts(s, v, m)) by {
            if v > q {
                lemma_run_prev(s, q, c, m, v);
            } else if q == p {
                assert(letters_alt(s, p, m) is Some);
            }
        }
        // An apostrophe before the letter does not start a contraction.
        assert(!family_contracts(s, u - 1, u + 1, r) && !family_contracts(s, u - 1, u + 2, r)) by {
            if s[u - 1] == 0x27 {
                assert(v == u - 1) by {
                    if v < u - 1 {
                        assert(continuation(s[u - 1]));
                    }
                }
                assert(!family_base(s, v, r));
            }
        }
    } else {
        lemma_not_covered(s, u, r);
    }
    assert(family_base(s, u, r));
}

/// Behind a whitespace start in its run, no newline belongs to punctuation.
proof fn lemma_not_absorbed(s: Seq<u8>, p: int, m: bool, x: int)
    requires
        whole_chars(s),
        0 <= p <= x < run_end(s, p, CharClass::Whitespace, m),
        boundary(s, p),
        boundary(s, x),
        !absorbed(s, p, m),
    ensures
        !absorbed(s, x, m),
    decreases x,
{
    let c = CharClass::Whitespace;
    lemma_run_end(s, p, c, m);
    if x > p && absorbed(s, x, m) {
        lemma_run_prev(s, p, c, m, x);
        assert(absorbed(s, x - 1, m));
        assert(newline(s[x - 1]));
        let v = prev_lead(s, x);
        assert(v == x - 1) by {
            lemma_char_boundary(s, v);
            if v < x - 1 {
                assert(continuation(s[x - 1]));
            }
        }
        lemma_not_absorbed(s, p, m, v);
    }
}

/// The last newline and the last character of a run.
proof fn lemma_last_parts(s: Seq<u8>, p: int, w: int, none: int, first: int)
    requires
        whole_chars(s),
        0 <= p <= w <= s.len(),
        boundary(s, p),
        boundary(s, w),
    ensures
        ({
            let nl = last_newline_end(s, p, w, none);
            ||| nl == none && no_newline(s, p, w)
            ||| p < nl <= w && newline(s[nl - 1]) && no_newline(s, nl, w) && boundary(s, nl)
        }),
        ({
            let last = last_char_start(s, p, w, first);
            &&& p == w ==> last == first
            &&& p < w ==> p <= last < w && boundary(s, last) && char_end(s, last) == w
        }),
    decreases w - p,
{
    if p < w {
        lemma_prev_of_end(s, p);
        lemma_char_boundary(s, p);
        let q = char_end(s, p);
        assert(q <= w) by {
            if q > w {
                assert(continuation(s[w]));
            }
        }
        let none2 = if newline(s[p]) {
            q
        } else {
            none
        };
        lemma_last_parts(s, q, w, none2, p);
        assert(whole_char(s, p));
        if !newline(s[p]) && no_newline(s, q, w) {
            assert forall|j: int| p <= j < w implies !newline(#[trigger] s[j]) by {
                if p < j < q {
                    assert(continuation(s[j]));
                }
            }
        }
    }
}

#[verifier::spinoff_prover]
#[verifier::rlimit(40)]
proof fn lemma_step_ws(s: Seq<u8>, p: int, r: Cl100kRules)
    requires
        whole_chars(s),
        long_s_is_letter(r.marks_join),
        0 <= p < s.len(),
        family_start(s, p, r),
        contraction_nocase(s, p) is None,
        letters_alt(s, p, r.marks_join) is None,
        digits_alt(s, p, r.digits3) is None,
        punct_alt(s, p, r.marks_join) is None,
    ensures
        steps(s, p, ws_token_end(s, p, r.marks_join, r.eos_ws_whole), r),
{
    let m = r.marks_join;
    let c = CharClass::Whitespace;
    lemma_number_class(s, p, m);
    assert(class_at(s, p, m) == c);
    lemma_start_base(s, p, r);
    let w = run_end(s, p, c, m);
    let e = ws_token_end(s, p, m, r.eos_ws_whole);
    lemma_prev_of_end(s, p);
    lemma_char_boundary(s, p);
    lemma_run_end(s, char_end(s, p), c, m);
    lemma_run_end(s, p, c, m);
    lemma_run_boundary(s, p, c, m);
    assert(!absorbed(s, p, m));
    lemma_last_parts(s, p, w, 0, p);
    let nl = last_newline_end(s, p, w, 0);
    let last = last_char_start(s, p, w, p);
    assert(p < e <= w);
    if e < s.len() {
        lemma_ws_next(s, p, w, e, nl, last, r);
    }
    assert forall|x: int| p < x < e implies !#[trigger] family_start(s, x, r) by {
        if boundary(s, x) {
            lemma_ws_inside(s, p, w, e, nl, last, x, r);
        }
    }
}

/// A token starts behind a whitespace token.
proof fn lemma_ws_next(
    s: Seq<u8>,
    p: int,
    w: int,
    e: int,
    nl: int,
    last: int,
    r: Cl100kRules,
)
    requires
        whole_chars(s),
        long_s_is_letter(r.marks_join),
        0 <= p < s.len(),
        boundary(s, p),
        class_at(s, p, r.marks_join) == CharClass::Whitespace,
        letters_alt(s, p, r.marks_join) is None,
        punct_alt(s, p, r.marks_join) is None,
        !absorbed(s, p, r.marks_join),
        w == run_end(s, p, CharClass::Whitespace, r.marks_join),
        boundary(s, w),
        p < e <= w <= s.len(),
        e < s.len(),
        e == ws_token_end(s, p, r.marks_join, r.eos_ws_whole),
        nl == last_newline_end(s, p, w, 0),
        last == last_char_start(s, p, w, p),
        nl == 0 ==> no_newline(s, p, w),
        nl != 0 ==> p < nl <= w && newline(s[nl - 1]) && no_newline(s, nl, w) && boundary(s, nl),
        p <= last < w && boundary(s, last) && char_end(s, last) == w,
    ensures
        family_start(s, e, r),
{
    let m = r.marks_join;
    let c = CharClass::Whitespace;
    lemma_run_end(s, p, c, m);
    lemma_run_prev(s, p, c, m, e);
    let v = prev_lead(s, e);
    lemma_char_boundary(s, v);
    assert(s[e - 1] != 0x27) by {
        if v < e - 1 {
            assert(continuation(s[e - 1]));
        }
    }
    if e < w {
        lemma_not_absorbed(s, p, m, e);
        assert(class_at(s, e, m) == c);
        lemma_run_inner(s, p, c, m, e);
        assert(ws_base(s, e, r));
        lemma_not_covered(s, e, r);
    } else {
        // The run ends here: with a newline, or it is one character.
        assert(class_at(s, e, m) != c);
        if nl == 0 {
            assert(last == p && v == p) by {
                lemma_prev_of_end(s, last);
            }
        }
        assert(class_at(s, e, m) == CharClass::Other ==> s[e - 1] != 0x20) by {
            if nl == 0 && v < e - 1 {
                assert(continuation(s[e - 1]));
            }
        }
        if class_at(s, e, m) == CharClass::Letter {
            assert(newline(s[e - 1])) by {
                if nl == 0 {
                    assert(letters_alt(s, p, m) is Some);
                }
            }
        }
        lemma_not_covered(s, e, r);
        assert(family_base(s, e, r));
    }
}

/// The rest of a run, from any of its characters on, is a run.
proof fn lemma_run_inner(s: Seq<u8>, p: int, c: CharClass, m: bool, x: int)
    requires
        whole_chars(s),
        0 <= p <= x <= run_end(s, p, c, m),
        p <= s.len(),
        boundary(s, p),
        boundary(s, x),
    ensures
        run_end(s, x, c, m) == run_end(s, p, c, m),
    decreases x - p,
{
    if x > p {
        lemma_prev_of_end(s, p);
        lemma_char_boundary(s, p);
        if x < char_end(s, p) {
            assert(continuation(s[x]));
        }
        lemma_run_inner(s, char_end(s, p), c, m, x);
    }
}

/// No token starts inside a whitespace token.
proof fn lemma_ws_inside(
    s: Seq<u8>,
    p: int,
    w: int,
    e: int,
    nl: int,
    last: int,
    x: int,
    r: Cl100kRules,
)
    requires
        whole_chars(s),
        long_s_is_letter(r.marks_join),
        0 <= p < s.len(),
        boundary(s, p),
        class_at(s, p, r.marks_join) == CharClass::Whitespace,
        !absorbed(s, p, r.marks_join),
        w == run_end(s, p, CharClass::Whitespace, r.marks_join),
        boundary(s, w),
        p < e <= w <= s.len(),
        e == ws_token_end(s, p, r.marks_join, r.eos_ws_whole),
        nl == last_newline_end(s, p, w, 0),
        last == last_char_start(s, p, w, p),
        nl == 0 ==> no_newline(s, p, w),
        nl != 0 ==> p < nl <= w && newline(s[nl - 1]) && no_newline(s, nl, w) && boundary(s, nl),
        p <= last < w && boundary(s, last) && char_end(s, last) == w,
        p < x < e,
        boundary(s, x),
    ensures
        !family_start(s, x, r),
{
    let m = r.marks_join;
    let c = CharClass::Whitespace;
    lemma_run_end(s, p, c, m);
    lemma_run_prev(s, p, c, m, x);
    lemma_run_inner(s, p, c, m, x);
    lemma_no_contraction_end(s, x, r);
    let v = prev_lead(s, x);
    lemma_not_absorbed(s, p, m, v);
    lemma_char_boundary(s, x);
    lemma_prev_of_end(s, x);
    lemma_prev_of_end(s, last);
    if nl != 0 && x < nl {
        assert(newline(s[nl - 1]));
        if char_end(s, x) == w && x < nl - 1 {
            assert(continuation(s[nl - 1]));
        }
    }
    assert(!ws_base(s, x, r));
}

/// The schemes of the family.
pub open spec fn family_scheme(t: PretokenizerType, r: Cl100kRules) -> bool {
    scheme_rules(t) == SchemeRules::Cl100k(r)
}

/// Where the tokens of whole text start can be told from the characters around
/// a position and from the run it lies in.
pub proof fn law_family_starts(t: PretokenizerType, s: Seq<u8>, x: int, r: Cl100kRules)
    requires
        whole_chars(s),
        family_scheme(t, r),
        long_s_is_letter(r.marks_join),
        0 <= x < s.len(),
    ensures
        is_start(t, s, x) == family_start(s, x, r),
{
    let m = r.marks_join;
    let d = |y: int| family_start(s, y, r);
    assert(describes(t, s, d)) by {
        assert(s.len() > 0 ==> family_start(s, 0, r));
        assert forall|p: int| #![trigger token_end(t, s, p)]
            0 <= p < s.len() && boundary(s, p) && d(p) implies {
            &&& token_end(t, s, p) < s.len() ==> d(token_end(t, s, p))
            &&& forall|y: int| p < y < token_end(t, s, p) ==> !#[trigger] d(y)
        } by {
            if contraction_nocase(s, p) is Some {
                lemma_step_contraction(s, p, r);
            } else if letters_alt(s, p, m) is Some {
                lemma_step_letters(s, p, r);
            } else if digits_alt(s, p, r.digits3) is Some {
                lemma_step_digits(s, p, r);
            } else if punct_alt(s, p, m) is Some {
                lemma_step_punct(s, p, r);
            } else {
                lemma_step_ws(s, p, r);
            }
            assert(steps(s, p, token_end(t, s, p), r));
            assert forall|y: int| p < y < token_end(t, s, p) implies !#[trigger] d(y) by {
                assert(!family_start(s, y, r));
            }
        }
    }
    lemma_described(t, s, d, x);
}

} // verus!
