//! Where the tokens of the GPT-2 scheme start.
use crate::pretokenize::chars::{
    ascii_letter, char_end, class_at, lemma_char_len, lemma_run_end, run_end,
};
use crate::pretokenize::locality::{
    boundary, lemma_char_boundary, lemma_run_boundary, whole_char, whole_chars,
};
use crate::pretokenize::r50k::{
    back_to_lead, continuation, lemma_back_to_lead, r50k_token_end, r50k_ws_end,
};
use crate::pretokenize::scheme::{token_end, PretokenizerType};
use crate::pretokenize::starts::{describes, is_start, lemma_described};
use crate::pretokenize::unicode::CharClass;
use crate::pretokenize::words::contraction;
use vstd::prelude::*;

verus! {

/// Where the character before `x` starts.
pub open spec fn prev_lead(s: Seq<u8>, x: int) -> int {
    back_to_lead(s, 0, x - 1)
}

/// The way back from inside a character leads to its start.
pub proof fn lemma_back_over(s: Seq<u8>, lo: int, y: int, i: int)
    requires
        lo <= y <= i < s.len(),
        0 <= lo,
        !continuation(s[y]),
        forall|j: int| y < j <= i ==> continuation(#[trigger] s[j]),
    ensures
        back_to_lead(s, lo, i) == y,
    decreases i - y,
{
    if i > y {
        lemma_back_over(s, lo, y, i - 1);
    }
}

/// The character before the end of a character is that character.
pub proof fn lemma_prev_of_end(s: Seq<u8>, y: int)
    requires
        whole_chars(s),
        0 <= y < s.len(),
        boundary(s, y),
    ensures
        prev_lead(s, char_end(s, y)) == y,
        y < char_end(s, y) <= s.len(),
        boundary(s, char_end(s, y)),
{
    lemma_char_len(s, y);
    lemma_char_boundary(s, y);
    lemma_back_over(s, 0, y, char_end(s, y) - 1);
}

/// The character before a boundary ends there.
pub proof fn lemma_prev_char(s: Seq<u8>, x: int)
    requires
        whole_chars(s),
        0 < x <= s.len(),
        boundary(s, x),
    ensures
        0 <= prev_lead(s, x) < x,
        boundary(s, prev_lead(s, x)),
        char_end(s, prev_lead(s, x)) == x,
        forall|j: int| prev_lead(s, x) < j < x ==> continuation(#[trigger] s[j]),
{
    lemma_back_to_lead(s, 0, x - 1);
    lemma_back_stops(s, x - 1);
    let y = prev_lead(s, x);
    lemma_char_len(s, y);
    lemma_char_boundary(s, y);
    let e = char_end(s, y);
    if e < x {
        assert(continuation(s[e]));
    } else if e > x {
        assert(continuation(s[x]));
    }
}

proof fn lemma_back_stops(s: Seq<u8>, i: int)
    requires
        whole_chars(s),
        0 <= i < s.len(),
    ensures
        !continuation(s[back_to_lead(s, 0, i)]),
        forall|j: int| back_to_lead(s, 0, i) < j <= i ==> continuation(#[trigger] s[j]),
    decreases i,
{
    if i > 0 && continuation(s[i]) {
        lemma_back_stops(s, i - 1);
    }
}

/// Inside a run, and at its end, the character before is one of the run.
pub proof fn lemma_run_prev(s: Seq<u8>, q: int, c: CharClass, m: bool, x: int)
    requires
        whole_chars(s),
        0 <= q < x <= run_end(s, q, c, m),
        boundary(s, q),
        boundary(s, x),
    ensures
        q <= prev_lead(s, x) < x <= s.len(),
        boundary(s, prev_lead(s, x)),
        char_end(s, prev_lead(s, x)) == x,
        class_at(s, prev_lead(s, x), m) == c,
        x < run_end(s, q, c, m) ==> class_at(s, x, m) == c && char_end(s, x) <= run_end(s, q, c, m),
    decreases s.len() - q,
{
    assert(q < s.len() && class_at(s, q, m) == c);
    lemma_prev_of_end(s, q);
    let e = char_end(s, q);
    lemma_char_boundary(s, q);
    if x < e {
        assert(continuation(s[x]));
    } else if x > e {
        lemma_run_end(s, e, c, m);
        lemma_run_prev(s, e, c, m, x);
    } else {
        lemma_run_end(s, e, c, m);
        if x < run_end(s, q, c, m) {
            assert(e < s.len() && class_at(s, e, m) == c);
            lemma_run_end(s, char_end(s, e), c, m);
            lemma_char_len(s, e);
            lemma_run_end(s, char_end(s, e), c, m);
        }
    }
}

/// A token starts at `x`, contractions aside: the character there does not
/// continue a run of its class, nor follow a space; whitespace starts a token
/// at the start of its run and at its last character before something else.
pub open spec fn r50k_base(s: Seq<u8>, x: int) -> bool {
    let c = class_at(s, x, false);
    let pc = class_at(s, prev_lead(s, x), false);
    let n = char_end(s, x);
    ||| x == 0
    ||| c != CharClass::Whitespace && pc != c && s[x - 1] != 0x20
    ||| c == CharClass::Whitespace && (pc != CharClass::Whitespace || (n < s.len() && class_at(
        s,
        n,
        false,
    ) != CharClass::Whitespace))
}

/// A contraction token starts at `i` and ends at `e`.
pub open spec fn r50k_contracts(s: Seq<u8>, i: int, e: int) -> bool {
    0 <= i < s.len() && r50k_base(s, i) && contraction(s, i) == Some(e)
}

/// A token starts at `x`.
pub open spec fn r50k_start(s: Seq<u8>, x: int) -> bool {
    &&& boundary(s, x)
    &&& {
        ||| r50k_base(s, x) && !r50k_contracts(s, x - 1, x + 1) && !r50k_contracts(s, x - 1, x + 2)
        ||| r50k_contracts(s, x - 2, x)
        ||| r50k_contracts(s, x - 3, x)
    }
}

/// A contraction ends behind a letter.
proof fn lemma_contraction_letters(s: Seq<u8>, i: int)
    requires
        0 <= i < s.len(),
        contraction(s, i) is Some,
    ensures
        s[i] == 0x27,
        ({
            let e = contraction(s, i)->0;
            &&& e == i + 2 || e == i + 3
            &&& e <= s.len()
            &&& ascii_letter(s[i + 1])
            &&& e == i + 3 ==> ascii_letter(s[i + 2])
        }),
{
}

proof fn lemma_r50k_step_contraction(s: Seq<u8>, p: int)
    requires
        whole_chars(s),
        0 <= p < s.len(),
        r50k_start(s, p),
        contraction(s, p) is Some,
    ensures
        ({
            let e = contraction(s, p)->0;
            &&& p < e <= s.len()
            &&& e < s.len() ==> r50k_start(s, e)
            &&& forall|x: int| p < x < e ==> !#[trigger] r50k_start(s, x)
        }),
{
    let e = contraction(s, p)->0;
    lemma_contraction_letters(s, p);
    assert(r50k_base(s, p)) by {
        if p > 0 {
            lemma_prev_char(s, p);
            if r50k_contracts(s, p - 2, p) {
                lemma_contraction_letters(s, p - 2);
            }
            if r50k_contracts(s, p - 3, p) {
                lemma_contraction_letters(s, p - 3);
            }
        }
    }
    assert(r50k_contracts(s, p, e));
    assert(whole_char(s, p));
    assert(whole_char(s, p + 1));
    if e == p + 3 {
        assert(whole_char(s, p + 2));
    }
    assert forall|x: int| p < x < e implies !#[trigger] r50k_start(s, x) by {
        if r50k_contracts(s, x - 2, x) {
            lemma_contraction_letters(s, x - 2);
        }
        if r50k_contracts(s, x - 3, x) {
            lemma_contraction_letters(s, x - 3);
        }
        if x == p + 2 {
            lemma_prev_of_end(s, p + 1);
        }
    }
}

proof fn lemma_r50k_step_ws(s: Seq<u8>, p: int)
    requires
        whole_chars(s),
        0 <= p < s.len(),
        boundary(s, p),
        class_at(s, p, false) == CharClass::Whitespace,
        s[p] == 0x20 && p + 1 < s.len() ==> class_at(s, p + 1, false) == CharClass::Whitespace,
    ensures
        ({
            let e = r50k_ws_end(s, p);
            &&& p < e <= s.len()
            &&& e < s.len() ==> r50k_start(s, e)
            &&& forall|x: int| p < x < e ==> !#[trigger] r50k_start(s, x)
        }),
{
    let ws = CharClass::Whitespace;
    let w = run_end(s, p, ws, false);
    let e = r50k_ws_end(s, p);
    lemma_char_len(s, p);
    lemma_run_end(s, char_end(s, p), ws, false);
    lemma_run_end(s, p, ws, false);
    lemma_run_boundary(s, p, ws, false);
    lemma_back_to_lead(s, p, w - 1);
    let last = back_to_lead(s, p, w - 1);
    // The last character of the run starts at `last`.
    lemma_run_prev(s, p, ws, false, w);
    let pl = prev_lead(s, w);
    assert(last == pl) by {
        lemma_char_boundary(s, pl);
        lemma_back_over(s, p, pl, w - 1);
    }
    lemma_prev_of_end(s, pl);
    if e < s.len() {
        lemma_run_prev(s, p, ws, false, e);
        let v = prev_lead(s, e);
        lemma_char_boundary(s, v);
        assert(s[e - 1] != 0x27 && !ascii_letter(s[e - 1])) by {
            if e - 1 > v {
                assert(continuation(s[e - 1]));
            }
        }
        if e == w {
            assert(last == p);
            assert(s[e - 1] != 0x20) by {
                if e - 1 > v {
                    assert(continuation(s[e - 1]));
                } else if s[p] == 0x20 {
                    assert(class_at(s, p + 1, false) == ws);
                }
            }
        }
        assert(r50k_base(s, e));
        assert(r50k_start(s, e));
    }
    assert forall|x: int| p < x < e implies !#[trigger] r50k_start(s, x) by {
        if boundary(s, x) {
            lemma_run_prev(s, p, ws, false, x);
            let v = prev_lead(s, x);
            lemma_char_boundary(s, v);
            assert(s[x - 1] != 0x27 && !ascii_letter(s[x - 1])) by {
                if x - 1 > v {
                    assert(continuation(s[x - 1]));
                }
            }
            if r50k_contracts(s, x - 2, x) {
                lemma_contraction_letters(s, x - 2);
            }
            if r50k_contracts(s, x - 3, x) {
                lemma_contraction_letters(s, x - 3);
            }
            let n = char_end(s, x);
            lemma_prev_of_end(s, x);
            if n < s.len() && class_at(s, n, false) != ws {
                if n < w {
                    lemma_run_prev(s, p, ws, false, n);
                }
                assert(n == w);
                assert(prev_lead(s, w) == x);
            }
        }
    }
}

proof fn lemma_r50k_step_run(s: Seq<u8>, p: int)
    requires
        whole_chars(s),
        0 <= p < s.len(),
        r50k_start(s, p),
        contraction(s, p) is None,
        ({
            let q = if s[p] == 0x20 && p + 1 < s.len() {
                p + 1
            } else {
                p
            };
            class_at(s, q, false) != CharClass::Whitespace
        }),
    ensures
        ({
            let e = r50k_token_end(s, p);
            &&& p < e <= s.len()
            &&& e < s.len() ==> r50k_start(s, e)
            &&& forall|x: int| p < x < e ==> !#[trigger] r50k_start(s, x)
        }),
{
    let q = if s[p] == 0x20 && p + 1 < s.len() {
        p + 1
    } else {
        p
    };
    let c = class_at(s, q, false);
    let e = run_end(s, q, c, false);
    assert(boundary(s, q)) by {
        assert(whole_char(s, p));
    }
    lemma_char_len(s, q);
    lemma_run_end(s, char_end(s, q), c, false);
    lemma_run_end(s, q, c, false);
    lemma_run_boundary(s, q, c, false);
    if e < s.len() {
        lemma_run_prev(s, q, c, false, e);
        let v = prev_lead(s, e);
        lemma_char_boundary(s, v);
        assert(s[e - 1] != 0x20) by {
            if e - 1 > v {
                assert(continuation(s[e - 1]));
            }
        }
        assert(r50k_base(s, e));
        assert(!r50k_contracts(s, e - 1, e + 1) && !r50k_contracts(s, e - 1, e + 2)) by {
            if s[e - 1] == 0x27 && contraction(s, e - 1) is Some {
                assert(v == e - 1);
                if v > q {
                    lemma_run_prev(s, q, c, false, v);
                }
            }
        }
    }
    assert forall|x: int| p < x < e implies !#[trigger] r50k_start(s, x) by {
        if boundary(s, x) {
            if x > q {
                lemma_run_prev(s, q, c, false, x);
                let v = prev_lead(s, x);
                lemma_char_boundary(s, v);
                if r50k_contracts(s, x - 2, x) {
                    let i = x - 2;
                    lemma_contraction_letters(s, i);
                    lemma_run_meets(s, p, q, c, i, x);
                }
                if r50k_contracts(s, x - 3, x) {
                    let i = x - 3;
                    lemma_contraction_letters(s, i);
                    lemma_run_meets(s, p, q, c, i, x);
                }
            } else {
                assert(x == q && s[x - 1] == 0x20);
                if r50k_contracts(s, x - 2, x) {
                    lemma_contraction_letters(s, x - 2);
                }
                if r50k_contracts(s, x - 3, x) {
                    lemma_contraction_letters(s, x - 3);
                }
            }
        }
    }
}

/// No contraction ends inside a run.
proof fn lemma_run_meets(s: Seq<u8>, p: int, q: int, c: CharClass, i: int, x: int)
    requires
        whole_chars(s),
        0 <= p < s.len(),
        r50k_start(s, p),
        contraction(s, p) is None,
        q == p || (q == p + 1 && s[p] == 0x20),
        boundary(s, q),
        q < x < run_end(s, q, c, false),
        boundary(s, x),
        x == i + 2 || x == i + 3,
    ensures
        !r50k_contracts(s, i, x),
{
    if r50k_contracts(s, i, x) {
        lemma_contraction_letters(s, i);
        lemma_run_prev(s, q, c, false, x);
        assert(whole_char(s, i));
        assert(whole_char(s, i + 1));
        lemma_prev_of_end(s, i);
        lemma_prev_of_end(s, i + 1);
        if x == i + 3 {
            assert(whole_char(s, i + 2));
            lemma_prev_of_end(s, i + 2);
        }
        assert(prev_lead(s, x) == x - 1);
        assert(c == CharClass::Letter);
        lemma_run_end(s, q, c, false);
        if i >= q {
            if i > q {
                lemma_run_prev(s, q, c, false, i);
            } else {
                assert(class_at(s, q, false) == c);
            }
            assert(false);
        }
        assert(q == p);
        if p - 1 == i {
            assert(r50k_contracts(s, p - 1, x));
            if r50k_contracts(s, p - 2, p) {
                lemma_contraction_letters(s, p - 2);
            }
            if r50k_contracts(s, p - 3, p) {
                lemma_contraction_letters(s, p - 3);
            }
        } else {
            assert(p == i + 2 && x == i + 3);
            assert(class_at(s, p, false) == c);
            assert(!r50k_base(s, p));
            if r50k_contracts(s, p - 3, p) {
                lemma_contraction_letters(s, p - 3);
            }
        }
    }
}

/// Where GPT-2 tokens of whole text start can be told from the characters
/// around a position.
pub proof fn law_r50k_starts(s: Seq<u8>, x: int)
    requires
        whole_chars(s),
        0 <= x < s.len(),
    ensures
        is_start(PretokenizerType::GPT2, s, x) == r50k_start(s, x),
{
    let t = PretokenizerType::GPT2;
    let d = |y: int| r50k_start(s, y);
    assert(describes(t, s, d)) by {
        assert forall|p: int| #![trigger token_end(t, s, p)]
            0 <= p < s.len() && boundary(s, p) && d(p) implies {
            &&& token_end(t, s, p) < s.len() ==> d(token_end(t, s, p))
            &&& forall|y: int| p < y < token_end(t, s, p) ==> !#[trigger] d(y)
        } by {
            let q = if s[p] == 0x20 && p + 1 < s.len() {
                p + 1
            } else {
                p
            };
            if contraction(s, p) is Some {
                lemma_r50k_step_contraction(s, p);
            } else if class_at(s, q, false) == CharClass::Whitespace {
                assert(class_at(s, p, false) == CharClass::Whitespace);
                lemma_r50k_step_ws(s, p);
            } else {
                lemma_r50k_step_run(s, p);
            }
            assert forall|y: int| p < y < token_end(t, s, p) implies !#[trigger] d(y) by {
                assert(!r50k_start(s, y));
            }
        }
    }
    lemma_described(t, s, d, x);
}

} // verus!
