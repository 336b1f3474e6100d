//! What the bytes of UTF-8 text stand for.
use crate::bpe::bytes::utf8_byte;
use crate::pretokenize::chars::{char_cp, char_end};
use crate::pretokenize::locality::{boundary, law_token_boundary, whole_chars};
use crate::pretokenize::pattern::{pattern_of, Pattern};
use crate::pretokenize::pattern_laws::law_token_is_the_match;
use crate::pretokenize::scheme::{lemma_token_end, spans_from, token_end, PretokenizerType};
use crate::text::space_width;
use vstd::prelude::*;
use vstd::utf8::{
    decode_first_scalar, length_of_first_scalar, pop_first_scalar, valid_first_scalar, valid_utf8,
};

verus! {

proof fn lemma_bits_1(a: u8)
    by (bit_vector)
    requires
        a <= 0x7F,
    ensures
        (a & 0x7F) as u32 == a as u32,
{
}

proof fn lemma_bits_2(a: u8, b: u8)
    by (bit_vector)
    ensures
        (((a & 0x1F) as u32) << 6) | ((b & 0x3F) as u32) == ((a % 32) as u32) * 64 + ((b
            % 64) as u32),
{
}

proof fn lemma_bits_3(a: u8, b: u8, c: u8)
    by (bit_vector)
    ensures
        (((a & 0x0F) as u32) << 12) | (((b & 0x3F) as u32) << 6) | ((c & 0x3F) as u32) == ((a
            % 16) as u32) * 4096 + ((b % 64) as u32) * 64 + ((c % 64) as u32),
{
}

proof fn lemma_bits_4(a: u8, b: u8, c: u8, d: u8)
    by (bit_vector)
    ensures
        (((a & 0x07) as u32) << 18) | (((b & 0x3F) as u32) << 12) | (((c & 0x3F) as u32) << 6) | ((d
            & 0x3F) as u32) == ((a % 8) as u32) * 0x40000 + ((b % 64) as u32) * 4096 + ((c
            % 64) as u32) * 64 + ((d % 64) as u32),
{
}

/// The code point and the length of the first character of UTF-8 text are those
/// that its encoding gives.
pub proof fn law_code_point_is_the_scalar(s: Seq<u8>)
    requires
        s.len() > 0,
        valid_utf8(s),
    ensures
        char_cp(s, 0) == decode_first_scalar(s),
        char_end(s, 0) == length_of_first_scalar(s),
{
    assert(valid_first_scalar(s));
    let a = s[0];
    if a <= 0x7F {
        lemma_bits_1(a);
    } else if a <= 0xDF {
        lemma_bits_2(a, s[1]);
    } else if a <= 0xEF {
        lemma_bits_3(a, s[1], s[2]);
    } else {
        lemma_bits_4(a, s[1], s[2], s[3]);
    }
}

/// The characters with the `White_Space` property.
pub open spec fn is_white(c: u32) -> bool {
    ||| 0x0009 <= c <= 0x000D
    ||| c == 0x0020
    ||| c == 0x0085
    ||| c == 0x00A0
    ||| c == 0x1680
    ||| 0x2000 <= c <= 0x200A
    ||| c == 0x2028
    ||| c == 0x2029
    ||| c == 0x202F
    ||| c == 0x205F
    ||| c == 0x3000
}

/// UTF-8 text starts with white space where its first character is white space,
/// and that takes the bytes of the character.
pub proof fn law_white_space_is_by_code_point(s: Seq<u8>)
    requires
        s.len() > 0,
        valid_utf8(s),
    ensures
        is_white(decode_first_scalar(s)) ==> space_width(s, 0) == length_of_first_scalar(s),
        !is_white(decode_first_scalar(s)) ==> space_width(s, 0) == 0,
{
    law_code_point_is_the_scalar(s);
    assert(valid_first_scalar(s));
}

/// Every byte of UTF-8 text is one that a tokenizer has to have a token for.
pub proof fn law_text_has_utf8_bytes(s: Seq<u8>, i: int)
    requires
        valid_utf8(s),
        0 <= i < s.len(),
    ensures
        utf8_byte(s[i]),
    decreases s.len(),
{
    assert(valid_first_scalar(s));
    law_code_point_is_the_scalar(s);
    let n = length_of_first_scalar(s);
    if i >= n {
        let rest = pop_first_scalar(s);
        assert(rest[i - n] == s[i]);
        law_text_has_utf8_bytes(rest, i - n);
    } else if i == 0 {
        let c = decode_first_scalar(s);
        if s[0] == 0xC0 || s[0] == 0xC1 {
            assert(c < 0x80);
        } else if s[0] >= 0xF5 {
            lemma_bits_4(s[0], s[1], s[2], s[3]);
            assert(s[0] % 8 >= 5);
            assert(c >= 0x140000);
        }
    } else {
        assert(0x80 <= s[i] <= 0xBF);
    }
}

/// The pretokens of text are the matches of the pattern, one after the other
/// from the start to the end.
pub proof fn law_pretokens_are_matches(t: PretokenizerType, s: Seq<u8>, i: int)
    requires
        whole_chars(s),
        0 <= i < spans_from(t, s, 0).len(),
    ensures
        ({
            let v = spans_from(t, s, 0);
            &&& v[0].0 == 0
            &&& 0 <= v[i].0 < v[i].1 <= s.len()
            &&& v[i].1 == pattern_of(t)(s, v[i].0)[0]
            &&& i < v.len() - 1 ==> v[i + 1].0 == v[i].1
            &&& i == v.len() - 1 ==> v[i].1 == s.len()
        }),
{
    lemma_matches(t, s, 0, i);
}

proof fn lemma_matches(t: PretokenizerType, s: Seq<u8>, p: int, i: int)
    requires
        whole_chars(s),
        0 <= p <= s.len(),
        boundary(s, p),
        0 <= i < spans_from(t, s, p).len(),
    ensures
        ({
            let v = spans_from(t, s, p);
            &&& v[0].0 == p
            &&& 0 <= v[i].0 < v[i].1 <= s.len()
            &&& v[i].1 == pattern_of(t)(s, v[i].0)[0]
            &&& i < v.len() - 1 ==> v[i + 1].0 == v[i].1
            &&& i == v.len() - 1 ==> v[i].1 == s.len()
        }),
    decreases s.len() - p,
{
    lemma_token_end(t, s, p);
    law_token_is_the_match(t, s, p);
    law_token_boundary(t, s, p);
    let e = token_end(t, s, p);
    let v = spans_from(t, s, p);
    let rest = spans_from(t, s, e);
    assert(v =~= seq![(p, e)] + rest);
    if e < s.len() {
        assert(rest.len() > 0);
        lemma_matches(t, s, e, 0);
        if i > 0 {
            lemma_matches(t, s, e, i - 1);
            assert(v[i] == rest[i - 1]);
            if i < v.len() - 1 {
                assert(v[i + 1] == rest[i]);
            }
        } else {
            assert(v[1] == rest[0]);
        }
    } else {
        assert(rest.len() == 0);
    }
}

/// The preferred matches of a pattern from `p` on, each where the one before
/// ends.
pub open spec fn matches_from(pattern: Pattern, s: Seq<u8>, p: int) -> Seq<(int, int)>
    decreases s.len() - p,
{
    if 0 <= p < s.len() && pattern(s, p).len() > 0 && p < pattern(s, p)[0] <= s.len() {
        seq![(p, pattern(s, p)[0])] + matches_from(pattern, s, pattern(s, p)[0])
    } else {
        Seq::empty()
    }
}

/// The pretokens of text are all the matches of the pattern.
pub proof fn law_pretokens_are_all_matches(t: PretokenizerType, s: Seq<u8>, p: int)
    requires
        whole_chars(s),
        boundary(s, p),
        0 <= p <= s.len(),
    ensures
        spans_from(t, s, p) == matches_from(pattern_of(t), s, p),
    decreases s.len() - p,
{
    if p < s.len() {
        lemma_token_end(t, s, p);
        law_token_is_the_match(t, s, p);
        law_token_boundary(t, s, p);
        law_pretokens_are_all_matches(t, s, token_end(t, s, p));
    }
}

} // verus!
