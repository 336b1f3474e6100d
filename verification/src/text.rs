//! UTF-8 text: white space at either end, and normalization.
use crate::search::{bytes_equal, copy_bytes};
use vstd::prelude::*;
use vstd::utf8::{
    decode_utf8, decode_utf8_encode_utf8, encode_utf8, encode_utf8_decode_utf8, valid_utf8,
    valid_utf8_concat,
};

verus! {

/// The length of the Unicode white space character that is encoded at `p`, or
/// 0. The characters are U+0009 to U+000D, U+0020, U+0085, U+00A0, U+1680,
/// U+2000 to U+200A, U+2028, U+2029, U+202F, U+205F and U+3000.
pub open spec fn space_width(s: Seq<u8>, p: int) -> int {
    if 0 <= p < s.len() && (0x09 <= s[p] <= 0x0D || s[p] == 0x20) {
        1
    } else if 0 <= p && p + 1 < s.len() && s[p] == 0xC2 && (s[p + 1] == 0x85 || s[p + 1] == 0xA0) {
        2
    } else if 0 <= p && p + 2 < s.len() && ({
        ||| s[p] == 0xE1 && s[p + 1] == 0x9A && s[p + 2] == 0x80
        ||| s[p] == 0xE2 && s[p + 1] == 0x80 && (0x80 <= s[p + 2] <= 0x8A || s[p + 2] == 0xA8
            || s[p + 2] == 0xA9 || s[p + 2] == 0xAF)
        ||| s[p] == 0xE2 && s[p + 1] == 0x81 && s[p + 2] == 0x9F
        ||| s[p] == 0xE3 && s[p + 1] == 0x80 && s[p + 2] == 0x80
    }) {
        3
    } else {
        0
    }
}

/// The length of the white space character at `p`, or 0.
fn space_at(bytes: &[u8], p: usize) -> (w: usize)
    requires
        p < bytes@.len(),
    ensures
        w == space_width(bytes@, p as int),
{
    let a: u8 = bytes[p];
    if (0x09 <= a && a <= 0x0D) || a == 0x20 {
        return 1;
    }
    if bytes.len() - p < 2 {
        return 0;
    }
    let b: u8 = bytes[p + 1];
    if a == 0xC2 && (b == 0x85 || b == 0xA0) {
        return 2;
    }
    if bytes.len() - p < 3 {
        return 0;
    }
    let c: u8 = bytes[p + 2];
    if (a == 0xE1 && b == 0x9A && c == 0x80) || (a == 0xE2 && b == 0x80 && ((0x80 <= c && c <= 0x8A)
        || c == 0xA8 || c == 0xA9 || c == 0xAF)) || (a == 0xE2 && b == 0x81 && c == 0x9F) || (a
        == 0xE3 && b == 0x80 && c == 0x80) {
        return 3;
    }
    0
}

/// The first position from `p` on that no white space stands at.
pub open spec fn spaces_end(s: Seq<u8>, p: int) -> int
    decreases s.len() - p,
{
    if space_width(s, p) > 0 {
        spaces_end(s, p + space_width(s, p))
    } else {
        p
    }
}

/// The length of the white space character that ends at `end`, or 0.
pub open spec fn space_width_before(s: Seq<u8>, end: int) -> int {
    if space_width(s, end - 1) == 1 {
        1
    } else if space_width(s, end - 2) == 2 {
        2
    } else if space_width(s, end - 3) == 3 {
        3
    } else {
        0
    }
}

/// The last position up to `end` that no white space ends at.
pub open spec fn spaces_start(s: Seq<u8>, end: int) -> int
    decreases end,
{
    if 0 < end <= s.len() && space_width_before(s, end) > 0 {
        spaces_start(s, end - space_width_before(s, end))
    } else {
        end
    }
}

/// Byte offset after the leading white space of `bytes`.
pub fn trim_ws_start(bytes: &[u8]) -> (pos: usize)
    ensures
        pos <= bytes@.len(),
        pos == spaces_end(bytes@, 0),
{
    let mut pos: usize = 0;
    while pos < bytes.len()
        invariant
            pos <= bytes@.len(),
            spaces_end(bytes@, pos as int) == spaces_end(bytes@, 0),
        decreases bytes@.len() - pos,
    {
        let w: usize = space_at(bytes, pos);
        if w == 0 {
            return pos;
        }
        pos += w;
    }
    pos
}

/// Length of `bytes` after trimming trailing white space.
pub fn trim_ws_end(bytes: &[u8]) -> (end: usize)
    ensures
        end <= bytes@.len(),
        end == spaces_start(bytes@, bytes@.len() as int),
{
    let mut end: usize = bytes.len();
    while end > 0
        invariant
            end <= bytes@.len(),
            spaces_start(bytes@, end as int) == spaces_start(bytes@, bytes@.len() as int),
        decreases end,
    {
        if space_at(bytes, end - 1) == 1 {
            end -= 1;
        } else if end >= 2 && space_at(bytes, end - 2) == 2 {
            end -= 2;
        } else if end >= 3 && space_at(bytes, end - 3) == 3 {
            end -= 3;
        } else {
            return end;
        }
    }
    end
}

/// All bytes are ASCII.
pub open spec fn all_ascii(s: Seq<u8>) -> bool {
    forall|i: int| 0 <= i < s.len() ==> #[trigger] s[i] < 0x80
}

/// Whether all bytes are ASCII.
pub fn is_ascii(bytes: &[u8]) -> (r: bool)
    ensures
        r == all_ascii(bytes@),
{
    let mut i: usize = 0;
    while i < bytes.len()
        invariant
            i <= bytes@.len(),
            forall|j: int| 0 <= j < i ==> #[trigger] bytes@[j] < 0x80,
        decreases bytes@.len() - i,
    {
        if bytes[i] >= 0x80 {
            return false;
        }
        i += 1;
    }
    true
}

/// `std::str::from_utf8`: the same bytes as text, or `None` when they are not
/// valid UTF-8.
#[verifier::external_body]
pub(crate) fn utf8_text(bytes: &[u8]) -> (r: Option<&str>)
    ensures
        match r {
            Some(t) => valid_utf8(bytes@) && encode_utf8(t@) == bytes@,
            None => !valid_utf8(bytes@),
        },
{
    std::str::from_utf8(bytes).ok()
}

/// Unicode normalization form C of a text, as `icu` computes it.
pub uninterp spec fn nfc(s: Seq<char>) -> Seq<char>;

/// A text that starts below U+0300, where no character combines with what
/// stands before it.
pub open spec fn low_start(s: Seq<char>) -> bool {
    s.len() > 0 ==> (s[0] as u32) < 0x300
}

/// Every character is ASCII.
pub open spec fn ascii_text(s: Seq<char>) -> bool {
    forall|i: int| 0 <= i < s.len() ==> (#[trigger] s[i]) as u32 <= 0x7F
}

/// Inside a text, what normalizes to `out` is normalized on its own, ASCII that
/// follows it stays, and the rest is normalized on its own, where each part
/// starts with a character that does not combine with what stands before it.
pub open spec fn nfc_apart(text: Seq<char>, out: Seq<char>) -> bool {
    forall|pre: Seq<char>, mid: Seq<char>, post: Seq<char>|
        (pre.len() == 0 || low_start(text)) && ascii_text(mid) && low_start(post)
            ==> #[trigger] nfc(pre + text + mid + post) == nfc(pre) + out + mid + nfc(post)
}

/// `icu::normalizer::ComposingNormalizer::new_nfc` and its `normalize`: form C
/// of `text`. The result depends on `text` alone, since the normalization
/// data is compiled in. Characters below U+0300 pass through and do not combine
/// with what stands before them, so that text around this one which meets it
/// at such a character is normalized on its own, and ASCII stays as it is.
#[verifier::external_body]
fn icu_nfc(text: &str) -> (r: String)
    ensures
        r@ == nfc(text@),
        nfc_apart(text@, r@),
{
    icu::normalizer::ComposingNormalizer::new_nfc().normalize(text).into_owned()
}

/// Normalization divides before a character below U+0300, and leaves ASCII
/// alone.
pub open spec fn nfc_divides() -> bool {
    &&& forall|a: Seq<char>, b: Seq<char>|
        low_start(b) ==> #[trigger] nfc(a + b) == nfc(a) + nfc(b)
    &&& forall|s: Seq<char>| ascii_text(s) ==> #[trigger] nfc(s) == s
}

/// Normalizes no text, which gives none and tells how others divide.
pub(crate) fn normalize_nothing() -> (r: String)
    ensures
        r@.len() == 0,
        nfc_divides(),
{
    let r = icu_nfc("");
    proof {
        reveal_strlit("");
        let none = Seq::<char>::empty();
        assert(""@ =~= none);
        assert(none + none + none + none =~= none);
        assert(nfc(none + none + none + none) == nfc(none) + r@ + none + nfc(none));
        assert(r@.len() == 0);
        assert forall|a: Seq<char>, b: Seq<char>| low_start(b) implies #[trigger] nfc(a + b) == nfc(
            a,
        ) + nfc(b) by {
            assert(a + none + none + b =~= a + b);
            assert(nfc(a + none + none + b) == nfc(a) + r@ + none + nfc(b));
            assert(nfc(a) + r@ + none + nfc(b) =~= nfc(a) + nfc(b));
        }
        assert forall|s: Seq<char>| ascii_text(s) implies #[trigger] nfc(s) == s by {
            assert(none + none + s + none =~= s);
            assert(nfc(none + none + s + none) == nfc(none) + r@ + s + nfc(none));
            assert(nfc(none) + r@ + s + nfc(none) =~= s);
        }
    }
    r
}

/// A byte segment in normalization form C: ASCII and invalid UTF-8 stay as
/// they are.
pub open spec fn nfc_bytes(s: Seq<u8>) -> Seq<u8> {
    if all_ascii(s) || !valid_utf8(s) {
        s
    } else {
        encode_utf8(nfc(decode_utf8(s)))
    }
}

/// NFC-normalizes a segment; ASCII and invalid UTF-8 pass through.
pub fn nfc_segment(seg: &[u8]) -> (r: Vec<u8>)
    ensures
        r@ == nfc_bytes(seg@),
{
    if is_ascii(seg) {
        return copy_bytes(seg);
    }
    match utf8_text(seg) {
        None => copy_bytes(seg),
        Some(text) => {
            proof {
                vstd::utf8::encode_utf8_decode_utf8(text@);
            }
            let normal = icu_nfc(text);
            copy_bytes(normal.as_str().as_bytes())
        },
    }
}

/// The values of a list of texts.
pub open spec fn text_views(v: Seq<String>) -> Seq<Seq<char>> {
    v.map_values(|t: String| t@)
}

/// Whether two texts are equal.
pub fn text_equal(a: &str, b: &str) -> (r: bool)
    ensures
        r == (a@ == b@),
{
    proof {
        encode_utf8_decode_utf8(a@);
        encode_utf8_decode_utf8(b@);
    }
    bytes_equal(a.as_bytes(), b.as_bytes())
}

/// White space starts within the text.
pub proof fn lemma_spaces_start_in(s: Seq<u8>, end: int)
    requires
        0 <= end,
    ensures
        0 <= spaces_start(s, end) <= end,
    decreases end,
{
    if 0 < end <= s.len() && space_width_before(s, end) > 0 {
        lemma_spaces_start_in(s, end - space_width_before(s, end));
    }
}

/// White space ends within the text, before something else.
pub proof fn lemma_spaces_end_in(s: Seq<u8>, p: int)
    requires
        0 <= p <= s.len(),
    ensures
        p <= spaces_end(s, p) <= s.len(),
        space_width(s, spaces_end(s, p)) == 0,
    decreases s.len() - p,
{
    if space_width(s, p) > 0 {
        lemma_spaces_end_in(s, p + space_width(s, p));
    }
}

/// White space that ends before `p` ends there in the text up to `p` too.
pub proof fn lemma_spaces_end_take(s: Seq<u8>, p: int, q: int)
    requires
        0 <= q <= s.len(),
        spaces_end(s, q) < p <= s.len(),
    ensures
        spaces_end(s.take(p), q) == spaces_end(s, q),
    decreases s.len() - q,
{
    let t = s.take(p);
    lemma_spaces_end_in(s, q);
    if space_width(s, q) > 0 {
        let w = space_width(s, q);
        lemma_spaces_end_in(s, q + w);
        assert(space_width(t, q) == w);
        lemma_spaces_end_take(s, p, q + w);
    } else {
        assert(space_width(t, q) == 0);
    }
}

/// White space that starts after `x` starts there in the text from `x` on too.
pub proof fn lemma_spaces_start_skip(s: Seq<u8>, x: int, end: int)
    requires
        0 <= x < spaces_start(s, end),
        end <= s.len(),
    ensures
        spaces_start(s.skip(x), end - x) == spaces_start(s, end) - x,
    decreases end,
{
    let t = s.skip(x);
    if 0 < end {
        lemma_spaces_start_in(s, end);
        let w = space_width_before(s, end);
        assert(forall|i: int| 0 <= i < t.len() ==> #[trigger] t[i] == s[x + i]);
        if w > 0 {
            lemma_spaces_start_in(s, end - w);
            assert(space_width(t, end - x - 1) == space_width(s, end - 1));
            assert(w >= 2 ==> space_width(t, end - x - 2) == space_width(s, end - 2));
            assert(w >= 3 ==> space_width(t, end - x - 3) == space_width(s, end - 3));
            assert(space_width_before(t, end - x) == w);
            lemma_spaces_start_skip(s, x, end - w);
        } else {
            assert(space_width(t, end - x - 1) == 1 ==> space_width(s, end - 1) == 1);
            assert(space_width(t, end - x - 2) == 2 ==> space_width(s, end - 2) == 2);
            assert(space_width(t, end - x - 3) == 3 ==> space_width(s, end - 3) == 3);
            assert(space_width_before(t, end - x) == 0);
        }
    }
}

/// Joined texts have joined bytes.
pub proof fn lemma_encode_concat(a: Seq<char>, b: Seq<char>)
    ensures
        encode_utf8(a + b) == encode_utf8(a) + encode_utf8(b),
    decreases a.len(),
{
    if a.len() == 0 {
        assert(a + b =~= b);
        assert(encode_utf8(a) + encode_utf8(b) =~= encode_utf8(b));
    } else {
        lemma_encode_concat(a.drop_first(), b);
        assert((a + b).drop_first() =~= a.drop_first() + b);
        assert((a + b)[0] == a[0]);
        assert(encode_utf8(a + b) =~= encode_utf8(a) + encode_utf8(b));
    }
}

/// Joined bytes have joined texts.
pub proof fn lemma_decode_concat(a: Seq<u8>, b: Seq<u8>)
    requires
        valid_utf8(a),
        valid_utf8(b),
    ensures
        valid_utf8(a + b),
        decode_utf8(a + b) == decode_utf8(a) + decode_utf8(b),
{
    valid_utf8_concat(a, b);
    decode_utf8_encode_utf8(a);
    decode_utf8_encode_utf8(b);
    lemma_encode_concat(decode_utf8(a), decode_utf8(b));
    encode_utf8_decode_utf8(decode_utf8(a) + decode_utf8(b));
}

} // verus!
