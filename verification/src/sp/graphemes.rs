//! Where graphemes end, and what that tells of normalizing a text in parts.
use crate::sp::charsmap::{
    ascii_text, charsmap_normalize, charsmap_transform, crlf_text, is_printable,
    lemma_ascii_valid, printable_fixed, span_text,
};
use crate::text::{lemma_decode_concat, lemma_encode_concat};
use vstd::prelude::*;
use vstd::utf8::{
    decode_utf8, decode_utf8_encode_utf8, decode_utf8_first_scalar, encode_scalar, encode_utf8,
    is_char_boundary_iff_not_is_continuation_byte, leading_byte_width_1, length_of_first_scalar,
    pop_first_scalar, take_first_scalar, valid_first_scalar, valid_utf8, valid_utf8_split,
};

verus! {

/// An ASCII control character.
pub open spec fn control(c: u32) -> bool {
    c < 0x20 || c == 0x7F
}

/// A grapheme ends between the code points `a` and `b`, whatever stands around
/// them: both are ASCII, or one is a control character. A carriage return stays
/// with the line feed after it.
pub open spec fn grapheme_break(a: u32, b: u32) -> bool {
    &&& !(a == 0x0D && b == 0x0A)
    &&& (a < 0x80 && b < 0x80) || control(a) || control(b)
}

/// A grapheme ends where `a` and `b` meet.
pub open spec fn parted(a: Seq<char>, b: Seq<char>) -> bool {
    a.len() == 0 || b.len() == 0 || grapheme_break(a.last() as u32, b[0] as u32)
}

/// One ASCII character, or a carriage return with its line feed.
pub open spec fn lone_grapheme(chunk: Seq<char>) -> bool {
    (chunk.len() == 1 && (chunk[0] as u32) < 0x80) || chunk == seq!['\r', '\n']
}

/// What a charsmap maps each character of a text to, on its own.
pub open spec fn chars_text(map: Seq<u8>, chunk: Seq<char>) -> Seq<char>
    decreases chunk.len(),
{
    if chunk.len() == 0 {
        Seq::empty()
    } else {
        chars_text(map, chunk.drop_last()) + match charsmap_transform(map, seq![chunk.last()]) {
            Some(t) => t,
            None => seq![chunk.last()],
        }
    }
}

/// What a charsmap maps a grapheme of its own to: what it has for it, or what
/// it has for its characters.
pub open spec fn looked_up(map: Seq<u8>, chunk: Seq<char>) -> Seq<char> {
    match charsmap_transform(map, chunk) {
        Some(t) => t,
        None => chars_text(map, chunk),
    }
}

/// Inside a text, `mid` is normalized to `out` and what is around it on its
/// own, where graphemes end before and after it. No text is normalized to none.
pub open spec fn stands_apart(map: Seq<u8>, mid: Seq<char>, out: Seq<char>) -> bool {
    &&& charsmap_normalize(map, Seq::empty()) == Seq::<char>::empty()
    &&& mid.len() > 0 ==> forall|pre: Seq<char>, post: Seq<char>|
        parted(pre, mid) && parted(mid, post) ==> #[trigger] charsmap_normalize(
            map,
            pre + mid + post,
        ) == charsmap_normalize(map, pre) + out + charsmap_normalize(map, post)
}

/// A grapheme ends where the UTF-8 texts `a` and `b` meet.
pub open spec fn bytes_parted(a: Seq<u8>, b: Seq<u8>) -> bool {
    a.len() == 0 || b.len() == 0 || grapheme_break(a.last() as u32, b[0] as u32)
}

/// The same of UTF-8 text.
pub open spec fn bytes_apart(map: Seq<u8>, mid: Seq<u8>, out: Seq<u8>) -> bool {
    &&& span_text(map, Seq::empty()) == Seq::<u8>::empty()
    &&& mid.len() > 0 ==> forall|pre: Seq<u8>, post: Seq<u8>|
        valid_utf8(pre) && valid_utf8(post) && bytes_parted(pre, mid) && bytes_parted(mid, post)
            ==> #[trigger] span_text(map, pre + mid + post) == span_text(map, pre) + out
            + span_text(
            map,
            post,
        )
}

/// The first character of a text, by its first byte.
pub proof fn lemma_first_char(s: Seq<u8>)
    requires
        valid_utf8(s),
        s.len() > 0,
    ensures
        decode_utf8(s).len() > 0,
        s[0] < 0x80 ==> decode_utf8(s)[0] as u32 == s[0],
        s[0] >= 0x80 ==> decode_utf8(s)[0] as u32 >= 0x80,
{
    decode_utf8_first_scalar(s);
    let c = decode_utf8(s)[0] as u32;
    let e = encode_scalar(c);
    assert(e == take_first_scalar(s));
    assert(e[0] == s[0]);
    if s[0] < 0x80 {
        assert(e.len() == 1);
        assert(e == seq![leading_byte_width_1(c)]);
        assert((c & 0x7F) as u8 == c) by (bit_vector)
            requires
                c < 0x80,
        ;
    } else {
        assert(e.len() >= 2);
    }
}

/// The last character of a text, by its last byte.
pub proof fn lemma_last_char(s: Seq<u8>)
    requires
        valid_utf8(s),
        s.len() > 0,
    ensures
        decode_utf8(s).len() > 0,
        s.last() < 0x80 ==> decode_utf8(s).last() as u32 == s.last(),
        s.last() >= 0x80 ==> decode_utf8(s).last() as u32 >= 0x80,
    decreases s.len(),
{
    lemma_first_char(s);
    let rest = pop_first_scalar(s);
    let n = length_of_first_scalar(s);
    if rest.len() == 0 {
        assert(decode_utf8(rest) =~= Seq::<char>::empty());
        assert(decode_utf8(s).len() == 1);
        assert(s.len() == n);
    } else {
        lemma_last_char(rest);
        assert(rest.last() == s.last());
        assert(decode_utf8(s).last() == decode_utf8(rest).last());
    }
}

proof fn lemma_parted(a: Seq<u8>, b: Seq<u8>)
    requires
        valid_utf8(a),
        valid_utf8(b),
        bytes_parted(a, b),
    ensures
        parted(decode_utf8(a), decode_utf8(b)),
{
    if a.len() > 0 && b.len() > 0 {
        lemma_last_char(a);
        lemma_first_char(b);
    }
}

/// What stands apart as text stands apart as bytes.
pub proof fn lemma_bytes_apart(map: Seq<u8>, mid: Seq<u8>, out: Seq<char>)
    requires
        valid_utf8(mid),
        stands_apart(map, decode_utf8(mid), out),
    ensures
        bytes_apart(map, mid, encode_utf8(out)),
{
    let empty = Seq::<u8>::empty();
    assert(valid_utf8(empty));
    assert(decode_utf8(empty) =~= Seq::<char>::empty());
    assert(span_text(map, empty) =~= empty);
    if mid.len() > 0 {
        lemma_first_char(mid);
        assert forall|pre: Seq<u8>, post: Seq<u8>|
            valid_utf8(pre) && valid_utf8(post) && bytes_parted(pre, mid) && bytes_parted(
                mid,
                post,
            ) implies #[trigger] span_text(map, pre + mid + post) == span_text(map, pre)
            + encode_utf8(out) + span_text(map, post) by {
            lemma_parted(pre, mid);
            lemma_parted(mid, post);
            lemma_decode_concat(pre, mid);
            lemma_decode_concat(pre + mid, post);
            let (a, b) = (decode_utf8(pre), decode_utf8(post));
            let (x, y) = (charsmap_normalize(map, a), charsmap_normalize(map, b));
            assert(charsmap_normalize(map, a + decode_utf8(mid) + b) == x + out + y);
            lemma_encode_concat(x, out);
            lemma_encode_concat(x + out, y);
        }
    }
}

/// The ASCII character `b` stands apart as what it maps to.
pub open spec fn ascii_apart(map: Seq<u8>, b: u8) -> bool {
    bytes_apart(map, seq![b], ascii_text(map, b))
}

pub proof fn lemma_ascii_char(map: Seq<u8>, b: u8)
    requires
        b < 0x80,
    ensures
        decode_utf8(seq![b]) == seq![b as char],
        encode_utf8(chars_text(map, seq![b as char])) == ascii_text(map, b),
{
    let s = seq![b];
    let c = b as char;
    lemma_ascii_valid(b);
    lemma_first_char(s);
    assert(pop_first_scalar(s) =~= Seq::<u8>::empty());
    assert(decode_utf8(Seq::<u8>::empty()) =~= Seq::<char>::empty());
    assert(decode_utf8(s) =~= seq![c]);
    decode_utf8_encode_utf8(s);
    let one = seq![c];
    assert(one.drop_last() =~= Seq::<char>::empty());
    assert(chars_text(map, one.drop_last()) =~= Seq::<char>::empty());
    assert(one.last() == c);
    match charsmap_transform(map, one) {
        Some(t) => {
            assert(chars_text(map, one) =~= t);
        },
        None => {
            assert(chars_text(map, one) =~= one);
        },
    }
}

/// What is looked up for an ASCII character stands apart.
pub proof fn lemma_ascii_apart(map: Seq<u8>, b: u8)
    requires
        b < 0x80,
        stands_apart(map, decode_utf8(seq![b]), looked_up(map, decode_utf8(seq![b]))),
    ensures
        ascii_apart(map, b),
{
    lemma_ascii_char(map, b);
    lemma_ascii_valid(b);
    lemma_bytes_apart(map, seq![b], looked_up(map, decode_utf8(seq![b])));
}

/// An ASCII character and a line end are graphemes of their own.
pub proof fn lemma_lone(b: u8)
    requires
        b < 0x80,
    ensures
        lone_grapheme(decode_utf8(seq![b])),
        lone_grapheme(decode_utf8(seq![0x0Du8, 0x0Au8])),
        decode_utf8(seq![0x0Du8, 0x0Au8]) == seq!['\r', '\n'],
        valid_utf8(seq![0x0Du8, 0x0Au8]),
{
    lemma_ascii_char(Seq::empty(), b);
    lemma_ascii_char(Seq::empty(), 0x0D);
    lemma_ascii_char(Seq::empty(), 0x0A);
    lemma_ascii_valid(0x0D);
    lemma_ascii_valid(0x0A);
    lemma_decode_concat(seq![0x0Du8], seq![0x0Au8]);
    assert(seq![0x0Du8] + seq![0x0Au8] =~= seq![0x0Du8, 0x0Au8]);
    assert(seq![0x0Du8 as char] + seq![0x0Au8 as char] =~= seq!['\r', '\n']);
}

/// What is looked up for a line end stands apart.
pub proof fn lemma_crlf_apart(map: Seq<u8>)
    requires
        stands_apart(map, seq!['\r', '\n'], looked_up(map, seq!['\r', '\n'])),
    ensures
        bytes_apart(map, seq![0x0Du8, 0x0Au8], crlf_text(map)),
{
    let chunk = seq!['\r', '\n'];
    lemma_lone(0x0D);
    lemma_bytes_apart(map, seq![0x0Du8, 0x0Au8], looked_up(map, chunk));
    lemma_ascii_char(map, 0x0D);
    lemma_ascii_char(map, 0x0A);
    assert(chunk.drop_last() =~= seq!['\r']);
    assert(chunk.last() == '\n');
    let one = seq!['\n'];
    assert(one.drop_last() =~= Seq::<char>::empty());
    assert(chars_text(map, one.drop_last()) =~= Seq::<char>::empty());
    assert(one.last() == '\n');
    assert(chars_text(map, chunk) =~= chars_text(map, seq!['\r']) + chars_text(map, one));
    lemma_encode_concat(chars_text(map, seq!['\r']), chars_text(map, one));
}

/// Printable ASCII is normalized to itself where no such character is mapped
/// to something else.
pub proof fn lemma_clean_text(map: Seq<u8>, s: Seq<u8>)
    requires
        forall|b: u8| b < 128 ==> #[trigger] ascii_apart(map, b),
        printable_fixed(map),
        forall|i: int| 0 <= i < s.len() ==> is_printable(#[trigger] s[i]),
    ensures
        valid_utf8(s),
        span_text(map, s) == s,
    decreases s.len(),
{
    let empty = Seq::<u8>::empty();
    assert(valid_utf8(empty));
    assert(ascii_apart(map, 0x20));
    if s.len() == 0 {
        assert(s =~= empty);
    } else {
        let head = s.drop_last();
        let b = s.last();
        lemma_clean_text(map, head);
        lemma_ascii_valid(b);
        lemma_decode_concat(head, seq![b]);
        assert(head + seq![b] =~= s);
        assert(ascii_apart(map, b));
        assert(ascii_text(map, b) == seq![b]);
        assert(head + seq![b] + empty =~= s);
        assert(span_text(map, head + seq![b] + empty) == head + seq![b] + empty);
    }
}

/// Text from `i` on is normalized in three parts: printable ASCII up to
/// `start`, what stands apart up to `end`, and the rest.
pub proof fn lemma_normalize_parts(
    map: Seq<u8>,
    s: Seq<u8>,
    i: int,
    start: int,
    end: int,
    out: Seq<u8>,
)
    requires
        0 <= i <= start < end <= s.len(),
        forall|b: u8| b < 128 ==> #[trigger] ascii_apart(map, b),
        printable_fixed(map),
        forall|k: int| i <= k < start ==> is_printable(#[trigger] s[k]),
        valid_utf8(s.skip(end)),
        bytes_parted(s.subrange(i, start), s.subrange(start, end)),
        bytes_parted(s.subrange(start, end), s.skip(end)),
        bytes_apart(map, s.subrange(start, end), out),
    ensures
        span_text(map, s.skip(i)) == s.subrange(i, start) + out + span_text(map, s.skip(end)),
{
    let clean = s.subrange(i, start);
    let mid = s.subrange(start, end);
    let rest = s.skip(end);
    assert forall|k: int| 0 <= k < clean.len() implies is_printable(#[trigger] clean[k]) by {
        assert(clean[k] == s[i + k]);
    }
    lemma_clean_text(map, clean);
    assert(clean + mid + rest =~= s.skip(i));
}

/// No character goes on after an ASCII byte.
pub proof fn lemma_after_ascii(s: Seq<u8>, p: int)
    requires
        valid_utf8(s),
        0 < p < s.len(),
        s[p - 1] < 0x80,
    ensures
        !(0x80 <= s[p] <= 0xBF),
    decreases s.len(),
{
    let rest = pop_first_scalar(s);
    let n = length_of_first_scalar(s);
    assert(valid_first_scalar(s));
    if p > n {
        assert(rest[p - n] == s[p] && rest[p - n - 1] == s[p - 1]);
        lemma_after_ascii(rest, p - n);
    } else if p == n {
        assert(rest[0] == s[p]);
        assert(valid_utf8(rest) && rest.len() > 0);
        assert(valid_first_scalar(rest));
    }
}

/// A text that is valid from `i` on divides at a later position where a
/// character starts.
pub proof fn lemma_valid_parts(s: Seq<u8>, i: int, p: int)
    requires
        0 <= i <= p <= s.len(),
        valid_utf8(s.skip(i)),
        p < s.len() ==> !(0x80 <= s[p] <= 0xBF),
    ensures
        valid_utf8(s.subrange(i, p)),
        valid_utf8(s.skip(p)),
{
    let t = s.skip(i);
    if p < s.len() {
        assert(t[p - i] == s[p]);
        is_char_boundary_iff_not_is_continuation_byte(t, p - i);
        valid_utf8_split(t, p - i);
        assert(t.subrange(0, p - i) =~= s.subrange(i, p));
        assert(t.subrange(p - i, t.len() as int) =~= s.skip(p));
    } else {
        assert(s.subrange(i, p) =~= t);
        assert(s.skip(p) =~= Seq::<u8>::empty());
        assert(valid_utf8(Seq::<u8>::empty()));
    }
}

} // verus!
