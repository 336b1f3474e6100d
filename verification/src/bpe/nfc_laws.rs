//! What normalization does to a text and to its parts.
use crate::bpe::added::{longest_match, patterns};
use crate::bpe::match_laws::lemma_match_is;
use crate::bpe::model::inverse_spells;
use crate::bpe::rules::rules_spell;
use crate::bpe::tiktoken::{
    after_added, all_nonempty, bytes_spell, encode_from, encoded, expand_ids,
    law_segment_round_trip, prepared, segment_end, segment_ids, TokenizerView,
};
use crate::pretokenize::locality::{boundary, law_utf8_is_whole, whole_chars};
use crate::pretokenize::split::space_break;
use crate::sp::charsmap::lemma_ascii_valid;
use crate::sp::graphemes::{
    lemma_ascii_char, lemma_first_char, lemma_last_char, lemma_valid_parts,
};
use crate::text::{
    all_ascii, ascii_text, lemma_decode_concat, lemma_encode_concat, lemma_spaces_end_in,
    lemma_spaces_start_in, low_start, nfc, nfc_bytes, nfc_divides,
};
use vstd::prelude::*;
use vstd::utf8::{
    decode_utf8, decode_utf8_encode_utf8, encode_utf8, encode_utf8_valid_utf8, valid_utf8,
};

verus! {

/// A text every part of which is its own normalization form C.
pub open spec fn stays_nfc(s: Seq<u8>) -> bool {
    forall|a: int, b: int|
        0 <= a <= b <= s.len() ==> #[trigger] nfc_bytes(s.subrange(a, b)) == s.subrange(a, b)
}

/// ASCII text is its own normalization form C, and so is every part of it.
pub proof fn law_ascii_stays_nfc(s: Seq<u8>)
    requires
        all_ascii(s),
    ensures
        stays_nfc(s),
{
    assert forall|a: int, b: int| 0 <= a <= b <= s.len() implies #[trigger] nfc_bytes(
        s.subrange(a, b),
    ) == s.subrange(a, b) by {
        let t = s.subrange(a, b);
        assert forall|i: int| 0 <= i < t.len() implies #[trigger] t[i] < 0x80 by {
            assert(t[i] == s[a + i]);
        }
    }
}

/// A tokenizer that is set not to normalize.
pub open spec fn without_nfc(t: TokenizerView) -> TokenizerView {
    TokenizerView { nfc: false, ..t }
}

proof fn lemma_segment_plain(t: TokenizerView, s: Seq<u8>, a: int, b: int)
    requires
        stays_nfc(s),
        0 <= a <= b <= s.len(),
    ensures
        segment_ids(t, s.subrange(a, b)) == segment_ids(without_nfc(t), s.subrange(a, b)),
{
    assert(nfc_bytes(s.subrange(a, b)) == s.subrange(a, b));
    assert(prepared(t, s.subrange(a, b)) == prepared(without_nfc(t), s.subrange(a, b)));
}

/// On a text that normalization leaves alone, a tokenizer encodes as if it did
/// not normalize.
pub proof fn law_encode_ignores_nfc(t: TokenizerView, s: Seq<u8>, pos: int)
    requires
        stays_nfc(s),
        all_nonempty(t.added),
        0 <= pos <= s.len(),
    ensures
        encode_from(t, s, pos) == encode_from(without_nfc(t), s, pos),
        pos == 0 ==> encoded(t, s) == encoded(without_nfc(t), s),
    decreases s.len() - pos,
{
    let u = without_nfc(t);
    if pos < s.len() {
        match longest_match(patterns(t.added), s, pos) {
            None => {
                assert(s.skip(pos) =~= s.subrange(pos, s.len() as int));
                lemma_segment_plain(t, s, pos, s.len() as int);
            },
            Some((start, k)) => {
                lemma_match_is(t.added, s, pos);
                let tok = t.added[k];
                let end = start + tok.content.len();
                lemma_spaces_start_in(s.subrange(pos, start), start - pos);
                lemma_spaces_end_in(s.skip(end), 0);
                lemma_segment_plain(t, s, pos, segment_end(tok, s, pos, start));
                let next = after_added(tok, s, start);
                if pos < next <= s.len() {
                    law_encode_ignores_nfc(t, s, next);
                }
            },
        }
    }
}

/// Decoding what a normalizing tokenizer makes of a text gives the normalized
/// text: for a text without added tokens, a tokenizer that does not pad, and
/// merge rules and byte symbols that spell their bytes.
pub proof fn law_decode_gives_nfc(t: TokenizerView, s: Seq<u8>)
    requires
        t.nfc,
        !t.prefix_space,
        rules_spell(t.model.rules, t.model.vocab),
        inverse_spells(t.model.vocab_inv, t.model.vocab),
        bytes_spell(t.model, nfc_bytes(s)),
        longest_match(patterns(t.added), s, 0) is None,
        s.len() > 0,
    ensures
        expand_ids(t.model.vocab, encoded(t, s)) == nfc_bytes(s),
{
    let u = without_nfc(t);
    assert(s.skip(0) =~= s);
    assert(prepared(t, s) == prepared(u, nfc_bytes(s)));
    law_segment_round_trip(u, nfc_bytes(s));
}

/// A range of UTF-8 text between characters is UTF-8.
pub proof fn lemma_valid_range(s: Seq<u8>, a: int, b: int)
    requires
        valid_utf8(s),
        0 <= a <= b <= s.len(),
        boundary(s, a),
        boundary(s, b),
    ensures
        valid_utf8(s.subrange(a, b)),
{
    assert(s.skip(0) =~= s);
    lemma_valid_parts(s, 0, a);
    lemma_valid_parts(s, a, b);
}

proof fn lemma_ascii_decode(s: Seq<u8>)
    requires
        all_ascii(s),
    ensures
        valid_utf8(s),
        ascii_text(decode_utf8(s)),
    decreases s.len(),
{
    if s.len() == 0 {
        assert(s =~= Seq::<u8>::empty());
        assert(valid_utf8(s));
        assert(decode_utf8(s) =~= Seq::<char>::empty());
    } else {
        let head = s.drop_last();
        let b = s.last();
        assert(s[s.len() - 1] == b);
        assert forall|i: int| 0 <= i < head.len() implies #[trigger] head[i] < 0x80 by {
            assert(head[i] == s[i]);
        }
        lemma_ascii_decode(head);
        lemma_ascii_valid(b);
        lemma_ascii_char(Seq::empty(), b);
        lemma_decode_concat(head, seq![b]);
        assert(head + seq![b] =~= s);
        let d = decode_utf8(s);
        assert forall|i: int| 0 <= i < d.len() implies (#[trigger] d[i]) as u32 <= 0x7F by {
            if i < decode_utf8(head).len() {
                assert(decode_utf8(head)[i] as u32 <= 0x7F);
            }
        }
    }
}

/// The form of UTF-8 text, by its characters.
proof fn lemma_nfc_chars(s: Seq<u8>)
    requires
        nfc_divides(),
        valid_utf8(s),
    ensures
        nfc_bytes(s) == encode_utf8(nfc(decode_utf8(s))),
{
    if all_ascii(s) {
        lemma_ascii_decode(s);
        decode_utf8_encode_utf8(s);
        assert(nfc(decode_utf8(s)) == decode_utf8(s));
    }
}

proof fn lemma_same_char(a: char, b: char)
    requires
        a as u32 == b as u32,
    ensures
        a == b,
{
}

/// A text that is cut before a space between ASCII characters is normalized in
/// two parts, which meet at the same characters.
pub proof fn lemma_nfc_break(raw: Seq<u8>, q: int)
    requires
        nfc_divides(),
        valid_utf8(raw),
        space_break(raw, q),
        q + 1 < raw.len() ==> raw[q + 1] < 0x80,
    ensures
        ({
            let head = nfc_bytes(raw.take(q));
            &&& nfc_bytes(raw) == head + nfc_bytes(raw.skip(q))
            &&& space_break(nfc_bytes(raw), head.len() as int)
            &&& whole_chars(nfc_bytes(raw))
        }),
{
    let x = raw.take(q);
    let y = raw.skip(q);
    assert(raw.skip(0) =~= raw);
    lemma_valid_parts(raw, 0, q);
    assert(raw.subrange(0, q) =~= x);
    let z = y.skip(1);
    assert(y.skip(0) =~= y);
    if q + 1 < raw.len() {
        assert(y[1] == raw[q + 1]);
    }
    lemma_valid_parts(y, 0, 1);
    let (a, b, c) = (decode_utf8(x), decode_utf8(y), decode_utf8(z));
    lemma_decode_concat(x, y);
    assert(x + y =~= raw);
    lemma_nfc_chars(raw);
    lemma_nfc_chars(x);
    lemma_nfc_chars(y);
    // The second part starts with the space.
    lemma_ascii_valid(0x20);
    lemma_ascii_char(Seq::empty(), 0x20);
    let sp = seq![0x20u8 as char];
    assert(seq![0x20u8] + z =~= y);
    lemma_decode_concat(seq![0x20u8], z);
    assert(b == sp + c);
    assert(low_start(b));
    assert(nfc(a + b) == nfc(a) + nfc(b));
    lemma_encode_concat(nfc(a), nfc(b));
    assert(low_start(c)) by {
        if z.len() > 0 {
            lemma_first_char(z);
        } else {
            assert(z =~= Seq::<u8>::empty());
            assert(c =~= Seq::<char>::empty());
        }
    }
    assert(nfc(sp + c) == nfc(sp) + nfc(c));
    assert(ascii_text(sp));
    lemma_encode_concat(sp, nfc(c));
    decode_utf8_encode_utf8(seq![0x20u8]);
    assert(nfc_bytes(y)[0] == 0x20);
    // The first part ends with the same letter or digit.
    lemma_last_char(x);
    assert(x.last() == raw[q - 1]);
    let last = raw[q - 1];
    lemma_ascii_valid(last);
    lemma_ascii_char(Seq::empty(), last);
    let one = seq![last as char];
    lemma_same_char(a.last(), last as char);
    assert(a =~= a.drop_last() + one);
    assert(nfc(a.drop_last() + one) == nfc(a.drop_last()) + nfc(one));
    assert(ascii_text(one));
    lemma_encode_concat(nfc(a.drop_last()), one);
    decode_utf8_encode_utf8(seq![last]);
    assert(nfc_bytes(x).last() == last);
    let whole = nfc_bytes(raw);
    let r = nfc_bytes(x).len() as int;
    assert(whole == nfc_bytes(x) + nfc_bytes(y));
    assert(whole[r] == 0x20 && whole[r - 1] == last);
    encode_utf8_valid_utf8(nfc(decode_utf8(raw)));
    law_utf8_is_whole(whole);
}

} // verus!
