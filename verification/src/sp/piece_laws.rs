//! What single characters, pieces and tokens of a SentencePiece-style model
//! stand for.
use crate::bpe::added::{lemma_match_none, patterns, AddedToken};
use crate::sp::cuts::split_byte;
use crate::sp::model::{known_bytes, puts_marks, section_piece, shown_text, Piece, SpModel};
use crate::sp::normalize::{norm_step, NormStep, PrependScheme};
use crate::sp::spread::{spread_pieces, token_here};
use crate::sp::state::{growing_limit, FRONT_BYTES};
use crate::sp::symbols::{char_symbols, fallback_symbols, sp_mark, SpView};
use crate::token::TokenId;
use vstd::prelude::*;
use vstd::utf8::encode_utf8;

verus! {

/// A character with a token of its own is that token. Any other is the
/// fallback tokens of its bytes in order, if each has one.
pub proof fn law_character_falls_back_to_bytes(v: SpView, ch: Seq<u8>)
    ensures
        v.vocab_inv.contains_key(ch) ==> char_symbols(v, ch) == seq![v.vocab_inv[ch]],
        !v.vocab_inv.contains_key(ch) && (forall|i: int|
            0 <= i < ch.len() ==> v.fallback[(#[trigger] ch[i]) as int] is Some) ==> char_symbols(
            v,
            ch,
        ) == Seq::new(ch.len(), |i: int| v.fallback[ch[i] as int]->0),
{
    if forall|i: int| 0 <= i < ch.len() ==> v.fallback[(#[trigger] ch[i]) as int] is Some {
        lemma_all_fall_back(v.fallback, ch);
    }
}

proof fn lemma_all_fall_back(fallback: Seq<Option<TokenId>>, ch: Seq<u8>)
    requires
        forall|i: int| 0 <= i < ch.len() ==> fallback[(#[trigger] ch[i]) as int] is Some,
    ensures
        fallback_symbols(fallback, ch) == Seq::new(
            ch.len(),
            |i: int| fallback[ch[i] as int]->0,
        ),
    decreases ch.len(),
{
    if ch.len() > 0 {
        let d = ch.drop_last();
        assert forall|i: int| 0 <= i < d.len() implies fallback[(#[trigger] d[i]) as int] is Some by {
            assert(d[i] == ch[i]);
        }
        lemma_all_fall_back(fallback, d);
        assert(ch.last() == ch[ch.len() - 1]);
    }
    assert(fallback_symbols(fallback, ch) =~= Seq::new(
        ch.len(),
        |i: int| fallback[ch[i] as int]->0,
    ));
}

/// A byte without a fallback token gives nothing.
pub proof fn law_bytes_without_fallback(fallback: Seq<Option<TokenId>>, a: Seq<u8>, b: u8)
    requires
        fallback[b as int] is None,
    ensures
        fallback_symbols(fallback, a.push(b)) == fallback_symbols(fallback, a),
{
    assert(a.push(b).drop_last() =~= a);
}

/// The marker is U+2581 in UTF-8.
pub proof fn law_mark_is_lower_block()
    ensures
        sp_mark() == encode_utf8(seq!['\u{2581}']),
{
    let c = '\u{2581}';
    assert(c as u32 == 0x2581);
    assert(seq![c].drop_first() =~= Seq::<char>::empty());
    assert(encode_utf8(Seq::<char>::empty()) =~= Seq::<u8>::empty());
    assert(0xE0u8 | ((0x2581u32 >> 12) & 0x0F) as u8 == 0xE2 && 0x80u8 | ((0x2581u32 >> 6)
        & 0x3F) as u8 == 0x96 && 0x80u8 | (0x2581u32 & 0x3F) as u8 == 0x81) by (bit_vector);
    assert(encode_utf8(seq![c]) =~= sp_mark());
}

/// The bytes of tokens in a row are those of each in turn; a token that the
/// vocabulary does not have gives none.
pub proof fn law_bytes_of_tokens(vocab: Seq<Seq<u8>>, a: Seq<TokenId>, t: TokenId, b: Seq<TokenId>)
    ensures
        known_bytes(vocab, a + b) == known_bytes(vocab, a) + known_bytes(vocab, b),
        t.0 < vocab.len() ==> known_bytes(vocab, seq![t]) == vocab[t.0 as int],
        t.0 >= vocab.len() ==> known_bytes(vocab, seq![t]).len() == 0,
    decreases b.len(),
{
    assert(seq![t].drop_last() =~= Seq::<TokenId>::empty());
    assert(known_bytes(vocab, Seq::empty()) =~= Seq::<u8>::empty());
    assert(seq![t].last() == t);
    if t.0 < vocab.len() {
        assert(known_bytes(vocab, seq![t]) =~= vocab[t.0 as int]);
    }
    if b.len() == 0 {
        assert(a + b =~= a);
        assert(known_bytes(vocab, a) + known_bytes(vocab, b) =~= known_bytes(vocab, a));
    } else {
        assert((a + b).drop_last() =~= a + b.drop_last());
        assert((a + b).last() == b.last());
        law_bytes_of_tokens(vocab, a, t, b.drop_last());
        assert(known_bytes(vocab, a + b) =~= known_bytes(vocab, a) + known_bytes(vocab, b));
    }
}

/// Shown text has a space for each marker. One space at its start is left out
/// where that is asked for, and only one.
pub proof fn law_shown_text(bytes: Seq<u8>)
    ensures
        ({
            let t = norm_step(NormStep::Replace(sp_mark(), seq![0x20u8]), bytes);
            &&& shown_text(bytes, false) == t
            &&& t.len() > 0 && t[0] == 0x20 ==> seq![0x20u8] + shown_text(bytes, true) == t
            &&& t.len() == 0 || t[0] != 0x20 ==> shown_text(bytes, true) == t
        }),
{
    let t = norm_step(NormStep::Replace(sp_mark(), seq![0x20u8]), bytes);
    if t.len() > 0 && t[0] == 0x20 {
        assert(seq![0x20u8] + t.skip(1) =~= t);
    }
}

/// A model puts marks before text where its marking of spaces does at least
/// before the first chunk, or where a step of its normalizer puts text before.
pub proof fn law_marks_are_put(m: SpModel)
    ensures
        m.metaspace is None && m.steps.len() == 0 ==> !puts_marks(m),
        m.metaspace matches Some(ms) ==> (ms.prepend == PrependScheme::Always || ms.prepend
            == PrependScheme::First ==> puts_marks(m)),
        forall|i: int| 0 <= i < m.steps.len() && (#[trigger] m.steps[i]) is Prepend ==> puts_marks(m),
{
}

/// With no other token, a token without content stands before each byte and at
/// the end.
pub proof fn law_empty_token_stands_everywhere(gap: AddedToken, s: Seq<u8>, i: int)
    requires
        !gap.lstrip,
        !gap.rstrip,
        s.len() <= usize::MAX,
        0 <= i <= s.len(),
    ensures
        ({
            let v = spread_pieces(Seq::empty(), gap, s, 0, 0, false);
            &&& v.len() == 2 * s.len() + 1
            &&& v[2 * i] == Piece::Token(gap.id)
            &&& i < s.len() ==> v[2 * i + 1] == Piece::Section(i as usize, (i + 1) as usize)
        }),
{
    assert(spread_pieces(Seq::empty(), gap, s, 0, 0, false) =~= seq![Piece::Token(gap.id)]
        + spread_pieces(Seq::empty(), gap, s, 1, 0, false)) by {
        lemma_nothing_here(s, 0);
        assert(section_piece(0, 0) =~= Seq::<Piece>::empty());
        assert(Seq::<Piece>::empty() + seq![Piece::Token(gap.id)] =~= seq![Piece::Token(gap.id)]);
    }
    lemma_gap_everywhere(gap, s, 1, i);
}

proof fn lemma_nothing_here(s: Seq<u8>, p: int)
    ensures
        token_here(Seq::empty(), s, p) is None,
{
    let none = Seq::<AddedToken>::empty();
    assert(patterns(none).len() == 0);
    lemma_match_none(patterns(none), s, p);
}

proof fn lemma_gap_everywhere(gap: AddedToken, s: Seq<u8>, p: int, i: int)
    requires
        !gap.lstrip,
        !gap.rstrip,
        s.len() <= usize::MAX,
        1 <= p <= s.len() + 1,
        0 <= i <= s.len(),
    ensures
        ({
            let v = spread_pieces(Seq::empty(), gap, s, p, p - 1, false);
            &&& v.len() == 2 * (s.len() + 1 - p)
            &&& p <= i + 1 && i < s.len() ==> v[2 * (i + 1 - p)] == Piece::Section(
                i as usize,
                (i + 1) as usize,
            )
            &&& p <= i ==> v[2 * (i - p) + 1] == Piece::Token(gap.id)
        }),
    decreases s.len() + 1 - p,
{
    let v = spread_pieces(Seq::empty(), gap, s, p, p - 1, false);
    if p <= s.len() {
        lemma_nothing_here(s, p);
        lemma_gap_everywhere(gap, s, p + 1, i);
        let rest = spread_pieces(Seq::empty(), gap, s, p + 1, p, false);
        assert(v =~= seq![Piece::Section((p - 1) as usize, p as usize), Piece::Token(gap.id)] + rest);
    } else {
        assert(v =~= Seq::<Piece>::empty());
    }
}

/// The growing caches get what a budget leaves behind the front cache, and a
/// mebibyte at least.
pub proof fn law_limit_is_what_is_left(t: usize)
    ensures
        growing_limit(Some(t)) >= 1024 * 1024,
        growing_limit(Some(t)) > 1024 * 1024 ==> growing_limit(Some(t)) + FRONT_BYTES == t,
        t >= FRONT_BYTES + 1024 * 1024 ==> growing_limit(Some(t)) + FRONT_BYTES == t,
        growing_limit(None) == usize::MAX,
{
}

/// Where text is cut before punctuation, it is one of eight ASCII characters.
pub proof fn law_split_bytes(b: u8)
    ensures
        split_byte(b) <==> b == '.' as u8 || b == ',' as u8 || b == '"' as u8 || b == ')' as u8 || b
            == ';' as u8 || b == ':' as u8 || b == '!' as u8 || b == '?' as u8,
{
}

} // verus!
