//! Decoding gives back what was encoded.
use crate::bpe::added::{longest_match, patterns};
use crate::bpe::rules::{
    expand, in_vocab, law_merge_keeps_bytes, lemma_expand_add, rules_spell,
};
use crate::pretokenize::locality::{boundary, whole_chars};
use crate::pretokenize::r50k::continuation;
use crate::pretokenize::split::lemma_whole_parts;
use crate::search::occurs_at;
use crate::sp::cuts::{
    is_cut, lemma_next_cut, mark_len, next_cut, unit_key, unit_tokens, units_tokens, CutView,
};
use crate::sp::model::{
    added_pieces, cuts_of, has_token, known_bytes, normalized_tokens, piece_tokens, puts_marks,
    raw_prefixed, raw_prepend_of, raw_tokens, section_tokens, shown_text, Piece, RawPrepend,
    SectionPos, SpModel,
};
use crate::sp::normalize::{metaspaced, norm_steps, replaced};
use crate::sp::symbols::{init_from, sp_mark, SpView};
use crate::sp::unit_laws::{
    law_init_spells, lemma_marked_add, lemma_marked_plain, lemma_prefixed_whole,
    lemma_spelled_skip, lemma_spelled_take, marked, text_spelled,
};
use crate::token::TokenId;
use vstd::prelude::*;
use vstd::utf8::{
    codepoint_width_3, length_of_first_scalar, pop_first_scalar, valid_first_scalar, valid_utf8,
    valid_utf8_concat,
};

verus! {

proof fn lemma_known_is_expand(vocab: Seq<Seq<u8>>, s: Seq<TokenId>)
    requires
        in_vocab(vocab, s),
    ensures
        known_bytes(vocab, s) == expand(vocab, s),
    decreases s.len(),
{
    if s.len() > 0 {
        assert(s[s.len() - 1].0 < vocab.len());
        assert forall|i: int| 0 <= i < s.drop_last().len() implies (#[trigger] s.drop_last()[i]).0
            < vocab.len() by {
            assert(s[i].0 < vocab.len());
        }
        lemma_known_is_expand(vocab, s.drop_last());
    }
}

proof fn lemma_known_add(vocab: Seq<Seq<u8>>, s: Seq<TokenId>, t: Seq<TokenId>)
    ensures
        known_bytes(vocab, s + t) == known_bytes(vocab, s) + known_bytes(vocab, t),
    decreases t.len(),
{
    if t.len() == 0 {
        assert(s + t =~= s);
        assert(known_bytes(vocab, s) + known_bytes(vocab, t) =~= known_bytes(vocab, s));
    } else {
        assert((s + t).drop_last() =~= s + t.drop_last());
        lemma_known_add(vocab, s, t.drop_last());
        assert(known_bytes(vocab, s + t) =~= known_bytes(vocab, s) + known_bytes(vocab, t));
    }
}

proof fn lemma_marked_cooked(s: Seq<u8>)
    ensures
        marked(s, false) == s,
    decreases s.len(),
{
    if s.len() > 0 {
        lemma_marked_cooked(s.drop_last());
        assert(marked(s, false) =~= s);
    } else {
        assert(marked(s, false) =~= s);
    }
}

/// The tokens of a unit stand for it.
proof fn lemma_unit_spells(v: SpView, key: Seq<u8>, raw: bool)
    requires
        whole_chars(key),
        text_spelled(v, key, raw),
        rules_spell(v.rules, v.vocab),
    ensures
        expand(v.vocab, unit_tokens(v, key, raw)) == marked(key, raw),
        in_vocab(v.vocab, unit_tokens(v, key, raw)),
{
    law_init_spells(v, key, raw);
    law_merge_keeps_bytes(v.rules, v.vocab, init_from(v, key, 0, raw));
}

/// However a text is cut, the tokens of its units stand for it: where merge
/// rules and symbols spell what they stand for, the bytes of the tokens are
/// the text, with the marker for each space of raw text and before a prefixed
/// one.
pub proof fn law_units_spell(
    v: SpView,
    c: CutView,
    s: Seq<u8>,
    u: int,
    raw: bool,
    prefixed: bool,
)
    requires
        0 <= u <= s.len(),
        prefixed ==> u < s.len(),
        whole_chars(s.skip(u)),
        text_spelled(v, unit_key(s.skip(u), prefixed), raw),
        rules_spell(v.rules, v.vocab),
    ensures
        expand(v.vocab, units_tokens(v, c, s, u, raw, prefixed)) == marked(
            unit_key(s.skip(u), prefixed),
            raw,
        ),
        in_vocab(v.vocab, units_tokens(v, c, s, u, raw, prefixed)),
    decreases s.len() - u,
{
    let t = s.skip(u);
    let all = unit_key(t, prefixed);
    if u < s.len() {
        let e = next_cut(c, s, u + 1, raw);
        lemma_next_cut(c, s, u + 1, raw);
        let key = unit_key(s.subrange(u, e), prefixed);
        let n = key.len() as int;
        let rest = s.skip(e);
        assert(all =~= key + rest);
        assert(all.take(n) =~= key);
        assert(all.skip(n) =~= rest);
        if prefixed {
            lemma_prefixed_whole(t);
        }
        assert(boundary(all, n)) by {
            if e < s.len() {
                assert(is_cut(c, s, e, raw));
                assert(all[n] == s[e]);
                assert(!continuation(s[e]));
            }
        }
        lemma_whole_parts(all, n);
        lemma_spelled_take(v, all, n, raw);
        lemma_spelled_skip(v, all, n, raw);
        lemma_unit_spells(v, key, raw);
        law_units_spell(v, c, s, e, raw, false);
        let a = unit_tokens(v, key, raw);
        let b = units_tokens(v, c, s, e, raw, false);
        lemma_expand_add(v.vocab, a, b);
        lemma_marked_add(key, rest, raw);
        assert forall|i: int| 0 <= i < (a + b).len() implies (#[trigger] (a + b)[i]).0 < v.vocab.len() by {
            if i < a.len() {
                assert(a[i].0 < v.vocab.len());
            } else {
                assert(b[i - a.len()].0 < v.vocab.len());
            }
        }
    } else {
        assert(all =~= Seq::<u8>::empty());
    }
}

/// The tokens of normalized text stand for it, under the same conditions.
pub proof fn law_normalized_spells(m: SpModel, s: Seq<u8>)
    requires
        whole_chars(s),
        text_spelled(m.tables, s, false),
        rules_spell(m.tables.rules, m.tables.vocab),
    ensures
        known_bytes(m.tables.vocab, normalized_tokens(m, s)) == s,
{
    lemma_marked_cooked(s);
    assert(s.skip(0) =~= s);
    lemma_unit_spells(m.tables, s, false);
    law_units_spell(m.tables, cuts_of(m), s, 0, false, false);
    lemma_known_is_expand(m.tables.vocab, normalized_tokens(m, s));
}

/// What the tokens of a section stand for: the raw text with its marks, or the
/// normalized text.
pub open spec fn section_bytes(m: SpModel, s: Seq<u8>, pos: SectionPos) -> Seq<u8> {
    match raw_prepend_of(m) {
        Some(p) => if s.len() == 0 {
            Seq::empty()
        } else {
            marked(unit_key(s, raw_prefixed(p, pos, s)), true)
        },
        None => metaspaced(m.metaspace, norm_steps(m.steps, s), pos == SectionPos::First),
    }
}

/// The characters of a section, as they are merged, have symbols that stand
/// for them.
pub open spec fn section_spelled(m: SpModel, s: Seq<u8>, pos: SectionPos) -> bool {
    match raw_prepend_of(m) {
        Some(p) => whole_chars(s) && text_spelled(
            m.tables,
            unit_key(s, raw_prefixed(p, pos, s)),
            true,
        ),
        None => whole_chars(section_bytes(m, s, pos)) && text_spelled(
            m.tables,
            section_bytes(m, s, pos),
            false,
        ),
    }
}

/// The tokens of a section stand for its text, for a model without added
/// tokens that are matched after normalization.
pub proof fn law_section_spells(m: SpModel, s: Seq<u8>, pos: SectionPos)
    requires
        m.norm_added.len() == 0,
        section_spelled(m, s, pos),
        rules_spell(m.tables.rules, m.tables.vocab),
    ensures
        known_bytes(m.tables.vocab, section_tokens(m, s, pos)) == section_bytes(m, s, pos),
{
    match raw_prepend_of(m) {
        Some(p) => {
            if s.len() > 0 {
                let prefixed = raw_prefixed(p, pos, s);
                assert(s.skip(0) =~= s);
                law_units_spell(m.tables, cuts_of(m), s, 0, true, prefixed);
                lemma_known_is_expand(m.tables.vocab, section_tokens(m, s, pos));
            } else {
                assert(section_tokens(m, s, pos) =~= Seq::<TokenId>::empty());
            }
        },
        None => {
            law_normalized_spells(m, section_bytes(m, s, pos));
        },
    }
}

/// The place of the section behind some pieces.
pub open spec fn place_after(pieces: Seq<Piece>, pos: SectionPos) -> SectionPos {
    if has_token(pieces) {
        SectionPos::Middle
    } else {
        pos
    }
}

/// What the tokens of a list of pieces stand for: the text of the sections,
/// and the bytes of the added tokens.
pub open spec fn pieces_bytes(m: SpModel, s: Seq<u8>, pieces: Seq<Piece>, pos: SectionPos) -> Seq<u8>
    decreases pieces.len(),
{
    if pieces.len() == 0 {
        Seq::empty()
    } else {
        pieces_bytes(m, s, pieces.drop_last(), pos) + match pieces.last() {
            Piece::Token(id) => m.tables.vocab[id.0 as int],
            Piece::Section(a, b) => section_bytes(
                m,
                s.subrange(a as int, b as int),
                place_after(pieces.drop_last(), pos),
            ),
        }
    }
}

/// The sections among some pieces are spelled, and the added tokens lie in the
/// vocabulary.
pub open spec fn pieces_spelled(m: SpModel, s: Seq<u8>, pieces: Seq<Piece>, pos: SectionPos) -> bool {
    forall|i: int|
        0 <= i < pieces.len() ==> match #[trigger] pieces[i] {
            Piece::Token(id) => id.0 < m.tables.vocab.len(),
            Piece::Section(a, b) => section_spelled(
                m,
                s.subrange(a as int, b as int),
                place_after(pieces.take(i), pos),
            ),
        }
}

/// The tokens of a list of pieces stand for their text.
pub proof fn law_pieces_spell(m: SpModel, s: Seq<u8>, pieces: Seq<Piece>, pos: SectionPos)
    requires
        m.norm_added.len() == 0,
        pieces_spelled(m, s, pieces, pos),
        rules_spell(m.tables.rules, m.tables.vocab),
    ensures
        known_bytes(m.tables.vocab, piece_tokens(m, s, pieces, pos)) == pieces_bytes(
            m,
            s,
            pieces,
            pos,
        ),
    decreases pieces.len(),
{
    if pieces.len() > 0 {
        let vocab = m.tables.vocab;
        let before = pieces.drop_last();
        let n = before.len() as int;
        assert forall|i: int| 0 <= i < before.len() implies match #[trigger] before[i] {
            Piece::Token(id) => id.0 < m.tables.vocab.len(),
            Piece::Section(a, b) => section_spelled(
                m,
                s.subrange(a as int, b as int),
                place_after(before.take(i), pos),
            ),
        } by {
            assert(before[i] == pieces[i]);
            assert(before.take(i) =~= pieces.take(i));
        }
        law_pieces_spell(m, s, before, pos);
        assert(pieces[n] == pieces.last());
        assert(pieces.take(n) =~= before);
        match pieces.last() {
            Piece::Token(id) => {
                let one = seq![id];
                assert(one.drop_last() =~= Seq::<TokenId>::empty());
                assert(known_bytes(vocab, one.drop_last()) =~= Seq::<u8>::empty());
                assert(one.last() == id);
                assert(known_bytes(vocab, one) =~= vocab[id.0 as int]);
                lemma_known_add(vocab, piece_tokens(m, s, before, pos), one);
            },
            Piece::Section(a, b) => {
                let part = s.subrange(a as int, b as int);
                let place = place_after(before, pos);
                law_section_spells(m, part, place);
                lemma_known_add(
                    vocab,
                    piece_tokens(m, s, before, pos),
                    section_tokens(m, part, place),
                );
            },
        }
    }
}

pub proof fn lemma_replaced_skip(s: Seq<u8>, p: int, pattern: Seq<u8>, content: Seq<u8>)
    requires
        0 <= p <= s.len(),
        pattern.len() > 0,
    ensures
        replaced(s, p, pattern, content) == replaced(s.skip(p), 0, pattern, content),
    decreases s.len() - p,
{
    let t = s.skip(p);
    if p < s.len() {
        let n = pattern.len() as int;
        if p + n <= s.len() {
            assert(s.subrange(p, p + n) =~= t.subrange(0, n));
        }
        if occurs_at(s, pattern, p) {
            lemma_replaced_skip(s, p + n, pattern, content);
            lemma_replaced_skip(t, n, pattern, content);
            assert(t.skip(n) =~= s.skip(p + n));
        } else {
            lemma_replaced_skip(s, p + 1, pattern, content);
            lemma_replaced_skip(t, 1, pattern, content);
            assert(t.skip(1) =~= s.skip(p + 1));
        }
    }
}

pub proof fn lemma_mark_occurs(s: Seq<u8>, p: int)
    requires
        0 <= p,
    ensures
        occurs_at(s, sp_mark(), p) <==> mark_len(s, p, false) == 3,
{
    if p + 3 <= s.len() {
        let t = s.subrange(p, p + 3);
        assert(t[0] == s[p] && t[1] == s[p + 1] && t[2] == s[p + 2]);
        if mark_len(s, p, false) == 3 {
            assert(t =~= sp_mark());
        }
    }
}

/// Marked text starts with the marker or with what the text starts with.
pub proof fn lemma_marked_front(s: Seq<u8>)
    ensures
        s.len() == 0 ==> marked(s, true).len() == 0,
        s.len() > 0 ==> marked(s, true) == (if s[0] == 0x20 {
            sp_mark()
        } else {
            seq![s[0]]
        }) + marked(s.skip(1), true),
{
    if s.len() > 0 {
        let head = s.take(1);
        assert(s =~= head + s.skip(1));
        lemma_marked_add(head, s.skip(1), true);
        assert(head.drop_last() =~= Seq::<u8>::empty());
        assert(marked(head.drop_last(), true) =~= Seq::<u8>::empty());
        if s[0] == 0x20 {
            assert(marked(head, true) =~= sp_mark());
        } else {
            assert(marked(head, true) =~= seq![s[0]]);
        }
    }
}

/// Showing marks as spaces undoes marking.
proof fn lemma_marks_shown(s: Seq<u8>)
    requires
        forall|p: int| #[trigger] mark_len(s, p, false) == 0,
    ensures
        replaced(marked(s, true), 0, sp_mark(), seq![0x20u8]) == s,
    decreases s.len(),
{
    let space = seq![0x20u8];
    let x = marked(s, true);
    if s.len() == 0 {
        assert(x =~= Seq::<u8>::empty());
        assert(replaced(x, 0, sp_mark(), space) =~= s);
    } else {
        let rest = s.skip(1);
        let y = marked(rest, true);
        assert forall|p: int| #[trigger] mark_len(rest, p, false) == 0 by {
            assert(mark_len(s, p + 1, false) == 0);
            if p >= 0 && p + 3 <= rest.len() {
                assert(rest[p] == s[p + 1] && rest[p + 1] == s[p + 2] && rest[p + 2] == s[p + 3]);
            }
        }
        lemma_marks_shown(rest);
        lemma_marked_front(s);
        if s[0] == 0x20 {
            lemma_mark_occurs(x, 0);
            assert(x.skip(3) =~= y);
            lemma_replaced_skip(x, 3, sp_mark(), space);
            assert(replaced(x, 0, sp_mark(), space) =~= s);
        } else {
            lemma_mark_occurs(x, 0);
            if mark_len(x, 0, false) == 3 {
                lemma_marked_front(rest);
                assert(y[0] == 0x96 && y[1] == 0x81);
                assert(rest[0] == 0x96);
                lemma_marked_front(rest.skip(1));
                assert(rest.skip(1)[0] == 0x81);
                assert(s[1] == rest[0] && s[2] == rest[1]);
                assert(mark_len(s, 0, false) == 0);
            }
            assert(x.skip(1) =~= y);
            lemma_replaced_skip(x, 1, sp_mark(), space);
            assert(replaced(x, 0, sp_mark(), space) =~= s);
        }
    }
}

proof fn lemma_mark_is_text()
    ensures
        valid_utf8(sp_mark()),
        valid_utf8(seq![0x20u8]),
{
    let mark = sp_mark();
    assert(valid_utf8(Seq::<u8>::empty()));
    assert(pop_first_scalar(seq![0x20u8]) =~= Seq::<u8>::empty());
    assert(codepoint_width_3(0xE2u8, 0x96u8, 0x81u8) == 0x2581u32) by (bit_vector);
    assert(mark[0] == 0xE2 && mark[1] == 0x96 && mark[2] == 0x81);
    assert(valid_first_scalar(mark));
    assert(pop_first_scalar(mark) =~= Seq::<u8>::empty());
}

/// Marked text is text.
proof fn lemma_marked_is_text(s: Seq<u8>)
    requires
        valid_utf8(s),
    ensures
        valid_utf8(marked(s, true)),
    decreases s.len(),
{
    lemma_mark_is_text();
    if s.len() > 0 {
        let n = length_of_first_scalar(s);
        let head = s.take(n);
        let rest = pop_first_scalar(s);
        assert(s =~= head + rest);
        lemma_marked_add(head, rest, true);
        lemma_marked_is_text(rest);
        assert(valid_utf8(head)) by {
            assert(valid_utf8(Seq::<u8>::empty()));
            assert(valid_first_scalar(s));
            assert(head[0] == s[0]);
            assert(n >= 2 ==> head[1] == s[1]);
            assert(n >= 3 ==> head[2] == s[2]);
            assert(n >= 4 ==> head[3] == s[3]);
            assert(valid_first_scalar(head));
            assert(pop_first_scalar(head) =~= Seq::<u8>::empty());
        }
        if s[0] == 0x20 {
            assert(head =~= seq![0x20u8]);
            lemma_marked_front(head);
            assert(marked(head.skip(1), true) =~= Seq::<u8>::empty());
            assert(marked(head, true) =~= sp_mark());
        } else {
            lemma_marked_plain(head, true);
        }
        valid_utf8_concat(marked(head, true), marked(rest, true));
    } else {
        assert(marked(s, true) =~= Seq::<u8>::empty());
    }
}

/// Decoding what a text encodes to gives the text back: for a model that does
/// nothing but mark spaces, whose merge rules and symbols spell what they
/// stand for, and a text without markers or added tokens. A text that starts
/// with a space counts where the marker is put before every text or before
/// none; otherwise its first space stands for the marker and is stripped.
pub proof fn law_decode_inverts_raw(m: SpModel, s: Seq<u8>, p: RawPrepend)
    requires
        raw_prepend_of(m) == Some(p),
        rules_spell(m.tables.rules, m.tables.vocab),
        valid_utf8(s),
        section_spelled(m, s, SectionPos::First),
        forall|i: int| #[trigger] mark_len(s, i, false) == 0,
        m.added.len() > 0 ==> longest_match(patterns(m.added), s, 0) is None,
        m.between is None,
        s.len() <= usize::MAX,
        s.len() > 0 && s[0] == 0x20 ==> p == RawPrepend::Never || p == RawPrepend::Unguarded,
    ensures
        ({
            let bytes = known_bytes(m.tables.vocab, raw_tokens(m, s, SectionPos::First));
            valid_utf8(bytes) && shown_text(bytes, puts_marks(m)) == s
        }),
{
    let vocab = m.tables.vocab;
    let pos = SectionPos::First;
    assert(raw_tokens(m, s, pos) == section_tokens(m, s, pos)) by {
        if m.added.len() > 0 {
            let pieces = added_pieces(m.added, s, 0, 0);
            if s.len() == 0 {
                assert(pieces =~= Seq::<Piece>::empty());
            } else {
                assert(pieces =~= seq![Piece::Section(0, s.len() as usize)]);
                assert(pieces.drop_last() =~= Seq::<Piece>::empty());
                assert(s.subrange(0, s.len() as int) =~= s);
                assert(piece_tokens(m, s, pieces.drop_last(), pos) =~= Seq::<TokenId>::empty());
                assert(piece_tokens(m, s, pieces, pos) =~= section_tokens(m, s, pos));
            }
        }
    }
    law_section_spells(m, s, pos);
    let bytes = section_bytes(m, s, pos);
    if s.len() == 0 {
        assert(shown_text(bytes, puts_marks(m)) =~= s);
    } else {
        let prefixed = raw_prefixed(p, pos, s);
        assert(mark_len(s, 0, false) == 0);
        assert(prefixed == puts_marks(m)) by {
            if m.steps.len() == 2 {
                assert(m.steps[0] is Prepend);
            }
        }
        let key = unit_key(s, prefixed);
        lemma_mark_is_text();
        if prefixed {
            valid_utf8_concat(seq![0x20u8], s);
        }
        lemma_marked_is_text(key);
        assert forall|i: int| #[trigger] mark_len(key, i, false) == 0 by {
            if prefixed {
                assert(mark_len(s, i - 1, false) == 0);
                assert(forall|j: int| 0 <= j < s.len() ==> key[j + 1] == s[j]);
            } else {
                assert(mark_len(s, i, false) == 0);
            }
        }
        lemma_marks_shown(key);
        if prefixed {
            assert(key.skip(1) =~= s);
        }
    }
}

} // verus!
