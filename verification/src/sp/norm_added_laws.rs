//! Added tokens that are matched in normalized text.
use crate::bpe::added::{is_longest_match, lemma_match_unique, longest_match, patterns};
use crate::bpe::match_laws::{lemma_match_is, lemma_match_skip};
use crate::bpe::tiktoken::all_nonempty;
use crate::search::occurs_at;
use crate::sp::model::{
    added_pieces, has_token, norm_piece_tokens, normalized_tokens, raw_prepend_of, section_end,
    section_next, section_piece, section_tokens, Piece, SectionPos, SpModel,
};
use crate::sp::normalize::{metaspaced, norm_steps};
use crate::text::{lemma_spaces_end_in, lemma_spaces_start_in, spaces_start};
use crate::token::TokenId;
use vstd::prelude::*;

verus! {

/// The tokens of a chunk of normalized text, if there is any.
pub open spec fn chunk_if_any(m: SpModel, s: Seq<u8>, first: bool) -> Seq<TokenId> {
    if s.len() > 0 {
        normalized_tokens(m, metaspaced(m.metaspace, s, first))
    } else {
        Seq::empty()
    }
}

/// The tokens of normalized text with the added tokens in it.
pub open spec fn norm_text_tokens(m: SpModel, s: Seq<u8>, first: bool) -> Seq<TokenId> {
    norm_piece_tokens(m, s, added_pieces(m.norm_added, s, 0, 0), first)
}

spec fn sect(m: SpModel, s: Seq<u8>, a: int, b: int, first: bool) -> Seq<TokenId> {
    if a < b {
        normalized_tokens(m, metaspaced(m.metaspace, s.subrange(a, b), first))
    } else {
        Seq::empty()
    }
}

/// The tokens of the text from `chunk` on, with added tokens found from `from`
/// on.
spec fn tokens_from(m: SpModel, s: Seq<u8>, from: int, chunk: int, first: bool) -> Seq<TokenId>
    decreases s.len() - from,
{
    match longest_match(patterns(m.norm_added), s, from) {
        None => sect(m, s, chunk, s.len() as int, first),
        Some((start, k)) => {
            let tok = m.norm_added[k];
            let end = start + tok.content.len();
            if !(from < end <= s.len()) {
                Seq::empty()
            } else if start < chunk {
                tokens_from(m, s, end, chunk, first)
            } else {
                sect(m, s, chunk, section_end(tok, s, chunk, start), first) + seq![tok.id]
                    + tokens_from(m, s, end, section_next(tok, s, end), false)
            }
        },
    }
}

proof fn lemma_pieces_add(m: SpModel, s: Seq<u8>, a: Seq<Piece>, b: Seq<Piece>, first: bool)
    ensures
        norm_piece_tokens(m, s, a + b, first) == norm_piece_tokens(m, s, a, first)
            + norm_piece_tokens(m, s, b, first && !has_token(a)),
    decreases b.len(),
{
    let f = first && !has_token(a);
    if b.len() == 0 {
        assert(a + b =~= a);
        assert(norm_piece_tokens(m, s, b, f) =~= Seq::<TokenId>::empty());
        assert(norm_piece_tokens(m, s, a, first) + Seq::<TokenId>::empty() =~= norm_piece_tokens(
            m,
            s,
            a,
            first,
        ));
    } else {
        let ab = a + b;
        let d = b.drop_last();
        assert(ab.drop_last() =~= a + d);
        lemma_pieces_add(m, s, a, d, first);
        assert(has_token(a + d) == (has_token(a) || has_token(d))) by {
            let c = a + d;
            if has_token(a) {
                let i = choose|i: int| 0 <= i < a.len() && (#[trigger] a[i]) is Token;
                assert(c[i] is Token);
            }
            if has_token(d) {
                let i = choose|i: int| 0 <= i < d.len() && (#[trigger] d[i]) is Token;
                assert(c[a.len() + i] is Token);
            }
            if has_token(c) {
                let i = choose|i: int| 0 <= i < c.len() && (#[trigger] c[i]) is Token;
                if i < a.len() {
                    assert(a[i] is Token);
                } else {
                    assert(d[i - a.len()] is Token);
                }
            }
        }
        assert(ab.last() == b.last());
        let x = norm_piece_tokens(m, s, a, first);
        let y = norm_piece_tokens(m, s, d, f);
        let z = norm_piece_tokens(m, s, ab, first).skip((x + y).len() as int);
        assert(norm_piece_tokens(m, s, ab, first) =~= (x + y) + z);
        assert(norm_piece_tokens(m, s, b, f) =~= y + z);
        assert((x + y) + z =~= x + (y + z));
    }
}

proof fn lemma_section_piece(m: SpModel, s: Seq<u8>, a: int, b: int, first: bool)
    requires
        s.len() <= usize::MAX,
        0 <= a <= s.len(),
        0 <= b <= s.len(),
    ensures
        norm_piece_tokens(m, s, section_piece(a, b), first) == sect(m, s, a, b, first),
{
    let x = section_piece(a, b);
    if a < b {
        assert(x.drop_last() =~= Seq::<Piece>::empty());
        assert(norm_piece_tokens(m, s, x.drop_last(), first) =~= Seq::<TokenId>::empty());
        assert(!has_token(x.drop_last()));
        assert(norm_piece_tokens(m, s, x, first) =~= sect(m, s, a, b, first));
    }
}

proof fn lemma_pieces_in_order(m: SpModel, s: Seq<u8>, from: int, chunk: int, first: bool)
    requires
        s.len() <= usize::MAX,
        0 <= from <= s.len(),
        0 <= chunk <= s.len(),
        all_nonempty(m.norm_added),
    ensures
        norm_piece_tokens(m, s, added_pieces(m.norm_added, s, from, chunk), first) == tokens_from(
            m,
            s,
            from,
            chunk,
            first,
        ),
    decreases s.len() - from,
{
    match longest_match(patterns(m.norm_added), s, from) {
        None => {
            lemma_section_piece(m, s, chunk, s.len() as int, first);
        },
        Some((start, k)) => {
            lemma_match_is(m.norm_added, s, from);
            let tok = m.norm_added[k];
            let end = start + tok.content.len();
            if start < chunk {
                lemma_pieces_in_order(m, s, end, chunk, first);
            } else {
                let b = section_end(tok, s, chunk, start);
                let next = section_next(tok, s, end);
                lemma_spaces_start_in(s.subrange(chunk, start), start - chunk);
                lemma_spaces_end_in(s.skip(end), 0);
                lemma_pieces_in_order(m, s, end, next, false);
                let x = section_piece(chunk, b);
                let y = seq![Piece::Token(tok.id)];
                let z = added_pieces(m.norm_added, s, end, next);
                lemma_pieces_add(m, s, x + y, z, first);
                lemma_pieces_add(m, s, x, y, first);
                lemma_section_piece(m, s, chunk, b, first);
                assert((x + y)[x.len() as int] is Token);
                assert(has_token(x + y));
                let f = first && !has_token(x);
                assert(y.drop_last() =~= Seq::<Piece>::empty());
                assert(norm_piece_tokens(m, s, y.drop_last(), f) =~= Seq::<TokenId>::empty());
                assert(norm_piece_tokens(m, s, y, f) =~= seq![tok.id]);
            }
        },
    }
}

proof fn lemma_tokens_shift(m: SpModel, s: Seq<u8>, p: int, from: int, chunk: int, first: bool)
    requires
        0 <= p <= from <= s.len(),
        p <= chunk <= s.len(),
        all_nonempty(m.norm_added),
    ensures
        tokens_from(m, s, from, chunk, first) == tokens_from(
            m,
            s.skip(p),
            from - p,
            chunk - p,
            first,
        ),
    decreases s.len() - from,
{
    let t = s.skip(p);
    lemma_match_skip(m.norm_added, s, p, from, from);
    match longest_match(patterns(m.norm_added), s, from) {
        None => {
            if chunk < s.len() {
                assert(s.subrange(chunk, s.len() as int) =~= t.subrange(chunk - p, t.len() as int));
            }
        },
        Some((start, k)) => {
            lemma_match_is(m.norm_added, s, from);
            let tok = m.norm_added[k];
            let end = start + tok.content.len();
            if start < chunk {
                lemma_tokens_shift(m, s, p, end, chunk, first);
            } else {
                assert(s.subrange(chunk, start) =~= t.subrange(chunk - p, start - p));
                assert(s.skip(end) =~= t.skip(end - p));
                let b = section_end(tok, s, chunk, start);
                let next = section_next(tok, s, end);
                lemma_spaces_start_in(s.subrange(chunk, start), start - chunk);
                lemma_spaces_end_in(s.skip(end), 0);
                assert(section_end(tok, t, chunk - p, start - p) == b - p);
                assert(section_next(tok, t, end - p) == next - p);
                assert(s.subrange(chunk, b) =~= t.subrange(chunk - p, b - p));
                lemma_tokens_shift(m, s, p, end, next, false);
            }
        },
    }
}

/// With added tokens that are matched in normalized text, a section is the
/// tokens of its normalized text with those in it.
pub proof fn law_section_of_normalized_text(m: SpModel, s: Seq<u8>, pos: SectionPos)
    requires
        m.norm_added.len() > 0,
    ensures
        section_tokens(m, s, pos) == norm_text_tokens(
            m,
            norm_steps(m.steps, s),
            pos == SectionPos::First,
        ),
{
    assert(raw_prepend_of(m) is None);
}

/// Normalized text encodes around the first added token that stands in it, the
/// longest where several start together: the chunk before it, then the ID of the
/// token, then the rest, which is not first any more.
pub proof fn law_norm_added_token_divides(
    m: SpModel,
    s: Seq<u8>,
    start: int,
    k: int,
    first: bool,
)
    requires
        s.len() <= usize::MAX,
        all_nonempty(m.norm_added),
        0 <= k < m.norm_added.len(),
        !m.norm_added[k].rstrip,
        occurs_at(s, m.norm_added[k].content, start),
        forall|j: int, p: int|
            0 <= j < m.norm_added.len() && 0 <= p < start ==> !#[trigger] occurs_at(
                s,
                m.norm_added[j].content,
                p,
            ),
        forall|j: int|
            0 <= j < m.norm_added.len() && j != k && #[trigger] occurs_at(
                s,
                m.norm_added[j].content,
                start,
            ) ==> m.norm_added[j].content.len() < m.norm_added[k].content.len(),
    ensures
        ({
            let tok = m.norm_added[k];
            let before = s.take(start);
            norm_text_tokens(m, s, first) == chunk_if_any(
                m,
                if tok.lstrip {
                    before.take(spaces_start(before, start))
                } else {
                    before
                },
                first,
            ) + seq![tok.id] + norm_text_tokens(m, s.skip(start + tok.content.len()), false)
        }),
{
    let tok = m.norm_added[k];
    let pats = patterns(m.norm_added);
    assert(pats[k] == tok.content);
    assert(is_longest_match(pats, s, 0, start, k)) by {
        assert forall|j: int, p: int| 0 <= j < pats.len() && 0 <= p < start implies !#[trigger] occurs_at(
            s,
            pats[j],
            p,
        ) by {
            assert(pats[j] == m.norm_added[j].content);
        }
        assert forall|j: int| 0 <= j < pats.len() && #[trigger] occurs_at(
            s,
            pats[j],
            start,
        ) implies pats[j].len() < pats[k].len() || (pats[j].len() == pats[k].len() && k <= j) by {
            assert(pats[j] == m.norm_added[j].content);
            if j != k {
                assert(occurs_at(s, m.norm_added[j].content, start));
            }
        }
    }
    lemma_match_unique(pats, s, 0, start, k);
    let end = start + tok.content.len();
    let before = s.take(start);
    let rest = s.skip(end);
    assert(tok.content.len() > 0);
    lemma_pieces_in_order(m, s, 0, 0, first);
    lemma_pieces_in_order(m, rest, 0, 0, false);
    lemma_tokens_shift(m, s, end, end, end, false);
    assert(s.subrange(0, start) =~= before);
    lemma_spaces_start_in(before, start);
    let b = section_end(tok, s, 0, start);
    assert(s.subrange(0, b) =~= before.take(b));
    assert(before.take(start) =~= before);
}

/// Normalized text in which no added token stands is one chunk.
pub proof fn law_norm_text_without_added_tokens(m: SpModel, s: Seq<u8>, first: bool)
    requires
        0 < s.len() <= usize::MAX,
        all_nonempty(m.norm_added),
        forall|j: int, p: int|
            0 <= j < m.norm_added.len() && 0 <= p < s.len() ==> !#[trigger] occurs_at(
                s,
                m.norm_added[j].content,
                p,
            ),
    ensures
        norm_text_tokens(m, s, first) == normalized_tokens(
            m,
            metaspaced(m.metaspace, s, first),
        ),
{
    lemma_pieces_in_order(m, s, 0, 0, first);
    if longest_match(patterns(m.norm_added), s, 0) is Some {
        lemma_match_is(m.norm_added, s, 0);
    }
    assert(s.subrange(0, s.len() as int) =~= s);
}

} // verus!
