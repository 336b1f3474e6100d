//! Fragments encode like the whole text.
use crate::bpe::added::{
    is_longest_match, lemma_match_exists, lemma_match_none, lemma_match_unique, longest_match, patterns,
    AddedToken,
};
use crate::bpe::match_laws::{
    lemma_match_is, lemma_match_skip, lemma_match_take, lemma_occurs_skip, unstraddled,
};
use crate::bpe::rules::{has_prefix, has_suffix};
use crate::bpe::tiktoken::all_nonempty;
use crate::pretokenize::chars::{char_end, lead_len, lemma_char_len};
use crate::pretokenize::locality::{boundary, law_utf8_is_whole, whole_char, whole_chars};
use crate::pretokenize::split::lemma_whole_parts;
use crate::search::occurs_at;
use crate::sp::cuts::{
    crossing_pieces, first_interior, is_complex, is_cut, lemma_next_cut, mark_cut, mark_ends,
    mark_len, next_cut, punct_cut, spans_mark, units_tokens, CutView,
};
use crate::sp::fragments::{
    block_end, block_start, blocked_by, blocks_cut, fragments, fragments_from, is_unguarded,
    lemma_next_safe_cut, next_safe_cut, safe_cut,
};
use crate::sp::model::{
    added_pieces, cuts_of, has_token, piece_tokens, raw_prefixed, raw_prepend_of, raw_tokens,
    section_end, section_next, section_piece, section_tokens, Piece, RawPrepend, SectionPos,
    SpModel,
};
use crate::sp::symbols::SpView;
use crate::sp::unit_laws::lemma_crossing_plain;
use crate::text::{
    lemma_spaces_end_in, lemma_spaces_end_take, lemma_spaces_start_in, lemma_spaces_start_skip,
    space_width_before, spaces_end, spaces_start,
};
use crate::token::TokenId;
use vstd::prelude::*;
use vstd::utf8::valid_utf8;

verus! {

/// What is checked for around a mark holds no mark, and what stands after the
/// mark is whole characters.
pub open spec fn cross_plain(c: CutView) -> bool {
    forall|i: int|
        0 <= i < c.cross.len() ==> !is_complex((#[trigger] c.cross[i]).0) && !is_complex(
            c.cross[i].1,
        ) && whole_chars(c.cross[i].1)
}

proof fn lemma_first_interior_marks(s: Seq<u8>, p: int)
    requires
        0 <= p,
    ensures
        first_interior(s, p) matches Some(q) ==> p <= q && mark_len(s, q, false) > 0,
    decreases s.len() - p,
{
    if p < s.len() && !crate::sp::cuts::interior_mark(s, p) {
        lemma_first_interior_marks(s, p + 1);
    }
}

proof fn lemma_crossing_whole(vocab: Seq<Seq<u8>>, j: int)
    requires
        crossing_pieces(vocab) is Some,
        0 <= j < (crossing_pieces(vocab)->0).len(),
    ensures
        whole_chars((crossing_pieces(vocab)->0)[j].1),
    decreases vocab.len(),
{
    let head = crossing_pieces(vocab.drop_last())->0;
    if j < head.len() {
        lemma_crossing_whole(vocab.drop_last(), j);
    } else {
        let piece = vocab.last();
        law_utf8_is_whole(piece);
        lemma_first_interior_marks(piece, 0);
        let q = first_interior(piece, 0)->0;
        assert(whole_char(piece, q));
        assert(boundary(piece, q + 3)) by {
            lemma_char_len(piece, q);
            assert(char_end(piece, q) == q + 3);
        }
        lemma_whole_parts(piece, q + 3);
    }
}

/// The pieces that a model checks for are plain.
proof fn lemma_cuts_plain(m: SpModel)
    ensures
        cross_plain(cuts_of(m)),
{
    let c = cuts_of(m);
    assert forall|i: int| 0 <= i < c.cross.len() implies !is_complex((#[trigger] c.cross[i]).0)
        && !is_complex(c.cross[i].1) && whole_chars(c.cross[i].1) by {
        lemma_crossing_plain(m.tables.vocab, i);
        lemma_crossing_whole(m.tables.vocab, i);
    }
}

/// Before a cut at a mark, the text up to it is cut as the whole is.
proof fn lemma_cut_before(c: CutView, s: Seq<u8>, p: int, q: int)
    requires
        cross_plain(c),
        0 < p < s.len(),
        mark_len(s, p, true) > 0,
        0 < q < p,
    ensures
        is_cut(c, s, q, true) == is_cut(c, s.take(p), q, true),
{
    let t = s.take(p);
    assert(t[q] == s[q] && t[q - 1] == s[q - 1]);
    assert(punct_cut(c, s, q, true) == punct_cut(c, t, q, true));
    assert(mark_len(s, q, true) == mark_len(t, q, true));
    assert(mark_ends(s, q, true) == mark_ends(t, q, true));
    let w = mark_len(s, q, true);
    if w > 0 {
        assert(s.take(q) =~= t.take(q));
        assert forall|i: int| 0 <= i < c.cross.len() implies has_prefix(
            s.skip(q + w),
            (#[trigger] c.cross[i]).1,
        ) == has_prefix(t.skip(q + w), c.cross[i].1) by {
            let post = c.cross[i].1;
            let a = s.skip(q + w);
            let b = t.skip(q + w);
            assert(b =~= a.take(p - q - w));
            let n = p - q - w;
            if has_prefix(b, post) {
                assert(a.take(post.len() as int) =~= b.take(post.len() as int));
            }
            if has_prefix(a, post) && post.len() > n {
                assert(post[n] == a.take(post.len() as int)[n]);
                assert(a[n] == s[p]);
                if s[p] == 0x20 {
                    assert(post.contains(post[n]));
                } else {
                    assert(whole_char(post, n));
                    assert(lead_len(0xE2) == 3);
                    assert(n + 3 <= post.len());
                    assert(post[n + 1] == a.take(post.len() as int)[n + 1]);
                    assert(post[n + 2] == a.take(post.len() as int)[n + 2]);
                    assert(mark_len(post, n, false) > 0);
                }
            }
            if has_prefix(a, post) {
                assert(b.take(post.len() as int) =~= a.take(post.len() as int));
            }
        }
        if spans_mark(c.cross, s, q, w) {
            let i = choose|i: int|
                0 <= i < c.cross.len() && has_suffix(s.take(q), (#[trigger] c.cross[i]).0)
                    && has_prefix(s.skip(q + w), c.cross[i].1);
            assert(has_prefix(t.skip(q + w), c.cross[i].1));
            assert(spans_mark(c.cross, t, q, w));
        }
        if spans_mark(c.cross, t, q, w) {
            let i = choose|i: int|
                0 <= i < c.cross.len() && has_suffix(t.take(q), (#[trigger] c.cross[i]).0)
                    && has_prefix(t.skip(q + w), c.cross[i].1);
            assert(has_prefix(s.skip(q + w), c.cross[i].1));
            assert(spans_mark(c.cross, s, q, w));
        }
    }
}

/// After a cut at a mark, the text from it on is cut as the whole is.
proof fn lemma_cut_after(c: CutView, s: Seq<u8>, p: int, q: int)
    requires
        cross_plain(c),
        0 < p < s.len(),
        mark_len(s, p, true) > 0,
        p < q < s.len(),
    ensures
        is_cut(c, s, q, true) == is_cut(c, s.skip(p), q - p, true),
{
    let t = s.skip(p);
    let x = q - p;
    assert(t[x] == s[q] && t[x - 1] == s[q - 1]);
    assert(t[0] == s[p]);
    assert(punct_cut(c, s, q, true) == punct_cut(c, t, x, true));
    assert(mark_len(s, q, true) == mark_len(t, x, true));
    assert(mark_ends(s, q, true) == mark_ends(t, x, true));
    let w = mark_len(s, q, true);
    if w > 0 {
        assert(s.skip(q + w) =~= t.skip(x + w));
        assert forall|i: int| 0 <= i < c.cross.len() implies has_suffix(
            s.take(q),
            (#[trigger] c.cross[i]).0,
        ) == has_suffix(t.take(x), c.cross[i].0) by {
            let pre = c.cross[i].0;
            let a = s.take(q);
            let b = t.take(x);
            let n = pre.len();
            if has_suffix(b, pre) {
                assert(a.skip(q - n) =~= b.skip(x - n));
            }
            if has_suffix(a, pre) && n > x {
                let z = a.skip(q - n);
                assert(z[n - x] == s[p]);
                if s[p] == 0x20 {
                    assert(pre.contains(pre[n - x]));
                } else {
                    assert(s[p] == 0xE2 && s[p + 1] == 0x96 && s[p + 2] == 0x81);
                    assert(q != p + 1 && q != p + 2);
                    assert(z[n - x + 1] == s[p + 1]);
                    assert(z[n - x + 2] == s[p + 2]);
                    assert(mark_len(pre, n - x, false) > 0);
                }
            }
            if has_suffix(a, pre) {
                assert(a.skip(q - n) =~= b.skip(x - n));
            }
        }
        if spans_mark(c.cross, s, q, w) {
            let i = choose|i: int|
                0 <= i < c.cross.len() && has_suffix(s.take(q), (#[trigger] c.cross[i]).0)
                    && has_prefix(s.skip(q + w), c.cross[i].1);
            assert(has_suffix(t.take(x), c.cross[i].0));
            assert(spans_mark(c.cross, t, x, w));
        }
        if spans_mark(c.cross, t, x, w) {
            let i = choose|i: int|
                0 <= i < c.cross.len() && has_suffix(t.take(x), (#[trigger] c.cross[i]).0)
                    && has_prefix(t.skip(x + w), c.cross[i].1);
            assert(has_suffix(s.take(q), c.cross[i].0));
            assert(spans_mark(c.cross, s, q, w));
        }
    }
}

proof fn lemma_next_cut_before(c: CutView, s: Seq<u8>, p: int, q: int)
    requires
        cross_plain(c),
        is_cut(c, s, p, true),
        mark_len(s, p, true) > 0,
        0 < q <= p,
    ensures
        next_cut(c, s, q, true) == next_cut(c, s.take(p), q, true),
    decreases p - q,
{
    if q < p {
        lemma_cut_before(c, s, p, q);
        lemma_next_cut_before(c, s, p, q + 1);
    }
}

proof fn lemma_next_cut_after(c: CutView, s: Seq<u8>, p: int, q: int)
    requires
        cross_plain(c),
        0 < p < s.len(),
        mark_len(s, p, true) > 0,
        p < q <= s.len(),
    ensures
        next_cut(c, s, q, true) == next_cut(c, s.skip(p), q - p, true) + p,
    decreases s.len() - q,
{
    if q < s.len() {
        lemma_cut_after(c, s, p, q);
        lemma_next_cut_after(c, s, p, q + 1);
    }
}

proof fn lemma_units_after(v: SpView, c: CutView, s: Seq<u8>, p: int, u: int)
    requires
        cross_plain(c),
        0 < p < s.len(),
        mark_len(s, p, true) > 0,
        p <= u <= s.len(),
    ensures
        units_tokens(v, c, s, u, true, false) == units_tokens(v, c, s.skip(p), u - p, true, false),
    decreases s.len() - u,
{
    if u < s.len() {
        lemma_next_cut_after(c, s, p, u + 1);
        lemma_next_cut(c, s, u + 1, true);
        let e = next_cut(c, s, u + 1, true);
        assert(s.skip(p).subrange(u - p, e - p) =~= s.subrange(u, e));
        lemma_units_after(v, c, s, p, e);
    }
}

/// Units divide at a cut at a mark.
proof fn lemma_units_divide(v: SpView, c: CutView, s: Seq<u8>, p: int, u: int, prefixed: bool)
    requires
        cross_plain(c),
        mark_cut(c, s, p, true),
        0 <= u < p,
    ensures
        units_tokens(v, c, s, u, true, prefixed) == units_tokens(
            v,
            c,
            s.take(p),
            u,
            true,
            prefixed,
        ) + units_tokens(v, c, s.skip(p), 0, true, false),
    decreases p - u,
{
    let t = s.take(p);
    let e = next_cut(c, s, u + 1, true);
    lemma_next_cut_before(c, s, p, u + 1);
    lemma_next_cut(c, s, u + 1, true);
    lemma_next_cut(c, t, u + 1, true);
    assert(t.subrange(u, e) =~= s.subrange(u, e));
    let tail = units_tokens(v, c, s.skip(p), 0, true, false);
    if e < p {
        lemma_units_divide(v, c, s, p, e, false);
        let head = crate::sp::cuts::unit_tokens(
            v,
            crate::sp::cuts::unit_key(s.subrange(u, e), prefixed),
            true,
        );
        let mid = units_tokens(v, c, t, e, true, false);
        assert(head + (mid + tail) =~= (head + mid) + tail);
    } else {
        lemma_units_after(v, c, s, p, p);
        let head = crate::sp::cuts::unit_tokens(
            v,
            crate::sp::cuts::unit_key(s.subrange(u, e), prefixed),
            true,
        );
        assert(units_tokens(v, c, t, e, true, false) =~= Seq::<TokenId>::empty());
        assert(head + Seq::<TokenId>::empty() =~= head);
    }
}

// Tokens of pieces, in the order of the text.

/// The tokens of the section from `a` to `b`, if it is not empty.
spec fn sect(m: SpModel, s: Seq<u8>, a: int, b: int, pos: SectionPos) -> Seq<TokenId> {
    if a < b {
        section_tokens(m, s.subrange(a, b), pos)
    } else {
        Seq::empty()
    }
}

/// The tokens of the text from `chunk` on, with added tokens found from `from`
/// on.
spec fn tokens_from(m: SpModel, s: Seq<u8>, from: int, chunk: int, pos: SectionPos) -> Seq<TokenId>
    decreases s.len() - from,
{
    match longest_match(patterns(m.added), s, from) {
        None => sect(m, s, chunk, s.len() as int, pos),
        Some((start, k)) => {
            let tok = m.added[k];
            let end = start + tok.content.len();
            if !(from < end <= s.len()) {
                Seq::empty()
            } else if start < chunk {
                tokens_from(m, s, end, chunk, pos)
            } else {
                sect(m, s, chunk, section_end(tok, s, chunk, start), pos) + seq![tok.id]
                    + tokens_from(m, s, end, section_next(tok, s, end), SectionPos::Middle)
            }
        },
    }
}

proof fn lemma_pieces_add(m: SpModel, s: Seq<u8>, a: Seq<Piece>, b: Seq<Piece>, pos: SectionPos)
    ensures
        piece_tokens(m, s, a + b, pos) == piece_tokens(m, s, a, pos) + piece_tokens(
            m,
            s,
            b,
            if has_token(a) {
                SectionPos::Middle
            } else {
                pos
            },
        ),
    decreases b.len(),
{
    let pos2 = if has_token(a) {
        SectionPos::Middle
    } else {
        pos
    };
    if b.len() == 0 {
        assert(a + b =~= a);
        assert(piece_tokens(m, s, b, pos2) =~= Seq::<TokenId>::empty());
        assert(piece_tokens(m, s, a, pos) + Seq::<TokenId>::empty() =~= piece_tokens(m, s, a, pos));
    } else {
        let ab = a + b;
        assert(ab.drop_last() =~= a + b.drop_last());
        lemma_pieces_add(m, s, a, b.drop_last(), pos);
        assert(has_token(a + b.drop_last()) == (has_token(a) || has_token(b.drop_last()))) by {
            let c = a + b.drop_last();
            let d = b.drop_last();
            if has_token(a) {
                let i = choose|i: int| 0 <= i < a.len() && (#[trigger] a[i]) is Token;
                assert(c[i] is Token);
            }
            if has_token(d) {
                let i = choose|i: int| 0 <= i < d.len() && (#[trigger] d[i]) is Token;
                assert(c[a.len() + i] is Token);
            }
            if has_token(c) {
                let i = choose|i: int| 0 <= i < c.len() && (#[trigger] c[i]) is Token;
                if i < a.len() {
                    assert(a[i] is Token);
                } else {
                    assert(d[i - a.len()] is Token);
                }
            }
        }
        assert(ab.last() == b.last());
        let x = piece_tokens(m, s, a, pos);
        let y = piece_tokens(m, s, b.drop_last(), pos2);
        let z = piece_tokens(m, s, ab, pos).skip((x + y).len() as int);
        assert(piece_tokens(m, s, ab, pos) =~= (x + y) + z);
        assert(piece_tokens(m, s, b, pos2) =~= y + z);
        assert((x + y) + z =~= x + (y + z));
    }
}

/// White space that ends where it does, seen from inside a text.
proof fn lemma_section_bounds(tok: AddedToken, s: Seq<u8>, chunk: int, start: int)
    requires
        0 <= chunk <= start <= s.len(),
    ensures
        chunk <= section_end(tok, s, chunk, start) <= start,
{
    lemma_spaces_start_in(s.subrange(chunk, start), start - chunk);
}

/// The tokens of the pieces of a text are those in the order of the text.
proof fn lemma_pieces_in_order(m: SpModel, s: Seq<u8>, from: int, chunk: int, pos: SectionPos)
    requires
        s.len() <= usize::MAX,
        0 <= from <= s.len(),
        0 <= chunk <= s.len(),
        all_nonempty(m.added),
    ensures
        piece_tokens(m, s, added_pieces(m.added, s, from, chunk), pos) == tokens_from(
            m,
            s,
            from,
            chunk,
            pos,
        ),
    decreases s.len() - from,
{
    match longest_match(patterns(m.added), s, from) {
        None => {
            lemma_section_piece(m, s, chunk, s.len() as int, pos);
        },
        Some((start, k)) => {
            lemma_match_is(m.added, s, from);
            let tok = m.added[k];
            let end = start + tok.content.len();
            if start < chunk {
                lemma_pieces_in_order(m, s, end, chunk, pos);
            } else {
                let b = section_end(tok, s, chunk, start);
                let next = section_next(tok, s, end);
                lemma_section_bounds(tok, s, chunk, start);
                lemma_spaces_end_in(s.skip(end), 0);
                lemma_pieces_in_order(m, s, end, next, SectionPos::Middle);
                let x = section_piece(chunk, b);
                let y = seq![Piece::Token(tok.id)];
                let z = added_pieces(m.added, s, end, next);
                lemma_pieces_add(m, s, x + y, z, pos);
                lemma_pieces_add(m, s, x, y, pos);
                lemma_section_piece(m, s, chunk, b, pos);
                assert((x + y)[x.len() as int] is Token);
                assert(has_token(x + y));
                let pos2 = if has_token(x) {
                    SectionPos::Middle
                } else {
                    pos
                };
                assert(y.drop_last() =~= Seq::<Piece>::empty());
                assert(piece_tokens(m, s, y.drop_last(), pos2) =~= Seq::<TokenId>::empty());
                assert(piece_tokens(m, s, y, pos2) =~= seq![tok.id]);
            }
        },
    }
}

proof fn lemma_section_piece(m: SpModel, s: Seq<u8>, a: int, b: int, pos: SectionPos)
    requires
        s.len() <= usize::MAX,
        0 <= a <= s.len(),
        0 <= b <= s.len(),
    ensures
        piece_tokens(m, s, section_piece(a, b), pos) == sect(m, s, a, b, pos),
{
    let x = section_piece(a, b);
    if a < b {
        assert(x.drop_last() =~= Seq::<Piece>::empty());
        assert(piece_tokens(m, s, x.drop_last(), pos) =~= Seq::<TokenId>::empty());
        assert(!has_token(x.drop_last()));
        assert(piece_tokens(m, s, x, pos) =~= sect(m, s, a, b, pos));
    }
}

// What is found before and after a cut that no occurrence straddles.

/// From `p` on, the text gives what its end from `p` on gives.
proof fn lemma_tokens_shift(m: SpModel, s: Seq<u8>, p: int, from: int, chunk: int, pos: SectionPos)
    requires
        0 <= p <= from <= s.len(),
        p <= chunk <= s.len(),
        all_nonempty(m.added),
    ensures
        tokens_from(m, s, from, chunk, pos) == tokens_from(m, s.skip(p), from - p, chunk - p, pos),
    decreases s.len() - from,
{
    let t = s.skip(p);
    lemma_match_skip(m.added, s, p, from, from);
    match longest_match(patterns(m.added), s, from) {
        None => {
            if chunk < s.len() {
                assert(s.subrange(chunk, s.len() as int) =~= t.subrange(chunk - p, t.len() as int));
            }
        },
        Some((start, k)) => {
            lemma_match_is(m.added, s, from);
            let tok = m.added[k];
            let end = start + tok.content.len();
            if start < chunk {
                lemma_tokens_shift(m, s, p, end, chunk, pos);
            } else {
                assert(s.subrange(chunk, start) =~= t.subrange(chunk - p, start - p));
                assert(s.skip(end) =~= t.skip(end - p));
                let b = section_end(tok, s, chunk, start);
                let next = section_next(tok, s, end);
                lemma_section_bounds(tok, s, chunk, start);
                lemma_spaces_end_in(s.skip(end), 0);
                assert(section_end(tok, t, chunk - p, start - p) == b - p);
                assert(section_next(tok, t, end - p) == next - p);
                assert(s.subrange(chunk, b) =~= t.subrange(chunk - p, b - p));
                lemma_tokens_shift(m, s, p, end, next, SectionPos::Middle);
            }
        },
    }
}

/// A section that starts after `chunk` does so whatever stands before.
proof fn lemma_section_end_is(tok: AddedToken, s: Seq<u8>, chunk: int, start: int)
    requires
        tok.lstrip,
        0 <= chunk < block_start(tok, s, start),
        start <= s.len(),
    ensures
        section_end(tok, s, chunk, start) == block_start(tok, s, start),
{
    let t = s.take(start);
    lemma_spaces_start_in(t, start);
    lemma_spaces_start_skip(t, chunk, start);
    assert(t.skip(chunk) =~= s.subrange(chunk, start));
}

/// A byte that no character starts with.
spec fn inner_byte(b: u8) -> bool {
    0x80 <= b < 0xC0
}

/// Added tokens are text, and none stands between all bytes.
pub open spec fn tokens_are_text(m: SpModel) -> bool {
    &&& m.between is None
    &&& forall|k: int| 0 <= k < m.added.len() ==> valid_utf8((#[trigger] m.added[k]).content)
}

/// The section that holds a cut divides at it.
proof fn lemma_section_divides(m: SpModel, s: Seq<u8>, p: int, a: int, b: int, pos: SectionPos)
    requires
        raw_prepend_of(m) is Some,
        mark_cut(cuts_of(m), s, p, true),
        0 <= a <= p <= b <= s.len(),
        a == p ==> pos == SectionPos::Middle && !is_unguarded(m),
        b == s.len() || !inner_byte(s[b]),
    ensures
        sect(m, s, a, b, pos) == sect(m, s, a, p, pos) + sect(
            m,
            s,
            p,
            b,
            SectionPos::Continuation,
        ),
{
    let c = cuts_of(m);
    let none = Seq::<TokenId>::empty();
    lemma_cuts_plain(m);
    if b == p {
        assert(sect(m, s, a, p, pos) + none =~= sect(m, s, a, p, pos));
    } else {
        let t = s.subrange(a, b);
        assert(mark_len(t, p - a, true) == mark_len(s, p, true)) by {
            assert(t[p - a] == s[p]);
            if s[p] == 0xE2 {
                assert(inner_byte(s[p + 1]) && inner_byte(s[p + 2]));
                assert(b >= p + 3);
                assert(t[p - a + 1] == s[p + 1]);
                assert(t[p - a + 2] == s[p + 2]);
            }
        }
        if a == p {
            assert(none + sect(m, s, a, b, SectionPos::Continuation) =~= sect(
                m,
                s,
                a,
                b,
                SectionPos::Continuation,
            ));
        } else {
            let w = mark_len(s, p, true);
            assert(mark_cut(c, t, p - a, true)) by {
                assert(mark_ends(t, p - a, true) ==> mark_ends(s, p, true)) by {
                    assert(forall|i: int| 0 <= i < t.len() ==> #[trigger] t[i] == s[a + i]);
                }
                if spans_mark(c.cross, t, p - a, w) {
                    let i = choose|i: int|
                        0 <= i < c.cross.len() && has_suffix(
                            t.take(p - a),
                            (#[trigger] c.cross[i]).0,
                        ) && has_prefix(t.skip(p - a + w), c.cross[i].1);
                    let pre = c.cross[i].0;
                    let post = c.cross[i].1;
                    assert(s.take(p).skip(p - pre.len()) =~= t.take(p - a).skip(
                        p - a - pre.len(),
                    ));
                    assert(s.skip(p + w).take(post.len() as int) =~= t.skip(p - a + w).take(
                        post.len() as int,
                    ));
                    assert(has_suffix(s.take(p), c.cross[i].0));
                    assert(spans_mark(c.cross, s, p, w));
                }
            }
            let prefixed = raw_prefixed(raw_prepend_of(m)->0, pos, t);
            lemma_units_divide(m.tables, c, t, p - a, 0, prefixed);
            assert(t.take(p - a) =~= s.subrange(a, p));
            assert(t.skip(p - a) =~= s.subrange(p, b));
            assert(mark_len(s.subrange(a, p), 0, true) == mark_len(t, 0, true)) by {
                let h = s.subrange(a, p);
                assert(h[0] == t[0]);
                assert(forall|i: int| 0 <= i < h.len() ==> #[trigger] h[i] == t[i]);
                assert(t[p - a] == s[p]);
            }
        }
    }
}

/// Where a section ends no character is cut.
proof fn lemma_section_end_byte(tok: AddedToken, s: Seq<u8>, chunk: int, start: int)
    requires
        0 <= chunk <= start <= s.len(),
        occurs_at(s, tok.content, start),
        tok.content.len() > 0,
        valid_utf8(tok.content),
    ensures
        ({
            let b = section_end(tok, s, chunk, start);
            b < s.len() && !inner_byte(s[b])
        }),
{
    law_utf8_is_whole(tok.content);
    assert(s.subrange(start, start + tok.content.len())[0] == s[start]);
    lemma_section_bounds(tok, s, chunk, start);
    if tok.lstrip {
        lemma_spaces_start_byte(s.subrange(chunk, start), start - chunk);
        let b = section_end(tok, s, chunk, start);
        if b < start {
            assert(s.subrange(chunk, start)[b - chunk] == s[b]);
        }
    }
}

proof fn lemma_spaces_start_byte(s: Seq<u8>, end: int)
    requires
        0 <= end <= s.len(),
    ensures
        spaces_start(s, end) < end ==> 0 <= spaces_start(s, end) && !inner_byte(
            s[spaces_start(s, end)],
        ),
    decreases end,
{
    if 0 < end && space_width_before(s, end) > 0 {
        lemma_spaces_start_byte(s, end - space_width_before(s, end));
        lemma_spaces_start_in(s, end - space_width_before(s, end));
    }
}

/// No occurrence straddles a safe cut.
proof fn lemma_safe_unstraddled(m: SpModel, s: Seq<u8>, p: int)
    requires
        safe_cut(m, s, p),
    ensures
        unstraddled(m.added, s, p),
{
    assert forall|k: int, i: int|
        0 <= k < m.added.len() && i < p && #[trigger] occurs_at(s, m.added[k].content, i) implies i
        + m.added[k].content.len() <= p by {
        let tok = m.added[k];
        let end = i + tok.content.len();
        lemma_spaces_start_in(s.take(i), i);
        lemma_spaces_end_in(s.skip(end), 0);
        if end > p {
            assert(blocks_cut(tok, is_unguarded(m), s, i, p));
        }
    }
}

/// A text divides at a safe cut, from any point before it on.
#[verifier::spinoff_prover]
#[verifier::rlimit(60)]
proof fn lemma_tokens_divide(m: SpModel, s: Seq<u8>, p: int, from: int, chunk: int, pos: SectionPos)
    requires
        raw_prepend_of(m) is Some,
        safe_cut(m, s, p),
        all_nonempty(m.added),
        tokens_are_text(m),
        0 <= from <= p,
        0 <= chunk <= p,
        chunk == p ==> pos == SectionPos::Middle && !is_unguarded(m),
    ensures
        tokens_from(m, s, from, chunk, pos) == tokens_from(m, s.take(p), from, chunk, pos)
            + tokens_from(m, s.skip(p), 0, 0, SectionPos::Continuation),
    decreases p - from,
{
    let h = s.take(p);
    let t = s.skip(p);
    let tail = tokens_from(m, t, 0, 0, SectionPos::Continuation);
    let found = longest_match(patterns(m.added), s, from);
    lemma_safe_unstraddled(m, s, p);
    lemma_match_take(m.added, s, p, from);
    if found is Some && (found->0).0 < p {
        let (start, k) = found->0;
        let tok = m.added[k];
        let end = start + tok.content.len();
        lemma_match_is(m.added, s, from);
        assert(end <= p);
        if start < chunk {
            lemma_tokens_divide(m, s, p, end, chunk, pos);
        } else {
            let b = section_end(tok, s, chunk, start);
            let next = section_next(tok, s, end);
            lemma_section_bounds(tok, s, chunk, start);
            lemma_spaces_start_in(s.take(start), start);
            lemma_spaces_end_in(s.skip(end), 0);
            assert(!blocks_cut(tok, is_unguarded(m), s, start, p));
            assert(p > block_end(tok, is_unguarded(m), s, start));
            if tok.rstrip {
                lemma_spaces_end_take(s.skip(end), p - end, 0);
                assert(s.skip(end).take(p - end) =~= h.skip(end));
            }
            assert(section_next(tok, h, end) == next);
            assert(h.subrange(chunk, start) =~= s.subrange(chunk, start));
            assert(h.subrange(chunk, b) =~= s.subrange(chunk, b));
            lemma_tokens_divide(m, s, p, end, next, SectionPos::Middle);
            let x = sect(m, s, chunk, b, pos) + seq![tok.id];
            let y = tokens_from(m, h, end, next, SectionPos::Middle);
            assert(x + (y + tail) =~= (x + y) + tail);
        }
    } else {
        assert forall|k: int, i: int| 0 <= k < m.added.len() && from <= i < p implies !#[trigger] occurs_at(
            s,
            m.added[k].content,
            i,
        ) by {
            if occurs_at(s, m.added[k].content, i) {
                assert(patterns(m.added)[k] == m.added[k].content);
                if found is None {
                    lemma_match_exists(patterns(m.added), s, from, i, k);
                } else {
                    lemma_match_is(m.added, s, from);
                    assert(!occurs_at(s, patterns(m.added)[k], i));
                }
            }
        }
        lemma_match_skip(m.added, s, p, from, p);
        if chunk < p {
            assert(h.subrange(chunk, p) =~= s.subrange(chunk, p));
        }
        assert(sect(m, h, chunk, p, pos) == sect(m, s, chunk, p, pos));
        match found {
            None => {
                lemma_section_divides(m, s, p, chunk, s.len() as int, pos);
                assert(t.subrange(0, t.len() as int) =~= s.subrange(p, s.len() as int));
            },
            Some((start, k)) => {
                lemma_match_is(m.added, s, from);
                let tok = m.added[k];
                let end = start + tok.content.len();
                let b = section_end(tok, s, chunk, start);
                let next = section_next(tok, s, end);
                lemma_section_bounds(tok, s, chunk, start);
                lemma_section_end_byte(tok, s, chunk, start);
                lemma_spaces_start_in(s.take(start), start);
                lemma_spaces_end_in(s.skip(end), 0);
                assert(!blocks_cut(tok, is_unguarded(m), s, start, p));
                if tok.lstrip {
                    assert(p < block_start(tok, s, start));
                    lemma_section_end_is(tok, s, chunk, start);
                    lemma_section_end_is(tok, s, p, start);
                }
                assert(t.subrange(0, start - p) =~= s.subrange(p, start));
                assert(section_end(tok, t, 0, start - p) == b - p);
                assert(t.skip(end - p) =~= s.skip(end));
                assert(section_next(tok, t, end - p) == next - p);
                lemma_section_divides(m, s, p, chunk, b, pos);
                assert(t.subrange(0, b - p) =~= s.subrange(p, b));
                lemma_tokens_shift(m, s, p, end, next, SectionPos::Middle);
                let x = sect(m, s, chunk, p, pos);
                let y = sect(m, s, p, b, SectionPos::Continuation);
                let z = tokens_from(m, s, end, next, SectionPos::Middle);
                assert((x + y) + seq![tok.id] + z =~= x + (y + seq![tok.id] + z));
            },
        }
    }
}

proof fn lemma_raw_in_order(m: SpModel, s: Seq<u8>, pos: SectionPos)
    requires
        s.len() <= usize::MAX,
        raw_prepend_of(m) is Some,
        all_nonempty(m.added),
        m.between is None,
    ensures
        raw_tokens(m, s, pos) == tokens_from(m, s, 0, 0, pos),
{
    if m.added.len() == 0 {
        lemma_match_none(patterns(m.added), s, 0);
        assert(s.subrange(0, s.len() as int) =~= s);
    } else {
        lemma_pieces_in_order(m, s, 0, 0, pos);
    }
}

/// A text that is cut at a safe cut encodes like the two parts, the second as
/// one that goes on with what the first began.
pub proof fn law_safe_cut_divides(m: SpModel, s: Seq<u8>, p: int, pos: SectionPos)
    requires
        s.len() <= usize::MAX,
        raw_prepend_of(m) is Some,
        all_nonempty(m.added),
        tokens_are_text(m),
        safe_cut(m, s, p),
    ensures
        raw_tokens(m, s, pos) == raw_tokens(m, s.take(p), pos) + raw_tokens(
            m,
            s.skip(p),
            SectionPos::Continuation,
        ),
{
    lemma_raw_in_order(m, s, pos);
    lemma_raw_in_order(m, s.take(p), pos);
    lemma_raw_in_order(m, s.skip(p), SectionPos::Continuation);
    lemma_tokens_divide(m, s, p, 0, 0, pos);
}

/// A safe cut of a text is one of its end from an earlier position on.
proof fn lemma_safe_cut_skip(m: SpModel, s: Seq<u8>, x: int, p: int)
    requires
        0 <= x < p,
        safe_cut(m, s, p),
    ensures
        safe_cut(m, s.skip(x), p - x),
{
    let t = s.skip(x);
    let c = cuts_of(m);
    let w = mark_len(s, p, true);
    assert(forall|i: int| 0 <= i < t.len() ==> #[trigger] t[i] == s[x + i]);
    assert(mark_len(t, p - x, true) == w);
    assert(mark_ends(t, p - x, true) ==> mark_ends(s, p, true));
    if spans_mark(c.cross, t, p - x, w) {
        let i = choose|i: int|
            0 <= i < c.cross.len() && has_suffix(t.take(p - x), (#[trigger] c.cross[i]).0)
                && has_prefix(t.skip(p - x + w), c.cross[i].1);
        let pre = c.cross[i].0;
        assert(t.skip(p - x + w) =~= s.skip(p + w));
        assert(s.take(p).skip(p - pre.len()) =~= t.take(p - x).skip(p - x - pre.len()));
        assert(has_suffix(s.take(p), c.cross[i].0));
    }
    let g = is_unguarded(m);
    if blocked_by(m.added, m.added.len() as int, g, t, p - x) {
        let (k, i) = choose|k: int, i: int|
            0 <= k < m.added.len() && #[trigger] blocks_cut(m.added[k], g, t, i, p - x);
        let tok = m.added[k];
        let end = i + tok.content.len();
        lemma_occurs_skip(s, tok.content, x, i);
        assert(t.skip(end) =~= s.skip(end + x));
        assert(block_end(tok, g, t, i) == block_end(tok, g, s, i + x) - x);
        if tok.lstrip {
            lemma_spaces_start_in(s.take(i + x), i + x);
            if x < spaces_start(s.take(i + x), i + x) {
                lemma_spaces_start_skip(s.take(i + x), x, i + x);
                assert(s.take(i + x).skip(x) =~= t.take(i));
            }
        }
        assert(blocks_cut(m.added[k], g, s, i + x, p));
    }
}

/// The tokens of fragments, in order: the first fragment starts the text and
/// each later one goes on with it.
pub open spec fn fragment_tokens(m: SpModel, s: Seq<u8>, ranges: Seq<(int, int)>) -> Seq<TokenId>
    decreases ranges.len(),
{
    if ranges.len() == 0 {
        Seq::empty()
    } else {
        let (a, b) = ranges[0];
        raw_tokens(
            m,
            s.subrange(a, b),
            if a == 0 {
                SectionPos::First
            } else {
                SectionPos::Continuation
            },
        ) + fragment_tokens(m, s, ranges.drop_first())
    }
}

#[verifier::spinoff_prover]
#[verifier::rlimit(60)]
proof fn lemma_fragments_from(m: SpModel, s: Seq<u8>, target: int, start: int)
    requires
        s.len() <= usize::MAX,
        raw_prepend_of(m) is Some,
        all_nonempty(m.added),
        tokens_are_text(m),
        target > 0,
        0 <= start < s.len(),
    ensures
        fragment_tokens(m, s, fragments_from(m, s, target, start)) == raw_tokens(
            m,
            s.skip(start),
            if start == 0 {
                SectionPos::First
            } else {
                SectionPos::Continuation
            },
        ),
    decreases s.len() - start,
{
    let pos = if start == 0 {
        SectionPos::First
    } else {
        SectionPos::Continuation
    };
    let e = if start + target <= s.len() {
        next_safe_cut(m, s, start + target)
    } else {
        s.len() as int
    };
    if start + target <= s.len() {
        lemma_next_safe_cut(m, s, start + target);
    }
    let all = fragments_from(m, s, target, start);
    let rest = fragments_from(m, s, target, e);
    assert(all =~= seq![(start, e)] + rest);
    assert(all[0] == (start, e));
    assert(all.drop_first() =~= rest);
    let t = s.skip(start);
    assert(fragment_tokens(m, s, all) == raw_tokens(m, s.subrange(start, e), pos) + fragment_tokens(
        m,
        s,
        rest,
    ));
    if e < s.len() {
        assert(t.take(e - start) =~= s.subrange(start, e));
        assert(t.skip(e - start) =~= s.skip(e));
        assert(raw_tokens(m, t, pos) == raw_tokens(m, s.subrange(start, e), pos) + raw_tokens(
            m,
            s.skip(e),
            SectionPos::Continuation,
        )) by {
            lemma_safe_cut_skip_any(m, s, start, e);
            law_safe_cut_divides(m, t, e - start, pos);
        }
        lemma_fragments_from(m, s, target, e);
    } else {
        assert(rest =~= Seq::<(int, int)>::empty());
        assert(s.subrange(start, e) =~= t);
        assert(fragment_tokens(m, s, rest) =~= Seq::<TokenId>::empty());
        assert(raw_tokens(m, t, pos) + Seq::<TokenId>::empty() =~= raw_tokens(m, t, pos));
    }
}

proof fn lemma_safe_cut_skip_any(m: SpModel, s: Seq<u8>, x: int, p: int)
    requires
        0 <= x < p,
        safe_cut(m, s, p),
    ensures
        safe_cut(m, s.skip(x), p - x),
{
    if x == 0 {
        assert(s.skip(0) =~= s);
    } else {
        lemma_safe_cut_skip(m, s, x, p);
    }
}

/// Encoding the fragments of a text one by one gives what encoding the text
/// gives.
pub proof fn law_fragments_encode_whole(m: SpModel, s: Seq<u8>, target: int)
    requires
        s.len() <= usize::MAX,
        raw_prepend_of(m) is Some,
        all_nonempty(m.added),
        tokens_are_text(m),
    ensures
        fragment_tokens(m, s, fragments(m, s, target)) == raw_tokens(m, s, SectionPos::First),
{
    if s.len() == 0 {
        let f = fragments(m, s, target);
        assert(f.drop_first() =~= Seq::<(int, int)>::empty());
        assert(s.subrange(0, 0) =~= s);
        assert(fragment_tokens(m, s, f.drop_first()) =~= Seq::<TokenId>::empty());
        assert(fragment_tokens(m, s, f) =~= raw_tokens(m, s, SectionPos::First));
    } else {
        lemma_fragments_from(
            m,
            s,
            if target > 0 {
                target
            } else {
                1
            },
            0,
        );
        assert(s.skip(0) =~= s);
    }
}

/// A section of raw text, if there is any.
pub open spec fn section_if_any(m: SpModel, s: Seq<u8>, pos: SectionPos) -> Seq<TokenId> {
    if s.len() > 0 {
        section_tokens(m, s, pos)
    } else {
        Seq::empty()
    }
}

/// White space in which no added token starts does not matter for what is found
/// behind it.
proof fn lemma_tokens_jump(m: SpModel, s: Seq<u8>, from: int, next: int, pos: SectionPos)
    requires
        0 <= from <= next <= s.len(),
        all_nonempty(m.added),
        forall|j: int, p: int|
            0 <= j < m.added.len() && from <= p < next ==> !#[trigger] occurs_at(
                s,
                m.added[j].content,
                p,
            ),
    ensures
        tokens_from(m, s, from, next, pos) == tokens_from(m, s.skip(next), 0, 0, pos),
{
    lemma_match_skip(m.added, s, 0, from, next);
    assert(s.skip(0) =~= s);
    if longest_match(patterns(m.added), s, from) is Some {
        lemma_match_is(m.added, s, from);
        lemma_match_is(m.added, s, next);
    }
    assert(tokens_from(m, s, from, next, pos) == tokens_from(m, s, next, next, pos));
    lemma_tokens_shift(m, s, next, next, next, pos);
}

/// A text encodes around the first added token that stands in it, the longest
/// where several start together: the section before it, without white space at
/// its end if the token strips it, then the ID of the token, then the rest as
/// text behind an added token, without white space at its start if the token
/// strips it and no added token starts there.
pub proof fn law_sp_added_token_divides(
    m: SpModel,
    s: Seq<u8>,
    start: int,
    k: int,
    pos: SectionPos,
)
    requires
        s.len() <= usize::MAX,
        all_nonempty(m.added),
        m.between is None,
        0 <= k < m.added.len(),
        occurs_at(s, m.added[k].content, start),
        forall|j: int, p: int|
            0 <= j < m.added.len() && 0 <= p < start ==> !#[trigger] occurs_at(
                s,
                m.added[j].content,
                p,
            ),
        forall|j: int|
            0 <= j < m.added.len() && j != k && #[trigger] occurs_at(
                s,
                m.added[j].content,
                start,
            ) ==> m.added[j].content.len() < m.added[k].content.len(),
        m.added[k].rstrip ==> forall|j: int, p: int|
            0 <= j < m.added.len() && start + m.added[k].content.len() <= p < start
                + m.added[k].content.len() + spaces_end(
                s.skip(start + m.added[k].content.len()),
                0,
            ) ==> !#[trigger] occurs_at(s, m.added[j].content, p),
    ensures
        ({
            let tok = m.added[k];
            let before = s.take(start);
            let after = s.skip(start + tok.content.len());
            raw_tokens(m, s, pos) == section_if_any(
                m,
                if tok.lstrip {
                    before.take(spaces_start(before, start))
                } else {
                    before
                },
                pos,
            ) + seq![tok.id] + raw_tokens(
                m,
                if tok.rstrip {
                    after.skip(spaces_end(after, 0))
                } else {
                    after
                },
                SectionPos::Middle,
            )
        }),
{
    let tok = m.added[k];
    let pats = patterns(m.added);
    assert(pats[k] == tok.content);
    assert(is_longest_match(pats, s, 0, start, k)) by {
        assert forall|j: int, p: int| 0 <= j < pats.len() && 0 <= p < start implies !#[trigger] occurs_at(
            s,
            pats[j],
            p,
        ) by {
            assert(pats[j] == m.added[j].content);
        }
        assert forall|j: int| 0 <= j < pats.len() && #[trigger] occurs_at(
            s,
            pats[j],
            start,
        ) implies pats[j].len() < pats[k].len() || (pats[j].len() == pats[k].len() && k <= j) by {
            assert(pats[j] == m.added[j].content);
            if j != k {
                assert(occurs_at(s, m.added[j].content, start));
            }
        }
    }
    lemma_match_unique(pats, s, 0, start, k);
    let end = start + tok.content.len();
    let before = s.take(start);
    let after = s.skip(end);
    assert(tok.content.len() > 0);
    lemma_spaces_end_in(after, 0);
    let next = section_next(tok, s, end);
    let rest = if tok.rstrip {
        after.skip(spaces_end(after, 0))
    } else {
        after
    };
    assert(rest =~= s.skip(next));
    lemma_pieces_in_order(m, s, 0, 0, pos);
    lemma_pieces_in_order(m, rest, 0, 0, SectionPos::Middle);
    lemma_tokens_jump(m, s, end, next, SectionPos::Middle);
    assert(s.subrange(0, start) =~= before);
    lemma_spaces_start_in(before, start);
    let b = section_end(tok, s, 0, start);
    assert(s.subrange(0, b) =~= before.take(b));
    assert(before.take(start) =~= before);
}

/// Raw text in which no added token stands is one section.
pub proof fn law_sp_text_without_added_tokens(m: SpModel, s: Seq<u8>, pos: SectionPos)
    requires
        0 < s.len() <= usize::MAX,
        all_nonempty(m.added),
        m.between is None,
        forall|j: int, p: int|
            0 <= j < m.added.len() && 0 <= p < s.len() ==> !#[trigger] occurs_at(
                s,
                m.added[j].content,
                p,
            ),
    ensures
        raw_tokens(m, s, pos) == section_tokens(m, s, pos),
{
    if m.added.len() > 0 {
        lemma_pieces_in_order(m, s, 0, 0, pos);
        if longest_match(patterns(m.added), s, 0) is Some {
            lemma_match_is(m.added, s, 0);
        }
        assert(s.subrange(0, s.len() as int) =~= s);
    }
}

/// With added tokens that strip nothing, a cut is safe where a unit starts at a
/// mark and no occurrence of such a token covers the place. Right behind one is
/// safe unless each section gets a marker of its own.
pub proof fn law_cut_beside_tokens_is_safe(m: SpModel, s: Seq<u8>, p: int)
    requires
        forall|k: int|
            0 <= k < m.added.len() ==> !(#[trigger] m.added[k]).lstrip && !m.added[k].rstrip,
    ensures
        safe_cut(m, s, p) <==> {
            &&& mark_cut(cuts_of(m), s, p, true)
            &&& forall|k: int, i: int|
                0 <= k < m.added.len() && #[trigger] occurs_at(s, m.added[k].content, i) ==> p <= i
                    || p > i + m.added[k].content.len() || (p == i + m.added[k].content.len()
                    && raw_prepend_of(m) != Some(RawPrepend::Unguarded))
        },
{
    let n = m.added.len() as int;
    let u = is_unguarded(m);
    if safe_cut(m, s, p) {
        assert forall|k: int, i: int|
            0 <= k < m.added.len() && #[trigger] occurs_at(s, m.added[k].content, i) implies p <= i
            || p > i + m.added[k].content.len() || (p == i + m.added[k].content.len()
            && raw_prepend_of(m) != Some(RawPrepend::Unguarded)) by {
            assert(!blocks_cut(m.added[k], u, s, i, p));
        }
    } else if mark_cut(cuts_of(m), s, p, true) {
        let (k, i) = choose|k: int, i: int| 0 <= k < n && #[trigger] blocks_cut(m.added[k], u, s, i, p);
        assert(occurs_at(s, m.added[k].content, i));
    }
}

} // verus!
