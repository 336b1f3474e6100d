//! Units encode like the whole text.
use crate::bpe::rules::{
    all_solid, cross_free, expand, has_prefix, has_suffix, in_vocab, law_merge_splits,
    lemma_expand_add, rules_spell, Rules, NO_MERGE,
};
use crate::pretokenize::chars::{char_end, lemma_char_len};
use crate::pretokenize::locality::{
    boundary, law_utf8_is_whole, lemma_char_boundary, whole_char, whole_chars,
};
use crate::pretokenize::r50k::continuation;
use crate::pretokenize::split::lemma_whole_parts;
use crate::sp::cuts::{
    byte_before, crossing_pieces, first_interior, has_mark, interior_mark, is_complex, is_cut,
    lemma_next_cut, mark_cut, mark_ends, mark_len, next_cut, punct_cut, spans_mark, unit_key,
    unit_tokens, units_tokens, CutView,
};
use crate::sp::symbols::{char_symbols, char_text, init_from, sp_mark, SpView};
use crate::token::TokenId;
use vstd::prelude::*;
use vstd::utf8::valid_utf8;

verus! {

/// A text as it is merged: in raw text each space is the marker.
pub open spec fn marked(s: Seq<u8>, raw: bool) -> Seq<u8>
    decreases s.len(),
{
    if s.len() == 0 {
        Seq::empty()
    } else {
        marked(s.drop_last(), raw) + if raw && s.last() == 0x20 {
            sp_mark()
        } else {
            seq![s.last()]
        }
    }
}

/// The symbols of a character stand for it.
pub open spec fn char_spelled(v: SpView, ch: Seq<u8>) -> bool {
    &&& expand(v.vocab, char_symbols(v, ch)) == ch
    &&& in_vocab(v.vocab, char_symbols(v, ch))
    &&& all_solid(v.vocab, char_symbols(v, ch))
}

/// The symbols of every character of a text stand for it.
pub open spec fn text_spelled(v: SpView, s: Seq<u8>, raw: bool) -> bool {
    forall|p: int|
        0 <= p < s.len() && !continuation(s[p]) ==> char_spelled(v, #[trigger] char_text(s, p, raw))
}

/// Every piece of two or more bytes is UTF-8.
pub open spec fn pieces_are_text(vocab: Seq<Seq<u8>>) -> bool {
    forall|i: int| 0 <= i < vocab.len() && (#[trigger] vocab[i]).len() >= 2 ==> valid_utf8(vocab[i])
}

pub proof fn lemma_marked_add(a: Seq<u8>, b: Seq<u8>, raw: bool)
    ensures
        marked(a + b, raw) == marked(a, raw) + marked(b, raw),
    decreases b.len(),
{
    if b.len() == 0 {
        assert(a + b =~= a);
    } else {
        assert((a + b).drop_last() =~= a + b.drop_last());
        lemma_marked_add(a, b.drop_last(), raw);
        assert(marked(a + b, raw) =~= marked(a, raw) + marked(b, raw));
    }
}

pub proof fn lemma_marked_plain(s: Seq<u8>, raw: bool)
    requires
        forall|i: int| 0 <= i < s.len() ==> #[trigger] s[i] != 0x20,
    ensures
        marked(s, raw) == s,
    decreases s.len(),
{
    if s.len() > 0 {
        lemma_marked_plain(s.drop_last(), raw);
        assert(marked(s, raw) =~= s);
    } else {
        assert(marked(s, raw) =~= s);
    }
}

/// The first character of a text.
pub proof fn lemma_marked_char(s: Seq<u8>, raw: bool)
    requires
        whole_chars(s),
        s.len() > 0,
    ensures
        marked(s, raw) == char_text(s, 0, raw) + marked(s.skip(char_end(s, 0)), raw),
{
    let e = char_end(s, 0);
    lemma_char_len(s, 0);
    lemma_char_boundary(s, 0);
    let head = s.take(e);
    assert(s =~= head + s.skip(e));
    lemma_marked_add(head, s.skip(e), raw);
    if s[0] == 0x20 {
        assert(head =~= seq![0x20u8]);
        assert(head.drop_last() =~= Seq::<u8>::empty());
        assert(marked(head.drop_last(), raw) =~= Seq::<u8>::empty());
        if raw {
            assert(marked(head, raw) =~= sp_mark());
        } else {
            assert(marked(head, raw) =~= head);
        }
        assert(s.subrange(0, e) =~= head);
    } else {
        assert forall|i: int| 0 <= i < head.len() implies #[trigger] head[i] != 0x20 by {
            if i > 0 {
                assert(continuation(s[i]));
            }
        }
        lemma_marked_plain(head, raw);
        assert(s.subrange(0, e) =~= head);
    }
}

pub proof fn lemma_init_shift(v: SpView, s: Seq<u8>, b: int, p: int, raw: bool)
    requires
        0 <= b <= s.len(),
        0 <= p <= s.len() - b,
    ensures
        init_from(v, s.skip(b), p, raw) == init_from(v, s, b + p, raw),
    decreases s.len() - p,
{
    let t = s.skip(b);
    if p < t.len() {
        assert(t[p] == s[b + p]);
        lemma_char_len(t, p);
        assert(char_end(t, p) + b == char_end(s, b + p));
        assert(t.subrange(p, char_end(t, p)) =~= s.subrange(b + p, char_end(s, b + p)));
        lemma_init_shift(v, s, b, char_end(t, p), raw);
    }
}

proof fn lemma_init_head(v: SpView, s: Seq<u8>, b: int, p: int, raw: bool)
    requires
        whole_chars(s),
        0 <= p <= b <= s.len(),
        boundary(s, p),
        boundary(s, b),
    ensures
        init_from(v, s, p, raw) == init_from(v, s.take(b), p, raw) + init_from(v, s, b, raw),
    decreases b - p,
{
    let t = s.take(b);
    if p < b {
        lemma_char_len(s, p);
        lemma_char_boundary(s, p);
        assert(char_end(s, p) <= b);
        assert(t[p] == s[p]);
        assert(char_end(t, p) == char_end(s, p));
        assert(t.subrange(p, char_end(t, p)) =~= s.subrange(p, char_end(s, p)));
        lemma_init_head(v, s, b, char_end(s, p), raw);
        assert(init_from(v, s, p, raw) =~= init_from(v, t, p, raw) + init_from(v, s, b, raw));
    } else {
        assert(init_from(v, t, p, raw) =~= Seq::<TokenId>::empty());
        assert(init_from(v, s, p, raw) =~= init_from(v, t, p, raw) + init_from(v, s, b, raw));
    }
}

pub proof fn lemma_spelled_skip(v: SpView, s: Seq<u8>, b: int, raw: bool)
    requires
        text_spelled(v, s, raw),
        0 <= b <= s.len(),
    ensures
        text_spelled(v, s.skip(b), raw),
{
    let t = s.skip(b);
    assert forall|p: int| 0 <= p < t.len() && !continuation(t[p]) implies char_spelled(
        v,
        #[trigger] char_text(t, p, raw),
    ) by {
        assert(t[p] == s[b + p]);
        assert(char_end(t, p) + b == char_end(s, b + p));
        lemma_char_len(t, p);
        assert(t.subrange(p, char_end(t, p)) =~= s.subrange(b + p, char_end(s, b + p)));
        assert(char_spelled(v, char_text(s, b + p, raw)));
    }
}

pub proof fn lemma_spelled_take(v: SpView, s: Seq<u8>, b: int, raw: bool)
    requires
        whole_chars(s),
        text_spelled(v, s, raw),
        0 <= b <= s.len(),
        boundary(s, b),
    ensures
        text_spelled(v, s.take(b), raw),
{
    let t = s.take(b);
    assert forall|p: int| 0 <= p < t.len() && !continuation(t[p]) implies char_spelled(
        v,
        #[trigger] char_text(t, p, raw),
    ) by {
        assert(t[p] == s[p]);
        lemma_char_len(s, p);
        lemma_char_boundary(s, p);
        assert(char_end(s, p) <= b);
        assert(t.subrange(p, char_end(t, p)) =~= s.subrange(p, char_end(s, p)));
        assert(char_spelled(v, char_text(s, p, raw)));
    }
}

/// The symbols of a text stand for it.
pub proof fn law_init_spells(v: SpView, s: Seq<u8>, raw: bool)
    requires
        whole_chars(s),
        text_spelled(v, s, raw),
    ensures
        expand(v.vocab, init_from(v, s, 0, raw)) == marked(s, raw),
        in_vocab(v.vocab, init_from(v, s, 0, raw)),
        all_solid(v.vocab, init_from(v, s, 0, raw)),
    decreases s.len(),
{
    if s.len() == 0 {
        assert(init_from(v, s, 0, raw) =~= Seq::<TokenId>::empty());
        assert(marked(s, raw) =~= Seq::<u8>::empty());
    } else {
        let e = char_end(s, 0);
        lemma_char_len(s, 0);
        lemma_char_boundary(s, 0);
        let rest = s.skip(e);
        lemma_whole_parts(s, e);
        lemma_spelled_skip(v, s, e, raw);
        law_init_spells(v, rest, raw);
        lemma_init_shift(v, s, e, 0, raw);
        lemma_marked_char(s, raw);
        let a = char_symbols(v, char_text(s, 0, raw));
        let b = init_from(v, rest, 0, raw);
        assert(char_spelled(v, char_text(s, 0, raw)));
        lemma_expand_add(v.vocab, a, b);
        assert(init_from(v, s, 0, raw) == a + b);
        assert forall|i: int| 0 <= i < (a + b).len() implies (#[trigger] (a + b)[i]).0 < v.vocab.len()
            && v.vocab[(a + b)[i].0 as int].len() > 0 by {
            if i < a.len() {
                assert(a[i].0 < v.vocab.len());
            } else {
                assert(b[i - a.len()].0 < v.vocab.len());
            }
        }
    }
}

/// The marked text before a position ends with the byte before it.
proof fn lemma_marked_last(s: Seq<u8>, p: int, raw: bool)
    requires
        0 < p <= s.len(),
    ensures
        marked(s.take(p), raw).len() > 0,
        marked(s.take(p), raw).last() == byte_before(s, p, raw),
{
    assert(s.take(p).last() == s[p - 1]);
}

proof fn lemma_marked_first(s: Seq<u8>, raw: bool)
    requires
        s.len() > 0,
        s[0] != 0x20,
    ensures
        marked(s, raw).len() > 0,
        marked(s, raw)[0] == s[0],
{
    assert(s =~= seq![s[0]] + s.skip(1));
    lemma_marked_add(seq![s[0]], s.skip(1), raw);
    lemma_marked_plain(seq![s[0]], raw);
}

/// No merge crosses a cut before punctuation.
proof fn lemma_punct_cross_free(rules: Rules, c: CutView, s: Seq<u8>, p: int, raw: bool)
    requires
        rules_spell(rules, c.vocab),
        punct_cut(c, s, p, raw),
    ensures
        cross_free(rules, c.vocab, marked(s.take(p), raw), marked(s.skip(p), raw)),
{
    let vocab = c.vocab;
    let a = marked(s.take(p), raw);
    let b = marked(s.skip(p), raw);
    lemma_marked_last(s, p, raw);
    lemma_marked_first(s.skip(p), raw);
    assert forall|x: TokenId, y: TokenId|
        x.0 < vocab.len() && y.0 < vocab.len() && vocab[x.0 as int].len() > 0 && vocab[y.0 as int].len()
            > 0 && has_suffix(a, vocab[x.0 as int]) && has_prefix(b, vocab[y.0 as int]) implies (
    #[trigger] rules(x, y)).1 == NO_MERGE by {
        if rules(x, y).1 != NO_MERGE {
            let vx = vocab[x.0 as int];
            let vy = vocab[y.0 as int];
            let z = rules(x, y).0.0 as int;
            assert(vocab[z] == vx + vy);
            let j = vx.len() - 1;
            assert(a.skip(a.len() - vx.len()).last() == a.last());
            assert(b.take(vy.len() as int)[0] == b[0]);
            assert(vocab[z][j] == byte_before(s, p, raw));
            assert(vocab[z][j + 1] == s[p]);
        }
    }
}

/// A marked text that ends with the marker had a mark there.
proof fn lemma_marked_mark_end(t: Seq<u8>, raw: bool)
    requires
        has_suffix(marked(t, raw), sp_mark()),
    ensures
        mark_ends(t, t.len() as int, raw),
{
    let a = marked(t, raw);
    let n = a.len() as int;
    let tail = a.skip(n - 3);
    assert(tail[0] == a[n - 3] && tail[1] == a[n - 2] && tail[2] == a[n - 1]);
    assert(a[n - 3] == 0xE2 && a[n - 2] == 0x96 && a[n - 1] == 0x81);
    if t.len() > 0 && !(raw && t.last() == 0x20) {
        let t1 = t.drop_last();
        let a1 = marked(t1, raw);
        assert(a =~= a1 + seq![t.last()]);
        assert(t.last() == 0x81);
        assert(a1.len() == n - 1);
        assert(a1[n - 2] == 0x96);
        assert(t1.len() > 0);
        if raw && t1.last() == 0x20 {
            assert(a1 =~= marked(t1.drop_last(), raw) + sp_mark());
            assert(a1[n - 2] == 0x81);
        } else {
            let t2 = t1.drop_last();
            let a2 = marked(t2, raw);
            assert(a1 =~= a2 + seq![t1.last()]);
            assert(t1.last() == 0x96);
            assert(a2.len() == n - 2);
            assert(a2[n - 3] == 0xE2);
            assert(t2.len() > 0);
            if raw && t2.last() == 0x20 {
                assert(a2 =~= marked(t2.drop_last(), raw) + sp_mark());
                assert(a2[n - 3] == 0x81);
            } else {
                assert(a2 =~= marked(t2.drop_last(), raw) + seq![t2.last()]);
                assert(t2.last() == 0xE2);
                assert(t[t.len() - 3] == 0xE2 && t[t.len() - 2] == 0x96);
            }
        }
    }
}

/// A suffix of the marked text without marker, from a character start on, is a
/// suffix of the text.
proof fn lemma_unmark_suffix(t: Seq<u8>, w: Seq<u8>, raw: bool)
    requires
        has_suffix(marked(t, raw), w),
        !has_mark(w),
        w.len() > 0 ==> !continuation(w[0]),
    ensures
        has_suffix(t, w),
    decreases t.len(),
{
    let a = marked(t, raw);
    if w.len() == 0 {
        assert(t.skip(t.len() as int) =~= w);
    } else {
        assert(t.len() > 0);
        let t1 = t.drop_last();
        let a1 = marked(t1, raw);
        let n = a.len() as int;
        let tail = a.skip(n - w.len());
        assert(tail == w);
        if raw && t.last() == 0x20 {
            assert(a =~= a1 + sp_mark());
            assert(a[n - 3] == 0xE2 && a[n - 2] == 0x96 && a[n - 1] == 0x81);
            if w.len() >= 3 {
                let q = w.len() - 3;
                assert(w[q] == a[n - 3] && w[q + 1] == a[n - 2] && w[q + 2] == a[n - 1]);
                assert(mark_len(w, q, false) > 0);
            } else if w.len() == 1 {
                assert(w[0] == a[n - 1]);
            } else {
                assert(w[0] == a[n - 2]);
            }
        } else {
            let w1 = w.drop_last();
            assert(a =~= a1 + seq![t.last()]);
            assert(w.last() == a[n - 1]);
            assert(a1.skip(a1.len() - w1.len()) =~= w1) by {
                assert forall|i: int| 0 <= i < w1.len() implies a1.skip(a1.len() - w1.len())[i] == w1[i] by {
                    assert(tail[i] == a[n - w.len() + i]);
                }
            }
            assert(!has_mark(w1)) by {
                if has_mark(w1) {
                    let q = choose|q: int| #[trigger] mark_len(w1, q, false) > 0;
                    assert(mark_len(w, q, false) > 0);
                }
            }
            lemma_unmark_suffix(t1, w1, raw);
            assert(t.skip(t.len() - w.len()) =~= w) by {
                assert forall|i: int| 0 <= i < w.len() implies t.skip(t.len() - w.len())[i] == w[i] by {
                    if i < w1.len() {
                        assert(t1.skip(t1.len() - w1.len())[i] == w1[i]);
                    }
                }
            }
        }
    }
}

/// A prefix of the marked text without marker, that does not end inside one, is
/// a prefix of the text.
proof fn lemma_unmark_prefix(t: Seq<u8>, w: Seq<u8>, raw: bool)
    requires
        has_prefix(marked(t, raw), w),
        !has_mark(w),
        w.len() > 0 ==> w.last() != 0xE2,
        w.len() > 1 ==> w[w.len() - 2] != 0xE2,
    ensures
        has_prefix(t, w),
    decreases t.len(),
{
    let a = marked(t, raw);
    if w.len() == 0 {
        assert(t.take(0) =~= w);
    } else {
        assert(t.len() > 0);
        let t1 = t.skip(1);
        assert(t =~= seq![t[0]] + t1);
        lemma_marked_add(seq![t[0]], t1, raw);
        let head = seq![t[0]];
        assert(head.drop_last() =~= Seq::<u8>::empty());
        assert(marked(head.drop_last(), raw) =~= Seq::<u8>::empty());
        assert(a.take(w.len() as int) == w);
        if raw && t[0] == 0x20 {
            assert(marked(head, raw) =~= sp_mark());
            assert(a[0] == 0xE2 && a[1] == 0x96 && a[2] == 0x81);
            assert(w[0] == a[0]);
            if w.len() >= 3 {
                assert(w[1] == a[1] && w[2] == a[2]);
                assert(mark_len(w, 0, false) > 0);
            }
        } else {
            assert(marked(head, raw) =~= head);
            let w1 = w.skip(1);
            let a1 = marked(t1, raw);
            assert(w[0] == a[0]);
            assert(a1.take(w1.len() as int) =~= w1) by {
                assert forall|i: int| 0 <= i < w1.len() implies a1.take(w1.len() as int)[i] == w1[i] by {
                    assert(a.take(w.len() as int)[i + 1] == w[i + 1]);
                }
            }
            assert(!has_mark(w1)) by {
                if has_mark(w1) {
                    let q = choose|q: int| #[trigger] mark_len(w1, q, false) > 0;
                    assert(mark_len(w, q + 1, false) > 0);
                }
            }
            lemma_unmark_prefix(t1, w1, raw);
            assert(t.take(w.len() as int) =~= w) by {
                assert forall|i: int| 0 <= i < w.len() implies t.take(w.len() as int)[i] == w[i] by {
                    if i > 0 {
                        assert(t1.take(w1.len() as int)[i - 1] == w1[i - 1]);
                    }
                }
            }
        }
    }
}

proof fn lemma_first_interior(s: Seq<u8>, p: int, x: int)
    requires
        p <= x,
        interior_mark(s, x),
    ensures
        first_interior(s, p) matches Some(q) && p <= q <= x && interior_mark(s, q),
    decreases x - p,
{
    if !interior_mark(s, p) {
        lemma_first_interior(s, p + 1, x);
    }
}

/// A piece that spans a mark is listed.
proof fn lemma_crossing_listed(vocab: Seq<Seq<u8>>, i: int, q: int)
    requires
        crossing_pieces(vocab) is Some,
        0 <= i < vocab.len(),
        valid_utf8(vocab[i]),
        first_interior(vocab[i], 0) == Some(q),
    ensures
        !is_complex(vocab[i].take(q)),
        !is_complex(vocab[i].skip(q + 3)),
        exists|j: int|
            0 <= j < (crossing_pieces(vocab)->0).len() && #[trigger] (crossing_pieces(vocab)->0)[j] == (
                vocab[i].take(q),
                vocab[i].skip(q + 3),
            ),
    decreases vocab.len(),
{
    let head = crossing_pieces(vocab.drop_last())->0;
    let all = crossing_pieces(vocab)->0;
    if i == vocab.len() - 1 {
        assert(all[head.len() as int] == (vocab[i].take(q), vocab[i].skip(q + 3)));
    } else {
        assert(vocab.drop_last()[i] == vocab[i]);
        lemma_crossing_listed(vocab.drop_last(), i, q);
        let j = choose|j: int|
            0 <= j < head.len() && #[trigger] head[j] == (vocab[i].take(q), vocab[i].skip(q + 3));
        assert(all[j] == head[j]);
    }
}

/// The pieces that span a mark hold no space.
pub proof fn lemma_crossing_plain(vocab: Seq<Seq<u8>>, j: int)
    requires
        crossing_pieces(vocab) is Some,
        0 <= j < (crossing_pieces(vocab)->0).len(),
    ensures
        !is_complex((crossing_pieces(vocab)->0)[j].0),
        !is_complex((crossing_pieces(vocab)->0)[j].1),
    decreases vocab.len(),
{
    let head = crossing_pieces(vocab.drop_last())->0;
    if j < head.len() {
        lemma_crossing_plain(vocab.drop_last(), j);
    }
}

/// No merge crosses a cut at a mark.
proof fn lemma_mark_cross_free(rules: Rules, c: CutView, s: Seq<u8>, p: int, raw: bool)
    requires
        rules_spell(rules, c.vocab),
        pieces_are_text(c.vocab),
        !c.every_mark,
        crossing_pieces(c.vocab) == Some(c.cross),
        mark_cut(c, s, p, raw),
    ensures
        cross_free(rules, c.vocab, marked(s.take(p), raw), marked(s.skip(p), raw)),
{
    let vocab = c.vocab;
    let w = mark_len(s, p, raw);
    let before = s.take(p);
    let after = s.skip(p + w);
    let a = marked(before, raw);
    let b = marked(s.skip(p), raw);
    let rest = marked(after, raw);
    assert(b =~= sp_mark() + rest) by {
        let m = s.subrange(p, p + w);
        assert(s.skip(p) =~= m + after);
        lemma_marked_add(m, after, raw);
        if w == 1 {
            assert(m =~= seq![0x20u8]);
            assert(m.drop_last() =~= Seq::<u8>::empty());
            assert(marked(m.drop_last(), raw) =~= Seq::<u8>::empty());
            assert(marked(m, raw) =~= sp_mark());
        } else {
            assert(m =~= sp_mark());
            lemma_marked_plain(m, raw);
        }
    }
    assert forall|x: TokenId, y: TokenId|
        x.0 < vocab.len() && y.0 < vocab.len() && vocab[x.0 as int].len() > 0 && vocab[y.0 as int].len()
            > 0 && has_suffix(a, vocab[x.0 as int]) && has_prefix(b, vocab[y.0 as int]) implies (
    #[trigger] rules(x, y)).1 == NO_MERGE by {
        if rules(x, y).1 != NO_MERGE {
            let z = rules(x, y).0.0 as int;
            lemma_no_spanning_piece(
                c,
                s,
                p,
                raw,
                vocab[x.0 as int],
                vocab[y.0 as int],
                z,
                a,
                rest,
            );
        }
    }
}

/// No piece goes across a cut at a mark.
proof fn lemma_no_spanning_piece(
    c: CutView,
    s: Seq<u8>,
    p: int,
    raw: bool,
    vx: Seq<u8>,
    vy: Seq<u8>,
    i: int,
    a: Seq<u8>,
    rest: Seq<u8>,
)
    requires
        pieces_are_text(c.vocab),
        !c.every_mark,
        crossing_pieces(c.vocab) == Some(c.cross),
        mark_cut(c, s, p, raw),
        a == marked(s.take(p), raw),
        rest == marked(s.skip(p + mark_len(s, p, raw)), raw),
        0 <= i < c.vocab.len(),
        vx.len() > 0,
        vy.len() > 0,
        has_suffix(a, vx),
        has_prefix(sp_mark() + rest, vy),
    ensures
        c.vocab[i] != vx + vy,
{
    if c.vocab[i] == vx + vy {
        lemma_spanning_piece_spans(c, s, p, raw, vx, vy, i, a, rest);
    }
}

proof fn lemma_spanning_piece_spans(
    c: CutView,
    s: Seq<u8>,
    p: int,
    raw: bool,
    vx: Seq<u8>,
    vy: Seq<u8>,
    i: int,
    a: Seq<u8>,
    rest: Seq<u8>,
)
    requires
        pieces_are_text(c.vocab),
        crossing_pieces(c.vocab) == Some(c.cross),
        mark_len(s, p, raw) > 0,
        0 < p < s.len(),
        !mark_ends(s, p, raw),
        a == marked(s.take(p), raw),
        rest == marked(s.skip(p + mark_len(s, p, raw)), raw),
        0 <= i < c.vocab.len(),
        c.vocab[i] == vx + vy,
        vx.len() > 0,
        vy.len() > 0,
        has_suffix(a, vx),
        has_prefix(sp_mark() + rest, vy),
    ensures
        spans_mark(c.cross, s, p, mark_len(s, p, raw)),
{
    let b = sp_mark() + rest;
    let z = vx + vy;
    let n = vx.len() as int;
    assert(z == c.vocab[i]);
    law_utf8_is_whole(z);
    assert(b.take(vy.len() as int) == vy);
    assert(vy[0] == b[0]);
    assert(z[n] == 0xE2);
    assert(!continuation(z[n]));
    assert(whole_char(z, n));
    assert(vy.len() >= 3);
    assert(vy[1] == b[1] && vy[2] == b[2]);
    assert(z[n + 1] == vy[1] && z[n + 2] == vy[2]);
    assert(mark_len(z, n, false) == 3);
    if mark_ends(z, n, false) {
        assert(vx[n - 3] == 0xE2 && vx[n - 2] == 0x96 && vx[n - 1] == 0x81);
        let m = a.len() as int;
        let tail = a.skip(m - n);
        assert(tail == vx);
        assert(a[m - 3] == tail[n - 3] && a[m - 2] == tail[n - 2] && a[m - 1] == tail[n - 1]);
        assert(a.skip(m - 3) =~= sp_mark());
        lemma_marked_mark_end(s.take(p), raw);
        assert(mark_ends(s, p, raw));
    }
    assert(interior_mark(z, n));
    lemma_first_interior(z, 0, n);
    let q = first_interior(z, 0)->0;
    lemma_crossing_listed(c.vocab, i, q);
    let post = z.skip(q + 3);
    if q < n {
        assert(z[q] == 0xE2 && z[q + 1] == 0x96 && z[q + 2] == 0x81);
        assert(q + 3 <= n);
        assert(post[n - q - 3] == z[n]);
        assert(mark_len(post, n - q - 3, false) > 0);
        assert(has_mark(post));
    }
    assert(q == n);
    assert(z.take(n) =~= vx);
    assert(post =~= vy.skip(3));
    let j = choose|j: int| 0 <= j < c.cross.len() && #[trigger] c.cross[j] == (z.take(q), z.skip(q + 3));
    assert(c.cross[j] == (vx, post));
    assert(z[0] == vx[0]);
    lemma_unmark_suffix(s.take(p), vx, raw);
    assert(rest.take(post.len() as int) =~= post) by {
        assert forall|k: int| 0 <= k < post.len() implies rest.take(post.len() as int)[k] == post[k] by {
            assert(b[k + 3] == vy[k + 3]);
        }
    }
    let l = z.len() as int;
    if post.len() > 0 && post.last() == 0xE2 {
        assert(z[l - 1] == 0xE2);
        assert(whole_char(z, l - 1));
    }
    if post.len() > 1 && post[post.len() - 2] == 0xE2 {
        assert(z[l - 2] == 0xE2);
        assert(whole_char(z, l - 2));
    }
    lemma_unmark_prefix(s.skip(p + mark_len(s, p, raw)), post, raw);
    assert(spans_mark(c.cross, s, p, mark_len(s, p, raw)));
}

/// A cut is where a character starts.
proof fn lemma_cut_boundary(c: CutView, s: Seq<u8>, p: int, raw: bool)
    requires
        is_cut(c, s, p, raw),
    ensures
        0 < p < s.len(),
        boundary(s, p),
{
}

/// Merging splits at a cut.
proof fn lemma_split_at_cut(v: SpView, c: CutView, s: Seq<u8>, p: int, raw: bool)
    requires
        whole_chars(s),
        text_spelled(v, s, raw),
        rules_spell(v.rules, v.vocab),
        c.vocab == v.vocab,
        is_cut(c, s, p, raw),
        punct_cut(c, s, p, raw) || (!c.every_mark && pieces_are_text(c.vocab) && crossing_pieces(
            c.vocab,
        ) == Some(c.cross)),
    ensures
        unit_tokens(v, s, raw) == unit_tokens(v, s.take(p), raw) + unit_tokens(v, s.skip(p), raw),
        whole_chars(s.skip(p)),
        text_spelled(v, s.skip(p), raw),
{
    let a = s.take(p);
    let b = s.skip(p);
    lemma_cut_boundary(c, s, p, raw);
    lemma_whole_parts(s, p);
    lemma_spelled_take(v, s, p, raw);
    lemma_spelled_skip(v, s, p, raw);
    assert(boundary(s, 0));
    lemma_init_head(v, s, p, 0, raw);
    lemma_init_shift(v, s, p, 0, raw);
    law_init_spells(v, a, raw);
    law_init_spells(v, b, raw);
    if punct_cut(c, s, p, raw) {
        lemma_punct_cross_free(v.rules, c, s, p, raw);
    } else {
        lemma_mark_cross_free(v.rules, c, s, p, raw);
    }
    law_merge_splits(v.rules, v.vocab, init_from(v, a, 0, raw), init_from(v, b, 0, raw));
}

/// A cut of a text is one of its end from an earlier position on.
proof fn lemma_cut_suffix(c: CutView, s: Seq<u8>, u: int, p: int, raw: bool)
    requires
        0 <= u < p,
        is_cut(c, s, p, raw),
    ensures
        is_cut(c, s.skip(u), p - u, raw),
        punct_cut(c, s, p, raw) ==> punct_cut(c, s.skip(u), p - u, raw),
{
    let t = s.skip(u);
    assert(t[p - u] == s[p]);
    assert(t[p - u - 1] == s[p - 1]);
    if mark_cut(c, s, p, raw) {
        assert(mark_len(t, p - u, raw) == mark_len(s, p, raw));
        let w = mark_len(s, p, raw);
        if spans_mark(c.cross, t, p - u, w) {
            let i = choose|i: int|
                0 <= i < c.cross.len() && has_suffix(t.take(p - u), (#[trigger] c.cross[i]).0)
                    && has_prefix(t.skip(p - u + w), c.cross[i].1);
            let pre = c.cross[i].0;
            assert(t.skip(p - u + w) =~= s.skip(p + w));
            assert(s.take(p).skip(p - pre.len()) =~= t.take(p - u).skip(p - u - pre.len()));
            assert(has_suffix(s.take(p), c.cross[i].0));
        }
    }
}

/// A cut of a text is one of the same text behind a space, one byte on.
proof fn lemma_cut_prefixed(c: CutView, s: Seq<u8>, p: int)
    requires
        is_cut(c, s, p, true),
        c.every_mark || crossing_pieces(c.vocab) == Some(c.cross),
        c.every_mark ==> c.cross.len() == 0,
    ensures
        is_cut(c, unit_key(s, true), p + 1, true),
        punct_cut(c, s, p, true) ==> punct_cut(c, unit_key(s, true), p + 1, true),
{
    let t = unit_key(s, true);
    assert(forall|i: int| 0 <= i < s.len() ==> t[i + 1] == s[i]);
    assert(t[p + 1] == s[p] && t[p] == s[p - 1]);
    if mark_cut(c, s, p, true) {
        assert(mark_len(t, p + 1, true) == mark_len(s, p, true));
        let w = mark_len(s, p, true);
        if mark_ends(t, p + 1, true) && !mark_ends(s, p, true) {
            assert(t[p + 1 - 3] == 0xE2);
            assert(t[p - 2] == 0xE2 && t[p - 1] == 0x96);
            if p == 2 {
                assert(t[0] == 0x20);
            } else {
                assert(s[p - 3] == 0xE2);
            }
        }
        if spans_mark(c.cross, t, p + 1, w) {
            let i = choose|i: int|
                0 <= i < c.cross.len() && has_suffix(t.take(p + 1), (#[trigger] c.cross[i]).0)
                    && has_prefix(t.skip(p + 1 + w), c.cross[i].1);
            let pre = c.cross[i].0;
            lemma_crossing_plain(c.vocab, i);
            assert(t.skip(p + 1 + w) =~= s.skip(p + w));
            let tail = t.take(p + 1).skip(p + 1 - pre.len());
            assert(tail == pre);
            if pre.len() == p + 1 {
                assert(tail[0] == 0x20);
                assert(pre.contains(pre[0]));
            } else {
                assert(s.take(p).skip(p - pre.len()) =~= tail);
                assert(has_suffix(s.take(p), c.cross[i].0));
            }
        }
    }
}

/// Units from `u` on encode like the text from there on.
proof fn lemma_units_suffix(v: SpView, c: CutView, s: Seq<u8>, u: int, raw: bool)
    requires
        0 <= u <= s.len(),
        whole_chars(s.skip(u)),
        text_spelled(v, s.skip(u), raw),
        rules_spell(v.rules, v.vocab),
        c.vocab == v.vocab,
        !c.every_mark,
        pieces_are_text(c.vocab),
        crossing_pieces(c.vocab) == Some(c.cross),
    ensures
        units_tokens(v, c, s, u, raw, false) == unit_tokens(v, s.skip(u), raw),
    decreases s.len() - u,
{
    let t = s.skip(u);
    if u < s.len() {
        let e = next_cut(c, s, u + 1, raw);
        lemma_next_cut(c, s, u + 1, raw);
        assert(s.subrange(u, e) =~= t.take(e - u));
        if e < s.len() {
            lemma_cut_suffix(c, s, u, e, raw);
            lemma_split_at_cut(v, c, t, e - u, raw);
            assert(t.skip(e - u) =~= s.skip(e));
            lemma_units_suffix(v, c, s, e, raw);
        } else {
            assert(t.take(e - u) =~= t);
            assert(units_tokens(v, c, s, e, raw, false) =~= Seq::<TokenId>::empty());
            assert(units_tokens(v, c, s, u, raw, false) =~= unit_tokens(v, t, raw));
        }
    } else {
        assert(init_from(v, t, 0, raw) =~= Seq::<TokenId>::empty());
        crate::bpe::rules::law_merge_is_final(v.rules, init_from(v, t, 0, raw));
        assert(unit_tokens(v, t, raw) =~= Seq::<TokenId>::empty());
    }
}

/// Units encode like the whole text: where cuts are made at marks that start a
/// run, merge rules and symbols spell what they stand for, and pieces of two
/// or more bytes are UTF-8, the tokens of the units are those of one merge
/// over the whole text.
pub proof fn law_units_are_whole(v: SpView, c: CutView, s: Seq<u8>, raw: bool, prefixed: bool)
    requires
        whole_chars(s),
        text_spelled(v, unit_key(s, prefixed), raw),
        rules_spell(v.rules, v.vocab),
        c.vocab == v.vocab,
        !c.every_mark,
        pieces_are_text(c.vocab),
        crossing_pieces(c.vocab) == Some(c.cross),
        s.len() > 0,
        prefixed ==> raw,
    ensures
        units_tokens(v, c, s, 0, raw, prefixed) == unit_tokens(v, unit_key(s, prefixed), raw),
{
    assert(s.skip(0) =~= s);
    if !prefixed {
        lemma_units_suffix(v, c, s, 0, raw);
    } else {
        let t = unit_key(s, true);
        let e = next_cut(c, s, 1, raw);
        lemma_next_cut(c, s, 1, raw);
        lemma_prefixed_whole(s);
        if e < s.len() {
            lemma_cut_prefixed(c, s, e);
            lemma_split_at_cut(v, c, t, e + 1, raw);
            assert(t.take(e + 1) =~= unit_key(s.subrange(0, e), true));
            assert(t.skip(e + 1) =~= s.skip(e));
            lemma_units_suffix(v, c, s, e, raw);
        } else {
            assert(s.subrange(0, e) =~= s);
            assert(units_tokens(v, c, s, e, raw, false) =~= Seq::<TokenId>::empty());
            assert(units_tokens(v, c, s, 0, raw, true) =~= unit_tokens(v, t, raw));
        }
    }
}

pub proof fn lemma_prefixed_whole(s: Seq<u8>)
    requires
        whole_chars(s),
    ensures
        whole_chars(unit_key(s, true)),
{
    let t = unit_key(s, true);
    assert forall|i: int| 0 <= i < t.len() && !continuation(t[i]) implies #[trigger] whole_char(t, i) by {
        if i > 0 {
            assert(t[i] == s[i - 1]);
            assert(whole_char(s, i - 1));
            assert(forall|j: int| 0 <= j < s.len() ==> t[j + 1] == s[j]);
        } else if s.len() > 0 {
            assert(t[1] == s[0]);
        }
    }
}

/// The first mark from `p` on, or the end.
pub open spec fn next_mark(s: Seq<u8>, p: int, raw: bool) -> int
    decreases s.len() - p,
{
    if p >= s.len() {
        s.len() as int
    } else if mark_len(s, p, raw) > 0 {
        p
    } else {
        next_mark(s, p + 1, raw)
    }
}

pub proof fn lemma_next_mark(s: Seq<u8>, p: int, raw: bool)
    requires
        p <= s.len(),
    ensures
        p <= next_mark(s, p, raw) <= s.len(),
        next_mark(s, p, raw) < s.len() ==> mark_len(s, next_mark(s, p, raw), raw) > 0,
        forall|q: int| p <= q < next_mark(s, p, raw) ==> #[trigger] mark_len(s, q, raw) == 0,
    decreases s.len() - p,
{
    if p < s.len() && mark_len(s, p, raw) == 0 {
        lemma_next_mark(s, p + 1, raw);
    }
}

pub proof fn lemma_next_mark_is(s: Seq<u8>, p: int, f: int, raw: bool)
    requires
        0 <= p <= f <= s.len(),
        f < s.len() ==> mark_len(s, f, raw) > 0,
        forall|q: int| p <= q < f ==> #[trigger] mark_len(s, q, raw) == 0,
    ensures
        next_mark(s, p, raw) == f,
    decreases f - p,
{
    if p < f {
        assert(mark_len(s, p, raw) == 0);
        lemma_next_mark_is(s, p + 1, f, raw);
    }
}

/// The tokens of a text that is split at every mark, from `u` on.
pub open spec fn parts_tokens(v: SpView, s: Seq<u8>, u: int, raw: bool, prefixed: bool) -> Seq<TokenId>
    decreases s.len() - u,
    via parts_tokens_decreases
{
    if 0 <= u < s.len() {
        let f = next_mark(s, u + 1, raw);
        unit_tokens(v, unit_key(s.subrange(u, f), prefixed), raw) + parts_tokens(
            v,
            s,
            f,
            raw,
            false,
        )
    } else {
        Seq::empty()
    }
}

#[via_fn]
proof fn parts_tokens_decreases(v: SpView, s: Seq<u8>, u: int, raw: bool, prefixed: bool) {
    if 0 <= u < s.len() {
        lemma_next_mark(s, u + 1, raw);
    }
}

/// A part of a text between two character starts.
proof fn lemma_part(v: SpView, s: Seq<u8>, u: int, f: int, raw: bool)
    requires
        whole_chars(s),
        text_spelled(v, s, raw),
        0 <= u <= f <= s.len(),
        boundary(s, u),
        boundary(s, f),
    ensures
        whole_chars(s.subrange(u, f)),
        text_spelled(v, s.subrange(u, f), raw),
{
    lemma_whole_parts(s, f);
    lemma_spelled_take(v, s, f, raw);
    let h = s.take(f);
    assert(boundary(h, u));
    lemma_whole_parts(h, u);
    lemma_spelled_skip(v, h, u, raw);
    assert(h.skip(u) =~= s.subrange(u, f));
}

/// Units from `u` on encode like the rest of the part that `u` lies in and the
/// parts after it.
proof fn lemma_units_parts(v: SpView, c: CutView, s: Seq<u8>, u: int, raw: bool)
    requires
        whole_chars(s),
        text_spelled(v, s, raw),
        rules_spell(v.rules, v.vocab),
        c.vocab == v.vocab,
        c.every_mark,
        c.cross.len() == 0,
        0 <= u < s.len(),
        boundary(s, u),
    ensures
        units_tokens(v, c, s, u, raw, false) == parts_tokens(v, s, u, raw, false),
    decreases s.len() - u,
{
    let e = next_cut(c, s, u + 1, raw);
    let f = next_mark(s, u + 1, raw);
    lemma_next_cut(c, s, u + 1, raw);
    lemma_next_mark(s, u + 1, raw);
    if f < s.len() {
        assert(mark_cut(c, s, f, raw));
        assert(is_cut(c, s, f, raw));
    }
    assert(e <= f);
    if e == f {
        if f < s.len() {
            lemma_units_parts(v, c, s, f, raw);
        } else {
            assert(units_tokens(v, c, s, f, raw, false) =~= parts_tokens(v, s, f, raw, false));
        }
    } else {
        assert(mark_len(s, e, raw) == 0);
        assert(punct_cut(c, s, e, raw));
        lemma_units_parts(v, c, s, e, raw);
        assert forall|q: int| e + 1 <= q < f implies #[trigger] mark_len(s, q, raw) == 0 by {}
        lemma_next_mark_is(s, e + 1, f, raw);
        let t = s.subrange(u, f);
        lemma_part(v, s, u, f, raw);
        assert(t[e - u] == s[e] && t[e - u - 1] == s[e - 1]);
        assert(punct_cut(c, t, e - u, raw));
        lemma_split_at_cut(v, c, t, e - u, raw);
        assert(t.take(e - u) =~= s.subrange(u, e));
        assert(t.skip(e - u) =~= s.subrange(e, f));
        assert(units_tokens(v, c, s, u, raw, false) =~= parts_tokens(v, s, u, raw, false));
    }
}

/// Units of a text that is split at every mark encode like its parts: the cuts
/// before punctuation change nothing.
pub proof fn law_units_are_parts(v: SpView, c: CutView, s: Seq<u8>, raw: bool, prefixed: bool)
    requires
        whole_chars(s),
        text_spelled(v, s, raw),
        text_spelled(v, unit_key(s, prefixed), raw),
        rules_spell(v.rules, v.vocab),
        c.vocab == v.vocab,
        c.every_mark,
        c.cross.len() == 0,
        prefixed ==> raw,
    ensures
        units_tokens(v, c, s, 0, raw, prefixed) == parts_tokens(v, s, 0, raw, prefixed),
{
    if s.len() > 0 {
        assert(boundary(s, 0));
        if !prefixed {
            lemma_units_parts(v, c, s, 0, raw);
        } else {
            let e = next_cut(c, s, 1, raw);
            let f = next_mark(s, 1, raw);
            lemma_next_cut(c, s, 1, raw);
            lemma_next_mark(s, 1, raw);
            if f < s.len() {
                assert(mark_cut(c, s, f, raw));
                assert(is_cut(c, s, f, raw));
            }
            if e == f {
                if f < s.len() {
                    lemma_units_parts(v, c, s, f, raw);
                } else {
                    assert(units_tokens(v, c, s, f, raw, false) =~= parts_tokens(
                        v,
                        s,
                        f,
                        raw,
                        false,
                    ));
                }
            } else {
                assert(mark_len(s, e, raw) == 0);
                assert(punct_cut(c, s, e, raw));
                lemma_units_parts(v, c, s, e, raw);
                assert forall|q: int| e + 1 <= q < f implies #[trigger] mark_len(s, q, raw) == 0 by {}
                lemma_next_mark_is(s, e + 1, f, raw);
                let t = unit_key(s.subrange(0, f), true);
                let whole = unit_key(s, true);
                lemma_prefixed_whole(s);
                assert(whole[0] == 0x20);
                assert(boundary(whole, 0));
                assert(boundary(whole, f + 1)) by {
                    if f < s.len() {
                        assert(whole[f + 1] == s[f]);
                    }
                }
                lemma_part(v, whole, 0, f + 1, raw);
                assert(whole.subrange(0, f + 1) =~= t);
                assert(t[e + 1] == s[e] && t[e] == s[e - 1]);
                assert(punct_cut(c, t, e + 1, raw));
                lemma_split_at_cut(v, c, t, e + 1, raw);
                assert(t.take(e + 1) =~= unit_key(s.subrange(0, e), true));
                assert(t.skip(e + 1) =~= s.subrange(e, f));
                assert(units_tokens(v, c, s, 0, raw, true) =~= parts_tokens(v, s, 0, raw, true));
            }
        }
    } else {
        assert(units_tokens(v, c, s, 0, raw, prefixed) =~= parts_tokens(v, s, 0, raw, prefixed));
    }
}

} // verus!
