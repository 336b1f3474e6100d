//! Raw text encodes like the text that it is normalized to.
use crate::bpe::rules::{bpe_merge, rules_spell};
use crate::pretokenize::chars::{char_end, lemma_char_len};
use crate::pretokenize::locality::{boundary, lemma_char_boundary, whole_char, whole_chars};
use crate::pretokenize::r50k::continuation;
use crate::pretokenize::split::lemma_whole_parts;
use crate::search::occurs_at;
use crate::sp::cuts::{mark_len, unit_key, units_tokens};
use crate::sp::decode_laws::{lemma_mark_occurs, lemma_marked_front, lemma_replaced_skip};
use crate::sp::model::{
    cuts_of, is_mark_prepend, is_space_replace, normalized_tokens, raw_prefixed, raw_prepend_of,
    section_tokens, word_split_of, RawPrepend, SectionPos, SpModel, WordSplit,
};
use crate::sp::normalize::{metaspaced, norm_steps, replaced};
use crate::sp::symbols::{char_text, init_from, sp_mark, SpView};
use crate::sp::unit_laws::{
    char_spelled, law_units_are_parts, law_units_are_whole, lemma_init_shift, lemma_marked_add,
    lemma_marked_char, lemma_next_mark, lemma_next_mark_is, lemma_prefixed_whole,
    lemma_spelled_skip, marked, next_mark, parts_tokens, pieces_are_text, text_spelled,
};
use crate::token::TokenId;
use vstd::prelude::*;

verus! {

/// Text of a first character and a whole rest is whole.
proof fn lemma_whole_front(ch: Seq<u8>, rest: Seq<u8>)
    requires
        ch.len() > 0,
        whole_chars(ch),
        whole_chars(rest),
    ensures
        whole_chars(ch + rest),
{
    let t = ch + rest;
    assert forall|i: int| 0 <= i < t.len() && !continuation(t[i]) implies #[trigger] whole_char(
        t,
        i,
    ) by {
        if i < ch.len() {
            assert(t[i] == ch[i]);
            assert(whole_char(ch, i));
            assert(forall|j: int| 0 <= j < ch.len() ==> #[trigger] t[j] == ch[j]);
            if rest.len() > 0 {
                assert(t[ch.len() as int] == rest[0]);
            }
        } else {
            let k = i - ch.len();
            assert(t[i] == rest[k]);
            assert(whole_char(rest, k));
            assert(forall|j: int| 0 <= j < rest.len() ==> #[trigger] t[j + ch.len()] == rest[j]);
        }
    }
    assert(t[0] == ch[0]);
}

/// The first character of marked text.
proof fn lemma_marked_first(s: Seq<u8>)
    requires
        whole_chars(s),
        s.len() > 0,
    ensures
        ({
            let e = char_end(s, 0);
            let ch = char_text(s, 0, true);
            let t = marked(s, true);
            &&& 0 < e <= s.len()
            &&& whole_chars(s.skip(e))
            &&& whole_chars(ch)
            &&& t == ch + marked(s.skip(e), true)
            &&& char_end(t, 0) == ch.len()
            &&& char_text(t, 0, false) == ch
            &&& t.skip(ch.len() as int) == marked(s.skip(e), true)
        }),
{
    let e = char_end(s, 0);
    let ch = char_text(s, 0, true);
    let t = marked(s, true);
    lemma_char_len(s, 0);
    lemma_char_boundary(s, 0);
    lemma_whole_parts(s, e);
    lemma_marked_char(s, true);
    assert(whole_char(s, 0));
    assert(s.subrange(0, e) =~= s.take(e));
    assert(whole_chars(ch)) by {
        if s[0] == 0x20 {
            let m = sp_mark();
            assert forall|i: int| 0 <= i < m.len() && !continuation(m[i]) implies #[trigger] whole_char(
                m,
                i,
            ) by {
                assert(i == 0);
            }
        }
    }
    assert(t[0] == ch[0]);
    assert(whole_char(ch, 0));
    assert(ch.len() == if ch[0] < 0x80 {
        1
    } else {
        crate::pretokenize::chars::lead_len(ch[0])
    });
    assert(t.subrange(0, ch.len() as int) =~= ch);
    assert(t.skip(ch.len() as int) =~= marked(s.skip(e), true));
}

/// Marked text holds whole characters where the text does.
proof fn lemma_marked_whole(s: Seq<u8>)
    requires
        whole_chars(s),
    ensures
        whole_chars(marked(s, true)),
    decreases s.len(),
{
    if s.len() > 0 {
        lemma_marked_first(s);
        let e = char_end(s, 0);
        lemma_marked_whole(s.skip(e));
        lemma_whole_front(char_text(s, 0, true), marked(s.skip(e), true));
    } else {
        assert(marked(s, true) =~= Seq::<u8>::empty());
    }
}

/// Raw text has the symbols of its marked text.
proof fn lemma_init_marked(v: SpView, s: Seq<u8>)
    requires
        whole_chars(s),
    ensures
        init_from(v, s, 0, true) == init_from(v, marked(s, true), 0, false),
    decreases s.len(),
{
    let t = marked(s, true);
    if s.len() > 0 {
        lemma_marked_first(s);
        let e = char_end(s, 0);
        let n = char_end(t, 0);
        lemma_init_marked(v, s.skip(e));
        lemma_init_shift(v, s, e, 0, true);
        lemma_init_shift(v, t, n, 0, false);
    } else {
        assert(t =~= Seq::<u8>::empty());
    }
}

/// A text is spelled if its first character and the rest are.
proof fn lemma_spelled_front(v: SpView, s: Seq<u8>, raw: bool)
    requires
        whole_chars(s),
        s.len() > 0,
        char_spelled(v, char_text(s, 0, raw)),
        text_spelled(v, s.skip(char_end(s, 0)), raw),
    ensures
        text_spelled(v, s, raw),
{
    let e = char_end(s, 0);
    let t = s.skip(e);
    lemma_char_len(s, 0);
    lemma_char_boundary(s, 0);
    assert forall|p: int| 0 <= p < s.len() && !continuation(s[p]) implies char_spelled(
        v,
        #[trigger] char_text(s, p, raw),
    ) by {
        if p > 0 {
            assert(p >= e);
            assert(t[p - e] == s[p]);
            lemma_char_len(t, p - e);
            assert(char_end(t, p - e) + e == char_end(s, p));
            assert(t.subrange(p - e, char_end(t, p - e)) =~= s.subrange(p, char_end(s, p)));
            assert(char_spelled(v, char_text(t, p - e, raw)));
        }
    }
}

/// Raw text is spelled where its marked text is.
proof fn lemma_spelled_raw(v: SpView, s: Seq<u8>)
    requires
        whole_chars(s),
        text_spelled(v, marked(s, true), false),
    ensures
        text_spelled(v, s, true),
    decreases s.len(),
{
    let t = marked(s, true);
    if s.len() > 0 {
        lemma_marked_first(s);
        lemma_marked_whole(s);
        let e = char_end(s, 0);
        let n = char_end(t, 0);
        assert(!continuation(t[0]));
        assert(char_spelled(v, char_text(t, 0, false)));
        lemma_spelled_skip(v, t, n, false);
        lemma_spelled_raw(v, s.skip(e));
        lemma_spelled_front(v, s, true);
    }
}

proof fn lemma_mark_len_skip(s: Seq<u8>, u: int, p: int, raw: bool)
    requires
        0 <= u <= s.len(),
        0 <= p,
    ensures
        mark_len(s.skip(u), p, raw) == mark_len(s, u + p, raw),
{
    let t = s.skip(u);
    assert(forall|i: int| 0 <= i < t.len() ==> #[trigger] t[i] == s[u + i]);
}

/// Parts from a position on are those of the text from there on.
proof fn lemma_parts_skip(v: SpView, s: Seq<u8>, u: int, p: int, raw: bool)
    requires
        0 <= u <= s.len(),
        0 <= p <= s.len() - u,
    ensures
        parts_tokens(v, s.skip(u), p, raw, false) == parts_tokens(v, s, u + p, raw, false),
    decreases s.len() - u - p,
{
    let t = s.skip(u);
    if p < t.len() {
        let f = next_mark(t, p + 1, raw);
        lemma_next_mark(t, p + 1, raw);
        if f < t.len() {
            lemma_mark_len_skip(s, u, f, raw);
        }
        assert forall|q: int| u + p + 1 <= q < u + f implies #[trigger] mark_len(s, q, raw) == 0 by {
            lemma_mark_len_skip(s, u, q - u, raw);
            assert(mark_len(t, q - u, raw) == 0);
        }
        lemma_next_mark_is(s, u + p + 1, u + f, raw);
        assert(t.subrange(p, f) =~= s.subrange(u + p, u + f));
        lemma_parts_skip(v, s, u, f, raw);
    }
}

/// A mark of marked text stands where the text has a mark.
proof fn lemma_no_inner_mark(a: Seq<u8>, b: Seq<u8>, q: int)
    requires
        a.len() > 0,
        forall|i: int| 1 <= i < a.len() ==> #[trigger] mark_len(a + b, i, true) == 0,
        b.len() > 0 ==> mark_len(a + b, a.len() as int, true) > 0,
        1 <= q < marked(a, true).len(),
    ensures
        mark_len(marked(a, true) + marked(b, true), q, false) == 0,
{
    let s = a + b;
    let x = marked(a, true);
    let y = marked(b, true);
    let t = x + y;
    lemma_marked_front(a);
    lemma_marked_front(b);
    let tail = a.skip(1);
    assert forall|i: int| 0 <= i < tail.len() implies #[trigger] tail[i] != 0x20 by {
        assert(mark_len(s, i + 1, true) == 0);
        assert(s[i + 1] == tail[i]);
    }
    crate::sp::unit_laws::lemma_marked_plain(tail, true);
    let d: int = if a[0] == 0x20 {
        2
    } else {
        0
    };
    assert(x.len() == a.len() + d);
    assert(forall|i: int| 1 <= i < a.len() ==> #[trigger] x[i + d] == a[i]);
    if b.len() > 0 {
        assert(s[a.len() as int] == b[0]);
        assert(y.len() > 0 && y[0] == 0xE2) by {
            if b[0] != 0x20 {
                assert(mark_len(s, a.len() as int, true) == 3);
            }
        }
        assert(t[x.len() as int] == y[0]);
    } else {
        assert(y.len() == 0);
    }
    if mark_len(t, q, false) > 0 {
        assert(t[q] == 0xE2 && t[q + 1] == 0x96 && t[q + 2] == 0x81);
        assert(t[q] == x[q]);
        if a[0] == 0x20 && q < 3 {
            assert(x[q] == sp_mark()[q]);
        } else {
            let i = q - d;
            assert(x[i + d] == a[i]);
            assert(s[i] == a[i]);
            if q + 2 < x.len() {
                assert(x[i + 1 + d] == a[i + 1] && x[i + 2 + d] == a[i + 2]);
                assert(t[q + 1] == x[q + 1] && t[q + 2] == x[q + 2]);
                assert(s[i + 1] == a[i + 1] && s[i + 2] == a[i + 2]);
                assert(mark_len(s, i, true) > 0);
            }
        }
    }
}

/// Raw text that is split at every mark encodes like its marked text.
proof fn lemma_parts_marked(v: SpView, s: Seq<u8>)
    requires
        whole_chars(s),
    ensures
        parts_tokens(v, s, 0, true, false) == parts_tokens(v, marked(s, true), 0, false, false),
    decreases s.len(),
{
    let t = marked(s, true);
    if s.len() > 0 {
        let f = next_mark(s, 1, true);
        lemma_next_mark(s, 1, true);
        let a = s.take(f);
        let b = s.skip(f);
        assert(s =~= a + b);
        lemma_marked_add(a, b, true);
        let x = marked(a, true);
        let n = x.len() as int;
        lemma_marked_front(a);
        lemma_marked_front(b);
        assert(n > 0);
        assert(boundary(s, f)) by {
            if f < s.len() {
                assert(!continuation(s[f]));
            }
        }
        lemma_whole_parts(s, f);
        assert forall|q: int| 1 <= q < n implies #[trigger] mark_len(t, q, false) == 0 by {
            lemma_no_inner_mark(a, b, q);
        }
        if f < s.len() {
            let y = marked(b, true);
            assert(b[0] == s[f]);
            if s[f] != 0x20 {
                assert(mark_len(s, f, true) == 3);
                assert(b[1] == s[f + 1] && b[2] == s[f + 2]);
                lemma_marked_front(b.skip(1));
                lemma_marked_front(b.skip(1).skip(1));
                assert(b.skip(1)[0] == b[1] && b.skip(1).skip(1)[0] == b[2]);
                assert(y[0] == 0xE2 && y[1] == 0x96 && y[2] == 0x81);
            } else {
                assert(y[0] == 0xE2 && y[1] == 0x96 && y[2] == 0x81);
            }
            assert(t[n] == y[0] && t[n + 1] == y[1] && t[n + 2] == y[2]);
            assert(mark_len(t, n, false) == 3);
        } else {
            assert(b.len() == 0);
        }
        lemma_next_mark_is(t, 1, n, false);
        assert(t.subrange(0, n) =~= x);
        assert(s.subrange(0, f) =~= a);
        assert(t.skip(n) =~= marked(b, true));
        lemma_init_marked(v, a);
        lemma_parts_marked(v, b);
        lemma_parts_skip(v, s, f, 0, true);
        lemma_parts_skip(v, t, n, 0, false);
    } else {
        assert(t =~= Seq::<u8>::empty());
        assert(parts_tokens(v, s, 0, true, false) =~= parts_tokens(v, t, 0, false, false));
    }
}

/// A prefix before text that starts with no mark makes one part with it.
proof fn lemma_parts_prefixed(v: SpView, s: Seq<u8>)
    requires
        s.len() > 0,
        mark_len(s, 0, true) == 0,
    ensures
        parts_tokens(v, s, 0, true, true) == parts_tokens(v, unit_key(s, true), 0, true, false),
{
    let x = unit_key(s, true);
    let f = next_mark(s, 1, true);
    lemma_next_mark(s, 1, true);
    assert(x.skip(1) =~= s);
    if f < s.len() {
        lemma_mark_len_skip(x, 1, f, true);
    }
    assert forall|q: int| 1 <= q < f + 1 implies #[trigger] mark_len(x, q, true) == 0 by {
        lemma_mark_len_skip(x, 1, q - 1, true);
        if q > 1 {
            assert(mark_len(s, q - 1, true) == 0);
        }
    }
    lemma_next_mark_is(x, 1, f + 1, true);
    assert(x.subrange(0, f + 1) =~= unit_key(s.subrange(0, f), true));
    lemma_parts_skip(v, x, 1, f, true);
}

/// Replacing each space by the marker marks the text.
pub proof fn lemma_replaced_is_marked(s: Seq<u8>)
    ensures
        replaced(s, 0, seq![0x20u8], sp_mark()) == marked(s, true),
    decreases s.len(),
{
    let space = seq![0x20u8];
    if s.len() == 0 {
        assert(replaced(s, 0, space, sp_mark()) =~= marked(s, true));
    } else {
        lemma_marked_front(s);
        lemma_replaced_is_marked(s.skip(1));
        lemma_replaced_skip(s, 1, space, sp_mark());
        assert(s.subrange(0, 1) =~= seq![s[0]]);
        if s[0] != 0x20 {
            assert(seq![s[0]][0] != space[0]);
        }
    }
}

/// Marked text starts with the marker where the text starts with a mark.
proof fn lemma_marked_starts(s: Seq<u8>)
    ensures
        occurs_at(marked(s, true), sp_mark(), 0) <==> mark_len(s, 0, true) > 0,
        marked(s, true).len() == 0 <==> s.len() == 0,
{
    let t = marked(s, true);
    lemma_mark_occurs(t, 0);
    lemma_marked_front(s);
    if s.len() > 0 {
        let r = s.skip(1);
        let r2 = r.skip(1);
        lemma_marked_front(r);
        lemma_marked_front(r2);
        if r.len() > 0 {
            assert(r[0] == s[1]);
            if r2.len() > 0 {
                assert(r2[0] == s[2]);
            }
        }
        if s[0] == 0xE2 {
            assert(t[0] == s[0]);
            if r.len() > 0 {
                assert(t[1] == marked(r, true)[0]);
                if r2.len() > 0 && s[1] != 0x20 {
                    assert(t[2] == marked(r2, true)[0]);
                }
            }
        }
    }
}

/// What raw text is normalized to, where it can be encoded directly: its marked
/// text, with the marker before it where its first unit gets one.
proof fn lemma_normalized_is_marked(m: SpModel, s: Seq<u8>, pos: SectionPos, p: RawPrepend)
    requires
        raw_prepend_of(m) == Some(p),
        pos != SectionPos::Continuation,
        s.len() > 0,
    ensures
        metaspaced(m.metaspace, norm_steps(m.steps, s), pos == SectionPos::First) == marked(
            unit_key(s, raw_prefixed(p, pos, s)),
            true,
        ),
{
    let first = pos == SectionPos::First;
    let mark = sp_mark();
    let t = marked(s, true);
    let u = unit_key(s, true);
    let normed = norm_steps(m.steps, s);
    lemma_replaced_is_marked(s);
    lemma_marked_starts(s);
    lemma_marked_front(u);
    assert(u.skip(1) =~= s);
    assert(marked(u, true) == mark + t);
    // Text without spaces stays under the marking of spaces.
    lemma_marked_twice(s);
    lemma_replaced_is_marked(t);
    lemma_marked_twice(u);
    lemma_replaced_is_marked(mark + t);
    lemma_mark_occurs(mark + t, 0);
    assert(mark_len(mark + t, 0, false) == 3);
    assert(m.steps.drop_last().len() == 0 ==> norm_steps(m.steps.drop_last(), s) == s);
    if m.steps.len() == 2 && is_mark_prepend(m.steps[0]) && is_space_replace(m.steps[1]) {
        let head = m.steps.drop_last();
        assert(head.last() == m.steps[0]);
        assert(norm_steps(head.drop_last(), s) == s);
        assert(norm_steps(head, s) == mark + s);
        assert(m.steps.last() == m.steps[1]);
        lemma_replaced_is_marked(mark + s);
        lemma_marked_add(mark, s, true);
        crate::sp::unit_laws::lemma_marked_plain(mark, true);
        assert(normed == mark + t);
    } else if m.steps.len() == 1 && is_space_replace(m.steps[0]) {
        assert(m.steps.last() == m.steps[0]);
        assert(normed == t);
    } else {
        assert(normed == s);
    }
}

/// Marked text has no spaces left to mark.
proof fn lemma_marked_twice(s: Seq<u8>)
    ensures
        marked(marked(s, true), true) == marked(s, true),
    decreases s.len(),
{
    let t = marked(s, true);
    if s.len() > 0 {
        lemma_marked_twice(s.drop_last());
        let one = if s.last() == 0x20 {
            sp_mark()
        } else {
            seq![s.last()]
        };
        lemma_marked_add(marked(s.drop_last(), true), one, true);
        crate::sp::unit_laws::lemma_marked_plain(one, true);
    } else {
        assert(t =~= Seq::<u8>::empty());
    }
}

/// The direct path agrees with normalizing first: a section of raw text, where
/// it can be encoded directly, has the tokens of the text that the normalizer
/// and the marking of spaces make of it, whether it starts the document or
/// stands behind an added token. Merge rules and symbols spell what they stand
/// for, and pieces are text.
pub proof fn law_section_is_normalized(m: SpModel, s: Seq<u8>, pos: SectionPos)
    requires
        raw_prepend_of(m) is Some,
        pos != SectionPos::Continuation,
        whole_chars(s),
        text_spelled(
            m.tables,
            metaspaced(m.metaspace, norm_steps(m.steps, s), pos == SectionPos::First),
            false,
        ),
        rules_spell(m.tables.rules, m.tables.vocab),
        pieces_are_text(m.tables.vocab),
    ensures
        section_tokens(m, s, pos) == normalized_tokens(
            m,
            metaspaced(m.metaspace, norm_steps(m.steps, s), pos == SectionPos::First),
        ),
{
    let p = raw_prepend_of(m)->0;
    let v = m.tables;
    let c = cuts_of(m);
    let first = pos == SectionPos::First;
    let text = metaspaced(m.metaspace, norm_steps(m.steps, s), first);
    if s.len() == 0 {
        lemma_nothing_stays(m, first);
        assert(s =~= Seq::<u8>::empty());
        assert(units_tokens(v, c, text, 0, false, false) =~= Seq::<TokenId>::empty());
    } else {
        let prefixed = raw_prefixed(p, pos, s);
        let x = unit_key(s, prefixed);
        lemma_normalized_is_marked(m, s, pos, p);
        assert(text == marked(x, true));
        if prefixed {
            lemma_prefixed_whole(s);
            assert(x.skip(1) =~= s);
        }
        lemma_spelled_raw(v, x);
        lemma_marked_whole(x);
        lemma_init_marked(v, x);
        lemma_marked_starts(x);
        if word_split_of(m) == WordSplit::EveryMark {
            if prefixed {
                lemma_spelled_skip(v, x, 1, true);
                lemma_parts_prefixed(v, s);
            }
            law_units_are_parts(v, c, s, true, prefixed);
            law_units_are_parts(v, c, text, false, false);
            lemma_parts_marked(v, x);
        } else {
            law_units_are_whole(v, c, s, true, prefixed);
            law_units_are_whole(v, c, text, false, false);
        }
    }
}

/// No text is normalized to none, where raw text can be encoded directly.
proof fn lemma_nothing_stays(m: SpModel, first: bool)
    requires
        raw_prepend_of(m) is Some,
    ensures
        metaspaced(m.metaspace, norm_steps(m.steps, Seq::empty()), first).len() == 0,
{
    let none = Seq::<u8>::empty();
    let space = seq![0x20u8];
    assert(replaced(none, 0, space, sp_mark()) =~= none);
    if m.steps.len() == 2 {
        let head = m.steps.drop_last();
        assert(head.last() == m.steps[0]);
        assert(norm_steps(head.drop_last(), none) == none);
        assert(norm_steps(head, none) == none);
        assert(m.steps.last() == m.steps[1]);
    } else if m.steps.len() == 1 {
        assert(m.steps.last() == m.steps[0]);
        assert(norm_steps(m.steps.drop_last(), none) == none);
    }
    assert(norm_steps(m.steps, none) =~= none);
}

/// With a marking of spaces that splits, text is merged part by part, each from
/// one marker to the next.
pub proof fn law_splitting_merges_parts(m: SpModel, s: Seq<u8>)
    requires
        m.metaspace matches Some(ms) && ms.split,
        whole_chars(s),
        text_spelled(m.tables, s, false),
        rules_spell(m.tables.rules, m.tables.vocab),
    ensures
        normalized_tokens(m, s) == parts_tokens(m.tables, s, 0, false, false),
{
    assert(word_split_of(m) == WordSplit::EveryMark);
    assert(unit_key(s, false) == s);
    law_units_are_parts(m.tables, cuts_of(m), s, false, false);
}

/// Without one, text is merged as a whole: cutting it into units changes
/// nothing.
pub proof fn law_not_splitting_merges_the_whole(m: SpModel, s: Seq<u8>)
    requires
        m.metaspace is None || !m.metaspace->0.split,
        s.len() > 0,
        whole_chars(s),
        text_spelled(m.tables, s, false),
        rules_spell(m.tables.rules, m.tables.vocab),
        pieces_are_text(m.tables.vocab),
    ensures
        normalized_tokens(m, s) == bpe_merge(
            m.tables.rules,
            init_from(m.tables, s, 0, false),
        ),
{
    if word_split_of(m) != WordSplit::Whole {
        assert(unit_key(s, false) == s);
        law_units_are_whole(m.tables, cuts_of(m), s, false, false);
    }
}

/// A model that cannot encode raw text, and matches no added tokens in
/// normalized text, encodes a section as its normalized text with spaces marked:
/// as the first chunk at the start of a text and nowhere else.
pub proof fn law_other_sections_are_normalized(m: SpModel, s: Seq<u8>, pos: SectionPos)
    requires
        raw_prepend_of(m) is None,
        m.norm_added.len() == 0,
    ensures
        pos == SectionPos::First ==> section_tokens(m, s, pos) == normalized_tokens(
            m,
            metaspaced(m.metaspace, norm_steps(m.steps, s), true),
        ),
        pos != SectionPos::First ==> section_tokens(m, s, pos) == normalized_tokens(
            m,
            metaspaced(m.metaspace, norm_steps(m.steps, s), false),
        ),
{
}

} // verus!
