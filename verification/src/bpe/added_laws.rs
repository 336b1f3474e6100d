//! Added tokens are found as they stand and give their IDs.
use crate::bpe::added::{is_longest_match, lemma_match_unique, longest_match, patterns, AddedToken};
use crate::bpe::match_laws::lemma_match_is;
use crate::bpe::split_laws::lemma_encode_shift;
use crate::bpe::tiktoken::{
    after_added, all_nonempty, by_length, encode_from, encode_view, encoded, insert_by_length,
    prepared, segment_end, segment_ids, spans_ids, TokenizerView,
};
use crate::pretokenize::scheme::spans_from;
use crate::search::occurs_at;
use crate::text::{lemma_spaces_end_in, lemma_spaces_start_in, spaces_end, spaces_start};
use vstd::prelude::*;

verus! {

proof fn lemma_insert_members(s: Seq<AddedToken>, t: AddedToken)
    ensures
        insert_by_length(s, t).contains(t),
        forall|x: AddedToken| #[trigger] s.contains(x) ==> insert_by_length(s, t).contains(x),
        forall|x: AddedToken| #[trigger]
            insert_by_length(s, t).contains(x) ==> s.contains(x) || x == t,
    decreases s.len(),
{
    let r = insert_by_length(s, t);
    if s.len() == 0 || s.last().content.len() >= t.content.len() {
        assert(r[s.len() as int] == t);
        assert forall|x: AddedToken| #[trigger] s.contains(x) implies r.contains(x) by {
            let i = choose|i: int| 0 <= i < s.len() && s[i] == x;
            assert(r[i] == x);
        }
    } else {
        let head = insert_by_length(s.drop_last(), t);
        lemma_insert_members(s.drop_last(), t);
        let i = choose|i: int| 0 <= i < head.len() && head[i] == t;
        assert(r[i] == t);
        assert forall|x: AddedToken| #[trigger] s.contains(x) implies r.contains(x) by {
            let i = choose|i: int| 0 <= i < s.len() && s[i] == x;
            if i == s.len() - 1 {
                assert(r[head.len() as int] == x);
            } else {
                assert(s.drop_last()[i] == x);
                assert(s.drop_last().contains(x));
                assert(head.contains(x));
                let j = choose|j: int| 0 <= j < head.len() && head[j] == x;
                assert(r[j] == x);
            }
        }
        assert forall|x: AddedToken| #[trigger] r.contains(x) implies s.contains(x) || x == t by {
            let i = choose|i: int| 0 <= i < r.len() && r[i] == x;
            if i < head.len() {
                assert(head[i] == x);
                assert(head.contains(x));
                if x != t {
                    let j = choose|j: int| 0 <= j < s.drop_last().len() && s.drop_last()[j] == x;
                    assert(s[j] == x);
                }
            } else {
                assert(s[s.len() - 1] == x);
            }
        }
    }
}

/// The added tokens of a tokenizer are those it was given that have content.
pub proof fn law_by_length_keeps_tokens(v: Seq<AddedToken>, t: AddedToken)
    ensures
        by_length(v).contains(t) <==> v.contains(t) && t.content.len() > 0,
    decreases v.len(),
{
    let r = by_length(v);
    if v.len() > 0 {
        let head = v.drop_last();
        let last = v.last();
        law_by_length_keeps_tokens(head, t);
        lemma_insert_members(by_length(head), last);
        assert(v[v.len() - 1] == last);
        if v.contains(t) && t != last {
            let i = choose|i: int| 0 <= i < v.len() && v[i] == t;
            assert(head[i] == t);
        }
        if head.contains(t) {
            let i = choose|i: int| 0 <= i < head.len() && head[i] == t;
            assert(v[i] == t);
        }
    } else {
        assert(!r.contains(t));
        assert(!v.contains(t));
    }
}

/// Longer tokens stand before shorter ones.
pub proof fn law_by_length_is_sorted(v: Seq<AddedToken>)
    ensures
        forall|i: int, j: int|
            0 <= i < j < by_length(v).len() ==> (#[trigger] by_length(v)[i]).content.len() >= (
            #[trigger] by_length(v)[j]).content.len(),
    decreases v.len(),
{
    if v.len() > 0 {
        law_by_length_is_sorted(v.drop_last());
        if v.last().content.len() > 0 {
            lemma_insert_sorted(by_length(v.drop_last()), v.last());
        }
    }
}

proof fn lemma_insert_sorted(s: Seq<AddedToken>, t: AddedToken)
    requires
        forall|i: int, j: int|
            0 <= i < j < s.len() ==> (#[trigger] s[i]).content.len() >= (
            #[trigger] s[j]).content.len(),
    ensures
        forall|i: int, j: int|
            0 <= i < j < insert_by_length(s, t).len() ==> (#[trigger] insert_by_length(
                s,
                t,
            )[i]).content.len() >= (#[trigger] insert_by_length(s, t)[j]).content.len(),
    decreases s.len(),
{
    let r = insert_by_length(s, t);
    if s.len() == 0 || s.last().content.len() >= t.content.len() {
        assert forall|i: int, j: int| 0 <= i < j < r.len() implies (#[trigger] r[i]).content.len()
            >= (#[trigger] r[j]).content.len() by {
            if j == s.len() {
                assert(s[i].content.len() >= s[s.len() - 1].content.len()) by {
                    if i < s.len() - 1 {
                        assert(s[i].content.len() >= s[s.len() - 1].content.len());
                    }
                }
            }
        }
    } else {
        let d = s.drop_last();
        assert forall|i: int, j: int| 0 <= i < j < d.len() implies (#[trigger] d[i]).content.len()
            >= (#[trigger] d[j]).content.len() by {
            assert(s[i].content.len() >= s[j].content.len());
        }
        lemma_insert_sorted(d, t);
        lemma_insert_members(d, t);
        let head = insert_by_length(d, t);
        assert forall|i: int, j: int| 0 <= i < j < r.len() implies (#[trigger] r[i]).content.len()
            >= (#[trigger] r[j]).content.len() by {
            if j == head.len() {
                assert(r[i] == head[i]);
                assert(head.contains(head[i]));
                if head[i] != t {
                    let k = choose|k: int| 0 <= k < d.len() && d[k] == head[i];
                    assert(s[k].content.len() >= s[s.len() - 1].content.len());
                }
            } else {
                assert(head[i].content.len() >= head[j].content.len());
            }
        }
    }
}

pub proof fn lemma_nothing_encodes_to_nothing(t: TokenizerView)
    ensures
        segment_ids(t, Seq::empty()) == Seq::<u32>::empty(),
{
    let none = Seq::<u8>::empty();
    assert(prepared(t, none) =~= none);
    assert(spans_from(t.scheme, none, 0) =~= Seq::<(int, int)>::empty());
    assert(spans_ids(encode_view(t), none, Seq::empty()) =~= Seq::<u32>::empty());
}

/// A text encodes around the first added token that stands in it, the longest
/// where several start together: what stands before the token, without white
/// space at its end if the token strips it, then the ID of the token, then what
/// follows, without white space at its start if the token strips that.
pub proof fn law_added_token_divides(t: TokenizerView, s: Seq<u8>, start: int, k: int)
    requires
        all_nonempty(t.added),
        0 <= k < t.added.len(),
        occurs_at(s, t.added[k].content, start),
        forall|j: int, p: int|
            0 <= j < t.added.len() && 0 <= p < start ==> !#[trigger] occurs_at(
                s,
                t.added[j].content,
                p,
            ),
        forall|j: int|
            0 <= j < t.added.len() && j != k && #[trigger] occurs_at(
                s,
                t.added[j].content,
                start,
            ) ==> t.added[j].content.len() < t.added[k].content.len(),
    ensures
        ({
            let tok = t.added[k];
            let before = s.take(start);
            let after = s.skip(start + tok.content.len());
            encoded(t, s) == segment_ids(
                t,
                if tok.lstrip {
                    before.take(spaces_start(before, start))
                } else {
                    before
                },
            ) + seq![tok.id.0] + encoded(
                t,
                if tok.rstrip {
                    after.skip(spaces_end(after, 0))
                } else {
                    after
                },
            )
        }),
{
    let tok = t.added[k];
    let pats = patterns(t.added);
    assert(pats[k] == tok.content);
    assert(is_longest_match(pats, s, 0, start, k)) by {
        assert forall|j: int, p: int| 0 <= j < pats.len() && 0 <= p < start implies !#[trigger] occurs_at(
            s,
            pats[j],
            p,
        ) by {
            assert(pats[j] == t.added[j].content);
        }
        assert forall|j: int| 0 <= j < pats.len() && #[trigger] occurs_at(
            s,
            pats[j],
            start,
        ) implies pats[j].len() < pats[k].len() || (pats[j].len() == pats[k].len() && k <= j) by {
            assert(pats[j] == t.added[j].content);
            if j != k {
                assert(occurs_at(s, t.added[j].content, start));
            }
        }
    }
    lemma_match_unique(pats, s, 0, start, k);
    let end = start + tok.content.len();
    let next = after_added(tok, s, start);
    let before = s.take(start);
    let after = s.skip(end);
    assert(tok.content.len() > 0);
    assert(s.subrange(0, start) =~= before);
    lemma_spaces_start_in(before, start);
    lemma_spaces_end_in(after, 0);
    let b = segment_end(tok, s, 0, start);
    assert(s.subrange(0, b) =~= before.take(b));
    assert(before.take(start) =~= before);
    lemma_encode_shift(t, s, next, next);
    if tok.rstrip {
        assert(after.skip(spaces_end(after, 0)) =~= s.skip(next));
    }
    assert(encode_from(t, s.skip(next), 0) == encoded(t, s.skip(next)));
}

/// Text in which no added token stands is encoded as it is.
pub proof fn law_text_without_added_tokens(t: TokenizerView, s: Seq<u8>)
    requires
        all_nonempty(t.added),
        forall|j: int, p: int|
            0 <= j < t.added.len() && 0 <= p < s.len() ==> !#[trigger] occurs_at(
                s,
                t.added[j].content,
                p,
            ),
    ensures
        encoded(t, s) == segment_ids(t, s),
{
    let pats = patterns(t.added);
    if s.len() == 0 {
        assert(s =~= Seq::<u8>::empty());
        lemma_nothing_encodes_to_nothing(t);
    } else {
        if longest_match(pats, s, 0) is Some {
            lemma_match_is(t.added, s, 0);
        }
        assert(s.skip(0) =~= s);
    }
}

/// The content of an added token encodes to its ID alone, if no other token has
/// the same content.
pub proof fn law_added_content_is_one_token(t: TokenizerView, k: int)
    requires
        all_nonempty(t.added),
        0 <= k < t.added.len(),
        forall|j: int|
            0 <= j < t.added.len() && j != k ==> (#[trigger] t.added[j]).content
                != t.added[k].content,
    ensures
        encoded(t, t.added[k].content) == seq![t.added[k].id.0],
{
    let c = t.added[k].content;
    let none = Seq::<u8>::empty();
    assert(c.subrange(0, c.len() as int) =~= c);
    assert(occurs_at(c, t.added[k].content, 0));
    assert forall|j: int| 0 <= j < t.added.len() && j != k && #[trigger] occurs_at(
        c,
        t.added[j].content,
        0,
    ) implies t.added[j].content.len() < c.len() by {
        let d = t.added[j].content;
        if d.len() == c.len() {
            assert(c.subrange(0, d.len() as int) =~= c);
            assert(t.added[j].content != t.added[k].content);
        }
    }
    law_added_token_divides(t, c, 0, k);
    assert(c.take(0) =~= none);
    assert(none.take(0) =~= none);
    assert(c.skip(c.len() as int) =~= none);
    lemma_spaces_start_in(none, 0);
    lemma_spaces_end_in(none, 0);
    assert(none.skip(0) =~= none);
    lemma_nothing_encodes_to_nothing(t);
    assert(encoded(t, none) =~= Seq::<u32>::empty());
    assert(Seq::<u32>::empty() + seq![t.added[k].id.0] + Seq::<u32>::empty() =~= seq![
        t.added[k].id.0,
    ]);
}

} // verus!
