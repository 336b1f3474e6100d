//! Matching added tokens in parts of a text.
use crate::bpe::added::{
    is_longest_match, lemma_match_exists, lemma_match_none, lemma_match_unique, longest_match,
    patterns, AddedToken,
};
use crate::bpe::tiktoken::all_nonempty;
use crate::search::occurs_at;
use vstd::prelude::*;

verus! {

/// What a match is.
pub proof fn lemma_match_is(toks: Seq<AddedToken>, s: Seq<u8>, from: int)
    requires
        all_nonempty(toks),
        longest_match(patterns(toks), s, from) is Some,
    ensures
        ({
            let (start, k) = longest_match(patterns(toks), s, from)->0;
            &&& is_longest_match(patterns(toks), s, from, start, k)
            &&& 0 <= k < toks.len()
            &&& patterns(toks)[k] == toks[k].content
            &&& toks[k].content.len() > 0
            &&& from <= start
            &&& occurs_at(s, toks[k].content, start)
        }),
{
    let (start, k) = choose|start: int, k: int|
        is_longest_match(patterns(toks), s, from, start, k);
    assert(is_longest_match(patterns(toks), s, from, start, k));
}

/// No occurrence of a token straddles `p`.
pub open spec fn unstraddled(toks: Seq<AddedToken>, s: Seq<u8>, p: int) -> bool {
    forall|k: int, i: int|
        0 <= k < toks.len() && i < p && #[trigger] occurs_at(s, toks[k].content, i) ==> i
            + toks[k].content.len() <= p
}

/// Occurrences in the text up to `p`.
pub proof fn lemma_occurs_take(s: Seq<u8>, w: Seq<u8>, p: int, i: int)
    requires
        0 <= p <= s.len(),
    ensures
        occurs_at(s.take(p), w, i) == (occurs_at(s, w, i) && i + w.len() <= p),
{
    if 0 <= i && i + w.len() <= p {
        assert(s.take(p).subrange(i, i + w.len()) =~= s.subrange(i, i + w.len()));
    }
}

/// Occurrences in the text from `p` on.
pub proof fn lemma_occurs_skip(s: Seq<u8>, w: Seq<u8>, p: int, i: int)
    requires
        0 <= p <= s.len(),
    ensures
        occurs_at(s.skip(p), w, i) == (occurs_at(s, w, i + p) && i >= 0),
{
    if 0 <= i && i + p + w.len() <= s.len() {
        assert(s.skip(p).subrange(i, i + w.len()) =~= s.subrange(i + p, i + p + w.len()));
    }
}

/// The match in the text from `p` on.
pub proof fn lemma_match_skip(toks: Seq<AddedToken>, s: Seq<u8>, p: int, from: int, from2: int)
    requires
        0 <= p <= s.len(),
        all_nonempty(toks),
        from <= from2,
        p <= from2,
        forall|k: int, i: int|
            0 <= k < toks.len() && from <= i < from2 ==> !#[trigger] occurs_at(
                s,
                toks[k].content,
                i,
            ),
    ensures
        match longest_match(patterns(toks), s, from) {
            None => longest_match(patterns(toks), s.skip(p), from2 - p) is None,
            Some((start, k)) => start >= from2 && longest_match(patterns(toks), s.skip(p), from2 - p)
                == Some((start - p, k)),
        },
{
    let pats = patterns(toks);
    let t = s.skip(p);
    match longest_match(pats, s, from) {
        None => {
            assert forall|j: int, q: int|
                0 <= j < pats.len() && from2 - p <= q <= t.len() implies !#[trigger] occurs_at(
                t,
                pats[j],
                q,
            ) by {
                if occurs_at(t, pats[j], q) {
                    lemma_occurs_skip(s, pats[j], p, q);
                    lemma_match_exists(pats, s, from, q + p, j);
                }
            }
            lemma_match_none(pats, t, from2 - p);
        },
        Some((start, k)) => {
            lemma_match_is(toks, s, from);
            assert(occurs_at(s, toks[k].content, start));
            lemma_occurs_skip(s, pats[k], p, start - p);
            assert(is_longest_match(pats, t, from2 - p, start - p, k)) by {
                assert forall|j: int, q: int|
                    0 <= j < pats.len() && from2 - p <= q < start - p implies !#[trigger] occurs_at(
                    t,
                    pats[j],
                    q,
                ) by {
                    lemma_occurs_skip(s, pats[j], p, q);
                    assert(!occurs_at(s, pats[j], q + p));
                }
                assert forall|j: int|
                    0 <= j < pats.len() && #[trigger] occurs_at(
                        t,
                        pats[j],
                        start - p,
                    ) implies pats[j].len() < pats[k].len() || (pats[j].len() == pats[k].len() && k
                    <= j) by {
                    lemma_occurs_skip(s, pats[j], p, start - p);
                    assert(occurs_at(s, pats[j], start));
                }
            }
            lemma_match_unique(pats, t, from2 - p, start - p, k);
        },
    }
}

/// The match in the text up to `p`.
pub proof fn lemma_match_take(toks: Seq<AddedToken>, s: Seq<u8>, p: int, from: int)
    requires
        0 <= p <= s.len(),
        all_nonempty(toks),
        unstraddled(toks, s, p),
    ensures
        match longest_match(patterns(toks), s, from) {
            None => longest_match(patterns(toks), s.take(p), from) is None,
            Some((start, k)) => longest_match(patterns(toks), s.take(p), from) == if start < p {
                Some((start, k))
            } else {
                None
            },
        },
{
    let pats = patterns(toks);
    let t = s.take(p);
    let found = longest_match(pats, s, from);
    if found is Some && (found->0).0 < p {
        let (start, k) = found->0;
        lemma_match_is(toks, s, from);
        assert(occurs_at(s, toks[k].content, start));
        lemma_occurs_take(s, pats[k], p, start);
        assert(is_longest_match(pats, t, from, start, k)) by {
            assert forall|j: int, q: int|
                0 <= j < pats.len() && from <= q < start implies !#[trigger] occurs_at(
                t,
                pats[j],
                q,
            ) by {
                lemma_occurs_take(s, pats[j], p, q);
                assert(!occurs_at(s, pats[j], q));
            }
            assert forall|j: int|
                0 <= j < pats.len() && #[trigger] occurs_at(t, pats[j], start) implies pats[j].len()
                < pats[k].len() || (pats[j].len() == pats[k].len() && k <= j) by {
                lemma_occurs_take(s, pats[j], p, start);
                assert(occurs_at(s, pats[j], start));
            }
        }
        lemma_match_unique(pats, t, from, start, k);
    } else {
        assert forall|j: int, q: int|
            0 <= j < pats.len() && from <= q <= t.len() implies !#[trigger] occurs_at(
            t,
            pats[j],
            q,
        ) by {
            if occurs_at(t, pats[j], q) {
                lemma_occurs_take(s, pats[j], p, q);
                assert(pats[j] == toks[j].content);
                if found is None {
                    lemma_match_exists(pats, s, from, q, j);
                } else {
                    lemma_match_is(toks, s, from);
                    assert(!occurs_at(s, pats[j], q));
                }
            }
        }
        lemma_match_none(pats, t, from);
    }
}

} // verus!
