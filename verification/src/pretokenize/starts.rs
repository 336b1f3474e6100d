//! The positions where tokens start.
use crate::pretokenize::locality::{boundary, law_token_boundary, whole_chars};
use crate::pretokenize::scheme::{lemma_token_end, spans_from, token_end, PretokenizerType};
use vstd::prelude::*;

verus! {

/// `x` is `p`, the start of a token that follows it, or the end of the text.
pub open spec fn starts_from(t: PretokenizerType, s: Seq<u8>, p: int, x: int) -> bool
    decreases s.len() - p,
{
    if x == p {
        true
    } else if 0 <= p < s.len() && p < x {
        proof {
            lemma_token_end(t, s, p);
        }
        starts_from(t, s, token_end(t, s, p), x)
    } else {
        false
    }
}

/// A token of the text starts at `x`, or the text ends there.
pub open spec fn is_start(t: PretokenizerType, s: Seq<u8>, x: int) -> bool {
    starts_from(t, s, 0, x)
}

proof fn lemma_starts_bounds(t: PretokenizerType, s: Seq<u8>, p: int, x: int)
    requires
        0 <= p <= s.len(),
        starts_from(t, s, p, x),
    ensures
        p <= x <= s.len(),
    decreases s.len() - p,
{
    if x != p {
        lemma_token_end(t, s, p);
        lemma_starts_bounds(t, s, token_end(t, s, p), x);
    }
}

proof fn lemma_starts_step(t: PretokenizerType, s: Seq<u8>, p: int, x: int)
    requires
        0 <= p <= s.len(),
        starts_from(t, s, p, x),
        x < s.len(),
    ensures
        starts_from(t, s, p, token_end(t, s, x)),
        forall|y: int| x < y < token_end(t, s, x) ==> !#[trigger] starts_from(t, s, p, y),
    decreases s.len() - p,
{
    lemma_starts_bounds(t, s, p, x);
    lemma_token_end(t, s, p);
    lemma_token_end(t, s, x);
    let e = token_end(t, s, p);
    if x != p {
        lemma_starts_bounds(t, s, e, x);
        lemma_starts_step(t, s, e, x);
        assert forall|y: int| x < y < token_end(t, s, x) implies !#[trigger] starts_from(
            t,
            s,
            p,
            y,
        ) by {
            assert(!starts_from(t, s, e, y));
        }
    } else {
        assert(starts_from(t, s, e, e));
        assert forall|y: int| x < y < e implies !#[trigger] starts_from(t, s, p, y) by {
            if starts_from(t, s, e, y) {
                lemma_starts_bounds(t, s, e, y);
            }
        }
    }
}

/// The token that starts at a start ends at the next start.
pub proof fn law_next_start(t: PretokenizerType, s: Seq<u8>, x: int)
    requires
        is_start(t, s, x),
        x < s.len(),
    ensures
        0 <= x < token_end(t, s, x) <= s.len(),
        is_start(t, s, token_end(t, s, x)),
        forall|y: int| x < y < token_end(t, s, x) ==> !#[trigger] is_start(t, s, y),
{
    lemma_starts_bounds(t, s, 0, x);
    lemma_token_end(t, s, x);
    lemma_starts_step(t, s, 0, x);
    assert forall|y: int| x < y < token_end(t, s, x) implies !#[trigger] is_start(t, s, y) by {
        assert(!starts_from(t, s, 0, y));
    }
}

/// The first start after a start is where its token ends.
pub proof fn lemma_first_start(t: PretokenizerType, s: Seq<u8>, x: int, e: int)
    requires
        is_start(t, s, x),
        x < e <= s.len(),
        is_start(t, s, e),
        forall|y: int| x < y < e ==> !#[trigger] is_start(t, s, y),
    ensures
        token_end(t, s, x) == e,
{
    law_next_start(t, s, x);
}

proof fn lemma_starts_boundary(t: PretokenizerType, s: Seq<u8>, p: int, x: int)
    requires
        whole_chars(s),
        0 <= p <= s.len(),
        boundary(s, p),
        starts_from(t, s, p, x),
    ensures
        boundary(s, x),
    decreases s.len() - p,
{
    if x != p {
        lemma_token_end(t, s, p);
        law_token_boundary(t, s, p);
        lemma_starts_boundary(t, s, token_end(t, s, p), x);
    }
}

/// In whole text, no token starts inside a character.
pub proof fn law_starts_are_boundaries(t: PretokenizerType, s: Seq<u8>, x: int)
    requires
        whole_chars(s),
        is_start(t, s, x),
    ensures
        boundary(s, x),
{
    lemma_starts_boundary(t, s, 0, x);
}

/// A description of the starts is right if it holds of the first position and
/// steps from token to token.
pub open spec fn describes(t: PretokenizerType, s: Seq<u8>, d: spec_fn(int) -> bool) -> bool {
    &&& s.len() > 0 ==> d(0)
    &&& forall|p: int| #![trigger token_end(t, s, p)] 0 <= p < s.len() && boundary(s, p) && d(p) ==> {
        &&& token_end(t, s, p) < s.len() ==> d(token_end(t, s, p))
        &&& forall|x: int| p < x < token_end(t, s, p) ==> !#[trigger] d(x)
    }
}

proof fn lemma_described_from(
    t: PretokenizerType,
    s: Seq<u8>,
    d: spec_fn(int) -> bool,
    p: int,
    x: int,
)
    requires
        whole_chars(s),
        describes(t, s, d),
        0 <= p <= x < s.len(),
        boundary(s, p),
        d(p),
    ensures
        starts_from(t, s, p, x) == d(x),
    decreases s.len() - p,
{
    if x > p {
        lemma_token_end(t, s, p);
        law_token_boundary(t, s, p);
        let e = token_end(t, s, p);
        if x >= e {
            lemma_described_from(t, s, d, e, x);
        } else {
            if starts_from(t, s, e, x) {
                lemma_starts_bounds(t, s, e, x);
            }
        }
    }
}

/// A description that steps from token to token tells the starts.
pub proof fn lemma_described(t: PretokenizerType, s: Seq<u8>, d: spec_fn(int) -> bool, x: int)
    requires
        whole_chars(s),
        describes(t, s, d),
        0 <= x < s.len(),
    ensures
        is_start(t, s, x) == d(x),
{
    lemma_described_from(t, s, d, 0, x);
}

/// Tokens that follow each other without a gap from `from` to `to`.
#[verifier::opaque]
pub open spec fn token_chain(
    t: PretokenizerType,
    s: Seq<u8>,
    cuts: Seq<(int, int)>,
    from: int,
    to: int,
) -> bool {
    &&& 0 <= from <= to <= s.len()
    &&& cuts.len() == 0 ==> from == to
    &&& cuts.len() > 0 ==> cuts[0].0 == from && cuts.last().1 == to
    &&& forall|i: int| 0 <= i < cuts.len() ==> from <= (#[trigger] cuts[i]).0 < cuts[i].1 <= to
    &&& forall|i: int| 0 < i < cuts.len() ==> (#[trigger] cuts[i]).0 == cuts[i - 1].1
    &&& forall|i: int|
        0 <= i < cuts.len() ==> (#[trigger] cuts[i]).1 == token_end(t, s, cuts[i].0)
}

/// A chain lies within the text.
pub proof fn lemma_chain_bounds(
    t: PretokenizerType,
    s: Seq<u8>,
    cuts: Seq<(int, int)>,
    from: int,
    to: int,
)
    requires
        token_chain(t, s, cuts, from, to),
    ensures
        0 <= from <= to <= s.len(),
{
    reveal(token_chain);
}

/// A chain without spans.
pub proof fn lemma_chain_empty(t: PretokenizerType, s: Seq<u8>, from: int)
    requires
        0 <= from <= s.len(),
    ensures
        token_chain(t, s, Seq::empty(), from, from),
{
    reveal(token_chain);
}

/// One span of a chain.
pub proof fn lemma_chain_at(
    t: PretokenizerType,
    s: Seq<u8>,
    cuts: Seq<(int, int)>,
    from: int,
    to: int,
    i: int,
)
    requires
        token_chain(t, s, cuts, from, to),
        0 <= i < cuts.len(),
    ensures
        from <= cuts[i].0 < cuts[i].1 <= to,
        cuts[i].1 == token_end(t, s, cuts[i].0),
{
    reveal(token_chain);
}

/// One more span at the end of a chain.
pub proof fn lemma_chain_push(
    t: PretokenizerType,
    s: Seq<u8>,
    cuts: Seq<(int, int)>,
    from: int,
    to: int,
    e: int,
)
    requires
        token_chain(t, s, cuts, from, to),
        to < e <= s.len(),
        e == token_end(t, s, to),
    ensures
        token_chain(t, s, cuts.push((to, e)), from, e),
{
    reveal(token_chain);
    let v = cuts.push((to, e));
    assert forall|i: int| 0 <= i < v.len() implies from <= (#[trigger] v[i]).0 < v[i].1 <= e by {
        if i < cuts.len() {
            assert(v[i] == cuts[i]);
        }
    }
    assert forall|i: int| 0 < i < v.len() implies (#[trigger] v[i]).0 == v[i - 1].1 by {
        if i < cuts.len() {
            assert(v[i] == cuts[i]);
        }
    }
    assert forall|i: int| 0 <= i < v.len() implies (#[trigger] v[i]).1 == token_end(
        t,
        s,
        v[i].0,
    ) by {
        if i < cuts.len() {
            assert(v[i] == cuts[i]);
        }
    }
}

proof fn lemma_chain_rest(
    t: PretokenizerType,
    s: Seq<u8>,
    cuts: Seq<(int, int)>,
    from: int,
    to: int,
)
    requires
        token_chain(t, s, cuts, from, to),
        cuts.len() > 0,
    ensures
        0 <= from < s.len(),
        cuts[0].0 == from,
        cuts[0].1 == token_end(t, s, from),
        token_chain(t, s, cuts.drop_first(), cuts[0].1, to),
{
    reveal(token_chain);
    let e = cuts[0].1;
    let d = cuts.drop_first();
    assert(forall|i: int| 0 <= i < d.len() ==> #[trigger] d[i] == cuts[i + 1]);
    assert forall|i: int| 0 <= i < d.len() implies e <= (#[trigger] d[i]).0 < d[i].1 <= to by {
        lemma_chain_order(t, s, cuts, from, to, i + 1);
    }
    if d.len() > 0 {
        assert(d.last() == cuts.last());
        assert(cuts[1].0 == cuts[1 - 1].1);
    } else {
        assert(cuts.last() == cuts[0]);
    }
}

/// A chain holds the first tokens from where it starts.
pub proof fn law_chain_is_tokens(
    t: PretokenizerType,
    s: Seq<u8>,
    cuts: Seq<(int, int)>,
    from: int,
    to: int,
)
    requires
        token_chain(t, s, cuts, from, to),
    ensures
        spans_from(t, s, from) == cuts + spans_from(t, s, to),
    decreases cuts.len(),
{
    let rest = spans_from(t, s, to);
    if cuts.len() == 0 {
        reveal(token_chain);
        assert(cuts + rest =~= rest);
    } else {
        let e = cuts[0].1;
        let d = cuts.drop_first();
        lemma_chain_rest(t, s, cuts, from, to);
        law_chain_is_tokens(t, s, d, e, to);
        assert(cuts =~= seq![(from, e)] + d);
        assert(seq![(from, e)] + (d + rest) =~= cuts + rest);
    }
}

proof fn lemma_chain_order(
    t: PretokenizerType,
    s: Seq<u8>,
    cuts: Seq<(int, int)>,
    from: int,
    to: int,
    i: int,
)
    requires
        token_chain(t, s, cuts, from, to),
        0 < i < cuts.len(),
    ensures
        cuts[0].1 <= cuts[i].0,
    decreases i,
{
    reveal(token_chain);
    assert(cuts[i].0 == cuts[i - 1].1);
    if i > 1 {
        lemma_chain_order(t, s, cuts, from, to, i - 1);
    }
}

} // verus!
