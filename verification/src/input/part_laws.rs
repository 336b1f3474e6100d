//! Where the parts of a text start and end.
use crate::input::documents::{
    boundaries, boundaries_from, deduped, first_from, lemma_first_from, lemma_first_is,
};
use crate::search::occurs_at;
use vstd::prelude::*;

verus! {

/// `f` is where the first separator from `from` on starts.
pub open spec fn is_first_separator(s: Seq<u8>, sep: Seq<u8>, from: int, f: int) -> bool {
    &&& from <= f
    &&& occurs_at(s, sep, f)
    &&& forall|j: int| from <= j < f ==> !#[trigger] occurs_at(s, sep, j)
}

proof fn lemma_deduped(v: Seq<int>, x: int)
    ensures
        deduped(v).contains(x) <==> v.contains(x),
        v.len() > 0 ==> deduped(v).len() > 0 && deduped(v)[0] == v[0] && deduped(v).last()
            == v.last(),
    decreases v.len(),
{
    if v.len() > 1 {
        let d = v.drop_last();
        lemma_deduped(d, x);
        assert(d.last() == v[v.len() - 2]);
        if v.contains(x) {
            let i = choose|i: int| 0 <= i < v.len() && v[i] == x;
            if i < d.len() {
                assert(d[i] == x);
            } else {
                assert(deduped(v).last() == x);
                assert(deduped(v)[deduped(v).len() - 1] == x);
            }
        }
        if d.contains(x) {
            let i = choose|i: int| 0 <= i < d.len() && d[i] == x;
            assert(v[i] == x);
            let k = choose|k: int| 0 <= k < deduped(d).len() && deduped(d)[k] == x;
            assert(deduped(v)[k] == x);
        }
        if deduped(v).contains(x) {
            let k = choose|k: int| 0 <= k < deduped(v).len() && deduped(v)[k] == x;
            if k < deduped(d).len() {
                assert(deduped(d)[k] == x);
            } else {
                assert(v[v.len() - 1] == x);
            }
        }
    }
}

proof fn lemma_boundaries_from(s: Seq<u8>, sep: Seq<u8>, n: int, i: int, k: int, f: int)
    requires
        1 <= i <= k < n,
        sep.len() > 0,
        is_first_separator(s, sep, k * (s.len() as int / n), f),
    ensures
        boundaries_from(s, sep, n, i).contains(f + sep.len()),
    decreases k - i,
{
    let len = s.len() as int;
    let share = len / n;
    assert(share >= 0) by (nonlinear_arith)
        requires
            share == len / n,
            len >= 0,
            n > 0,
    ;
    assert(i * share <= k * share) by (nonlinear_arith)
        requires
            i <= k,
            share >= 0,
    ;
    assert(i * share >= 0) by (nonlinear_arith)
        requires
            i >= 1,
            share >= 0,
    ;
    lemma_first_from(s, sep, i * share, len);
    let v = boundaries_from(s, sep, n, i);
    if i == k {
        lemma_first_is(s, sep, i * share, len, f);
        assert(v[0] == f + sep.len());
    } else {
        lemma_boundaries_from(s, sep, n, i + 1, k, f);
        let rest = boundaries_from(s, sep, n, i + 1);
        let j = choose|j: int| 0 <= j < rest.len() && rest[j] == f + sep.len();
        if first_from(s, sep, i * share, len) is None {
            assert(!occurs_at(s, sep, f));
        }
        assert(v[j + 1] == f + sep.len());
    }
}

proof fn lemma_boundary_source(s: Seq<u8>, sep: Seq<u8>, n: int, i: int, x: int) -> (k: int)
    requires
        1 <= i <= n,
        boundaries_from(s, sep, n, i).contains(x),
    ensures
        i <= k < n,
        is_first_separator(s, sep, k * (s.len() as int / n), x - sep.len()),
    decreases n - i,
{
    let len = s.len() as int;
    let share = len / n;
    let v = boundaries_from(s, sep, n, i);
    let j = choose|j: int| 0 <= j < v.len() && v[j] == x;
    lemma_first_from(s, sep, i * share, len);
    if j == 0 {
        i
    } else {
        assert(boundaries_from(s, sep, n, i + 1)[j - 1] == x);
        lemma_boundary_source(s, sep, n, i + 1, x)
    }
}

/// A text is cut into parts from its start to its end. Inside, a part ends right
/// behind the first separator from each share of the text on, and nowhere else.
pub proof fn law_parts_end_behind_separators(s: Seq<u8>, sep: Seq<u8>, n: int, x: int)
    requires
        0 < n,
        0 < sep.len(),
        0 < s.len(),
    ensures
        boundaries(s, sep, n)[0] == 0,
        boundaries(s, sep, n).last() == s.len(),
        boundaries(s, sep, n).contains(x) <==> x == 0 || x == s.len() || exists|k: int|
            1 <= k < n && #[trigger] is_first_separator(
                s,
                sep,
                k * (s.len() as int / n),
                x - sep.len(),
            ),
{
    let inner = if n > 1 {
        boundaries_from(s, sep, n, 1)
    } else {
        Seq::empty()
    };
    let v = seq![0int] + inner + seq![s.len() as int];
    lemma_deduped(v, x);
    assert(v[0] == 0);
    assert(v[v.len() - 1] == s.len());
    if v.contains(x) {
        let i = choose|i: int| 0 <= i < v.len() && v[i] == x;
        if 0 < i < v.len() - 1 {
            assert(inner[i - 1] == x);
            let k = lemma_boundary_source(s, sep, n, 1, x);
            assert(is_first_separator(s, sep, k * (s.len() as int / n), x - sep.len()));
        }
    }
    if exists|k: int|
        1 <= k < n && #[trigger] is_first_separator(
            s,
            sep,
            k * (s.len() as int / n),
            x - sep.len(),
        ) {
        let k = choose|k: int|
            1 <= k < n && #[trigger] is_first_separator(
                s,
                sep,
                k * (s.len() as int / n),
                x - sep.len(),
            );
        lemma_boundaries_from(s, sep, n, 1, k, x - sep.len());
        let j = choose|j: int| 0 <= j < inner.len() && inner[j] == x;
        assert(v[j + 1] == x);
    }
}

} // verus!
