//! Documents between separators.
use crate::search::{find, occurs_at};
use vstd::prelude::*;

verus! {

/// The first occurrence of `sep` in `s` from `p` on, up to `end`.
pub open spec fn first_from(s: Seq<u8>, sep: Seq<u8>, p: int, end: int) -> Option<int>
    decreases end - p + 1,
{
    if p + sep.len() > end {
        None
    } else if occurs_at(s, sep, p) {
        Some(p)
    } else {
        first_from(s, sep, p + 1, end)
    }
}

/// The first occurrence is one, and nothing occurs before it.
pub proof fn lemma_first_from(s: Seq<u8>, sep: Seq<u8>, p: int, end: int)
    ensures
        match first_from(s, sep, p, end) {
            Some(f) => p <= f && f + sep.len() <= end && occurs_at(s, sep, f) && forall|j: int|
                p <= j < f ==> !#[trigger] occurs_at(s, sep, j),
            None => forall|j: int|
                p <= j && j + sep.len() <= end ==> !#[trigger] occurs_at(s, sep, j),
        },
    decreases end - p + 1,
{
    if p + sep.len() <= end && !occurs_at(s, sep, p) {
        lemma_first_from(s, sep, p + 1, end);
    }
}

/// An occurrence before which there is none is the first.
pub proof fn lemma_first_is(s: Seq<u8>, sep: Seq<u8>, p: int, end: int, f: int)
    requires
        p <= f,
        f + sep.len() <= end,
        occurs_at(s, sep, f),
        forall|j: int| p <= j < f ==> !#[trigger] occurs_at(s, sep, j),
    ensures
        first_from(s, sep, p, end) == Some(f),
    decreases f - p,
{
    if p < f {
        lemma_first_is(s, sep, p + 1, end, f);
    }
}

/// The first occurrence of a separator that is not empty.
pub open spec fn next_separator(s: Seq<u8>, sep: Seq<u8>, p: int, end: int) -> Option<int> {
    if sep.len() == 0 {
        None
    } else {
        first_from(s, sep, p, end)
    }
}

/// The documents from `p` to `end`: what stands between separators, without
/// empty ones. An empty separator separates nothing.
pub open spec fn documents(s: Seq<u8>, sep: Seq<u8>, p: int, end: int) -> Seq<(int, int)>
    decreases end - p,
    via documents_decreases
{
    if p >= end {
        Seq::empty()
    } else {
        match next_separator(s, sep, p, end) {
            None => seq![(p, end)],
            Some(f) => if p < f {
                seq![(p, f)] + documents(s, sep, f + sep.len(), end)
            } else {
                documents(s, sep, f + sep.len(), end)
            },
        }
    }
}

#[via_fn]
proof fn documents_decreases(s: Seq<u8>, sep: Seq<u8>, p: int, end: int) {
    lemma_first_from(s, sep, p, end);
}

/// Finds the next separator.
fn find_separator(bytes: &[u8], separator: &[u8], p: usize, end: usize) -> (r: Option<usize>)
    requires
        p <= end <= bytes@.len(),
    ensures
        match r {
            Some(f) => next_separator(bytes@, separator@, p as int, end as int) == Some(f as int),
            None => next_separator(bytes@, separator@, p as int, end as int) is None,
        },
        r matches Some(f) ==> p <= f && f + separator@.len() <= end,
{
    if separator.len() == 0 {
        return None;
    }
    let ghost s = bytes@;
    let rest = vstd::slice::slice_subrange(bytes, p, end);
    match find(rest, separator) {
        Some(off) => {
            proof {
                let n = separator@.len();
                assert(rest@.subrange(off as int, off + n) =~= s.subrange(p + off, p + off + n));
                assert forall|j: int| p <= j < p + off implies !#[trigger] occurs_at(
                    s,
                    separator@,
                    j,
                ) by {
                    if occurs_at(s, separator@, j) {
                        assert(rest@.subrange(j - p, j - p + n) =~= s.subrange(j, j + n));
                        assert(occurs_at(rest@, separator@, j - p));
                    }
                }
                lemma_first_is(s, separator@, p as int, end as int, p + off);
            }
            Some(p + off)
        },
        None => {
            proof {
                lemma_first_from(s, separator@, p as int, end as int);
                if first_from(s, separator@, p as int, end as int) is Some {
                    let f = first_from(s, separator@, p as int, end as int)->0;
                    let n = separator@.len();
                    assert(rest@.subrange(f - p, f - p + n) =~= s.subrange(f, f + n));
                    assert(occurs_at(rest@, separator@, f - p));
                }
            }
            None
        },
    }
}

/// Walks the documents of a byte slice.
pub struct DocumentIter<'a> {
    bytes: &'a [u8],
    separator: &'a [u8],
    position: usize,
    end: usize,
}

impl<'a> DocumentIter<'a> {
    /// The text that is walked.
    pub closed spec fn text(&self) -> Seq<u8> {
        self.bytes@
    }

    /// The documents that are left.
    pub closed spec fn left(&self) -> Seq<(int, int)> {
        documents(self.bytes@, self.separator@, self.position as int, self.end as int)
    }

    #[verifier::type_invariant]
    spec fn wf(&self) -> bool {
        self.position <= self.end <= self.bytes@.len()
    }

    /// Walks all documents of `bytes`.
    pub fn new(bytes: &'a [u8], separator: &'a [u8]) -> (r: Self)
        ensures
            r.text() == bytes@,
            r.left() == documents(bytes@, separator@, 0, bytes@.len() as int),
    {
        DocumentIter { bytes, separator, position: 0, end: bytes.len() }
    }

    /// Walks the documents from `start` to `end`.
    pub fn new_range(bytes: &'a [u8], separator: &'a [u8], start: usize, end: usize) -> (r: Self)
        requires
            start <= end <= bytes@.len(),
        ensures
            r.text() == bytes@,
            r.left() == documents(bytes@, separator@, start as int, end as int),
    {
        DocumentIter { bytes, separator, position: start, end }
    }

    /// The next document.
    pub fn next_document(&mut self) -> (r: Option<&'a [u8]>)
        ensures
            final(self).text() == old(self).text(),
            match r {
                Some(d) => {
                    &&& old(self).left().len() > 0
                    &&& d@ == old(self).text().subrange(
                        old(self).left()[0].0,
                        old(self).left()[0].1,
                    )
                    &&& final(self).left() == old(self).left().drop_first()
                },
                None => old(self).left().len() == 0 && final(self).left().len() == 0,
            },
    {
        proof {
            use_type_invariant(&*self);
        }
        let bytes = self.bytes;
        let separator = self.separator;
        let end: usize = self.end;
        let ghost all = self.left();
        let mut p: usize = self.position;
        while p < end
            invariant
                p <= end <= bytes@.len(),
                self.bytes == bytes,
                self.separator == separator,
                self.end == end,
                self.text() == old(self).text(),
                old(self).text() == bytes@,
                old(self).left() == all,
                documents(bytes@, separator@, p as int, end as int) == all,
            decreases end - p,
        {
            match find_separator(bytes, separator, p, end) {
                Some(f) => {
                    let start: usize = p;
                    p = f + separator.len();
                    if start < f {
                        self.position = p;
                        proof {
                            assert(all.drop_first() =~= documents(
                                bytes@,
                                separator@,
                                p as int,
                                end as int,
                            ));
                        }
                        return Some(vstd::slice::slice_subrange(bytes, start, f));
                    }
                },
                None => {
                    self.position = end;
                    proof {
                        assert(all.drop_first() =~= Seq::<(int, int)>::empty());
                    }
                    return Some(vstd::slice::slice_subrange(bytes, p, end));
                },
            }
        }
        self.position = p;
        None
    }
}

// Cutting at separators.

/// No end of `sep` is also its start, so that occurrences never overlap.
pub open spec fn unbordered(sep: Seq<u8>) -> bool {
    forall|k: int| 0 < k < sep.len() ==> sep.skip(k) != #[trigger] sep.take(sep.len() - k)
}

proof fn lemma_no_overlap(s: Seq<u8>, sep: Seq<u8>, i: int, j: int)
    requires
        unbordered(sep),
        occurs_at(s, sep, i),
        occurs_at(s, sep, j),
        i < j,
    ensures
        i + sep.len() <= j,
{
    if j < i + sep.len() {
        let k = j - i;
        let a = s.subrange(i, i + sep.len());
        let b = s.subrange(j, j + sep.len());
        assert(sep.skip(k) =~= sep.take(sep.len() - k)) by {
            assert forall|x: int| 0 <= x < sep.len() - k implies sep.skip(k)[x] == sep.take(
                sep.len() - k,
            )[x] by {
                assert(a[k + x] == s[j + x]);
                assert(b[x] == s[j + x]);
            }
        }
    }
}

/// Documents divide at the end of a separator, whether or not that separator
/// is left out before it.
pub proof fn law_documents_divide(s: Seq<u8>, sep: Seq<u8>, p: int, f: int, end: int)
    requires
        sep.len() > 0,
        unbordered(sep),
        0 <= p <= f,
        f + sep.len() <= end <= s.len(),
        occurs_at(s, sep, f),
    ensures
        documents(s, sep, p, end) == documents(s, sep, p, f) + documents(
            s,
            sep,
            f + sep.len(),
            end,
        ),
        documents(s, sep, p, f + sep.len()) == documents(s, sep, p, f),
    decreases f - p,
{
    let n = sep.len() as int;
    let b = f + n;
    lemma_first_from(s, sep, p, end);
    let g = first_from(s, sep, p, end)->0;
    let tail = documents(s, sep, b, end);
    if g < f {
        lemma_no_overlap(s, sep, g, f);
        lemma_first_is(s, sep, p, f, g);
        lemma_first_is(s, sep, p, b, g);
        law_documents_divide(s, sep, g + n, f, end);
        let mid = documents(s, sep, g + n, f);
        assert(documents(s, sep, p, f) == if p < g {
            seq![(p, g)] + mid
        } else {
            mid
        });
        assert(documents(s, sep, p, b) == if p < g {
            seq![(p, g)] + documents(s, sep, g + n, b)
        } else {
            documents(s, sep, g + n, b)
        });
        assert(documents(s, sep, p, end) == if p < g {
            seq![(p, g)] + documents(s, sep, g + n, end)
        } else {
            documents(s, sep, g + n, end)
        });
        assert((seq![(p, g)] + mid) + tail =~= seq![(p, g)] + (mid + tail));
    } else {
        assert(g == f);
        lemma_first_is(s, sep, p, b, f);
        lemma_first_from(s, sep, p, f);
        if first_from(s, sep, p, f) is Some {
            let h = first_from(s, sep, p, f)->0;
            assert(!occurs_at(s, sep, h));
        }
        assert(documents(s, sep, b, b) =~= Seq::<(int, int)>::empty());
        if p < f {
            assert(documents(s, sep, p, f) =~= seq![(p, f)]);
            assert(documents(s, sep, p, b) =~= seq![(p, f)] + documents(s, sep, b, b));
        } else {
            assert(documents(s, sep, p, f) =~= Seq::<(int, int)>::empty());
        }
        assert(documents(s, sep, p, end) =~= documents(s, sep, p, f) + tail);
    }
}

/// The boundaries after position 0 of up to `n` parts, from part `i` on: each
/// right after the first separator from the part's share on.
pub open spec fn boundaries_from(s: Seq<u8>, sep: Seq<u8>, n: int, i: int) -> Seq<int>
    decreases n - i,
{
    if i >= n {
        Seq::empty()
    } else {
        match first_from(s, sep, i * (s.len() as int / n), s.len() as int) {
            None => Seq::empty(),
            Some(f) => seq![f + sep.len()] + boundaries_from(s, sep, n, i + 1),
        }
    }
}

/// Without repeated neighbours.
pub open spec fn deduped(v: Seq<int>) -> Seq<int>
    decreases v.len(),
{
    if v.len() <= 1 {
        v
    } else if v[v.len() - 2] == v.last() {
        deduped(v.drop_last())
    } else {
        deduped(v.drop_last()).push(v.last())
    }
}

/// The boundaries of up to `n` parts, from 0 to the length.
pub open spec fn boundaries(s: Seq<u8>, sep: Seq<u8>, n: int) -> Seq<int> {
    deduped(
        seq![0int] + (if n > 1 && s.len() > 0 && sep.len() > 0 {
            boundaries_from(s, sep, n, 1)
        } else {
            Seq::empty()
        }) + seq![s.len() as int],
    )
}

/// The values of a list of positions.
pub open spec fn as_ints(v: Seq<usize>) -> Seq<int> {
    v.map_values(|x: usize| x as int)
}

/// Appends a boundary unless it repeats the last one.
fn push_boundary(v: &mut Vec<usize>, b: usize, all: Ghost<Seq<int>>)
    requires
        as_ints(old(v)@) == deduped(all@),
        all@.len() > 0,
        old(v)@.len() > 0,
        old(v)@.last() == all@.last(),
    ensures
        as_ints(final(v)@) == deduped(all@.push(b as int)),
        final(v)@.len() > 0,
        final(v)@.last() == b,
        forall|i: int|
            0 <= i < final(v)@.len() ==> #[trigger] final(v)@[i] == b || (i < old(v)@.len()
                && final(v)@[i] == old(v)@[i]),
{
    let n: usize = v.len();
    let ghost before = v@;
    proof {
        assert(all@.push(b as int).drop_last() =~= all@);
    }
    if v[n - 1] != b {
        v.push(b);
        proof {
            assert(as_ints(v@) =~= as_ints(before).push(b as int));
        }
    }
}

/// Boundaries that cut `bytes` into up to `n` ranges, each ending right after
/// a separator, from 0 to the length.
pub fn chunk_boundaries(bytes: &[u8], separator: &[u8], n: usize) -> (r: Vec<usize>)
    ensures
        as_ints(r@) == boundaries(bytes@, separator@, n as int),
        forall|i: int| 0 <= i < r@.len() ==> #[trigger] r@[i] <= bytes@.len(),
{
    let ghost s = bytes@;
    let mut r: Vec<usize> = Vec::new();
    r.push(0);
    let total: usize = bytes.len();
    let ghost mut all: Seq<int> = seq![0int];
    proof {
        assert(as_ints(r@) =~= deduped(all));
    }
    if n > 1 && total > 0 && separator.len() > 0 {
        let size: usize = total / n;
        let mut i: usize = 1;
        let mut more = true;
        let ghost rest = boundaries_from(s, separator@, n as int, 1);
        proof {
            assert(all + rest == seq![0int] + rest);
        }
        while more && i < n
            invariant
                s == bytes@,
                total == s.len(),
                n > 1,
                1 <= i <= n,
                size == total as int / n as int,
                separator@.len() > 0,
                rest == boundaries_from(s, separator@, n as int, 1),
                more ==> all + boundaries_from(s, separator@, n as int, i as int) == seq![0int] + rest,
                !more ==> all == seq![0int] + rest,
                as_ints(r@) == deduped(all),
                all.len() > 0,
                r@.len() > 0,
                r@.last() == all.last(),
                forall|k: int| 0 <= k < r@.len() ==> #[trigger] r@[k] <= total,
            decreases n - i, if more { 1int } else { 0int },
        {
            proof {
                assert(i * size <= total) by (nonlinear_arith)
                    requires
                        i <= n,
                        size == total as int / n as int,
                        n > 1,
                        0 <= i,
                        0 <= total,
                ;
            }
            let target: usize = i * size;
            match find_separator(bytes, separator, target, total) {
                Some(f) => {
                    let ghost before = all;
                    push_boundary(&mut r, f + separator.len(), Ghost(before));
                    proof {
                        all = before.push(f + separator@.len());
                        assert(all + boundaries_from(s, separator@, n as int, i + 1) =~= before
                            + boundaries_from(s, separator@, n as int, i as int));
                    }
                    i += 1;
                },
                None => {
                    more = false;
                    proof {
                        assert(all + Seq::<int>::empty() =~= all);
                    }
                },
            }
        }
        proof {
            if more {
                assert(all + Seq::<int>::empty() =~= all);
            }
            assert(all =~= seq![0int] + rest);
        }
    } else {
        proof {
            assert(all =~= seq![0int] + Seq::<int>::empty());
        }
    }
    push_boundary(&mut r, total, Ghost(all));
    proof {
        assert(all.push(total as int) =~= all + seq![s.len() as int]);
    }
    r
}

/// Walks the documents of up to `n` parts, one part each.
pub fn par_document_chunks<'a>(bytes: &'a [u8], separator: &'a [u8], n: usize) -> (r: Vec<
    DocumentIter<'a>,
>)
    ensures
        ({
            let b = boundaries(bytes@, separator@, n as int);
            &&& r@.len() == (if b.len() > 0 {
                b.len() - 1
            } else {
                0
            })
            &&& forall|i: int|
                0 <= i < r@.len() ==> (#[trigger] r@[i]).text() == bytes@ && r@[i].left()
                    == documents(bytes@, separator@, b[i], b[i + 1])
        }),
{
    let bounds = chunk_boundaries(bytes, separator, n);
    let ghost b = as_ints(bounds@);
    let mut r: Vec<DocumentIter<'a>> = Vec::new();
    let mut i: usize = 0;
    let count: usize = bounds.len();
    proof {
        assert(b.len() == bounds@.len());
    }
    while count > 0 && i < count - 1
        invariant
            b == as_ints(bounds@),
            b.len() == bounds@.len(),
            count == bounds@.len(),
            i < count || i == 0,
            r@.len() == i,
            forall|k: int| 0 <= k < bounds@.len() ==> #[trigger] bounds@[k] <= bytes@.len(),
            forall|k: int|
                0 <= k < i ==> (#[trigger] r@[k]).text() == bytes@ && r@[k].left() == documents(
                    bytes@,
                    separator@,
                    b[k],
                    b[k + 1],
                ),
        decreases bounds@.len() - i,
    {
        let end: usize = bounds[i + 1];
        let start: usize = if bounds[i] <= end {
            bounds[i]
        } else {
            end
        };
        r.push(DocumentIter::new_range(bytes, separator, start, end));
        proof {
            assert(b[i as int] == bounds@[i as int]);
            assert(b[i + 1] == bounds@[i + 1]);
            assert(r@[i as int].left() =~= documents(bytes@, separator@, b[i as int], b[i + 1]));
        }
        i += 1;
    }
    r
}

/// The documents of consecutive parts.
pub open spec fn part_documents(s: Seq<u8>, sep: Seq<u8>, bounds: Seq<int>) -> Seq<(int, int)>
    decreases bounds.len(),
{
    if bounds.len() < 2 {
        Seq::empty()
    } else {
        part_documents(s, sep, bounds.drop_last()) + documents(
            s,
            sep,
            bounds[bounds.len() - 2],
            bounds.last(),
        )
    }
}

/// Boundaries in order from 0, each but the first and perhaps the last right
/// after a separator.
spec fn aligned(s: Seq<u8>, sep: Seq<u8>, v: Seq<int>) -> bool {
    &&& v.len() > 0
    &&& v[0] == 0
    &&& forall|i: int|
        1 <= i < v.len() ==> #[trigger] v[i] >= sep.len() && v[i] <= s.len() && occurs_at(
            s,
            sep,
            v[i] - sep.len(),
        )
    &&& forall|i: int, j: int| 0 <= i <= j < v.len() ==> #[trigger] v[i] <= #[trigger] v[j]
}

proof fn lemma_parts_up_to(s: Seq<u8>, sep: Seq<u8>, v: Seq<int>)
    requires
        sep.len() > 0,
        unbordered(sep),
        aligned(s, sep, v),
    ensures
        part_documents(s, sep, v) == documents(s, sep, 0, v.last()),
        part_documents(s, sep, deduped(v)) == part_documents(s, sep, v),
        deduped(v).len() > 0,
        deduped(v).last() == v.last(),
    decreases v.len(),
{
    if v.len() == 1 {
        assert(documents(s, sep, 0, 0) =~= Seq::<(int, int)>::empty());
    } else {
        let d = v.drop_last();
        let a = v[v.len() - 2];
        let b = v.last();
        assert(aligned(s, sep, d)) by {
            assert forall|i: int| 1 <= i < d.len() implies #[trigger] d[i] >= sep.len() && d[i]
                <= s.len() && occurs_at(s, sep, d[i] - sep.len()) by {
                assert(v[i] == d[i]);
            }
            assert forall|i: int, j: int| 0 <= i <= j < d.len() implies #[trigger] d[i]
                <= #[trigger] d[j] by {
                assert(v[i] <= v[j]);
            }
        }
        lemma_parts_up_to(s, sep, d);
        assert(d.last() == a);
        assert(v[v.len() - 2] <= v[v.len() - 1]);
        assert(v[v.len() - 1] == b);
        let dd = deduped(d);
        if a == b {
            assert(documents(s, sep, a, b) =~= Seq::<(int, int)>::empty());
            assert(part_documents(s, sep, v) =~= part_documents(s, sep, d));
        } else {
            if v.len() > 2 {
                assert(occurs_at(s, sep, v[v.len() - 2] - sep.len()));
                law_documents_divide(s, sep, 0, a - sep.len(), b);
            } else {
                assert(documents(s, sep, 0, 0) =~= Seq::<(int, int)>::empty());
                assert(part_documents(s, sep, v) =~= documents(s, sep, 0, b));
            }
            let w = dd.push(b);
            assert(w.drop_last() =~= dd);
            assert(w[w.len() - 2] == dd.last());
        }
    }
}

proof fn lemma_boundaries_aligned(s: Seq<u8>, sep: Seq<u8>, n: int, i: int, head: Seq<int>)
    requires
        sep.len() > 0,
        n > 1,
        1 <= i <= n,
        aligned(s, sep, head),
        i < n ==> (head.len() == 1 || (first_from(s, sep, (i - 1) * (s.len() as int / n), s.len() as int)
            matches Some(f) && head.last() == f + sep.len())),
    ensures
        aligned(s, sep, head + boundaries_from(s, sep, n, i)),
    decreases n - i,
{
    if i < n {
        let size = s.len() as int / n;
        let t = i * size;
        assert(0 <= t && (i - 1) * size <= t) by (nonlinear_arith)
            requires
                t == i * size,
                i >= 1,
                size == s.len() as int / n,
                n > 1,
                s.len() >= 0,
        ;
        lemma_first_from(s, sep, t, s.len() as int);
        match first_from(s, sep, t, s.len() as int) {
            None => {
                assert(head + Seq::<int>::empty() =~= head);
            },
            Some(f) => {
                let b = f + sep.len();
                let h = head.push(b);
                lemma_first_from(s, sep, (i - 1) * size, s.len() as int);
                assert(head.last() <= b) by {
                    if head.len() > 1 {
                        let g = first_from(s, sep, (i - 1) * size, s.len() as int)->0;
                        if f < g {
                            assert(!occurs_at(s, sep, f));
                        }
                    }
                }
                assert(aligned(s, sep, h)) by {
                    assert forall|k: int| 1 <= k < h.len() implies #[trigger] h[k] >= sep.len()
                        && h[k] <= s.len() && occurs_at(s, sep, h[k] - sep.len()) by {
                        if k < head.len() {
                            assert(head[k] == h[k]);
                        }
                    }
                    assert forall|x: int, y: int| 0 <= x <= y < h.len() implies #[trigger] h[x]
                        <= #[trigger] h[y] by {
                        if y < head.len() {
                            assert(head[x] <= head[y]);
                        } else if x < head.len() {
                            assert(head[x] <= head[head.len() - 1]);
                        }
                    }
                }
                lemma_boundaries_aligned(s, sep, n, i + 1, h);
                assert(h + boundaries_from(s, sep, n, i + 1) =~= head + boundaries_from(
                    s,
                    sep,
                    n,
                    i,
                ));
            },
        }
    } else {
        assert(head + Seq::<int>::empty() =~= head);
    }
}

/// The documents of the parts that `chunk_boundaries` cuts, one part after the
/// other, are the documents of the whole.
pub proof fn law_parts_hold_all_documents(s: Seq<u8>, sep: Seq<u8>, n: int)
    requires
        unbordered(sep),
    ensures
        part_documents(s, sep, boundaries(s, sep, n)) == documents(s, sep, 0, s.len() as int),
{
    let len = s.len() as int;
    let none = Seq::<(int, int)>::empty();
    if n > 1 && s.len() > 0 && sep.len() > 0 {
        let head = seq![0int];
        lemma_boundaries_aligned(s, sep, n, 1, head);
        let v = head + boundaries_from(s, sep, n, 1);
        lemma_parts_up_to(s, sep, v);
        let w = v + seq![len];
        assert(w.drop_last() =~= v);
        let dd = deduped(v);
        let a = v.last();
        assert(a <= len) by {
            if v.len() > 1 {
                assert(v[v.len() - 1] <= s.len());
            }
        }
        if a == len {
            assert(w[w.len() - 2] == a);
        } else {
            assert(w[w.len() - 2] == a);
            let x = dd.push(len);
            assert(x.drop_last() =~= dd);
            assert(x[x.len() - 2] == a);
            if v.len() > 1 {
                assert(occurs_at(s, sep, v[v.len() - 1] - sep.len()));
                law_documents_divide(s, sep, 0, a - sep.len(), len);
            } else {
                assert(documents(s, sep, 0, 0) =~= none);
                assert(part_documents(s, sep, x) =~= documents(s, sep, 0, len));
            }
        }
    } else {
        let w = seq![0int] + Seq::<int>::empty() + seq![len];
        assert(w.drop_last() =~= seq![0int]);
        assert(deduped(seq![0int]) =~= seq![0int]);
        if len == 0 {
            assert(deduped(w) =~= seq![0int]);
            assert(documents(s, sep, 0, 0) =~= none);
        } else {
            let x = seq![0int].push(len);
            assert(deduped(w) =~= x);
            assert(x.drop_last() =~= seq![0int]);
            assert(part_documents(s, sep, seq![0int]) =~= none);
            assert(part_documents(s, sep, x) =~= documents(s, sep, 0, len));
        }
    }
}

} // verus!
