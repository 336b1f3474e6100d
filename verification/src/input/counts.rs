//! Counting pretokens.
use crate::bytes_map::{lists_entries, BytesMap};
use crate::input::documents::{
    as_ints, boundaries, chunk_boundaries, documents, law_parts_hold_all_documents, part_documents,
    unbordered, DocumentIter,
};
use crate::pretokenize::scheme::{
    as_spans, law_spans_partition, pretokenize_as_iter, spans_from, PretokenizerType,
};
use vstd::prelude::*;

verus! {

/// How many of the spans hold exactly `key`.
pub open spec fn span_count(s: Seq<u8>, spans: Seq<(int, int)>, key: Seq<u8>) -> int
    decreases spans.len(),
{
    if spans.len() == 0 {
        0
    } else {
        span_count(s, spans.drop_last(), key) + if s.subrange(spans.last().0, spans.last().1)
            == key {
            1int
        } else {
            0
        }
    }
}

/// How often `key` is a pretoken of a document.
pub open spec fn pretoken_count(doc: Seq<u8>, key: Seq<u8>) -> int {
    span_count(doc, spans_from(PretokenizerType::GPT2, doc, 0), key)
}

/// How often `key` is a pretoken of the documents.
pub open spec fn documents_count(s: Seq<u8>, docs: Seq<(int, int)>, key: Seq<u8>) -> int
    decreases docs.len(),
{
    if docs.len() == 0 {
        0
    } else {
        documents_count(s, docs.drop_last(), key) + pretoken_count(
            s.subrange(docs.last().0, docs.last().1),
            key,
        )
    }
}

/// A count as it is held: at most the greatest number.
pub open spec fn held(n: int) -> int {
    if n > usize::MAX {
        usize::MAX as int
    } else {
        n
    }
}

/// The count of `key`; 0 when it is not there.
pub open spec fn count_of(m: Map<Seq<u8>, usize>, key: Seq<u8>) -> int {
    if m.contains_key(key) {
        m[key] as int
    } else {
        0
    }
}

/// Every key has the count that `f` says, and those with none are not there.
pub open spec fn holds_counts(m: Map<Seq<u8>, usize>, f: spec_fn(Seq<u8>) -> int) -> bool {
    forall|k: Seq<u8>|
        {
            &&& #[trigger] m.contains_key(k) == (f(k) > 0)
            &&& count_of(m, k) == held(f(k))
        }
}

/// How often each pretoken occurs.
pub struct PretokenCounts {
    map: BytesMap<usize>,
}

impl PretokenCounts {
    /// The count of each pretoken.
    pub closed spec fn view(&self) -> Map<Seq<u8>, usize> {
        self.map@
    }

    /// No counts.
    pub fn new() -> (r: Self)
        ensures
            r@ == Map::<Seq<u8>, usize>::empty(),
    {
        PretokenCounts { map: BytesMap::new() }
    }

    /// The count of a pretoken.
    pub fn get(&self, key: &[u8]) -> (n: usize)
        ensures
            n == count_of(self@, key@),
    {
        match self.map.get(key) {
            Some(n) => n,
            None => 0,
        }
    }

    /// Adds `n` to the count of `key`.
    fn raise(&mut self, key: &[u8], n: usize)
        ensures
            forall|k: Seq<u8>|
                {
                    &&& #[trigger] final(self)@.contains_key(k) == (old(self)@.contains_key(k) || k
                        == key@)
                    &&& count_of(final(self)@, k) == if k == key@ {
                        held(count_of(old(self)@, k) + n)
                    } else {
                        count_of(old(self)@, k)
                    }
                },
    {
        let was: usize = self.get(key);
        self.map.insert(key, was.saturating_add(n));
    }

    /// The pretokens with their counts.
    pub fn entries(&self) -> (r: Vec<(Vec<u8>, usize)>)
        ensures
            lists_entries(r@, self@),
    {
        self.map.entries()
    }

    /// Adds every pretoken of `doc`.
    pub fn count_pretokens(&mut self, doc: &[u8])
        ensures
            forall|k: Seq<u8>|
                {
                    &&& #[trigger] final(self)@.contains_key(k) == (old(self)@.contains_key(k)
                        || pretoken_count(doc@, k) > 0)
                    &&& count_of(final(self)@, k) == held(
                        count_of(old(self)@, k) + pretoken_count(doc@, k),
                    )
                },
    {
        let spans: Vec<(usize, usize)> = pretokenize_as_iter(doc);
        let ghost all = spans_from(PretokenizerType::GPT2, doc@, 0);
        let ghost before = self@;
        let mut i: usize = 0;
        proof {
            law_spans_partition(PretokenizerType::GPT2, doc@, 0);
            assert(all.take(0) =~= Seq::<(int, int)>::empty());
        }
        while i < spans.len()
            invariant
                i <= spans@.len(),
                as_spans(spans@) == all,
                all.len() == spans@.len(),
                forall|j: int|
                    0 <= j < all.len() ==> 0 <= (#[trigger] all[j]).0 <= all[j].1 <= doc@.len(),
                forall|k: Seq<u8>|
                    {
                        &&& #[trigger] self@.contains_key(k) == (before.contains_key(k)
                            || span_count(doc@, all.take(i as int), k) > 0)
                        &&& count_of(self@, k) == held(
                            count_of(before, k) + span_count(doc@, all.take(i as int), k),
                        )
                    },
            decreases spans@.len() - i,
        {
            proof {
                assert(all[i as int] == (spans@[i as int].0 as int, spans@[i as int].1 as int));
                assert(all.take(i + 1).drop_last() =~= all.take(i as int));
                assert(all.take(i + 1).last() == all[i as int]);
            }
            let ghost now = self@;
            let key = vstd::slice::slice_subrange(doc, spans[i].0, spans[i].1);
            self.raise(key, 1);
            proof {
                assert forall|k: Seq<u8>|
                    {
                        &&& #[trigger] self@.contains_key(k) == (before.contains_key(k)
                            || span_count(doc@, all.take(i + 1), k) > 0)
                        &&& count_of(self@, k) == held(
                            count_of(before, k) + span_count(doc@, all.take(i + 1), k),
                        )
                    } by {
                    assert(now.contains_key(k) || !now.contains_key(k));
                    lemma_span_count(doc@, all.take(i as int), k);
                }
            }
            i += 1;
        }
        proof {
            assert(all.take(i as int) =~= all);
        }
    }

    /// Adds all counts of another.
    pub fn merge_counts(&mut self, other: &PretokenCounts)
        ensures
            forall|k: Seq<u8>|
                {
                    &&& #[trigger] final(self)@.contains_key(k) == (old(self)@.contains_key(k)
                        || other@.contains_key(k))
                    &&& count_of(final(self)@, k) == held(
                        count_of(old(self)@, k) + count_of(other@, k),
                    )
                },
    {
        let es: Vec<(Vec<u8>, usize)> = other.entries();
        let ghost before = self@;
        let mut i: usize = 0;
        while i < es.len()
            invariant
                i <= es@.len(),
                lists_entries(es@, other@),
                forall|k: Seq<u8>|
                    {
                        &&& #[trigger] self@.contains_key(k) == (before.contains_key(k)
                            || entry_before(es@, i as int, k))
                        &&& count_of(self@, k) == if entry_before(es@, i as int, k) {
                            held(count_of(before, k) + count_of(other@, k))
                        } else {
                            count_of(before, k)
                        }
                    },
            decreases es@.len() - i,
        {
            let ghost now = self@;
            self.raise(es[i].0.as_slice(), es[i].1);
            proof {
                let x = es@[i as int].0@;
                assert(other@.contains_key(x) && other@[x] == es@[i as int].1);
                assert(!entry_before(es@, i as int, x)) by {
                    if entry_before(es@, i as int, x) {
                        let j = choose|j: int| 0 <= j < i && (#[trigger] es@[j]).0@ == x;
                        assert(es@[j].0@ != es@[i as int].0@);
                    }
                }
                assert forall|k: Seq<u8>|
                    {
                        &&& #[trigger] self@.contains_key(k) == (before.contains_key(k)
                            || entry_before(es@, i + 1, k))
                        &&& count_of(self@, k) == if entry_before(es@, i + 1, k) {
                            held(count_of(before, k) + count_of(other@, k))
                        } else {
                            count_of(before, k)
                        }
                    } by {
                    assert(now.contains_key(k) || !now.contains_key(k));
                    if entry_before(es@, i as int, k) {
                        let j = choose|j: int| 0 <= j < i && (#[trigger] es@[j]).0@ == k;
                        assert(es@[j].0@ == k);
                    }
                    if entry_before(es@, i + 1, k) && k != x {
                        let j = choose|j: int| 0 <= j < i + 1 && (#[trigger] es@[j]).0@ == k;
                        assert(j < i);
                    }
                    if k == x {
                        assert(entry_before(es@, i + 1, k));
                    }
                }
            }
            i += 1;
        }
        proof {
            assert forall|k: Seq<u8>| #[trigger] other@.contains_key(k) == entry_before(
                es@,
                es@.len() as int,
                k,
            ) by {
                if other@.contains_key(k) {
                    let j = choose|j: int| 0 <= j < es@.len() && (#[trigger] es@[j]).0@ == k;
                    assert(es@[j].0@ == k);
                }
            }
            assert forall|k: Seq<u8>|
                {
                    &&& #[trigger] self@.contains_key(k) == (before.contains_key(k)
                        || other@.contains_key(k))
                    &&& count_of(self@, k) == held(count_of(before, k) + count_of(other@, k))
                } by {
                assert(other@.contains_key(k) == entry_before(es@, es@.len() as int, k));
            }
        }
    }
}

/// `k` is the key of one of the first `n` entries.
spec fn entry_before(es: Seq<(Vec<u8>, usize)>, n: int, k: Seq<u8>) -> bool {
    exists|j: int| 0 <= j < n && (#[trigger] es[j]).0@ == k
}

pub proof fn lemma_span_count(s: Seq<u8>, spans: Seq<(int, int)>, key: Seq<u8>)
    ensures
        span_count(s, spans, key) >= 0,
    decreases spans.len(),
{
    if spans.len() > 0 {
        lemma_span_count(s, spans.drop_last(), key);
    }
}

proof fn lemma_documents_count(s: Seq<u8>, docs: Seq<(int, int)>, key: Seq<u8>)
    ensures
        documents_count(s, docs, key) >= 0,
    decreases docs.len(),
{
    if docs.len() > 0 {
        lemma_documents_count(s, docs.drop_last(), key);
        let d = s.subrange(docs.last().0, docs.last().1);
        lemma_span_count(d, spans_from(PretokenizerType::GPT2, d, 0), key);
    }
}

/// Counts over two lists of documents add up.
pub proof fn law_counts_add(s: Seq<u8>, a: Seq<(int, int)>, b: Seq<(int, int)>, key: Seq<u8>)
    ensures
        documents_count(s, a + b, key) == documents_count(s, a, key) + documents_count(s, b, key),
    decreases b.len(),
{
    if b.len() == 0 {
        assert(a + b =~= a);
    } else {
        assert((a + b).drop_last() =~= a + b.drop_last());
        assert((a + b).last() == b.last());
        law_counts_add(s, a, b.drop_last(), key);
    }
}

/// Counts the pretokens of the documents from `start` to `end`.
pub fn count_range(bytes: &[u8], separator: &[u8], start: usize, end: usize) -> (r: PretokenCounts)
    requires
        start <= end <= bytes@.len(),
    ensures
        holds_counts(
            r@,
            |k: Seq<u8>|
                documents_count(
                    bytes@,
                    documents(bytes@, separator@, start as int, end as int),
                    k,
                ),
        ),
{
    let ghost s = bytes@;
    let ghost all = documents(bytes@, separator@, start as int, end as int);
    let mut r = PretokenCounts::new();
    let mut docs = DocumentIter::new_range(bytes, separator, start, end);
    let ghost mut done: Seq<(int, int)> = Seq::empty();
    let mut more = true;
    proof {
        assert(done + docs.left() =~= all);
    }
    while more
        invariant
            docs.text() == s,
            done + docs.left() == all,
            !more ==> done == all,
            holds_counts(r@, |k: Seq<u8>| documents_count(s, done, k)),
        decreases docs.left().len(), if more { 1int } else { 0int },
    {
        let ghost left = docs.left();
        match docs.next_document() {
            Some(d) => {
                let ghost now = r@;
                let ghost before = done;
                let ghost f = |k: Seq<u8>| documents_count(s, before, k);
                r.count_pretokens(d);
                proof {
                    done = before.push(left[0]);
                    assert(done.drop_last() =~= before);
                    assert(done + docs.left() =~= before + left);
                    let g = |k: Seq<u8>| documents_count(s, done, k);
                    assert forall|k: Seq<u8>|
                        {
                            &&& #[trigger] r@.contains_key(k) == (g(k) > 0)
                            &&& count_of(r@, k) == held(g(k))
                        } by {
                        assert(now.contains_key(k) == (f(k) > 0));
                        lemma_documents_count(s, before, k);
                        lemma_span_count(d@, spans_from(PretokenizerType::GPT2, d@, 0), k);
                    }
                }
            },
            None => {
                more = false;
                proof {
                    assert(done + left =~= done);
                }
            },
        }
    }
    r
}

/// Counts the pretokens of the documents between separators, part by part:
/// each of up to `parts` parts is counted on its own and added to the rest.
pub fn pretokenize_par_bytes(bytes: &[u8], separator: &[u8], parts: usize) -> (r: PretokenCounts)
    ensures
        holds_counts(
            r@,
            |k: Seq<u8>|
                documents_count(
                    bytes@,
                    part_documents(
                        bytes@,
                        separator@,
                        boundaries(bytes@, separator@, parts as int),
                    ),
                    k,
                ),
        ),
        unbordered(separator@) ==> holds_counts(
            r@,
            |k: Seq<u8>|
                documents_count(
                    bytes@,
                    documents(bytes@, separator@, 0, bytes@.len() as int),
                    k,
                ),
        ),
{
    let ghost s = bytes@;
    let ghost sep = separator@;
    let bounds: Vec<usize> = chunk_boundaries(bytes, separator, parts);
    let ghost all = as_ints(bounds@);
    let mut r = PretokenCounts::new();
    let mut i: usize = 1;
    proof {
        if all.len() >= 1 {
            assert(part_documents(s, sep, all.take(1)) =~= Seq::<(int, int)>::empty());
        }
    }
    while i < bounds.len()
        invariant
            1 <= i,
            i <= bounds@.len() || bounds@.len() == 0,
            all == as_ints(bounds@),
            s == bytes@,
            sep == separator@,
            forall|j: int| 0 <= j < bounds@.len() ==> #[trigger] bounds@[j] <= s.len(),
            bounds@.len() > 0 ==> holds_counts(
                r@,
                |k: Seq<u8>| documents_count(s, part_documents(s, sep, all.take(i as int)), k),
            ),
            bounds@.len() == 0 ==> r@ == Map::<Seq<u8>, usize>::empty(),
        decreases bounds@.len() - i,
    {
        let a: usize = bounds[i - 1];
        let b: usize = bounds[i];
        let ghost now = r@;
        let ghost head = part_documents(s, sep, all.take(i as int));
        let ghost tail = documents(s, sep, a as int, b as int);
        let ghost f = |k: Seq<u8>| documents_count(s, head, k);
        let ghost g = |k: Seq<u8>| documents_count(s, tail, k);
        if a <= b {
            let part = count_range(bytes, separator, a, b);
            let ghost other = part@;
            r.merge_counts(&part);
            proof {
                let next = |k: Seq<u8>|
                    documents_count(s, part_documents(s, sep, all.take(i + 1)), k);
                assert(all.take(i + 1).drop_last() =~= all.take(i as int));
                assert(part_documents(s, sep, all.take(i + 1)) == head + tail);
                assert forall|k: Seq<u8>|
                    {
                        &&& #[trigger] r@.contains_key(k) == (next(k) > 0)
                        &&& count_of(r@, k) == held(next(k))
                    } by {
                    assert(now.contains_key(k) == (f(k) > 0));
                    assert(other.contains_key(k) == (g(k) > 0));
                    law_counts_add(s, head, tail, k);
                    lemma_documents_count(s, head, k);
                    lemma_documents_count(s, tail, k);
                }
            }
        } else {
            proof {
                assert(tail =~= Seq::<(int, int)>::empty());
                assert(all.take(i + 1).drop_last() =~= all.take(i as int));
                assert(part_documents(s, sep, all.take(i + 1)) =~= head);
            }
        }
        i += 1;
    }
    proof {
        if bounds@.len() > 0 {
            assert(all.take(i as int) =~= all);
        }
        if unbordered(sep) {
            law_parts_hold_all_documents(s, sep, parts as int);
        }
        if bounds@.len() == 0 {
            assert(part_documents(s, sep, all) =~= Seq::<(int, int)>::empty());
        }
    }
    r
}

} // verus!
