//! The token rows of chunks and how they join to the rows of documents.
use vstd::prelude::*;

verus! {

/// Rows one after the other.
pub open spec fn flat(rows: Seq<Seq<u32>>) -> Seq<u32>
    decreases rows.len(),
{
    if rows.len() == 0 {
        Seq::empty()
    } else {
        flat(rows.drop_last()) + rows.last()
    }
}

/// The lengths of rows.
pub open spec fn row_lens(rows: Seq<Seq<u32>>) -> Seq<int> {
    rows.map_values(|r: Seq<u32>| r.len() as int)
}

/// Rows behind rows; with `continues`, the first goes on with the last row
/// before it.
pub open spec fn join(acc: Seq<Seq<u32>>, rows: Seq<Seq<u32>>, continues: bool) -> Seq<Seq<u32>> {
    if continues && rows.len() > 0 {
        acc.drop_last().push(acc.last() + rows[0]) + rows.drop_first()
    } else {
        acc + rows
    }
}

/// The rows of one chunk, and whether its first row goes on with the last one
/// of the chunk before.
pub struct ChunkRows {
    pub rows: Seq<Seq<u32>>,
    pub continues: bool,
}

/// Chunks joined behind `acc`.
pub open spec fn joined_from(acc: Seq<Seq<u32>>, v: Seq<ChunkRows>) -> Seq<Seq<u32>>
    decreases v.len(),
{
    if v.len() == 0 {
        acc
    } else {
        joined_from(join(acc, v[0].rows, v[0].continues), v.drop_first())
    }
}

/// The rows of documents that chunks make.
pub open spec fn joined(v: Seq<ChunkRows>) -> Seq<Seq<u32>> {
    joined_from(Seq::empty(), v)
}

/// A chunk that continues a row has one to continue.
pub open spec fn continuable_from(acc: Seq<Seq<u32>>, v: Seq<ChunkRows>) -> bool
    decreases v.len(),
{
    v.len() == 0 || {
        &&& v[0].continues && v[0].rows.len() > 0 ==> acc.len() > 0
        &&& continuable_from(join(acc, v[0].rows, v[0].continues), v.drop_first())
    }
}

/// The tokens of all chunks.
pub open spec fn chunk_ids(v: Seq<ChunkRows>) -> Seq<u32>
    decreases v.len(),
{
    if v.len() == 0 {
        Seq::empty()
    } else {
        chunk_ids(v.drop_last()) + flat(v.last().rows)
    }
}

/// Rows flatten in order.
pub proof fn lemma_flat_add(a: Seq<Seq<u32>>, b: Seq<Seq<u32>>)
    ensures
        flat(a + b) == flat(a) + flat(b),
    decreases b.len(),
{
    if b.len() == 0 {
        assert(a + b =~= a);
        assert(flat(a) + flat(b) =~= flat(a));
    } else {
        assert((a + b).drop_last() =~= a + b.drop_last());
        lemma_flat_add(a, b.drop_last());
        assert(flat(a + b) =~= flat(a) + flat(b));
    }
}

/// One more row.
pub proof fn lemma_flat_push(rows: Seq<Seq<u32>>, r: Seq<u32>)
    ensures
        flat(rows.push(r)) == flat(rows) + r,
{
    assert(rows.push(r).drop_last() =~= rows);
}

/// Joining keeps the order of the tokens.
pub proof fn lemma_flat_join(acc: Seq<Seq<u32>>, rows: Seq<Seq<u32>>, continues: bool)
    requires
        continues && rows.len() > 0 ==> acc.len() > 0,
    ensures
        flat(join(acc, rows, continues)) == flat(acc) + flat(rows),
{
    if continues && rows.len() > 0 {
        let head = acc.drop_last();
        let mid = acc.last() + rows[0];
        let rest = rows.drop_first();
        lemma_flat_add(head.push(mid), rest);
        lemma_flat_push(head, mid);
        assert(rows =~= seq![rows[0]] + rest);
        lemma_flat_add(seq![rows[0]], rest);
        assert(flat(seq![rows[0]]) =~= rows[0]) by {
            assert(seq![rows[0]] =~= Seq::<Seq<u32>>::empty().push(rows[0]));
            lemma_flat_push(Seq::empty(), rows[0]);
            assert(flat(Seq::<Seq<u32>>::empty()) =~= Seq::<u32>::empty());
            assert(Seq::<u32>::empty() + rows[0] =~= rows[0]);
        }
        assert((flat(head) + (acc.last() + rows[0])) + flat(rest) =~= (flat(head) + acc.last()) + (
        rows[0] + flat(rest)));
    } else {
        lemma_flat_add(acc, rows);
    }
}

/// Chunks join one list after the other.
pub proof fn lemma_joined_add(acc: Seq<Seq<u32>>, a: Seq<ChunkRows>, b: Seq<ChunkRows>)
    ensures
        joined_from(acc, a + b) == joined_from(joined_from(acc, a), b),
        continuable_from(acc, a + b) == (continuable_from(acc, a) && continuable_from(
            joined_from(acc, a),
            b,
        )),
    decreases a.len(),
{
    if a.len() == 0 {
        assert(a + b =~= b);
    } else {
        assert((a + b).drop_first() =~= a.drop_first() + b);
        assert((a + b)[0] == a[0]);
        lemma_joined_add(join(acc, a[0].rows, a[0].continues), a.drop_first(), b);
    }
}

/// The rows of documents hold the tokens of the chunks, in order.
pub proof fn law_rows_hold_all_tokens(acc: Seq<Seq<u32>>, v: Seq<ChunkRows>)
    requires
        continuable_from(acc, v),
    ensures
        flat(joined_from(acc, v)) == flat(acc) + chunk_ids(v),
    decreases v.len(),
{
    if v.len() == 0 {
        assert(flat(acc) + chunk_ids(v) =~= flat(acc));
    } else {
        let a = v.drop_last();
        let b = seq![v.last()];
        assert(v =~= a + b);
        lemma_joined_add(acc, a, b);
        law_rows_hold_all_tokens(acc, a);
        let mid = joined_from(acc, a);
        let c = v.last();
        assert(b[0] == c);
        assert(b.drop_first() =~= Seq::<ChunkRows>::empty());
        assert(joined_from(mid, b) == join(mid, c.rows, c.continues)) by {
            assert(joined_from(join(mid, c.rows, c.continues), b.drop_first()) == join(
                mid,
                c.rows,
                c.continues,
            ));
        }
        lemma_flat_join(mid, c.rows, c.continues);
        assert((flat(acc) + chunk_ids(a)) + flat(c.rows) =~= flat(acc) + (chunk_ids(a) + flat(
            c.rows,
        )));
    }
}

/// The tokens of one encoded chunk: its rows one after the other, their
/// lengths, and whether the first goes on with the last row of the chunk
/// before.
pub struct ChunkTokens {
    pub ids: Vec<u32>,
    pub lens: Vec<usize>,
    pub continues: bool,
}

/// The values of lengths.
pub open spec fn as_lens(v: Seq<usize>) -> Seq<int> {
    v.map_values(|n: usize| n as int)
}

/// Tokens cut into rows of given lengths.
pub open spec fn cut_rows(ids: Seq<u32>, lens: Seq<usize>) -> Seq<Seq<u32>>
    decreases lens.len(),
{
    if lens.len() == 0 {
        Seq::empty()
    } else {
        let at = ids.len() - lens.last();
        cut_rows(ids.take(at), lens.drop_last()).push(ids.skip(at))
    }
}

impl View for ChunkTokens {
    type V = ChunkRows;

    /// The rows of the chunk.
    open spec fn view(&self) -> ChunkRows {
        ChunkRows { rows: cut_rows(self.ids@, self.lens@), continues: self.continues }
    }
}

impl ChunkTokens {
    /// The lengths are those of the rows that the tokens make up.
    pub open spec fn wf(&self) -> bool {
        &&& self.ids@ == flat(self@.rows)
        &&& as_lens(self.lens@) == row_lens(self@.rows)
    }

    /// The chunk holds these rows.
    pub open spec fn holds(&self, c: ChunkRows) -> bool {
        &&& self.ids@ == flat(c.rows)
        &&& as_lens(self.lens@) == row_lens(c.rows)
        &&& self.continues == c.continues
    }
}

proof fn lemma_cut_rows(ids: Seq<u32>, lens: Seq<usize>, rows: Seq<Seq<u32>>)
    requires
        ids == flat(rows),
        as_lens(lens) == row_lens(rows),
    ensures
        cut_rows(ids, lens) == rows,
    decreases rows.len(),
{
    assert(as_lens(lens).len() == lens.len());
    assert(row_lens(rows).len() == rows.len());
    if rows.len() == 0 {
        assert(cut_rows(ids, lens) =~= rows);
    } else {
        let k = lens.len() - 1;
        assert(as_lens(lens)[k] == row_lens(rows)[k]);
        assert(as_lens(lens)[k] == lens[k]);
        assert(row_lens(rows)[k] == rows[k].len());
        let at = ids.len() - lens.last();
        assert(ids.take(at) =~= flat(rows.drop_last()));
        assert(ids.skip(at) =~= rows.last());
        assert(as_lens(lens.drop_last()) =~= row_lens(rows.drop_last())) by {
            assert forall|i: int| 0 <= i < lens.len() - 1 implies as_lens(lens.drop_last())[i]
                == row_lens(rows.drop_last())[i] by {
                assert(as_lens(lens)[i] == row_lens(rows)[i]);
                assert(as_lens(lens)[i] == lens[i]);
                assert(row_lens(rows)[i] == rows[i].len());
            }
        }
        lemma_cut_rows(ids.take(at), lens.drop_last(), rows.drop_last());
        assert(cut_rows(ids, lens) =~= rows);
    }
}

/// A chunk that holds rows has them as its view.
pub proof fn lemma_holds_view(c: ChunkTokens, v: ChunkRows)
    requires
        c.holds(v),
    ensures
        c@ == v,
        c.wf(),
{
    lemma_cut_rows(c.ids@, c.lens@, v.rows);
}

/// The rows of encoded chunks.
pub open spec fn views(outs: Seq<ChunkTokens>) -> Seq<ChunkRows> {
    outs.map_values(|c: ChunkTokens| c@)
}

/// Every chunk is well formed.
pub open spec fn all_wf(outs: Seq<ChunkTokens>) -> bool {
    forall|i: int| 0 <= i < outs.len() ==> (#[trigger] outs[i]).wf()
}

/// Encoded chunks hold these rows.
spec fn all_hold(outs: Seq<ChunkTokens>, v: Seq<ChunkRows>) -> bool {
    &&& outs.len() == v.len()
    &&& forall|i: int| 0 <= i < v.len() ==> (#[trigger] outs[i]).holds(v[i])
}

proof fn lemma_views_hold(outs: Seq<ChunkTokens>)
    requires
        all_wf(outs),
    ensures
        all_hold(outs, views(outs)),
{
    assert forall|i: int| 0 <= i < outs.len() implies (#[trigger] outs[i]).holds(views(outs)[i]) by {
        assert(outs[i].wf());
    }
}

/// A row is part of the tokens.
proof fn lemma_row_part(rows: Seq<Seq<u32>>, i: int)
    requires
        0 <= i < rows.len(),
    ensures
        rows[i].len() <= flat(rows).len(),
    decreases rows.len(),
{
    if i < rows.len() - 1 {
        lemma_row_part(rows.drop_last(), i);
        assert(rows.drop_last()[i] == rows[i]);
    }
}

/// The row lengths of documents: those of the chunks, with rows that go on
/// counted to the row they go on with.
pub fn row_counts(outs: &Vec<ChunkTokens>) -> (counts: Vec<usize>)
    requires
        all_wf(outs@),
        continuable_from(Seq::empty(), views(outs@)),
        chunk_ids(views(outs@)).len() <= usize::MAX,
    ensures
        as_lens(counts@) == row_lens(joined(views(outs@))),
{
    let ghost v = views(outs@);
    proof {
        lemma_views_hold(outs@);
    }
    let mut counts: Vec<usize> = Vec::new();
    let ghost mut acc: Seq<Seq<u32>> = Seq::empty();
    let mut i: usize = 0;
    proof {
        assert(as_lens(counts@) =~= row_lens(acc));
        assert(v.skip(0) =~= v);
        law_rows_hold_all_tokens(Seq::empty(), v);
        assert(flat(Seq::<Seq<u32>>::empty()) + chunk_ids(v) =~= chunk_ids(v));
    }
    while i < outs.len()
        invariant
            i <= outs@.len(),
            all_hold(outs@, v),
            as_lens(counts@) == row_lens(acc),
            continuable_from(acc, v.skip(i as int)),
            joined_from(acc, v.skip(i as int)) == joined(v),
            flat(joined(v)).len() <= usize::MAX,
        decreases outs@.len() - i,
    {
        let ghost c = v[i as int];
        let ghost next = join(acc, c.rows, c.continues);
        let chunk = &outs[i];
        proof {
            assert(outs@[i as int].holds(c));
            assert(v.skip(i as int)[0] == c);
            assert(as_lens(counts@).len() == row_lens(acc).len());
            assert(as_lens(chunk.lens@).len() == row_lens(c.rows).len());
            assert(v.skip(i as int).drop_first() =~= v.skip(i + 1));
            lemma_joined_bound(next, v.skip(i + 1));
        }
        let mut j: usize = 0;
        let ghost counts0 = counts@;
        if chunk.continues && chunk.lens.len() > 0 {
            let k: usize = counts.len() - 1;
            let n: usize = counts[k];
            let l: usize = chunk.lens[0];
            proof {
                assert(row_lens(acc).last() == acc.last().len());
                assert(as_lens(counts0).last() == n);
                assert(row_lens(c.rows)[0] == c.rows[0].len());
                assert(as_lens(chunk.lens@)[0] == l);
                assert(next[acc.len() - 1] == acc.last() + c.rows[0]);
                lemma_row_part(next, acc.len() - 1);
            }
            counts.set(k, n + l);
            j = 1;
            proof {
                let now = acc.drop_last().push(acc.last() + c.rows[0]);
                assert(as_lens(counts@) =~= row_lens(now)) by {
                    assert forall|x: int| 0 <= x < now.len() implies as_lens(counts@)[x]
                        == row_lens(now)[x] by {
                        if x < acc.len() - 1 {
                            assert(as_lens(counts0)[x] == row_lens(acc)[x]);
                        }
                    }
                }
            }
        }
        let ghost base = counts@;
        let ghost first = j;
        proof {
            assert(counts@ + chunk.lens@.subrange(first as int, j as int) =~= counts@);
        }
        while j < chunk.lens.len()
            invariant
                first <= j <= chunk.lens@.len(),
                counts@ == base + chunk.lens@.subrange(first as int, j as int),
            decreases chunk.lens@.len() - j,
        {
            counts.push(chunk.lens[j]);
            proof {
                assert(chunk.lens@.subrange(first as int, j + 1) =~= chunk.lens@.subrange(
                    first as int,
                    j as int,
                ).push(chunk.lens@[j as int]));
            }
            j += 1;
        }
        proof {
            let tail = c.rows.skip(first as int);
            assert(j == chunk.lens@.len());
            assert(as_lens(chunk.lens@).len() == row_lens(c.rows).len());
            let head = if first == 1 {
                acc.drop_last().push(acc.last() + c.rows[0])
            } else {
                acc
            };
            assert(as_lens(base) =~= row_lens(head));
            assert(as_lens(base).len() == row_lens(head).len());
            assert(next =~= (if first == 1 {
                acc.drop_last().push(acc.last() + c.rows[0])
            } else {
                acc
            }) + tail);
            assert(as_lens(counts@) =~= row_lens(next)) by {
                assert forall|x: int| 0 <= x < next.len() implies as_lens(counts@)[x] == row_lens(
                    next,
                )[x] by {
                    if x < base.len() {
                        assert(as_lens(base)[x] == row_lens(head)[x]);
                        assert(counts@[x] == base[x]);
                    } else {
                        let y = x - base.len() + first;
                        assert(as_lens(chunk.lens@)[y] == row_lens(c.rows)[y]);
                        assert(tail[x - base.len()] == c.rows[y]);
                    }
                }
            }
            acc = next;
        }
        i += 1;
    }
    proof {
        assert(v.skip(i as int) =~= Seq::<ChunkRows>::empty());
    }
    counts
}

/// Rows that are there stay part of the tokens.
proof fn lemma_joined_bound(acc: Seq<Seq<u32>>, v: Seq<ChunkRows>)
    requires
        continuable_from(acc, v),
    ensures
        flat(acc).len() <= flat(joined_from(acc, v)).len(),
{
    law_rows_hold_all_tokens(acc, v);
}

/// The tokens of the first `n` chunks.
proof fn lemma_ids_step(v: Seq<ChunkRows>, n: int)
    requires
        0 <= n < v.len(),
    ensures
        chunk_ids(v.take(n + 1)) == chunk_ids(v.take(n)) + flat(v[n].rows),
{
    assert(v.take(n + 1).drop_last() =~= v.take(n));
}

/// All tokens in one list.
pub fn gather_flat(outs: &Vec<ChunkTokens>) -> (r: Vec<u32>)
    requires
        all_wf(outs@),
    ensures
        r@ == chunk_ids(views(outs@)),
{
    let ghost v = views(outs@);
    proof {
        lemma_views_hold(outs@);
    }
    let mut r: Vec<u32> = Vec::new();
    let mut i: usize = 0;
    while i < outs.len()
        invariant
            i <= outs@.len(),
            all_hold(outs@, v),
            r@ == chunk_ids(v.take(i as int)),
        decreases outs@.len() - i,
    {
        r.extend_from_slice(outs[i].ids.as_slice());
        proof {
            lemma_ids_step(v, i as int);
            assert(outs@[i as int].holds(v[i as int]));
        }
        i += 1;
    }
    proof {
        assert(v.take(i as int) =~= v);
    }
    r
}

/// All tokens in one list, and the row lengths of the documents.
pub fn assemble_ragged(outs: &Vec<ChunkTokens>) -> (r: (Vec<u32>, Vec<usize>))
    requires
        all_wf(outs@),
        continuable_from(Seq::empty(), views(outs@)),
    ensures
        r.0@ == flat(joined(views(outs@))),
        as_lens(r.1@) == row_lens(joined(views(outs@))),
{
    let ghost v = views(outs@);
    let all = gather_flat(outs);
    let n: usize = all.len();
    proof {
        assert(n == chunk_ids(v).len());
        law_rows_hold_all_tokens(Seq::empty(), v);
        assert(flat(Seq::<Seq<u32>>::empty()) + chunk_ids(v) =~= chunk_ids(v));
    }
    let counts = row_counts(outs);
    (all, counts)
}

/// The most chunks that one call commits.
pub const MAX_DRAIN: usize = 8;

/// A gather that keeps up with the encoding: the tokens of the chunks that are
/// done, up to the first that is not, within a bound on their number.
pub struct Committer {
    flat: Vec<u32>,
    cap: usize,
    next: usize,
    overflowed: bool,
}

/// The chunks that are done hold these rows.
pub open spec fn some_hold(outs: Seq<Option<ChunkTokens>>, v: Seq<ChunkRows>) -> bool {
    &&& outs.len() == v.len()
    &&& forall|i: int|
        0 <= i < v.len() ==> ((#[trigger] outs[i]) matches Some(c) ==> c.holds(v[i]))
}

impl Committer {
    /// How many chunks are committed.
    pub closed spec fn done(&self) -> int {
        self.next as int
    }

    /// A chunk did not fit; committing has stopped for good.
    pub closed spec fn stopped(&self) -> bool {
        self.overflowed
    }

    /// The bound.
    pub closed spec fn bound(&self) -> int {
        self.cap as int
    }

    /// What is committed are the tokens of the first chunks.
    pub closed spec fn keeps(&self, v: Seq<ChunkRows>) -> bool {
        &&& self.next <= v.len()
        &&& self.flat@ == chunk_ids(v.take(self.next as int))
        &&& self.flat@.len() <= self.cap
        &&& self.overflowed ==> chunk_ids(v).len() > self.cap
    }

    /// A gather of at most `cap` tokens; none of none.
    pub fn try_new(cap: usize) -> (r: Option<Self>)
        ensures
            match r {
                Some(c) => cap > 0 && c.bound() == cap && c.done() == 0 && !c.stopped() && forall|
                    v: Seq<ChunkRows>,
                | #[trigger]
                    c.keeps(v),
                None => cap == 0,
            },
    {
        if cap == 0 {
            return None;
        }
        let c = Committer { flat: Vec::new(), cap, next: 0, overflowed: false };
        proof {
            assert forall|v: Seq<ChunkRows>| #[trigger] c.keeps(v) by {
                assert(v.take(0) =~= Seq::<ChunkRows>::empty());
                assert(c.flat@ =~= chunk_ids(v.take(0)));
            }
        }
        Some(c)
    }

    /// Commits chunks that are done, in order, at most [`MAX_DRAIN`] of them.
    /// Whatever rows the chunks come to hold, what is committed stays the
    /// tokens of the first ones.
    pub fn advance(&mut self, outs: &Vec<Option<ChunkTokens>>)
        requires
            exists|v: Seq<ChunkRows>| old(self).keeps(v) && #[trigger] some_hold(outs@, v),
        ensures
            forall|v: Seq<ChunkRows>|
                old(self).keeps(v) && #[trigger] some_hold(outs@, v) ==> final(self).keeps(v),
            final(self).bound() == old(self).bound(),
            old(self).done() <= final(self).done() <= old(self).done() + MAX_DRAIN,
            old(self).stopped() ==> final(self).stopped() && final(self).done() == old(self).done(),
            final(self).stopped() || final(self).done() == old(self).done() + MAX_DRAIN
                || final(self).done() == outs@.len() || outs@[final(self).done()] is None,
    {
        let ghost first = *self;
        let ghost w = choose|v: Seq<ChunkRows>| first.keeps(v) && #[trigger] some_hold(outs@, v);
        let mut drained: usize = 0;
        while drained < MAX_DRAIN
            invariant
                first == *old(self),
                first.keeps(w) && some_hold(outs@, w),
                self.keeps(w),
                forall|v: Seq<ChunkRows>|
                    first.keeps(v) && #[trigger] some_hold(outs@, v) ==> self.keeps(v),
                self.cap == first.cap,
                self.next == first.next + drained,
                drained <= MAX_DRAIN,
                first.overflowed ==> drained == 0 && self.overflowed,
                !first.overflowed ==> !self.overflowed,
            decreases MAX_DRAIN - drained,
        {
            if self.overflowed {
                return;
            }
            if self.next >= outs.len() {
                return;
            }
            match &outs[self.next] {
                None => {
                    return;
                },
                Some(chunk) => {
                    let len: usize = chunk.ids.len();
                    let ghost before = *self;
                    let ghost n = self.next as int;
                    if self.cap - self.flat.len() < len {
                        self.overflowed = true;
                        proof {
                            assert forall|v: Seq<ChunkRows>|
                                first.keeps(v) && #[trigger] some_hold(outs@, v) implies self.keeps(
                                v,
                            ) by {
                                assert(before.keeps(v));
                                lemma_ids_step(v, n);
                                assert(outs@[n] is Some);
                                assert(chunk.holds(v[n]));
                                lemma_ids_part(v, n + 1);
                            }
                        }
                        return;
                    }
                    self.flat.extend_from_slice(chunk.ids.as_slice());
                    self.next = self.next + 1;
                    proof {
                        assert forall|v: Seq<ChunkRows>|
                            first.keeps(v) && #[trigger] some_hold(outs@, v) implies self.keeps(
                            v,
                        ) by {
                            assert(before.keeps(v));
                            lemma_ids_step(v, n);
                            assert(outs@[n] is Some);
                            assert(chunk.holds(v[n]));
                            assert(self.flat@ =~= before.flat@ + chunk.ids@);
                            assert(self.flat@ == chunk_ids(v.take(n + 1)));
                            assert(self.next as int == n + 1);
                        }
                        assert(some_hold(outs@, w));
                    }
                },
            }
            drained += 1;
        }
    }

    /// All tokens, once every chunk is done; `None` if they are more than the
    /// bound.
    pub fn finish(self, outs: &Vec<ChunkTokens>) -> (r: Option<Vec<u32>>)
        requires
            self.keeps(views(outs@)),
            all_wf(outs@),
        ensures
            match r {
                Some(all) => all@ == chunk_ids(views(outs@)) && chunk_ids(views(outs@)).len()
                    <= self.bound(),
                None => chunk_ids(views(outs@)).len() > self.bound(),
            },
    {
        let ghost v = views(outs@);
        proof {
            lemma_views_hold(outs@);
        }
        if self.overflowed {
            return None;
        }
        let Committer { flat: mut all, cap, next, overflowed: _ } = self;
        let mut i: usize = next;
        while i < outs.len()
            invariant
                i <= outs@.len(),
                all_hold(outs@, v),
                v == views(outs@),
                all@ == chunk_ids(v.take(i as int)),
                all@.len() <= cap,
                cap == self.cap,
            decreases outs@.len() - i,
        {
            proof {
                lemma_ids_step(v, i as int);
                assert(outs@[i as int].holds(v[i as int]));
                lemma_ids_part(v, i + 1);
            }
            if cap - all.len() < outs[i].ids.len() {
                return None;
            }
            all.extend_from_slice(outs[i].ids.as_slice());
            i += 1;
        }
        proof {
            assert(v.take(i as int) =~= v);
        }
        Some(all)
    }
}

/// The tokens of the first chunks are part of all.
proof fn lemma_ids_part(v: Seq<ChunkRows>, n: int)
    requires
        0 <= n <= v.len(),
    ensures
        chunk_ids(v.take(n)).len() <= chunk_ids(v).len(),
    decreases v.len() - n,
{
    if n < v.len() {
        lemma_ids_step(v, n);
        lemma_ids_part(v, n + 1);
    } else {
        assert(v.take(n) =~= v);
    }
}

} // verus!
