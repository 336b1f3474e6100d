//! The work units of batch encoding.
use crate::pretokenize::split::{
    as_ranges, law_ranges_cover, safe_split_ranges, split_ranges, SplitBlocker,
};
use vstd::prelude::*;

verus! {

/// Chunks below this size are not worth a handoff.
pub const MIN_CHUNK_BYTES: usize = 0x10_0000;

/// A work unit, as positions in the documents or files to encode.
#[derive(Clone, Copy, Debug, PartialEq, Eq, Structural)]
pub enum EncodeChunk {
    /// Whole documents from `from` to before `to`, one row each.
    Docs { from: usize, to: usize },
    /// A part of a file that holds whole documents.
    Region { file: usize, start: usize, end: usize },
    /// A part of one oversized document that encodes on its own; the parts of
    /// a document follow each other, and `first` marks the first.
    Fragment { doc: usize, start: usize, end: usize, first: bool },
}

/// The bytes that a chunk aims for: about 16 chunks for each of `threads`, but
/// not less than [`MIN_CHUNK_BYTES`].
pub open spec fn target_bytes(total: int, threads: int) -> int {
    let share = total / (16 * threads);
    if share > MIN_CHUNK_BYTES {
        share
    } else {
        MIN_CHUNK_BYTES as int
    }
}

/// The bytes that a chunk aims for.
pub fn chunk_target_bytes(total_bytes: usize, threads: usize) -> (r: usize)
    requires
        0 < threads <= usize::MAX / 16,
    ensures
        r == target_bytes(total_bytes as int, threads as int),
        r <= usize::MAX / 2,
{
    let share: usize = total_bytes / (16 * threads);
    proof {
        let t = total_bytes as int;
        let n = 16 * threads as int;
        assert(t / n <= t / 2) by (nonlinear_arith)
            requires
                t >= 0,
                n >= 2,
        ;
    }
    if share > MIN_CHUNK_BYTES {
        share
    } else {
        MIN_CHUNK_BYTES
    }
}

/// How large chunks are made: `big` while less than `head` bytes are handed
/// out, `tail` after that. A document of more than twice `target` is split.
pub struct ChunkSizes {
    pub head: usize,
    pub big: usize,
    pub tail: usize,
    pub target: usize,
    /// Large chunks come first.
    pub lpt: bool,
}

/// The sizes for `total` bytes: with `lpt`, chunks of twice `target` over the
/// first four fifths and of a quarter of it over the rest.
pub open spec fn sizes_of(total: int, target: int, lpt: bool) -> ChunkSizes {
    if lpt {
        ChunkSizes {
            head: (total - total / 5) as usize,
            big: (2 * target) as usize,
            tail: if target / 4 > MIN_CHUNK_BYTES {
                (target / 4) as usize
            } else {
                MIN_CHUNK_BYTES
            },
            target: target as usize,
            lpt,
        }
    } else {
        ChunkSizes {
            head: 0,
            big: target as usize,
            tail: target as usize,
            target: target as usize,
            lpt,
        }
    }
}

/// The sizes for `total` bytes.
pub fn chunk_sizes(total: usize, target: usize, lpt: bool) -> (z: ChunkSizes)
    requires
        target <= usize::MAX / 2,
    ensures
        z == sizes_of(total as int, target as int, lpt),
        z.target == target,
{
    if lpt {
        let quarter: usize = target / 4;
        ChunkSizes {
            head: total - total / 5,
            big: 2 * target,
            tail: if quarter > MIN_CHUNK_BYTES {
                quarter
            } else {
                MIN_CHUNK_BYTES
            },
            target,
            lpt,
        }
    } else {
        ChunkSizes { head: 0, big: target, tail: target, target, lpt }
    }
}

/// Ranges moved by `by`.
pub open spec fn moved(v: Seq<(int, int)>, by: int) -> Seq<(int, int)> {
    Seq::new(v.len(), |i: int| (v[i].0 + by, v[i].1 + by))
}

/// Ranges of a document with the large ones behind `head_len` split again.
pub open spec fn subdivided(
    doc: Seq<u8>,
    v: Seq<(int, int)>,
    head_len: int,
    tail: int,
    tokens: Seq<SplitBlocker>,
) -> Seq<(int, int)>
    decreases v.len(),
{
    if v.len() == 0 {
        Seq::empty()
    } else {
        let r = v.last();
        subdivided(doc, v.drop_last(), head_len, tail, tokens) + (if r.0 < head_len || r.1 - r.0
            <= tail {
            seq![r]
        } else {
            moved(split_ranges(doc.subrange(r.0, r.1), tail, tokens), r.0)
        })
    }
}

/// The parts of an oversized document: large ones over its first `head_len`
/// bytes, small ones after.
pub open spec fn fragment_ranges(
    doc: Seq<u8>,
    head_len: int,
    big: int,
    tail: int,
    tokens: Seq<SplitBlocker>,
) -> Seq<(int, int)> {
    subdivided(doc, split_ranges(doc, big, tokens), head_len, tail, tokens)
}

/// The chunks of the parts of document `i`.
pub open spec fn fragment_chunks(i: int, v: Seq<(int, int)>) -> Seq<EncodeChunk> {
    Seq::new(
        v.len(),
        |k: int|
            EncodeChunk::Fragment {
                doc: i as usize,
                start: v[k].0 as usize,
                end: v[k].1 as usize,
                first: k == 0,
            },
    )
}

/// A group of documents as a chunk, if it is not empty.
pub open spec fn group_chunk(from: int, to: int) -> Seq<EncodeChunk> {
    if from < to {
        seq![EncodeChunk::Docs { from: from as usize, to: to as usize }]
    } else {
        Seq::empty()
    }
}

/// The bytes of a document that large parts may take.
pub open spec fn head_left(z: ChunkSizes, emitted: int) -> int {
    if !z.lpt {
        usize::MAX as int
    } else if emitted < z.head {
        z.head - emitted
    } else {
        0
    }
}

/// How documents are split: the ranges of a document that is not to stay
/// whole, given the bytes handed out before it.
pub type Cutting = spec_fn(Seq<u8>, int) -> Option<Seq<(int, int)>>;

/// Documents of more than twice the target are split where no added token
/// forbids it.
pub open spec fn cutting(z: ChunkSizes, tokens: Seq<SplitBlocker>) -> Cutting {
    |doc: Seq<u8>, emitted: int|
        if doc.len() > 2 * z.target {
            Some(
                fragment_ranges(
                    doc,
                    head_left(z, emitted),
                    z.big as int,
                    z.tail as int,
                    tokens,
                ),
            )
        } else {
            None
        }
}

/// The chunks from document `i` on, where those from `from` on, with `acc`
/// bytes, are not handed out yet and `emitted` bytes are. A group is closed
/// once it has enough bytes, and before a document that is split.
pub open spec fn chunks_from(
    docs: Seq<Seq<u8>>,
    i: int,
    from: int,
    emitted: int,
    acc: int,
    z: ChunkSizes,
    cut: Cutting,
) -> Seq<EncodeChunk>
    decreases docs.len() - i,
{
    if i >= docs.len() {
        group_chunk(from, i)
    } else {
        let n = docs[i].len() as int;
        match cut(docs[i], emitted + acc) {
            Some(v) => group_chunk(from, i) + fragment_chunks(i, v) + chunks_from(
                docs,
                i + 1,
                i + 1,
                emitted + acc + n,
                0,
                z,
                cut,
            ),
            None => if acc + n >= (if emitted < z.head {
                z.big
            } else {
                z.tail
            }) {
                group_chunk(from, i + 1) + chunks_from(
                    docs,
                    i + 1,
                    i + 1,
                    emitted + acc + n,
                    0,
                    z,
                    cut,
                )
            } else {
                chunks_from(docs, i + 1, from, emitted, acc + n, z, cut)
            },
        }
    }
}

/// The chunks of documents.
pub open spec fn doc_chunks(docs: Seq<Seq<u8>>, z: ChunkSizes, cut: Cutting) -> Seq<EncodeChunk> {
    chunks_from(docs, 0, 0, 0, 0, z, cut)
}

/// The contents of documents.
pub open spec fn contents(docs: Seq<&[u8]>) -> Seq<Seq<u8>> {
    docs.map_values(|d: &[u8]| d@)
}

/// The bytes of all documents.
pub open spec fn total_len(docs: Seq<Seq<u8>>) -> int
    decreases docs.len(),
{
    if docs.len() == 0 {
        0
    } else {
        total_len(docs.drop_last()) + docs.last().len()
    }
}

pub proof fn lemma_total_step(docs: Seq<Seq<u8>>, n: int)
    requires
        0 <= n < docs.len(),
    ensures
        total_len(docs.take(n + 1)) == total_len(docs.take(n)) + docs[n].len(),
{
    assert(docs.take(n + 1).drop_last() =~= docs.take(n));
}

pub proof fn lemma_total_part(docs: Seq<Seq<u8>>, n: int)
    requires
        0 <= n <= docs.len(),
    ensures
        0 <= total_len(docs.take(n)) <= total_len(docs),
    decreases docs.len() - n,
{
    lemma_total_pos(docs.take(n));
    if n < docs.len() {
        lemma_total_step(docs, n);
        lemma_total_part(docs, n + 1);
    } else {
        assert(docs.take(n) =~= docs);
    }
}

proof fn lemma_total_pos(docs: Seq<Seq<u8>>)
    ensures
        0 <= total_len(docs),
    decreases docs.len(),
{
    if docs.len() > 0 {
        lemma_total_pos(docs.drop_last());
    }
}

/// The bytes of all documents.
pub fn total_bytes(docs: &[&[u8]]) -> (n: usize)
    requires
        total_len(contents(docs@)) <= usize::MAX,
    ensures
        n == total_len(contents(docs@)),
{
    let ghost all = contents(docs@);
    let mut n: usize = 0;
    let mut i: usize = 0;
    proof {
        assert(all.take(0) =~= Seq::<Seq<u8>>::empty());
    }
    while i < docs.len()
        invariant
            i <= docs@.len(),
            all == contents(docs@),
            total_len(all) <= usize::MAX,
            n == total_len(all.take(i as int)),
        decreases docs@.len() - i,
    {
        proof {
            lemma_total_step(all, i as int);
            lemma_total_part(all, i + 1);
        }
        n += docs[i].len();
        i += 1;
    }
    proof {
        assert(all.take(i as int) =~= all);
    }
    n
}

/// Ranges of a text lie in it.
pub proof fn lemma_ranges_within(s: Seq<u8>, target: int, tokens: Seq<SplitBlocker>)
    ensures
        ({
            let v = split_ranges(s, target, tokens);
            &&& v.len() > 0
            &&& forall|i: int| 0 <= i < v.len() ==> 0 <= (#[trigger] v[i]).0 <= v[i].1 <= s.len()
        }),
{
    if s.len() > 0 {
        let step = if target > 0 {
            target
        } else {
            1
        };
        let v = split_ranges(s, target, tokens);
        law_ranges_cover(s, 0, step, tokens);
        assert forall|i: int| 0 <= i < v.len() implies 0 <= (#[trigger] v[i]).0 <= v[i].1
            <= s.len() by {
            lemma_starts_after(s, v, i);
        }
    }
}

/// The ranges of a chain start no earlier than the first.
proof fn lemma_starts_after(s: Seq<u8>, v: Seq<(int, int)>, i: int)
    requires
        0 <= i < v.len(),
        v[0].0 == 0,
        forall|k: int| 0 <= k < v.len() ==> (#[trigger] v[k]).0 < v[k].1 <= s.len(),
        forall|k: int| 0 <= k < v.len() - 1 ==> (#[trigger] v[k]).1 == v[k + 1].0,
    ensures
        0 <= v[i].0,
    decreases i,
{
    if i > 0 {
        lemma_starts_after(s, v, i - 1);
        assert(v[i - 1].1 == v[i - 1 + 1].0);
    }
}

/// Appends the chunks of the parts of one oversized document.
fn push_fragment_chunks(
    chunks: &mut Vec<EncodeChunk>,
    index: usize,
    doc: &[u8],
    head_len: usize,
    big: usize,
    tail: usize,
    added_tokens: &[SplitBlocker],
)
    ensures
        final(chunks)@ == old(chunks)@ + fragment_chunks(
            index as int,
            fragment_ranges(
                doc@,
                head_len as int,
                big as int,
                tail as int,
                added_tokens@,
            ),
        ),
{
    let ghost chunks0 = chunks@;
    let ghost tokens = added_tokens@;
    let ghost s = doc@;
    let ranges = safe_split_ranges(doc, big, added_tokens);
    let ghost v = split_ranges(s, big as int, tokens);
    let ghost mut parts: Seq<(int, int)> = Seq::empty();
    let mut first: bool = true;
    let mut k: usize = 0;
    proof {
        lemma_ranges_within(s, big as int, tokens);
        assert(v.take(0) =~= Seq::<(int, int)>::empty());
        assert(chunks@ =~= chunks0 + fragment_chunks(index as int, parts));
    }
    while k < ranges.len()
        invariant
            s == doc@,
            tokens == added_tokens@,
            v == split_ranges(s, big as int, tokens),
            as_ranges(ranges@) == v,
            forall|i: int| 0 <= i < v.len() ==> 0 <= (#[trigger] v[i]).0 <= v[i].1 <= s.len(),
            k <= ranges@.len(),
            parts == subdivided(s, v.take(k as int), head_len as int, tail as int, tokens),
            first == (parts.len() == 0),
            chunks@ == chunks0 + fragment_chunks(index as int, parts),
        decreases ranges@.len() - k,
    {
        let a: usize = ranges[k].start;
        let b: usize = ranges[k].end;
        proof {
            assert(as_ranges(ranges@)[k as int] == (a as int, b as int));
            assert(v[k as int] == (a as int, b as int));
            assert(v.take(k + 1).drop_last() =~= v.take(k as int));
        }
        if a < head_len || b - a <= tail {
            chunks.push(EncodeChunk::Fragment { doc: index, start: a, end: b, first });
            proof {
                let more = seq![(a as int, b as int)];
                assert(fragment_chunks(index as int, parts + more) =~= fragment_chunks(
                    index as int,
                    parts,
                ).push(EncodeChunk::Fragment { doc: index, start: a, end: b, first }));
                parts = parts + more;
            }
            first = false;
        } else {
            let piece = vstd::slice::slice_subrange(doc, a, b);
            let subs = safe_split_ranges(piece, tail, added_tokens);
            let ghost w = split_ranges(s.subrange(a as int, b as int), tail as int, tokens);
            let ghost parts0 = parts;
            let mut j: usize = 0;
            proof {
                lemma_ranges_within(piece@, tail as int, tokens);
                assert(moved(w, a as int).take(0) =~= Seq::<(int, int)>::empty());
                assert(parts0 + moved(w, a as int).take(0) =~= parts0);
            }
            while j < subs.len()
                invariant
                    a <= b <= s.len(),
                    s == doc@,
                    w == split_ranges(s.subrange(a as int, b as int), tail as int, tokens),
                    as_ranges(subs@) == w,
                    forall|i: int|
                        0 <= i < w.len() ==> 0 <= (#[trigger] w[i]).0 <= w[i].1 <= b - a,
                    j <= subs@.len(),
                    parts == parts0 + moved(w, a as int).take(j as int),
                    first == (parts.len() == 0),
                    chunks@ == chunks0 + fragment_chunks(index as int, parts),
                decreases subs@.len() - j,
            {
                let len: usize = doc.len();
                proof {
                    assert(as_ranges(subs@)[j as int] == (
                        subs@[j as int].start as int,
                        subs@[j as int].end as int,
                    ));
                    assert(w[j as int].0 == subs@[j as int].start);
                }
                let c: usize = a + subs[j].start;
                let d: usize = a + subs[j].end;
                chunks.push(EncodeChunk::Fragment { doc: index, start: c, end: d, first });
                proof {
                    assert(moved(w, a as int)[j as int] == (c as int, d as int));
                    let all = moved(w, a as int);
                    assert(all.take(j + 1) =~= all.take(j as int).push((c as int, d as int)));
                    let next = parts0 + all.take(j + 1);
                    assert(next =~= parts.push((c as int, d as int)));
                    assert(fragment_chunks(index as int, next) =~= fragment_chunks(
                        index as int,
                        parts,
                    ).push(EncodeChunk::Fragment { doc: index, start: c, end: d, first }));
                    parts = next;
                }
                first = false;
                j += 1;
            }
            proof {
                assert(moved(w, a as int).take(j as int) =~= moved(w, a as int));
            }
        }
        k += 1;
    }
    proof {
        assert(v.take(k as int) =~= v);
    }
}

/// Groups documents into chunks. Large chunks come first, so that the last
/// one handed out is short.
pub fn build_doc_chunks(
    docs: &[&[u8]],
    total: usize,
    target: usize,
    added_tokens: &[SplitBlocker],
    lpt: bool,
) -> (chunks: Vec<EncodeChunk>)
    requires
        total_len(contents(docs@)) <= usize::MAX,
        target <= usize::MAX / 2,
    ensures
        ({
            let z = sizes_of(total as int, target as int, lpt);
            chunks@ == doc_chunks(contents(docs@), z, cutting(z, added_tokens@))
        }),
{
    let z = chunk_sizes(total, target, lpt);
    let ghost all = contents(docs@);
    let ghost tokens = added_tokens@;
    let ghost cut = cutting(z, tokens);
    let ghost goal = doc_chunks(all, z, cut);
    let mut chunks: Vec<EncodeChunk> = Vec::new();
    let mut from: usize = 0;
    let mut emitted: usize = 0;
    let mut acc: usize = 0;
    let mut i: usize = 0;
    proof {
        assert(chunks@ + goal =~= goal);
        assert(all.take(0) =~= Seq::<Seq<u8>>::empty());
    }
    while i < docs.len()
        invariant
            all == contents(docs@),
            tokens == added_tokens@,
            cut == cutting(z, tokens),
            total_len(all) <= usize::MAX,
            z.target <= usize::MAX / 2,
            i <= docs@.len(),
            from <= i,
            from == i ==> acc == 0,
            emitted + acc == total_len(all.take(i as int)),
            chunks@ + chunks_from(
                all,
                i as int,
                from as int,
                emitted as int,
                acc as int,
                z,
                cut,
            ) == goal,
        decreases docs@.len() - i,
    {
        let doc = docs[i];
        let n: usize = doc.len();
        let ghost chunks0 = chunks@;
        let ghost rest = chunks_from(
            all,
            i as int,
            from as int,
            emitted as int,
            acc as int,
            z,
            cut,
        );
        proof {
            assert(all[i as int] == doc@);
            lemma_total_step(all, i as int);
            lemma_total_part(all, i + 1);
        }
        if n > 2 * z.target {
            if from < i {
                chunks.push(EncodeChunk::Docs { from, to: i });
                emitted = emitted + acc;
                acc = 0;
            }
            let head_len: usize = if !z.lpt {
                usize::MAX
            } else if emitted < z.head {
                z.head - emitted
            } else {
                0
            };
            proof {
                assert(chunks@ =~= chunks0 + group_chunk(from as int, i as int));
            }
            push_fragment_chunks(&mut chunks, i, doc, head_len, z.big, z.tail, added_tokens);
            emitted = emitted + n;
            from = i + 1;
            proof {
                let g = group_chunk((from - 1) as int, i as int);
                let f = fragment_chunks(
                    i as int,
                    fragment_ranges(
                        doc@,
                        head_len as int,
                        z.big as int,
                        z.tail as int,
                        tokens,
                    ),
                );
                let more = chunks_from(
                    all,
                    i + 1,
                    i + 1,
                    emitted as int,
                    0,
                    z,
                    cut,
                );
                assert(chunks@ + more =~= chunks0 + rest);
            }
        } else {
            acc = acc + n;
            let enough: usize = if emitted < z.head {
                z.big
            } else {
                z.tail
            };
            if acc >= enough {
                chunks.push(EncodeChunk::Docs { from, to: i + 1 });
                emitted = emitted + acc;
                acc = 0;
                from = i + 1;
                proof {
                    let more = chunks_from(all, i + 1, i + 1, emitted as int, 0, z, cut);
                    assert(chunks@ + more =~= chunks0 + rest);
                }
            }
        }
        i += 1;
    }
    if from < i {
        chunks.push(EncodeChunk::Docs { from, to: i });
    }
    proof {
        assert(chunks@ =~= goal);
    }
    chunks
}

} // verus!
