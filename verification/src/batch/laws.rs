//! Chunked encoding gives the rows of whole documents.
use crate::batch::chunks::{
    chunks_from, cutting, doc_chunks, fragment_chunks, fragment_ranges, group_chunk, head_left,
    lemma_ranges_within, moved, subdivided, ChunkSizes, Cutting, EncodeChunk,
};
use crate::batch::encode::{
    all_rows, bpe_encoding, chunk_within, rows_of, Encoding,
};
use crate::batch::rows::{continuable_from, join, joined, joined_from, lemma_joined_add, ChunkRows};
use crate::bpe::nfc_laws::lemma_valid_range;
use crate::bpe::split_laws::{
    added_are_text, blockers_of, ends_whole, law_ranges_encode_whole, lemma_ends_whole_part,
    ranges_ids,
};
use crate::bpe::tiktoken::{all_nonempty, encoded, TokenizerView};
use crate::input::format::DocFormat;
use crate::pretokenize::locality::{boundary, whole_chars};
use crate::pretokenize::split::{
    law_ranges_cover, lemma_whole_parts, split_ranges, word_break, SplitBlocker,
};
use crate::text::nfc_divides;
use vstd::prelude::*;
use vstd::utf8::valid_utf8;

verus! {

/// The tokens of the parts of a text, one after the other.
pub open spec fn parts_ids(f: Encoding, s: Seq<u8>, v: Seq<(int, int)>, first: bool) -> Seq<u32>
    decreases v.len(),
{
    if v.len() == 0 {
        Seq::empty()
    } else {
        f(s.subrange(v[0].0, v[0].1), first) + parts_ids(f, s, v.drop_first(), false)
    }
}

/// There is a part, and parts lie in the text.
pub open spec fn parts_within(s: Seq<u8>, v: Seq<(int, int)>) -> bool {
    &&& v.len() > 0
    &&& forall|k: int| 0 <= k < v.len() ==> 0 <= (#[trigger] v[k]).0 <= v[k].1 <= s.len()
}

/// Where a document is cut, its parts lie in it.
pub open spec fn cuts_within(docs: Seq<Seq<u8>>, cut: Cutting) -> bool {
    forall|k: int, e: int|
        0 <= k < docs.len() ==> (#[trigger] cut(docs[k], e) matches Some(v) ==> parts_within(
            docs[k],
            v,
        ))
}

/// Where a document is cut, its parts encode to the tokens of the whole.
pub open spec fn cuts_exact(f: Encoding, docs: Seq<Seq<u8>>, cut: Cutting) -> bool {
    forall|k: int, e: int|
        0 <= k < docs.len() ==> (#[trigger] cut(docs[k], e) matches Some(v) ==> parts_ids(
            f,
            docs[k],
            v,
            true,
        ) == f(docs[k], true))
}

/// Positions fit the machine.
pub open spec fn fits_machine(docs: Seq<Seq<u8>>) -> bool {
    &&& docs.len() <= usize::MAX
    &&& forall|i: int| 0 <= i < docs.len() ==> (#[trigger] docs[i]).len() <= usize::MAX
}

/// Every chunk lies in the documents.
pub open spec fn all_within(docs: Seq<Seq<u8>>, chunks: Seq<EncodeChunk>) -> bool {
    forall|i: int| 0 <= i < chunks.len() ==> chunk_within(docs, #[trigger] chunks[i])
}

pub proof fn lemma_one(acc: Seq<Seq<u32>>, c: ChunkRows)
    ensures
        joined_from(acc, seq![c]) == join(acc, c.rows, c.continues),
        continuable_from(acc, seq![c]) == (c.continues && c.rows.len() > 0 ==> acc.len() > 0),
{
    let v = seq![c];
    assert(v.drop_first() =~= Seq::<ChunkRows>::empty());
    let next = join(acc, c.rows, c.continues);
    assert(joined_from(next, v.drop_first()) == next);
    assert(continuable_from(next, v.drop_first()));
}

pub proof fn lemma_all_rows_add(
    f: Encoding,
    docs: Seq<Seq<u8>>,
    format: DocFormat,
    a: Seq<EncodeChunk>,
    b: Seq<EncodeChunk>,
)
    ensures
        all_rows(f, docs, format, a + b) == all_rows(f, docs, format, a) + all_rows(
            f,
            docs,
            format,
            b,
        ),
{
    assert(all_rows(f, docs, format, a + b) =~= all_rows(f, docs, format, a) + all_rows(
        f,
        docs,
        format,
        b,
    ));
}

/// A group of documents adds their rows.
proof fn lemma_group_joined(
    f: Encoding,
    docs: Seq<Seq<u8>>,
    format: DocFormat,
    acc: Seq<Seq<u32>>,
    from: int,
    to: int,
)
    requires
        0 <= from <= to <= docs.len() <= usize::MAX,
    ensures
        joined_from(acc, all_rows(f, docs, format, group_chunk(from, to))) == acc + rows_of(
            f,
            docs.subrange(from, to),
        ),
        continuable_from(acc, all_rows(f, docs, format, group_chunk(from, to))),
        all_within(docs, group_chunk(from, to)),
{
    let c = group_chunk(from, to);
    let rows = rows_of(f, docs.subrange(from, to));
    if from < to {
        let r = ChunkRows { rows, continues: false };
        assert(all_rows(f, docs, format, c) =~= seq![r]);
        lemma_one(acc, r);
    } else {
        assert(all_rows(f, docs, format, c) =~= Seq::<ChunkRows>::empty());
        assert(rows =~= Seq::<Seq<u32>>::empty());
        assert(acc + rows =~= acc);
    }
}

/// The chunks of later parts of document `i`.
spec fn later_chunks(i: int, v: Seq<(int, int)>) -> Seq<EncodeChunk> {
    Seq::new(
        v.len(),
        |k: int|
            EncodeChunk::Fragment {
                doc: i as usize,
                start: v[k].0 as usize,
                end: v[k].1 as usize,
                first: false,
            },
    )
}

/// Later parts go on with the row of the first.
proof fn lemma_later_joined(
    f: Encoding,
    docs: Seq<Seq<u8>>,
    format: DocFormat,
    acc: Seq<Seq<u32>>,
    x: Seq<u32>,
    i: int,
    v: Seq<(int, int)>,
)
    requires
        fits_machine(docs),
        0 <= i < docs.len(),
        forall|k: int| 0 <= k < v.len() ==> 0 <= (#[trigger] v[k]).0 <= v[k].1 <= docs[i].len(),
    ensures
        joined_from(acc.push(x), all_rows(f, docs, format, later_chunks(i, v))) == acc.push(
            x + parts_ids(f, docs[i], v, false),
        ),
        continuable_from(acc.push(x), all_rows(f, docs, format, later_chunks(i, v))),
        all_within(docs, later_chunks(i, v)),
    decreases v.len(),
{
    let c = later_chunks(i, v);
    assert(docs[i].len() <= usize::MAX);
    if v.len() == 0 {
        assert(all_rows(f, docs, format, c) =~= Seq::<ChunkRows>::empty());
        assert(x + parts_ids(f, docs[i], v, false) =~= x);
    } else {
        let rest = v.drop_first();
        let y = f(docs[i].subrange(v[0].0, v[0].1), false);
        let r = ChunkRows { rows: seq![y], continues: true };
        let head = seq![c[0]];
        assert(all_rows(f, docs, format, head) =~= seq![r]);
        assert(c =~= head + later_chunks(i, rest));
        lemma_all_rows_add(f, docs, format, head, later_chunks(i, rest));
        lemma_one(acc.push(x), r);
        assert(join(acc.push(x), r.rows, true) =~= acc.push(x + y)) by {
            assert(acc.push(x).drop_last() =~= acc);
            assert(r.rows.drop_first() =~= Seq::<Seq<u32>>::empty());
        }
        assert forall|k: int| 0 <= k < rest.len() implies 0 <= (#[trigger] rest[k]).0 <= rest[k].1
            <= docs[i].len() by {
            assert(rest[k] == v[k + 1]);
        }
        lemma_later_joined(f, docs, format, acc, x + y, i, rest);
        lemma_joined_add(
            acc.push(x),
            seq![r],
            all_rows(f, docs, format, later_chunks(i, rest)),
        );
        let more = parts_ids(f, docs[i], rest, false);
        assert((x + y) + more =~= x + (y + more));
        assert(all_within(docs, c)) by {
            assert forall|k: int| 0 <= k < c.len() implies chunk_within(docs, #[trigger] c[k]) by {
                assert(0 <= v[k].0 <= v[k].1 <= docs[i].len());
            }
        }
    }
}

/// The parts of a document make one row.
proof fn lemma_fragments_joined(
    f: Encoding,
    docs: Seq<Seq<u8>>,
    format: DocFormat,
    acc: Seq<Seq<u32>>,
    i: int,
    v: Seq<(int, int)>,
)
    requires
        fits_machine(docs),
        0 <= i < docs.len(),
        parts_within(docs[i], v),
    ensures
        joined_from(acc, all_rows(f, docs, format, fragment_chunks(i, v))) == acc.push(
            parts_ids(f, docs[i], v, true),
        ),
        continuable_from(acc, all_rows(f, docs, format, fragment_chunks(i, v))),
        all_within(docs, fragment_chunks(i, v)),
{
    let c = fragment_chunks(i, v);
    let rest = v.drop_first();
    assert(docs[i].len() <= usize::MAX);
    assert(0 <= v[0].0 <= v[0].1 <= docs[i].len());
    let x = f(docs[i].subrange(v[0].0, v[0].1), true);
    let r = ChunkRows { rows: seq![x], continues: false };
    let head = seq![c[0]];
    assert(all_rows(f, docs, format, head) =~= seq![r]);
    assert(c =~= head + later_chunks(i, rest));
    lemma_all_rows_add(f, docs, format, head, later_chunks(i, rest));
    lemma_one(acc, r);
    assert(join(acc, r.rows, false) =~= acc.push(x));
    assert forall|k: int| 0 <= k < rest.len() implies 0 <= (#[trigger] rest[k]).0 <= rest[k].1
        <= docs[i].len() by {
        assert(rest[k] == v[k + 1]);
    }
    lemma_later_joined(f, docs, format, acc, x, i, rest);
    lemma_joined_add(acc, seq![r], all_rows(f, docs, format, later_chunks(i, rest)));
    assert forall|k: int| 0 <= k < c.len() implies chunk_within(docs, #[trigger] c[k]) by {
        assert(0 <= v[k].0 <= v[k].1 <= docs[i].len());
    }
}

pub proof fn lemma_within_add(docs: Seq<Seq<u8>>, a: Seq<EncodeChunk>, b: Seq<EncodeChunk>)
    requires
        all_within(docs, a),
        all_within(docs, b),
    ensures
        all_within(docs, a + b),
{
    let c = a + b;
    assert forall|k: int| 0 <= k < c.len() implies chunk_within(docs, #[trigger] c[k]) by {
        if k < a.len() {
            assert(c[k] == a[k]);
        } else {
            assert(c[k] == b[k - a.len()]);
        }
    }
}

/// The chunks from document `i` on, with a group open from `from` on.
proof fn lemma_chunks_joined(
    f: Encoding,
    docs: Seq<Seq<u8>>,
    format: DocFormat,
    z: ChunkSizes,
    cut: Cutting,
    acc: Seq<Seq<u32>>,
    i: int,
    from: int,
    emitted: int,
    bytes: int,
)
    requires
        fits_machine(docs),
        0 <= from <= i <= docs.len(),
        cuts_within(docs, cut),
    ensures
        ({
            let c = chunks_from(docs, i, from, emitted, bytes, z, cut);
            let rows = all_rows(f, docs, format, c);
            &&& all_within(docs, c)
            &&& continuable_from(acc, rows)
            &&& cuts_exact(f, docs, cut) ==> joined_from(acc, rows) == acc + rows_of(
                f,
                docs.subrange(from, docs.len() as int),
            )
        }),
    decreases docs.len() - i,
{
    let c = chunks_from(docs, i, from, emitted, bytes, z, cut);
    let len = docs.len() as int;
    if i >= len {
        lemma_group_joined(f, docs, format, acc, from, i);
    } else {
        let n = docs[i].len() as int;
        match cut(docs[i], emitted + bytes) {
            Some(v) => {
                let g = group_chunk(from, i);
                let p = fragment_chunks(i, v);
                let more = chunks_from(docs, i + 1, i + 1, emitted + bytes + n, 0, z, cut);
                assert(c == g + p + more);
                assert(parts_within(docs[i], v));
                lemma_group_joined(f, docs, format, acc, from, i);
                let acc1 = acc + rows_of(f, docs.subrange(from, i));
                lemma_fragments_joined(f, docs, format, acc1, i, v);
                let acc2 = acc1.push(parts_ids(f, docs[i], v, true));
                lemma_chunks_joined(
                    f,
                    docs,
                    format,
                    z,
                    cut,
                    acc2,
                    i + 1,
                    i + 1,
                    emitted + bytes + n,
                    0,
                );
                lemma_all_rows_add(f, docs, format, g, p);
                lemma_all_rows_add(f, docs, format, g + p, more);
                let rg = all_rows(f, docs, format, g);
                let rp = all_rows(f, docs, format, p);
                lemma_joined_add(acc, rg, rp);
                lemma_joined_add(acc, rg + rp, all_rows(f, docs, format, more));
                lemma_within_add(docs, g, p);
                lemma_within_add(docs, g + p, more);
                if cuts_exact(f, docs, cut) {
                    assert(parts_ids(f, docs[i], v, true) == f(docs[i], true));
                    assert(acc2 + rows_of(f, docs.subrange(i + 1, len)) =~= acc + rows_of(
                        f,
                        docs.subrange(from, len),
                    ));
                }
            },
            None => {
                if bytes + n >= (if emitted < z.head {
                    z.big
                } else {
                    z.tail
                }) {
                    let g = group_chunk(from, i + 1);
                    let more = chunks_from(docs, i + 1, i + 1, emitted + bytes + n, 0, z, cut);
                    assert(c == g + more);
                    lemma_group_joined(f, docs, format, acc, from, i + 1);
                    let acc1 = acc + rows_of(f, docs.subrange(from, i + 1));
                    lemma_chunks_joined(
                        f,
                        docs,
                        format,
                        z,
                        cut,
                        acc1,
                        i + 1,
                        i + 1,
                        emitted + bytes + n,
                        0,
                    );
                    lemma_all_rows_add(f, docs, format, g, more);
                    lemma_joined_add(
                        acc,
                        all_rows(f, docs, format, g),
                        all_rows(f, docs, format, more),
                    );
                    lemma_within_add(docs, g, more);
                    assert(acc1 + rows_of(f, docs.subrange(i + 1, len)) =~= acc + rows_of(
                        f,
                        docs.subrange(from, len),
                    ));
                } else {
                    lemma_chunks_joined(
                        f,
                        docs,
                        format,
                        z,
                        cut,
                        acc,
                        i + 1,
                        from,
                        emitted,
                        bytes + n,
                    );
                }
            },
        }
    }
}

/// The chunks of documents lie in them, and every later part has a row to go
/// on with.
pub proof fn law_chunks_are_encodable(
    f: Encoding,
    docs: Seq<Seq<u8>>,
    format: DocFormat,
    z: ChunkSizes,
    cut: Cutting,
)
    requires
        fits_machine(docs),
        cuts_within(docs, cut),
    ensures
        all_within(docs, doc_chunks(docs, z, cut)),
        continuable_from(Seq::empty(), all_rows(f, docs, format, doc_chunks(docs, z, cut))),
{
    lemma_chunks_joined(f, docs, format, z, cut, Seq::empty(), 0, 0, 0, 0);
}

/// Where parts encode to the tokens of the whole, the chunks of documents
/// join to one row for each document, with its tokens.
pub proof fn law_chunks_encode_documents(
    f: Encoding,
    docs: Seq<Seq<u8>>,
    format: DocFormat,
    z: ChunkSizes,
    cut: Cutting,
)
    requires
        fits_machine(docs),
        cuts_within(docs, cut),
        cuts_exact(f, docs, cut),
    ensures
        joined(all_rows(f, docs, format, doc_chunks(docs, z, cut))) == rows_of(f, docs),
{
    lemma_chunks_joined(f, docs, format, z, cut, Seq::empty(), 0, 0, 0, 0);
    assert(docs.subrange(0, docs.len() as int) =~= docs);
    assert(Seq::<Seq<u32>>::empty() + rows_of(f, docs) =~= rows_of(f, docs));
}

/// Part by part, the tokens of ranges.
proof fn lemma_bpe_parts(t: TokenizerView, s: Seq<u8>, v: Seq<(int, int)>, first: bool)
    ensures
        parts_ids(bpe_encoding(t), s, v, first) == ranges_ids(t, s, v),
    decreases v.len(),
{
    if v.len() > 0 {
        lemma_bpe_parts(t, s, v.drop_first(), false);
    }
}

proof fn lemma_ranges_add(t: TokenizerView, s: Seq<u8>, a: Seq<(int, int)>, b: Seq<(int, int)>)
    ensures
        ranges_ids(t, s, a + b) == ranges_ids(t, s, a) + ranges_ids(t, s, b),
    decreases a.len(),
{
    if a.len() == 0 {
        assert(a + b =~= b);
        assert(ranges_ids(t, s, a) + ranges_ids(t, s, b) =~= ranges_ids(t, s, b));
    } else {
        assert((a + b).drop_first() =~= a.drop_first() + b);
        lemma_ranges_add(t, s, a.drop_first(), b);
        let x = encoded(t, s.subrange(a[0].0, a[0].1));
        assert((a + b)[0] == a[0]);
        assert(x + (ranges_ids(t, s, a.drop_first()) + ranges_ids(t, s, b)) =~= (x + ranges_ids(
            t,
            s,
            a.drop_first(),
        )) + ranges_ids(t, s, b));
    }
}

proof fn lemma_moved_ids(t: TokenizerView, s: Seq<u8>, a: int, b: int, w: Seq<(int, int)>)
    requires
        0 <= a <= b <= s.len(),
        forall|k: int| 0 <= k < w.len() ==> 0 <= (#[trigger] w[k]).0 <= w[k].1 <= b - a,
    ensures
        ranges_ids(t, s, moved(w, a)) == ranges_ids(t, s.subrange(a, b), w),
    decreases w.len(),
{
    if w.len() > 0 {
        let rest = w.drop_first();
        assert(moved(w, a).drop_first() =~= moved(rest, a));
        assert forall|k: int| 0 <= k < rest.len() implies 0 <= (#[trigger] rest[k]).0 <= rest[k].1
            <= b - a by {
            assert(rest[k] == w[k + 1]);
        }
        lemma_moved_ids(t, s, a, b, rest);
        assert(0 <= w[0].0 <= w[0].1 <= b - a);
        assert(s.subrange(a, b).subrange(w[0].0, w[0].1) =~= s.subrange(w[0].0 + a, w[0].1 + a));
    }
}

/// Split ranges that are split again lie in the text.
proof fn lemma_subdivided_within(
    s: Seq<u8>,
    v: Seq<(int, int)>,
    head_len: int,
    tail: int,
    tokens: Seq<SplitBlocker>,
)
    requires
        forall|k: int| 0 <= k < v.len() ==> 0 <= (#[trigger] v[k]).0 <= v[k].1 <= s.len(),
    ensures
        ({
            let w = subdivided(s, v, head_len, tail, tokens);
            &&& v.len() > 0 ==> w.len() > 0
            &&& forall|k: int| 0 <= k < w.len() ==> 0 <= (#[trigger] w[k]).0 <= w[k].1 <= s.len()
        }),
    decreases v.len(),
{
    if v.len() > 0 {
        let r = v.last();
        let before = v.drop_last();
        assert forall|k: int| 0 <= k < before.len() implies 0 <= (#[trigger] before[k]).0
            <= before[k].1 <= s.len() by {
            assert(before[k] == v[k]);
        }
        lemma_subdivided_within(s, before, head_len, tail, tokens);
        assert(r == v[v.len() - 1]);
        lemma_ranges_within(s.subrange(r.0, r.1), tail, tokens);
        let x = split_ranges(s.subrange(r.0, r.1), tail, tokens);
        let a = subdivided(s, before, head_len, tail, tokens);
        let b = if r.0 < head_len || r.1 - r.0 <= tail {
            seq![r]
        } else {
            moved(x, r.0)
        };
        let w = subdivided(s, v, head_len, tail, tokens);
        assert(w == a + b);
        assert forall|k: int| 0 <= k < w.len() implies 0 <= (#[trigger] w[k]).0 <= w[k].1
            <= s.len() by {
            if k < a.len() {
                assert(w[k] == a[k]);
            } else {
                assert(w[k] == b[k - a.len()]);
                if !(r.0 < head_len || r.1 - r.0 <= tail) {
                    assert(0 <= x[k - a.len()].0 <= x[k - a.len()].1 <= r.1 - r.0);
                }
            }
        }
    }
}

/// The cuts of documents lie in them.
pub proof fn law_cutting_within(docs: Seq<Seq<u8>>, z: ChunkSizes, tokens: Seq<SplitBlocker>)
    ensures
        cuts_within(docs, cutting(z, tokens)),
{
    let cut = cutting(z, tokens);
    assert forall|k: int, e: int| 0 <= k < docs.len() implies (#[trigger] cut(docs[k], e)
        matches Some(v) ==> parts_within(docs[k], v)) by {
        lemma_ranges_within(docs[k], z.big as int, tokens);
        lemma_subdivided_within(
            docs[k],
            split_ranges(docs[k], z.big as int, tokens),
            head_left(z, e),
            z.tail as int,
            tokens,
        );
    }
}

/// What it takes that parts of documents encode to the tokens of the whole:
/// added tokens are not empty and end with characters of the documents, and
/// documents hold whole characters. If the tokenizer normalizes, both are
/// UTF-8.
pub open spec fn splits_cleanly(t: TokenizerView, docs: Seq<Seq<u8>>) -> bool {
    &&& t.nfc ==> forall|i: int| 0 <= i < docs.len() ==> valid_utf8(#[trigger] docs[i])
    &&& all_nonempty(t.added)
    &&& t.nfc ==> added_are_text(t)
    &&& forall|i: int| 0 <= i < docs.len() ==> whole_chars(#[trigger] docs[i])
    &&& forall|i: int| 0 <= i < docs.len() ==> ends_whole(t.added, #[trigger] docs[i])
}

/// Each of the ranges of a text holds whole characters.
proof fn lemma_range_whole(
    s: Seq<u8>,
    target: int,
    tokens: Seq<SplitBlocker>,
    k: int,
)
    requires
        whole_chars(s),
        0 <= k < split_ranges(s, target, tokens).len(),
    ensures
        ({
            let r = split_ranges(s, target, tokens)[k];
            &&& whole_chars(s.subrange(r.0, r.1))
            &&& valid_utf8(s) ==> valid_utf8(s.subrange(r.0, r.1))
        }),
{
    let v = split_ranges(s, target, tokens);
    let (a, b) = v[k];
    lemma_ranges_within(s, target, tokens);
    assert(0 <= v[k].0 <= v[k].1 <= s.len());
    if s.len() == 0 {
        assert(s.subrange(a, b) =~= s);
    } else {
        law_ranges_cover(
            s,
            0,
            if target > 0 {
                target
            } else {
                1
            },
            tokens,
        );
        assert(boundary(s, b)) by {
            if k < v.len() - 1 {
                assert(v[k].1 == v[k + 1].0);
                assert(word_break(s, b));
            }
        }
        assert(boundary(s, a)) by {
            if k > 0 {
                assert(v[k - 1].1 == v[k - 1 + 1].0);
                assert(word_break(s, a));
            }
        }
        lemma_whole_parts(s, b);
        let h = s.take(b);
        assert(boundary(h, a));
        lemma_whole_parts(h, a);
        assert(h.skip(a) =~= s.subrange(a, b));
        if valid_utf8(s) {
            lemma_valid_range(s, a, b);
        }
    }
}

proof fn lemma_subdivided_ids(
    t: TokenizerView,
    s: Seq<u8>,
    v: Seq<(int, int)>,
    head_len: int,
    tail: int,
    tokens: Seq<SplitBlocker>,
)
    requires
        t.nfc ==> nfc_divides(),
        all_nonempty(t.added),
        t.nfc ==> added_are_text(t),
        ends_whole(t.added, s),
        blockers_of(tokens, t.added),
        forall|k: int|
            0 <= k < v.len() ==> 0 <= (#[trigger] v[k]).0 <= v[k].1 <= s.len() && whole_chars(
                s.subrange(v[k].0, v[k].1),
            ) && (t.nfc ==> valid_utf8(s.subrange(v[k].0, v[k].1))),
    ensures
        ranges_ids(t, s, subdivided(s, v, head_len, tail, tokens)) == ranges_ids(t, s, v),
    decreases v.len(),
{
    if v.len() > 0 {
        let r = v.last();
        let before = v.drop_last();
        assert forall|k: int| 0 <= k < before.len() implies 0 <= (#[trigger] before[k]).0
            <= before[k].1 <= s.len() && whole_chars(s.subrange(before[k].0, before[k].1)) && (t.nfc
            ==> valid_utf8(s.subrange(before[k].0, before[k].1))) by {
            assert(before[k] == v[k]);
        }
        lemma_subdivided_ids(t, s, before, head_len, tail, tokens);
        assert(r == v[v.len() - 1]);
        let part = s.subrange(r.0, r.1);
        let one = seq![r];
        assert(v =~= before + one);
        lemma_ranges_add(t, s, before, one);
        assert(ranges_ids(t, s, one) =~= encoded(t, part)) by {
            assert(one.drop_first() =~= Seq::<(int, int)>::empty());
            assert(ranges_ids(t, s, one.drop_first()) =~= Seq::<u32>::empty());
        }
        let a = subdivided(s, before, head_len, tail, tokens);
        if !(r.0 < head_len || r.1 - r.0 <= tail) {
            let x = split_ranges(part, tail, tokens);
            lemma_ends_whole_part(t.added, s, r.0, r.1);
            law_ranges_encode_whole(t, part, tail, tokens);
            lemma_ranges_within(part, tail, tokens);
            lemma_moved_ids(t, s, r.0, r.1, x);
            lemma_ranges_add(t, s, a, moved(x, r.0));
        } else {
            lemma_ranges_add(t, s, a, one);
        }
    }
}

/// Where documents split cleanly, the parts of a document that is cut encode
/// to the tokens of the whole.
pub proof fn law_cutting_exact(
    t: TokenizerView,
    docs: Seq<Seq<u8>>,
    z: ChunkSizes,
    tokens: Seq<SplitBlocker>,
)
    requires
        splits_cleanly(t, docs),
        t.nfc ==> nfc_divides(),
        blockers_of(tokens, t.added),
    ensures
        cuts_exact(bpe_encoding(t), docs, cutting(z, tokens)),
{
    let cut = cutting(z, tokens);
    let f = bpe_encoding(t);
    assert forall|k: int, e: int| 0 <= k < docs.len() implies (#[trigger] cut(docs[k], e)
        matches Some(v) ==> parts_ids(f, docs[k], v, true) == f(docs[k], true)) by {
        let s = docs[k];
        assert(whole_chars(docs[k]));
        assert(t.nfc ==> valid_utf8(docs[k]));
        assert(ends_whole(t.added, docs[k]));
        let big = z.big as int;
        let v = split_ranges(s, big, tokens);
        lemma_ranges_within(s, big, tokens);
        assert forall|j: int| 0 <= j < v.len() implies 0 <= (#[trigger] v[j]).0 <= v[j].1
            <= s.len() && whole_chars(s.subrange(v[j].0, v[j].1)) && (t.nfc ==> valid_utf8(
            s.subrange(v[j].0, v[j].1),
        )) by {
            lemma_range_whole(s, big, tokens, j);
        }
        lemma_subdivided_ids(t, s, v, head_left(z, e), z.tail as int, tokens);
        law_ranges_encode_whole(t, s, big, tokens);
        lemma_bpe_parts(
            t,
            s,
            fragment_ranges(s, head_left(z, e), big, z.tail as int, tokens),
            true,
        );
    }
}

} // verus!
