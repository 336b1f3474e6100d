//! Encoding chunks of documents and putting their rows together.
use crate::batch::chunks::{contents, EncodeChunk};
use crate::batch::rows::{
    all_wf, as_lens, chunk_ids, continuable_from, flat, gather_flat, joined,
    law_rows_hold_all_tokens, lemma_flat_add, lemma_flat_push, lemma_holds_view, row_counts,
    row_lens, some_hold, views, ChunkRows, ChunkTokens, Committer,
};
use crate::bpe::tiktoken::{budget_total, encoded, Tokenizer, TokenizerView};
use crate::input::documents::{documents, DocumentIter};
use crate::input::format::DocFormat;
use crate::input::jsonl::{line_texts, lines_from, JsonLinesSlice};
use crate::input::stream::texts_of;
use crate::sp::model::{fragment_pos, raw_tokens, Encoder, SpModel};
use crate::token::TokenId;
use vstd::prelude::*;

verus! {

/// What encoding gives: the token IDs of a document, or of a later part of
/// one.
pub type Encoding = spec_fn(Seq<u8>, bool) -> Seq<u32>;

/// An encoder of documents and their parts.
pub trait DocEncoder {
    /// What the encoder encodes by.
    type Model;

    /// What the encoder encodes by.
    spec fn model(&self) -> Self::Model;

    /// The encoder can encode.
    spec fn ready(&self) -> bool;

    /// What it gives.
    spec fn encoding(&self) -> Encoding;

    /// Encodes a document, or a later part of one, and appends the token IDs.
    fn encode_part(&mut self, text: &[u8], first: bool, ids: &mut Vec<u32>)
        requires
            old(self).ready(),
        ensures
            final(self).ready(),
            final(self).model() == old(self).model(),
            final(self).encoding() == old(self).encoding(),
            final(ids)@ == old(ids)@ + (old(self).encoding())(text@, first),
    ;
}

/// What a tokenizer gives, whether a text begins a document or goes on with
/// one.
pub open spec fn bpe_encoding(t: TokenizerView) -> Encoding {
    |s: Seq<u8>, first: bool| encoded(t, s)
}

impl DocEncoder for Tokenizer {
    type Model = (TokenizerView, Map<u64, u32>, Option<usize>);

    open spec fn model(&self) -> Self::Model {
        (self@, self.merge_ranks(), budget_total(self.budget()))
    }

    open spec fn ready(&self) -> bool {
        self.wf()
    }

    open spec fn encoding(&self) -> Encoding {
        bpe_encoding(self@)
    }

    fn encode_part(&mut self, text: &[u8], _first: bool, ids: &mut Vec<u32>) {
        self.encode_with_added_tokens_flat(text, ids);
    }
}

/// The numbers of tokens.
pub open spec fn id_values(v: Seq<TokenId>) -> Seq<u32> {
    v.map_values(|t: TokenId| t.0)
}

/// What a SentencePiece model gives.
pub open spec fn sp_encoding(m: SpModel) -> Encoding {
    |s: Seq<u8>, first: bool| id_values(raw_tokens(m, s, fragment_pos(first)))
}

impl<'a> DocEncoder for Encoder<'a> {
    type Model = (SpModel, usize);

    open spec fn model(&self) -> Self::Model {
        (self.model_view(), self.limit())
    }

    open spec fn ready(&self) -> bool {
        true
    }

    open spec fn encoding(&self) -> Encoding {
        sp_encoding(self.model_view())
    }

    fn encode_part(&mut self, text: &[u8], first: bool, ids: &mut Vec<u32>) {
        let ghost ids0 = ids@;
        let mut tokens: Vec<TokenId> = Vec::new();
        self.encode_bytes(text, first, &mut tokens);
        let mut i: usize = 0;
        proof {
            let all = raw_tokens(old(self).model_view(), text@, fragment_pos(first));
            assert(Seq::<TokenId>::empty() + all =~= all);
            assert(ids0 + id_values(tokens@).take(0) =~= ids0);
        }
        while i < tokens.len()
            invariant
                i <= tokens@.len(),
                ids@ == ids0 + id_values(tokens@).take(i as int),
            decreases tokens@.len() - i,
        {
            ids.push(tokens[i].0);
            proof {
                let v = id_values(tokens@);
                assert(v.len() == tokens@.len());
                assert(v.take(i + 1) =~= v.take(i as int).push(v[i as int]));
            }
            i += 1;
        }
        proof {
            let v = id_values(tokens@);
            assert(v.len() == tokens@.len());
            assert(v.take(i as int) =~= v);
        }
    }
}

/// The documents of a region.
pub open spec fn region_docs(format: DocFormat, s: Seq<u8>) -> Seq<Seq<u8>> {
    match format {
        DocFormat::Jsonl { field } => line_texts(s, lines_from(s, 0, s.len() as int), field@),
        _ => if format.separator_bytes().len() > 0 {
            texts_of(s, documents(s, format.separator_bytes(), 0, s.len() as int))
        } else {
            seq![s]
        },
    }
}

/// The documents of files, file by file.
pub open spec fn file_docs(format: DocFormat, files: Seq<Seq<u8>>) -> Seq<Seq<u8>>
    decreases files.len(),
{
    if files.len() == 0 {
        Seq::empty()
    } else {
        file_docs(format, files.drop_last()) + region_docs(format, files.last())
    }
}

/// The rows of whole documents.
pub open spec fn rows_of(f: Encoding, docs: Seq<Seq<u8>>) -> Seq<Seq<u32>> {
    docs.map_values(|d: Seq<u8>| f(d, true))
}

/// The chunk lies in the documents.
pub open spec fn chunk_within(docs: Seq<Seq<u8>>, c: EncodeChunk) -> bool {
    match c {
        EncodeChunk::Docs { from, to } => from <= to <= docs.len(),
        EncodeChunk::Region { file, start, end } => file < docs.len() && start <= end
            <= docs[file as int].len(),
        EncodeChunk::Fragment { doc, start, end, .. } => doc < docs.len() && start <= end
            <= docs[doc as int].len(),
    }
}

/// The rows of a chunk.
pub open spec fn chunk_rows(
    f: Encoding,
    docs: Seq<Seq<u8>>,
    format: DocFormat,
    c: EncodeChunk,
) -> ChunkRows {
    match c {
        EncodeChunk::Docs { from, to } => ChunkRows {
            rows: rows_of(f, docs.subrange(from as int, to as int)),
            continues: false,
        },
        EncodeChunk::Region { file, start, end } => ChunkRows {
            rows: rows_of(
                f,
                region_docs(format, docs[file as int].subrange(start as int, end as int)),
            ),
            continues: false,
        },
        EncodeChunk::Fragment { doc, start, end, first } => ChunkRows {
            rows: seq![f(docs[doc as int].subrange(start as int, end as int), first)],
            continues: !first,
        },
    }
}

/// The rows of chunks.
pub open spec fn all_rows(
    f: Encoding,
    docs: Seq<Seq<u8>>,
    format: DocFormat,
    chunks: Seq<EncodeChunk>,
) -> Seq<ChunkRows> {
    chunks.map_values(|c: EncodeChunk| chunk_rows(f, docs, format, c))
}

/// The tokens are these rows, and the lengths are theirs.
pub open spec fn hold_rows(ids: Seq<u32>, lens: Seq<usize>, rows: Seq<Seq<u32>>) -> bool {
    ids == flat(rows) && as_lens(lens) == row_lens(rows)
}

proof fn lemma_hold_push(
    ids: Seq<u32>,
    lens: Seq<usize>,
    rows: Seq<Seq<u32>>,
    r: Seq<u32>,
    n: usize,
)
    requires
        hold_rows(ids, lens, rows),
        n == r.len(),
    ensures
        hold_rows(ids + r, lens.push(n), rows.push(r)),
{
    lemma_flat_push(rows, r);
    assert(as_lens(lens).len() == lens.len());
    assert(row_lens(rows).len() == rows.len());
    assert(as_lens(lens.push(n)) =~= as_lens(lens).push(n as int));
    assert(row_lens(rows.push(r)) =~= row_lens(rows).push(r.len() as int));
}

/// Appends the token IDs of one document, or a later part of one, and the
/// length of its row.
pub fn encode_into<E: DocEncoder>(
    encoder: &mut E,
    text: &[u8],
    first: bool,
    ids: &mut Vec<u32>,
    lens: &mut Vec<usize>,
)
    requires
        old(encoder).ready(),
    ensures
        final(encoder).ready(),
        final(encoder).model() == old(encoder).model(),
        final(encoder).encoding() == old(encoder).encoding(),
        final(ids)@ == old(ids)@ + (old(encoder).encoding())(text@, first),
        as_lens(final(lens)@) == as_lens(old(lens)@).push(
            (old(encoder).encoding())(text@, first).len() as int,
        ),
        forall|rows: Seq<Seq<u32>>| #[trigger]
            hold_rows(old(ids)@, old(lens)@, rows) ==> hold_rows(
                final(ids)@,
                final(lens)@,
                rows.push((old(encoder).encoding())(text@, first)),
            ),
{
    let before: usize = ids.len();
    let ghost ids0 = ids@;
    let ghost lens0 = lens@;
    let ghost r = (encoder.encoding())(text@, first);
    encoder.encode_part(text, first, ids);
    let n: usize = ids.len() - before;
    lens.push(n);
    proof {
        assert(as_lens(lens@) =~= as_lens(lens0).push(r.len() as int));
        assert forall|rows: Seq<Seq<u32>>| #[trigger] hold_rows(ids0, lens0, rows) implies hold_rows(
            ids@,
            lens@,
            rows.push(r),
        ) by {
            lemma_hold_push(ids0, lens0, rows, r, n);
        }
    }
}

/// The rows of the texts at spans, one more.
proof fn lemma_rows_push(f: Encoding, rows: Seq<Seq<u32>>, docs: Seq<Seq<u8>>, i: int)
    requires
        0 <= i < docs.len(),
        rows == rows_of(f, docs.take(i)),
    ensures
        rows.push(f(docs[i], true)) == rows_of(f, docs.take(i + 1)),
{
    assert(docs.take(i + 1) =~= docs.take(i).push(docs[i]));
    assert(rows_of(f, docs.take(i + 1)) =~= rows.push(f(docs[i], true)));
}

/// Encodes the documents of a region and appends their rows: JSON lines,
/// pieces between separators, or the region as one document.
pub fn encode_region<E: DocEncoder>(
    encoder: &mut E,
    bytes: &[u8],
    format: &DocFormat,
    ids: &mut Vec<u32>,
    lens: &mut Vec<usize>,
)
    requires
        old(encoder).ready(),
        !(*format is Parquet),
    ensures
        final(encoder).ready(),
        final(encoder).model() == old(encoder).model(),
        final(encoder).encoding() == old(encoder).encoding(),
        final(ids)@ == old(ids)@ + flat(
            rows_of(old(encoder).encoding(), region_docs(*format, bytes@)),
        ),
        as_lens(final(lens)@) == as_lens(old(lens)@) + row_lens(
            rows_of(old(encoder).encoding(), region_docs(*format, bytes@)),
        ),
{
    let ghost f = encoder.encoding();
    let ghost s = bytes@;
    let ghost ids0 = ids@;
    let ghost lens0 = lens@;
    let ghost all = region_docs(*format, s);
    let ghost mut n: int = 0;
    proof {
        assert(rows_of(f, all.take(0)) =~= Seq::<Seq<u32>>::empty());
        assert(ids0 + flat(Seq::<Seq<u32>>::empty()) =~= ids0);
        assert(as_lens(lens0) + row_lens(Seq::<Seq<u32>>::empty()) =~= as_lens(lens0));
    }
    match format {
        DocFormat::Jsonl { field } => {
            let mut lines = JsonLinesSlice::new(bytes, field.as_str());
            let mut more = true;
            let ghost name = field@;
            while more
                invariant
                    encoder.ready(),
                    encoder.model() == old(encoder).model(),
                    encoder.encoding() == f,
                    lines.text() == s,
                    lines.field_name() == name,
                    0 <= n <= all.len(),
                    more ==> all.skip(n) == line_texts(s, lines.left(), name),
                    !more ==> n == all.len(),
                    ids@ == ids0 + flat(rows_of(f, all.take(n))),
                    as_lens(lens@) == as_lens(lens0) + row_lens(rows_of(f, all.take(n))),
                decreases more as int, lines.left().len(),
            {
                let ghost left = lines.left();
                match lines.next_document() {
                    Some(doc) => {
                        proof {
                            assert(left.len() > 0);
                            assert(all.skip(n) == seq![doc@] + line_texts(
                                s,
                                left.drop_first(),
                                name,
                            ));
                            assert(all.skip(n).len() > 0);
                            assert(all.skip(n)[0] == doc@);
                            lemma_rows_step(f, ids0, lens0, all, n);
                            assert(all.skip(n + 1) =~= all.skip(n).drop_first());
                        }
                        encode_into(encoder, doc.as_slice(), true, ids, lens);
                        proof {
                            n = n + 1;
                        }
                    },
                    None => {
                        more = false;
                    },
                }
            }
        },
        _ => {
            let sep = format.separator();
            if sep.len() > 0 {
                let mut docs = DocumentIter::new(bytes, sep);
                let mut more = true;
                while more
                    invariant
                        encoder.ready(),
                        encoder.model() == old(encoder).model(),
                        encoder.encoding() == f,
                        docs.text() == s,
                        0 <= n <= all.len(),
                        all.skip(n) == texts_of(s, docs.left()),
                        !more ==> n == all.len(),
                        ids@ == ids0 + flat(rows_of(f, all.take(n))),
                        as_lens(lens@) == as_lens(lens0) + row_lens(rows_of(f, all.take(n))),
                    decreases more as int, docs.left().len(),
                {
                    let ghost left = docs.left();
                    proof {
                        assert(texts_of(s, left).len() == left.len());
                    }
                    match docs.next_document() {
                        Some(doc) => {
                            proof {
                                assert(all.skip(n)[0] == doc@);
                                lemma_rows_step(f, ids0, lens0, all, n);
                                assert(texts_of(s, left.drop_first()) =~= texts_of(
                                    s,
                                    left,
                                ).drop_first());
                                assert(all.skip(n + 1) =~= all.skip(n).drop_first());
                            }
                            encode_into(encoder, doc, true, ids, lens);
                            proof {
                                n = n + 1;
                            }
                        },
                        None => {
                            more = false;
                        },
                    }
                }
            } else {
                proof {
                    lemma_rows_step(f, ids0, lens0, all, 0);
                    n = 1;
                }
                encode_into(encoder, bytes, true, ids, lens);
            }
        },
    }
    proof {
        assert(all.take(n) =~= all);
    }
}

/// One more document behind tokens and lengths.
proof fn lemma_rows_step(
    f: Encoding,
    ids0: Seq<u32>,
    lens0: Seq<usize>,
    docs: Seq<Seq<u8>>,
    n: int,
)
    requires
        0 <= n < docs.len(),
    ensures
        ids0 + flat(rows_of(f, docs.take(n + 1))) == ids0 + flat(rows_of(f, docs.take(n))) + f(
            docs[n],
            true,
        ),
        as_lens(lens0) + row_lens(rows_of(f, docs.take(n + 1))) == (as_lens(lens0) + row_lens(
            rows_of(f, docs.take(n)),
        )).push(f(docs[n], true).len() as int),
{
    let rows = rows_of(f, docs.take(n));
    let r = f(docs[n], true);
    lemma_rows_push(f, rows, docs, n);
    lemma_flat_push(rows, r);
    assert(ids0 + (flat(rows) + r) =~= ids0 + flat(rows) + r);
    assert(row_lens(rows.push(r)) =~= row_lens(rows).push(r.len() as int));
}

/// Encodes a chunk.
pub fn encode_chunk<E: DocEncoder>(
    encoder: &mut E,
    docs: &[&[u8]],
    format: &DocFormat,
    chunk: EncodeChunk,
) -> (r: ChunkTokens)
    requires
        old(encoder).ready(),
        !(*format is Parquet),
        chunk_within(contents(docs@), chunk),
    ensures
        final(encoder).ready(),
        final(encoder).model() == old(encoder).model(),
        final(encoder).encoding() == old(encoder).encoding(),
        r.wf(),
        r.holds(chunk_rows(old(encoder).encoding(), contents(docs@), *format, chunk)),
        r@ == chunk_rows(old(encoder).encoding(), contents(docs@), *format, chunk),
{
    let ghost f = encoder.encoding();
    let ghost all = contents(docs@);
    let ghost goal = chunk_rows(f, all, *format, chunk);
    let mut ids: Vec<u32> = Vec::new();
    let mut lens: Vec<usize> = Vec::new();
    let mut continues = false;
    let ghost none = Seq::<Seq<u32>>::empty();
    proof {
        assert(hold_rows(ids@, lens@, none)) by {
            assert(as_lens(lens@) =~= row_lens(none));
        }
    }
    match chunk {
        EncodeChunk::Docs { from, to } => {
            let ghost group = all.subrange(from as int, to as int);
            let mut i: usize = from;
            proof {
                assert(rows_of(f, group.take(0)) =~= none);
            }
            while i < to
                invariant
                    encoder.ready(),
                    encoder.model() == old(encoder).model(),
                    encoder.encoding() == f,
                    from <= i <= to <= docs@.len(),
                    all == contents(docs@),
                    group == all.subrange(from as int, to as int),
                    hold_rows(ids@, lens@, rows_of(f, group.take(i - from))),
                decreases to - i,
            {
                proof {
                    assert(group[i - from] == docs@[i as int]@);
                    lemma_rows_push(f, rows_of(f, group.take(i - from)), group, i - from);
                }
                encode_into(encoder, docs[i], true, &mut ids, &mut lens);
                i += 1;
            }
            proof {
                assert(group.take(i - from) =~= group);
            }
        },
        EncodeChunk::Region { file, start, end } => {
            let bytes = vstd::slice::slice_subrange(docs[file], start, end);
            encode_region(encoder, bytes, format, &mut ids, &mut lens);
            proof {
                assert(all[file as int] == docs@[file as int]@);
                assert(Seq::<u32>::empty() + flat(goal.rows) =~= flat(goal.rows));
                assert(as_lens(Seq::<usize>::empty()) + row_lens(goal.rows) =~= row_lens(
                    goal.rows,
                ));
            }
        },
        EncodeChunk::Fragment { doc, start, end, first } => {
            let bytes = vstd::slice::slice_subrange(docs[doc], start, end);
            encode_into(encoder, bytes, first, &mut ids, &mut lens);
            continues = !first;
            proof {
                assert(all[doc as int] == docs@[doc as int]@);
                assert(goal.rows =~= none.push(goal.rows[0]));
            }
        },
    }
    let r = ChunkTokens { ids, lens, continues };
    proof {
        lemma_holds_view(r, goal);
    }
    r
}

/// The chunks with their rows in order.
proof fn lemma_all_rows_at(
    f: Encoding,
    docs: Seq<Seq<u8>>,
    format: DocFormat,
    chunks: Seq<EncodeChunk>,
    i: int,
)
    requires
        0 <= i < chunks.len(),
    ensures
        all_rows(f, docs, format, chunks).len() == chunks.len(),
        all_rows(f, docs, format, chunks)[i] == chunk_rows(f, docs, format, chunks[i]),
{
}

/// Empty places for the tokens of `n` chunks.
fn empty_places(n: usize) -> (outs: Vec<Option<ChunkTokens>>)
    ensures
        outs@.len() == n,
        forall|i: int| 0 <= i < n ==> (#[trigger] outs@[i]) is None,
{
    let mut outs: Vec<Option<ChunkTokens>> = Vec::new();
    let mut i: usize = 0;
    while i < n
        invariant
            i <= n,
            outs@.len() == i,
            forall|k: int| 0 <= k < i ==> (#[trigger] outs@[k]) is None,
        decreases n - i,
    {
        outs.push(None);
        i += 1;
    }
    outs
}

/// Takes the tokens of chunks out of their places.
fn take_places(outs: Vec<Option<ChunkTokens>>) -> (r: Vec<ChunkTokens>)
    requires
        forall|i: int| 0 <= i < outs@.len() ==> (#[trigger] outs@[i]) is Some,
    ensures
        r@.len() == outs@.len(),
        forall|i: int| 0 <= i < r@.len() ==> outs@[i] == Some(#[trigger] r@[i]),
{
    let ghost all = outs@;
    let mut outs = outs;
    let mut r: Vec<ChunkTokens> = Vec::new();
    let mut i: usize = 0;
    while i < outs.len()
        invariant
            i <= outs@.len() == all.len(),
            r@.len() == i,
            forall|k: int| 0 <= k < all.len() ==> (#[trigger] all[k]) is Some,
            forall|k: int| 0 <= k < i ==> all[k] == Some(#[trigger] r@[k]),
            forall|k: int| i <= k < all.len() ==> #[trigger] outs@[k] == all[k],
        decreases outs@.len() - i,
    {
        let mut place: Option<ChunkTokens> = None;
        proof {
            assert(all[i as int] is Some);
            assert(outs@[i as int] == all[i as int]);
        }
        std::mem::swap(&mut place, &mut outs[i]);
        match place {
            Some(c) => {
                r.push(c);
            },
            None => {},
        }
        i += 1;
    }
    r
}

/// The encoded chunks hold their rows.
proof fn lemma_places_hold(outs: Seq<ChunkTokens>, v: Seq<ChunkRows>)
    requires
        outs.len() == v.len(),
        forall|i: int| 0 <= i < outs.len() ==> (#[trigger] outs[i]).holds(v[i]),
    ensures
        all_wf(outs),
        views(outs) == v,
{
    assert forall|i: int| 0 <= i < outs.len() implies (#[trigger] outs[i]).wf() && outs[i]@
        == v[i] by {
        lemma_holds_view(outs[i], v[i]);
    }
    assert(views(outs).len() == v.len());
    assert forall|i: int| 0 <= i < v.len() implies views(outs)[i] == v[i] by {
        assert(outs[i]@ == v[i]);
    }
    assert(views(outs) =~= v);
}

/// Encodes chunks in order and gathers their tokens and the row lengths of
/// documents. What is done is committed while the rest is encoded, as long as
/// at most `cap_tokens` come of it.
pub fn encode_chunks_gathered_with_cap<E: DocEncoder>(
    encoder: &mut E,
    docs: &[&[u8]],
    format: &DocFormat,
    chunks: &[EncodeChunk],
    cap_tokens: usize,
) -> (r: (Vec<u32>, Vec<usize>))
    requires
        old(encoder).ready(),
        !(*format is Parquet),
        forall|i: int| 0 <= i < chunks@.len() ==> chunk_within(contents(docs@), #[trigger] chunks@[i]),
        continuable_from(
            Seq::empty(),
            all_rows(old(encoder).encoding(), contents(docs@), *format, chunks@),
        ),
    ensures
        final(encoder).ready(),
        final(encoder).model() == old(encoder).model(),
        final(encoder).encoding() == old(encoder).encoding(),
        ({
            let rows = joined(
                all_rows(old(encoder).encoding(), contents(docs@), *format, chunks@),
            );
            hold_rows(r.0@, r.1@, rows)
        }),
{
    let ghost f = encoder.encoding();
    let ghost all = contents(docs@);
    let ghost v = all_rows(f, all, *format, chunks@);
    let n: usize = chunks.len();
    let mut outs = empty_places(n);
    let mut committer = Committer::try_new(cap_tokens);
    let mut i: usize = 0;
    proof {
        assert(v.len() == n);
        assert(some_hold(outs@, v)) by {
            assert forall|k: int| 0 <= k < v.len() implies ((#[trigger] outs@[k]) matches Some(
                c,
            ) ==> c.holds(v[k])) by {
                assert(outs@[k] is None);
            }
        }
    }
    while i < n
        invariant
            encoder.ready(),
            encoder.model() == old(encoder).model(),
            encoder.encoding() == f,
            !(*format is Parquet),
            n == chunks@.len(),
            i <= n,
            all == contents(docs@),
            v == all_rows(f, all, *format, chunks@),
            v.len() == n,
            forall|k: int| 0 <= k < chunks@.len() ==> chunk_within(all, #[trigger] chunks@[k]),
            some_hold(outs@, v),
            outs@.len() == n,
            forall|k: int| 0 <= k < i ==> (#[trigger] outs@[k]) is Some,
            committer matches Some(c) ==> c.keeps(v) && c.bound() == cap_tokens,
        decreases n - i,
    {
        proof {
            assert(chunk_within(all, chunks@[i as int]));
            lemma_all_rows_at(f, all, *format, chunks@, i as int);
        }
        let out = encode_chunk(encoder, docs, format, chunks[i]);
        let ghost before = outs@;
        outs.set(i, Some(out));
        proof {
            assert forall|k: int| 0 <= k < v.len() implies ((#[trigger] outs@[k]) matches Some(
                c,
            ) ==> c.holds(v[k])) by {
                if k != i {
                    assert(outs@[k] == before[k]);
                }
            }
            assert forall|k: int| 0 <= k < i + 1 implies (#[trigger] outs@[k]) is Some by {
                if k < i {
                    assert(outs@[k] == before[k]);
                }
            }
        }
        if let Some(c) = committer {
            let mut c = c;
            proof {
                assert(some_hold(outs@, v));
            }
            c.advance(&outs);
            committer = Some(c);
        }
        i += 1;
    }
    let ghost places = outs@;
    let outs = take_places(outs);
    proof {
        assert forall|k: int| 0 <= k < outs@.len() implies (#[trigger] outs@[k]).holds(v[k]) by {
            assert(places[k] == Some(outs@[k]));
        }
        lemma_places_hold(outs@, v);
        law_rows_hold_all_tokens(Seq::empty(), v);
        assert(flat(Seq::<Seq<u32>>::empty()) + chunk_ids(v) =~= chunk_ids(v));
    }
    let committed = match committer {
        Some(c) => c.finish(&outs),
        None => None,
    };
    let gathered = match committed {
        Some(ids) => ids,
        None => gather_flat(&outs),
    };
    let total: usize = gathered.len();
    proof {
        assert(total == chunk_ids(v).len());
    }
    let counts = row_counts(&outs);
    (gathered, counts)
}

/// Encodes chunks in order and gathers them. A token takes at least one byte,
/// so the bytes bound the tokens, unless normalizing adds some.
pub fn encode_chunks_gathered<E: DocEncoder>(
    encoder: &mut E,
    docs: &[&[u8]],
    format: &DocFormat,
    chunks: &[EncodeChunk],
    total_bytes: usize,
) -> (r: (Vec<u32>, Vec<usize>))
    requires
        old(encoder).ready(),
        !(*format is Parquet),
        forall|i: int| 0 <= i < chunks@.len() ==> chunk_within(contents(docs@), #[trigger] chunks@[i]),
        continuable_from(
            Seq::empty(),
            all_rows(old(encoder).encoding(), contents(docs@), *format, chunks@),
        ),
    ensures
        final(encoder).ready(),
        final(encoder).model() == old(encoder).model(),
        final(encoder).encoding() == old(encoder).encoding(),
        ({
            let rows = joined(
                all_rows(old(encoder).encoding(), contents(docs@), *format, chunks@),
            );
            hold_rows(r.0@, r.1@, rows)
        }),
{
    encode_chunks_gathered_with_cap(encoder, docs, format, chunks, total_bytes)
}

/// The documents of files, encoded one after the other.
pub fn encode_files_in_order<E: DocEncoder>(
    encoder: &mut E,
    files: &[&[u8]],
    format: &DocFormat,
) -> (r: (Vec<u32>, Vec<usize>))
    requires
        old(encoder).ready(),
        !(*format is Parquet),
    ensures
        final(encoder).ready(),
        final(encoder).model() == old(encoder).model(),
        final(encoder).encoding() == old(encoder).encoding(),
        hold_rows(
            r.0@,
            r.1@,
            rows_of(old(encoder).encoding(), file_docs(*format, contents(files@))),
        ),
{
    let ghost f = encoder.encoding();
    let ghost all = contents(files@);
    let mut ids: Vec<u32> = Vec::new();
    let mut lens: Vec<usize> = Vec::new();
    let mut i: usize = 0;
    proof {
        assert(file_docs(*format, all.take(0)) =~= Seq::<Seq<u8>>::empty());
        let none = rows_of(f, file_docs(*format, all.take(0)));
        assert(none =~= Seq::<Seq<u32>>::empty());
        assert(as_lens(lens@) =~= row_lens(none));
    }
    while i < files.len()
        invariant
            encoder.ready(),
            encoder.model() == old(encoder).model(),
            encoder.encoding() == f,
            !(*format is Parquet),
            i <= files@.len(),
            all == contents(files@),
            hold_rows(ids@, lens@, rows_of(f, file_docs(*format, all.take(i as int)))),
        decreases files@.len() - i,
    {
        encode_region(encoder, files[i], format, &mut ids, &mut lens);
        proof {
            let head = all.take(i + 1);
            assert(head.drop_last() =~= all.take(i as int));
            assert(head.last() == files@[i as int]@);
            let x = file_docs(*format, all.take(i as int));
            let y = region_docs(*format, files@[i as int]@);
            assert(rows_of(f, x + y) =~= rows_of(f, x) + rows_of(f, y));
            lemma_flat_add(rows_of(f, x), rows_of(f, y));
            assert(row_lens(rows_of(f, x) + rows_of(f, y)) =~= row_lens(rows_of(f, x)) + row_lens(
                rows_of(f, y),
            ));
        }
        i += 1;
    }
    proof {
        assert(all.take(i as int) =~= all);
    }
    (ids, lens)
}

} // verus!
