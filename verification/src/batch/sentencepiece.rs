//! Batches of documents and files under a SentencePiece model.
use crate::batch::chunks::{
    chunk_target_bytes, chunks_from, contents, doc_chunks, fragment_chunks, group_chunk, sizes_of,
    target_bytes, total_bytes, total_len, Cutting, EncodeChunk,
};
use crate::batch::encode::{
    all_rows, chunk_rows, chunk_within, encode_chunk, encode_files_in_order, file_docs, hold_rows,
    id_values, rows_of, sp_encoding, DocEncoder,
};
use crate::batch::file_laws::{
    file_chunks, law_file_chunks_are_encodable, law_file_chunks_encode_documents, regions_cleanly,
};
use crate::batch::laws::{
    cuts_exact, cuts_within, fits_machine, law_chunks_are_encodable, law_chunks_encode_documents,
    parts_ids, parts_within,
};
use crate::batch::ragged::{
    build_file_chunks, lemma_slices_fit, lemma_whole_files, none_cut, whole_files,
};
use crate::batch::rows::{assemble_ragged, continuable_from, joined, views, ChunkTokens};
use crate::bpe::tiktoken::all_nonempty;
use crate::input::format::DocFormat;
use crate::sp::fragment_laws::{fragment_tokens, law_fragments_encode_whole, tokens_are_text};
use crate::sp::fragments::{as_pairs, fragments, fragments_from, lemma_next_safe_cut, next_safe_cut};
use crate::sp::model::{fragment_pos, raw_prepend_of, raw_tokens, SentencePieceBPE, SpModel};
use crate::text::utf8_text;
use vstd::prelude::*;
use vstd::utf8::{encode_utf8, valid_utf8};

verus! {

/// Documents of more than twice the target are split at safe cuts, where the
/// model encodes raw text.
pub open spec fn sp_cutting(m: SpModel, target: int) -> Cutting {
    |doc: Seq<u8>, emitted: int|
        if raw_prepend_of(m) is Some && doc.len() > 2 * target {
            Some(fragments(m, doc, target))
        } else {
            None
        }
}

/// The chunks of texts.
pub open spec fn sp_chunks(m: SpModel, docs: Seq<Seq<u8>>, target: int) -> Seq<EncodeChunk> {
    doc_chunks(docs, sizes_of(0, target, false), sp_cutting(m, target))
}

proof fn lemma_fragments_from_within(m: SpModel, s: Seq<u8>, target: int, start: int)
    requires
        0 <= start,
        target > 0,
    ensures
        ({
            let v = fragments_from(m, s, target, start);
            &&& start < s.len() ==> v.len() > 0 && v[0].0 == start
            &&& forall|k: int| 0 <= k < v.len() ==> start <= (#[trigger] v[k]).0 < v[k].1
                <= s.len()
        }),
    decreases s.len() - start,
{
    if start < s.len() {
        let e = if start + target <= s.len() {
            next_safe_cut(m, s, start + target)
        } else {
            s.len() as int
        };
        if start + target <= s.len() {
            lemma_next_safe_cut(m, s, start + target);
        }
        lemma_fragments_from_within(m, s, target, e);
        let rest = fragments_from(m, s, target, e);
        let v = fragments_from(m, s, target, start);
        assert(v =~= seq![(start, e)] + rest);
        assert forall|k: int| 0 <= k < v.len() implies start <= (#[trigger] v[k]).0 < v[k].1
            <= s.len() by {
            if k > 0 {
                assert(v[k] == rest[k - 1]);
            }
        }
    }
}

/// The parts of a text, the first of which starts it.
proof fn lemma_fragments_within(m: SpModel, s: Seq<u8>, target: int)
    ensures
        parts_within(s, fragments(m, s, target)),
        fragments(m, s, target)[0].0 == 0,
        forall|k: int|
            0 < k < fragments(m, s, target).len() ==> (#[trigger] fragments(m, s, target)[k]).0 > 0,
{
    if s.len() > 0 {
        let step = if target > 0 {
            target
        } else {
            1
        };
        lemma_fragments_from_within(m, s, step, 0);
        let v = fragments(m, s, target);
        assert forall|k: int| 0 < k < v.len() implies (#[trigger] v[k]).0 > 0 by {
            let e = v[0].1;
            let rest = fragments_from(m, s, step, e);
            assert(v =~= seq![(0int, e)] + rest);
            lemma_fragments_from_within(m, s, step, e);
            assert(v[k] == rest[k - 1]);
        }
        assert forall|k: int| 0 <= k < v.len() implies 0 <= (#[trigger] v[k]).0 <= v[k].1
            <= s.len() by {}
    }
}

/// Part by part, the tokens of fragments.
proof fn lemma_sp_parts(m: SpModel, s: Seq<u8>, v: Seq<(int, int)>, first: bool)
    requires
        forall|k: int| 0 <= k < v.len() ==> ((#[trigger] v[k]).0 == 0) == (first && k == 0),
    ensures
        parts_ids(sp_encoding(m), s, v, first) == id_values(fragment_tokens(m, s, v)),
    decreases v.len(),
{
    if v.len() == 0 {
        assert(parts_ids(sp_encoding(m), s, v, first) =~= id_values(fragment_tokens(m, s, v)));
    } else {
        let rest = v.drop_first();
        assert((v[0].0 == 0) == first);
        assert forall|k: int| 0 <= k < rest.len() implies ((#[trigger] rest[k]).0 == 0) == (false
            && k == 0) by {
            assert(rest[k] == v[k + 1]);
        }
        lemma_sp_parts(m, s, rest, false);
        let x = raw_tokens(m, s.subrange(v[0].0, v[0].1), fragment_pos(first));
        let y = fragment_tokens(m, s, rest);
        assert(id_values(x + y) =~= id_values(x) + id_values(y));
        assert(fragment_tokens(m, s, v) == x + y);
    }
}

/// Fragments of documents lie in them.
pub proof fn law_sp_cutting_within(m: SpModel, docs: Seq<Seq<u8>>, target: int)
    ensures
        cuts_within(docs, sp_cutting(m, target)),
{
    let cut = sp_cutting(m, target);
    assert forall|k: int, e: int| 0 <= k < docs.len() implies (#[trigger] cut(docs[k], e)
        matches Some(v) ==> parts_within(docs[k], v)) by {
        lemma_fragments_within(m, docs[k], target);
    }
}

/// Where pieces and added tokens are text, the fragments of a document encode
/// to the tokens of the whole.
pub proof fn law_sp_cutting_exact(m: SpModel, docs: Seq<Seq<u8>>, target: int)
    requires
        fits_machine(docs),
        all_nonempty(m.added),
        tokens_are_text(m),
    ensures
        cuts_exact(sp_encoding(m), docs, sp_cutting(m, target)),
{
    let cut = sp_cutting(m, target);
    let f = sp_encoding(m);
    assert forall|k: int, e: int| 0 <= k < docs.len() implies (#[trigger] cut(docs[k], e)
        matches Some(v) ==> parts_ids(f, docs[k], v, true) == f(docs[k], true)) by {
        let s = docs[k];
        assert(docs[k].len() <= usize::MAX);
        if raw_prepend_of(m) is Some {
            lemma_fragments_within(m, s, target);
            law_fragments_encode_whole(m, s, target);
            let v = fragments(m, s, target);
            assert forall|j: int| 0 <= j < v.len() implies ((#[trigger] v[j]).0 == 0) == (true && j
                == 0) by {}
            lemma_sp_parts(m, s, v, true);
        }
    }
}

/// Groups texts into chunks of roughly `target` bytes. A text of more than
/// twice that is split, except under a model that normalizes text as a whole.
pub fn sp_build_chunks(tokenizer: &SentencePieceBPE, docs: &[&[u8]], target: usize) -> (chunks: Vec<
    EncodeChunk,
>)
    requires
        target <= usize::MAX / 2,
        total_len(contents(docs@)) <= usize::MAX,
    ensures
        chunks@ == sp_chunks(tokenizer@, contents(docs@), target as int),
        all_nonempty(tokenizer@.added),
{
    let ghost m = tokenizer@;
    let ghost all = contents(docs@);
    let ghost z = sizes_of(0, target as int, false);
    let ghost cut = sp_cutting(m, target as int);
    let ghost goal = doc_chunks(all, z, cut);
    let can_split = tokenizer.supports_fragment_split();
    let mut chunks: Vec<EncodeChunk> = Vec::new();
    let mut from: usize = 0;
    let mut acc: usize = 0;
    let ghost mut emitted: int = 0;
    let mut i: usize = 0;
    proof {
        assert(chunks@ + goal =~= goal);
        assert(all.take(0) =~= Seq::<Seq<u8>>::empty());
    }
    while i < docs.len()
        invariant
            m == tokenizer@,
            can_split == (raw_prepend_of(m) is Some),
            all_nonempty(m.added),
            target <= usize::MAX / 2,
            all == contents(docs@),
            total_len(all) <= usize::MAX,
            z == sizes_of(0, target as int, false),
            cut == sp_cutting(m, target as int),
            i <= docs@.len(),
            from <= i,
            from == i ==> acc == 0,
            0 <= emitted,
            emitted + acc == total_len(all.take(i as int)),
            chunks@ + chunks_from(all, i as int, from as int, emitted, acc as int, z, cut) == goal,
        decreases docs@.len() - i,
    {
        let doc = docs[i];
        let n: usize = doc.len();
        let ghost chunks0 = chunks@;
        let ghost rest = chunks_from(all, i as int, from as int, emitted, acc as int, z, cut);
        proof {
            assert(all[i as int] == doc@);
            crate::batch::chunks::lemma_total_step(all, i as int);
            crate::batch::chunks::lemma_total_part(all, i + 1);
        }
        if can_split && n > 2 * target {
            if from < i {
                chunks.push(EncodeChunk::Docs { from, to: i });
            }
            proof {
                assert(chunks@ =~= chunks0 + group_chunk(from as int, i as int));
            }
            let ranges = tokenizer.byte_fragment_ranges(doc, target);
            let ghost v = fragments(m, doc@, target as int);
            let ghost chunks1 = chunks@;
            let mut k: usize = 0;
            proof {
                assert(as_pairs(ranges@).len() == ranges@.len());
                assert(chunks1 + fragment_chunks(i as int, v).take(0) =~= chunks1);
            }
            while k < ranges.len()
                invariant
                    k <= ranges@.len(),
                    as_pairs(ranges@) == v,
                    v.len() == ranges@.len(),
                    chunks@ == chunks1 + fragment_chunks(i as int, v).take(k as int),
                decreases ranges@.len() - k,
            {
                let (start, end) = ranges[k];
                chunks.push(EncodeChunk::Fragment { doc: i, start, end, first: k == 0 });
                proof {
                    let c = fragment_chunks(i as int, v);
                    assert(as_pairs(ranges@)[k as int] == (start as int, end as int));
                    assert(v[k as int] == (start as int, end as int));
                    assert(c.take(k + 1) =~= c.take(k as int).push(c[k as int]));
                }
                k += 1;
            }
            proof {
                let c = fragment_chunks(i as int, v);
                assert(c.take(k as int) =~= c);
                emitted = emitted + acc + n;
                let more = chunks_from(all, i + 1, i + 1, emitted, 0, z, cut);
                assert(chunks@ + more =~= chunks0 + rest);
            }
            acc = 0;
            from = i + 1;
        } else {
            acc = acc + n;
            if acc >= target {
                chunks.push(EncodeChunk::Docs { from, to: i + 1 });
                proof {
                    emitted = emitted + acc;
                    let more = chunks_from(all, i + 1, i + 1, emitted, 0, z, cut);
                    assert(chunks@ + more =~= chunks0 + rest);
                }
                acc = 0;
                from = i + 1;
            }
        }
        i += 1;
    }
    if from < i {
        chunks.push(EncodeChunk::Docs { from, to: i });
    }
    proof {
        assert(chunks@ =~= goal);
    }
    chunks
}

/// Encodes chunks in order and puts their rows together.
pub fn sp_encode_chunks(
    tokenizer: &SentencePieceBPE,
    docs: &[&[u8]],
    format: &DocFormat,
    chunks: &[EncodeChunk],
) -> (r: (Vec<u32>, Vec<usize>))
    requires
        !(*format is Parquet),
        forall|i: int| 0 <= i < chunks@.len() ==> chunk_within(contents(docs@), #[trigger] chunks@[i]),
        continuable_from(
            Seq::empty(),
            all_rows(sp_encoding(tokenizer@), contents(docs@), *format, chunks@),
        ),
    ensures
        hold_rows(
            r.0@,
            r.1@,
            joined(all_rows(sp_encoding(tokenizer@), contents(docs@), *format, chunks@)),
        ),
{
    let ghost f = sp_encoding(tokenizer@);
    let ghost all = contents(docs@);
    let ghost v = all_rows(f, all, *format, chunks@);
    let mut encoder = tokenizer.encoder();
    let mut outs: Vec<ChunkTokens> = Vec::new();
    let mut i: usize = 0;
    while i < chunks.len()
        invariant
            encoder.ready(),
            encoder.encoding() == f,
            !(*format is Parquet),
            i <= chunks@.len(),
            all == contents(docs@),
            v == all_rows(f, all, *format, chunks@),
            forall|k: int| 0 <= k < chunks@.len() ==> chunk_within(all, #[trigger] chunks@[k]),
            outs@.len() == i,
            forall|k: int| 0 <= k < i ==> (#[trigger] outs@[k]).wf() && outs@[k]@ == v[k],
        decreases chunks@.len() - i,
    {
        proof {
            assert(chunk_within(all, chunks@[i as int]));
            assert(v[i as int] == chunk_rows(f, all, *format, chunks@[i as int]));
        }
        let out = encode_chunk(&mut encoder, docs, format, chunks[i]);
        outs.push(out);
        i += 1;
    }
    proof {
        assert(views(outs@).len() == v.len());
        assert forall|k: int| 0 <= k < v.len() implies views(outs@)[k] == v[k] by {
            assert(outs@[k]@ == v[k]);
        }
        assert(views(outs@) =~= v);
    }
    assemble_ragged(&outs)
}

/// Encodes the bytes of texts chunk by chunk.
fn sp_encode_bytes_ragged(tokenizer: &SentencePieceBPE, docs: &[&[u8]], threads: usize) -> (r: (
    Vec<u32>,
    Vec<usize>,
))
    requires
        0 < threads <= usize::MAX / 16,
        total_len(contents(docs@)) <= usize::MAX,
    ensures
        ({
            let all = contents(docs@);
            let m = tokenizer@;
            let f = sp_encoding(m);
            let target = target_bytes(total_len(all), threads as int);
            &&& hold_rows(
                r.0@,
                r.1@,
                joined(all_rows(f, all, whole_files(), sp_chunks(m, all, target))),
            )
            &&& m.between is None || raw_prepend_of(m) is None || none_cut(all, target)
                ==> hold_rows(r.0@, r.1@, rows_of(f, all))
        }),
{
    let ghost m = tokenizer@;
    let ghost f = sp_encoding(m);
    let ghost all = contents(docs@);
    let total: usize = total_bytes(docs);
    let target: usize = chunk_target_bytes(total, threads);
    let chunks = sp_build_chunks(tokenizer, docs, target);
    let format = DocFormat::Text { separator: None };
    let ghost z = sizes_of(0, target as int, false);
    let ghost cut = sp_cutting(m, target as int);
    let _ = tokenizer.raw_prepend_kind();
    proof {
        lemma_slices_fit(docs);
        law_sp_cutting_within(m, all, target as int);
        law_chunks_are_encodable(f, all, format, z, cut);
        if m.between is None {
            law_sp_cutting_exact(m, all, target as int);
            law_chunks_encode_documents(f, all, format, z, cut);
        } else if raw_prepend_of(m) is None || none_cut(all, target as int) {
            assert(cuts_exact(f, all, cut)) by {
                assert forall|k: int, e: int| 0 <= k < all.len() implies (#[trigger] cut(all[k], e)
                    matches Some(v) ==> parts_ids(f, all[k], v, true) == f(all[k], true)) by {
                    if none_cut(all, target as int) {
                        assert(all[k].len() <= 2 * target);
                    }
                }
            }
            law_chunks_encode_documents(f, all, format, z, cut);
        }
    }
    sp_encode_chunks(tokenizer, docs, &format, chunks.as_slice())
}

/// The bytes of texts.
pub open spec fn text_contents(texts: Seq<&str>) -> Seq<Seq<u8>> {
    texts.map_values(|t: &str| encode_utf8(t@))
}

/// The bytes of texts.
fn text_bytes<'a>(texts: &[&'a str]) -> (r: Vec<&'a [u8]>)
    ensures
        contents(r@) == text_contents(texts@),
{
    let mut r: Vec<&'a [u8]> = Vec::new();
    let mut i: usize = 0;
    while i < texts.len()
        invariant
            i <= texts@.len(),
            r@.len() == i,
            forall|k: int| 0 <= k < i ==> (#[trigger] r@[k])@ == encode_utf8(texts@[k]@),
        decreases texts@.len() - i,
    {
        r.push(texts[i].as_bytes());
        i += 1;
    }
    proof {
        assert(contents(r@) =~= text_contents(texts@));
    }
    r
}

/// Encodes texts chunk by chunk: the tokens of all of them and the length of
/// each row. Where pieces and added tokens are text, or no text is cut, the
/// rows are those of whole texts.
pub fn sp_encode_docs_ragged(tokenizer: &SentencePieceBPE, texts: &[&str], threads: usize) -> (r: (
    Vec<u32>,
    Vec<usize>,
))
    requires
        0 < threads <= usize::MAX / 16,
        total_len(text_contents(texts@)) <= usize::MAX,
    ensures
        ({
            let all = text_contents(texts@);
            let m = tokenizer@;
            let f = sp_encoding(m);
            let target = target_bytes(total_len(all), threads as int);
            &&& hold_rows(
                r.0@,
                r.1@,
                joined(all_rows(f, all, whole_files(), sp_chunks(m, all, target))),
            )
            &&& m.between is None || raw_prepend_of(m) is None || none_cut(all, target)
                ==> hold_rows(r.0@, r.1@, rows_of(f, all))
        }),
{
    let docs = text_bytes(texts);
    sp_encode_bytes_ragged(tokenizer, docs.as_slice(), threads)
}

/// Encodes texts one after the other, with one encoder.
pub fn sp_encode_docs_ragged_serial(tokenizer: &SentencePieceBPE, texts: &[&str]) -> (r: (
    Vec<u32>,
    Vec<usize>,
))
    ensures
        hold_rows(r.0@, r.1@, rows_of(sp_encoding(tokenizer@), text_contents(texts@))),
{
    let docs = text_bytes(texts);
    let format = DocFormat::Text { separator: None };
    proof {
        lemma_whole_files(format, contents(docs@));
    }
    sp_encode_files_docs_serial(tokenizer, docs.as_slice(), &format)
}

/// Encodes the documents of files. Without a separator each file is one
/// document; otherwise files are cut into regions at document boundaries.
pub fn sp_encode_files_docs(
    tokenizer: &SentencePieceBPE,
    files: &[&[u8]],
    format: &DocFormat,
    threads: usize,
) -> (r: (Vec<u32>, Vec<usize>))
    requires
        !(*format is Parquet),
        0 < threads <= usize::MAX / 16,
        total_len(contents(files@)) <= usize::MAX,
    ensures
        ({
            let all = contents(files@);
            let m = tokenizer@;
            let f = sp_encoding(m);
            let target = target_bytes(total_len(all), threads as int);
            if *format matches DocFormat::Text { separator: None } {
                &&& hold_rows(
                    r.0@,
                    r.1@,
                    joined(all_rows(f, all, whole_files(), sp_chunks(m, all, target))),
                )
                &&& m.between is None || raw_prepend_of(m) is None || none_cut(all, target)
                    ==> hold_rows(r.0@, r.1@, rows_of(f, file_docs(*format, all)))
            } else {
                &&& hold_rows(
                    r.0@,
                    r.1@,
                    joined(
                        all_rows(
                            f,
                            all,
                            *format,
                            file_chunks(*format, all, target, all.len() as int),
                        ),
                    ),
                )
                &&& (forall|i: int|
                    0 <= i < all.len() ==> regions_cleanly(*format, #[trigger] all[i]))
                    ==> hold_rows(r.0@, r.1@, rows_of(f, file_docs(*format, all)))
            }
        }),
{
    let ghost all = contents(files@);
    let ghost f = sp_encoding(tokenizer@);
    let whole = match format {
        DocFormat::Text { separator } => separator.is_none(),
        _ => false,
    };
    if whole {
        proof {
            lemma_whole_files(*format, all);
        }
        return sp_encode_bytes_ragged(tokenizer, files, threads);
    }
    let total: usize = total_bytes(files);
    let target: usize = chunk_target_bytes(total, threads);
    let chunks = build_file_chunks(files, format, target);
    proof {
        lemma_slices_fit(files);
        law_file_chunks_are_encodable(f, all, *format, target as int);
        if forall|i: int| 0 <= i < all.len() ==> regions_cleanly(*format, #[trigger] all[i]) {
            law_file_chunks_encode_documents(f, all, *format, target as int);
        }
    }
    sp_encode_chunks(tokenizer, files, format, chunks.as_slice())
}

/// Encodes the documents of files one after the other, with one encoder.
pub fn sp_encode_files_docs_serial(
    tokenizer: &SentencePieceBPE,
    files: &[&[u8]],
    format: &DocFormat,
) -> (r: (Vec<u32>, Vec<usize>))
    requires
        !(*format is Parquet),
    ensures
        hold_rows(
            r.0@,
            r.1@,
            rows_of(sp_encoding(tokenizer@), file_docs(*format, contents(files@))),
        ),
{
    let mut encoder = tokenizer.encoder();
    encode_files_in_order(&mut encoder, files, format)
}

/// A separator that is not text could cut inside a character.
#[derive(Clone, Copy, Debug, PartialEq, Eq, Structural)]
pub struct SeparatorNotText;

/// Encodes byte regions that divide into documents, chunk by chunk or one
/// document after the other. A separator has to be text.
pub fn sp_encode_regions_ragged(
    tokenizer: &SentencePieceBPE,
    regions: &[&[u8]],
    format: &DocFormat,
    threads: usize,
    parallel: bool,
) -> (r: Result<(Vec<u32>, Vec<usize>), SeparatorNotText>)
    requires
        !(*format is Parquet),
        parallel ==> 0 < threads <= usize::MAX / 16 && total_len(contents(regions@)) <= usize::MAX,
    ensures
        r is Ok <==> valid_utf8(format.separator_bytes()),
        r matches Ok(ragged) ==> {
            let all = contents(regions@);
            let m = tokenizer@;
            let f = sp_encoding(m);
            let rows = rows_of(f, file_docs(*format, all));
            let target = target_bytes(total_len(all), threads as int);
            if !parallel {
                hold_rows(ragged.0@, ragged.1@, rows)
            } else if *format matches DocFormat::Text { separator: None } {
                &&& hold_rows(
                    ragged.0@,
                    ragged.1@,
                    joined(all_rows(f, all, whole_files(), sp_chunks(m, all, target))),
                )
                &&& m.between is None || raw_prepend_of(m) is None || none_cut(all, target)
                    ==> hold_rows(ragged.0@, ragged.1@, rows)
            } else {
                &&& hold_rows(
                    ragged.0@,
                    ragged.1@,
                    joined(
                        all_rows(
                            f,
                            all,
                            *format,
                            file_chunks(*format, all, target, all.len() as int),
                        ),
                    ),
                )
                &&& (forall|i: int|
                    0 <= i < all.len() ==> regions_cleanly(*format, #[trigger] all[i]))
                    ==> hold_rows(ragged.0@, ragged.1@, rows)
            }
        },
{
    if utf8_text(format.separator()).is_none() {
        return Err(SeparatorNotText);
    }
    if parallel {
        Ok(sp_encode_files_docs(tokenizer, regions, format, threads))
    } else {
        Ok(sp_encode_files_docs_serial(tokenizer, regions, format))
    }
}

} // verus!
