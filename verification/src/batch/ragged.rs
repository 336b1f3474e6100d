//! Batches of documents and files under a byte-pair tokenizer.
use crate::batch::chunks::{
    build_doc_chunks, chunk_target_bytes, contents, cutting, doc_chunks, sizes_of, target_bytes,
    total_bytes, total_len, EncodeChunk,
};
use crate::batch::encode::{
    all_rows, bpe_encoding, encode_chunks_gathered, encode_files_in_order, file_docs, hold_rows,
    rows_of,
};
use crate::batch::file_laws::{
    file_chunks, law_file_chunks_are_encodable, law_file_chunks_encode_documents, region_chunks,
    regions_cleanly,
};
use crate::batch::laws::{
    cuts_exact, fits_machine, law_chunks_are_encodable, law_chunks_encode_documents,
    law_cutting_exact, law_cutting_within, splits_cleanly,
};
use crate::batch::rows::joined;
use crate::bpe::split_laws::blockers_of;
use crate::bpe::tiktoken::{budget_total, Tokenizer, TokenizerView};
use crate::input::format::{chunk_ranges, regions, DocFormat};
use crate::pretokenize::split::SplitBlocker;
use crate::sp::fragments::as_pairs;
use vstd::prelude::*;

verus! {

/// Files that are one document each.
pub open spec fn whole_files() -> DocFormat {
    DocFormat::Text { separator: None }
}

/// No document is large enough to be cut.
pub open spec fn none_cut(docs: Seq<Seq<u8>>, target: int) -> bool {
    forall|i: int| 0 <= i < docs.len() ==> (#[trigger] docs[i]).len() <= 2 * target
}

/// The rows of documents that are encoded chunk by chunk, with cuts that the
/// tokenizer's added tokens allow.
pub open spec fn chunked_rows(
    t: TokenizerView,
    docs: Seq<Seq<u8>>,
    target: int,
    lpt: bool,
    rows: Seq<Seq<u32>>,
) -> bool {
    exists|tokens: Seq<SplitBlocker>| #[trigger]
        blockers_of(tokens, t.added) && ({
            let z = sizes_of(total_len(docs), target, lpt);
            rows == joined(
                all_rows(
                    bpe_encoding(t),
                    docs,
                    whole_files(),
                    doc_chunks(docs, z, cutting(z, tokens)),
                ),
            )
        })
}

/// The contents of slices fit the machine.
pub proof fn lemma_slices_fit(docs: &[&[u8]])
    ensures
        fits_machine(contents(docs@)),
{
    let all = contents(docs@);
    assert(docs.len() == docs@.len());
    assert(all.len() == docs@.len());
    assert forall|i: int| 0 <= i < all.len() implies (#[trigger] all[i]).len() <= usize::MAX by {
        assert(docs@[i].len() == all[i].len());
    }
}

/// Encodes documents chunk by chunk: the tokens of all of them and the length
/// of each row. Where documents split cleanly, or none is large enough to be
/// cut, the rows are those of whole documents.
pub fn encode_docs_ragged_with(
    tokenizer: &mut Tokenizer,
    docs: &[&[u8]],
    threads: usize,
    lpt: bool,
) -> (r: (Vec<u32>, Vec<usize>))
    requires
        old(tokenizer).wf(),
        0 < threads <= usize::MAX / 16,
        total_len(contents(docs@)) <= usize::MAX,
    ensures
        final(tokenizer).wf(),
        final(tokenizer)@ == old(tokenizer)@,
        final(tokenizer).merge_ranks() == old(tokenizer).merge_ranks(),
        budget_total(final(tokenizer).budget()) == budget_total(old(tokenizer).budget()),
        ({
            let all = contents(docs@);
            let t = old(tokenizer)@;
            let target = target_bytes(total_len(all), threads as int);
            &&& exists|rows: Seq<Seq<u32>>| #[trigger]
                chunked_rows(t, all, target, lpt, rows) && hold_rows(r.0@, r.1@, rows)
            &&& splits_cleanly(t, all) || none_cut(all, target) ==> hold_rows(
                r.0@,
                r.1@,
                rows_of(bpe_encoding(t), all),
            )
        }),
{
    let ghost t = tokenizer@;
    let ghost f = bpe_encoding(t);
    let ghost all = contents(docs@);
    let total: usize = total_bytes(docs);
    let added = tokenizer.added_token_split_blockers();
    let target: usize = chunk_target_bytes(total, threads);
    let chunks = build_doc_chunks(docs, total, target, added.as_slice(), lpt);
    let format = DocFormat::Text { separator: None };
    let ghost z = sizes_of(total as int, target as int, lpt);
    let ghost cut = cutting(z, added@);
    proof {
        lemma_slices_fit(docs);
        law_cutting_within(all, z, added@);
        law_chunks_are_encodable(f, all, format, z, cut);
        assert(blockers_of(added@, t.added));
        if splits_cleanly(t, all) {
            if t.nfc {
                tokenizer.lemma_normalizer_divides();
            }
            law_cutting_exact(t, all, z, added@);
            law_chunks_encode_documents(f, all, format, z, cut);
        } else if none_cut(all, target as int) {
            assert(z.target == target);
            assert(cuts_exact(f, all, cut)) by {
                assert forall|k: int, e: int| 0 <= k < all.len() implies (#[trigger] cut(all[k], e)
                    matches Some(v) ==> crate::batch::laws::parts_ids(f, all[k], v, true) == f(
                    all[k],
                    true,
                )) by {
                    assert(all[k].len() <= 2 * target);
                }
            }
            law_chunks_encode_documents(f, all, format, z, cut);
        }
    }
    let r = encode_chunks_gathered(tokenizer, docs, &format, chunks.as_slice(), total);
    proof {
        let rows = joined(all_rows(f, all, format, doc_chunks(all, z, cut)));
        assert(chunked_rows(t, all, target as int, lpt, rows));
    }
    r
}

/// Encodes documents, with large chunks first.
pub fn encode_docs_ragged(tokenizer: &mut Tokenizer, docs: &[&[u8]], threads: usize) -> (r: (
    Vec<u32>,
    Vec<usize>,
))
    requires
        old(tokenizer).wf(),
        0 < threads <= usize::MAX / 16,
        total_len(contents(docs@)) <= usize::MAX,
    ensures
        final(tokenizer).wf(),
        final(tokenizer)@ == old(tokenizer)@,
        final(tokenizer).merge_ranks() == old(tokenizer).merge_ranks(),
        budget_total(final(tokenizer).budget()) == budget_total(old(tokenizer).budget()),
        ({
            let all = contents(docs@);
            let t = old(tokenizer)@;
            let target = target_bytes(total_len(all), threads as int);
            &&& exists|rows: Seq<Seq<u32>>| #[trigger]
                chunked_rows(t, all, target, true, rows) && hold_rows(r.0@, r.1@, rows)
            &&& splits_cleanly(t, all) || none_cut(all, target) ==> hold_rows(
                r.0@,
                r.1@,
                rows_of(bpe_encoding(t), all),
            )
        }),
{
    encode_docs_ragged_with(tokenizer, docs, threads, true)
}

/// The chunks of files: regions of whole documents.
pub fn build_file_chunks(files: &[&[u8]], format: &DocFormat, target: usize) -> (chunks: Vec<
    EncodeChunk,
>)
    requires
        !(*format is Parquet),
    ensures
        chunks@ == file_chunks(*format, contents(files@), target as int, files@.len() as int),
{
    let ghost all = contents(files@);
    let mut chunks: Vec<EncodeChunk> = Vec::new();
    let mut i: usize = 0;
    while i < files.len()
        invariant
            !(*format is Parquet),
            i <= files@.len(),
            all == contents(files@),
            chunks@ == file_chunks(*format, all, target as int, i as int),
        decreases files@.len() - i,
    {
        let ranges = chunk_ranges(files[i], format, target);
        let ghost v = regions(*format, all[i as int], target as int);
        let ghost chunks0 = chunks@;
        let mut k: usize = 0;
        proof {
            assert(all[i as int] == files@[i as int]@);
            assert(as_pairs(ranges@).len() == ranges@.len());
            assert(chunks0 + region_chunks(i as int, v).take(0) =~= chunks0);
        }
        while k < ranges.len()
            invariant
                k <= ranges@.len(),
                as_pairs(ranges@) == v,
                v.len() == ranges@.len(),
                chunks@ == chunks0 + region_chunks(i as int, v).take(k as int),
            decreases ranges@.len() - k,
        {
            let (start, end) = ranges[k];
            chunks.push(EncodeChunk::Region { file: i, start, end });
            proof {
                let c = region_chunks(i as int, v);
                assert(as_pairs(ranges@)[k as int] == (start as int, end as int));
                assert(v[k as int] == (start as int, end as int));
                assert(c.take(k + 1) =~= c.take(k as int).push(c[k as int]));
            }
            k += 1;
        }
        proof {
            let c = region_chunks(i as int, v);
            assert(c.take(k as int) =~= c);
        }
        i += 1;
    }
    chunks
}

/// Encodes the documents of files. Without a separator each file is one
/// document; otherwise files are cut into regions at document boundaries.
/// Where regions hold the documents of their files, the rows are those of the
/// documents of all files in order.
pub fn encode_files_docs(
    tokenizer: &mut Tokenizer,
    files: &[&[u8]],
    format: &DocFormat,
    threads: usize,
) -> (r: (Vec<u32>, Vec<usize>))
    requires
        old(tokenizer).wf(),
        !(*format is Parquet),
        0 < threads <= usize::MAX / 16,
        total_len(contents(files@)) <= usize::MAX,
    ensures
        final(tokenizer).wf(),
        final(tokenizer)@ == old(tokenizer)@,
        final(tokenizer).merge_ranks() == old(tokenizer).merge_ranks(),
        budget_total(final(tokenizer).budget()) == budget_total(old(tokenizer).budget()),
        ({
            let all = contents(files@);
            let t = old(tokenizer)@;
            let f = bpe_encoding(t);
            let target = target_bytes(total_len(all), threads as int);
            if *format matches DocFormat::Text { separator: None } {
                &&& exists|rows: Seq<Seq<u32>>| #[trigger]
                    chunked_rows(t, all, target, true, rows) && hold_rows(r.0@, r.1@, rows)
                &&& splits_cleanly(t, all) || none_cut(all, target) ==> hold_rows(
                    r.0@,
                    r.1@,
                    rows_of(f, file_docs(*format, all)),
                )
            } else {
                let rows = joined(
                    all_rows(
                        f,
                        all,
                        *format,
                        file_chunks(*format, all, target, all.len() as int),
                    ),
                );
                &&& hold_rows(r.0@, r.1@, rows)
                &&& (forall|i: int|
                    0 <= i < all.len() ==> regions_cleanly(*format, #[trigger] all[i]))
                    ==> hold_rows(r.0@, r.1@, rows_of(f, file_docs(*format, all)))
            }
        }),
{
    let ghost all = contents(files@);
    let ghost f = bpe_encoding(tokenizer@);
    let whole = match format {
        DocFormat::Text { separator } => separator.is_none(),
        _ => false,
    };
    if whole {
        proof {
            lemma_whole_files(*format, all);
        }
        return encode_docs_ragged(tokenizer, files, threads);
    }
    let total: usize = total_bytes(files);
    let target: usize = chunk_target_bytes(total, threads);
    let chunks = build_file_chunks(files, format, target);
    proof {
        lemma_slices_fit(files);
        law_file_chunks_are_encodable(f, all, *format, target as int);
        if forall|i: int| 0 <= i < all.len() ==> regions_cleanly(*format, #[trigger] all[i]) {
            law_file_chunks_encode_documents(f, all, *format, target as int);
        }
    }
    encode_chunks_gathered(tokenizer, files, format, chunks.as_slice(), total)
}

/// Files without a separator are documents.
pub proof fn lemma_whole_files(format: DocFormat, files: Seq<Seq<u8>>)
    requires
        format is Text,
        format.separator_bytes().len() == 0,
    ensures
        file_docs(format, files) == files,
    decreases files.len(),
{
    if files.len() > 0 {
        lemma_whole_files(format, files.drop_last());
        assert(file_docs(format, files) =~= files);
    } else {
        assert(file_docs(format, files) =~= files);
    }
}

/// Encodes the documents of files one after the other.
pub fn encode_files_docs_serial(
    tokenizer: &mut Tokenizer,
    files: &[&[u8]],
    format: &DocFormat,
) -> (r: (Vec<u32>, Vec<usize>))
    requires
        old(tokenizer).wf(),
        !(*format is Parquet),
    ensures
        final(tokenizer).wf(),
        final(tokenizer)@ == old(tokenizer)@,
        final(tokenizer).merge_ranks() == old(tokenizer).merge_ranks(),
        budget_total(final(tokenizer).budget()) == budget_total(old(tokenizer).budget()),
        hold_rows(
            r.0@,
            r.1@,
            rows_of(bpe_encoding(old(tokenizer)@), file_docs(*format, contents(files@))),
        ),
{
    encode_files_in_order(tokenizer, files, format)
}

/// Encodes byte regions that divide into documents, chunk by chunk or one
/// document after the other. The rows are those of the documents in order;
/// chunk by chunk, where regions and documents divide cleanly.
pub fn encode_regions_ragged(
    tokenizer: &mut Tokenizer,
    regions: &[&[u8]],
    format: &DocFormat,
    threads: usize,
    parallel: bool,
) -> (r: (Vec<u32>, Vec<usize>))
    requires
        old(tokenizer).wf(),
        !(*format is Parquet),
        parallel ==> 0 < threads <= usize::MAX / 16 && total_len(contents(regions@)) <= usize::MAX,
    ensures
        final(tokenizer).wf(),
        final(tokenizer)@ == old(tokenizer)@,
        final(tokenizer).merge_ranks() == old(tokenizer).merge_ranks(),
        budget_total(final(tokenizer).budget()) == budget_total(old(tokenizer).budget()),
        ({
            let all = contents(regions@);
            let t = old(tokenizer)@;
            let f = bpe_encoding(t);
            let rows = rows_of(f, file_docs(*format, all));
            let target = target_bytes(total_len(all), threads as int);
            if !parallel {
                hold_rows(r.0@, r.1@, rows)
            } else if *format matches DocFormat::Text { separator: None } {
                &&& exists|rows: Seq<Seq<u32>>| #[trigger]
                    chunked_rows(t, all, target, true, rows) && hold_rows(r.0@, r.1@, rows)
                &&& splits_cleanly(t, all) || none_cut(all, target) ==> hold_rows(r.0@, r.1@, rows)
            } else {
                &&& hold_rows(
                    r.0@,
                    r.1@,
                    joined(
                        all_rows(
                            f,
                            all,
                            *format,
                            file_chunks(*format, all, target, all.len() as int),
                        ),
                    ),
                )
                &&& (forall|i: int|
                    0 <= i < all.len() ==> regions_cleanly(*format, #[trigger] all[i]))
                    ==> hold_rows(r.0@, r.1@, rows)
            }
        }),
{
    if parallel {
        encode_files_docs(tokenizer, regions, format, threads)
    } else {
        encode_files_docs_serial(tokenizer, regions, format)
    }
}

} // verus!
