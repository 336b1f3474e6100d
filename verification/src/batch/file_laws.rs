//! Regions of files give the rows of their documents.
use crate::batch::chunks::EncodeChunk;
use crate::batch::encode::{
    all_rows, chunk_within, file_docs, region_docs, rows_of, Encoding,
};
use crate::batch::laws::{
    all_within, fits_machine, lemma_all_rows_add, lemma_one, lemma_within_add,
};
use crate::batch::rows::{continuable_from, joined, joined_from, lemma_joined_add, ChunkRows};
use crate::input::documents::{
    documents, first_from, lemma_first_from, next_separator, unbordered,
};
use crate::input::format::{
    law_regions_hold_all_documents, law_regions_hold_all_lines, region_documents, region_end,
    region_lines, regions, regions_from, DocFormat,
};
use crate::input::jsonl::{
    json_field, lemma_line_texts_add, lemma_lines_part, line_texts, lines_from, lines_read,
};
use crate::input::stream::texts_of;
use crate::search::occurs_at;
use vstd::prelude::*;

verus! {

/// The documents of regions of a file, region by region.
pub open spec fn region_texts(format: DocFormat, s: Seq<u8>, v: Seq<(int, int)>) -> Seq<Seq<u8>>
    decreases v.len(),
{
    if v.len() == 0 {
        Seq::empty()
    } else {
        region_docs(format, s.subrange(v[0].0, v[0].1)) + region_texts(format, s, v.drop_first())
    }
}

/// The chunks of regions of file `i`.
pub open spec fn region_chunks(i: int, v: Seq<(int, int)>) -> Seq<EncodeChunk> {
    Seq::new(
        v.len(),
        |k: int|
            EncodeChunk::Region {
                file: i as usize,
                start: v[k].0 as usize,
                end: v[k].1 as usize,
            },
    )
}

/// The chunks of the first `n` files.
pub open spec fn file_chunks(
    format: DocFormat,
    files: Seq<Seq<u8>>,
    target: int,
    n: int,
) -> Seq<EncodeChunk>
    decreases n,
{
    if n <= 0 {
        Seq::empty()
    } else {
        file_chunks(format, files, target, n - 1) + region_chunks(
            n - 1,
            regions(format, files[n - 1], target),
        )
    }
}

proof fn lemma_first_part(s: Seq<u8>, sep: Seq<u8>, a: int, b: int, p: int)
    requires
        0 <= a <= b <= s.len(),
        0 <= p,
    ensures
        first_from(s.subrange(a, b), sep, p, b - a) == match first_from(s, sep, p + a, b) {
            Some(f) => Some(f - a),
            None => None,
        },
    decreases b - a - p + 1,
{
    let u = s.subrange(a, b);
    if p + sep.len() <= b - a {
        assert(u.subrange(p, p + sep.len()) =~= s.subrange(p + a, p + a + sep.len()));
        assert(occurs_at(u, sep, p) == occurs_at(s, sep, p + a));
        if !occurs_at(u, sep, p) {
            lemma_first_part(s, sep, a, b, p + 1);
            assert(p + 1 + a == p + a + 1);
        }
    }
}

/// The documents of a part of a text are the texts at the documents there.
proof fn lemma_documents_part(s: Seq<u8>, sep: Seq<u8>, a: int, b: int, p: int)
    requires
        0 <= a <= b <= s.len(),
        0 <= p,
    ensures
        texts_of(s.subrange(a, b), documents(s.subrange(a, b), sep, p, b - a)) == texts_of(
            s,
            documents(s, sep, p + a, b),
        ),
    decreases b - a - p,
{
    let u = s.subrange(a, b);
    let e = b - a;
    let x = documents(u, sep, p, e);
    let y = documents(s, sep, p + a, b);
    if p < e {
        lemma_first_part(s, sep, a, b, p);
        lemma_first_from(u, sep, p, e);
        match next_separator(u, sep, p, e) {
            None => {
                assert(u.subrange(p, e) =~= s.subrange(p + a, b));
                assert(texts_of(u, x) =~= texts_of(s, y));
            },
            Some(f) => {
                let q = f + sep.len();
                assert(next_separator(s, sep, p + a, b) == Some(f + a));
                lemma_documents_part(s, sep, a, b, q);
                assert(q + a == f + a + sep.len());
                let xr = documents(u, sep, q, e);
                let yr = documents(s, sep, q + a, b);
                assert(texts_of(u, xr).len() == xr.len());
                assert(texts_of(s, yr).len() == yr.len());
                if p < f {
                    assert(u.subrange(p, f) =~= s.subrange(p + a, f + a));
                    assert(texts_of(u, x) =~= seq![u.subrange(p, f)] + texts_of(u, xr));
                    assert(texts_of(s, y) =~= seq![u.subrange(p, f)] + texts_of(s, yr));
                }
            },
        }
    } else {
        assert(texts_of(u, x) =~= texts_of(s, y));
    }
}

/// What it takes that regions hold the documents of a file: occurrences of the
/// separator cannot overlap, and every line of a JSON Lines file has a text.
pub open spec fn regions_cleanly(format: DocFormat, s: Seq<u8>) -> bool {
    match format {
        DocFormat::Jsonl { field } => lines_read(s, field@),
        _ => unbordered(format.separator_bytes()),
    }
}

proof fn lemma_regions_from_within(format: DocFormat, s: Seq<u8>, target: int, start: int)
    requires
        0 <= start,
        0 <= target,
    ensures
        ({
            let v = regions_from(format, s, target, start);
            forall|k: int| 0 <= k < v.len() ==> 0 <= (#[trigger] v[k]).0 <= v[k].1 <= s.len()
        }),
    decreases s.len() - start,
{
    let len = s.len() as int;
    if start < len && start + target < len {
        lemma_first_from(s, seq![0x0Au8], start + target, len);
        lemma_first_from(s, format.separator_bytes(), start + target, len);
        match region_end(format, s, start + target) {
            Some((e, next)) => {
                lemma_regions_from_within(format, s, target, next);
                let rest = regions_from(format, s, target, next);
                let v = regions_from(format, s, target, start);
                assert(v =~= seq![(start, e)] + rest);
                assert forall|k: int| 0 <= k < v.len() implies 0 <= (#[trigger] v[k]).0 <= v[k].1
                    <= len by {
                    if k > 0 {
                        assert(v[k] == rest[k - 1]);
                    }
                }
            },
            None => {},
        }
    }
}

/// The regions of a file lie in it.
pub proof fn lemma_regions_within(format: DocFormat, s: Seq<u8>, target: int)
    requires
        0 <= target,
    ensures
        ({
            let v = regions(format, s, target);
            forall|k: int| 0 <= k < v.len() ==> 0 <= (#[trigger] v[k]).0 <= v[k].1 <= s.len()
        }),
{
    lemma_regions_from_within(format, s, target, 0);
}

proof fn lemma_text_regions(format: DocFormat, s: Seq<u8>, v: Seq<(int, int)>)
    requires
        format is Text,
        format.separator_bytes().len() > 0,
        forall|k: int| 0 <= k < v.len() ==> 0 <= (#[trigger] v[k]).0 <= v[k].1 <= s.len(),
    ensures
        region_texts(format, s, v) == texts_of(
            s,
            region_documents(s, format.separator_bytes(), v),
        ),
    decreases v.len(),
{
    let sep = format.separator_bytes();
    if v.len() == 0 {
        assert(region_texts(format, s, v) =~= texts_of(s, region_documents(s, sep, v)));
    } else {
        let rest = v.drop_first();
        assert forall|k: int| 0 <= k < rest.len() implies 0 <= (#[trigger] rest[k]).0 <= rest[k].1
            <= s.len() by {
            assert(rest[k] == v[k + 1]);
        }
        lemma_text_regions(format, s, rest);
        let (a, b) = v[0];
        assert(0 <= v[0].0 <= v[0].1 <= s.len());
        lemma_documents_part(s, sep, a, b, 0);
        let x = documents(s, sep, a, b);
        let y = region_documents(s, sep, rest);
        assert(texts_of(s, x + y) =~= texts_of(s, x) + texts_of(s, y));
    }
}

proof fn lemma_line_regions(format: DocFormat, s: Seq<u8>, v: Seq<(int, int)>)
    requires
        format is Jsonl,
        forall|k: int| 0 <= k < v.len() ==> 0 <= (#[trigger] v[k]).0 <= v[k].1 <= s.len(),
        ({
            let lines = region_lines(s, v);
            forall|i: int|
                0 <= i < lines.len() ==> json_field(
                    s.subrange((#[trigger] lines[i]).0, lines[i].1),
                    format->field@,
                ) is Some
        }),
    ensures
        region_texts(format, s, v) == line_texts(s, region_lines(s, v), format->field@),
    decreases v.len(),
{
    if v.len() > 0 {
        let field = format->field@;
        let rest = v.drop_first();
        assert forall|k: int| 0 <= k < rest.len() implies 0 <= (#[trigger] rest[k]).0 <= rest[k].1
            <= s.len() by {
            assert(rest[k] == v[k + 1]);
        }
        let (a, b) = v[0];
        assert(0 <= v[0].0 <= v[0].1 <= s.len());
        let x = lines_from(s, a, b);
        let y = region_lines(s, rest);
        let lines = region_lines(s, v);
        assert(lines == x + y);
        assert forall|i: int| 0 <= i < x.len() implies json_field(
            s.subrange((#[trigger] x[i]).0, x[i].1),
            field,
        ) is Some by {
            assert(x[i] == lines[i]);
        }
        assert forall|i: int| 0 <= i < y.len() implies json_field(
            s.subrange((#[trigger] y[i]).0, y[i].1),
            field,
        ) is Some by {
            assert(y[i] == lines[x.len() + i]);
        }
        lemma_line_regions(format, s, rest);
        lemma_lines_part(s, field, a, b, 0);
        lemma_line_texts_add(s, x, y, field);
    }
}

/// The documents of the regions of a file, region by region, are the
/// documents of the file.
pub proof fn law_regions_hold_file(format: DocFormat, s: Seq<u8>, target: int)
    requires
        !(format is Parquet),
        0 <= target,
        regions_cleanly(format, s),
    ensures
        region_texts(format, s, regions(format, s, target)) == region_docs(format, s),
{
    let v = regions(format, s, target);
    lemma_regions_within(format, s, target);
    if format is Jsonl {
        law_regions_hold_all_lines(format, s, target);
        lemma_line_regions(format, s, v);
    } else if format.separator_bytes().len() > 0 {
        law_regions_hold_all_documents(format, s, target);
        lemma_text_regions(format, s, v);
    } else {
        assert(v =~= seq![(0int, s.len() as int)]);
        assert(v.drop_first() =~= Seq::<(int, int)>::empty());
        assert(s.subrange(0, s.len() as int) =~= s);
        assert(region_texts(format, s, v.drop_first()) =~= Seq::<Seq<u8>>::empty());
        assert(region_texts(format, s, v) =~= region_docs(format, s));
    }
}

/// Regions add the rows of their documents.
proof fn lemma_regions_joined(
    f: Encoding,
    files: Seq<Seq<u8>>,
    format: DocFormat,
    acc: Seq<Seq<u32>>,
    i: int,
    v: Seq<(int, int)>,
)
    requires
        fits_machine(files),
        0 <= i < files.len(),
        forall|k: int| 0 <= k < v.len() ==> 0 <= (#[trigger] v[k]).0 <= v[k].1 <= files[i].len(),
    ensures
        joined_from(acc, all_rows(f, files, format, region_chunks(i, v))) == acc + rows_of(
            f,
            region_texts(format, files[i], v),
        ),
        continuable_from(acc, all_rows(f, files, format, region_chunks(i, v))),
        all_within(files, region_chunks(i, v)),
    decreases v.len(),
{
    let c = region_chunks(i, v);
    assert(files[i].len() <= usize::MAX);
    if v.len() == 0 {
        assert(all_rows(f, files, format, c) =~= Seq::<ChunkRows>::empty());
        assert(acc + rows_of(f, region_texts(format, files[i], v)) =~= acc);
    } else {
        let rest = v.drop_first();
        assert(0 <= v[0].0 <= v[0].1 <= files[i].len());
        let docs = region_docs(format, files[i].subrange(v[0].0, v[0].1));
        let r = ChunkRows { rows: rows_of(f, docs), continues: false };
        let head = seq![c[0]];
        let more = region_chunks(i, rest);
        assert(all_rows(f, files, format, head) =~= seq![r]);
        assert(c =~= head + more);
        lemma_all_rows_add(f, files, format, head, more);
        lemma_one(acc, r);
        assert forall|k: int| 0 <= k < rest.len() implies 0 <= (#[trigger] rest[k]).0 <= rest[k].1
            <= files[i].len() by {
            assert(rest[k] == v[k + 1]);
        }
        lemma_regions_joined(f, files, format, acc + r.rows, i, rest);
        lemma_joined_add(acc, seq![r], all_rows(f, files, format, more));
        assert((acc + r.rows) + rows_of(f, region_texts(format, files[i], rest)) =~= acc
            + rows_of(f, region_texts(format, files[i], v)));
        assert forall|k: int| 0 <= k < c.len() implies chunk_within(files, #[trigger] c[k]) by {
            assert(0 <= v[k].0 <= v[k].1 <= files[i].len());
        }
    }
}

proof fn lemma_files_joined(
    f: Encoding,
    files: Seq<Seq<u8>>,
    format: DocFormat,
    target: int,
    n: int,
)
    requires
        !(format is Parquet),
        fits_machine(files),
        0 <= n <= files.len(),
        0 <= target,
    ensures
        ({
            let c = file_chunks(format, files, target, n);
            let rows = all_rows(f, files, format, c);
            &&& all_within(files, c)
            &&& continuable_from(Seq::empty(), rows)
            &&& (forall|i: int|
                0 <= i < files.len() ==> regions_cleanly(format, #[trigger] files[i])) ==> joined(
                rows,
            ) == rows_of(f, file_docs(format, files.take(n)))
        }),
    decreases n,
{
    let none = Seq::<Seq<u32>>::empty();
    if n == 0 {
        let c = file_chunks(format, files, target, 0);
        assert(all_rows(f, files, format, c) =~= Seq::<ChunkRows>::empty());
        assert(rows_of(f, file_docs(format, files.take(0))) =~= none);
    } else {
        lemma_files_joined(f, files, format, target, n - 1);
        let a = file_chunks(format, files, target, n - 1);
        let v = regions(format, files[n - 1], target);
        let b = region_chunks(n - 1, v);
        lemma_regions_within(format, files[n - 1], target);
        let acc = joined(all_rows(f, files, format, a));
        lemma_regions_joined(f, files, format, acc, n - 1, v);
        lemma_all_rows_add(f, files, format, a, b);
        lemma_joined_add(none, all_rows(f, files, format, a), all_rows(f, files, format, b));
        lemma_within_add(files, a, b);
        if forall|i: int| 0 <= i < files.len() ==> regions_cleanly(format, #[trigger] files[i]) {
            assert(regions_cleanly(format, files[n - 1]));
            law_regions_hold_file(format, files[n - 1], target);
            let head = files.take(n);
            assert(head.drop_last() =~= files.take(n - 1));
            assert(head.last() == files[n - 1]);
            let x = file_docs(format, files.take(n - 1));
            let y = region_docs(format, files[n - 1]);
            assert(rows_of(f, x) + rows_of(f, y) =~= rows_of(f, x + y));
        }
    }
}

/// The chunks of files lie in them.
pub proof fn law_file_chunks_are_encodable(
    f: Encoding,
    files: Seq<Seq<u8>>,
    format: DocFormat,
    target: int,
)
    requires
        !(format is Parquet),
        fits_machine(files),
        0 <= target,
    ensures
        all_within(files, file_chunks(format, files, target, files.len() as int)),
        continuable_from(
            Seq::empty(),
            all_rows(
                f,
                files,
                format,
                file_chunks(format, files, target, files.len() as int),
            ),
        ),
{
    lemma_files_joined(f, files, format, target, files.len() as int);
}

/// The chunks of files join to one row for each document, file by file.
pub proof fn law_file_chunks_encode_documents(
    f: Encoding,
    files: Seq<Seq<u8>>,
    format: DocFormat,
    target: int,
)
    requires
        !(format is Parquet),
        fits_machine(files),
        0 <= target,
        forall|i: int| 0 <= i < files.len() ==> regions_cleanly(format, #[trigger] files[i]),
    ensures
        joined(
            all_rows(
                f,
                files,
                format,
                file_chunks(format, files, target, files.len() as int),
            ),
        ) == rows_of(f, file_docs(format, files)),
{
    lemma_files_joined(f, files, format, target, files.len() as int);
    assert(files.take(files.len() as int) =~= files);
}

} // verus!
