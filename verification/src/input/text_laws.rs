//! What the documents, lines, regions and names of input are.
use crate::bpe::rules::has_suffix;
use crate::input::counts::{documents_count, pretoken_count, span_count};
use crate::input::documents::{
    documents, lemma_first_from, lemma_first_is, next_separator,
};
use crate::input::format::{
    compression_of_name, gz, is_default_format, jsonl, parquet, region_end, regions, regions_from,
    zst, zstd, Compression, DocFormat,
};
use crate::input::jsonl::{json_field, line_end, line_texts, lines_from, skip_newlines};
use crate::input::line_counts::texts_count;
use crate::input::stream::{document_texts, lemma_texts_shift, texts_of};
use crate::pretokenize::locality::whole_chars;
use crate::pretokenize::pattern::gpt2_pattern;
use crate::pretokenize::scalar_laws::{law_pretokens_are_all_matches, matches_from};
use crate::pretokenize::scheme::{spans_from, PretokenizerType};
use crate::search::occurs_at;
use vstd::prelude::*;

verus! {

/// The documents of a text are what stands before the first separator, unless
/// that is empty, and then the documents of what stands behind it.
pub proof fn law_separator_ends_a_document(s: Seq<u8>, sep: Seq<u8>, f: int)
    requires
        sep.len() > 0,
        occurs_at(s, sep, f),
        forall|j: int| 0 <= j < f ==> !#[trigger] occurs_at(s, sep, j),
    ensures
        document_texts(s, sep) == (if f > 0 {
            seq![s.take(f)]
        } else {
            Seq::empty()
        }) + document_texts(s.skip(f + sep.len()), sep),
{
    let len = s.len() as int;
    lemma_first_is(s, sep, 0, len, f);
    let n = f + sep.len();
    lemma_texts_shift(s, sep, n, n);
    let tail = documents(s, sep, n, len);
    let head = if f > 0 {
        seq![(0int, f)]
    } else {
        Seq::<(int, int)>::empty()
    };
    assert(documents(s, sep, 0, len) =~= head + tail);
    assert(s.subrange(0, f) =~= s.take(f));
    assert(texts_of(s, head + tail) =~= texts_of(s, head) + texts_of(s, tail));
    if f > 0 {
        assert(texts_of(s, head) =~= seq![s.take(f)]);
    } else {
        assert(texts_of(s, head) =~= Seq::<Seq<u8>>::empty());
    }
}

/// Text without a separator is one document, unless it is empty; an empty
/// separator occurs nowhere.
pub proof fn law_text_is_one_document(s: Seq<u8>, sep: Seq<u8>)
    requires
        sep.len() == 0 || forall|j: int| 0 <= j < s.len() ==> !#[trigger] occurs_at(s, sep, j),
    ensures
        document_texts(s, sep) == if s.len() > 0 {
            seq![s]
        } else {
            Seq::empty()
        },
{
    let len = s.len() as int;
    lemma_first_from(s, sep, 0, len);
    if s.len() > 0 {
        assert(next_separator(s, sep, 0, len) is None);
        assert(s.subrange(0, len) =~= s);
        assert(document_texts(s, sep) =~= seq![s]);
    } else {
        assert(document_texts(s, sep) =~= Seq::<Seq<u8>>::empty());
    }
}

proof fn lemma_line_ends_shift(s: Seq<u8>, b: int, p: int)
    requires
        0 <= b <= p,
        b <= s.len(),
    ensures
        skip_newlines(s, p, s.len() as int) == b + skip_newlines(s.skip(b), p - b, s.len() - b),
        line_end(s, p, s.len() as int) == b + line_end(s.skip(b), p - b, s.len() - b),
        p <= skip_newlines(s, p, s.len() as int),
        p <= line_end(s, p, s.len() as int),
    decreases s.len() - p,
{
    if p < s.len() {
        assert(s.skip(b)[p - b] == s[p]);
        lemma_line_ends_shift(s, b, p + 1);
    }
}

proof fn lemma_lines_shift(s: Seq<u8>, b: int, p: int)
    requires
        0 <= b <= p,
        b <= s.len(),
    ensures
        texts_of(s, lines_from(s, p, s.len() as int)) == texts_of(
            s.skip(b),
            lines_from(s.skip(b), p - b, s.len() - b),
        ),
    decreases s.len() - p + 1,
{
    let len = s.len() as int;
    let t = s.skip(b);
    if p < len {
        lemma_line_ends_shift(s, b, p);
        let a = skip_newlines(s, p, len);
        if a < len {
            lemma_line_ends_shift(s, b, a);
            lemma_line_end_in(s, a);
            let e = line_end(s, a, len);
            lemma_lines_shift(s, b, e + 1);
            let u = lines_from(s, e + 1, len);
            let v = lines_from(t, e + 1 - b, len - b);
            assert(s.subrange(a, e) =~= t.subrange(a - b, e - b));
            assert(texts_of(s, seq![(a, e)] + u) =~= seq![s.subrange(a, e)] + texts_of(s, u));
            assert(texts_of(t, seq![(a - b, e - b)] + v) =~= seq![t.subrange(a - b, e - b)]
                + texts_of(t, v));
        } else {
            assert(texts_of(s, lines_from(s, p, len)) =~= texts_of(t, lines_from(t, p - b, len - b)));
        }
    } else {
        assert(texts_of(s, lines_from(s, p, len)) =~= texts_of(t, lines_from(t, p - b, len - b)));
    }
}

proof fn lemma_line_end_in(s: Seq<u8>, p: int)
    requires
        0 <= p <= s.len(),
    ensures
        p <= line_end(s, p, s.len() as int) <= s.len(),
    decreases s.len() - p,
{
    if p < s.len() {
        lemma_line_end_in(s, p + 1);
    }
}

proof fn lemma_line_end_at(s: Seq<u8>, p: int, e: int)
    requires
        0 <= p <= e <= s.len(),
        forall|i: int| p <= i < e ==> #[trigger] s[i] != 0x0A,
        e < s.len() ==> s[e] == 0x0A,
    ensures
        line_end(s, p, s.len() as int) == e,
    decreases e - p,
{
    if p < e {
        assert(s[p] != 0x0A);
        lemma_line_end_at(s, p + 1, e);
    }
}

/// The lines of a text are what stands before the first newline, unless that is
/// empty, and then the lines of what stands behind it.
pub proof fn law_newline_ends_a_line(s: Seq<u8>, e: int)
    requires
        0 <= e < s.len(),
        s[e] == 0x0A,
        forall|i: int| 0 <= i < e ==> #[trigger] s[i] != 0x0A,
    ensures
        texts_of(s, lines_from(s, 0, s.len() as int)) == (if e > 0 {
            seq![s.take(e)]
        } else {
            Seq::empty()
        }) + texts_of(s.skip(e + 1), lines_from(s.skip(e + 1), 0, s.len() - e - 1)),
{
    let len = s.len() as int;
    lemma_lines_shift(s, e + 1, e + 1);
    let u = lines_from(s, e + 1, len);
    if e > 0 {
        assert(s[0] != 0x0A);
        lemma_line_end_at(s, 0, e);
        assert(s.subrange(0, e) =~= s.take(e));
        assert(texts_of(s, seq![(0int, e)] + u) =~= seq![s.take(e)] + texts_of(s, u));
    } else {
        lemma_skip_in(s, 1);
        let a = skip_newlines(s, 1, len);
        assert(skip_newlines(s, 0, len) == a);
        if 1 < len {
            assert(lines_from(s, 0, len) =~= u);
        } else {
            assert(lines_from(s, 0, len) =~= Seq::<(int, int)>::empty());
            assert(u =~= Seq::<(int, int)>::empty());
        }
        assert(Seq::<Seq<u8>>::empty() + texts_of(s, u) =~= texts_of(s, u));
    }
}

proof fn lemma_skip_in(s: Seq<u8>, p: int)
    requires
        0 <= p <= s.len(),
    ensures
        p <= skip_newlines(s, p, s.len() as int) <= s.len(),
    decreases s.len() - p,
{
    if p < s.len() {
        lemma_skip_in(s, p + 1);
    }
}

/// Text without a newline is one line, unless it is empty.
pub proof fn law_text_is_one_line(s: Seq<u8>)
    requires
        forall|i: int| 0 <= i < s.len() ==> #[trigger] s[i] != 0x0A,
    ensures
        texts_of(s, lines_from(s, 0, s.len() as int)) == if s.len() > 0 {
            seq![s]
        } else {
            Seq::empty()
        },
{
    let len = s.len() as int;
    if s.len() > 0 {
        assert(s[0] != 0x0A);
        lemma_line_end_at(s, 0, len);
        assert(s.subrange(0, len) =~= s);
        assert(lines_from(s, len + 1, len) =~= Seq::<(int, int)>::empty());
        assert(lines_from(s, 0, len) =~= seq![(0int, len)]);
        assert(texts_of(s, lines_from(s, 0, len)) =~= seq![s]);
    } else {
        assert(texts_of(s, lines_from(s, 0, len)) =~= Seq::<Seq<u8>>::empty());
    }
}

/// The texts of lines: as many as there are lines before the first that has
/// none, each the text of its line.
pub proof fn law_texts_up_to_the_first_without(
    s: Seq<u8>,
    lines: Seq<(int, int)>,
    field: Seq<char>,
    n: int,
)
    requires
        0 <= n <= lines.len(),
        forall|i: int|
            0 <= i < n ==> json_field(
                s.subrange((#[trigger] lines[i]).0, lines[i].1),
                field,
            ) is Some,
        n < lines.len() ==> json_field(s.subrange(lines[n].0, lines[n].1), field) is None,
    ensures
        line_texts(s, lines, field).len() == n,
        forall|i: int|
            0 <= i < n ==> json_field(s.subrange((#[trigger] lines[i]).0, lines[i].1), field)
                == Some(line_texts(s, lines, field)[i]),
    decreases n,
{
    if n > 0 {
        let d = lines.drop_first();
        assert(json_field(s.subrange(lines[0].0, lines[0].1), field) is Some);
        assert forall|i: int| 0 <= i < n - 1 implies json_field(
            s.subrange((#[trigger] d[i]).0, d[i].1),
            field,
        ) is Some by {
            assert(d[i] == lines[i + 1]);
        }
        law_texts_up_to_the_first_without(s, d, field, n - 1);
        assert forall|i: int| 0 <= i < n implies json_field(
            s.subrange((#[trigger] lines[i]).0, lines[i].1),
            field,
        ) == Some(line_texts(s, lines, field)[i]) by {
            if i > 0 {
                assert(d[i - 1] == lines[i]);
                assert(line_texts(s, lines, field)[i] == line_texts(s, d, field)[i - 1]);
            }
        }
    }
}

/// How often a text is among the pretokens is the number of spans that hold it.
pub proof fn law_count_is_the_number_of_spans(s: Seq<u8>, spans: Seq<(int, int)>, key: Seq<u8>)
    ensures
        span_count(s, spans, key) == spans.filter(
            |r: (int, int)| s.subrange(r.0, r.1) == key,
        ).len(),
    decreases spans.len(),
{
    reveal(Seq::filter);
    if spans.len() > 0 {
        law_count_is_the_number_of_spans(s, spans.drop_last(), key);
    }
}

/// The pretokens that are counted are the matches of the GPT-2 pattern.
pub proof fn law_counts_are_of_gpt2_matches(doc: Seq<u8>, key: Seq<u8>)
    requires
        whole_chars(doc),
    ensures
        pretoken_count(doc, key) == matches_from(gpt2_pattern(), doc, 0).filter(
            |r: (int, int)| doc.subrange(r.0, r.1) == key,
        ).len(),
{
    law_pretokens_are_all_matches(PretokenizerType::GPT2, doc, 0);
    law_count_is_the_number_of_spans(doc, spans_from(PretokenizerType::GPT2, doc, 0), key);
}

/// The counts of documents and texts are those of each, added up.
pub proof fn law_counts_of_many(
    s: Seq<u8>,
    docs: Seq<(int, int)>,
    d: (int, int),
    texts: Seq<Seq<u8>>,
    t: Seq<u8>,
    key: Seq<u8>,
)
    ensures
        documents_count(s, docs.push(d), key) == documents_count(s, docs, key) + pretoken_count(
            s.subrange(d.0, d.1),
            key,
        ),
        documents_count(s, Seq::empty(), key) == 0,
        texts_count(texts.push(t), key) == texts_count(texts, key) + pretoken_count(t, key),
        texts_count(Seq::empty(), key) == 0,
{
    assert(docs.push(d).drop_last() =~= docs);
    assert(texts.push(t).drop_last() =~= texts);
}

/// The bytes of an ASCII text.
pub open spec fn bytes_of(t: Seq<char>) -> Seq<u8> {
    t.map_values(|c: char| c as u8)
}

/// The endings of file names.
pub proof fn law_name_endings()
    ensures
        zst() == bytes_of(".zst"@),
        zstd() == bytes_of(".zstd"@),
        gz() == bytes_of(".gz"@),
        jsonl() == bytes_of(".jsonl"@),
        parquet() == bytes_of(".parquet"@),
{
    reveal_strlit(".zst");
    reveal_strlit(".zstd");
    reveal_strlit(".gz");
    reveal_strlit(".jsonl");
    reveal_strlit(".parquet");
    assert(zst() =~= bytes_of(".zst"@));
    assert(zstd() =~= bytes_of(".zstd"@));
    assert(gz() =~= bytes_of(".gz"@));
    assert(jsonl() =~= bytes_of(".jsonl"@));
    assert(parquet() =~= bytes_of(".parquet"@));
}

/// A name with the ending of a compression is of that compression, and is the
/// name before the ending with it.
pub proof fn law_ending_names_the_compression(name: Seq<u8>)
    ensures
        compression_of_name(name + bytes_of(".zst"@)) == (name, Compression::Zstd),
        compression_of_name(name + bytes_of(".zstd"@)) == (name, Compression::Zstd),
        compression_of_name(name + bytes_of(".gz"@)) == (name, Compression::Gzip),
{
    law_name_endings();
    let a = name + zst();
    let b = name + zstd();
    let c = name + gz();
    let n = name.len() as int;
    assert(a.skip(n) =~= zst());
    assert(a.take(n) =~= name);
    assert(b.skip(n) =~= zstd());
    assert(b.take(n) =~= name);
    assert(c.skip(n) =~= gz());
    assert(c.take(n) =~= name);
    assert(b.last() == 0x64);
    assert(c.last() == 0x7A);
    if has_suffix(b, zst()) {
        assert(b.skip(b.len() - 4).last() == zst().last());
    }
    if has_suffix(c, zst()) {
        assert(c.skip(c.len() - 4).last() == zst().last());
    }
    if has_suffix(c, zstd()) {
        assert(c.skip(c.len() - 5).last() == zstd().last());
    }
}

/// A name with none of the endings is of a plain file.
pub proof fn law_other_names_are_plain(name: Seq<u8>)
    requires
        !has_suffix(name, bytes_of(".zst"@)),
        !has_suffix(name, bytes_of(".zstd"@)),
        !has_suffix(name, bytes_of(".gz"@)),
    ensures
        compression_of_name(name) == (name, Compression::Plain),
{
    law_name_endings();
}

/// A name with the ending of JSON Lines or Parquet, perhaps with that of a
/// compression behind it, is of that format, with the documents in the field or
/// column `text`. Every other name is of plain text without a separator.
pub proof fn law_ending_names_the_format(name: Seq<u8>, r: DocFormat)
    ensures
        is_default_format(name + bytes_of(".jsonl"@), r) ==> r is Jsonl && r->field@ == "text"@,
        is_default_format(name + bytes_of(".parquet"@), r) ==> r is Parquet && r->column@
            == "text"@,
        is_default_format(name, r) && !has_suffix(name, bytes_of(".jsonl"@)) && !has_suffix(
            name,
            bytes_of(".parquet"@),
        ) ==> r is Text && r->separator is None,
{
    law_name_endings();
    let a = name + jsonl();
    let b = name + parquet();
    let n = name.len() as int;
    assert(a.skip(n) =~= jsonl());
    assert(b.skip(n) =~= parquet());
    if has_suffix(b, jsonl()) {
        assert(b.last() == 0x74);
        assert(b.skip(b.len() - 6).last() == jsonl().last());
    }
}

/// Where a text region may end: at a separator, or behind a newline for lines.
pub open spec fn may_end(format: DocFormat, s: Seq<u8>, e: int) -> bool {
    if format is Jsonl {
        0 < e <= s.len() && s[e - 1] == 0x0A
    } else {
        occurs_at(s, format.separator_bytes(), e)
    }
}

/// A region from `a` to `b` is one of at least `target` bytes that ends at the
/// first place from there on where it may.
pub open spec fn reaches_target(format: DocFormat, s: Seq<u8>, target: int, a: int, b: int) -> bool {
    let from = if format is Jsonl {
        a + target + 1
    } else {
        a + target
    };
    &&& from <= b
    &&& may_end(format, s, b)
    &&& forall|e: int| from <= e < b ==> !#[trigger] may_end(format, s, e)
}

proof fn lemma_region_end(format: DocFormat, s: Seq<u8>, target: int, start: int)
    requires
        0 <= target,
        0 <= start,
        start + target < s.len(),
        format is Jsonl || format.separator_bytes().len() > 0,
        !(format is Jsonl) ==> format is Text,
    ensures
        match region_end(format, s, start + target) {
            Some((e, next)) => {
                &&& reaches_target(format, s, target, start, e)
                &&& start < next <= s.len()
                &&& next == if format is Jsonl {
                    e
                } else {
                    e + format.separator_bytes().len()
                }
            },
            None => forall|e: int|
                start + target < e && e <= s.len() && format is Jsonl || start + target <= e
                    && format is Text ==> !#[trigger] may_end(format, s, e),
        },
{
    let len = s.len() as int;
    let probe = start + target;
    if format is Jsonl {
        let nl = seq![0x0Au8];
        lemma_first_from(s, nl, probe, len);
        assert forall|e: int| 0 < e <= len implies (#[trigger] may_end(format, s, e) <==> occurs_at(
            s,
            nl,
            e - 1,
        )) by {
            assert(s.subrange(e - 1, e) =~= seq![s[e - 1]]);
            assert(seq![s[e - 1]][0] == s[e - 1]);
            assert(nl[0] == 0x0A);
        }
    } else {
        lemma_first_from(s, format.separator_bytes(), probe, len);
    }
}

/// Every region of a file but the last has the target size or more and ends at
/// the first place where it may; the next one starts there, behind the
/// separator.
pub proof fn law_regions_reach_their_target(format: DocFormat, s: Seq<u8>, target: int, i: int)
    requires
        0 <= target,
        s.len() > 0,
        format is Jsonl || format is Text,
        format is Text ==> format.separator_bytes().len() > 0,
        0 <= i < regions(format, s, target).len(),
    ensures
        ({
            let v = regions(format, s, target);
            &&& v[0].0 == 0
            &&& i < v.len() - 1 ==> {
                &&& reaches_target(format, s, target, v[i].0, v[i].1)
                &&& v[i + 1].0 == v[i].1 + if format is Jsonl {
                    0
                } else {
                    format.separator_bytes().len()
                }
            }
        }),
{
    lemma_regions_reach(format, s, target, 0, i);
}

proof fn lemma_regions_reach(format: DocFormat, s: Seq<u8>, target: int, start: int, i: int)
    requires
        0 <= target,
        0 <= start < s.len(),
        format is Jsonl || format is Text,
        format is Text ==> format.separator_bytes().len() > 0,
        0 <= i < regions_from(format, s, target, start).len(),
    ensures
        ({
            let v = regions_from(format, s, target, start);
            &&& v[0].0 == start
            &&& i < v.len() - 1 ==> {
                &&& reaches_target(format, s, target, v[i].0, v[i].1)
                &&& v[i + 1].0 == v[i].1 + if format is Jsonl {
                    0
                } else {
                    format.separator_bytes().len()
                }
            }
        }),
    decreases s.len() - start,
{
    let v = regions_from(format, s, target, start);
    if start + target < s.len() {
        lemma_region_end(format, s, target, start);
        if let Some((e, next)) = region_end(format, s, start + target) {
            let rest = regions_from(format, s, target, next);
            assert(v =~= seq![(start, e)] + rest);
            if rest.len() > 0 {
                lemma_regions_reach(format, s, target, next, 0);
                if i > 0 {
                    lemma_regions_reach(format, s, target, next, i - 1);
                    assert(v[i] == rest[i - 1]);
                    if i < v.len() - 1 {
                        assert(v[i + 1] == rest[i]);
                    }
                } else {
                    assert(v[1] == rest[0]);
                }
            }
        }
    }
}

} // verus!
