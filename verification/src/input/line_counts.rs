//! Counting the pretokens of JSON lines.
use crate::input::counts::{
    count_of, held, holds_counts, lemma_span_count, pretoken_count, PretokenCounts,
};
use crate::input::documents::{
    as_ints, boundaries, chunk_boundaries, documents, first_from, law_parts_hold_all_documents,
    lemma_first_from, lemma_first_is, next_separator, part_documents,
};
use crate::input::jsonl::{
    json_field, lemma_line_bounds, lemma_line_texts_add, lemma_lines_part, line_end, line_texts,
    lines_from, lines_read, skip_newlines, JsonLinesSlice,
};
use crate::pretokenize::scheme::{spans_from, PretokenizerType};
use crate::search::occurs_at;
use vstd::prelude::*;

verus! {

/// How often `key` is a pretoken of the texts.
pub open spec fn texts_count(texts: Seq<Seq<u8>>, key: Seq<u8>) -> int
    decreases texts.len(),
{
    if texts.len() == 0 {
        0
    } else {
        texts_count(texts.drop_last(), key) + pretoken_count(texts.last(), key)
    }
}

/// The texts of the lines of a file.
pub open spec fn file_texts(s: Seq<u8>, field: Seq<char>) -> Seq<Seq<u8>> {
    line_texts(s, lines_from(s, 0, s.len() as int), field)
}

/// The texts of the lines from `a` to `b`.
pub open spec fn range_texts(s: Seq<u8>, a: int, b: int, field: Seq<char>) -> Seq<Seq<u8>> {
    if a < b {
        file_texts(s.subrange(a, b), field)
    } else {
        Seq::empty()
    }
}

/// The texts of the lines of consecutive parts, part by part.
pub open spec fn part_texts(s: Seq<u8>, bounds: Seq<int>, field: Seq<char>) -> Seq<Seq<u8>>
    decreases bounds.len(),
{
    if bounds.len() < 2 {
        Seq::empty()
    } else {
        part_texts(s, bounds.drop_last(), field) + range_texts(
            s,
            bounds[bounds.len() - 2],
            bounds.last(),
            field,
        )
    }
}

proof fn lemma_texts_count(texts: Seq<Seq<u8>>, key: Seq<u8>)
    ensures
        texts_count(texts, key) >= 0,
    decreases texts.len(),
{
    if texts.len() > 0 {
        lemma_texts_count(texts.drop_last(), key);
        let d = texts.last();
        lemma_span_count(d, spans_from(PretokenizerType::GPT2, d, 0), key);
    }
}

/// Counts of texts add up.
pub proof fn law_texts_count_add(a: Seq<Seq<u8>>, b: Seq<Seq<u8>>, key: Seq<u8>)
    ensures
        texts_count(a + b, key) == texts_count(a, key) + texts_count(b, key),
    decreases b.len(),
{
    if b.len() == 0 {
        assert(a + b =~= a);
    } else {
        assert((a + b).drop_last() =~= a + b.drop_last());
        assert((a + b).last() == b.last());
        law_texts_count_add(a, b.drop_last(), key);
    }
}

/// Counts the pretokens of the texts of lines.
pub fn count_lines(bytes: &[u8], field: &str) -> (r: PretokenCounts)
    ensures
        holds_counts(r@, |k: Seq<u8>| texts_count(file_texts(bytes@, field@), k)),
{
    let ghost s = bytes@;
    let ghost all = file_texts(s, field@);
    let mut r = PretokenCounts::new();
    let mut lines = JsonLinesSlice::new(bytes, field);
    let ghost mut done: Seq<Seq<u8>> = Seq::empty();
    let mut more = true;
    proof {
        assert(done + line_texts(s, lines.left(), field@) =~= all);
    }
    while more
        invariant
            lines.text() == s,
            lines.field_name() == field@,
            more ==> done + line_texts(s, lines.left(), field@) == all,
            !more ==> done == all,
            holds_counts(r@, |k: Seq<u8>| texts_count(done, k)),
        decreases lines.left().len(), if more { 1int } else { 0int },
    {
        let ghost left = lines.left();
        match lines.next_document() {
            Some(d) => {
                let ghost now = r@;
                let ghost before = done;
                let ghost f = |k: Seq<u8>| texts_count(before, k);
                r.count_pretokens(d.as_slice());
                proof {
                    done = before.push(d@);
                    assert(done.drop_last() =~= before);
                    assert(done + line_texts(s, lines.left(), field@) =~= before + line_texts(
                        s,
                        left,
                        field@,
                    ));
                    let g = |k: Seq<u8>| texts_count(done, k);
                    assert forall|k: Seq<u8>|
                        {
                            &&& #[trigger] r@.contains_key(k) == (g(k) > 0)
                            &&& count_of(r@, k) == held(g(k))
                        } by {
                        assert(now.contains_key(k) == (f(k) > 0));
                        lemma_texts_count(before, k);
                        lemma_span_count(d@, spans_from(PretokenizerType::GPT2, d@, 0), k);
                    }
                }
            },
            None => {
                more = false;
                proof {
                    assert(done + line_texts(s, left, field@) =~= done);
                }
            },
        }
    }
    r
}

/// Lines are what stands between newlines.
proof fn lemma_lines_are_documents(s: Seq<u8>, p: int, end: int)
    requires
        0 <= p,
        end <= s.len(),
    ensures
        documents(s, seq![0x0Au8], p, end) == lines_from(s, p, end),
    decreases end - p + 1,
{
    let nl = seq![0x0Au8];
    if p < end {
        assert(s.subrange(p, p + 1)[0] == s[p]);
        lemma_first_from(s, nl, p, end);
        if s[p] == 0x0A {
            assert(s.subrange(p, p + 1) =~= nl);
            assert(occurs_at(s, nl, p));
            assert(first_from(s, nl, p, end) == Some(p));
            lemma_lines_are_documents(s, p + 1, end);
            lemma_line_bounds(s, p + 1, end);
            assert(lines_from(s, p, end) =~= lines_from(s, p + 1, end));
        } else {
            assert(skip_newlines(s, p, end) == p);
            lemma_line_bounds(s, p, end);
            let b = line_end(s, p, end);
            assert(p < b) by {
                assert(line_end(s, p, end) == line_end(s, p + 1, end));
                lemma_line_bounds(s, p + 1, end);
            }
            assert forall|j: int| p <= j < b implies !#[trigger] occurs_at(s, nl, j) by {
                assert(s[j] != 0x0A);
                if occurs_at(s, nl, j) {
                    assert(s.subrange(j, j + 1)[0] == s[j]);
                }
            }
            if b < end {
                assert(s.subrange(b, b + 1) =~= nl);
                assert(occurs_at(s, nl, b));
                lemma_first_is(s, nl, p, end, b);
                lemma_lines_are_documents(s, b + 1, end);
            } else {
                if let Some(f) = first_from(s, nl, p, end) {
                    assert(occurs_at(s, nl, f));
                }
                assert(next_separator(s, nl, p, end) is None);
                assert(lines_from(s, b + 1, end) =~= Seq::<(int, int)>::empty());
                assert(lines_from(s, p, end) =~= seq![(p, end)]);
            }
        }
    } else {
        assert(documents(s, nl, p, end) =~= lines_from(s, p, end));
    }
}

/// The texts of parts are those of the lines in them.
proof fn lemma_part_texts(s: Seq<u8>, v: Seq<int>, field: Seq<char>)
    requires
        forall|i: int| 0 <= i < v.len() ==> 0 <= #[trigger] v[i] <= s.len(),
        ({
            let lines = part_documents(s, seq![0x0Au8], v);
            forall|i: int|
                0 <= i < lines.len() ==> json_field(
                    s.subrange((#[trigger] lines[i]).0, lines[i].1),
                    field,
                ) is Some
        }),
    ensures
        part_texts(s, v, field) == line_texts(s, part_documents(s, seq![0x0Au8], v), field),
    decreases v.len(),
{
    let nl = seq![0x0Au8];
    if v.len() >= 2 {
        let d = v.drop_last();
        let a = v[v.len() - 2];
        let b = v.last();
        assert(v[v.len() - 1] == b);
        assert forall|i: int| 0 <= i < d.len() implies 0 <= #[trigger] d[i] <= s.len() by {
            assert(d[i] == v[i]);
        }
        let x = part_documents(s, nl, d);
        let y = documents(s, nl, a, b);
        let lines = part_documents(s, nl, v);
        assert(lines == x + y);
        assert forall|i: int| 0 <= i < x.len() implies json_field(
            s.subrange((#[trigger] x[i]).0, x[i].1),
            field,
        ) is Some by {
            assert(x[i] == lines[i]);
        }
        lemma_part_texts(s, d, field);
        lemma_line_texts_add(s, x, y, field);
        lemma_lines_are_documents(s, a, b);
        if a < b {
            lemma_lines_part(s, field, a, b, 0);
        } else {
            assert(y =~= Seq::<(int, int)>::empty());
            assert(line_texts(s, y, field) =~= Seq::<Seq<u8>>::empty());
        }
    }
}

/// Counts the pretokens of JSON lines, part by part: each of up to `parts`
/// parts, which end right after a newline, is counted on its own and added to
/// the rest. Where every line has a text, the counts are those of the file.
pub fn pretokenize_jsonl_par(bytes: &[u8], field: &str, parts: usize) -> (r: PretokenCounts)
    ensures
        holds_counts(
            r@,
            |k: Seq<u8>|
                texts_count(
                    part_texts(
                        bytes@,
                        boundaries(bytes@, seq![0x0Au8], parts as int),
                        field@,
                    ),
                    k,
                ),
        ),
        lines_read(bytes@, field@) ==> holds_counts(
            r@,
            |k: Seq<u8>| texts_count(file_texts(bytes@, field@), k),
        ),
{
    let ghost s = bytes@;
    let ghost name = field@;
    let newline: [u8; 1] = [0x0A];
    let sep: &[u8] = &newline;
    proof {
        assert(sep@ =~= seq![0x0Au8]);
    }
    let bounds = chunk_boundaries(bytes, sep, parts);
    let ghost all = as_ints(bounds@);
    let mut r = PretokenCounts::new();
    let mut i: usize = 1;
    proof {
        assert(all.len() == bounds@.len());
        if all.len() >= 1 {
            assert(part_texts(s, all.take(1), name) =~= Seq::<Seq<u8>>::empty());
        }
    }
    while i < bounds.len()
        invariant
            1 <= i,
            i <= bounds@.len() || bounds@.len() == 0,
            all == as_ints(bounds@),
            all.len() == bounds@.len(),
            forall|j: int| 0 <= j < bounds@.len() ==> #[trigger] bounds@[j] <= s.len(),
            s == bytes@,
            name == field@,
            bounds@.len() > 0 ==> holds_counts(
                r@,
                |k: Seq<u8>| texts_count(part_texts(s, all.take(i as int), name), k),
            ),
            bounds@.len() == 0 ==> r@ == Map::<Seq<u8>, usize>::empty(),
        decreases bounds@.len() - i,
    {
        let a: usize = bounds[i - 1];
        let b: usize = bounds[i];
        proof {
            assert(all[i - 1] == a);
            assert(all[i as int] == b);
        }
        let ghost now = r@;
        let ghost head = part_texts(s, all.take(i as int), name);
        let ghost tail = range_texts(s, a as int, b as int, name);
        let ghost f = |k: Seq<u8>| texts_count(head, k);
        let ghost g = |k: Seq<u8>| texts_count(tail, k);
        proof {
            assert(all.take(i + 1).drop_last() =~= all.take(i as int));
            assert(part_texts(s, all.take(i + 1), name) == head + tail);
        }
        if a < b {
            let part = vstd::slice::slice_subrange(bytes, a, b);
            let counts = count_lines(part, field);
            let ghost other = counts@;
            r.merge_counts(&counts);
            proof {
                let next = |k: Seq<u8>| texts_count(part_texts(s, all.take(i + 1), name), k);
                assert forall|k: Seq<u8>|
                    {
                        &&& #[trigger] r@.contains_key(k) == (next(k) > 0)
                        &&& count_of(r@, k) == held(next(k))
                    } by {
                    assert(now.contains_key(k) == (f(k) > 0));
                    assert(other.contains_key(k) == (g(k) > 0));
                    law_texts_count_add(head, tail, k);
                    lemma_texts_count(head, k);
                    lemma_texts_count(tail, k);
                }
            }
        } else {
            proof {
                assert(head + tail =~= head);
            }
        }
        i += 1;
    }
    proof {
        if bounds@.len() > 0 {
            assert(all.take(i as int) =~= all);
        } else {
            assert(part_texts(s, all, name) =~= Seq::<Seq<u8>>::empty());
        }
        if lines_read(s, name) {
            law_parts_hold_all_documents(s, sep@, parts as int);
            lemma_lines_are_documents(s, 0, s.len() as int);
            lemma_part_texts(s, all, name);
        }
    }
    r
}

} // verus!
