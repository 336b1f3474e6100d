//! JSON Lines documents: one per line, the text of a field.
use crate::search::find_byte;
use vstd::prelude::*;

verus! {

/// The text of a field of a JSON line, or `None` when the line does not parse
/// or the field is no string.
pub uninterp spec fn json_field(line: Seq<u8>, field: Seq<char>) -> Option<Seq<u8>>;

/// `sonic_rs::get_from_slice` and `as_str` on what it finds: the string that
/// `field` of the object in `line` holds, as UTF-8; `None` when the line does
/// not parse that far or the field is missing or no string. The outcome
/// depends on the line and the field alone.
#[verifier::external_body]
pub(crate) fn field_text(line: &[u8], field: &str) -> (r: Option<Vec<u8>>)
    ensures
        match r {
            Some(t) => json_field(line@, field@) == Some(t@),
            None => json_field(line@, field@) is None,
        },
{
    let value = sonic_rs::get_from_slice(line, &[field]).ok()?;
    Some(sonic_rs::JsonValueTrait::as_str(&value)?.as_bytes().to_vec())
}

/// The first position from `p` on that is no newline.
pub open spec fn skip_newlines(s: Seq<u8>, p: int, end: int) -> int
    decreases end - p,
{
    if p < end && s[p] == 0x0A {
        skip_newlines(s, p + 1, end)
    } else {
        p
    }
}

/// The first newline from `p` on, or the end.
pub open spec fn line_end(s: Seq<u8>, p: int, end: int) -> int
    decreases end - p,
{
    if p < end && s[p] != 0x0A {
        line_end(s, p + 1, end)
    } else {
        p
    }
}

/// Newlines are skipped, lines end at one.
pub proof fn lemma_line_bounds(s: Seq<u8>, p: int, end: int)
    requires
        p <= end,
    ensures
        p <= skip_newlines(s, p, end) <= end,
        skip_newlines(s, p, end) < end ==> s[skip_newlines(s, p, end)] != 0x0A,
        forall|i: int| p <= i < skip_newlines(s, p, end) ==> #[trigger] s[i] == 0x0A,
        p <= line_end(s, p, end) <= end,
        line_end(s, p, end) < end ==> s[line_end(s, p, end)] == 0x0A,
        forall|i: int| p <= i < line_end(s, p, end) ==> #[trigger] s[i] != 0x0A,
    decreases end - p,
{
    if p < end {
        lemma_line_bounds(s, p + 1, end);
    }
}

/// The lines from `p` to `end` that are not empty.
pub open spec fn lines_from(s: Seq<u8>, p: int, end: int) -> Seq<(int, int)>
    decreases end - p + 1,
    via lines_decreases
{
    if p >= end {
        Seq::empty()
    } else {
        let a = skip_newlines(s, p, end);
        if a >= end {
            Seq::empty()
        } else {
            let b = line_end(s, a, end);
            seq![(a, b)] + lines_from(s, b + 1, end)
        }
    }
}

#[via_fn]
proof fn lines_decreases(s: Seq<u8>, p: int, end: int) {
    if p < end {
        lemma_line_bounds(s, p, end);
        if skip_newlines(s, p, end) < end {
            lemma_line_bounds(s, skip_newlines(s, p, end), end);
        }
    }
}

proof fn lemma_skip_is(s: Seq<u8>, p: int, end: int, a: int)
    requires
        p <= a <= end,
        a < end ==> s[a] != 0x0A,
        forall|i: int| p <= i < a ==> #[trigger] s[i] == 0x0A,
    ensures
        skip_newlines(s, p, end) == a,
    decreases a - p,
{
    if p < a {
        lemma_skip_is(s, p + 1, end, a);
    }
}

proof fn lemma_line_end_is(s: Seq<u8>, p: int, end: int, b: int)
    requires
        p <= b <= end,
        b < end ==> s[b] == 0x0A,
        forall|i: int| p <= i < b ==> #[trigger] s[i] != 0x0A,
    ensures
        line_end(s, p, end) == b,
    decreases b - p,
{
    if p < b {
        lemma_line_end_is(s, p + 1, end, b);
    }
}

/// Lines divide right after a newline.
pub proof fn law_lines_divide(s: Seq<u8>, p: int, e: int, end: int)
    requires
        p < e <= end,
        s[e - 1] == 0x0A,
    ensures
        lines_from(s, p, end) == lines_from(s, p, e) + lines_from(s, e, end),
    decreases e - p,
{
    let a = skip_newlines(s, p, end);
    lemma_line_bounds(s, p, end);
    let tail = lines_from(s, e, end);
    if a >= e {
        lemma_skip_is(s, p, e, e);
        assert(lines_from(s, p, e) =~= Seq::<(int, int)>::empty());
        if e < end {
            lemma_skip_is(s, e, end, a);
        }
        assert(lines_from(s, p, end) =~= tail);
        assert(lines_from(s, p, e) + tail =~= tail);
    } else {
        lemma_skip_is(s, p, e, a);
        lemma_line_bounds(s, a, end);
        let b = line_end(s, a, end);
        assert(b <= e - 1) by {
            if b > e - 1 {
                assert(s[e - 1] != 0x0A);
            }
        }
        lemma_line_end_is(s, a, e, b);
        if b + 1 < e {
            law_lines_divide(s, b + 1, e, end);
        } else {
            assert(lines_from(s, b + 1, e) =~= Seq::<(int, int)>::empty());
            assert(lines_from(s, b + 1, e) + tail =~= tail);
        }
        assert(lines_from(s, p, end) == seq![(a, b)] + lines_from(s, b + 1, end));
        assert(lines_from(s, p, e) == seq![(a, b)] + lines_from(s, b + 1, e));
        assert((seq![(a, b)] + lines_from(s, b + 1, e)) + tail =~= seq![(a, b)] + (lines_from(
            s,
            b + 1,
            e,
        ) + tail));
    }
}

/// The texts of lines in order, up to the first line without one.
pub open spec fn line_texts(s: Seq<u8>, lines: Seq<(int, int)>, field: Seq<char>) -> Seq<Seq<u8>>
    decreases lines.len(),
{
    if lines.len() == 0 {
        Seq::empty()
    } else {
        match json_field(s.subrange(lines[0].0, lines[0].1), field) {
            Some(t) => seq![t] + line_texts(s, lines.drop_first(), field),
            None => Seq::empty(),
        }
    }
}

proof fn lemma_skips_part(s: Seq<u8>, a: int, b: int, p: int)
    requires
        0 <= a <= b <= s.len(),
        0 <= p,
    ensures
        skip_newlines(s.subrange(a, b), p, b - a) + a == skip_newlines(s, p + a, b),
        line_end(s.subrange(a, b), p, b - a) + a == line_end(s, p + a, b),
    decreases b - a - p,
{
    if p < b - a {
        lemma_skips_part(s, a, b, p + 1);
        assert(p + 1 + a == p + a + 1);
    }
}

/// The texts of the lines of a part are those of the lines there.
pub proof fn lemma_lines_part(s: Seq<u8>, field: Seq<char>, a: int, b: int, p: int)
    requires
        0 <= a <= b <= s.len(),
        0 <= p,
    ensures
        line_texts(s.subrange(a, b), lines_from(s.subrange(a, b), p, b - a), field)
            == line_texts(s, lines_from(s, p + a, b), field),
    decreases b - a - p + 1,
{
    let u = s.subrange(a, b);
    let e = b - a;
    if p < e {
        lemma_skips_part(s, a, b, p);
        lemma_line_bounds(u, p, e);
        let x = skip_newlines(u, p, e);
        if x < e {
            lemma_skips_part(s, a, b, x);
            lemma_line_bounds(u, x, e);
            let y = line_end(u, x, e);
            lemma_lines_part(s, field, a, b, y + 1);
            assert(y + 1 + a == y + a + 1);
            assert(u.subrange(x, y) =~= s.subrange(x + a, y + a));
            let lu = lines_from(u, p, e);
            let ls = lines_from(s, p + a, b);
            assert(lu.drop_first() =~= lines_from(u, y + 1, e));
            assert(ls.drop_first() =~= lines_from(s, y + 1 + a, b));
            assert(lu[0] == (x, y));
            assert(ls[0] == (x + a, y + a));
        }
    }
}

/// Every line has a text.
pub open spec fn lines_read(s: Seq<u8>, field: Seq<char>) -> bool {
    let lines = lines_from(s, 0, s.len() as int);
    forall|i: int|
        0 <= i < lines.len() ==> json_field(
            s.subrange((#[trigger] lines[i]).0, lines[i].1),
            field,
        ) is Some
}

/// The texts of lines come in order, where the first ones all have one.
pub proof fn lemma_line_texts_add(
    s: Seq<u8>,
    a: Seq<(int, int)>,
    b: Seq<(int, int)>,
    field: Seq<char>,
)
    requires
        forall|i: int|
            0 <= i < a.len() ==> json_field(
                s.subrange((#[trigger] a[i]).0, a[i].1),
                field,
            ) is Some,
    ensures
        line_texts(s, a + b, field) == line_texts(s, a, field) + line_texts(s, b, field),
    decreases a.len(),
{
    if a.len() == 0 {
        assert(a + b =~= b);
        assert(line_texts(s, a, field) + line_texts(s, b, field) =~= line_texts(s, b, field));
    } else {
        assert((a + b).drop_first() =~= a.drop_first() + b);
        assert((a + b)[0] == a[0]);
        let rest = a.drop_first();
        assert forall|i: int| 0 <= i < rest.len() implies json_field(
            s.subrange((#[trigger] rest[i]).0, rest[i].1),
            field,
        ) is Some by {
            assert(rest[i] == a[i + 1]);
        }
        lemma_line_texts_add(s, rest, b, field);
        let t = json_field(s.subrange(a[0].0, a[0].1), field)->0;
        assert(seq![t] + (line_texts(s, rest, field) + line_texts(s, b, field)) =~= (seq![t]
            + line_texts(s, rest, field)) + line_texts(s, b, field));
    }
}

/// Walks the lines of a byte slice.
pub struct JsonLinesSlice<'a> {
    slice: &'a [u8],
    position: usize,
    field: &'a str,
}

impl<'a> JsonLinesSlice<'a> {
    /// The text that is walked.
    pub closed spec fn text(&self) -> Seq<u8> {
        self.slice@
    }

    /// The field whose text is taken.
    pub closed spec fn field_name(&self) -> Seq<char> {
        self.field@
    }

    /// The lines that are left.
    pub closed spec fn left(&self) -> Seq<(int, int)> {
        lines_from(self.slice@, self.position as int, self.slice@.len() as int)
    }

    #[verifier::type_invariant]
    spec fn wf(&self) -> bool {
        self.position <= self.slice@.len()
    }

    /// Walks the lines of `slice`.
    pub fn new(slice: &'a [u8], field: &'a str) -> (r: Self)
        ensures
            r.text() == slice@,
            r.field_name() == field@,
            r.left() == lines_from(slice@, 0, slice@.len() as int),
    {
        JsonLinesSlice { slice, position: 0, field }
    }

    /// The text of the next line; `None` at the end or where the line has
    /// none.
    pub fn next_document(&mut self) -> (r: Option<Vec<u8>>)
        ensures
            final(self).text() == old(self).text(),
            final(self).field_name() == old(self).field_name(),
            old(self).left().len() == 0 ==> r is None && final(self).left().len() == 0,
            old(self).left().len() > 0 ==> {
                let line = old(self).left()[0];
                &&& final(self).left() == old(self).left().drop_first()
                &&& match r {
                    Some(t) => json_field(
                        old(self).text().subrange(line.0, line.1),
                        old(self).field_name(),
                    ) == Some(t@),
                    None => json_field(
                        old(self).text().subrange(line.0, line.1),
                        old(self).field_name(),
                    ) is None,
                }
            },
    {
        proof {
            use_type_invariant(&*self);
        }
        let slice = self.slice;
        let ghost s = slice@;
        let total: usize = slice.len();
        let start: usize = self.position;
        let mut p: usize = start;
        while p < total && slice[p] == 0x0A
            invariant
                start <= p <= total,
                total == s.len(),
                s == slice@,
                skip_newlines(s, p as int, total as int) == skip_newlines(
                    s,
                    start as int,
                    total as int,
                ),
            decreases total - p,
        {
            p += 1;
        }
        if p >= total {
            self.position = p;
            return None;
        }
        let rest = vstd::slice::slice_subrange(slice, p, total);
        let e: usize = match find_byte(0x0A, rest) {
            Some(i) => p + i,
            None => total,
        };
        proof {
            assert forall|i: int| p <= i < e implies #[trigger] s[i] != 0x0A by {
                assert(rest@[i - p] != 0x0A);
            }
            lemma_line_end_is(s, p as int, total as int, e as int);
            assert(self.left().drop_first() =~= lines_from(s, e + 1, total as int));
            if e == total {
                assert(lines_from(s, e as int, total as int) =~= lines_from(
                    s,
                    e + 1,
                    total as int,
                ));
            }
        }
        self.position = if e < total {
            e + 1
        } else {
            total
        };
        field_text(vstd::slice::slice_subrange(slice, p, e), self.field)
    }
}

/// A line of nothing but line ends.
pub open spec fn blank_line(line: Seq<u8>) -> bool {
    forall|i: int| 0 <= i < line.len() ==> #[trigger] line[i] == 0x0A || line[i] == 0x0D
}

/// What a line that was read gives: nothing for a blank line, else the text of
/// its field or that there is none.
pub fn line_document(line: &[u8], field: &str) -> (r: Option<Option<Vec<u8>>>)
    ensures
        match r {
            None => blank_line(line@),
            Some(Some(t)) => !blank_line(line@) && json_field(line@, field@) == Some(t@),
            Some(None) => !blank_line(line@) && json_field(line@, field@) is None,
        },
{
    let mut i: usize = 0;
    while i < line.len()
        invariant
            i <= line@.len(),
            forall|j: int| 0 <= j < i ==> #[trigger] line@[j] == 0x0A || line@[j] == 0x0D,
        decreases line@.len() - i,
    {
        if line[i] != 0x0A && line[i] != 0x0D {
            return Some(field_text(line, field));
        }
        i += 1;
    }
    None
}

} // verus!
