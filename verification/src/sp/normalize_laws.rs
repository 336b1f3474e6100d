//! What each normalizer step and the marking of spaces make of a text.
use crate::pretokenize::chars::{char_end, lemma_char_len};
use crate::search::occurs_at;
use crate::sp::decode_laws::{lemma_mark_occurs, lemma_replaced_skip};
use crate::sp::normalize::{
    collapsed, metaspaced, norm_step, norm_steps, replaced, space_run_end, Metaspace, NormStep,
    PrependScheme,
};
use crate::sp::symbols::sp_mark;
use crate::text::{
    lemma_spaces_end_in, lemma_spaces_start_in, space_width, space_width_before, spaces_end,
    spaces_start,
};
use vstd::prelude::*;

verus! {

/// A step that puts text before a chunk gives the text and then the chunk. An
/// empty chunk stays empty.
pub proof fn law_prepend_puts_before(p: Seq<u8>, s: Seq<u8>)
    ensures
        ({
            let r = norm_step(NormStep::Prepend(p), s);
            &&& s.len() == 0 ==> r.len() == 0
            &&& s.len() > 0 ==> {
                &&& r.len() == p.len() + s.len()
                &&& r.take(p.len() as int) == p
                &&& r.skip(p.len() as int) == s
            }
        }),
{
    if s.len() > 0 {
        let r = norm_step(NormStep::Prepend(p), s);
        assert(r.take(p.len() as int) =~= p);
        assert(r.skip(p.len() as int) =~= s);
    }
}

/// Steps apply one after the other, the first of a list first.
pub proof fn law_steps_apply_in_order(a: Seq<NormStep>, b: Seq<NormStep>, s: Seq<u8>)
    ensures
        norm_steps(Seq::empty(), s) == s,
        norm_steps(a + b, s) == norm_steps(b, norm_steps(a, s)),
    decreases b.len(),
{
    if b.len() == 0 {
        assert(a + b =~= a);
    } else {
        assert((a + b).drop_last() =~= a + b.drop_last());
        assert((a + b).last() == b.last());
        law_steps_apply_in_order(a, b.drop_last(), s);
    }
}

/// A list of one step does what the step does.
pub proof fn law_one_step(op: NormStep, s: Seq<u8>)
    ensures
        norm_steps(seq![op], s) == norm_step(op, s),
{
    assert(seq![op].drop_last() =~= Seq::<NormStep>::empty());
    assert(norm_steps(Seq::empty(), s) == s);
    assert(seq![op].last() == op);
}

/// Text in which a pattern does not occur is not changed by replacing it.
pub proof fn law_replace_keeps_other_text(pattern: Seq<u8>, content: Seq<u8>, s: Seq<u8>)
    requires
        pattern.len() > 0,
        forall|i: int| 0 <= i < s.len() ==> !#[trigger] occurs_at(s, pattern, i),
    ensures
        norm_step(NormStep::Replace(pattern, content), s) == s,
    decreases s.len(),
{
    if s.len() > 0 {
        let t = s.skip(1);
        assert forall|i: int| 0 <= i < t.len() implies !#[trigger] occurs_at(t, pattern, i) by {
            if occurs_at(t, pattern, i) {
                assert(t.subrange(i, i + pattern.len()) =~= s.subrange(i + 1, i + 1
                    + pattern.len()));
                assert(occurs_at(s, pattern, i + 1));
            }
        }
        law_replace_keeps_other_text(pattern, content, t);
        lemma_replaced_skip(s, 1, pattern, content);
        assert(!occurs_at(s, pattern, 0));
        assert(seq![s[0]] + t =~= s);
    } else {
        assert(replaced(s, 0, pattern, content) =~= s);
    }
}

/// The first occurrence of a pattern is replaced, what stands before it stays,
/// and the same goes for the text behind it.
pub proof fn law_replace_takes_the_first(
    pattern: Seq<u8>,
    content: Seq<u8>,
    s: Seq<u8>,
    i: int,
)
    requires
        pattern.len() > 0,
        occurs_at(s, pattern, i),
        forall|j: int| 0 <= j < i ==> !#[trigger] occurs_at(s, pattern, j),
    ensures
        norm_step(NormStep::Replace(pattern, content), s) == s.take(i) + content + norm_step(
            NormStep::Replace(pattern, content),
            s.skip(i + pattern.len()),
        ),
    decreases s.len(),
{
    let n = pattern.len() as int;
    let rest = replaced(s.skip(i + n), 0, pattern, content);
    if i == 0 {
        lemma_replaced_skip(s, n, pattern, content);
        assert(s.take(0) + content + rest =~= content + rest);
    } else {
        let t = s.skip(1);
        assert(!occurs_at(s, pattern, 0));
        assert(t.subrange(i - 1, i - 1 + n) =~= s.subrange(i, i + n));
        assert forall|j: int| 0 <= j < i - 1 implies !#[trigger] occurs_at(t, pattern, j) by {
            if occurs_at(t, pattern, j) {
                assert(t.subrange(j, j + n) =~= s.subrange(j + 1, j + 1 + n));
                assert(occurs_at(s, pattern, j + 1));
            }
        }
        law_replace_takes_the_first(pattern, content, t, i - 1);
        lemma_replaced_skip(s, 1, pattern, content);
        assert(t.skip(i - 1 + n) =~= s.skip(i + n));
        assert(seq![s[0]] + (t.take(i - 1) + content + rest) =~= s.take(i) + content + rest);
    }
}

/// An empty pattern stands before each character and at the end.
pub proof fn law_replace_nothing(content: Seq<u8>, s: Seq<u8>)
    ensures
        s.len() == 0 ==> norm_step(NormStep::Replace(Seq::empty(), content), s) == content,
        s.len() > 0 ==> norm_step(NormStep::Replace(Seq::empty(), content), s) == content + s.take(
            char_end(s, 0),
        ) + norm_step(NormStep::Replace(Seq::empty(), content), s.skip(char_end(s, 0))),
{
    if s.len() > 0 {
        let e = char_end(s, 0);
        lemma_char_len(s, 0);
        assert(s.subrange(0, e) =~= s.take(e));
        lemma_interleaved_skip(s, e, 0, content);
    }
}

proof fn lemma_interleaved_skip(s: Seq<u8>, u: int, p: int, content: Seq<u8>)
    requires
        0 <= u <= s.len(),
        0 <= p <= s.len() - u,
    ensures
        crate::sp::normalize::interleaved(s, u + p, content) == crate::sp::normalize::interleaved(
            s.skip(u),
            p,
            content,
        ),
    decreases s.len() - u - p,
{
    let t = s.skip(u);
    if p < t.len() {
        assert(t[p] == s[u + p]);
        lemma_char_len(t, p);
        assert(char_end(t, p) + u == char_end(s, u + p));
        assert(t.subrange(p, char_end(t, p)) =~= s.subrange(u + p, char_end(s, u + p)));
        lemma_interleaved_skip(s, u, char_end(t, p), content);
    }
}

proof fn lemma_run_skip(s: Seq<u8>, u: int, p: int)
    requires
        0 <= u <= s.len(),
        0 <= p <= s.len() - u,
    ensures
        space_run_end(s, u + p) == u + space_run_end(s.skip(u), p),
        p <= space_run_end(s.skip(u), p) <= s.len() - u,
    decreases s.len() - u - p,
{
    let t = s.skip(u);
    if p < t.len() {
        assert(t[p] == s[u + p]);
        if s[u + p] == 0x20 {
            lemma_run_skip(s, u, p + 1);
        }
    }
}

proof fn lemma_collapsed_skip(s: Seq<u8>, u: int, p: int, content: Seq<u8>)
    requires
        0 <= u <= s.len(),
        0 <= p <= s.len() - u,
    ensures
        collapsed(s, u + p, content) == collapsed(s.skip(u), p, content),
    decreases s.len() - u - p,
{
    let t = s.skip(u);
    if p < t.len() {
        assert(t[p] == s[u + p]);
        if s[u + p] != 0x20 {
            lemma_collapsed_skip(s, u, p + 1, content);
        } else {
            lemma_run_skip(s, u, p);
            lemma_run_skip(s, u, p + 1);
            lemma_collapsed_skip(s, u, space_run_end(t, p), content);
        }
    }
}

/// No two spaces stand side by side.
pub open spec fn single_spaced(s: Seq<u8>) -> bool {
    forall|i: int| 0 <= i < s.len() - 1 ==> !(#[trigger] s[i] == 0x20 && s[i + 1] == 0x20)
}

/// Text with single spaces only is not changed by collapsing them.
pub proof fn law_collapse_keeps_single_spaces(content: Seq<u8>, s: Seq<u8>)
    requires
        single_spaced(s),
    ensures
        norm_step(NormStep::CollapseSpaces(content), s) == s,
    decreases s.len(),
{
    if s.len() > 0 {
        let t = s.skip(1);
        assert forall|i: int| 0 <= i < t.len() - 1 implies !(#[trigger] t[i] == 0x20 && t[i + 1]
            == 0x20) by {
            assert(t[i] == s[i + 1] && t[i + 1] == s[i + 2]);
        }
        law_collapse_keeps_single_spaces(content, t);
        lemma_collapsed_skip(s, 1, 0, content);
        assert(seq![s[0]] + t =~= s);
        if s[0] == 0x20 {
            if s.len() > 1 {
                assert(s[1] != 0x20);
            }
            assert(space_run_end(s, 1) == 1);
            assert(space_run_end(s, 0) == 1);
        }
    } else {
        assert(collapsed(s, 0, content) =~= s);
    }
}

/// The first run of two or more spaces is replaced as a whole, what stands
/// before it stays, and the same goes for the text behind it.
pub proof fn law_collapse_takes_the_first_run(content: Seq<u8>, s: Seq<u8>, i: int, e: int)
    requires
        0 <= i < e - 1 < s.len(),
        single_spaced(s.take(i)),
        i > 0 ==> s[i - 1] != 0x20,
        forall|j: int| i <= j < e ==> #[trigger] s[j] == 0x20,
        e < s.len() ==> s[e] != 0x20,
    ensures
        norm_step(NormStep::CollapseSpaces(content), s) == s.take(i) + content + norm_step(
            NormStep::CollapseSpaces(content),
            s.skip(e),
        ),
    decreases s.len(),
{
    let rest = collapsed(s.skip(e), 0, content);
    if i == 0 {
        lemma_run_is(s, 0, e);
        lemma_collapsed_skip(s, e, 0, content);
        assert(s.take(0) + content + rest =~= content + rest);
    } else {
        let t = s.skip(1);
        let h = t.take(i - 1);
        assert forall|j: int| 0 <= j < h.len() - 1 implies !(#[trigger] h[j] == 0x20 && h[j + 1]
            == 0x20) by {
            assert(h[j] == s.take(i)[j + 1] && h[j + 1] == s.take(i)[j + 2]);
        }
        assert(i - 1 > 0 ==> t[i - 2] == s[i - 1]);
        assert forall|j: int| i - 1 <= j < e - 1 implies #[trigger] t[j] == 0x20 by {
            assert(t[j] == s[j + 1]);
        }
        if e < s.len() {
            assert(t[e - 1] == s[e]);
        }
        law_collapse_takes_the_first_run(content, t, i - 1, e - 1);
        assert(t.skip(e - 1) =~= s.skip(e));
        lemma_collapsed_skip(s, 1, 0, content);
        assert(seq![s[0]] + (t.take(i - 1) + content + rest) =~= s.take(i) + content + rest);
        if s[0] == 0x20 {
            assert(s[1] != 0x20) by {
                if i == 1 {
                    assert(s[i - 1] != 0x20);
                } else {
                    assert(s.take(i)[0] == s[0] && s.take(i)[1] == s[1]);
                }
            }
            assert(space_run_end(s, 1) == 1);
            assert(space_run_end(s, 0) == 1);
        }
    }
}

proof fn lemma_run_is(s: Seq<u8>, p: int, e: int)
    requires
        0 <= p <= e <= s.len(),
        forall|j: int| p <= j < e ==> #[trigger] s[j] == 0x20,
        e < s.len() ==> s[e] != 0x20,
    ensures
        space_run_end(s, p) == e,
    decreases e - p,
{
    if p < e {
        assert(s[p] == 0x20);
        lemma_run_is(s, p + 1, e);
    }
}

/// A text is made of white space characters.
pub open spec fn is_blank(s: Seq<u8>) -> bool
    decreases s.len(),
{
    s.len() == 0 || (space_width(s, 0) > 0 && is_blank(s.skip(space_width(s, 0))))
}

proof fn lemma_width_part(s: Seq<u8>, a: int, b: int, p: int)
    requires
        0 <= a <= b <= s.len(),
        0 <= p,
        a + p + space_width(s, a + p) <= b,
    ensures
        space_width(s.subrange(a, b), p) == space_width(s, a + p),
{
    let t = s.subrange(a, b);
    assert(forall|i: int| 0 <= i < t.len() ==> #[trigger] t[i] == s[a + i]);
}

proof fn lemma_blank_start(s: Seq<u8>, p: int)
    requires
        0 <= p <= s.len(),
    ensures
        p <= spaces_end(s, p) <= s.len(),
        is_blank(s.subrange(p, spaces_end(s, p))),
        space_width(s, spaces_end(s, p)) == 0,
    decreases s.len() - p,
{
    lemma_spaces_end_in(s, p);
    let e = spaces_end(s, p);
    let w = space_width(s, p);
    if w > 0 {
        lemma_blank_start(s, p + w);
        let t = s.subrange(p, e);
        lemma_width_part(s, p, e, 0);
        assert(t.skip(w) =~= s.subrange(p + w, e));
    }
}

/// Blank text with one more white space character is blank.
proof fn lemma_blank_front(s: Seq<u8>, w: int)
    requires
        0 < w <= s.len(),
        space_width(s, 0) == w,
        is_blank(s.skip(w)),
    ensures
        is_blank(s),
{
}

proof fn lemma_blank_add(a: Seq<u8>, b: Seq<u8>)
    requires
        is_blank(a),
        is_blank(b),
    ensures
        is_blank(a + b),
    decreases a.len(),
{
    if a.len() == 0 {
        assert(a + b =~= b);
    } else {
        let w = space_width(a, 0);
        let t = a + b;
        assert(t.subrange(0, a.len() as int) =~= a);
        assert(forall|i: int| 0 <= i < a.len() ==> #[trigger] t[i] == a[i]);
        assert(space_width(t, 0) == w);
        lemma_blank_add(a.skip(w), b);
        assert(t.skip(w) =~= a.skip(w) + b);
    }
}

proof fn lemma_blank_end(s: Seq<u8>, end: int)
    requires
        0 <= end <= s.len(),
    ensures
        0 <= spaces_start(s, end) <= end,
        is_blank(s.subrange(spaces_start(s, end), end)),
        space_width_before(s, spaces_start(s, end)) == 0 || spaces_start(s, end) == 0,
    decreases end,
{
    lemma_spaces_start_in(s, end);
    let b = spaces_start(s, end);
    let w = space_width_before(s, end);
    if 0 < end && w > 0 {
        lemma_blank_end(s, end - w);
        let one = s.subrange(end - w, end);
        lemma_width_part(s, end - w, end, 0);
        assert(space_width(one, 0) == w);
        assert(one.skip(w) =~= Seq::<u8>::empty());
        assert(is_blank(one.skip(w)));
        lemma_blank_front(one, w);
        lemma_blank_add(s.subrange(b, end - w), one);
        assert(s.subrange(b, end - w) + one =~= s.subrange(b, end));
    } else {
        assert(s.subrange(b, end) =~= Seq::<u8>::empty());
    }
}

proof fn lemma_width_skip(s: Seq<u8>, i: int)
    requires
        0 <= i <= s.len(),
    ensures
        space_width(s.skip(i), 0) == space_width(s, i),
{
    let r = s.skip(i);
    assert(forall|j: int| 0 <= j < r.len() ==> #[trigger] r[j] == s[i + j]);
}

proof fn lemma_width_before_part(s: Seq<u8>, i: int, e: int)
    requires
        0 <= i < e <= s.len(),
    ensures
        space_width_before(s.subrange(i, e), e - i) > 0 ==> space_width_before(s, e) > 0,
{
    let r = s.subrange(i, e);
    let m = e - i;
    assert(forall|j: int| 0 <= j < r.len() ==> #[trigger] r[j] == s[i + j]);
    if space_width(r, m - 1) == 1 {
        assert(space_width(s, e - 1) == 1);
    } else if space_width(r, m - 2) == 2 {
        assert(space_width(s, e - 2) == 2);
    } else if space_width(r, m - 3) == 3 {
        assert(space_width(s, e - 3) == 3);
    }
}

/// `r` is `s` without white space on the sides that are asked for: what is
/// missing is blank, and what is left does not start or end with white space
/// there.
pub open spec fn is_stripped(s: Seq<u8>, r: Seq<u8>, left: bool, right: bool) -> bool {
    exists|a: Seq<u8>, b: Seq<u8>|
        {
            &&& s == #[trigger] (a + r + b)
            &&& is_blank(a)
            &&& is_blank(b)
            &&& !left ==> a.len() == 0
            &&& !right ==> b.len() == 0
            &&& left ==> space_width(r, 0) == 0
            &&& right && r.len() > 0 ==> space_width_before(r, r.len() as int) == 0
        }
}

/// Stripping takes white space off the sides that are asked for, all of it and
/// nothing else.
pub proof fn law_strip_takes_white_space(left: bool, right: bool, s: Seq<u8>)
    ensures
        is_stripped(s, norm_step(NormStep::Strip(left, right), s), left, right),
{
    let r = norm_step(NormStep::Strip(left, right), s);
    let n = s.len() as int;
    let e = if right {
        spaces_start(s, n)
    } else {
        n
    };
    lemma_blank_end(s, n);
    let head = s.take(e);
    assert(s.take(n) =~= s);
    let i = if left {
        spaces_end(head, 0)
    } else {
        0
    };
    lemma_blank_start(head, 0);
    assert(head.skip(0) =~= head);
    let a = head.subrange(0, i);
    let b = s.subrange(e, n);
    assert(r =~= head.skip(i));
    assert(a + r + b =~= s);
    assert(head.subrange(0, 0) =~= Seq::<u8>::empty());
    assert(s.subrange(n, n) =~= Seq::<u8>::empty());
    if left {
        lemma_width_skip(head, i);
    }
    if right && r.len() > 0 {
        lemma_width_before_part(s, i, e);
        assert(r =~= s.subrange(i, e));
    }
    assert(s == a + r + b && is_blank(a) && is_blank(b));
}

/// The marking of spaces leaves no spaces: each is the marker. Before a chunk
/// that is not empty and does not start with the marker, it puts one more where
/// the scheme asks for it: always, or before the first chunk alone.
pub proof fn law_metaspace_marks(ms: Metaspace, s: Seq<u8>, first: bool)
    ensures
        ({
            let r = metaspaced(Some(ms), s, first);
            let t = norm_step(NormStep::Replace(seq![0x20u8], sp_mark()), s);
            &&& !r.contains(0x20)
            &&& s.len() == 0 ==> r.len() == 0
            &&& ms.prepend == PrependScheme::Never ==> r == t
            &&& ms.prepend == PrependScheme::First && !first ==> r == t
            &&& s.len() > 0 && (ms.prepend == PrependScheme::Always || (ms.prepend
                == PrependScheme::First && first)) ==> {
                &&& occurs_at(r, sp_mark(), 0)
                &&& r == t || (r == sp_mark() + t && !occurs_at(t, sp_mark(), 0))
            }
        }),
{
    let space = seq![0x20u8];
    let mark = sp_mark();
    let t = replaced(s, 0, space, mark);
    lemma_no_space_left(s);
    let r = metaspaced(Some(ms), s, first);
    assert(!mark.contains(0x20));
    assert(!r.contains(0x20)) by {
        if r.contains(0x20) {
            let i = choose|i: int| 0 <= i < r.len() && r[i] == 0x20;
            if r != t {
                if i < 3 {
                    assert(mark[i] == 0x20);
                } else {
                    assert(t[i - 3] == 0x20);
                }
            }
        }
    }
    lemma_mark_occurs(r, 0);
}

proof fn lemma_no_space_left(s: Seq<u8>)
    ensures
        !replaced(s, 0, seq![0x20u8], sp_mark()).contains(0x20),
        replaced(s, 0, seq![0x20u8], sp_mark()).len() == 0 <==> s.len() == 0,
    decreases s.len(),
{
    let space = seq![0x20u8];
    let t = replaced(s, 0, space, sp_mark());
    if s.len() > 0 {
        lemma_no_space_left(s.skip(1));
        lemma_replaced_skip(s, 1, space, sp_mark());
        let rest = replaced(s.skip(1), 0, space, sp_mark());
        assert(s.subrange(0, 1) =~= seq![s[0]]);
        if s[0] != 0x20 {
            assert(seq![s[0]][0] != space[0]);
        }
        if t.contains(0x20) {
            let i = choose|i: int| 0 <= i < t.len() && t[i] == 0x20;
            let head = if s[0] == 0x20 {
                sp_mark()
            } else {
                seq![s[0]]
            };
            assert(t == head + rest);
            if i >= head.len() {
                assert(rest[i - head.len()] == 0x20);
            } else {
                assert(head[i] == 0x20);
            }
        }
    }
}

/// Without a marking of spaces a chunk stays as it is.
pub proof fn law_no_metaspace_keeps_text(s: Seq<u8>, first: bool)
    ensures
        metaspaced(None, s, first) == s,
{
}

} // verus!
