//! Ranges of a text that encode like the whole.
use crate::bpe::added::{lemma_match_exists, longest_match, patterns, AddedToken};
use crate::bpe::caches::EncodeView;
use crate::bpe::match_laws::{lemma_match_is, lemma_match_skip, lemma_match_take, unstraddled};
use crate::bpe::nfc_laws::{lemma_nfc_break, lemma_valid_range};
use crate::bpe::tiktoken::{
    after_added, all_nonempty, encode_from, encode_view, encoded, lemma_spans_ids_add, prepared,
    segment_end, segment_ids, spans_ids, TokenizerView,
};
use crate::pretokenize::locality::{
    boundary, law_utf8_is_whole, shift_spans, whole_char, whole_chars,
};
use crate::pretokenize::r50k::continuation;
use crate::pretokenize::scheme::{law_spans_partition, spans_from};
use crate::pretokenize::split::{
    ascii_alnum, blocks, can_cut, law_split_at_break, lemma_next_cut, lemma_whole_parts, next_cut,
    space_break, split_from, split_ranges, SplitBlocker,
};
use crate::search::occurs_at;
use crate::sp::cuts::unit_key;
use crate::sp::unit_laws::lemma_prefixed_whole;
use crate::text::{
    lemma_spaces_end_in, lemma_spaces_end_take, lemma_spaces_start_in, nfc_bytes, nfc_divides,
    space_width, space_width_before, spaces_end, spaces_start,
};
use vstd::prelude::*;
use vstd::utf8::valid_utf8;

verus! {

/// The tokens that may forbid a cut are the added tokens.
pub open spec fn blockers_of(tokens: Seq<SplitBlocker>, added: Seq<AddedToken>) -> bool {
    &&& tokens.len() == added.len()
    &&& forall|i: int|
        0 <= i < tokens.len() ==> (#[trigger] tokens[i]).0@ == added[i].content && tokens[i].1
            == added[i].rstrip
}

/// Where an added token stands in the text, it ends with a character.
pub open spec fn ends_whole(added: Seq<AddedToken>, s: Seq<u8>) -> bool {
    forall|k: int, i: int|
        0 <= k < added.len() && #[trigger] occurs_at(s, added[k].content, i) ==> boundary(
            s,
            i + added[k].content.len(),
        )
}

/// The added tokens of a tokenizer are text.
pub open spec fn added_are_text(t: TokenizerView) -> bool {
    forall|k: int| 0 <= k < t.added.len() ==> valid_utf8((#[trigger] t.added[k]).content)
}

proof fn lemma_ids_of_prefix(e: EncodeView, s: Seq<u8>, q: int, spans: Seq<(int, int)>)
    requires
        0 <= q <= s.len(),
        forall|i: int| 0 <= i < spans.len() ==> 0 <= (#[trigger] spans[i]).0 <= spans[i].1 <= q,
    ensures
        spans_ids(e, s, spans) == spans_ids(e, s.take(q), spans),
    decreases spans.len(),
{
    if spans.len() > 0 {
        let d = spans.drop_last();
        assert forall|i: int| 0 <= i < d.len() implies 0 <= (#[trigger] d[i]).0 <= d[i].1 <= q by {
            assert(spans[i] == d[i]);
        }
        lemma_ids_of_prefix(e, s, q, d);
        let (a, b) = spans.last();
        assert(spans[spans.len() - 1] == (a, b));
        assert(s.subrange(a, b) =~= s.take(q).subrange(a, b));
    }
}

proof fn lemma_ids_of_suffix(e: EncodeView, s: Seq<u8>, q: int, spans: Seq<(int, int)>)
    requires
        0 <= q <= s.len(),
        forall|i: int|
            0 <= i < spans.len() ==> 0 <= (#[trigger] spans[i]).0 <= spans[i].1 <= s.len() - q,
    ensures
        spans_ids(e, s, shift_spans(spans, q)) == spans_ids(e, s.skip(q), spans),
    decreases spans.len(),
{
    let sh = shift_spans(spans, q);
    if spans.len() > 0 {
        let d = spans.drop_last();
        assert forall|i: int| 0 <= i < d.len() implies 0 <= (#[trigger] d[i]).0 <= d[i].1 <= s.len()
            - q by {
            assert(spans[i] == d[i]);
        }
        lemma_ids_of_suffix(e, s, q, d);
        assert(sh.drop_last() =~= shift_spans(d, q));
        let (a, b) = spans.last();
        assert(spans[spans.len() - 1] == (a, b));
        assert(sh.last() == (a + q, b + q));
        assert(s.subrange(a + q, b + q) =~= s.skip(q).subrange(a, b));
    }
}

/// A segment encodes like its parts before and from a space that follows a
/// letter or digit.
proof fn lemma_segment_divides(t: TokenizerView, raw: Seq<u8>, q: int)
    requires
        divides_under(t, raw),
        whole_chars(raw.take(q)),
        space_break(raw, q),
        q + 1 < raw.len() ==> raw[q + 1] < 0x80,
    ensures
        segment_ids(t, raw) == segment_ids(t, raw.take(q)) + segment_ids(t, raw.skip(q)),
{
    let e = encode_view(t);
    let seg = normed(t, raw);
    let head = normed(t, raw.take(q));
    let tail = normed(t, raw.skip(q));
    let r = head.len() as int;
    if t.nfc {
        lemma_nfc_break(raw, q);
        lemma_whole_parts(seg, r);
    } else {
        assert(raw.take(q) + raw.skip(q) =~= raw);
    }
    assert(seg.take(r) =~= head);
    assert(seg == head + tail && space_break(seg, r) && whole_chars(head));
    let u = prepared(t, raw);
    let a = prepared(t, raw.take(q));
    let b = prepared(t, raw.skip(q));
    let n = u.len() - seg.len() + r;
    if u.len() > seg.len() {
        lemma_prefixed_whole(head);
        assert(u.take(n) =~= unit_key(head, true));
    } else {
        assert(u.take(n) =~= head);
    }
    assert(head[0] == seg[0]);
    assert(tail[0] == seg[r]);
    assert(a =~= u.take(n));
    assert(b =~= u.skip(n));
    assert(u[n] == seg[r] && u[n - 1] == seg[r - 1]);
    law_split_at_break(t.scheme, u, n);
    let x = spans_from(t.scheme, a, 0);
    let y = spans_from(t.scheme, b, 0);
    lemma_spans_ids_add(e, u, x, shift_spans(y, n));
    law_spans_partition(t.scheme, a, 0);
    law_spans_partition(t.scheme, b, 0);
    lemma_ids_of_prefix(e, u, n, x);
    lemma_ids_of_suffix(e, u, n, y);
}

/// A segment as far as normalization goes.
spec fn normed(t: TokenizerView, raw: Seq<u8>) -> Seq<u8> {
    if t.nfc {
        nfc_bytes(raw)
    } else {
        raw
    }
}

/// Normalization, if the tokenizer does it, divides where the text does: the
/// text is UTF-8.
pub open spec fn divides_under(t: TokenizerView, s: Seq<u8>) -> bool {
    t.nfc ==> nfc_divides() && valid_utf8(s)
}

/// From `p` on, the text gives what its end from `p` on gives.
pub proof fn lemma_encode_shift(t: TokenizerView, s: Seq<u8>, p: int, pos: int)
    requires
        0 <= p <= pos <= s.len(),
        all_nonempty(t.added),
    ensures
        encode_from(t, s, pos) == encode_from(t, s.skip(p), pos - p),
    decreases s.len() - pos,
{
    let u = s.skip(p);
    if pos < s.len() {
        lemma_match_skip(t.added, s, p, pos, pos);
        match longest_match(patterns(t.added), s, pos) {
            None => {
                assert(s.skip(pos) =~= u.skip(pos - p));
            },
            Some((start, k)) => {
                lemma_match_is(t.added, s, pos);
                let tok = t.added[k];
                let end = start + tok.content.len();
                let b = segment_end(tok, s, pos, start);
                let next = after_added(tok, s, start);
                assert(s.subrange(pos, start) =~= u.subrange(pos - p, start - p));
                assert(s.skip(end) =~= u.skip(end - p));
                lemma_spaces_start_in(s.subrange(pos, start), start - pos);
                lemma_spaces_end_in(s.skip(end), 0);
                assert(segment_end(tok, u, pos - p, start - p) == b - p);
                assert(after_added(tok, u, start - p) == next - p);
                assert(s.subrange(pos, b) =~= u.subrange(pos - p, b - p));
                lemma_encode_shift(t, s, p, next);
            },
        }
    }
}

/// White space before `end` does not reach back over a letter or digit.
proof fn lemma_spaces_stop(s: Seq<u8>, x: int, end: int)
    requires
        0 < x <= end <= s.len(),
        ascii_alnum(s[x - 1]),
    ensures
        spaces_start(s, end) == x + spaces_start(s.skip(x), end - x),
    decreases end,
{
    let t = s.skip(x);
    assert(forall|i: int| 0 <= i < t.len() ==> #[trigger] t[i] == s[x + i]);
    if x < end {
        let w = space_width_before(s, end);
        assert(space_width(s, end - 1) == space_width(t, end - x - 1));
        assert(end - 2 >= x ==> space_width(s, end - 2) == space_width(t, end - x - 2));
        assert(end - 3 >= x ==> space_width(s, end - 3) == space_width(t, end - x - 3));
        assert(end - 2 < x ==> space_width(s, end - 2) != 2);
        assert(end - 3 < x ==> space_width(s, end - 3) != 3);
        assert(space_width_before(t, end - x) == w);
        if w > 0 {
            lemma_spaces_stop(s, x, end - w);
        }
    } else {
        assert(space_width(s, end - 1) == 0);
        assert(space_width(s, end - 2) != 2);
        assert(space_width(s, end - 3) != 3);
    }
}

/// White space that starts before a letter or digit ends before it.
proof fn lemma_spaces_end_before(s: Seq<u8>, q: int, x: int)
    requires
        0 <= q <= x < s.len(),
        ascii_alnum(s[x]),
    ensures
        spaces_end(s, q) <= x,
    decreases s.len() - q,
{
    if space_width(s, q) > 0 {
        assert(q + space_width(s, q) <= x);
        lemma_spaces_end_before(s, q + space_width(s, q), x);
    }
}

/// Behind an added token that ends with a character, a character starts. Before
/// one that is text, a character ends.
proof fn lemma_segment_whole(t: TokenizerView, s: Seq<u8>, pos: int, start: int, k: int)
    requires
        whole_chars(s),
        0 <= pos <= start,
        boundary(s, pos),
        0 <= k < t.added.len(),
        occurs_at(s, t.added[k].content, start),
        t.added[k].content.len() > 0,
        boundary(s, start + t.added[k].content.len()),
    ensures
        pos <= segment_end(t.added[k], s, pos, start) <= start,
        valid_utf8(t.added[k].content) ==> boundary(s, segment_end(t.added[k], s, pos, start)),
        boundary(s, after_added(t.added[k], s, start)),
        after_added(t.added[k], s, start) <= s.len(),
        after_added(t.added[k], s, start) >= start + t.added[k].content.len(),
{
    let tok = t.added[k];
    let c = tok.content;
    let end = start + c.len();
    let h = s.subrange(pos, start);
    lemma_spaces_start_in(h, start - pos);
    let b = segment_end(tok, s, pos, start);
    if valid_utf8(c) {
        law_utf8_is_whole(c);
        assert(s.subrange(start, end)[0] == s[start]);
        assert(boundary(s, start));
        if tok.lstrip {
            lemma_start_boundary(h, start - pos);
            if b < start {
                assert(h[b - pos] == s[b]);
            }
        }
    }
    lemma_spaces_end_in(s.skip(end), 0);
    lemma_whole_parts(s, end);
    lemma_spaces_boundary(s.skip(end), 0);
    let next = after_added(tok, s, start);
    if tok.rstrip && next < s.len() {
        assert(s.skip(end)[next - end] == s[next]);
    }
}

/// Added tokens that are text end with a character wherever they stand in whole
/// text.
pub proof fn law_text_ends_whole(t: TokenizerView, s: Seq<u8>)
    requires
        added_are_text(t),
        all_nonempty(t.added),
        whole_chars(s),
    ensures
        ends_whole(t.added, s),
{
    assert forall|k: int, i: int|
        0 <= k < t.added.len() && #[trigger] occurs_at(s, t.added[k].content, i) implies boundary(
        s,
        i + t.added[k].content.len(),
    ) by {
        let c = t.added[k].content;
        assert(valid_utf8(t.added[k].content));
        law_utf8_is_whole(c);
        lemma_end_boundary(s, c, i);
    }
}

/// Added tokens that end with a character do so in a part of the text.
pub proof fn lemma_ends_whole_part(added: Seq<AddedToken>, s: Seq<u8>, a: int, b: int)
    requires
        ends_whole(added, s),
        0 <= a <= b <= s.len(),
    ensures
        ends_whole(added, s.subrange(a, b)),
{
    let u = s.subrange(a, b);
    assert forall|k: int, i: int|
        0 <= k < added.len() && #[trigger] occurs_at(u, added[k].content, i) implies boundary(
        u,
        i + added[k].content.len(),
    ) by {
        let c = added[k].content;
        assert(u.subrange(i, i + c.len()) =~= s.subrange(a + i, a + i + c.len()));
        assert(occurs_at(s, added[k].content, a + i));
        if i + c.len() < u.len() {
            assert(u[i + c.len()] == s[a + i + c.len()]);
        }
    }
}

/// A text ends where a character ends.
proof fn lemma_end_boundary(s: Seq<u8>, c: Seq<u8>, start: int)
    requires
        whole_chars(s),
        whole_chars(c),
        c.len() > 0,
        occurs_at(s, c, start),
    ensures
        boundary(s, start + c.len()),
{
    let end = start + c.len();
    if end < s.len() && continuation(s[end]) {
        let j = lemma_last_lead(c, c.len() - 1);
        assert(forall|i: int| 0 <= i < c.len() ==> #[trigger] c[i] == s.subrange(start, end)[i]);
        assert(s[start + j] == c[j]);
        assert(whole_char(c, j));
        assert(whole_char(s, start + j));
        if j + 1 < c.len() {
            assert(continuation(c[j + 1]));
        }
    }
}

/// The last character of whole text.
proof fn lemma_last_lead(c: Seq<u8>, i: int) -> (j: int)
    requires
        whole_chars(c),
        0 <= i < c.len(),
        forall|x: int| i < x < c.len() ==> continuation(#[trigger] c[x]),
    ensures
        0 <= j <= i,
        !continuation(c[j]),
        forall|x: int| j < x < c.len() ==> continuation(#[trigger] c[x]),
    decreases i,
{
    if continuation(c[i]) {
        assert(i > 0);
        lemma_last_lead(c, i - 1)
    } else {
        i
    }
}

proof fn lemma_start_boundary(h: Seq<u8>, end: int)
    requires
        0 <= end <= h.len(),
        boundary(h, end),
    ensures
        boundary(h, spaces_start(h, end)),
        0 <= spaces_start(h, end) <= end,
    decreases end,
{
    lemma_spaces_start_in(h, end);
    if 0 < end && space_width_before(h, end) > 0 {
        lemma_start_boundary(h, end - space_width_before(h, end));
    }
}

proof fn lemma_spaces_boundary(s: Seq<u8>, p: int)
    requires
        whole_chars(s),
        0 <= p <= s.len(),
        boundary(s, p),
    ensures
        boundary(s, spaces_end(s, p)),
    decreases s.len() - p,
{
    if space_width(s, p) > 0 {
        assert(whole_char(s, p));
        lemma_spaces_boundary(s, p + space_width(s, p));
    }
}

/// A segment that the cut falls into encodes like its two parts.
proof fn lemma_range_divides(t: TokenizerView, s: Seq<u8>, p: int, pos: int, b: int)
    requires
        divides_under(t, s),
        space_break(s, p),
        p + 1 < s.len() ==> s[p + 1] < 0x80,
        0 <= pos < p < b <= s.len(),
        boundary(s, pos),
        t.nfc ==> boundary(s, b),
        whole_chars(s.subrange(pos, p)),
    ensures
        segment_ids(t, s.subrange(pos, b)) == segment_ids(t, s.subrange(pos, p)) + segment_ids(
            t,
            s.skip(p).subrange(0, b - p),
        ),
{
    let raw = s.subrange(pos, b);
    if t.nfc {
        lemma_valid_range(s, pos, b);
    }
    assert(space_break(raw, p - pos));
    assert(raw.take(p - pos) =~= s.subrange(pos, p));
    lemma_segment_divides(t, raw, p - pos);
    assert(raw.skip(p - pos) =~= s.skip(p).subrange(0, b - p));
}

/// A text without an added token from `pos` up to the cut encodes, from `pos`
/// on, like the two parts.
#[verifier::spinoff_prover]
#[verifier::rlimit(60)]
proof fn lemma_divides_gap(t: TokenizerView, s: Seq<u8>, p: int, pos: int)
    requires
        divides_under(t, s),
        whole_chars(s),
        all_nonempty(t.added),
        t.nfc ==> added_are_text(t),
        ends_whole(t.added, s),
        space_break(s, p),
        p + 1 < s.len() ==> s[p + 1] < 0x80,
        unstraddled(t.added, s, p),
        0 <= pos < p,
        boundary(s, pos),
        longest_match(patterns(t.added), s, pos) matches Some(f) ==> f.0 >= p,
        forall|k: int, i: int|
            0 <= k < t.added.len() && pos <= i < p ==> !#[trigger] occurs_at(
                s,
                t.added[k].content,
                i,
            ),
    ensures
        encode_from(t, s, pos) == encode_from(t, s.take(p), pos) + encode_from(t, s.skip(p), 0),
{
    let h = s.take(p);
    let u = s.skip(p);
    let none = Seq::<u32>::empty();
    let found = longest_match(patterns(t.added), s, pos);
    lemma_match_take(t.added, s, p, pos);
    lemma_match_skip(t.added, s, p, pos, p);
    assert(h.skip(pos) =~= s.subrange(pos, p));
    lemma_whole_parts(s, p);
    if pos < p {
        assert(h[pos] == s[pos]);
    }
    lemma_whole_parts(h, pos);
    match found {
        None => {
            let raw = s.skip(pos);
            assert(s.subrange(pos, s.len() as int) =~= raw);
            lemma_range_divides(t, s, p, pos, s.len() as int);
            assert(u.subrange(0, s.len() - p) =~= u);
            assert(u.skip(0) =~= u);
        },
        Some((start, k)) => {
            lemma_match_is(t.added, s, pos);
            let tok = t.added[k];
            let end = start + tok.content.len();
            assert(boundary(s, start + t.added[k].content.len()));
            lemma_segment_whole(t, s, pos, start, k);
            let b = segment_end(tok, s, pos, start);
            let next = after_added(tok, s, start);
            let c = s.subrange(pos, start);
            assert(c.skip(p - pos) =~= u.subrange(0, start - p));
            if tok.lstrip {
                assert(c[p - pos - 1] == s[p - 1]);
                lemma_spaces_stop(c, p - pos, start - pos);
            }
            lemma_spaces_start_in(u.subrange(0, start - p), start - p);
            assert(segment_end(tok, u, 0, start - p) == b - p);
            assert(u.skip(end - p) =~= s.skip(end));
            assert(after_added(tok, u, start - p) == next - p);
            let raw = s.subrange(pos, b);
            if b > p {
                lemma_range_divides(t, s, p, pos, b);
            } else {
                assert(u.subrange(0, b - p) =~= Seq::<u8>::empty());
                assert(segment_ids(t, Seq::<u8>::empty()) =~= none);
                assert(segment_ids(t, raw) + none =~= segment_ids(t, raw));
            }
            lemma_encode_shift(t, s, p, next);
            let x = segment_ids(t, s.subrange(pos, p));
            let y = segment_ids(t, u.subrange(0, b - p));
            let z = encode_from(t, s, next);
            assert((x + y) + seq![tok.id.0] + z =~= x + (y + seq![tok.id.0] + z));
        },
    }
}

/// A text that is cut where it can be cut encodes like the two parts, from any
/// point before the cut on.
#[verifier::spinoff_prover]
#[verifier::rlimit(60)]
proof fn lemma_encode_divides(
    t: TokenizerView,
    s: Seq<u8>,
    p: int,
    tokens: Seq<SplitBlocker>,
    pos: int,
)
    requires
        divides_under(t, s),
        whole_chars(s),
        all_nonempty(t.added),
        t.nfc ==> added_are_text(t),
        ends_whole(t.added, s),
        blockers_of(tokens, t.added),
        can_cut(s, p, tokens),
        0 <= pos <= p,
        boundary(s, pos),
    ensures
        encode_from(t, s, pos) == encode_from(t, s.take(p), pos) + encode_from(t, s.skip(p), 0),
    decreases p - pos,
{
    let h = s.take(p);
    let u = s.skip(p);
    let tail = encode_from(t, u, 0);
    let none = Seq::<u32>::empty();
    assert(unstraddled(t.added, s, p)) by {
        assert forall|k: int, i: int|
            0 <= k < t.added.len() && i < p && #[trigger] occurs_at(
                s,
                t.added[k].content,
                i,
            ) implies i + t.added[k].content.len() <= p by {
            assert(!blocks(s, tokens[k], p));
            assert(occurs_at(s, tokens[k].0@, i));
        }
    }
    if pos == p {
        lemma_encode_shift(t, s, p, p);
        assert(encode_from(t, h, p) =~= none);
        assert(none + tail =~= tail);
    } else {
        let found = longest_match(patterns(t.added), s, pos);
        lemma_match_take(t.added, s, p, pos);
        if found is Some && (found->0).0 < p {
            let (start, k) = found->0;
            lemma_match_is(t.added, s, pos);
            let tok = t.added[k];
            let end = start + tok.content.len();
            assert(boundary(s, start + t.added[k].content.len()));
            lemma_segment_whole(t, s, pos, start, k);
            let b = segment_end(tok, s, pos, start);
            let next = after_added(tok, s, start);
            assert(end <= p);
            if tok.rstrip {
                assert(!blocks(s, tokens[k], p));
                assert(end < p);
                lemma_spaces_end_before(s.skip(end), 0, p - 1 - end);
                lemma_spaces_end_take(s.skip(end), p - end, 0);
                assert(s.skip(end).take(p - end) =~= h.skip(end));
            }
            assert(after_added(tok, h, start) == next);
            assert(next <= p);
            assert(h.subrange(pos, start) =~= s.subrange(pos, start));
            assert(h.subrange(pos, b) =~= s.subrange(pos, b));
            lemma_encode_divides(t, s, p, tokens, next);
            let x = segment_ids(t, s.subrange(pos, b)) + seq![tok.id.0];
            let y = encode_from(t, h, next);
            assert(x + (y + tail) =~= (x + y) + tail);
        } else {
            assert forall|k: int, i: int|
                0 <= k < t.added.len() && pos <= i < p implies !#[trigger] occurs_at(
                s,
                t.added[k].content,
                i,
            ) by {
                if occurs_at(s, t.added[k].content, i) {
                    assert(patterns(t.added)[k] == t.added[k].content);
                    if found is None {
                        lemma_match_exists(patterns(t.added), s, pos, i, k);
                    } else {
                        lemma_match_is(t.added, s, pos);
                        assert(!occurs_at(s, patterns(t.added)[k], i));
                    }
                }
            }
            lemma_divides_gap(t, s, p, pos);
        }
    }
}

/// A text that is cut where it can be cut encodes like the two parts, if added
/// tokens end with characters of it; if the tokenizer normalizes, text and
/// tokens are UTF-8.
pub proof fn law_cut_divides(t: TokenizerView, s: Seq<u8>, p: int, tokens: Seq<SplitBlocker>)
    requires
        divides_under(t, s),
        whole_chars(s),
        all_nonempty(t.added),
        t.nfc ==> added_are_text(t),
        ends_whole(t.added, s),
        blockers_of(tokens, t.added),
        can_cut(s, p, tokens),
    ensures
        encoded(t, s) == encoded(t, s.take(p)) + encoded(t, s.skip(p)),
{
    assert(boundary(s, 0));
    lemma_encode_divides(t, s, p, tokens, 0);
}

/// The tokens of ranges of a text, one range after the other.
pub open spec fn ranges_ids(t: TokenizerView, s: Seq<u8>, v: Seq<(int, int)>) -> Seq<u32>
    decreases v.len(),
{
    if v.len() == 0 {
        Seq::empty()
    } else {
        encoded(t, s.subrange(v[0].0, v[0].1)) + ranges_ids(t, s, v.drop_first())
    }
}

proof fn lemma_cut_skip(s: Seq<u8>, x: int, p: int, tokens: Seq<SplitBlocker>)
    requires
        0 <= x < p,
        can_cut(s, p, tokens),
    ensures
        can_cut(s.skip(x), p - x, tokens),
{
    let u = s.skip(x);
    assert forall|k: int| 0 <= k < tokens.len() implies !#[trigger] blocks(u, tokens[k], p - x) by {
        assert(!blocks(s, tokens[k], p));
        let c = tokens[k].0@;
        if blocks(u, tokens[k], p - x) {
            if exists|i: int| #[trigger] occurs_at(u, c, i) && i < p - x < i + c.len() {
                let i = choose|i: int| #[trigger] occurs_at(u, c, i) && i < p - x < i + c.len();
                assert(u.subrange(i, i + c.len()) =~= s.subrange(i + x, i + x + c.len()));
                assert(occurs_at(s, c, i + x));
            } else {
                let i = p - x - c.len();
                assert(u.subrange(i, i + c.len()) =~= s.subrange(i + x, i + x + c.len()));
                assert(occurs_at(s, c, p - c.len()));
            }
        }
    }
}

proof fn lemma_ranges_from(
    t: TokenizerView,
    s: Seq<u8>,
    start: int,
    target: int,
    tokens: Seq<SplitBlocker>,
)
    requires
        divides_under(t, s),
        whole_chars(s),
        all_nonempty(t.added),
        t.nfc ==> added_are_text(t),
        ends_whole(t.added, s),
        blockers_of(tokens, t.added),
        0 <= start < s.len(),
        boundary(s, start),
        target > 0,
    ensures
        ranges_ids(t, s, split_from(s, start, target, tokens)) == encoded(t, s.skip(start)),
    decreases s.len() - start,
{
    lemma_next_cut(s, start + target, tokens);
    let v = split_from(s, start, target, tokens);
    let u = s.skip(start);
    if let Some(p) = next_cut(s, start + target, tokens) {
        assert(v.drop_first() =~= split_from(s, p, target, tokens));
        lemma_whole_parts(s, start);
        assert(encoded(t, u) == encoded(t, s.subrange(start, p)) + encoded(t, s.skip(p))) by {
            if start > 0 {
                lemma_cut_skip(s, start, p, tokens);
            } else {
                assert(u =~= s);
            }
            assert(u =~= s.subrange(start, s.len() as int));
            if t.nfc {
                lemma_valid_range(s, start, s.len() as int);
            }
            lemma_ends_whole_part(t.added, s, start, s.len() as int);
            law_cut_divides(t, u, p - start, tokens);
            assert(u.take(p - start) =~= s.subrange(start, p));
            assert(u.skip(p - start) =~= s.skip(p));
        }
        lemma_ranges_from(t, s, p, target, tokens);
    } else {
        let none = Seq::<u32>::empty();
        assert(v.drop_first() =~= Seq::<(int, int)>::empty());
        assert(s.subrange(start, s.len() as int) =~= u);
        assert(ranges_ids(t, s, v.drop_first()) =~= none);
        assert(encoded(t, u) + none =~= encoded(t, u));
    }
}

/// Encoding the ranges of a text one by one gives what encoding the text
/// gives, if added tokens end with characters of it; if the tokenizer
/// normalizes, text and tokens are UTF-8.
pub proof fn law_ranges_encode_whole(
    t: TokenizerView,
    s: Seq<u8>,
    target: int,
    tokens: Seq<SplitBlocker>,
)
    requires
        divides_under(t, s),
        whole_chars(s),
        all_nonempty(t.added),
        t.nfc ==> added_are_text(t),
        ends_whole(t.added, s),
        blockers_of(tokens, t.added),
    ensures
        ranges_ids(t, s, split_ranges(s, target, tokens)) == encoded(t, s),
{
    if s.len() > 0 {
        lemma_ranges_from(
            t,
            s,
            0,
            if target > 0 {
                target
            } else {
                1
            },
            tokens,
        );
        assert(s.skip(0) =~= s);
    } else {
        let v = seq![(0int, 0int)];
        let none = Seq::<u32>::empty();
        assert(v.drop_first() =~= Seq::<(int, int)>::empty());
        assert(s.subrange(0, 0) =~= s);
        assert(ranges_ids(t, s, v.drop_first()) =~= none);
        assert(encoded(t, s) + none =~= encoded(t, s));
    }
}

} // verus!
