//! Where a text divides into units that encode on their own.
use crate::bpe::bytes::contents;
use crate::bpe::rules::{bpe_merge, has_prefix, has_suffix};
use crate::search::{copy_bytes, ends_with, stands_at};
use crate::sp::symbols::{init_from, SpView};
use crate::text::utf8_text;
use crate::token::TokenId;
use vstd::prelude::*;
use vstd::utf8::valid_utf8;

verus! {

/// The length of the word mark at `p`, or 0: the marker, and in raw text a
/// space too.
pub open spec fn mark_len(s: Seq<u8>, p: int, raw: bool) -> int {
    if 0 <= p < s.len() && raw && s[p] == 0x20 {
        1
    } else if 0 <= p && p + 3 <= s.len() && s[p] == 0xE2 && s[p + 1] == 0x96 && s[p + 2] == 0x81 {
        3
    } else {
        0
    }
}

/// A word mark ends at `p`.
pub open spec fn mark_ends(s: Seq<u8>, p: int, raw: bool) -> bool {
    ||| raw && 1 <= p <= s.len() && s[p - 1] == 0x20
    ||| 3 <= p <= s.len() && s[p - 3] == 0xE2 && s[p - 2] == 0x96 && s[p - 1] == 0x81
}

/// The width of the word mark at `pos`.
pub fn mark_width(bytes: &[u8], pos: usize, raw: bool) -> (r: Option<usize>)
    requires
        pos < bytes@.len(),
    ensures
        r == (if mark_len(bytes@, pos as int, raw) > 0 {
            Some(mark_len(bytes@, pos as int, raw) as usize)
        } else {
            None
        }),
{
    if raw && bytes[pos] == 0x20 {
        Some(1)
    } else if bytes.len() - pos >= 3 && bytes[pos] == 0xE2 && bytes[pos + 1] == 0x96 && bytes[pos + 2]
        == 0x81 {
        Some(3)
    } else {
        None
    }
}

/// Whether a word mark ends at `pos`.
pub fn mark_before(bytes: &[u8], pos: usize, raw: bool) -> (r: bool)
    requires
        pos <= bytes@.len(),
    ensures
        r == mark_ends(bytes@, pos as int, raw),
{
    (raw && pos >= 1 && bytes[pos - 1] == 0x20) || (pos >= 3 && bytes[pos - 3] == 0xE2 && bytes[pos
        - 2] == 0x96 && bytes[pos - 1] == 0x81)
}

/// Punctuation that units are split before: the most frequent of English text.
pub open spec fn split_byte(b: u8) -> bool {
    b == 0x2E || b == 0x2C || b == 0x22 || b == 0x29 || b == 0x3B || b == 0x3A || b == 0x21 || b
        == 0x3F
}

/// Whether units are split before `b`.
fn is_split_byte(b: u8) -> (r: bool)
    ensures
        r == split_byte(b),
{
    b == 0x2E || b == 0x2C || b == 0x22 || b == 0x29 || b == 0x3B || b == 0x3A || b == 0x21 || b
        == 0x3F
}

/// Some piece has `x` right before `y`.
pub open spec fn adjacent(vocab: Seq<Seq<u8>>, x: u8, y: u8) -> bool {
    exists|i: int, j: int|
        0 <= i < vocab.len() && 0 <= j < vocab[i].len() - 1 && #[trigger] vocab[i][j] == x
            && vocab[i][j + 1] == y
}

/// How units are cut: at every mark or at marks that start a run; the pieces
/// that span a mark, as what stands before and after it; and the vocabulary
/// that decides before which punctuation a cut is safe.
pub struct CutView {
    pub every_mark: bool,
    pub cross: Seq<(Seq<u8>, Seq<u8>)>,
    pub vocab: Seq<Seq<u8>>,
}

/// Some piece that spans a mark stands around the mark of `w` bytes at `p`.
pub open spec fn spans_mark(cross: Seq<(Seq<u8>, Seq<u8>)>, s: Seq<u8>, p: int, w: int) -> bool {
    exists|i: int|
        0 <= i < cross.len() && has_suffix(s.take(p), (#[trigger] cross[i]).0) && has_prefix(
            s.skip(p + w),
            cross[i].1,
        )
}

/// A unit starts at the mark at `p`.
pub open spec fn mark_cut(c: CutView, s: Seq<u8>, p: int, raw: bool) -> bool {
    &&& 0 < p < s.len()
    &&& mark_len(s, p, raw) > 0
    &&& c.every_mark || !mark_ends(s, p, raw)
    &&& !spans_mark(c.cross, s, p, mark_len(s, p, raw))
}

/// The last byte of what stands before `p`; in raw text a space is the marker.
pub open spec fn byte_before(s: Seq<u8>, p: int, raw: bool) -> u8 {
    if raw && s[p - 1] == 0x20 {
        0x81
    } else {
        s[p - 1]
    }
}

/// A unit starts at the punctuation at `p`.
pub open spec fn punct_cut(c: CutView, s: Seq<u8>, p: int, raw: bool) -> bool {
    &&& 0 < p < s.len()
    &&& split_byte(s[p])
    &&& !adjacent(c.vocab, byte_before(s, p, raw), s[p])
}

/// A unit starts at `p`.
pub open spec fn is_cut(c: CutView, s: Seq<u8>, p: int, raw: bool) -> bool {
    mark_cut(c, s, p, raw) || punct_cut(c, s, p, raw)
}

/// The first cut from `p` on, or the end.
pub open spec fn next_cut(c: CutView, s: Seq<u8>, p: int, raw: bool) -> int
    decreases s.len() - p,
{
    if p >= s.len() {
        s.len() as int
    } else if is_cut(c, s, p, raw) {
        p
    } else {
        next_cut(c, s, p + 1, raw)
    }
}

/// The bytes that stand for a unit: with a space before it for a prefixed one.
pub open spec fn unit_key(unit: Seq<u8>, prefixed: bool) -> Seq<u8> {
    if prefixed {
        seq![0x20u8] + unit
    } else {
        unit
    }
}

/// The tokens of one unit.
pub open spec fn unit_tokens(v: SpView, key: Seq<u8>, raw: bool) -> Seq<TokenId> {
    bpe_merge(v.rules, init_from(v, key, 0, raw))
}

/// The tokens of all units from `u` on; the first may be prefixed.
pub open spec fn units_tokens(
    v: SpView,
    c: CutView,
    s: Seq<u8>,
    u: int,
    raw: bool,
    prefixed: bool,
) -> Seq<TokenId>
    decreases s.len() - u,
    via units_tokens_decreases
{
    if 0 <= u < s.len() {
        let e = next_cut(c, s, u + 1, raw);
        unit_tokens(v, unit_key(s.subrange(u, e), prefixed), raw) + units_tokens(
            v,
            c,
            s,
            e,
            raw,
            false,
        )
    } else {
        Seq::empty()
    }
}

#[via_fn]
proof fn units_tokens_decreases(
    v: SpView,
    c: CutView,
    s: Seq<u8>,
    u: int,
    raw: bool,
    prefixed: bool,
) {
    if 0 <= u < s.len() {
        lemma_next_cut(c, s, u + 1, raw);
    }
}

/// The keys of all units from `u` on; the first may be prefixed.
pub open spec fn units_keys(c: CutView, s: Seq<u8>, u: int, raw: bool, prefixed: bool) -> Seq<
    Seq<u8>,
>
    decreases s.len() - u,
    via units_keys_decreases
{
    if 0 <= u < s.len() {
        let e = next_cut(c, s, u + 1, raw);
        seq![unit_key(s.subrange(u, e), prefixed)] + units_keys(c, s, e, raw, false)
    } else {
        Seq::empty()
    }
}

#[via_fn]
proof fn units_keys_decreases(
    c: CutView,
    s: Seq<u8>,
    u: int,
    raw: bool,
    prefixed: bool,
) {
    if 0 <= u < s.len() {
        lemma_next_cut(c, s, u + 1, raw);
    }
}

/// The next cut lies ahead and is a cut or the end.
pub proof fn lemma_next_cut(c: CutView, s: Seq<u8>, p: int, raw: bool)
    requires
        p <= s.len(),
    ensures
        p <= next_cut(c, s, p, raw) <= s.len(),
        next_cut(c, s, p, raw) < s.len() ==> is_cut(c, s, next_cut(c, s, p, raw), raw),
        forall|q: int| p <= q < next_cut(c, s, p, raw) ==> !#[trigger] is_cut(c, s, q, raw),
    decreases s.len() - p,
{
    if p < s.len() && !is_cut(c, s, p, raw) {
        lemma_next_cut(c, s, p + 1, raw);
    }
}

/// The marker stands somewhere in `s`.
pub open spec fn has_mark(s: Seq<u8>) -> bool {
    exists|p: int| #[trigger] mark_len(s, p, false) > 0
}

/// The marker stands at `p`, and neither at the start nor after a marker.
pub open spec fn interior_mark(s: Seq<u8>, p: int) -> bool {
    0 < p && mark_len(s, p, false) > 0 && !mark_ends(s, p, false)
}

/// The first such position from `p` on.
pub open spec fn first_interior(s: Seq<u8>, p: int) -> Option<int>
    decreases s.len() - p,
{
    if p >= s.len() {
        None
    } else if interior_mark(s, p) {
        Some(p)
    } else {
        first_interior(s, p + 1)
    }
}

/// The part of a piece before or after a mark is too complex to be checked for
/// at a cut.
pub open spec fn is_complex(s: Seq<u8>) -> bool {
    has_mark(s) || s.contains(0x20)
}

/// The most pieces that are checked for at each cut.
pub const MAX_CROSS_PIECES: usize = 32;

/// The pieces that span a mark, as what stands before and after it. `None`
/// when one of them is too complex or there are too many.
pub open spec fn crossing_pieces(vocab: Seq<Seq<u8>>) -> Option<Seq<(Seq<u8>, Seq<u8>)>>
    decreases vocab.len(),
{
    if vocab.len() == 0 {
        Some(Seq::empty())
    } else {
        match crossing_pieces(vocab.drop_last()) {
            None => None,
            Some(head) => {
                let piece = vocab.last();
                match (if valid_utf8(piece) {
                    first_interior(piece, 0)
                } else {
                    None
                }) {
                    None => Some(head),
                    Some(p) => if is_complex(piece.take(p)) || is_complex(piece.skip(p + 3))
                        || head.len() >= MAX_CROSS_PIECES {
                        None
                    } else {
                        Some(head.push((piece.take(p), piece.skip(p + 3))))
                    },
                }
            },
        }
    }
}

/// Whether the marker or a space stands in `bytes`.
fn complex_part(bytes: &[u8]) -> (r: bool)
    ensures
        r == is_complex(bytes@),
{
    let mut i: usize = 0;
    while i < bytes.len()
        invariant
            i <= bytes@.len(),
            forall|p: int| p < i ==> #[trigger] mark_len(bytes@, p, false) == 0,
            forall|p: int| 0 <= p < i ==> #[trigger] bytes@[p] != 0x20,
        decreases bytes@.len() - i,
    {
        if bytes[i] == 0x20 {
            assert(bytes@.contains(bytes@[i as int]));
            return true;
        }
        if mark_width(bytes, i, false).is_some() {
            assert(mark_len(bytes@, i as int, false) > 0);
            return true;
        }
        i += 1;
    }
    proof {
        assert forall|p: int| #[trigger] mark_len(bytes@, p, false) == 0 by {
            if p >= i {
            }
        }
    }
    false
}

/// How units are cut.
pub struct CutRules {
    pub every_mark: bool,
    pub cross: Vec<(Vec<u8>, Vec<u8>)>,
    /// For each byte, whether a piece before a mark ends with it.
    cross_prev: Vec<bool>,
    /// For each pair of bytes, whether some piece has one right before the
    /// other.
    near: Vec<bool>,
    vocab: Ghost<Seq<Seq<u8>>>,
}

/// The values of a list of pairs.
pub open spec fn pair_views(v: Seq<(Vec<u8>, Vec<u8>)>) -> Seq<(Seq<u8>, Seq<u8>)> {
    v.map_values(|t: (Vec<u8>, Vec<u8>)| (t.0@, t.1@))
}

impl CutRules {
    /// What the rules are.
    pub closed spec fn view(&self) -> CutView {
        CutView { every_mark: self.every_mark, cross: pair_views(self.cross@), vocab: self.vocab@ }
    }

    /// The tables agree with the vocabulary.
    pub closed spec fn wf(&self) -> bool {
        &&& self.cross_prev@.len() == 256
        &&& forall|i: int|
            0 <= i < self.cross@.len() ==> (#[trigger] self.cross@[i]).0@.len() > 0
                && self.cross_prev@[self.cross@[i].0@.last() as int]
        &&& self.near@.len() == 65536
        &&& forall|x: u8, y: u8| #[trigger]
            adjacent(self.vocab@, x, y) == self.near@[x * 256 + y]
    }

    /// The rules for a vocabulary: cuts at every mark, or at marks that start
    /// a run. `None` when a piece that spans a mark is too complex.
    pub fn new(vocab: &Vec<Vec<u8>>, every_mark: bool) -> (r: Option<Self>)
        ensures
            r is None <==> !every_mark && crossing_pieces(contents(vocab@)) is None,
            r matches Some(c) ==> c.wf() && c@ == (CutView {
                every_mark,
                cross: if every_mark {
                    Seq::empty()
                } else {
                    crossing_pieces(contents(vocab@))->0
                },
                vocab: contents(vocab@),
            }),
    {
        let ghost all = contents(vocab@);
        let cross: Vec<(Vec<u8>, Vec<u8>)> = if every_mark {
            Vec::new()
        } else {
            match unit_crossing_pieces(vocab) {
                None => {
                    return None;
                },
                Some(c) => c,
            }
        };
        let mut cross_prev: Vec<bool> = vec![false; 256];
        let mut i: usize = 0;
        while i < cross.len()
            invariant
                i <= cross@.len(),
                cross_prev@.len() == 256,
                forall|j: int| 0 <= j < cross@.len() ==> (#[trigger] cross@[j]).0@.len() > 0,
                forall|j: int|
                    0 <= j < i ==> cross_prev@[(#[trigger] cross@[j]).0@.last() as int],
            decreases cross@.len() - i,
        {
            let n: usize = cross[i].0.len();
            let b: u8 = cross[i].0[n - 1];
            cross_prev[b as usize] = true;
            i += 1;
        }
        let near = adjacent_pairs(vocab);
        proof {
            if every_mark {
                assert(pair_views(cross@) =~= Seq::<(Seq<u8>, Seq<u8>)>::empty());
            }
        }
        Some(CutRules { every_mark, cross, cross_prev, near, vocab: Ghost(all) })
    }

    /// Whether a piece that spans a mark stands around the mark of `width`
    /// bytes at `pos`.
    pub fn piece_spans_boundary(&self, bytes: &[u8], pos: usize, width: usize) -> (r: bool)
        requires
            self.wf(),
            0 < pos,
            pos + width <= bytes@.len(),
        ensures
            r == spans_mark(self@.cross, bytes@, pos as int, width as int),
    {
        let prev: u8 = bytes[pos - 1];
        let ghost cross = self@.cross;
        let ghost before = bytes@.take(pos as int);
        let ghost after = bytes@.skip(pos + width);
        if !self.cross_prev[prev as usize] {
            proof {
                assert forall|i: int| 0 <= i < cross.len() implies !has_suffix(
                    before,
                    (#[trigger] cross[i]).0,
                ) by {
                    let pre = self.cross@[i].0@;
                    assert(cross[i].0 == pre);
                    assert(self.cross_prev@[pre.last() as int]);
                    if has_suffix(before, pre) {
                        assert(before.skip(before.len() - pre.len()).last() == prev);
                    }
                }
            }
            return false;
        }
        let head = vstd::slice::slice_subrange(bytes, 0, pos);
        proof {
            assert(head@ =~= before);
        }
        let total: usize = bytes.len();
        let next: usize = pos + width;
        let mut i: usize = 0;
        while i < self.cross.len()
            invariant
                i <= self.cross@.len(),
                0 < pos,
                next == pos + width <= bytes@.len(),
                head@ == before,
                before == bytes@.take(pos as int),
                after == bytes@.skip(pos + width),
                cross == pair_views(self.cross@),
                cross == self@.cross,
                forall|j: int|
                    0 <= j < i ==> !(has_suffix(before, (#[trigger] cross[j]).0) && has_prefix(
                        after,
                        cross[j].1,
                    )),
            decreases self.cross@.len() - i,
        {
            let a = ends_with(head, self.cross[i].0.as_slice());
            let b = stands_at(bytes, self.cross[i].1.as_slice(), next);
            proof {
                let post = self.cross@[i as int].1@;
                assert(cross[i as int] == (self.cross@[i as int].0@, post));
                assert(b == has_prefix(after, post)) by {
                    if pos + width + post.len() <= bytes@.len() {
                        assert(bytes@.subrange(pos + width, pos + width + post.len()) =~= after.take(
                            post.len() as int,
                        ));
                    }
                }
            }
            if a && b {
                return true;
            }
            i += 1;
        }
        false
    }

    /// Whether a unit starts at the mark at `p`.
    pub fn cut_at_mark(&self, bytes: &[u8], p: usize, raw: bool) -> (r: bool)
        requires
            self.wf(),
            0 < p < bytes@.len(),
        ensures
            r == mark_cut(self@, bytes@, p as int, raw),
    {
        match mark_width(bytes, p, raw) {
            None => false,
            Some(width) => (self.every_mark || !mark_before(bytes, p, raw))
                && !self.piece_spans_boundary(bytes, p, width),
        }
    }

    /// Whether a unit starts at `p`.
    pub fn cut_at(&self, bytes: &[u8], p: usize, raw: bool) -> (r: bool)
        requires
            self.wf(),
            0 < p < bytes@.len(),
        ensures
            r == is_cut(self@, bytes@, p as int, raw),
    {
        let b: u8 = bytes[p];
        if is_split_byte(b) {
            let before: u8 = bytes[p - 1];
            let prev: u8 = if raw && before == 0x20 {
                0x81
            } else {
                before
            };
            proof {
                assert(mark_len(bytes@, p as int, raw) == 0);
                assert(adjacent(self.vocab@, prev, b) == self.near@[prev * 256 + b]);
            }
            !self.near[prev as usize * 256 + b as usize]
        } else {
            self.cut_at_mark(bytes, p, raw)
        }
    }

    /// The first cut from `p` on, or the end.
    pub fn find_cut(&self, bytes: &[u8], p: usize, raw: bool) -> (e: usize)
        requires
            self.wf(),
            0 < p <= bytes@.len(),
        ensures
            e == next_cut(self@, bytes@, p as int, raw),
            p <= e <= bytes@.len(),
    {
        let mut q: usize = p;
        while q < bytes.len()
            invariant
                self.wf(),
                0 < p <= q <= bytes@.len(),
                next_cut(self@, bytes@, q as int, raw) == next_cut(self@, bytes@, p as int, raw),
            decreases bytes@.len() - q,
        {
            if self.cut_at(bytes, q, raw) {
                return q;
            }
            q += 1;
        }
        q
    }
}

/// The pieces that span a mark, as what stands before and after it; `None`
/// when one of them is too complex or there are too many.
fn unit_crossing_pieces(vocab: &Vec<Vec<u8>>) -> (r: Option<Vec<(Vec<u8>, Vec<u8>)>>)
    ensures
        match r {
            Some(c) => crossing_pieces(contents(vocab@)) == Some(pair_views(c@)) && forall|j: int|
                0 <= j < c@.len() ==> (#[trigger] c@[j]).0@.len() > 0,
            None => crossing_pieces(contents(vocab@)) is None,
        },
{
    let ghost all = contents(vocab@);
    let mut out: Vec<(Vec<u8>, Vec<u8>)> = Vec::new();
    let mut i: usize = 0;
    proof {
        assert(all.take(0) =~= Seq::<Seq<u8>>::empty());
        assert(pair_views(out@) =~= Seq::<(Seq<u8>, Seq<u8>)>::empty());
    }
    while i < vocab.len()
        invariant
            i <= vocab@.len(),
            all == contents(vocab@),
            crossing_pieces(all.take(i as int)) == Some(pair_views(out@)),
            forall|j: int| 0 <= j < out@.len() ==> (#[trigger] out@[j]).0@.len() > 0,
        decreases vocab@.len() - i,
    {
        let piece = vocab[i].as_slice();
        proof {
            assert(all.take(i + 1).drop_last() =~= all.take(i as int));
            assert(all.take(i + 1).last() == piece@);
        }
        if utf8_text(piece).is_some() {
            let mut p: usize = 0;
            while p < piece.len() && !(p > 0 && mark_width(piece, p, false).is_some() && !mark_before(
                piece,
                p,
                false,
            ))
                invariant
                    p <= piece@.len(),
                    first_interior(piece@, p as int) == first_interior(piece@, 0),
                decreases piece@.len() - p,
            {
                p += 1;
            }
            if p < piece.len() {
                let pre = vstd::slice::slice_subrange(piece, 0, p);
                let post = vstd::slice::slice_subrange(piece, p + 3, piece.len());
                proof {
                    assert(pre@ =~= piece@.take(p as int));
                    assert(post@ =~= piece@.skip(p + 3));
                }
                if complex_part(pre) || complex_part(post) || out.len() >= MAX_CROSS_PIECES {
                    proof {
                        assert(crossing_pieces(all.take(i + 1)) is None);
                        lemma_crossing_fails(all, i + 1);
                    }
                    return None;
                }
                let ghost before = out@;
                out.push((copy_bytes(pre), copy_bytes(post)));
                proof {
                    assert(pair_views(out@) =~= pair_views(before).push((pre@, post@)));
                }
            }
        }
        i += 1;
    }
    proof {
        assert(all.take(i as int) =~= all);
    }
    Some(out)
}

proof fn lemma_crossing_fails(vocab: Seq<Seq<u8>>, n: int)
    requires
        0 <= n <= vocab.len(),
        crossing_pieces(vocab.take(n)) is None,
    ensures
        crossing_pieces(vocab) is None,
    decreases vocab.len() - n,
{
    if n == vocab.len() {
        assert(vocab.take(n) =~= vocab);
    } else {
        assert(vocab.take(n + 1).drop_last() =~= vocab.take(n));
        lemma_crossing_fails(vocab, n + 1);
    }
}

/// For each pair of bytes, whether some piece has one right before the other.
fn adjacent_pairs(vocab: &Vec<Vec<u8>>) -> (near: Vec<bool>)
    ensures
        near@.len() == 65536,
        forall|x: u8, y: u8| #[trigger]
            adjacent(contents(vocab@), x, y) == near@[x * 256 + y],
{
    let ghost all = contents(vocab@);
    let mut near: Vec<bool> = vec![false; 65536];
    let mut i: usize = 0;
    while i < vocab.len()
        invariant
            i <= vocab@.len(),
            all == contents(vocab@),
            near@.len() == 65536,
            forall|x: u8, y: u8| #[trigger]
                adjacent(all.take(i as int), x, y) == near@[x * 256 + y],
        decreases vocab@.len() - i,
    {
        let piece = vocab[i].as_slice();
        let ghost near0 = near@;
        let mut j: usize = 0;
        while piece.len() - j >= 2
            invariant
                j <= piece@.len(),
                near@.len() == 65536,
                forall|x: u8, y: u8|
                    (#[trigger] near@[x * 256 + y]) == (near0[x * 256 + y] || exists|k: int|
                        0 <= k < j && k < piece@.len() - 1 && #[trigger] piece@[k] == x && piece@[k + 1] == y),
            decreases piece@.len() - j,
        {
            let x: u8 = piece[j];
            let y: u8 = piece[j + 1];
            let ghost near1 = near@;
            near[x as usize * 256 + y as usize] = true;
            proof {
                assert forall|a: u8, b: u8|
                    (#[trigger] near@[a * 256 + b]) == (near0[a * 256 + b] || exists|k: int|
                        0 <= k < j + 1 && k < piece@.len() - 1 && #[trigger] piece@[k] == a && piece@[k + 1] == b) by {
                    assert(near1[a * 256 + b] == (near0[a * 256 + b] || exists|k: int|
                        0 <= k < j && k < piece@.len() - 1 && #[trigger] piece@[k] == a && piece@[k + 1] == b));
                    if a * 256 + b == x * 256 + y {
                        assert(a == x && b == y);
                        assert(piece@[j as int] == a && piece@[j + 1] == b);
                    } else {
                        assert(near@[a * 256 + b] == near1[a * 256 + b]);
                        if exists|k: int| 0 <= k < j + 1 && k < piece@.len() - 1 && #[trigger] piece@[k] == a && piece@[k + 1] == b {
                            let k = choose|k: int| 0 <= k < j + 1 && k < piece@.len() - 1 && #[trigger] piece@[k] == a && piece@[k + 1] == b;
                            assert(k != j);
                            assert(piece@[k] == a);
                        }
                        if exists|k: int| 0 <= k < j && k < piece@.len() - 1 && #[trigger] piece@[k] == a && piece@[k + 1] == b {
                            let k = choose|k: int| 0 <= k < j && k < piece@.len() - 1 && #[trigger] piece@[k] == a && piece@[k + 1] == b;
                            assert(piece@[k] == a);
                        }
                    }
                }
            }
            j += 1;
        }
        proof {
            assert(all[i as int] == piece@);
            assert forall|x: u8, y: u8| #[trigger] adjacent(all.take(i + 1), x, y) == near@[x * 256 + y] by {
                lemma_adjacent_step(all, i as int, x, y);
                assert(adjacent(all.take(i as int), x, y) == near0[x * 256 + y]);
                assert(near@[x * 256 + y] == (near0[x * 256 + y] || exists|k: int|
                    0 <= k < j && k < piece@.len() - 1 && #[trigger] piece@[k] == x && piece@[k + 1] == y));
                if exists|k: int| 0 <= k < piece@.len() - 1 && #[trigger] piece@[k] == x && piece@[k + 1] == y {
                    let k = choose|k: int| 0 <= k < piece@.len() - 1 && #[trigger] piece@[k] == x && piece@[k + 1] == y;
                    assert(0 <= k < j && piece@[k] == x);
                }
                if exists|k: int| 0 <= k < j && k < piece@.len() - 1 && #[trigger] piece@[k] == x && piece@[k + 1] == y {
                    let k = choose|k: int| 0 <= k < j && k < piece@.len() - 1 && #[trigger] piece@[k] == x && piece@[k + 1] == y;
                    assert(all[i as int][k] == x);
                }
                if exists|k: int| 0 <= k < all[i as int].len() - 1 && #[trigger] all[i as int][k] == x && all[i as int][k + 1] == y {
                    let k = choose|k: int| 0 <= k < all[i as int].len() - 1 && #[trigger] all[i as int][k] == x && all[i as int][k + 1] == y;
                    assert(piece@[k] == x);
                }
            }
        }
        i += 1;
    }
    proof {
        assert(all.take(i as int) =~= all);
    }
    near
}

proof fn lemma_adjacent_step(vocab: Seq<Seq<u8>>, i: int, x: u8, y: u8)
    requires
        0 <= i < vocab.len(),
    ensures
        adjacent(vocab.take(i + 1), x, y) <==> adjacent(vocab.take(i), x, y) || exists|k: int|
            0 <= k < vocab[i].len() - 1 && #[trigger] vocab[i][k] == x && vocab[i][k + 1] == y,
{
    let a = vocab.take(i);
    let b = vocab.take(i + 1);
    if adjacent(b, x, y) {
        let (m, j) = choose|m: int, j: int|
            0 <= m < b.len() && 0 <= j < b[m].len() - 1 && #[trigger] b[m][j] == x && b[m][j + 1] == y;
        if m < i {
            assert(a[m][j] == x && a[m][j + 1] == y);
        } else {
            assert(vocab[i][j] == x);
        }
    }
    if adjacent(a, x, y) {
        let (m, j) = choose|m: int, j: int|
            0 <= m < a.len() && 0 <= j < a[m].len() - 1 && #[trigger] a[m][j] == x && a[m][j + 1] == y;
        assert(b[m][j] == x && b[m][j + 1] == y);
    }
    if exists|k: int| 0 <= k < vocab[i].len() - 1 && #[trigger] vocab[i][k] == x && vocab[i][k + 1] == y {
        let k = choose|k: int| 0 <= k < vocab[i].len() - 1 && #[trigger] vocab[i][k] == x && vocab[i][k + 1] == y;
        assert(b[i][k] == x && b[i][k + 1] == y);
    }
}

} // verus!
