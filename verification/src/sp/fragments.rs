//! Cutting raw text into fragments that encode like the whole text.
use crate::bpe::added::{added_views, AddedToken, AddedTokenDef};
use crate::bpe::tiktoken::all_nonempty;
use crate::search::{find, find_byte, occurs_at};
use crate::sp::cuts::{mark_cut, mark_len, CutRules};
use crate::sp::model::{cuts_of, raw_prepend_of, RawPrepend, SentencePieceBPE, SpModel};
use crate::text::{spaces_end, spaces_start, trim_ws_end, trim_ws_start};
use vstd::prelude::*;
use vstd::utf8::encode_utf8;

verus! {

/// The first position that an occurrence at `i` blocks: with `lstrip`, back
/// through the white space before it.
pub open spec fn block_start(tok: AddedToken, s: Seq<u8>, i: int) -> int {
    if tok.lstrip {
        spaces_start(s.take(i), i)
    } else {
        i + 1
    }
}

/// The last position that an occurrence at `i` blocks: with `rstrip`, forward
/// through the white space after it; its end only where each section gets the
/// marker.
pub open spec fn block_end(tok: AddedToken, unguarded: bool, s: Seq<u8>, i: int) -> int {
    let end = i + tok.content.len();
    if tok.rstrip {
        end + spaces_end(s.skip(end), 0)
    } else if unguarded {
        end
    } else {
        end - 1
    }
}

/// The occurrence of a token at `i` blocks a cut at `p`.
pub open spec fn blocks_cut(tok: AddedToken, unguarded: bool, s: Seq<u8>, i: int, p: int) -> bool {
    &&& occurs_at(s, tok.content, i)
    &&& block_start(tok, s, i) <= p <= block_end(tok, unguarded, s, i)
}

/// Each section of a model gets the marker.
pub open spec fn is_unguarded(m: SpModel) -> bool {
    raw_prepend_of(m) == Some(RawPrepend::Unguarded)
}

/// Some occurrence of one of the first `n` tokens blocks a cut at `p`.
pub open spec fn blocked_by(toks: Seq<AddedToken>, n: int, unguarded: bool, s: Seq<u8>, p: int) -> bool {
    exists|k: int, i: int| 0 <= k < n && #[trigger] blocks_cut(toks[k], unguarded, s, i, p)
}

/// A cut at `p` is safe: a unit starts at the mark there, and no added token
/// is in the way.
pub open spec fn safe_cut(m: SpModel, s: Seq<u8>, p: int) -> bool {
    &&& mark_cut(cuts_of(m), s, p, true)
    &&& !blocked_by(m.added, m.added.len() as int, is_unguarded(m), s, p)
}

/// The first safe cut from `p` on, or the end.
pub open spec fn next_safe_cut(m: SpModel, s: Seq<u8>, p: int) -> int
    decreases s.len() - p,
{
    if p >= s.len() {
        s.len() as int
    } else if safe_cut(m, s, p) {
        p
    } else {
        next_safe_cut(m, s, p + 1)
    }
}

/// The next safe cut lies ahead.
pub proof fn lemma_next_safe_cut(m: SpModel, s: Seq<u8>, p: int)
    requires
        p <= s.len(),
    ensures
        p <= next_safe_cut(m, s, p) <= s.len(),
        next_safe_cut(m, s, p) < s.len() ==> safe_cut(m, s, next_safe_cut(m, s, p)),
    decreases s.len() - p,
{
    if p < s.len() && !safe_cut(m, s, p) {
        lemma_next_safe_cut(m, s, p + 1);
    }
}

/// The fragments from `start` on: each ends at the first safe cut at least
/// `target` bytes on.
pub open spec fn fragments_from(m: SpModel, s: Seq<u8>, target: int, start: int) -> Seq<(int, int)>
    decreases s.len() - start,
    via fragments_decreases
{
    if start < s.len() && target > 0 {
        let e = if start + target <= s.len() {
            next_safe_cut(m, s, start + target)
        } else {
            s.len() as int
        };
        seq![(start, e)] + fragments_from(m, s, target, e)
    } else {
        Seq::empty()
    }
}

#[via_fn]
proof fn fragments_decreases(m: SpModel, s: Seq<u8>, target: int, start: int) {
    if start < s.len() && target > 0 && start + target <= s.len() {
        lemma_next_safe_cut(m, s, start + target);
    }
}

/// The fragments of a text; empty text is one empty fragment.
pub open spec fn fragments(m: SpModel, s: Seq<u8>, target: int) -> Seq<(int, int)> {
    if s.len() == 0 {
        seq![(0int, 0int)]
    } else {
        fragments_from(
            m,
            s,
            if target > 0 {
                target
            } else {
                1
            },
            0,
        )
    }
}

/// The bounds of a list of pairs.
pub open spec fn as_pairs(v: Seq<(usize, usize)>) -> Seq<(int, int)> {
    v.map_values(|r: (usize, usize)| (r.0 as int, r.1 as int))
}

/// A cut lands on the start of a mark, so a token without a byte that starts
/// one blocks nothing inside it.
proof fn lemma_plain_token(tok: AddedToken, s: Seq<u8>, i: int, p: int)
    requires
        !tok.lstrip,
        !tok.rstrip,
        !tok.content.contains(0x20),
        !tok.content.contains(0xE2),
        mark_len(s, p, true) > 0,
    ensures
        !blocks_cut(tok, false, s, i, p),
{
    if blocks_cut(tok, false, s, i, p) {
        let c = s.subrange(i, i + tok.content.len());
        assert(c[p - i] == s[p]);
        assert(tok.content.contains(c[p - i]));
    }
}


/// Marks the positions that the occurrences of one token block.
fn block_token(tok: &AddedTokenDef, unguarded: bool, text: &[u8], blocked: &mut Vec<bool>)
    requires
        tok.content@.len() > 0,
        old(blocked)@.len() == text@.len(),
    ensures
        final(blocked)@.len() == text@.len(),
        forall|p: int|
            0 <= p < text@.len() ==> #[trigger] final(blocked)@[p] == (old(blocked)@[p] || exists|
                i: int,
            | #[trigger] blocks_cut(tok@, unguarded, text@, i, p)),
{
    let ghost s = text@;
    let ghost before = blocked@;
    let mut from: usize = 0;
    let total: usize = text.len();
    let mut more = true;
    while more
        invariant
            s == text@,
            total == s.len(),
            tok.content@.len() > 0,
            from <= total,
            before.len() == total,
            blocked@.len() == total,
            forall|p: int|
                0 <= p < total ==> #[trigger] blocked@[p] == (before[p] || exists|i: int|
                    i < from && #[trigger] blocks_cut(tok@, unguarded, s, i, p)),
            !more ==> forall|i: int| i >= from ==> !#[trigger] occurs_at(s, tok.content@, i),
        decreases total - from, if more { 1int } else { 0int },
    {
        let rest = vstd::slice::slice_subrange(text, from, total);
        match find(rest, tok.content.as_slice()) {
            None => {
                more = false;
                proof {
                    assert forall|i: int| i >= from implies !#[trigger] occurs_at(
                        s,
                        tok.content@,
                        i,
                    ) by {
                        if occurs_at(s, tok.content@, i) {
                            assert(rest@.subrange(i - from, i - from + tok.content@.len())
                                =~= s.subrange(i, i + tok.content@.len()));
                            assert(occurs_at(rest@, tok.content@, i - from));
                        }
                    }
                }
            },
            Some(off) => {
                let i: usize = from + off;
                let end: usize = i + tok.content.len();
                proof {
                    assert(rest@.subrange(off as int, off + tok.content@.len()) =~= s.subrange(
                        i as int,
                        end as int,
                    ));
                    assert(occurs_at(s, tok.content@, i as int));
                    assert forall|j: int| from <= j < i implies !#[trigger] occurs_at(
                        s,
                        tok.content@,
                        j,
                    ) by {
                        if occurs_at(s, tok.content@, j) {
                            assert(rest@.subrange(j - from, j - from + tok.content@.len())
                                =~= s.subrange(j, j + tok.content@.len()));
                            assert(occurs_at(rest@, tok.content@, j - from));
                        }
                    }
                }
                let lo: usize = if tok.lstrip {
                    trim_ws_end(vstd::slice::slice_subrange(text, 0, i))
                } else {
                    i + 1
                };
                let last: usize = if tok.rstrip {
                    let tail = vstd::slice::slice_subrange(text, end, total);
                    proof {
                        assert(tail@ =~= s.skip(end as int));
                    }
                    end + trim_ws_start(tail)
                } else if unguarded {
                    end
                } else {
                    end - 1
                };
                let stop: usize = if last < total {
                    last + 1
                } else {
                    total
                };
                proof {
                    assert(s.subrange(0, i as int) =~= s.take(i as int));
                    assert(lo == block_start(tok@, s, i as int));
                    assert(last == block_end(tok@, unguarded, s, i as int));
                }
                let mut q: usize = lo;
                let ghost now = blocked@;
                while q < stop
                    invariant
                        stop <= total,
                        lo <= q,
                        blocked@.len() == total,
                        now.len() == total,
                        q <= stop || q == lo,
                        forall|p: int|
                            0 <= p < total ==> #[trigger] blocked@[p] == (now[p] || lo <= p < q),
                    decreases stop - q,
                {
                    blocked.set(q, true);
                    q += 1;
                }
                proof {
                    assert forall|p: int| 0 <= p < total implies #[trigger] blocked@[p] == (
                    before[p] || exists|j: int|
                        j < i + 1 && #[trigger] blocks_cut(tok@, unguarded, s, j, p)) by {
                        assert(now[p] == (before[p] || exists|j: int|
                            j < from && #[trigger] blocks_cut(tok@, unguarded, s, j, p)));
                        if lo <= p < stop {
                            assert(blocks_cut(tok@, unguarded, s, i as int, p));
                        }
                        if exists|j: int|
                            j < i + 1 && #[trigger] blocks_cut(tok@, unguarded, s, j, p) {
                            let j = choose|j: int|
                                j < i + 1 && #[trigger] blocks_cut(tok@, unguarded, s, j, p);
                            assert(occurs_at(s, tok.content@, j));
                        }
                    }
                }
                from = i + 1;
            },
        }
    }
    proof {
        assert forall|p: int| 0 <= p < total implies #[trigger] blocked@[p] == (before[p]
            || exists|i: int| #[trigger] blocks_cut(tok@, unguarded, s, i, p)) by {
            if exists|i: int| #[trigger] blocks_cut(tok@, unguarded, s, i, p) {
                let i = choose|i: int| #[trigger] blocks_cut(tok@, unguarded, s, i, p);
                assert(occurs_at(s, tok.content@, i));
                assert(i < from);
            }
        }
    }
}

/// The positions at which no cut may land, from every occurrence of an added
/// token, overlapping ones too. Where no mark starts nothing is said.
pub fn added_token_cut_blocks(tokens: &Vec<AddedTokenDef>, unguarded: bool, text: &[u8]) -> (r: Vec<bool>)
    requires
        all_nonempty(added_views(tokens@)),
    ensures
        r@.len() == text@.len(),
        forall|p: int|
            mark_len(text@, p, true) > 0 ==> #[trigger] r@[p] == blocked_by(
                added_views(tokens@),
                tokens@.len() as int,
                unguarded,
                text@,
                p,
            ),
{
    let ghost s = text@;
    let ghost toks = added_views(tokens@);
    let mut blocked: Vec<bool> = Vec::new();
    blocked.resize(text.len(), false);
    let mut k: usize = 0;
    while k < tokens.len()
        invariant
            s == text@,
            toks == added_views(tokens@),
            k <= tokens@.len(),
            all_nonempty(toks),
            blocked@.len() == s.len(),
            forall|p: int|
                mark_len(s, p, true) > 0 ==> #[trigger] blocked@[p] == blocked_by(
                    toks,
                    k as int,
                    unguarded,
                    s,
                    p,
                ),
        decreases tokens@.len() - k,
    {
        let tok = &tokens[k];
        let ghost before = blocked@;
        proof {
            assert(toks[k as int] == tok@);
            assert(tok.content@ == tok@.content);
        }
        let scan = unguarded || tok.lstrip || tok.rstrip || find_byte(0x20, tok.content.as_slice()).is_some()
            || find_byte(0xE2, tok.content.as_slice()).is_some();
        if scan {
            block_token(tok, unguarded, text, &mut blocked);
        }
        proof {
            assert forall|p: int| mark_len(s, p, true) > 0 implies #[trigger] blocked@[p]
                == blocked_by(toks, k + 1, unguarded, s, p) by {
                assert(before[p] == blocked_by(toks, k as int, unguarded, s, p));
                if !scan {
                    assert forall|i: int| !#[trigger] blocks_cut(tok@, unguarded, s, i, p) by {
                        lemma_plain_token(tok@, s, i, p);
                    }
                }
                if blocked_by(toks, k + 1, unguarded, s, p) {
                    let (k2, i) = choose|k2: int, i: int|
                        0 <= k2 < k + 1 && #[trigger] blocks_cut(toks[k2], unguarded, s, i, p);
                    if k2 < k {
                        assert(blocked_by(toks, k as int, unguarded, s, p));
                    } else {
                        assert(blocks_cut(tok@, unguarded, s, i, p));
                    }
                }
                if blocked_by(toks, k as int, unguarded, s, p) {
                    let (k2, i) = choose|k2: int, i: int|
                        0 <= k2 < k && #[trigger] blocks_cut(toks[k2], unguarded, s, i, p);
                    assert(blocks_cut(toks[k2], unguarded, s, i, p));
                }
                if scan && (exists|i: int| #[trigger] blocks_cut(tok@, unguarded, s, i, p)) {
                    let i = choose|i: int| #[trigger] blocks_cut(tok@, unguarded, s, i, p);
                    assert(blocks_cut(toks[k as int], unguarded, s, i, p));
                }
            }
        }
        k += 1;
    }
    blocked
}

/// The fragments of a text, from the cut rules and the blocked positions.
pub(crate) fn fragment_ranges(
    cuts: &CutRules,
    blocked: &Vec<bool>,
    text: &[u8],
    target: usize,
    m: Ghost<SpModel>,
) -> (out: Vec<(usize, usize)>)
    requires
        cuts.wf(),
        cuts@ == cuts_of(m@),
        blocked@.len() == text@.len(),
        forall|p: int|
            mark_len(text@, p, true) > 0 ==> #[trigger] blocked@[p] == blocked_by(
                m@.added,
                m@.added.len() as int,
                is_unguarded(m@),
                text@,
                p,
            ),
    ensures
        as_pairs(out@) == fragments(m@, text@, target as int),
{
    let ghost s = text@;
    let ghost model = m@;
    let mut out: Vec<(usize, usize)> = Vec::new();
    let total: usize = text.len();
    if total == 0 {
        out.push((0, 0));
        proof {
            assert(as_pairs(out@) =~= seq![(0int, 0int)]);
        }
        return out;
    }
    let step: usize = if target > 0 {
        target
    } else {
        1
    };
    let mut start: usize = 0;
    proof {
        assert(as_pairs(out@) + fragments_from(model, s, step as int, 0) =~= fragments_from(
            model,
            s,
            step as int,
            0,
        ));
    }
    while start < total
        invariant
            s == text@,
            total == s.len(),
            start <= total,
            step > 0,
            cuts.wf(),
            cuts@ == cuts_of(model),
            blocked@.len() == total,
            forall|p: int|
                mark_len(s, p, true) > 0 ==> #[trigger] blocked@[p] == blocked_by(
                    model.added,
                    model.added.len() as int,
                    is_unguarded(model),
                    s,
                    p,
                ),
            as_pairs(out@) + fragments_from(model, s, step as int, start as int) == fragments_from(
                model,
                s,
                step as int,
                0,
            ),
        decreases total - start,
    {
        let mut e: usize = total;
        if step <= total - start {
            let mut probe: usize = start + step;
            let mut found = false;
            while probe < total && !found
                invariant
                    s == text@,
                    total == s.len(),
                    start < probe <= total,
                    start + step <= probe,
                    cuts.wf(),
                    cuts@ == cuts_of(model),
                    blocked@.len() == total,
                    forall|p: int|
                        mark_len(s, p, true) > 0 ==> #[trigger] blocked@[p] == blocked_by(
                            model.added,
                            model.added.len() as int,
                            is_unguarded(model),
                            s,
                            p,
                        ),
                    next_safe_cut(model, s, probe as int) == next_safe_cut(model, s, start + step),
                    found ==> probe == next_safe_cut(model, s, start + step),
                decreases total - probe, if found { 0int } else { 1int },
            {
                if cuts.cut_at_mark(text, probe, true) && !blocked[probe] {
                    found = true;
                } else {
                    probe += 1;
                }
            }
            e = probe;
        }
        let ghost before = out@;
        out.push((start, e));
        proof {
            assert(as_pairs(out@) =~= as_pairs(before).push((start as int, e as int)));
            assert(as_pairs(out@) + fragments_from(model, s, step as int, e as int) =~= as_pairs(before)
                + fragments_from(model, s, step as int, start as int));
        }
        start = e;
    }
    proof {
        assert(fragments_from(model, s, step as int, start as int) =~= Seq::<(int, int)>::empty());
        assert(as_pairs(out@) =~= fragments_from(model, s, step as int, 0));
    }
    out
}

impl SentencePieceBPE {
    /// Whether texts can be cut into fragments at all.
    pub fn supports_fragment_split(&self) -> (r: bool)
        ensures
            r == (raw_prepend_of(self@) is Some),
            all_nonempty(self@.added),
    {
        self.raw_prepend_kind().is_some()
    }

    /// Cuts raw text into ranges of roughly `target` bytes, at safe cuts only.
    /// A range can exceed `target` where there is none.
    pub fn safe_fragment_ranges(&self, text: &str, target: usize) -> (out: Vec<(usize, usize)>)
        requires
            raw_prepend_of(self@) is Some,
        ensures
            as_pairs(out@) == fragments(self@, encode_utf8(text@), target as int),
    {
        self.byte_fragment_ranges(text.as_bytes(), target)
    }

    /// Cuts the bytes of raw text into ranges.
    pub(crate) fn byte_fragment_ranges(&self, bytes: &[u8], target: usize) -> (out: Vec<
        (usize, usize),
    >)
        requires
            raw_prepend_of(self@) is Some,
        ensures
            as_pairs(out@) == fragments(self@, bytes@, target as int),
    {
        let unguarded = match self.raw_prepend_kind() {
            Some(RawPrepend::Unguarded) => true,
            _ => false,
        };
        let tokens = self.added_defs();
        proof {
            assert(added_views(tokens@).len() == tokens@.len());
        }
        let blocked = added_token_cut_blocks(tokens, unguarded, bytes);
        match self.cut_rules() {
            Some(cuts) => fragment_ranges(cuts, &blocked, bytes, target, Ghost(self@)),
            None => Vec::new(),
        }
    }
}

} // verus!
