//! How large chunks and their parts are.
use crate::batch::chunks::{
    chunks_from, cutting, doc_chunks, fragment_chunks, group_chunk, sizes_of, target_bytes,
    total_len, ChunkSizes, Cutting, EncodeChunk,
};
use crate::batch::sentencepiece::sp_cutting;
use crate::pretokenize::split::{
    blocks, can_cut, lemma_next_cut, next_cut, split_from, split_ranges, word_break, SplitBlocker,
};
use crate::search::occurs_at;
use crate::sp::fragments::{
    fragments, fragments_from, lemma_next_safe_cut, next_safe_cut, safe_cut,
};
use crate::sp::model::{raw_prepend_of, SpModel};
use vstd::arithmetic::div_mod::lemma_fundamental_div_mod;
use vstd::prelude::*;

verus! {

/// A chunk aims for a sixteenth of a thread's share of the bytes, rounded down,
/// or for a mebibyte where that is more.
pub proof fn law_target_is_a_share(total: int, threads: int)
    requires
        0 <= total,
        0 < threads,
    ensures
        ({
            let t = target_bytes(total, threads);
            &&& t >= 1024 * 1024
            &&& t > 1024 * 1024 ==> 16 * threads * t <= total < 16 * threads * (t + 1)
            &&& t == 1024 * 1024 ==> total < 16 * threads * (t + 1)
        }),
{
    let d = 16 * threads;
    let q = total / d;
    lemma_fundamental_div_mod(total, d);
    assert(0 <= total % d < d);
    assert(d * (q + 1) == d * q + d) by (nonlinear_arith);
    if q <= 1024 * 1024 {
        assert(d * (q + 1) <= d * (1024 * 1024 + 1)) by (nonlinear_arith)
            requires
                q <= 1024 * 1024,
                d > 0,
        ;
    }
}

/// Without a tail every chunk has the target size. With one, chunks are twice
/// as large over the first four fifths of the bytes, and a quarter as large
/// behind, but no less than a mebibyte.
pub proof fn law_sizes_around_the_target(total: int, target: int, lpt: bool)
    requires
        0 <= total <= usize::MAX,
        0 < target <= usize::MAX / 2,
    ensures
        ({
            let z = sizes_of(total, target, lpt);
            &&& z.target == target
            &&& z.lpt == lpt
            &&& !lpt ==> z.big == target && z.tail == target
            &&& lpt ==> {
                &&& 4 * total <= 5 * z.head < 4 * total + 5
                &&& z.big == target + target
                &&& z.tail >= 1024 * 1024
                &&& z.tail > 1024 * 1024 ==> 4 * z.tail <= target < 4 * z.tail + 4
                &&& target >= 4 * (1024 * 1024 + 1) ==> z.tail > 1024 * 1024
            }
        }),
{
}

/// A part that is not the last has the target size or more, and ends at the
/// first cut from there on. The last one ends the text, with no cut left.
pub open spec fn ends_at_first_cut(
    s: Seq<u8>,
    target: int,
    v: Seq<(int, int)>,
    i: int,
    cut: spec_fn(int) -> bool,
) -> bool {
    &&& i < v.len() - 1 ==> {
        &&& v[i].0 + target <= v[i].1 < s.len()
        &&& cut(v[i].1)
        &&& v[i + 1].0 == v[i].1
    }
    &&& i == v.len() - 1 ==> v[i].1 == s.len()
    &&& forall|p: int| v[i].0 + target <= p < v[i].1 ==> !#[trigger] cut(p)
}

proof fn lemma_no_cut_before(s: Seq<u8>, p: int, tokens: Seq<SplitBlocker>, q: int)
    requires
        0 <= p <= q < s.len(),
        next_cut(s, p, tokens) matches Some(c) ==> q < c,
    ensures
        !can_cut(s, q, tokens),
    decreases s.len() - p,
{
    if p + 1 < s.len() && !can_cut(s, p, tokens) && p < q {
        lemma_no_cut_before(s, p + 1, tokens, q);
    }
}

/// Every range of a text ends at the first cut that leaves it the target size.
pub proof fn law_ranges_end_at_the_first_cut(
    s: Seq<u8>,
    target: int,
    tokens: Seq<SplitBlocker>,
    i: int,
)
    requires
        0 < target,
        0 < s.len(),
        0 <= i < split_ranges(s, target, tokens).len(),
    ensures
        split_ranges(s, target, tokens)[0].0 == 0,
        ends_at_first_cut(
            s,
            target,
            split_ranges(s, target, tokens),
            i,
            |p: int| can_cut(s, p, tokens),
        ),
{
    lemma_ranges_end(s, target, tokens, 0, i);
}

proof fn lemma_ranges_end(
    s: Seq<u8>,
    target: int,
    tokens: Seq<SplitBlocker>,
    start: int,
    i: int,
)
    requires
        0 < target,
        0 <= start < s.len(),
        0 <= i < split_from(s, start, target, tokens).len(),
    ensures
        split_from(s, start, target, tokens)[0].0 == start,
        ends_at_first_cut(
            s,
            target,
            split_from(s, start, target, tokens),
            i,
            |p: int| can_cut(s, p, tokens),
        ),
    decreases s.len() - start,
{
    let cut = |p: int| can_cut(s, p, tokens);
    let v = split_from(s, start, target, tokens);
    lemma_next_cut(s, start + target, tokens);
    let e = match next_cut(s, start + target, tokens) {
        Some(p) => p,
        None => s.len() as int,
    };
    assert forall|p: int| start + target <= p < e implies !#[trigger] cut(p) by {
        lemma_no_cut_before(s, start + target, tokens, p);
    }
    if next_cut(s, start + target, tokens) is Some {
        let rest = split_from(s, e, target, tokens);
        assert(v =~= seq![(start, e)] + rest);
        assert(rest.len() > 0);
        lemma_ranges_end(s, target, tokens, e, 0);
        if i > 0 {
            lemma_ranges_end(s, target, tokens, e, i - 1);
            assert(v[i] == rest[i - 1]);
            if i < v.len() - 1 {
                assert(v[i + 1] == rest[i]);
            }
        } else {
            assert(v[1] == rest[0]);
        }
    }
}

/// A text is cut at a space between a letter or digit and a letter, if no token
/// covers the place or takes the space behind it.
pub proof fn law_cut_is_a_space_between_words(s: Seq<u8>, p: int, tokens: Seq<SplitBlocker>)
    ensures
        can_cut(s, p, tokens) <==> {
            &&& 0 < p < s.len() - 1
            &&& s[p] == ' ' as u8
            &&& ('a' as u8 <= s[p - 1] <= 'z' as u8 || 'A' as u8 <= s[p - 1] <= 'Z' as u8 || '0' as u8
                <= s[p - 1] <= '9' as u8)
            &&& ('a' as u8 <= s[p + 1] <= 'z' as u8 || 'A' as u8 <= s[p + 1] <= 'Z' as u8)
            &&& forall|k: int, i: int|
                0 <= k < tokens.len() && #[trigger] occurs_at(s, tokens[k].0@, i) ==> i + (
                tokens[k].0@.len()) < p || p <= i || (i + tokens[k].0@.len() == p && (!tokens[k].1
                    || tokens[k].0@.len() == 0))
        },
{
    if can_cut(s, p, tokens) {
        assert forall|k: int, i: int|
            0 <= k < tokens.len() && #[trigger] occurs_at(s, tokens[k].0@, i) implies i + (
        tokens[k].0@.len()) < p || p <= i || (i + tokens[k].0@.len() == p && (!tokens[k].1
            || tokens[k].0@.len() == 0)) by {
            assert(!blocks(s, tokens[k], p));
        }
    } else if word_break(s, p) {
        let k = choose|k: int|
            0 <= k < tokens.len() && #[trigger] blocks(s, tokens[k], p);
        assert(blocks(s, tokens[k], p));
        let t = tokens[k];
        if exists|i: int| #[trigger] occurs_at(s, t.0@, i) && i < p < i + t.0@.len() {
            let i = choose|i: int| #[trigger] occurs_at(s, t.0@, i) && i < p < i + t.0@.len();
            assert(occurs_at(s, tokens[k].0@, i));
        } else {
            assert(occurs_at(s, tokens[k].0@, p - t.0@.len()));
        }
    }
}

proof fn lemma_no_safe_cut_before(m: SpModel, s: Seq<u8>, p: int, q: int)
    requires
        p <= q < next_safe_cut(m, s, p),
        p <= s.len(),
    ensures
        !safe_cut(m, s, q),
    decreases s.len() - p,
{
    if p < s.len() && !safe_cut(m, s, p) && p < q {
        lemma_no_safe_cut_before(m, s, p + 1, q);
    }
}

/// Every fragment of a text ends at the first safe cut that leaves it the
/// target size.
pub proof fn law_fragments_end_at_the_first_cut(m: SpModel, s: Seq<u8>, target: int, i: int)
    requires
        0 < target,
        0 < s.len(),
        0 <= i < fragments(m, s, target).len(),
    ensures
        fragments(m, s, target)[0].0 == 0,
        ends_at_first_cut(s, target, fragments(m, s, target), i, |p: int| safe_cut(m, s, p)),
{
    lemma_fragments_end(m, s, target, 0, i);
}

proof fn lemma_fragments_end(m: SpModel, s: Seq<u8>, target: int, start: int, i: int)
    requires
        0 < target,
        0 <= start < s.len(),
        0 <= i < fragments_from(m, s, target, start).len(),
    ensures
        fragments_from(m, s, target, start)[0].0 == start,
        ends_at_first_cut(
            s,
            target,
            fragments_from(m, s, target, start),
            i,
            |p: int| safe_cut(m, s, p),
        ),
    decreases s.len() - start,
{
    let cut = |p: int| safe_cut(m, s, p);
    let v = fragments_from(m, s, target, start);
    let e = if start + target <= s.len() {
        next_safe_cut(m, s, start + target)
    } else {
        s.len() as int
    };
    if start + target <= s.len() {
        lemma_next_safe_cut(m, s, start + target);
        assert forall|p: int| start + target <= p < e implies !#[trigger] cut(p) by {
            lemma_no_safe_cut_before(m, s, start + target, p);
        }
    }
    let rest = fragments_from(m, s, target, e);
    assert(v =~= seq![(start, e)] + rest);
    if e < s.len() {
        assert(rest.len() > 0);
        lemma_fragments_end(m, s, target, e, 0);
        if i > 0 {
            lemma_fragments_end(m, s, target, e, i - 1);
            assert(v[i] == rest[i - 1]);
            if i < v.len() - 1 {
                assert(v[i + 1] == rest[i]);
            }
        } else {
            assert(v[1] == rest[0]);
        }
    } else {
        assert(rest.len() == 0);
    }
}

proof fn lemma_total_push(docs: Seq<Seq<u8>>, from: int, i: int)
    requires
        0 <= from <= i < docs.len(),
    ensures
        total_len(docs.subrange(from, i + 1)) == total_len(docs.subrange(from, i)) + docs[i].len(),
{
    assert(docs.subrange(from, i + 1).drop_last() =~= docs.subrange(from, i));
}

/// What holds of a chunk of documents: a group is of documents that are not
/// cut, and would be below the size without its last one; a part is of a
/// document that is cut.
pub open spec fn is_sized(docs: Seq<Seq<u8>>, z: ChunkSizes, large: spec_fn(Seq<u8>) -> bool, c: EncodeChunk) -> bool {
    match c {
        EncodeChunk::Docs { from, to } => {
            &&& from < to <= docs.len()
            &&& forall|i: int| from <= i < to ==> !large(#[trigger] docs[i])
            &&& total_len(docs.subrange(from as int, to - 1)) < z.big || total_len(
                docs.subrange(from as int, to - 1),
            ) < z.tail
        },
        EncodeChunk::Region { .. } => false,
        EncodeChunk::Fragment { doc, .. } => doc < docs.len() && large(docs[doc as int]),
    }
}

proof fn lemma_chunks_sized(
    docs: Seq<Seq<u8>>,
    i: int,
    from: int,
    emitted: int,
    acc: int,
    z: ChunkSizes,
    cut: Cutting,
    large: spec_fn(Seq<u8>) -> bool,
    k: int,
)
    requires
        docs.len() <= usize::MAX,
        0 <= from <= i <= docs.len(),
        acc == total_len(docs.subrange(from, i)),
        from < i ==> acc < z.big || acc < z.tail,
        z.big > 0 || z.tail > 0,
        forall|j: int| from <= j < i ==> !large(#[trigger] docs[j]),
        forall|d: Seq<u8>, e: int| (#[trigger] cut(d, e)) is Some <==> large(d),
        0 <= k < chunks_from(docs, i, from, emitted, acc, z, cut).len(),
    ensures
        is_sized(docs, z, large, chunks_from(docs, i, from, emitted, acc, z, cut)[k]),
    decreases docs.len() - i,
{
    let v = chunks_from(docs, i, from, emitted, acc, z, cut);
    if from < i {
        lemma_total_push(docs, from, i - 1);
        assert(total_len(docs.subrange(from, i - 1)) <= acc);
    }
    if i < docs.len() {
        let n = docs[i].len() as int;
        lemma_total_push(docs, from, i);
        assert(docs.subrange(i + 1, i + 1) =~= Seq::<Seq<u8>>::empty());
        assert(total_len(docs.subrange(i + 1, i + 1)) == 0);
        if from == i {
            assert(docs.subrange(i, i) =~= Seq::<Seq<u8>>::empty());
        }
        match cut(docs[i], emitted + acc) {
            Some(r) => {
                let a = group_chunk(from, i);
                let b = fragment_chunks(i, r);
                let c = chunks_from(docs, i + 1, i + 1, emitted + acc + n, 0, z, cut);
                assert(v == a + b + c);
                if k < a.len() {
                    assert(v[k] == a[k]);
                } else if k < a.len() + b.len() {
                    assert(v[k] == b[k - a.len()]);
                } else {
                    let j = k - a.len() - b.len();
                    assert(v[k] == c[j]);
                    lemma_chunks_sized(
                        docs,
                        i + 1,
                        i + 1,
                        emitted + acc + n,
                        0,
                        z,
                        cut,
                        large,
                        j,
                    );
                }
            },
            None => {
                let bound = if emitted < z.head {
                    z.big
                } else {
                    z.tail
                };
                if acc + n >= bound {
                    let a = group_chunk(from, i + 1);
                    let c = chunks_from(docs, i + 1, i + 1, emitted + acc + n, 0, z, cut);
                    assert(v == a + c);
                    if k < a.len() {
                        assert(v[k] == a[k]);
                    } else {
                        assert(v[k] == c[k - a.len()]);
                        lemma_chunks_sized(
                            docs,
                            i + 1,
                            i + 1,
                            emitted + acc + n,
                            0,
                            z,
                            cut,
                            large,
                            k - a.len(),
                        );
                    }
                } else {
                    lemma_chunks_sized(docs, i + 1, from, emitted, acc + n, z, cut, large, k);
                }
            },
        }
    }
}

/// Documents of up to twice the target stay whole and are grouped until the
/// size is reached; larger ones are cut.
pub proof fn law_large_documents_are_cut(
    docs: Seq<Seq<u8>>,
    z: ChunkSizes,
    tokens: Seq<SplitBlocker>,
    k: int,
)
    requires
        docs.len() <= usize::MAX,
        z.big > 0,
        0 <= k < doc_chunks(docs, z, cutting(z, tokens)).len(),
    ensures
        is_sized(
            docs,
            z,
            |d: Seq<u8>| d.len() > z.target + z.target,
            doc_chunks(docs, z, cutting(z, tokens))[k],
        ),
{
    assert(docs.subrange(0, 0) =~= Seq::<Seq<u8>>::empty());
    lemma_chunks_sized(
        docs,
        0,
        0,
        0,
        0,
        z,
        cutting(z, tokens),
        |d: Seq<u8>| d.len() > z.target + z.target,
        k,
    );
}

/// The same of texts for a SentencePiece-style model, which cuts only where it
/// encodes raw text.
pub proof fn law_sp_large_documents_are_cut(m: SpModel, docs: Seq<Seq<u8>>, target: int, k: int)
    requires
        docs.len() <= usize::MAX,
        0 < target <= usize::MAX / 2,
        0 <= k < doc_chunks(docs, sizes_of(0, target, false), sp_cutting(m, target)).len(),
    ensures
        is_sized(
            docs,
            sizes_of(0, target, false),
            |d: Seq<u8>| raw_prepend_of(m) is Some && d.len() > target + target,
            doc_chunks(docs, sizes_of(0, target, false), sp_cutting(m, target))[k],
        ),
{
    assert(docs.subrange(0, 0) =~= Seq::<Seq<u8>>::empty());
    lemma_chunks_sized(
        docs,
        0,
        0,
        0,
        0,
        sizes_of(0, target, false),
        sp_cutting(m, target),
        |d: Seq<u8>| raw_prepend_of(m) is Some && d.len() > target + target,
        k,
    );
}

} // verus!
