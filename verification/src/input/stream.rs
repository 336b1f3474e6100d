//! Documents of a stream that comes in pieces.
use crate::input::documents::{
    documents, first_from, lemma_first_from, lemma_first_is, next_separator,
};
use crate::search::{copy_bytes, find, occurs_at};
use crate::sp::normalize::append_bytes;
use vstd::prelude::*;

verus! {

/// The bytes of the documents of `s`.
pub open spec fn document_texts(s: Seq<u8>, sep: Seq<u8>) -> Seq<Seq<u8>> {
    texts_of(s, documents(s, sep, 0, s.len() as int))
}

/// The bytes of spans.
pub open spec fn texts_of(s: Seq<u8>, spans: Seq<(int, int)>) -> Seq<Seq<u8>> {
    spans.map_values(|d: (int, int)| s.subrange(d.0, d.1))
}

/// The first document that a separator ends in `buf`, and what is left after
/// that separator. Empty documents are dropped.
pub open spec fn next_split(buf: Seq<u8>, sep: Seq<u8>) -> (Option<Seq<u8>>, Seq<u8>)
    decreases buf.len(),
    via next_split_decreases
{
    match next_separator(buf, sep, 0, buf.len() as int) {
        None => (None, buf),
        Some(p) => if p > 0 {
            (Some(buf.take(p)), buf.skip(p + sep.len()))
        } else {
            next_split(buf.skip(sep.len() as int), sep)
        },
    }
}

#[via_fn]
proof fn next_split_decreases(buf: Seq<u8>, sep: Seq<u8>) {
    lemma_first_from(buf, sep, 0, buf.len() as int);
}

/// Collects what was read of a stream until a document is complete.
pub struct SeparatorBuffer {
    separator: Vec<u8>,
    buf: Vec<u8>,
    /// Where the next search starts; no separator starts before it.
    search_from: usize,
}

impl SeparatorBuffer {
    /// What was read and not given out yet.
    pub closed spec fn pending(&self) -> Seq<u8> {
        self.buf@
    }

    /// The separator.
    pub closed spec fn sep(&self) -> Seq<u8> {
        self.separator@
    }

    #[verifier::type_invariant]
    spec fn wf(&self) -> bool {
        &&& self.search_from <= self.buf@.len()
        &&& self.separator@.len() > 0 ==> forall|j: int|
            0 <= j < self.search_from ==> !#[trigger] occurs_at(self.buf@, self.separator@, j)
    }

    /// Nothing read yet.
    pub fn new(separator: &[u8]) -> (r: Self)
        ensures
            r.pending() == Seq::<u8>::empty(),
            r.sep() == separator@,
    {
        let buf: Vec<u8> = Vec::new();
        proof {
            assert(buf@ =~= Seq::<u8>::empty());
        }
        SeparatorBuffer { separator: copy_bytes(separator), buf, search_from: 0 }
    }

    /// Adds what was read.
    pub fn feed(&mut self, bytes: &[u8])
        ensures
            final(self).pending() == old(self).pending() + bytes@,
            final(self).sep() == old(self).sep(),
    {
        proof {
            use_type_invariant(&*self);
        }
        let mut fresh = SeparatorBuffer {
            separator: Vec::new(),
            buf: Vec::new(),
            search_from: 0,
        };
        std::mem::swap(&mut fresh, self);
        proof {
            use_type_invariant(&fresh);
        }
        let SeparatorBuffer { separator, mut buf, search_from } = fresh;
        let ghost before = buf@;
        // A separator may straddle what was searched and what comes.
        let n: usize = separator.len();
        let safe: usize = if n > 0 && buf.len() >= n - 1 {
            buf.len() - (n - 1)
        } else {
            0
        };
        let known: usize = if search_from <= safe {
            search_from
        } else {
            safe
        };
        append_bytes(&mut buf, bytes);
        proof {
            if n > 0 {
                assert forall|j: int| 0 <= j < known implies !#[trigger] occurs_at(
                    buf@,
                    separator@,
                    j,
                ) by {
                    if occurs_at(buf@, separator@, j) {
                        assert(before.subrange(j, j + n) =~= buf@.subrange(j, j + n));
                        assert(occurs_at(before, separator@, j));
                    }
                }
            }
        }
        *self = SeparatorBuffer { separator, buf, search_from: known };
    }

    /// The next complete document; `None` when more has to be read.
    pub fn next_document(&mut self) -> (r: Option<Vec<u8>>)
        ensures
            final(self).sep() == old(self).sep(),
            final(self).pending() == next_split(old(self).pending(), old(self).sep()).1,
            match r {
                Some(d) => next_split(old(self).pending(), old(self).sep()).0 == Some(d@),
                None => next_split(old(self).pending(), old(self).sep()).0 is None,
            },
    {
        proof {
            use_type_invariant(&*self);
        }
        let mut fresh = SeparatorBuffer {
            separator: Vec::new(),
            buf: Vec::new(),
            search_from: 0,
        };
        std::mem::swap(&mut fresh, self);
        proof {
            use_type_invariant(&fresh);
        }
        let SeparatorBuffer { separator, mut buf, mut search_from } = fresh;
        let n: usize = separator.len();
        if n == 0 {
            *self = SeparatorBuffer { separator, buf, search_from };
            return None;
        }
        let ghost goal = next_split(buf@, separator@);
        let mut doc: Option<Vec<u8>> = None;
        let mut more = true;
        while more
            invariant
                n == separator@.len(),
                n > 0,
                search_from <= buf@.len(),
                forall|j: int|
                    0 <= j < search_from ==> !#[trigger] occurs_at(buf@, separator@, j),
                more ==> next_split(buf@, separator@) == goal && doc is None,
                !more ==> buf@ == goal.1 && match doc {
                    Some(d) => goal.0 == Some(d@),
                    None => goal.0 is None,
                },
            decreases buf@.len(), if more { 1int } else { 0int },
        {
            let total: usize = buf.len();
            let ghost s = buf@;
            let rest = vstd::slice::slice_subrange(buf.as_slice(), search_from, total);
            match find(rest, separator.as_slice()) {
                Some(off) => {
                    let p: usize = search_from + off;
                    proof {
                        assert(rest@.subrange(off as int, off + n) =~= s.subrange(
                            p as int,
                            p + n,
                        ));
                        assert forall|j: int| 0 <= j < p implies !#[trigger] occurs_at(
                            s,
                            separator@,
                            j,
                        ) by {
                            if occurs_at(s, separator@, j) && j >= search_from {
                                assert(rest@.subrange(j - search_from, j - search_from + n)
                                    =~= s.subrange(j, j + n));
                                assert(occurs_at(rest@, separator@, j - search_from));
                            }
                        }
                        lemma_first_is(s, separator@, 0, total as int, p as int);
                    }
                    let tail: Vec<u8> = copy_bytes(
                        vstd::slice::slice_subrange(buf.as_slice(), p + n, total),
                    );
                    proof {
                        assert(tail@ =~= s.skip(p + n));
                    }
                    if p > 0 {
                        let head = copy_bytes(vstd::slice::slice_subrange(buf.as_slice(), 0, p));
                        proof {
                            assert(head@ =~= s.take(p as int));
                        }
                        doc = Some(head);
                        more = false;
                    }
                    buf = tail;
                    search_from = 0;
                },
                None => {
                    proof {
                        lemma_first_from(s, separator@, 0, total as int);
                        if first_from(s, separator@, 0, total as int) is Some {
                            let f = first_from(s, separator@, 0, total as int)->0;
                            assert(f >= search_from);
                            assert(rest@.subrange(f - search_from, f - search_from + n)
                                =~= s.subrange(f, f + n));
                            assert(occurs_at(rest@, separator@, f - search_from));
                        }
                        assert forall|j: int| 0 <= j < total implies !#[trigger] occurs_at(
                            s,
                            separator@,
                            j,
                        ) by {}
                    }
                    search_from = total;
                    more = false;
                },
            }
        }
        *self = SeparatorBuffer { separator, buf, search_from };
        doc
    }

    /// What is left at the end of the stream, if anything.
    pub fn finish(self) -> (r: Option<Vec<u8>>)
        ensures
            match r {
                Some(d) => d@ == self.pending() && d@.len() > 0,
                None => self.pending().len() == 0,
            },
    {
        let SeparatorBuffer { separator: _, buf, search_from: _ } = self;
        if buf.len() == 0 {
            None
        } else {
            Some(buf)
        }
    }
}

proof fn lemma_first_prefix(a: Seq<u8>, z: Seq<u8>, sep: Seq<u8>, f: int)
    requires
        first_from(a, sep, 0, a.len() as int) == Some(f),
    ensures
        first_from(a + z, sep, 0, (a + z).len() as int) == Some(f),
{
    lemma_first_from(a, sep, 0, a.len() as int);
    let s = a + z;
    assert(s.subrange(f, f + sep.len()) =~= a.subrange(f, f + sep.len()));
    assert forall|j: int| 0 <= j < f implies !#[trigger] occurs_at(s, sep, j) by {
        if occurs_at(s, sep, j) {
            assert(s.subrange(j, j + sep.len()) =~= a.subrange(j, j + sep.len()));
            assert(occurs_at(a, sep, j));
        }
    }
    lemma_first_is(s, sep, 0, s.len() as int, f);
}

pub proof fn lemma_texts_shift(s: Seq<u8>, sep: Seq<u8>, b: int, p: int)
    requires
        0 <= b <= p,
        b <= s.len(),
    ensures
        texts_of(s, documents(s, sep, p, s.len() as int)) == texts_of(
            s.skip(b),
            documents(s.skip(b), sep, p - b, s.len() - b),
        ),
    decreases s.len() - p,
{
    let t = s.skip(b);
    let len = s.len() as int;
    let x = texts_of(s, documents(s, sep, p, len));
    let y = texts_of(t, documents(t, sep, p - b, len - b));
    if p < len {
        lemma_first_shift(s, sep, b, p);
        lemma_first_from(s, sep, p, len);
        match next_separator(s, sep, p, len) {
            None => {
                assert(s.subrange(p, len) =~= t.subrange(p - b, len - b));
                assert(x =~= seq![s.subrange(p, len)]);
                assert(y =~= seq![t.subrange(p - b, len - b)]);
            },
            Some(f) => {
                let q = f + sep.len();
                lemma_texts_shift(s, sep, b, q);
                let x1 = texts_of(s, documents(s, sep, q, len));
                let y1 = texts_of(t, documents(t, sep, q - b, len - b));
                if p < f {
                    assert(s.subrange(p, f) =~= t.subrange(p - b, f - b));
                    assert(x =~= seq![s.subrange(p, f)] + x1);
                    assert(y =~= seq![t.subrange(p - b, f - b)] + y1);
                }
            },
        }
    } else {
        assert(x =~= y);
    }
}

proof fn lemma_first_shift(s: Seq<u8>, sep: Seq<u8>, b: int, p: int)
    requires
        0 <= b <= p,
        b <= s.len(),
    ensures
        first_from(s.skip(b), sep, p - b, s.len() - b) == (match first_from(
            s,
            sep,
            p,
            s.len() as int,
        ) {
            Some(f) => Some(f - b),
            None => None,
        }),
    decreases s.len() - p + 1,
{
    if p + sep.len() <= s.len() {
        assert(s.skip(b).subrange(p - b, p - b + sep.len()) =~= s.subrange(p, p + sep.len()));
        if !occurs_at(s, sep, p) {
            lemma_first_shift(s, sep, b, p + 1);
        }
    }
}

/// What comes out of a buffer and what is left of it make up the documents of
/// the stream, whatever is read next.
pub proof fn law_stream_documents(buf: Seq<u8>, sep: Seq<u8>, more: Seq<u8>)
    ensures
        document_texts(buf + more, sep) == (match next_split(buf, sep) {
            (Some(d), rest) => seq![d] + document_texts(rest + more, sep),
            (None, rest) => document_texts(rest + more, sep),
        }),
    decreases buf.len(),
{
    let s = buf + more;
    let len = s.len() as int;
    match next_separator(buf, sep, 0, buf.len() as int) {
        None => {},
        Some(p) => {
            lemma_first_from(buf, sep, 0, buf.len() as int);
            lemma_first_prefix(buf, more, sep, p);
            let q = p + sep.len();
            lemma_texts_shift(s, sep, q, q);
            assert(s.skip(q) =~= buf.skip(q) + more);
            let rest = document_texts(buf.skip(q) + more, sep);
            assert(texts_of(s, documents(s, sep, q, len)) == rest);
            if p > 0 {
                assert(s.subrange(0, p) =~= buf.take(p));
                assert(document_texts(s, sep) =~= seq![buf.take(p)] + rest);
            } else {
                law_stream_documents(buf.skip(q), sep, more);
                assert(document_texts(s, sep) =~= rest);
            }
        },
    }
}

/// At the end of the stream what is left without a separator is one document,
/// unless it is empty.
pub proof fn law_stream_end(buf: Seq<u8>, sep: Seq<u8>)
    requires
        next_split(buf, sep) == (None::<Seq<u8>>, buf),
    ensures
        document_texts(buf, sep) == if buf.len() > 0 {
            seq![buf]
        } else {
            Seq::empty()
        },
{
    let len = buf.len() as int;
    if next_separator(buf, sep, 0, len) is Some {
        let p = next_separator(buf, sep, 0, len)->0;
        lemma_first_from(buf, sep, 0, len);
        lemma_split_shrinks(buf.skip(p + sep.len()), sep);
    }
    if len > 0 {
        assert(buf.subrange(0, len) =~= buf);
        assert(document_texts(buf, sep) =~= seq![buf]);
    } else {
        assert(document_texts(buf, sep) =~= Seq::<Seq<u8>>::empty());
    }
}

proof fn lemma_split_shrinks(buf: Seq<u8>, sep: Seq<u8>)
    ensures
        next_split(buf, sep).1.len() <= buf.len(),
    decreases buf.len(),
{
    if next_separator(buf, sep, 0, buf.len() as int) is Some {
        lemma_first_from(buf, sep, 0, buf.len() as int);
        let p = next_separator(buf, sep, 0, buf.len() as int)->0;
        if p == 0 {
            lemma_split_shrinks(buf.skip(sep.len() as int), sep);
        }
    }
}

} // verus!
