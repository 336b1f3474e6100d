//! Added tokens, matched as a whole before pretokenization.
use crate::bpe::bytes::contents;
use crate::search::{copy_bytes, occurs_at, stands_at};
use crate::token::TokenId;
use vstd::prelude::*;

verus! {

/// One added token: byte content, emitted ID, and whether it absorbs the white
/// space before (`lstrip`) and after (`rstrip`) an occurrence.
#[derive(Debug)]
pub struct AddedTokenDef {
    pub content: Vec<u8>,
    pub id: TokenId,
    pub lstrip: bool,
    pub rstrip: bool,
}

/// The value of an added token.
pub struct AddedToken {
    pub content: Seq<u8>,
    pub id: TokenId,
    pub lstrip: bool,
    pub rstrip: bool,
}

impl AddedTokenDef {
    /// The value of the token.
    pub open spec fn view(&self) -> AddedToken {
        AddedToken { content: self.content@, id: self.id, lstrip: self.lstrip, rstrip: self.rstrip }
    }

    /// The same token again.
    pub fn copy(&self) -> (r: Self)
        ensures
            r@ == self@,
    {
        AddedTokenDef {
            content: copy_bytes(self.content.as_slice()),
            id: self.id,
            lstrip: self.lstrip,
            rstrip: self.rstrip,
        }
    }
}

/// The values of a list of tokens.
pub open spec fn added_views(v: Seq<AddedTokenDef>) -> Seq<AddedToken> {
    v.map_values(|t: AddedTokenDef| t@)
}

/// The contents of a list of tokens.
pub open spec fn patterns(v: Seq<AddedToken>) -> Seq<Seq<u8>> {
    v.map_values(|t: AddedToken| t.content)
}

/// Pattern `k` is the one to take at `start`: no pattern stands earlier from
/// `from` on, none that is longer stands at `start`, and no other of the same
/// length that is listed before it.
pub open spec fn is_longest_match(pats: Seq<Seq<u8>>, s: Seq<u8>, from: int, start: int, k: int) -> bool {
    &&& from <= start
    &&& 0 <= k < pats.len()
    &&& occurs_at(s, pats[k], start)
    &&& forall|j: int, p: int|
        0 <= j < pats.len() && from <= p < start ==> !#[trigger] occurs_at(s, pats[j], p)
    &&& forall|j: int|
        0 <= j < pats.len() && #[trigger] occurs_at(s, pats[j], start) ==> pats[j].len() < pats[k].len() || (
        pats[j].len() == pats[k].len() && k <= j)
}

/// The leftmost, longest occurrence from `from` on, as the start and the
/// pattern.
pub open spec fn longest_match(pats: Seq<Seq<u8>>, s: Seq<u8>, from: int) -> Option<(int, int)> {
    if exists|start: int, k: int| is_longest_match(pats, s, from, start, k) {
        let (start, k) = choose|start: int, k: int| is_longest_match(pats, s, from, start, k);
        Some((start, k))
    } else {
        None
    }
}

/// There is one such occurrence at most.
pub proof fn lemma_match_unique(pats: Seq<Seq<u8>>, s: Seq<u8>, from: int, start: int, k: int)
    requires
        is_longest_match(pats, s, from, start, k),
    ensures
        longest_match(pats, s, from) == Some((start, k)),
{
    let (start2, k2) = choose|start: int, k: int| is_longest_match(pats, s, from, start, k);
    assert(is_longest_match(pats, s, from, start2, k2));
    if start2 < start {
        assert(!occurs_at(s, pats[k2], start2));
    }
    if start < start2 {
        assert(!occurs_at(s, pats[k], start));
    }
    assert(occurs_at(s, pats[k], start));
    assert(occurs_at(s, pats[k2], start2));
}

/// With no occurrence from `from` on there is no match.
pub proof fn lemma_match_none(pats: Seq<Seq<u8>>, s: Seq<u8>, from: int)
    requires
        forall|j: int, p: int|
            0 <= j < pats.len() && from <= p <= s.len() ==> !#[trigger] occurs_at(s, pats[j], p),
    ensures
        longest_match(pats, s, from) is None,
{
    if exists|start: int, k: int| is_longest_match(pats, s, from, start, k) {
        let (start, k) = choose|start: int, k: int| is_longest_match(pats, s, from, start, k);
        assert(occurs_at(s, pats[k], start));
    }
}

/// The pattern to take among the first `n` at one position.
proof fn lemma_longest_of_prefix(pats: Seq<Seq<u8>>, s: Seq<u8>, start: int, n: int) -> (k: int)
    requires
        0 <= n <= pats.len(),
        exists|j: int| 0 <= j < n && #[trigger] occurs_at(s, pats[j], start),
    ensures
        0 <= k < n,
        occurs_at(s, pats[k], start),
        forall|j: int|
            0 <= j < n && #[trigger] occurs_at(s, pats[j], start) ==> pats[j].len() < pats[k].len() || (
            pats[j].len() == pats[k].len() && k <= j),
    decreases n,
{
    if exists|j: int| 0 <= j < n - 1 && #[trigger] occurs_at(s, pats[j], start) {
        let k = lemma_longest_of_prefix(pats, s, start, n - 1);
        if occurs_at(s, pats[n - 1], start) && pats[n - 1].len() > pats[k].len() {
            n - 1
        } else {
            k
        }
    } else {
        n - 1
    }
}

/// Where a pattern stands there is a match.
pub proof fn lemma_match_exists(pats: Seq<Seq<u8>>, s: Seq<u8>, from: int, p: int, j: int)
    requires
        from <= p,
        0 <= j < pats.len(),
        occurs_at(s, pats[j], p),
    ensures
        exists|start: int, k: int| is_longest_match(pats, s, from, start, k),
    decreases p - from,
{
    if exists|i: int, q: int| 0 <= i < pats.len() && from <= q < p && #[trigger] occurs_at(s, pats[i], q) {
        let (i, q) = choose|i: int, q: int|
            0 <= i < pats.len() && from <= q < p && #[trigger] occurs_at(s, pats[i], q);
        lemma_match_exists(pats, s, from, q, i);
    } else {
        let k = lemma_longest_of_prefix(pats, s, p, pats.len() as int);
        assert(is_longest_match(pats, s, from, p, k));
    }
}

/// `aho_corasick::AhoCorasick`: an automaton over a list of patterns.
#[verifier::external_type_specification]
#[verifier::external_body]
pub struct ExAhoCorasick(aho_corasick::AhoCorasick);

/// The patterns that an automaton was built from, when it was built to find
/// the leftmost, longest of them; `None` for automata of other kinds.
pub uninterp spec fn automaton_patterns(m: aho_corasick::AhoCorasick) -> Option<Seq<Seq<u8>>>;

/// `aho_corasick::AhoCorasickBuilder::build` with
/// `MatchKind::LeftmostLongest`: an automaton over the patterns, or `None`
/// when it would not fit its 32-bit state numbers.
#[verifier::external_body]
fn build_automaton(pats: &Vec<Vec<u8>>) -> (r: Option<aho_corasick::AhoCorasick>)
    ensures
        r matches Some(m) ==> automaton_patterns(m) == Some(contents(pats@)),
{
    aho_corasick::AhoCorasick::builder()
        .match_kind(aho_corasick::MatchKind::LeftmostLongest)
        .build(pats)
        .ok()
}

/// `aho_corasick::AhoCorasick::find` from `from` on, with an automaton for the
/// leftmost, longest match: the leftmost occurrence, of those the longest, and
/// of equal patterns the one listed first; as the start and the pattern.
#[verifier::external_body]
fn automaton_find(m: &aho_corasick::AhoCorasick, bytes: &[u8], from: usize) -> (r: Option<
    (usize, usize),
>)
    requires
        from <= bytes@.len(),
        automaton_patterns(*m) is Some,
    ensures
        match r {
            Some((start, k)) => is_longest_match(
                automaton_patterns(*m)->0,
                bytes@,
                from as int,
                start as int,
                k as int,
            ),
            None => forall|j: int, p: int|
                0 <= j < automaton_patterns(*m)->0.len() && from <= p <= bytes@.len()
                    ==> !#[trigger] occurs_at(bytes@, automaton_patterns(*m)->0[j], p),
        },
{
    m.find(aho_corasick::Input::new(bytes).range(from..)).map(
        |m| (m.start(), m.pattern().as_usize()),
    )
}

/// Finds added tokens in text.
pub struct AddedMatcher {
    pats: Vec<Vec<u8>>,
    automaton: Option<aho_corasick::AhoCorasick>,
}

impl AddedMatcher {
    /// The patterns searched for.
    pub closed spec fn view(&self) -> Seq<Seq<u8>> {
        contents(self.pats@)
    }

    #[verifier::type_invariant]
    spec fn wf(&self) -> bool {
        self.automaton matches Some(m) ==> automaton_patterns(m) == Some(contents(self.pats@))
    }

    /// A matcher over the contents of `tokens`.
    pub fn new(tokens: &Vec<AddedTokenDef>) -> (m: Self)
        ensures
            m@ == patterns(added_views(tokens@)),
    {
        let mut pats: Vec<Vec<u8>> = Vec::new();
        let mut i: usize = 0;
        while i < tokens.len()
            invariant
                i <= tokens@.len(),
                pats@.len() == i,
                forall|j: int| 0 <= j < i ==> (#[trigger] pats@[j])@ == tokens@[j].content@,
            decreases tokens@.len() - i,
        {
            pats.push(copy_bytes(tokens[i].content.as_slice()));
            i += 1;
        }
        let automaton = if pats.len() == 0 {
            None
        } else {
            build_automaton(&pats)
        };
        proof {
            assert(contents(pats@) =~= patterns(added_views(tokens@)));
        }
        AddedMatcher { pats, automaton }
    }

    /// The pattern to take at one position.
    fn longest_at(&self, bytes: &[u8], p: usize) -> (r: Option<usize>)
        requires
            p <= bytes@.len(),
        ensures
            match r {
                Some(k) => k < self@.len() && occurs_at(bytes@, self@[k as int], p as int)
                    && forall|j: int|
                    0 <= j < self@.len() && #[trigger] occurs_at(bytes@, self@[j], p as int) ==> self@[j].len()
                        < self@[k as int].len() || (self@[j].len() == self@[k as int].len() && k <= j),
                None => forall|j: int|
                    0 <= j < self@.len() ==> !#[trigger] occurs_at(bytes@, self@[j], p as int),
            },
    {
        let mut best: Option<usize> = None;
        let mut j: usize = 0;
        while j < self.pats.len()
            invariant
                j <= self.pats@.len(),
                p <= bytes@.len(),
                match best {
                    Some(k) => k < j && occurs_at(bytes@, self@[k as int], p as int) && forall|i: int|
                        0 <= i < j && #[trigger] occurs_at(bytes@, self@[i], p as int) ==> self@[i].len()
                            < self@[k as int].len() || (self@[i].len() == self@[k as int].len() && k <= i),
                    None => forall|i: int|
                        0 <= i < j ==> !#[trigger] occurs_at(bytes@, self@[i], p as int),
                },
            decreases self.pats@.len() - j,
        {
            assert(self@[j as int] == self.pats@[j as int]@);
            if stands_at(bytes, self.pats[j].as_slice(), p) {
                match best {
                    None => {
                        best = Some(j);
                    },
                    Some(k) => {
                        assert(self@[k as int] == self.pats@[k as int]@);
                        if self.pats[j].len() > self.pats[k].len() {
                            best = Some(j);
                        }
                    },
                }
            }
            j += 1;
        }
        best
    }

    /// The leftmost, longest occurrence at or after `from`, as the start and
    /// the pattern.
    pub fn find(&self, bytes: &[u8], from: usize) -> (r: Option<(usize, usize)>)
        requires
            from <= bytes@.len(),
        ensures
            r == (match longest_match(self@, bytes@, from as int) {
                Some((start, k)) => Some((start as usize, k as usize)),
                None => None,
            }),
            r matches Some((start, k)) ==> is_longest_match(
                self@,
                bytes@,
                from as int,
                start as int,
                k as int,
            ),
    {
        proof {
            use_type_invariant(self);
        }
        match &self.automaton {
            Some(m) => {
                let r = automaton_find(m, bytes, from);
                proof {
                    assert(automaton_patterns(*m)->0 == self@);
                    match r {
                        Some((start, k)) => {
                            lemma_match_unique(self@, bytes@, from as int, start as int, k as int);
                        },
                        None => {
                            lemma_match_none(self@, bytes@, from as int);
                        },
                    }
                }
                r
            },
            None => {
                let mut p: usize = from;
                while p <= bytes.len()
                    invariant
                        from <= p,
                        p <= bytes@.len() + 1,
                        forall|j: int, q: int|
                            0 <= j < self@.len() && from <= q < p ==> !#[trigger] occurs_at(bytes@, self@[j], q),
                    decreases bytes@.len() + 1 - p,
                {
                    match self.longest_at(bytes, p) {
                        Some(k) => {
                            proof {
                                lemma_match_unique(self@, bytes@, from as int, p as int, k as int);
                            }
                            return Some((p, k));
                        },
                        None => {},
                    }
                    if p == bytes.len() {
                        proof {
                            lemma_match_none(self@, bytes@, from as int);
                        }
                        return None;
                    }
                    p += 1;
                }
                proof {
                    lemma_match_none(self@, bytes@, from as int);
                }
                None
            },
        }
    }
}

} // verus!
