//! A tokenizer that mirrors SentencePiece BPE with byte fallback.
use crate::bpe::added::{
    added_views, longest_match, patterns, AddedMatcher, AddedToken, AddedTokenDef,
};
use crate::bpe::bytes::contents;
use crate::bpe::listing::{
    is_merge_order, listed_contents, parts_in_vocab, ranked_merge_entries, ranks_of, spells_merges,
    vocab_entries, vocab_listing,
};
use crate::bpe::merge::bpe_merge_symbols_ranked;
use crate::bpe::tiktoken::{all_nonempty, DEFAULT_MAX_CACHE_BYTES};
use crate::search::{bytes_equal, copy_bytes};
use crate::sp::cuts::{
    crossing_pieces, mark_len, mark_width, unit_key, unit_tokens, units_keys, units_tokens, CutRules,
    CutView,
};
use crate::sp::normalize::{
    append_bytes, apply_metaspace, apply_norm_ops, metaspaced, norm_steps, replace_all, replaced,
    step_views, Metaspace, NormOp, NormStep, PrependScheme,
};
use crate::sp::spread::{split_spread, spread_pieces};
use crate::sp::state::{
    growing_limit, is_settled, largest_grows, lemma_units_cached_add, state_keeps, units_cached,
    EncodeState, StateView,
};
use crate::sp::symbols::{init_from, init_symbols, sp_mark, SpTables, SpView, SpeedTables};
use crate::text::{spaces_end, spaces_start, trim_ws_end, trim_ws_start};
use crate::token::TokenId;
use vstd::prelude::*;
use vstd::utf8::{encode_utf8, encode_utf8_valid_utf8, valid_utf8};

verus! {

/// How text divides into units that are encoded and cached on their own.
#[derive(Clone, Copy, Debug, PartialEq, Eq, Structural)]
pub enum WordSplit {
    /// A unit starts at each mark that follows another character.
    SpaceRuns,
    /// A unit starts at every mark.
    EveryMark,
    /// Some piece spans marks in too complex a way; whole chunks are merged.
    Whole,
}

/// How the marker is put before a chunk of raw text.
#[derive(Clone, Copy, Debug, PartialEq, Eq, Structural)]
pub enum RawPrepend {
    Never,
    /// Always.
    Unguarded,
    /// Unless the chunk starts with a mark.
    GuardedAlways,
    /// Like `GuardedAlways`, before the first chunk of the input only.
    GuardedFirst,
}

/// The place of a section in its document.
#[derive(Clone, Copy, Debug, PartialEq, Eq, Structural)]
pub enum SectionPos {
    /// The very start of the document.
    First,
    /// After an added token.
    Middle,
    /// Goes on with a section that an earlier fragment began.
    Continuation,
}

/// An added token: what to find in the text, its ID, and whether it consumes
/// the white space before and after it.
pub struct AddedTokenSpec {
    pub content: String,
    pub id: TokenId,
    pub lstrip: bool,
    pub rstrip: bool,
}

impl AddedTokenSpec {
    /// The value of the token.
    pub open spec fn view(&self) -> AddedToken {
        AddedToken {
            content: encode_utf8(self.content@),
            id: self.id,
            lstrip: self.lstrip,
            rstrip: self.rstrip,
        }
    }
}

/// The values of a list of tokens.
pub open spec fn spec_views(v: Seq<AddedTokenSpec>) -> Seq<AddedToken> {
    v.map_values(|t: AddedTokenSpec| t@)
}

/// The tokens whose content is not empty.
pub open spec fn with_content(v: Seq<AddedToken>) -> Seq<AddedToken>
    decreases v.len(),
{
    if v.len() == 0 {
        Seq::empty()
    } else if v.last().content.len() == 0 {
        with_content(v.drop_last())
    } else {
        with_content(v.drop_last()).push(v.last())
    }
}

/// The content of every token is text.
pub open spec fn all_text(v: Seq<AddedToken>) -> bool {
    forall|k: int| 0 <= k < v.len() ==> valid_utf8((#[trigger] v[k]).content)
}

/// The first token that has no content.
pub open spec fn first_empty(v: Seq<AddedToken>) -> Option<AddedToken>
    decreases v.len(),
{
    if v.len() == 0 {
        None
    } else {
        match first_empty(v.drop_last()) {
            Some(t) => Some(t),
            None => if v.last().content.len() == 0 {
                Some(v.last())
            } else {
                None
            },
        }
    }
}

/// The tokens with their content normalized.
pub open spec fn normalized_specs(ops: Seq<NormStep>, v: Seq<AddedToken>) -> Seq<AddedToken> {
    v.map_values(|t: AddedToken| AddedToken { content: norm_steps(ops, t.content), ..t })
}

/// Everything that decides what a model emits.
pub struct SpModel {
    pub tables: SpView,
    pub added: Seq<AddedToken>,
    /// The added token without content, which stands between all bytes of raw
    /// text.
    pub between: Option<AddedToken>,
    pub norm_added: Seq<AddedToken>,
    pub steps: Seq<NormStep>,
    pub metaspace: Option<Metaspace>,
}

/// How a model divides text.
pub open spec fn word_split_of(m: SpModel) -> WordSplit {
    if m.metaspace matches Some(ms) && ms.split {
        WordSplit::EveryMark
    } else if crossing_pieces(m.tables.vocab) is Some {
        WordSplit::SpaceRuns
    } else {
        WordSplit::Whole
    }
}

/// How a model cuts units.
pub open spec fn cuts_of(m: SpModel) -> CutView {
    CutView {
        every_mark: word_split_of(m) == WordSplit::EveryMark,
        cross: if word_split_of(m) == WordSplit::SpaceRuns {
            crossing_pieces(m.tables.vocab)->0
        } else {
            Seq::empty()
        },
        vocab: m.tables.vocab,
    }
}

/// A step that replaces each space by the marker.
pub open spec fn is_space_replace(op: NormStep) -> bool {
    op matches NormStep::Replace(p, c) && p == seq![0x20u8] && c == sp_mark()
}

/// A step that puts the marker before a chunk.
pub open spec fn is_mark_prepend(op: NormStep) -> bool {
    op matches NormStep::Prepend(p) && p == sp_mark()
}

/// How a model with these settings puts the marker before raw text, if the
/// normalizer does nothing but that and replacing spaces.
pub open spec fn raw_prepend_of(m: SpModel) -> Option<RawPrepend> {
    let scheme = match m.metaspace {
        None => RawPrepend::Never,
        Some(ms) => match ms.prepend {
            PrependScheme::Never => RawPrepend::Never,
            PrependScheme::Always => RawPrepend::GuardedAlways,
            PrependScheme::First => RawPrepend::GuardedFirst,
        },
    };
    if word_split_of(m) == WordSplit::Whole || m.norm_added.len() > 0 {
        None
    } else if m.steps.len() == 2 && is_mark_prepend(m.steps[0]) && is_space_replace(m.steps[1]) {
        if word_split_of(m) == WordSplit::EveryMark {
            None
        } else {
            Some(RawPrepend::Unguarded)
        }
    } else if m.steps.len() == 1 && is_space_replace(m.steps[0]) {
        Some(scheme)
    } else if m.steps.len() == 0 && m.metaspace is Some {
        Some(scheme)
    } else {
        None
    }
}

/// The first unit of a section gets the marker.
pub open spec fn raw_prefixed(p: RawPrepend, pos: SectionPos, s: Seq<u8>) -> bool {
    if pos == SectionPos::Continuation {
        false
    } else {
        match p {
            RawPrepend::Unguarded => true,
            RawPrepend::GuardedAlways => mark_len(s, 0, true) == 0,
            RawPrepend::GuardedFirst => pos == SectionPos::First && mark_len(s, 0, true) == 0,
            RawPrepend::Never => false,
        }
    }
}

/// A model puts a mark before ordinary text, by the marking of spaces or by a
/// normalizer step.
pub open spec fn puts_marks(m: SpModel) -> bool {
    (m.metaspace matches Some(ms) && ms.prepend != PrependScheme::Never) || exists|i: int|
        0 <= i < m.steps.len() && (#[trigger] m.steps[i]) is Prepend
}

/// The tokens of normalized text.
pub open spec fn normalized_tokens(m: SpModel, s: Seq<u8>) -> Seq<TokenId> {
    if word_split_of(m) == WordSplit::Whole {
        unit_tokens(m.tables, s, false)
    } else {
        units_tokens(m.tables, cuts_of(m), s, 0, false, false)
    }
}

/// One piece of a text split at added tokens: a section, or a token.
#[derive(Clone, Copy, Debug, PartialEq, Eq, Structural)]
pub enum Piece {
    Section(usize, usize),
    Token(TokenId),
}

/// Where the section before an added token ends.
pub open spec fn section_end(tok: AddedToken, s: Seq<u8>, from: int, start: int) -> int {
    if tok.lstrip {
        from + spaces_start(s.subrange(from, start), start - from)
    } else {
        start
    }
}

/// Where the text goes on after an added token that ends at `end`.
pub open spec fn section_next(tok: AddedToken, s: Seq<u8>, end: int) -> int {
    if tok.rstrip {
        end + spaces_end(s.skip(end), 0)
    } else {
        end
    }
}

/// A section, if it is not empty.
pub open spec fn section_piece(a: int, b: int) -> Seq<Piece> {
    if a < b {
        seq![Piece::Section(a as usize, b as usize)]
    } else {
        Seq::empty()
    }
}

/// The pieces of a text from `chunk` on, with added tokens found from `from`
/// on. A token that starts inside white space that the one before consumed is
/// dropped.
pub open spec fn added_pieces(toks: Seq<AddedToken>, s: Seq<u8>, from: int, chunk: int) -> Seq<Piece>
    decreases s.len() - from,
{
    match longest_match(patterns(toks), s, from) {
        None => section_piece(chunk, s.len() as int),
        Some((start, k)) => {
            let tok = toks[k];
            let end = start + tok.content.len();
            if !(from < end <= s.len()) {
                Seq::empty()
            } else if start < chunk {
                added_pieces(toks, s, end, chunk)
            } else {
                section_piece(chunk, section_end(tok, s, chunk, start)) + seq![Piece::Token(tok.id)]
                    + added_pieces(toks, s, end, section_next(tok, s, end))
            }
        },
    }
}

/// Where a fragment of a document starts.
pub open spec fn fragment_pos(first: bool) -> SectionPos {
    if first {
        SectionPos::First
    } else {
        SectionPos::Continuation
    }
}

/// Splits a text around added tokens.
pub fn split_added(specs: &Vec<AddedTokenDef>, matcher: &AddedMatcher, text: &[u8]) -> (r: Vec<Piece>)
    requires
        matcher@ == patterns(added_views(specs@)),
        all_nonempty(added_views(specs@)),
    ensures
        r@ == added_pieces(added_views(specs@), text@, 0, 0),
        forall|i: int|
            0 <= i < r@.len() ==> ((#[trigger] r@[i]) matches Piece::Section(a, b) ==> a < b <= text@.len()),
{
    let ghost toks = added_views(specs@);
    let ghost s = text@;
    let mut out: Vec<Piece> = Vec::new();
    let mut from: usize = 0;
    let mut chunk: usize = 0;
    let total: usize = text.len();
    let mut more = true;
    proof {
        assert(out@ + added_pieces(toks, s, 0, 0) =~= added_pieces(toks, s, 0, 0));
    }
    while more
        invariant
            s == text@,
            total == s.len(),
            toks == added_views(specs@),
            matcher@ == patterns(toks),
            all_nonempty(toks),
            from <= total,
            chunk <= total,
            more ==> out@ + added_pieces(toks, s, from as int, chunk as int) == added_pieces(
                toks,
                s,
                0,
                0,
            ),
            !more ==> out@ == added_pieces(toks, s, 0, 0),
            forall|i: int|
                0 <= i < out@.len() ==> ((#[trigger] out@[i]) matches Piece::Section(a, b) ==> a < b
                    <= total),
        decreases total - from, if more { 1int } else { 0int },
    {
        let ghost before = out@;
        match matcher.find(text, from) {
            None => {
                if chunk < total {
                    out.push(Piece::Section(chunk, total));
                    proof {
                        assert(out@ =~= before + section_piece(chunk as int, total as int));
                    }
                } else {
                    proof {
                        assert(before + section_piece(chunk as int, total as int) =~= out@);
                    }
                }
                more = false;
            },
            Some((start, k)) => {
                let ghost tok = toks[k as int];
                proof {
                    assert(tok == specs@[k as int]@);
                    assert(patterns(toks)[k as int] == tok.content);
                }
                let end: usize = start + specs[k].content.len();
                if start < chunk {
                    from = end;
                } else {
                    let mut stop: usize = start;
                    if specs[k].lstrip {
                        let head = vstd::slice::slice_subrange(text, chunk, start);
                        stop = chunk + trim_ws_end(head);
                    }
                    if chunk < stop {
                        out.push(Piece::Section(chunk, stop));
                    }
                    proof {
                        assert(out@ =~= before + section_piece(chunk as int, stop as int));
                    }
                    out.push(Piece::Token(specs[k].id));
                    let mut next: usize = end;
                    if specs[k].rstrip {
                        let tail = vstd::slice::slice_subrange(text, end, total);
                        proof {
                            assert(tail@ =~= s.skip(end as int));
                        }
                        next = end + trim_ws_start(tail);
                    }
                    proof {
                        let rest = added_pieces(toks, s, end as int, next as int);
                        assert(out@ + rest =~= before + (section_piece(chunk as int, stop as int)
                            + seq![Piece::Token(tok.id)] + rest));
                    }
                    from = end;
                    chunk = next;
                }
            },
        }
    }
    out
}

/// The tokens of one normalized piece list; `first` says whether no token was
/// seen yet.
pub open spec fn norm_piece_tokens(m: SpModel, s: Seq<u8>, pieces: Seq<Piece>, first: bool) -> Seq<
    TokenId,
>
    decreases pieces.len(),
{
    if pieces.len() == 0 {
        Seq::empty()
    } else {
        norm_piece_tokens(m, s, pieces.drop_last(), first) + match pieces.last() {
            Piece::Token(id) => seq![id],
            Piece::Section(a, b) => normalized_tokens(
                m,
                metaspaced(
                    m.metaspace,
                    s.subrange(a as int, b as int),
                    first && !has_token(pieces.drop_last()),
                ),
            ),
        }
    }
}

/// A token is among the pieces.
pub open spec fn has_token(pieces: Seq<Piece>) -> bool {
    exists|i: int| 0 <= i < pieces.len() && (#[trigger] pieces[i]) is Token
}

/// The tokens of one section of raw text.
pub open spec fn section_tokens(m: SpModel, s: Seq<u8>, pos: SectionPos) -> Seq<TokenId> {
    match raw_prepend_of(m) {
        Some(p) => if s.len() == 0 {
            Seq::empty()
        } else {
            units_tokens(m.tables, cuts_of(m), s, 0, true, raw_prefixed(p, pos, s))
        },
        None => {
            let normed = norm_steps(m.steps, s);
            let first = pos == SectionPos::First;
            if m.norm_added.len() == 0 {
                normalized_tokens(m, metaspaced(m.metaspace, normed, first))
            } else {
                norm_piece_tokens(m, normed, added_pieces(m.norm_added, normed, 0, 0), first)
            }
        },
    }
}

/// The tokens of a list of pieces of raw text that starts at `pos`.
pub open spec fn piece_tokens(m: SpModel, s: Seq<u8>, pieces: Seq<Piece>, pos: SectionPos) -> Seq<
    TokenId,
>
    decreases pieces.len(),
{
    if pieces.len() == 0 {
        Seq::empty()
    } else {
        piece_tokens(m, s, pieces.drop_last(), pos) + match pieces.last() {
            Piece::Token(id) => seq![id],
            Piece::Section(a, b) => section_tokens(
                m,
                s.subrange(a as int, b as int),
                if has_token(pieces.drop_last()) {
                    SectionPos::Middle
                } else {
                    pos
                },
            ),
        }
    }
}

/// Raw text split at added tokens.
pub open spec fn raw_pieces(m: SpModel, s: Seq<u8>) -> Seq<Piece> {
    match m.between {
        Some(gap) => spread_pieces(m.added, gap, s, 0, 0, false),
        None => added_pieces(m.added, s, 0, 0),
    }
}

/// The tokens of raw text.
pub open spec fn raw_tokens(m: SpModel, s: Seq<u8>, pos: SectionPos) -> Seq<TokenId> {
    if m.added.len() == 0 && m.between is None {
        section_tokens(m, s, pos)
    } else {
        piece_tokens(m, s, raw_pieces(m, s), pos)
    }
}

/// The units of normalized text that are cached: none where text is merged as a
/// whole.
pub open spec fn normalized_units(m: SpModel, s: Seq<u8>) -> Seq<Seq<u8>> {
    if word_split_of(m) == WordSplit::Whole {
        Seq::empty()
    } else {
        units_keys(cuts_of(m), s, 0, false, false)
    }
}

/// The units of one normalized piece list.
pub open spec fn norm_piece_units(m: SpModel, s: Seq<u8>, pieces: Seq<Piece>, first: bool) -> Seq<
    Seq<u8>,
>
    decreases pieces.len(),
{
    if pieces.len() == 0 {
        Seq::empty()
    } else {
        norm_piece_units(m, s, pieces.drop_last(), first) + match pieces.last() {
            Piece::Token(_) => Seq::empty(),
            Piece::Section(a, b) => normalized_units(
                m,
                metaspaced(
                    m.metaspace,
                    s.subrange(a as int, b as int),
                    first && !has_token(pieces.drop_last()),
                ),
            ),
        }
    }
}

/// Units are of raw text, not of normalized text.
pub open spec fn raw_mode(m: SpModel) -> bool {
    raw_prepend_of(m) is Some
}

/// The units of one section of raw text.
pub open spec fn section_units(m: SpModel, s: Seq<u8>, pos: SectionPos) -> Seq<Seq<u8>> {
    match raw_prepend_of(m) {
        Some(p) => if s.len() == 0 {
            Seq::empty()
        } else {
            units_keys(cuts_of(m), s, 0, true, raw_prefixed(p, pos, s))
        },
        None => {
            let normed = norm_steps(m.steps, s);
            let first = pos == SectionPos::First;
            if m.norm_added.len() == 0 {
                normalized_units(m, metaspaced(m.metaspace, normed, first))
            } else {
                norm_piece_units(m, normed, added_pieces(m.norm_added, normed, 0, 0), first)
            }
        },
    }
}

/// The units of a list of pieces of raw text that starts at `pos`.
pub open spec fn piece_units(m: SpModel, s: Seq<u8>, pieces: Seq<Piece>, pos: SectionPos) -> Seq<
    Seq<u8>,
>
    decreases pieces.len(),
{
    if pieces.len() == 0 {
        Seq::empty()
    } else {
        piece_units(m, s, pieces.drop_last(), pos) + match pieces.last() {
            Piece::Token(_) => Seq::empty(),
            Piece::Section(a, b) => section_units(
                m,
                s.subrange(a as int, b as int),
                if has_token(pieces.drop_last()) {
                    SectionPos::Middle
                } else {
                    pos
                },
            ),
        }
    }
}

/// The units of raw text.
pub open spec fn raw_units(m: SpModel, s: Seq<u8>, pos: SectionPos) -> Seq<Seq<u8>> {
    if m.added.len() == 0 && m.between is None {
        section_units(m, s, pos)
    } else {
        piece_units(m, s, raw_pieces(m, s), pos)
    }
}

/// Without a limit, nothing that was cached is dropped, and the units are
/// cached.
pub open spec fn remembered(a: StateView, b: StateView, v: SpView, units: Seq<Seq<u8>>) -> bool {
    a.budget == usize::MAX ==> state_keeps(a, b) && units_cached(b, v, units)
}

/// A SentencePiece-style model. It is immutable but for its cache budget; an
/// encoder has the caches.
pub struct SentencePieceBPE {
    tables: SpTables,
    speed: SpeedTables,
    cuts: Option<CutRules>,
    added_tokens: Vec<AddedTokenDef>,
    added_matcher: AddedMatcher,
    between: Option<AddedTokenDef>,
    norm_added_tokens: Vec<AddedTokenDef>,
    norm_matcher: AddedMatcher,
    norm_ops: Vec<NormOp>,
    metaspace: Option<Metaspace>,
    raw_prepend: Option<RawPrepend>,
    max_cache_bytes: Option<usize>,
}

/// The tokens that have content.
fn defs_of(specs: &Vec<AddedTokenSpec>, ops: Option<&Vec<NormOp>>) -> (r: Vec<AddedTokenDef>)
    ensures
        added_views(r@) == with_content(
            match ops {
                Some(o) => normalized_specs(step_views(o@), spec_views(specs@)),
                None => spec_views(specs@),
            },
        ),
        all_nonempty(added_views(r@)),
        ops is None ==> all_text(added_views(r@)),
{
    let ghost all = match ops {
        Some(o) => normalized_specs(step_views(o@), spec_views(specs@)),
        None => spec_views(specs@),
    };
    let mut r: Vec<AddedTokenDef> = Vec::new();
    let mut i: usize = 0;
    proof {
        assert(all.take(0) =~= Seq::<AddedToken>::empty());
        assert(added_views(r@) =~= with_content(all.take(0)));
    }
    while i < specs.len()
        invariant
            i <= specs@.len(),
            all.len() == specs@.len(),
            all == (match ops {
                Some(o) => normalized_specs(step_views(o@), spec_views(specs@)),
                None => spec_views(specs@),
            }),
            added_views(r@) == with_content(all.take(i as int)),
            all_nonempty(added_views(r@)),
            ops is None ==> all_text(added_views(r@)),
        decreases specs@.len() - i,
    {
        let content: Vec<u8> = match ops {
            Some(o) => apply_norm_ops(o, specs[i].content.as_str().as_bytes()),
            None => copy_bytes(specs[i].content.as_str().as_bytes()),
        };
        proof {
            assert(all.take(i + 1).drop_last() =~= all.take(i as int));
            assert(spec_views(specs@)[i as int] == specs@[i as int]@);
            assert(all[i as int].content == content@);
        }
        if content.len() > 0 {
            let ghost before = r@;
            r.push(
                AddedTokenDef {
                    content,
                    id: specs[i].id,
                    lstrip: specs[i].lstrip,
                    rstrip: specs[i].rstrip,
                },
            );
            proof {
                assert(added_views(r@) =~= added_views(before).push(all[i as int]));
                encode_utf8_valid_utf8(specs@[i as int].content@);
            }
        }
        i += 1;
    }
    proof {
        assert(all.take(i as int) =~= all);
    }
    r
}

/// The first token that has no content.
fn empty_def(specs: &Vec<AddedTokenSpec>) -> (r: Option<AddedTokenDef>)
    ensures
        first_empty(spec_views(specs@)) == (match r {
            Some(t) => Some(t@),
            None => None,
        }),
{
    let ghost all = spec_views(specs@);
    let mut r: Option<AddedTokenDef> = None;
    let mut i: usize = 0;
    proof {
        assert(all.take(0) =~= Seq::<AddedToken>::empty());
    }
    while i < specs.len()
        invariant
            i <= specs@.len(),
            all == spec_views(specs@),
            first_empty(all.take(i as int)) == (match r {
                Some(t) => Some(t@),
                None => None,
            }),
        decreases specs@.len() - i,
    {
        let content: Vec<u8> = copy_bytes(specs[i].content.as_str().as_bytes());
        proof {
            assert(all.take(i + 1).drop_last() =~= all.take(i as int));
            assert(all[i as int] == specs@[i as int]@);
        }
        if r.is_none() && content.len() == 0 {
            let def = AddedTokenDef {
                content,
                id: specs[i].id,
                lstrip: specs[i].lstrip,
                rstrip: specs[i].rstrip,
            };
            r = Some(def);
        }
        i += 1;
    }
    proof {
        assert(all.take(i as int) =~= all);
    }
    r
}

impl SentencePieceBPE {
    /// Everything that decides what the model emits.
    pub closed spec fn view(&self) -> SpModel {
        SpModel {
            tables: self.tables@,
            added: added_views(self.added_tokens@),
            between: match self.between {
                Some(t) => Some(t@),
                None => None,
            },
            norm_added: added_views(self.norm_added_tokens@),
            steps: step_views(self.norm_ops@),
            metaspace: self.metaspace,
        }
    }

    /// The cache budget of new encoders.
    pub closed spec fn budget(&self) -> Option<usize> {
        self.max_cache_bytes
    }

    #[verifier::type_invariant]
    spec fn wf(&self) -> bool {
        &&& self.tables.wf()
        &&& self.speed.wf(self.tables@)
        &&& match self.cuts {
            Some(c) => c.wf() && c@ == cuts_of(self@) && word_split_of(self@) != WordSplit::Whole,
            None => word_split_of(self@) == WordSplit::Whole,
        }
        &&& self.added_matcher@ == patterns(self@.added)
        &&& all_nonempty(self@.added)
        &&& all_text(self@.added)
        &&& self.norm_matcher@ == patterns(self@.norm_added)
        &&& all_nonempty(self@.norm_added)
        &&& self.raw_prepend == raw_prepend_of(self@)
    }

    /// Assembles a model from its tables. The content of `norm_added_tokens` is
    /// given raw and normalized here. Of `added_tokens` without content the first
    /// counts, of `norm_added_tokens` none.
    pub fn new(
        tables: SpTables,
        added_tokens: Vec<AddedTokenSpec>,
        norm_added_tokens: Vec<AddedTokenSpec>,
        norm_ops: Vec<NormOp>,
        metaspace: Option<Metaspace>,
    ) -> (m: Self)
        requires
            tables.wf(),
        ensures
            m@ == (SpModel {
                tables: tables@,
                added: with_content(spec_views(added_tokens@)),
                between: first_empty(spec_views(added_tokens@)),
                norm_added: with_content(
                    normalized_specs(step_views(norm_ops@), spec_views(norm_added_tokens@)),
                ),
                steps: step_views(norm_ops@),
                metaspace,
            }),
            m.merge_ranks() == ranks_of(tables.merges@),
            m.budget() == Some(DEFAULT_MAX_CACHE_BYTES),
    {
        let added = defs_of(&added_tokens, None);
        let between = empty_def(&added_tokens);
        let norm_added = defs_of(&norm_added_tokens, Some(&norm_ops));
        let added_matcher = AddedMatcher::new(&added);
        let norm_matcher = AddedMatcher::new(&norm_added);
        let speed = SpeedTables::new(&tables);
        let split = match &metaspace {
            Some(ms) => ms.split,
            None => false,
        };
        let cuts = CutRules::new(&tables.vocab, split);
        let ghost model = SpModel {
            tables: tables@,
            added: added_views(added@),
            between: first_empty(spec_views(added_tokens@)),
            norm_added: added_views(norm_added@),
            steps: step_views(norm_ops@),
            metaspace,
        };
        let kind = if split {
            WordSplit::EveryMark
        } else if cuts.is_some() {
            WordSplit::SpaceRuns
        } else {
            WordSplit::Whole
        };
        proof {
            assert(kind == word_split_of(model));
            if cuts is Some {
                assert(cuts->0@ == cuts_of(model));
            }
        }
        let raw_prepend = compute_raw_prepend(
            kind,
            norm_added.len() > 0,
            &norm_ops,
            &metaspace,
            Ghost(model),
        );
        SentencePieceBPE {
            tables,
            speed,
            cuts,
            added_tokens: added,
            added_matcher,
            between,
            norm_added_tokens: norm_added,
            norm_matcher,
            norm_ops,
            metaspace,
            raw_prepend,
            max_cache_bytes: Some(DEFAULT_MAX_CACHE_BYTES),
        }
    }

    /// How raw text gets the marker; `None` where text is normalized first.
    pub fn raw_prepend_kind(&self) -> (r: Option<RawPrepend>)
        ensures
            r == raw_prepend_of(self@),
            all_nonempty(self@.added),
            all_text(self@.added),
    {
        proof {
            use_type_invariant(self);
        }
        self.raw_prepend
    }

    /// The added tokens that are found in raw text.
    pub(crate) fn added_defs(&self) -> (r: &Vec<AddedTokenDef>)
        ensures
            added_views(r@) == self@.added,
            all_nonempty(self@.added),
    {
        proof {
            use_type_invariant(self);
        }
        &self.added_tokens
    }

    /// How units are cut; `None` where whole chunks are merged.
    pub fn cut_rules(&self) -> (r: Option<&CutRules>)
        ensures
            match r {
                Some(c) => c.wf() && c@ == cuts_of(self@),
                None => word_split_of(self@) == WordSplit::Whole,
            },
    {
        proof {
            use_type_invariant(self);
        }
        self.cuts.as_ref()
    }

    /// A chunk after the normalizer steps and the marking of spaces.
    pub fn normalize(&self, input: &str, first_chunk: bool) -> (r: Vec<u8>)
        ensures
            r@ == metaspaced(
                self@.metaspace,
                norm_steps(self@.steps, encode_utf8(input@)),
                first_chunk,
            ),
    {
        let normed = apply_norm_ops(&self.norm_ops, input.as_bytes());
        apply_metaspace(&self.metaspace, normed.as_slice(), first_chunk)
    }

    /// Encodes one unit through the caches and appends its tokens.
    fn encode_unit(&self, state: &mut EncodeState, key: &[u8], raw: bool, out: &mut Vec<TokenId>)
        requires
            old(state).wf(),
            old(state).hold(self@.tables),
            old(state).mode() == raw,
        ensures
            final(state).wf(),
            final(state).hold(self@.tables),
            final(state).mode() == raw,
            final(state).limit() == old(state).limit(),
            largest_grows(old(state)@, final(state)@, final(out)@.len() - old(out)@.len()),
            final(state)@.budget == old(state)@.budget,
            remembered(old(state)@, final(state)@, self@.tables, seq![key@]),
            final(out)@ == old(out)@ + unit_tokens(self@.tables, key@, raw),
    {
        proof {
            use_type_invariant(self);
        }
        if state.emit(key, out, Ghost(self@.tables)) {
            return;
        }
        let mut symbols: Vec<TokenId> = Vec::new();
        init_symbols(&self.tables, &self.speed, key, raw, &mut symbols);
        proof {
            assert(symbols@ =~= init_from(self@.tables, key@, 0, raw));
        }
        bpe_merge_symbols_ranked(&self.tables.merges, &mut symbols);
        state.record(key, symbols.as_slice(), Ghost(self@.tables));
        crate::bpe::cache_value::append_tokens(out, symbols.as_slice());
    }

    /// Splits a chunk into units and appends the tokens of each.
    fn encode_units(
        &self,
        cuts: &CutRules,
        state: &mut EncodeState,
        bytes: &[u8],
        raw: bool,
        prefixed: bool,
        out: &mut Vec<TokenId>,
    )
        requires
            old(state).wf(),
            old(state).hold(self@.tables),
            cuts.wf(),
            old(state)@.raw == raw,
        ensures
            final(state).wf(),
            final(state).hold(self@.tables),
            final(state).limit() == old(state).limit(),
            largest_grows(old(state)@, final(state)@, final(out)@.len() - old(out)@.len()),
            final(state)@.raw == raw,
            final(state)@.budget == old(state)@.budget,
            remembered(
                old(state)@,
                final(state)@,
                self@.tables,
                units_keys(cuts@, bytes@, 0, raw, prefixed),
            ),
            final(out)@ == old(out)@ + units_tokens(
                self@.tables,
                cuts@,
                bytes@,
                0,
                raw,
                prefixed,
            ),
    {
        let ghost v = self@.tables;
        let ghost before = out@;
        let mut u: usize = 0;
        let mut first = prefixed;
        let ghost limit = state.limit();
        let ghost first_state = state@;
        let ghost mut seen: Seq<Seq<u8>> = Seq::empty();
        let ghost all = units_keys(cuts@, bytes@, 0, raw, prefixed);
        proof {
            assert(seen + all =~= all);
        }
        while u < bytes.len()
            invariant
                u <= bytes@.len(),
                v == self@.tables,
                state.wf(),
                state.hold(v),
                state.mode() == raw,
                state@.raw == raw,
                state@.budget == first_state.budget,
                remembered(first_state, state@, v, seen),
                seen + units_keys(cuts@, bytes@, u as int, raw, first) == all,
                state.limit() == limit,
                before.len() <= out@.len(),
                largest_grows(first_state, state@, out@.len() - before.len()),
                cuts.wf(),
                out@ + units_tokens(v, cuts@, bytes@, u as int, raw, first) == before
                    + units_tokens(v, cuts@, bytes@, 0, raw, prefixed),
            decreases bytes@.len() - u,
        {
            let ghost now = out@;
            let ghost before_unit = state@;
            let e: usize = cuts.find_cut(bytes, u + 1, raw);
            let unit = vstd::slice::slice_subrange(bytes, u, e);
            let ghost one = unit_key(unit@, first);
            if first {
                let mut key: Vec<u8> = Vec::new();
                key.push(0x20);
                append_bytes(&mut key, unit);
                proof {
                    assert(key@ =~= unit_key(unit@, true));
                }
                self.encode_unit(state, key.as_slice(), raw, out);
            } else {
                self.encode_unit(state, unit, raw, out);
            }
            proof {
                let rest = units_keys(cuts@, bytes@, e as int, raw, false);
                assert(units_keys(cuts@, bytes@, u as int, raw, first) == seq![one] + rest);
                assert(seen + (seq![one] + rest) =~= (seen + seq![one]) + rest);
                lemma_units_cached_add(before_unit, state@, v, seen, seq![one]);
                seen = seen + seq![one];
                assert(out@ + units_tokens(v, cuts@, bytes@, e as int, raw, false) =~= now
                    + units_tokens(v, cuts@, bytes@, u as int, raw, first));
            }
            first = false;
            u = e;
        }
        proof {
            assert(seen + Seq::<Seq<u8>>::empty() =~= seen);
            assert(units_tokens(v, cuts@, bytes@, u as int, raw, first) =~= Seq::<TokenId>::empty());
            assert(out@ =~= before + units_tokens(v, cuts@, bytes@, 0, raw, prefixed));
        }
    }

    /// Encodes already-normalized text and appends its tokens.
    pub fn encode_normalized_cb(&self, state: &mut EncodeState, input: &[u8], out: &mut Vec<TokenId>)
        requires
            old(state).wf(),
            old(state).hold(self@.tables),
        ensures
            final(state).wf(),
            final(state).hold(self@.tables),
            is_settled(final(state)@),
            final(state).limit() == old(state).limit(),
            largest_grows(old(state)@, final(state)@, final(out)@.len() - old(out)@.len()),
            !final(state)@.raw,
            final(state)@.budget == old(state)@.budget,
            !old(state)@.raw ==> remembered(
                old(state)@,
                final(state)@,
                self@.tables,
                normalized_units(self@, input@),
            ),
            old(state)@.budget == usize::MAX ==> units_cached(
                final(state)@,
                self@.tables,
                normalized_units(self@, input@),
            ),
            final(out)@ == old(out)@ + normalized_tokens(self@, input@),
    {
        proof {
            use_type_invariant(self);
        }
        state.set_mode(false, Ghost(self@.tables));
        match &self.cuts {
            Some(cuts) => {
                self.encode_units(cuts, state, input, false, false, out);
            },
            None => {
                let mut symbols: Vec<TokenId> = Vec::new();
                init_symbols(&self.tables, &self.speed, input, false, &mut symbols);
                proof {
                    assert(symbols@ =~= init_from(self@.tables, input@, 0, false));
                }
                bpe_merge_symbols_ranked(&self.tables.merges, &mut symbols);
                crate::bpe::cache_value::append_tokens(out, symbols.as_slice());
            },
        }
        proof {
            state.law_estimate_within_limit();
        }
    }

    /// Encodes one section of raw text and appends its tokens.
    fn encode_section(
        &self,
        state: &mut EncodeState,
        text: &[u8],
        pos: SectionPos,
        out: &mut Vec<TokenId>,
    )
        requires
            old(state).wf(),
            old(state).hold(self@.tables),
            old(state)@.raw == raw_mode(self@),
        ensures
            final(state).wf(),
            final(state).hold(self@.tables),
            final(state).limit() == old(state).limit(),
            largest_grows(old(state)@, final(state)@, final(out)@.len() - old(out)@.len()),
            final(state)@.raw == raw_mode(self@),
            final(state)@.budget == old(state)@.budget,
            remembered(
                old(state)@,
                final(state)@,
                self@.tables,
                section_units(self@, text@, pos),
            ),
            final(out)@ == old(out)@ + section_tokens(self@, text@, pos),
    {
        proof {
            use_type_invariant(self);
        }
        match (self.raw_prepend, &self.cuts) {
            (Some(prepend), Some(cuts)) => {
                if text.len() == 0 {
                    proof {
                        assert(out@ + Seq::<TokenId>::empty() =~= out@);
                    }
                    return;
                }
                let starts_with_mark = mark_width(text, 0, true).is_some();
                let prefixed = match pos {
                    SectionPos::Continuation => false,
                    _ => match prepend {
                        RawPrepend::Unguarded => true,
                        RawPrepend::GuardedAlways => !starts_with_mark,
                        RawPrepend::GuardedFirst => pos == SectionPos::First && !starts_with_mark,
                        RawPrepend::Never => false,
                    },
                };
                self.encode_units(cuts, state, text, true, prefixed, out);
            },
            _ => {
                let first = pos == SectionPos::First;
                let normed = apply_norm_ops(&self.norm_ops, text);
                if self.norm_added_tokens.len() == 0 {
                    let marked = apply_metaspace(&self.metaspace, normed.as_slice(), first);
                    self.encode_normalized_cb(state, marked.as_slice(), out);
                } else {
                    self.encode_norm_pieces(state, normed.as_slice(), first, out);
                }
            },
        }
    }

    /// Splits normalized text at the added tokens that are matched there, and
    /// appends the tokens of each piece.
    fn encode_norm_pieces(
        &self,
        state: &mut EncodeState,
        normed: &[u8],
        first: bool,
        out: &mut Vec<TokenId>,
    )
        requires
            old(state).wf(),
            old(state).hold(self@.tables),
            !old(state)@.raw,
        ensures
            final(state).wf(),
            final(state).hold(self@.tables),
            final(state).limit() == old(state).limit(),
            largest_grows(old(state)@, final(state)@, final(out)@.len() - old(out)@.len()),
            !final(state)@.raw,
            final(state)@.budget == old(state)@.budget,
            remembered(
                old(state)@,
                final(state)@,
                self@.tables,
                norm_piece_units(
                    self@,
                    normed@,
                    added_pieces(self@.norm_added, normed@, 0, 0),
                    first,
                ),
            ),
            final(out)@ == old(out)@ + norm_piece_tokens(
                self@,
                normed@,
                added_pieces(self@.norm_added, normed@, 0, 0),
                first,
            ),
    {
        proof {
            use_type_invariant(self);
        }
        let pieces = split_added(&self.norm_added_tokens, &self.norm_matcher, normed);
        let ghost before = out@;
        let ghost limit = state.limit();
        let ghost first_state = state@;
        let mut seen = false;
        let mut i: usize = 0;
        proof {
            assert(pieces@.take(0) =~= Seq::<Piece>::empty());
            assert(out@ =~= before + norm_piece_tokens(self@, normed@, pieces@.take(0), first));
        }
        while i < pieces.len()
            invariant
                i <= pieces@.len(),
                state.wf(),
                state.hold(self@.tables),
                state.limit() == limit,
                !state@.raw,
                state@.budget == first_state.budget,
                remembered(
                    first_state,
                    state@,
                    self@.tables,
                    norm_piece_units(self@, normed@, pieces@.take(i as int), first),
                ),
                before.len() <= out@.len(),
                largest_grows(first_state, state@, out@.len() - before.len()),
                seen == has_token(pieces@.take(i as int)),
                out@ == before + norm_piece_tokens(self@, normed@, pieces@.take(i as int), first),
                forall|j: int|
                    0 <= j < pieces@.len() ==> ((#[trigger] pieces@[j]) matches Piece::Section(a, b) ==> a
                        < b <= normed@.len()),
            decreases pieces@.len() - i,
        {
            let ghost now = out@;
            let ghost before_piece = state@;
            let ghost had = norm_piece_units(self@, normed@, pieces@.take(i as int), first);
            proof {
                assert(pieces@.take(i + 1).drop_last() =~= pieces@.take(i as int));
                assert(pieces@.take(i + 1).last() == pieces@[i as int]);
                lemma_has_token_step(pieces@, i as int);
            }
            match pieces[i] {
                Piece::Section(a, b) => {
                    let part = vstd::slice::slice_subrange(normed, a, b);
                    let marked = apply_metaspace(&self.metaspace, part, first && !seen);
                    self.encode_normalized_cb(state, marked.as_slice(), out);
                    proof {
                        lemma_units_cached_add(
                            before_piece,
                            state@,
                            self@.tables,
                            had,
                            normalized_units(self@, marked@),
                        );
                    }
                },
                Piece::Token(id) => {
                    out.push(id);
                    seen = true;
                    proof {
                        assert(out@ =~= now + seq![id]);
                        assert(had + Seq::<Seq<u8>>::empty() =~= had);
                    }
                },
            }
            proof {
                assert(out@ =~= before + norm_piece_tokens(
                    self@,
                    normed@,
                    pieces@.take(i + 1),
                    first,
                ));
            }
            i += 1;
        }
        proof {
            assert(pieces@.take(i as int) =~= pieces@);
        }
    }

    /// Encodes raw text that starts at `start` of its document, and appends its
    /// tokens.
    pub fn encode_raw_from(
        &self,
        state: &mut EncodeState,
        text: &[u8],
        start: SectionPos,
        out: &mut Vec<TokenId>,
    )
        requires
            old(state).wf(),
            old(state).hold(self@.tables),
        ensures
            final(state).wf(),
            final(state).hold(self@.tables),
            is_settled(final(state)@),
            final(state).limit() == old(state).limit(),
            largest_grows(old(state)@, final(state)@, final(out)@.len() - old(out)@.len()),
            final(state)@.raw == raw_mode(self@),
            final(state)@.budget == old(state)@.budget,
            old(state)@.raw == raw_mode(self@) ==> remembered(
                old(state)@,
                final(state)@,
                self@.tables,
                raw_units(self@, text@, start),
            ),
            old(state)@.budget == usize::MAX ==> units_cached(
                final(state)@,
                self@.tables,
                raw_units(self@, text@, start),
            ),
            final(out)@ == old(out)@ + raw_tokens(self@, text@, start),
    {
        proof {
            use_type_invariant(self);
        }
        state.set_mode(self.raw_prepend.is_some(), Ghost(self@.tables));
        if self.added_tokens.len() == 0 && self.between.is_none() {
            self.encode_section(state, text, start, out);
            proof {
                state.law_estimate_within_limit();
            }
            return;
        }
        let pieces = match &self.between {
            Some(gap) => split_spread(&self.added_tokens, &self.added_matcher, gap, text),
            None => split_added(&self.added_tokens, &self.added_matcher, text),
        };
        let ghost before = out@;
        let ghost limit = state.limit();
        let ghost first_state = state@;
        let mut pos = start;
        let mut i: usize = 0;
        proof {
            assert(pieces@.take(0) =~= Seq::<Piece>::empty());
            assert(out@ =~= before + piece_tokens(self@, text@, pieces@.take(0), start));
        }
        while i < pieces.len()
            invariant
                i <= pieces@.len(),
                state.wf(),
                state.hold(self@.tables),
                state.limit() == limit,
                state@.raw == raw_mode(self@),
                state@.budget == first_state.budget,
                remembered(
                    first_state,
                    state@,
                    self@.tables,
                    piece_units(self@, text@, pieces@.take(i as int), start),
                ),
                before.len() <= out@.len(),
                largest_grows(first_state, state@, out@.len() - before.len()),
                pos == (if has_token(pieces@.take(i as int)) {
                    SectionPos::Middle
                } else {
                    start
                }),
                out@ == before + piece_tokens(self@, text@, pieces@.take(i as int), start),
                forall|j: int|
                    0 <= j < pieces@.len() ==> ((#[trigger] pieces@[j]) matches Piece::Section(a, b) ==> a
                        < b <= text@.len()),
            decreases pieces@.len() - i,
        {
            let ghost now = out@;
            let ghost before_piece = state@;
            let ghost had = piece_units(self@, text@, pieces@.take(i as int), start);
            proof {
                assert(pieces@.take(i + 1).drop_last() =~= pieces@.take(i as int));
                assert(pieces@.take(i + 1).last() == pieces@[i as int]);
                lemma_has_token_step(pieces@, i as int);
            }
            match pieces[i] {
                Piece::Section(a, b) => {
                    let part = vstd::slice::slice_subrange(text, a, b);
                    self.encode_section(state, part, pos, out);
                    proof {
                        lemma_units_cached_add(
                            before_piece,
                            state@,
                            self@.tables,
                            had,
                            section_units(self@, part@, pos),
                        );
                    }
                },
                Piece::Token(id) => {
                    out.push(id);
                    pos = SectionPos::Middle;
                    proof {
                        assert(out@ =~= now + seq![id]);
                        assert(had + Seq::<Seq<u8>>::empty() =~= had);
                    }
                },
            }
            proof {
                assert(out@ =~= before + piece_tokens(self@, text@, pieces@.take(i + 1), start));
            }
            i += 1;
        }
        proof {
            assert(pieces@.take(i as int) =~= pieces@);
            state.law_estimate_within_limit();
        }
    }

    /// Encodes raw text and appends its tokens.
    pub fn encode_raw_cb(&self, state: &mut EncodeState, input: &str, out: &mut Vec<TokenId>)
        requires
            old(state).wf(),
            old(state).hold(self@.tables),
        ensures
            final(state).wf(),
            final(state).hold(self@.tables),
            is_settled(final(state)@),
            final(state).limit() == old(state).limit(),
            largest_grows(old(state)@, final(state)@, final(out)@.len() - old(out)@.len()),
            final(state)@.raw == raw_mode(self@),
            final(state)@.budget == old(state)@.budget,
            old(state)@.raw == raw_mode(self@) ==> remembered(
                old(state)@,
                final(state)@,
                self@.tables,
                raw_units(self@, encode_utf8(input@), SectionPos::First),
            ),
            old(state)@.budget == usize::MAX ==> units_cached(
                final(state)@,
                self@.tables,
                raw_units(self@, encode_utf8(input@), SectionPos::First),
            ),
            final(out)@ == old(out)@ + raw_tokens(self@, encode_utf8(input@), SectionPos::First),
    {
        self.encode_raw_from(state, input.as_bytes(), SectionPos::First, out);
    }

    /// Encodes a single text with fresh caches.
    pub fn encode_raw(&self, input: &str) -> (r: Vec<TokenId>)
        ensures
            r@ == raw_tokens(self@, encode_utf8(input@), SectionPos::First),
    {
        let mut out: Vec<TokenId> = Vec::new();
        let mut encoder = self.encoder();
        encoder.encode_raw_cb(input, &mut out);
        proof {
            assert(Seq::<TokenId>::empty() + raw_tokens(self@, encode_utf8(input@), SectionPos::First)
                =~= raw_tokens(self@, encode_utf8(input@), SectionPos::First));
        }
        out
    }

    /// An encoder for this model.
    pub fn encoder(&self) -> (e: Encoder<'_>)
        ensures
            e.model_view() == self@,
            e.limit() == growing_limit(self.budget()),
    {
        Encoder { model: self, state: None }
    }

    /// Bounds the caches of encoders made afterwards, or lifts the bound.
    pub fn set_max_cache_bytes(&mut self, budget: Option<usize>)
        ensures
            final(self)@ == old(self)@,
            final(self).merge_ranks() == old(self).merge_ranks(),
            final(self).budget() == budget,
    {
        proof {
            use_type_invariant(&*self);
        }
        self.max_cache_bytes = budget;
    }

    /// The cache budget in bytes; `None` when unbounded.
    pub fn max_cache_bytes(&self) -> (r: Option<usize>)
        ensures
            r == self.budget(),
    {
        self.max_cache_bytes
    }

    /// Size of the vocabulary: one greater than the largest token ID.
    pub fn vocab_size(&self) -> (n: usize)
        ensures
            n == self@.tables.vocab.len(),
    {
        self.tables.vocab.len()
    }

    /// Vocabulary entries as `(id, bytes)` pairs in ID order, skipping IDs
    /// with no content.
    pub fn vocab_entries(&self) -> (r: Vec<(u32, Vec<u8>)>)
        requires
            self@.tables.vocab.len() <= u32::MAX,
        ensures
            listed_contents(r@) == vocab_listing(self@.tables.vocab),
    {
        vocab_entries(&self.tables.vocab)
    }

    /// The rank of each merge rule.
    pub closed spec fn merge_ranks(&self) -> Map<u64, u32> {
        ranks_of(self.tables.merges@)
    }

    /// Merge rules as `(left, right)` byte pairs in rank order.
    pub fn merge_entries(&self) -> (r: Vec<(Vec<u8>, Vec<u8>)>)
        requires
            self.merge_ranks().len() <= u32::MAX,
            parts_in_vocab(self.merge_ranks(), self@.tables.vocab.len()),
        ensures
            exists|keys: Seq<u64>| #[trigger]
                is_merge_order(keys, self.merge_ranks()) && spells_merges(
                    r@,
                    keys,
                    self@.tables.vocab,
                ),
    {
        proof {
            assert(self.merge_ranks().dom() =~= self.tables.merges@.dom());
        }
        ranked_merge_entries(&self.tables.merges, &self.tables.vocab)
    }

    /// Encoding puts a mark before ordinary text, by the marking of spaces or
    /// by a normalizer step.
    pub open spec fn puts_mark(&self) -> bool {
        puts_marks(self@)
    }

    /// Whether encoding puts a mark before ordinary text.
    fn prepends_space(&self) -> (r: bool)
        ensures
            r == self.puts_mark(),
    {
        match &self.metaspace {
            Some(ms) => {
                match ms.prepend {
                    PrependScheme::Never => {},
                    _ => {
                        return true;
                    },
                }
            },
            None => {},
        }
        let mut i: usize = 0;
        while i < self.norm_ops.len()
            invariant
                i <= self.norm_ops@.len(),
                forall|j: int| 0 <= j < i ==> !((#[trigger] self@.steps[j]) is Prepend),
            decreases self.norm_ops@.len() - i,
        {
            proof {
                assert(self@.steps[i as int] == self.norm_ops@[i as int]@);
            }
            match &self.norm_ops[i] {
                NormOp::Prepend(_) => {
                    return true;
                },
                _ => {},
            }
            i += 1;
        }
        false
    }

    /// The text of a token sequence: the bytes of the tokens that the
    /// vocabulary has, with each marker as a space, and without the leading
    /// space that encoding puts there.
    pub fn decode(&self, tokens: &[TokenId]) -> (r: Vec<u8>)
        ensures
            r@ == decoded_text(self@.tables.vocab, tokens@, self.puts_mark()),
            valid_utf8(known_bytes(self@.tables.vocab, tokens@)) ==> r@ == shown_text(
                known_bytes(self@.tables.vocab, tokens@),
                self.puts_mark(),
            ),
    {
        let mut raw: Vec<u8> = Vec::new();
        let ghost vocab = self@.tables.vocab;
        let mut i: usize = 0;
        proof {
            assert(tokens@.take(0) =~= Seq::<TokenId>::empty());
        }
        while i < tokens.len()
            invariant
                i <= tokens@.len(),
                vocab == contents(self.tables.vocab@),
                raw@ == known_bytes(vocab, tokens@.take(i as int)),
            decreases tokens@.len() - i,
        {
            proof {
                assert(tokens@.take(i + 1).drop_last() =~= tokens@.take(i as int));
            }
            let idx: usize = tokens[i].0 as usize;
            if idx < self.tables.vocab.len() {
                append_bytes(&mut raw, self.tables.vocab[idx].as_slice());
            }
            i += 1;
        }
        proof {
            assert(tokens@.take(i as int) =~= tokens@);
        }
        let text = lossy_text(raw.as_slice());
        let space: [u8; 1] = [0x20];
        let mark: [u8; 3] = [0xE2, 0x96, 0x81];
        let space_bytes: &[u8] = &space;
        let mark_bytes: &[u8] = &mark;
        proof {
            assert(space_bytes@ =~= seq![0x20u8]);
            assert(mark_bytes@ =~= sp_mark());
        }
        let mut out = replace_all(text.as_str().as_bytes(), mark_bytes, space_bytes);
        if self.prepends_space() && out.len() > 0 && out[0] == 0x20 {
            let ghost whole = out@;
            out = copy_bytes(vstd::slice::slice_subrange(out.as_slice(), 1, out.len()));
            proof {
                assert(out@ =~= whole.skip(1));
            }
        }
        out
    }
}

/// The bytes of the tokens that a vocabulary has.
pub open spec fn known_bytes(vocab: Seq<Seq<u8>>, s: Seq<TokenId>) -> Seq<u8>
    decreases s.len(),
{
    if s.len() == 0 {
        Seq::empty()
    } else if s.last().0 < vocab.len() {
        known_bytes(vocab, s.drop_last()) + vocab[s.last().0 as int]
    } else {
        known_bytes(vocab, s.drop_last())
    }
}

/// Bytes as text, with a replacement character for what is not UTF-8.
pub uninterp spec fn lossy(bytes: Seq<u8>) -> Seq<char>;

/// `String::from_utf8_lossy`: the bytes as text, with a replacement character
/// for what is not UTF-8; valid UTF-8 stays as it is.
#[verifier::external_body]
fn lossy_text(bytes: &[u8]) -> (r: String)
    ensures
        r@ == lossy(bytes@),
        valid_utf8(bytes@) ==> encode_utf8(r@) == bytes@,
{
    String::from_utf8_lossy(bytes).into_owned()
}

/// The text of a token sequence.
pub open spec fn decoded_text(vocab: Seq<Seq<u8>>, tokens: Seq<TokenId>, strip: bool) -> Seq<u8> {
    shown_text(encode_utf8(lossy(known_bytes(vocab, tokens))), strip)
}

/// A text with each marker as a space, and without the leading space where it
/// is stripped.
pub open spec fn shown_text(bytes: Seq<u8>, strip: bool) -> Seq<u8> {
    let text = replaced(bytes, 0, sp_mark(), seq![0x20u8]);
    if strip && text.len() > 0 && text[0] == 0x20 {
        text.skip(1)
    } else {
        text
    }
}

proof fn lemma_has_token_step(pieces: Seq<Piece>, i: int)
    requires
        0 <= i < pieces.len(),
    ensures
        has_token(pieces.take(i + 1)) == (has_token(pieces.take(i)) || pieces[i] is Token),
{
    let a = pieces.take(i);
    let b = pieces.take(i + 1);
    if has_token(a) {
        let j = choose|j: int| 0 <= j < a.len() && (#[trigger] a[j]) is Token;
        assert(b[j] is Token);
    }
    if has_token(b) {
        let j = choose|j: int| 0 <= j < b.len() && (#[trigger] b[j]) is Token;
        if j < i {
            assert(a[j] is Token);
        }
    }
    assert(b[i] == pieces[i]);
}

/// How raw text gets the marker, if the normalizer does nothing else.
fn compute_raw_prepend(
    kind: WordSplit,
    has_norm_added: bool,
    ops: &Vec<NormOp>,
    metaspace: &Option<Metaspace>,
    m: Ghost<SpModel>,
) -> (r: Option<RawPrepend>)
    requires
        kind == word_split_of(m@),
        has_norm_added == (m@.norm_added.len() > 0),
        m@.steps == step_views(ops@),
        m@.metaspace == *metaspace,
    ensures
        r == raw_prepend_of(m@),
{
    let scheme = match metaspace {
        None => RawPrepend::Never,
        Some(ms) => match ms.prepend {
            PrependScheme::Never => RawPrepend::Never,
            PrependScheme::Always => RawPrepend::GuardedAlways,
            PrependScheme::First => RawPrepend::GuardedFirst,
        },
    };
    if kind == WordSplit::Whole || has_norm_added {
        return None;
    }
    if ops.len() == 2 {
        proof {
            assert(m@.steps[0] == ops@[0]@);
            assert(m@.steps[1] == ops@[1]@);
        }
        if mark_prepend(&ops[0]) && space_replace(&ops[1]) && kind != WordSplit::EveryMark {
            Some(RawPrepend::Unguarded)
        } else {
            None
        }
    } else if ops.len() == 1 {
        proof {
            assert(m@.steps[0] == ops@[0]@);
        }
        if space_replace(&ops[0]) {
            Some(scheme)
        } else {
            None
        }
    } else if ops.len() == 0 && metaspace.is_some() {
        Some(scheme)
    } else {
        None
    }
}

/// Whether a step replaces each space by the marker.
fn space_replace(op: &NormOp) -> (r: bool)
    ensures
        r == is_space_replace(op@),
{
    match op {
        NormOp::Replace { pattern, content } => {
            let space: [u8; 1] = [0x20];
            let mark: [u8; 3] = [0xE2, 0x96, 0x81];
            let space_bytes: &[u8] = &space;
            let mark_bytes: &[u8] = &mark;
            proof {
                assert(space_bytes@ =~= seq![0x20u8]);
                assert(mark_bytes@ =~= sp_mark());
            }
            bytes_equal(pattern.as_str().as_bytes(), space_bytes) && bytes_equal(
                content.as_str().as_bytes(),
                mark_bytes,
            )
        },
        _ => false,
    }
}

/// Whether a step puts the marker before a chunk.
fn mark_prepend(op: &NormOp) -> (r: bool)
    ensures
        r == is_mark_prepend(op@),
{
    match op {
        NormOp::Prepend(p) => {
            let mark: [u8; 3] = [0xE2, 0x96, 0x81];
            let mark_bytes: &[u8] = &mark;
            proof {
                assert(mark_bytes@ =~= sp_mark());
            }
            bytes_equal(p.as_str().as_bytes(), mark_bytes)
        },
        _ => false,
    }
}

/// An encoder with its own caches.
pub struct Encoder<'a> {
    model: &'a SentencePieceBPE,
    /// The caches, from the first text on.
    state: Option<EncodeState>,
}

impl<'a> Encoder<'a> {
    /// Everything that decides what the encoder emits.
    pub closed spec fn model_view(&self) -> SpModel {
        self.model@
    }

    /// The bytes that the growing caches may use.
    pub closed spec fn limit(&self) -> usize {
        match self.state {
            Some(state) => state.limit(),
            None => growing_limit(self.model.budget()),
        }
    }

    /// The caches, once a text was encoded.
    pub closed spec fn caches(&self) -> Option<StateView> {
        match self.state {
            Some(state) => Some(state@),
            None => None,
        }
    }

    #[verifier::type_invariant]
    spec fn wf(&self) -> bool {
        self.state matches Some(state) ==> state.wf() && state.hold(self.model@.tables)
            && state@.raw == raw_mode(self.model@)
    }

    /// Encodes raw text and appends its tokens.
    pub fn encode_raw_cb(&mut self, input: &str, out: &mut Vec<TokenId>)
        ensures
            final(self).model_view() == old(self).model_view(),
            final(self).limit() == old(self).limit(),
            final(self).caches() matches Some(c) && is_settled(c) && c.budget == final(self).limit(),
            old(self).limit() == usize::MAX ==> units_cached(
                final(self).caches()->0,
                old(self).model_view().tables,
                raw_units(old(self).model_view(), encode_utf8(input@), SectionPos::First),
            ),
            old(self).limit() == usize::MAX ==> (old(self).caches() matches Some(c) ==> state_keeps(
                c,
                final(self).caches()->0,
            )),
            final(out)@ == old(out)@ + raw_tokens(
                old(self).model_view(),
                encode_utf8(input@),
                SectionPos::First,
            ),
    {
        self.encode_bytes(input.as_bytes(), true, out);
    }

    /// Encodes one fragment of a document that was split at safe cuts, and
    /// appends its tokens. The leading section of a later fragment goes on
    /// with one that an earlier fragment began.
    pub fn encode_raw_fragment_cb(&mut self, input: &str, first: bool, out: &mut Vec<TokenId>)
        ensures
            final(self).model_view() == old(self).model_view(),
            final(self).limit() == old(self).limit(),
            final(self).caches() matches Some(c) && is_settled(c) && c.budget == final(self).limit(),
            old(self).limit() == usize::MAX ==> units_cached(
                final(self).caches()->0,
                old(self).model_view().tables,
                raw_units(old(self).model_view(), encode_utf8(input@), fragment_pos(first)),
            ),
            old(self).limit() == usize::MAX ==> (old(self).caches() matches Some(c) ==> state_keeps(
                c,
                final(self).caches()->0,
            )),
            final(out)@ == old(out)@ + raw_tokens(
                old(self).model_view(),
                encode_utf8(input@),
                fragment_pos(first),
            ),
    {
        self.encode_bytes(input.as_bytes(), first, out);
    }

    /// Encodes the bytes of a text, or of a later fragment of one, and appends
    /// the tokens.
    pub(crate) fn encode_bytes(&mut self, input: &[u8], first: bool, out: &mut Vec<TokenId>)
        ensures
            final(self).model_view() == old(self).model_view(),
            final(self).limit() == old(self).limit(),
            final(self).caches() matches Some(c) && is_settled(c) && c.budget == final(self).limit(),
            old(self).limit() == usize::MAX ==> units_cached(
                final(self).caches()->0,
                old(self).model_view().tables,
                raw_units(old(self).model_view(), input@, fragment_pos(first)),
            ),
            old(self).limit() == usize::MAX ==> (old(self).caches() matches Some(c) ==> state_keeps(
                c,
                final(self).caches()->0,
            )),
            final(out)@ == old(out)@ + raw_tokens(
                old(self).model_view(),
                input@,
                fragment_pos(first),
            ),
    {
        proof {
            use_type_invariant(&*self);
        }
        let pos = if first {
            SectionPos::First
        } else {
            SectionPos::Continuation
        };
        let model = self.model;
        let mut fresh = Encoder { model, state: None };
        std::mem::swap(&mut fresh, self);
        proof {
            use_type_invariant(&fresh);
        }
        let Encoder { model: _, state } = fresh;
        let mut state = match state {
            Some(state) => state,
            None => EncodeState::with_budget(model.max_cache_bytes),
        };
        model.encode_raw_from(&mut state, input, pos, out);
        proof {
            state.law_estimate_within_limit();
        }
        *self = Encoder { model, state: Some(state) };
    }

    /// The number of cached units.
    pub fn cache_size(&self) -> (n: u128)
        ensures
            n == self.cached_units(),
    {
        match &self.state {
            Some(state) => state.cache_size(),
            None => 0,
        }
    }

    /// The number of cached units.
    pub closed spec fn cached_units(&self) -> nat {
        match self.state {
            Some(state) => state.units().0 + state.units().1,
            None => 0,
        }
    }
}

} // verus!
