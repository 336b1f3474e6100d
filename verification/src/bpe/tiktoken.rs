//! Byte-level BPE tokenizer: initial symbols are bytes, and merge priority is
//! the merged token's ID unless explicit ranks are given.
use crate::bpe::added::{
    added_views, is_longest_match, longest_match, patterns, AddedMatcher, AddedToken,
    AddedTokenDef,
};
use crate::bpe::budget::{CacheBudget, LONG_ENTRY_BYTES};
use crate::bpe::bytes::{
    byte_position, byte_symbols, byte_table, contents, lemma_byte_position_some, symbol_table,
    utf8_byte, ByteRemapping, MissingByte,
};
use crate::bpe::cache_value::{
    append_ids, emit_val, ids, pack_val, packs, spills, val_ok, val_tokens,
};
use crate::bpe::caches::{
    caches_keep, continues, count_short, in_caches, in_caches_if_room, is_overwritten, is_short,
    key_of, long_ok, pretoken_tokens, seeded_len, short_count, short_maps, Caches, EncodeView,
};
use crate::bpe::listing::{
    ids_of, is_merge_order, listed_contents, parts_in_vocab, ranks_of, spells_merges, vocab_entries,
    vocab_listing,
};
use crate::bpe::merge::{
    bpe_merge_symbols, id_rules, merge_key, ranked_merge_key, ranked_rules, IdMerges, MergeScratch,
    RankedMerges, SHORT_MERGE_MAX,
};
use crate::bpe::model::{
    inverse_spells, invert_vocab, lemma_vocab_inverse, model_tokens, share, token_views,
    vocab_inverse, with_tokens, Model, ModelView,
};
use crate::bpe::pretoken_cache::{
    grown, is_pow2, lemma_pow2_double, ShortPretokenCache, MIN_CAPACITY,
};
use crate::bpe::rules::{
    bpe_merge, expand, in_vocab, law_merge_keeps_bytes, lemma_expand_add, lemma_expand_one,
    rules_spell,
};
use crate::bytes_map::BytesMap;
use crate::pretokenize::keys::{
    entries_for, entry_for, key_hash, law_entry_span_len, law_keys_distinct, spans_in,
    PretokenSpans, Pretokens, SpanBatch, PRETOKEN_CHUNK,
};
use crate::pretokenize::scheme::{law_spans_partition, spans_from, PretokenizerType};
use crate::search::copy_bytes;
use crate::text::{
    nfc_bytes, nfc_divides, nfc_segment, normalize_nothing, spaces_end, spaces_start, trim_ws_end,
    trim_ws_start,
};
use crate::token::TokenId;
use std::collections::HashMap;
use std::sync::Arc;
use vstd::prelude::*;

verus! {

broadcast use vstd::std_specs::hash::group_hash_axioms;

/// Everything that decides what a tokenizer emits.
pub struct TokenizerView {
    pub model: ModelView,
    pub added: Seq<AddedToken>,
    pub ignore_merges: bool,
    pub scheme: PretokenizerType,
    pub nfc: bool,
    pub prefix_space: bool,
}

/// The part that decides the tokens of one pretoken.
pub open spec fn encode_view(t: TokenizerView) -> EncodeView {
    EncodeView { model: t.model, added: t.added, ignore_merges: t.ignore_merges }
}

/// The tokens of a list of spans of `s`.
pub open spec fn spans_ids(e: EncodeView, s: Seq<u8>, spans: Seq<(int, int)>) -> Seq<u32>
    decreases spans.len(),
{
    if spans.len() == 0 {
        Seq::empty()
    } else {
        spans_ids(e, s, spans.drop_last()) + ids(
            pretoken_tokens(e, s.subrange(spans.last().0, spans.last().1)),
        )
    }
}

/// A text segment as it is pretokenized: normalized, and with a space before
/// it, if the tokenizer is set so.
pub open spec fn prepared(t: TokenizerView, raw: Seq<u8>) -> Seq<u8> {
    let seg = if t.nfc {
        nfc_bytes(raw)
    } else {
        raw
    };
    if t.prefix_space && seg.len() > 0 && seg[0] != 0x20 {
        seq![0x20u8] + seg
    } else {
        seg
    }
}

/// The tokens of a text segment without added tokens.
pub open spec fn segment_ids(t: TokenizerView, raw: Seq<u8>) -> Seq<u32> {
    let seg = prepared(t, raw);
    spans_ids(encode_view(t), seg, spans_from(t.scheme, seg, 0))
}

/// Where the segment before an added token ends.
pub open spec fn segment_end(tok: AddedToken, s: Seq<u8>, pos: int, start: int) -> int {
    if tok.lstrip {
        pos + spaces_start(s.subrange(pos, start), start - pos)
    } else {
        start
    }
}

/// Where the text goes on after an added token.
pub open spec fn after_added(tok: AddedToken, s: Seq<u8>, start: int) -> int {
    let end = start + tok.content.len();
    if tok.rstrip {
        end + spaces_end(s.skip(end), 0)
    } else {
        end
    }
}

/// The tokens of the text from `pos` on: the leftmost longest added token is
/// its ID, and the text before it is encoded as a segment.
pub open spec fn encode_from(t: TokenizerView, s: Seq<u8>, pos: int) -> Seq<u32>
    decreases s.len() - pos,
{
    if pos >= s.len() {
        Seq::empty()
    } else {
        match longest_match(patterns(t.added), s, pos) {
            None => segment_ids(t, s.skip(pos)),
            Some((start, k)) => {
                let tok = t.added[k];
                let next = after_added(tok, s, start);
                let head = segment_ids(t, s.subrange(pos, segment_end(tok, s, pos, start)))
                    + seq![tok.id.0];
                if pos < next <= s.len() {
                    head + encode_from(t, s, next)
                } else {
                    head
                }
            },
        }
    }
}

/// The tokens of a text.
pub open spec fn encoded(t: TokenizerView, s: Seq<u8>) -> Seq<u32> {
    encode_from(t, s, 0)
}

/// The pretokens of a text segment.
pub open spec fn segment_pretokens(t: TokenizerView, raw: Seq<u8>) -> Seq<Seq<u8>> {
    let seg = prepared(t, raw);
    spans_from(t.scheme, seg, 0).map_values(|r: (int, int)| seg.subrange(r.0, r.1))
}

/// The pretokens of the text from `pos` on, without the added tokens.
pub open spec fn pretokens_from(t: TokenizerView, s: Seq<u8>, pos: int) -> Seq<Seq<u8>>
    decreases s.len() - pos,
{
    if pos >= s.len() {
        Seq::empty()
    } else {
        match longest_match(patterns(t.added), s, pos) {
            None => segment_pretokens(t, s.skip(pos)),
            Some((start, k)) => {
                let tok = t.added[k];
                let next = after_added(tok, s, start);
                let head = segment_pretokens(t, s.subrange(pos, segment_end(tok, s, pos, start)));
                if pos < next <= s.len() {
                    head + pretokens_from(t, s, next)
                } else {
                    head
                }
            },
        }
    }
}

/// `s` with `t` put behind everything that is at least as long.
pub open spec fn insert_by_length(s: Seq<AddedToken>, t: AddedToken) -> Seq<AddedToken>
    decreases s.len(),
{
    if s.len() == 0 || s.last().content.len() >= t.content.len() {
        s.push(t)
    } else {
        insert_by_length(s.drop_last(), t).push(s.last())
    }
}

/// The tokens that have content, longer ones first; equal lengths keep their
/// order.
pub open spec fn by_length(v: Seq<AddedToken>) -> Seq<AddedToken>
    decreases v.len(),
{
    if v.len() == 0 {
        Seq::empty()
    } else if v.last().content.len() == 0 {
        by_length(v.drop_last())
    } else {
        insert_by_length(by_length(v.drop_last()), v.last())
    }
}

/// All contents are nonempty.
pub open spec fn all_nonempty(v: Seq<AddedToken>) -> bool {
    forall|i: int| 0 <= i < v.len() ==> (#[trigger] v[i]).content.len() > 0
}

proof fn lemma_insert_nonempty(s: Seq<AddedToken>, t: AddedToken)
    requires
        all_nonempty(s),
        t.content.len() > 0,
    ensures
        all_nonempty(insert_by_length(s, t)),
        insert_by_length(s, t).len() == s.len() + 1,
    decreases s.len(),
{
    if s.len() == 0 || s.last().content.len() >= t.content.len() {
    } else {
        lemma_insert_nonempty(s.drop_last(), t);
    }
}

proof fn lemma_by_length_nonempty(v: Seq<AddedToken>)
    ensures
        all_nonempty(by_length(v)),
        by_length(v).len() <= v.len(),
    decreases v.len(),
{
    if v.len() > 0 {
        lemma_by_length_nonempty(v.drop_last());
        if v.last().content.len() > 0 {
            lemma_insert_nonempty(by_length(v.drop_last()), v.last());
        }
    }
}

/// Where `insert_by_length` puts its token.
proof fn lemma_insert_position(s: Seq<AddedToken>, t: AddedToken, p: int)
    requires
        0 <= p <= s.len(),
        p > 0 ==> s[p - 1].content.len() >= t.content.len(),
        forall|i: int| p <= i < s.len() ==> (#[trigger] s[i]).content.len() < t.content.len(),
    ensures
        insert_by_length(s, t) == s.insert(p, t),
    decreases s.len() - p,
{
    if p == s.len() {
        assert(s.insert(p, t) =~= s.push(t));
    } else {
        assert(s.last() == s[s.len() - 1]);
        lemma_insert_position_below(s, t, p);
    }
}

proof fn lemma_insert_position_below(s: Seq<AddedToken>, t: AddedToken, p: int)
    requires
        0 <= p < s.len(),
        p > 0 ==> s[p - 1].content.len() >= t.content.len(),
        forall|i: int| p <= i < s.len() ==> (#[trigger] s[i]).content.len() < t.content.len(),
    ensures
        insert_by_length(s, t) == s.insert(p, t),
    decreases s.len(),
{
    let head = s.drop_last();
    assert(s.last().content.len() < t.content.len());
    if p == head.len() {
        assert(head.len() == 0 || head.last().content.len() >= t.content.len());
        assert(insert_by_length(head, t) == head.push(t));
        assert(head.push(t).push(s.last()) =~= s.insert(p, t));
    } else {
        lemma_insert_position_below(head, t, p);
        assert(head.insert(p, t).push(s.last()) =~= s.insert(p, t));
    }
}

/// Sorts added tokens by length.
fn sort_added(tokens: Vec<AddedTokenDef>) -> (r: Vec<AddedTokenDef>)
    ensures
        added_views(r@) == by_length(added_views(tokens@)),
        r@.len() <= tokens@.len(),
{
    let ghost all = added_views(tokens@);
    let mut r: Vec<AddedTokenDef> = Vec::new();
    let mut i: usize = 0;
    proof {
        assert(all.take(0) =~= Seq::<AddedToken>::empty());
        assert(added_views(r@) =~= by_length(all.take(0)));
    }
    while i < tokens.len()
        invariant
            i <= tokens@.len(),
            all == added_views(tokens@),
            added_views(r@) == by_length(all.take(i as int)),
            r@.len() <= i,
        decreases tokens@.len() - i,
    {
        proof {
            assert(all.take(i + 1).drop_last() =~= all.take(i as int));
            assert(all.take(i + 1).last() == tokens@[i as int]@);
        }
        if tokens[i].content.len() > 0 {
            let n: usize = tokens[i].content.len();
            let mut p: usize = r.len();
            while p > 0 && r[p - 1].content.len() < n
                invariant
                    p <= r@.len(),
                    forall|j: int| p <= j < r@.len() ==> (#[trigger] r@[j]).content@.len() < n,
                decreases p,
            {
                p -= 1;
            }
            let ghost before = r@;
            proof {
                assert forall|j: int| p <= j < added_views(before).len() implies (
                #[trigger] added_views(before)[j]).content.len() < n by {
                    assert(before[j].content@.len() < n);
                }
                assert(p > 0 ==> added_views(before)[p - 1] == before[p - 1]@);
                lemma_insert_position(added_views(before), tokens@[i as int]@, p as int);
            }
            r.insert(p, tokens[i].copy());
            proof {
                assert(added_views(r@) =~= added_views(before).insert(p as int, tokens@[i as int]@));
            }
        }
        i += 1;
    }
    proof {
        assert(all.take(i as int) =~= all);
    }
    r
}

/// Why a vocabulary is not a list of ranks.
#[derive(Clone, Copy, Debug, PartialEq, Eq, Structural)]
pub enum RanksError {
    /// A byte value has no one-byte entry.
    MissingByte(u8),
    /// An entry is not one merge of two earlier entries.
    NotOneMerge(usize),
}

/// Byte-level BPE tokenizer with its caches.
pub struct Tokenizer {
    model: Model,
    caches: Caches,
    merge_scratch: MergeScratch,
    symbol_scratch: Vec<TokenId>,
    pretokenizer_type: PretokenizerType,
    added_tokens: Vec<AddedTokenDef>,
    added_matcher: Arc<AddedMatcher>,
    normalize_nfc: bool,
    add_prefix_space: bool,
    ignore_merges: bool,
    cache_budget: Option<CacheBudget>,
}

/// Default cache budget: 512 MiB per encode worker.
pub const DEFAULT_MAX_CACHE_BYTES: usize = 0x2000_0000;

/// The most vocabulary entries and the most added tokens.
pub open spec fn max_entries() -> int {
    if u32::MAX < usize::MAX / 256 {
        u32::MAX as int
    } else {
        usize::MAX as int / 256
    }
}

impl Tokenizer {
    /// Everything that decides what the tokenizer emits.
    pub closed spec fn view(&self) -> TokenizerView {
        TokenizerView {
            model: self.model@,
            added: added_views(self.added_tokens@),
            ignore_merges: self.ignore_merges,
            scheme: self.pretokenizer_type,
            nfc: self.normalize_nfc,
            prefix_space: self.add_prefix_space,
        }
    }

    /// The rank of each merge rule.
    pub closed spec fn merge_ranks(&self) -> Map<u64, u32> {
        self.model.merge_ranks()
    }

    /// The budget in force.
    pub closed spec fn budget(&self) -> Option<CacheBudget> {
        self.cache_budget
    }

    /// The slots of the short table.
    pub closed spec fn short_slots(&self) -> nat {
        self.caches.short.slot_count()
    }

    /// The number of entries of the short table and of the long map.
    pub closed spec fn cached(&self) -> (nat, nat) {
        (self.caches.short@.len(), self.caches.long@.len())
    }

    /// The caches hold a pretoken.
    pub closed spec fn holds(&self, b: Seq<u8>) -> bool {
        in_caches(self.caches, b)
    }

    /// The caches hold a pretoken, unless they are at the limit of what a table
    /// or 32 bits can hold.
    pub open spec fn remembers(&self, b: Seq<u8>) -> bool {
        let n = pretoken_tokens(encode_view(self@), b).len();
        self.arena_len() + n <= u32::MAX && self.cached().0 < usize::MAX / 32 ==> self.holds(b)
    }

    /// The key bytes of the long map.
    pub closed spec fn long_key_bytes(&self) -> int {
        self.caches.long.key_weight()
    }

    /// The tokens in the arena.
    pub closed spec fn arena_len(&self) -> nat {
        self.caches.arena@.len()
    }

    /// The caches hold what the tokenizer emits, and the short table stays
    /// within the budget.
    pub closed spec fn wf(&self) -> bool {
        &&& self.caches.hold(encode_view(self@))
        &&& self.added_matcher@ == patterns(self@.added)
        &&& all_nonempty(self@.added)
        &&& inverse_spells(self.model@.vocab_inv, self.model@.vocab)
        &&& self.model@.vocab.len() <= max_entries()
        &&& self.added_tokens@.len() <= max_entries()
        &&& self.merge_scratch.wf()
        &&& self.normalize_nfc ==> nfc_divides()
        &&& self.cache_budget matches Some(b) ==> {
            &&& b.fits(seed_entries(self@))
            &&& b.splits(
                b.total_bytes as int,
                seed_entries(self@) as int,
                seeded_len(encode_view(self@), 0) as int,
            )
            &&& self.caches.short.slot_count() <= b.short_slots
            &&& self.caches.arena@.len() <= arena_limit(b)
            &&& long_within(self.caches.long, b)
        }
    }

    /// What a tokenizer that normalizes knows of normalization.
    pub proof fn lemma_normalizer_divides(&self)
        requires
            self.wf(),
            self@.nfc,
        ensures
            nfc_divides(),
    {
    }

    /// A budget bounds every cache: in every state, the short table has at most
    /// the slots of its share, the arena holds its share, the largest encoding
    /// on top and at most one more encoding, and the long map is within its
    /// share but for one entry. The key bytes of the long map are within what
    /// is accounted for it, unless a machine word cannot hold that.
    pub proof fn law_caches_within_budget(&self)
        requires
            self.wf(),
            self.budget() is Some,
        ensures
            ({
                let b = self.budget()->0;
                &&& self.short_slots() <= b.short_slots
                &&& self.arena_len() <= arena_limit(b)
                &&& b.long_bytes_used <= b.long_bytes || exists|k: Seq<u8>| #[trigger]
                    self.holds_long(k) && b.long_bytes_used <= b.long_bytes + k.len()
                        + LONG_ENTRY_BYTES
                &&& self.long_key_bytes() <= b.long_bytes_used || b.long_bytes_used == usize::MAX
                &&& b.splits(
                    b.total_bytes as int,
                    seed_entries(self@) as int,
                    seeded_len(encode_view(self@), 0) as int,
                )
            }),
    {
        let b = self.budget()->0;
        if b.long_bytes_used > b.long_bytes {
            let k = choose|k: Seq<u8>| #[trigger]
                self.caches.long@.contains_key(k) && b.long_bytes_used <= b.long_bytes + k.len()
                    + LONG_ENTRY_BYTES;
            assert(self.holds_long(k));
        }
    }

    /// The long map holds a pretoken.
    pub closed spec fn holds_long(&self, b: Seq<u8>) -> bool {
        self.caches.long@.contains_key(b)
    }

    /// Builds a tokenizer whose merge priority is the merged token's ID. It
    /// starts with GPT-2 pretokenization and no added tokens.
    pub fn new(merges: IdMerges, vocab: Vec<Vec<u8>>, byte_remapping: Option<ByteRemapping>) -> (t:
        Self)
        requires
            vocab@.len() <= max_entries(),
        ensures
            t.wf(),
            t@ == plain_view(
                ModelView {
                    rules: id_rules(merges@),
                    vocab: contents(vocab@),
                    vocab_inv: vocab_inverse(contents(vocab@)),
                    table: symbol_table(byte_remapping),
                },
            ),
            t.merge_ranks() == ids_of(merges@),
            t.budget() matches Some(b) && b.total_bytes == DEFAULT_MAX_CACHE_BYTES,
    {
        Self::from_tables(merges, None, vocab, byte_remapping)
    }

    /// Builds a tokenizer with explicit merge ranks, for vocabularies whose
    /// IDs do not follow merge order.
    pub fn new_ranked(
        ranked_merges: RankedMerges,
        vocab: Vec<Vec<u8>>,
        byte_remapping: Option<ByteRemapping>,
    ) -> (t: Self)
        requires
            vocab@.len() <= max_entries(),
        ensures
            t.wf(),
            t@ == plain_view(
                ModelView {
                    rules: ranked_rules(ranked_merges@),
                    vocab: contents(vocab@),
                    vocab_inv: vocab_inverse(contents(vocab@)),
                    table: symbol_table(byte_remapping),
                },
            ),
            t.merge_ranks() == ranks_of(ranked_merges@),
            t.budget() matches Some(b) && b.total_bytes == DEFAULT_MAX_CACHE_BYTES,
    {
        Self::from_tables(HashMap::new(), Some(ranked_merges), vocab, byte_remapping)
    }

    /// Construction of every kind of model.
    fn from_tables(
        merges: IdMerges,
        ranked_merges: Option<RankedMerges>,
        vocab: Vec<Vec<u8>>,
        byte_remapping: Option<ByteRemapping>,
    ) -> (t: Self)
        requires
            vocab@.len() <= max_entries(),
        ensures
            t.wf(),
            t@ == plain_view(
                ModelView {
                    rules: match ranked_merges {
                        Some(rm) => ranked_rules(rm@),
                        None => id_rules(merges@),
                    },
                    vocab: contents(vocab@),
                    vocab_inv: vocab_inverse(contents(vocab@)),
                    table: symbol_table(byte_remapping),
                },
            ),
            t.merge_ranks() == (match ranked_merges {
                Some(rm) => ranks_of(rm@),
                None => ids_of(merges@),
            }),
            t.budget() matches Some(b) && b.total_bytes == DEFAULT_MAX_CACHE_BYTES,
    {
        let model = Model::new(merges, ranked_merges, vocab, byte_remapping);
        let added_tokens: Vec<AddedTokenDef> = Vec::new();
        let n_seed: usize = count_short(model.vocab());
        let caches = seeded_caches(&model, false, &added_tokens, n_seed, 0);
        let budget = CacheBudget::derive(DEFAULT_MAX_CACHE_BYTES, n_seed, caches.arena.len());
        proof {
            crate::bpe::pretoken_cache::lemma_least_capacity(
                caches.short.slot_count() as int,
                budget.short_slots as int,
                n_seed as int,
            );
            assert(added_views(added_tokens@) =~= Seq::<AddedToken>::empty());
        }
        let added_matcher = Arc::new(AddedMatcher::new(&added_tokens));
        Tokenizer {
            model,
            caches,
            merge_scratch: MergeScratch::default(),
            symbol_scratch: Vec::new(),
            pretokenizer_type: PretokenizerType::GPT2,
            added_tokens,
            added_matcher,
            normalize_nfc: false,
            add_prefix_space: false,
            ignore_merges: false,
            cache_budget: Some(budget),
        }
    }
}

/// A tokenizer of a model with nothing else set.
pub open spec fn plain_view(model: ModelView) -> TokenizerView {
    TokenizerView {
        model,
        added: Seq::empty(),
        ignore_merges: false,
        scheme: PretokenizerType::GPT2,
        nfc: false,
        prefix_space: false,
    }
}

/// The long map is within its share but for one entry, and its key bytes are
/// within what is accounted for it.
spec fn long_within(long: BytesMap<(u32, u32)>, b: CacheBudget) -> bool {
    &&& b.long_bytes_used <= b.long_bytes || exists|k: Seq<u8>| #[trigger]
        long@.contains_key(k) && b.long_bytes_used <= b.long_bytes + k.len() + LONG_ENTRY_BYTES
    &&& long.key_weight() <= b.long_bytes_used || b.long_bytes_used == usize::MAX
}

/// `Vec::capacity`. How much was allocated is left open.
#[verifier::external_body]
fn arena_capacity(arena: &Vec<TokenId>) -> usize {
    arena.capacity()
}

/// Fresh caches at seed level, with room for `n_seed` entries and at least
/// `min_slots` slots.
fn seeded_caches(
    model: &Model,
    ignore_merges: bool,
    added: &Vec<AddedTokenDef>,
    n_seed: usize,
    min_slots: usize,
) -> (c: Caches)
    requires
        n_seed < usize::MAX / 64,
        min_slots <= usize::MAX / 32,
        n_seed >= short_count(model@.vocab),
    ensures
        c.hold(EncodeView { model: model@, added: added_views(added@), ignore_merges }),
        c.long@ == Map::<Seq<u8>, (u32, u32)>::empty(),
        c.long.key_weight() == 0,
        is_table_size(c.short.slot_count() as int, n_seed as int, min_slots as int),
        c.short@.len() <= n_seed,
        c.arena@.len() == seeded_len(
            EncodeView { model: model@, added: added_views(added@), ignore_merges },
            0,
        ),
{
    let short = ShortPretokenCache::with_at_least(n_seed, min_slots);
    let ghost slots = short.slot_count();
    let mut c = Caches { short, long: BytesMap::new(), arena: Vec::new() };
    let n0: usize = c.short.len();
    proof {
        let e = EncodeView { model: model@, added: added_views(added@), ignore_merges };
        assert(long_ok(c.long@, c.arena@, e));
        assert(c.short@.len() == 0);
    }
    c.seed(model, ignore_merges, added);
    let cap: usize = c.short.capacity();
    proof {
        assert(is_pow2(slots as int));
        assert(c.short.slot_count() == slots);
    }
    c
}

impl Tokenizer {
    /// The short table is full at the most slots it may have.
    spec fn at_ceiling(&self) -> bool {
        self.cache_budget matches Some(b) && self.caches.short.slot_count() >= b.short_slots && (
        self.caches.short@.len() + 1) * 4 > self.caches.short.slot_count() * 3
    }

    /// One of the caches is past its share of the budget.
    spec fn over_budget(&self) -> bool {
        self.at_ceiling() || (self.cache_budget matches Some(b) && (self.caches.arena@.len()
            > b.arena_entries + b.max_encoding || b.long_bytes_used > b.long_bytes))
    }

    /// The same tokenizer but for its caches and their counters.
    spec fn same_settings(&self, other: &Tokenizer) -> bool {
        &&& self.model == other.model
        &&& self.pretokenizer_type == other.pretokenizer_type
        &&& self.added_tokens == other.added_tokens
        &&& self.added_matcher == other.added_matcher
        &&& self.normalize_nfc == other.normalize_nfc
        &&& self.add_prefix_space == other.add_prefix_space
        &&& self.ignore_merges == other.ignore_merges
        &&& match (self.cache_budget, other.cache_budget) {
            (Some(a), Some(b)) => a.total_bytes == b.total_bytes && a.short_slots == b.short_slots
                && a.arena_entries == b.arena_entries && a.long_bytes == b.long_bytes,
            (None, None) => true,
            _ => false,
        }
    }

    /// Wipes the caches back to seed level if one of them is past its share.
    /// Returns whether it did.
    fn wipe_if_over_budget(&mut self) -> (wiped: bool)
        requires
            old(self).wf(),
        ensures
            final(self).wf(),
            final(self).same_settings(old(self)),
            spent(old(self).budget(), final(self).budget(), 0),
            wiped == old(self).over_budget(),
            !wiped ==> *final(self) == *old(self),
            !final(self).over_budget(),
    {
        let (short_slots, arena_max, long_bytes, used) = match &self.cache_budget {
            None => {
                return false;
            },
            Some(b) => (
                b.short_slots,
                b.arena_entries.saturating_add(b.max_encoding),
                b.long_bytes,
                b.long_bytes_used,
            ),
        };
        let cap: usize = self.caches.short.capacity();
        let arena_len: usize = self.caches.arena.len();
        let short_at_growth = cap >= short_slots && self.caches.short.is_full();
        if !short_at_growth && arena_len <= arena_max && used <= long_bytes {
            return false;
        }
        self.wipe_generation();
        true
    }

    /// Drops every cached encoding and seeds the caches again.
    fn wipe_generation(&mut self)
        requires
            old(self).wf(),
            old(self).cache_budget is Some,
        ensures
            final(self).wf(),
            final(self).same_settings(old(self)),
            spent(old(self).budget(), final(self).budget(), 0),
            !final(self).over_budget(),
            final(self).caches.arena@.len() == seeded_len(encode_view(old(self)@), 0),
            final(self).caches.long@ == Map::<Seq<u8>, (u32, u32)>::empty(),
            final(self).cache_budget->0.long_bytes_used == 0,
            final(self).cache_budget->0.max_encoding == old(self).cache_budget->0.max_encoding,
    {
        let cap: usize = self.caches.short.capacity();
        self.caches.clear();
        let n: usize = self.caches.short.len();
        let ghost b0 = self.cache_budget->0;
        proof {
            assert(long_ok(self.caches.long@, self.caches.arena@, encode_view(self@)));
            assert(is_pow2(b0.short_slots as int));
        }
        self.caches.seed(&self.model, self.ignore_merges, &self.added_tokens);
        proof {
            assert(self.caches.short.slot_count() <= b0.short_slots);
            assert(self.caches.arena@.len() == self.caches.arena.len());
            assert(self.caches.arena@.len() <= b0.arena_entries);
        }
        match self.cache_budget {
            Some(b) => {
                self.cache_budget = Some(
                    CacheBudget {
                        total_bytes: b.total_bytes,
                        short_slots: b.short_slots,
                        arena_entries: b.arena_entries,
                        long_bytes: b.long_bytes,
                        long_bytes_used: 0,
                        max_encoding: b.max_encoding,
                        generations: b.generations.saturating_add(1),
                    },
                );
            },
            None => {},
        }
    }

    /// Encodes a short pretoken without the caches.
    fn encode_short(&self, bytes: &[u8], buf: &mut [TokenId; SHORT_MERGE_MAX]) -> (n: usize)
        requires
            self.wf(),
            is_short(bytes@),
        ensures
            1 <= n <= bytes@.len(),
            final(buf)@.take(n as int) == pretoken_tokens(encode_view(self@), bytes@),
    {
        let ghost e = encode_view(self@);
        let ghost pats = patterns(e.added);
        let found = self.added_matcher.find(bytes, 0);
        let whole = match found {
            Some((start, k)) => start == 0 && self.added_tokens[k].content.len() == bytes.len(),
            None => false,
        };
        proof {
            let is_content = exists|i: int|
                0 <= i < e.added.len() && (#[trigger] e.added[i]).content == bytes@;
            if whole {
                let k = (found->0).1 as int;
                assert(pats[k] == self.added_tokens@[k].content@);
                assert(bytes@.subrange(0, bytes@.len() as int) =~= bytes@);
                assert(e.added[k].content == bytes@);
            }
            if is_content {
                let i = choose|i: int|
                    0 <= i < e.added.len() && (#[trigger] e.added[i]).content == bytes@;
                assert(pats[i] == bytes@);
                assert(bytes@.subrange(0, bytes@.len() as int) =~= bytes@);
                assert(crate::search::occurs_at(bytes@, pats[i], 0));
                match found {
                    Some((start, k)) => {
                        if start > 0 {
                            assert(!crate::search::occurs_at(bytes@, pats[i], 0));
                        }
                        assert(pats[k as int] == self.added_tokens@[k as int].content@);
                    },
                    None => {
                        if !exists|start: int, k: int| is_longest_match(pats, bytes@, 0, start, k) {
                            crate::bpe::added::lemma_match_exists(pats, bytes@, 0, 0, i);
                        }
                        assert(false);
                    },
                }
            }
            assert(whole <==> is_content);
        }
        if whole {
            match self.model.token_of(bytes) {
                Some(id) => {
                    buf[0] = id;
                    proof {
                        assert(buf@.take(1) =~= seq![id]);
                    }
                    return 1;
                },
                None => {},
            }
        }
        self.model.seed_encode(self.ignore_merges, bytes, buf)
    }

    /// Encodes a pretoken that the caches do not hold, records it, and appends
    /// its tokens. `slot` is where the short table reported it missing.
    #[verifier::rlimit(40)]
    fn encode_pretoken_miss(&mut self, bytes: &[u8], key: u128, h: u64, slot: usize, out: &mut Vec<u32>)
        requires
            old(self).wf(),
            key != 0 ==> is_short(bytes@) && key == key_of(bytes@) && h == key_hash(key)
                && !old(self).caches.short@.contains_key(key) && old(self).caches.short.is_free_slot(
                key,
                slot as int,
            ),
            key == 0 ==> !is_short(bytes@),
        ensures
            final(self).wf(),
            final(self).same_settings(old(self)),
            old(self).cache_budget is None ==> caches_keep(old(self).caches, final(self).caches),
            in_caches_if_room(
                final(self).caches,
                bytes@,
                pretoken_tokens(encode_view(old(self)@), bytes@).len() as int,
            ),
            spent(
                old(self).budget(),
                final(self).budget(),
                pretoken_tokens(encode_view(old(self)@), bytes@).len() as int,
            ),
            final(out)@ == old(out)@ + ids(pretoken_tokens(encode_view(old(self)@), bytes@)),
    {
        let ghost e = encode_view(self@);
        let mut slot: usize = slot;
        if self.wipe_if_over_budget() && key != 0 {
            match self.caches.short.get_or_slot(key, h) {
                Ok((val, ext)) => {
                    proof {
                        assert(short_maps(
                            self.caches.short@,
                            self.caches.arena@,
                            bytes@,
                            pretoken_tokens(e, bytes@),
                        ));
                    }
                    emit_val(val, ext, &self.caches.arena, out);
                    return;
                },
                Err(s) => {
                    slot = s;
                },
            }
        }
        if key != 0 {
            let mut buf: [TokenId; SHORT_MERGE_MAX] = [TokenId(0);16];
            let n: usize = self.encode_short(bytes, &mut buf);
            let whole: &[TokenId] = &buf;
            let symbols = vstd::slice::slice_subrange(whole, 0, n);
            proof {
                assert(symbols@ =~= buf@.take(n as int));
            }
            self.record_short(bytes, key, h, slot, symbols);
            append_ids(out, symbols);
        } else {
            self.model.encode_bytes(
                self.ignore_merges,
                bytes,
                &mut self.symbol_scratch,
                &mut self.merge_scratch,
            );
            proof {
                assert(!is_overwritten(e, bytes@));
            }
            let ghost before = *self;
            let stored = self.caches.store_long(bytes, self.symbol_scratch.as_slice(), Ghost(e));
            proof {
                if stored {
                    assert(self.caches.long@.contains_key(bytes@));
                }
            }
            if stored {
                match self.cache_budget {
                    Some(b) => {
                        let n: usize = self.symbol_scratch.len();
                        self.cache_budget = Some(
                            CacheBudget {
                                total_bytes: b.total_bytes,
                                short_slots: b.short_slots,
                                arena_entries: b.arena_entries,
                                long_bytes: b.long_bytes,
                                long_bytes_used: b.long_bytes_used.saturating_add(
                                    bytes.len(),
                                ).saturating_add(LONG_ENTRY_BYTES),
                                max_encoding: if n > b.max_encoding {
                                    n
                                } else {
                                    b.max_encoding
                                },
                                generations: b.generations,
                            },
                        );
                    },
                    None => {},
                }
            }
            proof {
                match (before.cache_budget, self.cache_budget) {
                    (Some(a), Some(b)) => {
                        assert(b.splits(
                            b.total_bytes as int,
                            seed_entries(self@) as int,
                            seeded_len(encode_view(self@), 0) as int,
                        ));
                        assert(self.caches.arena@.len() <= arena_limit(b));
                        assert(long_within(self.caches.long, b));
                    },
                    _ => {},
                }
            }
            append_ids(out, self.symbol_scratch.as_slice());
        }
    }

    /// Records the encoding of a short pretoken that the table does not hold,
    /// if it can take it.
    fn record_short(&mut self, bytes: &[u8], key: u128, h: u64, slot: usize, symbols: &[TokenId])
        requires
            old(self).wf(),
            !old(self).over_budget(),
            symbols@.len() <= 15,
            is_short(bytes@),
            key != 0,
            key == key_of(bytes@),
            h == key_hash(key),
            !old(self).caches.short@.contains_key(key),
            old(self).caches.short.is_free_slot(key, slot as int),
            symbols@ == pretoken_tokens(encode_view(old(self)@), bytes@),
        ensures
            final(self).wf(),
            *final(self) == (Tokenizer { caches: final(self).caches, ..*old(self) }),
            final(self).caches.long == old(self).caches.long,
            final(self).caches.short@.len() >= old(self).caches.short@.len(),
            final(self).caches.arena@ == if spills(symbols@, old(self).caches.arena@) {
                old(self).caches.arena@ + symbols@
            } else {
                old(self).caches.arena@
            },
            ({
                let (c0, c1) = (old(self).caches, final(self).caches);
                if packs(symbols@, c0.arena@) && c0.short@.len() < usize::MAX / 32 {
                    &&& c1.short@ == c0.short@.insert(key, c1.short@[key])
                    &&& val_ok(c1.short@[key], c1.arena@)
                    &&& val_tokens(c1.short@[key], c1.arena@) == ids(symbols@)
                    &&& c1.short.slot_count() == grown(c0.short.slot_count(), c0.short@.len())
                } else {
                    c1.short == c0.short
                }
            }),
    {
        let ghost e = encode_view(self@);
        let ghost c0 = self.caches;
        let n: usize = self.caches.short.len();
        let cap: usize = self.caches.short.capacity();
        let packed = pack_val(symbols, &mut self.caches.arena);
        proof {
            assert(continues(c0.arena@, self.caches.arena@)) by {
                assert(self.caches.arena@.take(c0.arena@.len() as int) =~= c0.arena@);
            }
            crate::bpe::caches::lemma_hold_grows(c0, self.caches.arena@, e);
        }
        match packed {
            Some((val, ext)) => {
                if n < usize::MAX / 32 {
                    self.caches.short.insert_at(slot, key, h, val, ext);
                    proof {
                        assert forall|b: Seq<u8>| is_short(b) implies #[trigger] short_maps(
                            self.caches.short@,
                            self.caches.arena@,
                            b,
                            pretoken_tokens(e, b),
                        ) by {
                            assert(short_maps(
                                c0.short@,
                                self.caches.arena@,
                                b,
                                pretoken_tokens(e, b),
                            ));
                            law_keys_distinct(b, bytes@);
                        }
                        match self.cache_budget {
                            Some(b) => {
                                if cap < b.short_slots {
                                    lemma_pow2_double(cap as int, b.short_slots as int);
                                }
                            },
                            None => {},
                        }
                    }
                }
            },
            None => {},
        }
    }

    /// Appends the tokens of a pretoken that is not an inline entry of its
    /// home pair.
    fn probe_emit_slow(&mut self, bytes: &[u8], key: u128, h: u64, out: &mut Vec<u32>)
        requires
            old(self).wf(),
            key != 0 ==> is_short(bytes@) && key == key_of(bytes@) && h == key_hash(key),
            key == 0 ==> !is_short(bytes@),
        ensures
            final(self).wf(),
            final(self).same_settings(old(self)),
            old(self).cache_budget is None ==> caches_keep(old(self).caches, final(self).caches),
            in_caches_if_room(
                final(self).caches,
                bytes@,
                pretoken_tokens(encode_view(old(self)@), bytes@).len() as int,
            ),
            spent(
                old(self).budget(),
                final(self).budget(),
                pretoken_tokens(encode_view(old(self)@), bytes@).len() as int,
            ),
            final(out)@ == old(out)@ + ids(pretoken_tokens(encode_view(old(self)@), bytes@)),
    {
        let ghost e = encode_view(self@);
        if key != 0 {
            match self.caches.short.get_or_slot(key, h) {
                Ok((val, ext)) => {
                    proof {
                        assert(short_maps(
                            self.caches.short@,
                            self.caches.arena@,
                            bytes@,
                            pretoken_tokens(e, bytes@),
                        ));
                    }
                    emit_val(val, ext, &self.caches.arena, out);
                },
                Err(slot) => {
                    self.encode_pretoken_miss(bytes, key, h, slot, out);
                },
            }
        } else if !self.caches.emit_long(bytes, out, Ghost(e)) {
            self.encode_pretoken_miss(bytes, 0, 0, 0, out);
        }
    }

    /// Appends the tokens of one batch of pretokens of `text`, and to `ends`
    /// where each pretoken's tokens end.
    fn probe_emit_chunk(
        &mut self,
        text: &[u8],
        batch: &SpanBatch,
        out: &mut Vec<u32>,
        ends: &mut Vec<usize>,
        spans: Ghost<Seq<(int, int)>>,
    )
        requires
            old(self).wf(),
            spans_in(text@, spans@),
            batch.entries@ == entries_for(text@, spans@),
        ensures
            final(self).wf(),
            final(self).same_settings(old(self)),
            old(self).cache_budget is None ==> caches_keep(old(self).caches, final(self).caches),
            old(self).cache_budget is None ==> spans_cached(
                final(self).caches,
                encode_view(old(self)@),
                text@,
                spans@,
            ),
            spent(
                old(self).budget(),
                final(self).budget(),
                spans_ids(encode_view(old(self)@), text@, spans@).len() as int,
            ),
            final(out)@ == old(out)@ + spans_ids(encode_view(old(self)@), text@, spans@),
            final(ends)@.len() == old(ends)@.len() + spans@.len(),
            forall|i: int|
                0 <= i < old(ends)@.len() ==> #[trigger] final(ends)@[i] == old(ends)@[i],
            forall|i: int|
                0 <= i < spans@.len() ==> #[trigger] final(ends)@[old(ends)@.len() + i] == old(
                    out,
                )@.len() + spans_ids(encode_view(old(self)@), text@, spans@.take(i + 1)).len(),
    {
        let ghost e = encode_view(self@);
        let ghost out0 = out@;
        let ghost ends0 = ends@;
        let ghost first = *self;
        let total: usize = text.len();
        let mut i: usize = 0;
        proof {
            assert(spans@.take(0) =~= Seq::<(int, int)>::empty());
            assert(out@ =~= out0 + spans_ids(e, text@, spans@.take(0)));
        }
        while i < batch.entries.len()
            invariant
                i <= batch.entries@.len(),
                total == text@.len(),
                self.wf(),
                self.same_settings(&first),
                first.cache_budget is None ==> caches_keep(first.caches, self.caches),
                first.cache_budget is None ==> spans_cached(
                    self.caches,
                    e,
                    text@,
                    spans@.take(i as int),
                ),
                spent(first.budget(), self.budget(), spans_ids(e, text@, spans@.take(i as int)).len() as int),
                e == encode_view(first@),
                spans_in(text@, spans@),
                batch.entries@ == entries_for(text@, spans@),
                out@ == out0 + spans_ids(e, text@, spans@.take(i as int)),
                ends@.len() == ends0.len() + i,
                forall|j: int| 0 <= j < ends0.len() ==> #[trigger] ends@[j] == ends0[j],
                forall|j: int|
                    0 <= j < i ==> #[trigger] ends@[ends0.len() + j] == out0.len() + spans_ids(
                        e,
                        text@,
                        spans@.take(j + 1),
                    ).len(),
            decreases batch.entries@.len() - i,
        {
            let entry = batch.entries[i];
            let ghost (a, b) = spans@[i as int];
            let ghost span = text@.subrange(a, b);
            let ghost out1 = out@;
            proof {
                assert(entry == entry_for(text@, a, b));
                assert(0 <= spans@[i as int].0 <= spans@[i as int].1 <= text@.len());
                law_entry_span_len(text@, a, b);
                law_keys_distinct(span.take(if span.len() <= 15 { span.len() as int } else { 0 }), span.take(if span.len() <= 15 { span.len() as int } else { 0 }));
                if span.len() <= 15 {
                    assert(span.take(span.len() as int) =~= span);
                }
                assert(spans@.take(i + 1).drop_last() =~= spans@.take(i as int));
                assert(spans@.take(i + 1).last() == (a, b));
            }
            let mut fast = false;
            if entry.key != 0 {
                let (val, ext, found) = self.caches.short.probe_pair(entry.key, entry.meta);
                if found && (val / 128) % 2 == 0 {
                    fast = true;
                    proof {
                        assert(short_maps(
                            self.caches.short@,
                            self.caches.arena@,
                            span,
                            pretoken_tokens(encode_view(self@), span),
                        ));
                    }
                    emit_val(val, ext, &self.caches.arena, out);
                }
            }
            if !fast {
                let start: usize = entry.start;
                let n: usize = entry.span_len() as usize;
                let bytes = vstd::slice::slice_subrange(text, start, start + n);
                proof {
                    assert(bytes@ =~= span);
                }
                self.probe_emit_slow(bytes, entry.key, entry.meta, out);
            }
            proof {
                assert(out@ =~= out0 + spans_ids(e, text@, spans@.take(i + 1)));
            }
            ends.push(out.len());
            i += 1;
        }
        proof {
            assert(spans@.take(i as int) =~= spans@);
        }
    }

    /// Appends the tokens of each pretoken to `out`.
    pub fn memoized_encode_flat<P: PretokenSpans>(&mut self, pretokens: &mut P, out: &mut Vec<u32>)
        requires
            old(self).wf(),
        ensures
            final(self).wf(),
            final(self)@ == old(self)@,
            final(self).merge_ranks() == old(self).merge_ranks(),
            old(self).budget() is None ==> forall|b: Seq<u8>|
                old(self).holds(b) ==> #[trigger] final(self).holds(b),
            old(self).budget() is None ==> forall|i: int|
                0 <= i < old(pretokens).left().len() ==> final(self).remembers(
                    old(pretokens).text().subrange(
                        (#[trigger] old(pretokens).left()[i]).0,
                        old(pretokens).left()[i].1,
                    ),
                ),
            spent(
                old(self).budget(),
                final(self).budget(),
                spans_ids(
                    encode_view(old(self)@),
                    old(pretokens).text(),
                    old(pretokens).left(),
                ).len() as int,
            ),
            final(out)@ == old(out)@ + spans_ids(
                encode_view(old(self)@),
                old(pretokens).text(),
                old(pretokens).left(),
            ),
    {
        let mut ends: Vec<usize> = Vec::new();
        self.encode_batches(pretokens, out, &mut ends);
    }

    /// Appends the tokens of each pretoken to `out`, and to `ends` where they
    /// end.
    fn encode_batches<P: PretokenSpans>(
        &mut self,
        pretokens: &mut P,
        out: &mut Vec<u32>,
        ends: &mut Vec<usize>,
    )
        requires
            old(self).wf(),
            old(ends)@.len() == 0,
        ensures
            final(self).wf(),
            final(self).same_settings(old(self)),
            old(self).cache_budget is None ==> caches_keep(old(self).caches, final(self).caches),
            old(self).cache_budget is None ==> spans_cached(
                final(self).caches,
                encode_view(old(self)@),
                old(pretokens).text(),
                old(pretokens).left(),
            ),
            spent(
                old(self).budget(),
                final(self).budget(),
                spans_ids(
                    encode_view(old(self)@),
                    old(pretokens).text(),
                    old(pretokens).left(),
                ).len() as int,
            ),
            final(out)@ == old(out)@ + spans_ids(
                encode_view(old(self)@),
                old(pretokens).text(),
                old(pretokens).left(),
            ),
            final(ends)@.len() == old(pretokens).left().len(),
            forall|i: int|
                0 <= i < final(ends)@.len() ==> #[trigger] final(ends)@[i] == old(out)@.len()
                    + spans_ids(
                    encode_view(old(self)@),
                    old(pretokens).text(),
                    old(pretokens).left().take(i + 1),
                ).len(),
    {
        let ghost e = encode_view(self@);
        let ghost s = pretokens.text();
        let ghost all = pretokens.left();
        let ghost out0 = out@;
        let ghost first = *self;
        let mut batch = SpanBatch::new();
        let ghost mut done: int = 0;
        proof {
            assert(all.take(0) =~= Seq::<(int, int)>::empty());
            assert(all.skip(0) =~= all);
            assert(out@ =~= out0 + spans_ids(e, s, all.take(0)));
        }
        let mut more = true;
        while more
            invariant
                self.wf(),
                self.same_settings(&first),
                first.cache_budget is None ==> caches_keep(first.caches, self.caches),
                first.cache_budget is None ==> spans_cached(
                    self.caches,
                    e,
                    s,
                    all.take(done),
                ),
                spent(first.budget(), self.budget(), spans_ids(e, s, all.take(done)).len() as int),
                e == encode_view(first@),
                pretokens.text() == s,
                0 <= done <= all.len(),
                pretokens.left() == all.skip(done),
                out@ == out0 + spans_ids(e, s, all.take(done)),
                ends@.len() == done,
                forall|i: int|
                    0 <= i < done ==> #[trigger] ends@[i] == out0.len() + spans_ids(
                        e,
                        s,
                        all.take(i + 1),
                    ).len(),
                !more ==> done == all.len(),
            decreases all.len() - done, if more { 1int } else { 0int },
        {
            let n: usize = pretokens.fill_spans_keyed(&mut batch);
            let ghost now = all.skip(done).take(n as int);
            let ghost out1 = out@;
            let ghost ends1 = ends@;
            proof {
                assert forall|i: int| 0 <= i < now.len() implies 0 <= (#[trigger] now[i]).0 <= now[i].1
                    <= s.len() by {
                    assert(now[i] == all.skip(done)[i]);
                }
            }
            self.probe_emit_chunk(pretokens.buf(), &batch, out, ends, Ghost(now));
            proof {
                assert(all.take(done + n) =~= all.take(done) + now);
                lemma_spans_ids_add(e, s, all.take(done), now);
                assert(all.skip(done + n) =~= all.skip(done).skip(n as int));
                assert forall|i: int| 0 <= i < done + n implies #[trigger] ends@[i] == out0.len()
                    + spans_ids(e, s, all.take(i + 1)).len() by {
                    if i < done {
                        assert(ends@[i] == ends1[i]);
                    } else {
                        assert(ends@[done + (i - done)] == out1.len() + spans_ids(
                            e,
                            s,
                            now.take(i - done + 1),
                        ).len());
                        assert(all.take(i + 1) =~= all.take(done) + now.take(i - done + 1));
                        lemma_spans_ids_add(e, s, all.take(done), now.take(i - done + 1));
                    }
                }
                done = done + n;
            }
            if n < PRETOKEN_CHUNK {
                more = false;
            }
        }
        proof {
            assert(all.take(done) =~= all);
        }
    }

    /// The tokens of each pretoken, one list per pretoken.
    pub fn memoized_encode<P: PretokenSpans>(&mut self, pretokens: &mut P) -> (r: Vec<Vec<TokenId>>)
        requires
            old(self).wf(),
        ensures
            final(self).wf(),
            final(self)@ == old(self)@,
            final(self).merge_ranks() == old(self).merge_ranks(),
            old(self).budget() is None ==> forall|b: Seq<u8>|
                old(self).holds(b) ==> #[trigger] final(self).holds(b),
            old(self).budget() is None ==> forall|i: int|
                0 <= i < old(pretokens).left().len() ==> final(self).remembers(
                    old(pretokens).text().subrange(
                        (#[trigger] old(pretokens).left()[i]).0,
                        old(pretokens).left()[i].1,
                    ),
                ),
            spent(
                old(self).budget(),
                final(self).budget(),
                spans_ids(
                    encode_view(old(self)@),
                    old(pretokens).text(),
                    old(pretokens).left(),
                ).len() as int,
            ),
            r@.len() == old(pretokens).left().len(),
            forall|i: int|
                0 <= i < r@.len() ==> (#[trigger] r@[i])@ == pretoken_tokens(
                    encode_view(old(self)@),
                    old(pretokens).text().subrange(
                        old(pretokens).left()[i].0,
                        old(pretokens).left()[i].1,
                    ),
                ),
    {
        let ghost e = encode_view(self@);
        let ghost s = pretokens.text();
        let ghost all = pretokens.left();
        let mut out: Vec<u32> = Vec::new();
        let mut ends: Vec<usize> = Vec::new();
        self.encode_batches(pretokens, &mut out, &mut ends);
        let mut r: Vec<Vec<TokenId>> = Vec::new();
        let mut start: usize = 0;
        let mut i: usize = 0;
        proof {
            assert(out@ =~= spans_ids(e, s, all));
            assert(all.take(0) =~= Seq::<(int, int)>::empty());
        }
        while i < ends.len()
            invariant
                i <= ends@.len(),
                ends@.len() == all.len(),
                out@ == spans_ids(e, s, all),
                forall|j: int|
                    0 <= j < ends@.len() ==> #[trigger] ends@[j] == spans_ids(
                        e,
                        s,
                        all.take(j + 1),
                    ).len(),
                start == spans_ids(e, s, all.take(i as int)).len(),
                r@.len() == i,
                forall|j: int|
                    0 <= j < i ==> (#[trigger] r@[j])@ == pretoken_tokens(
                        e,
                        s.subrange(all[j].0, all[j].1),
                    ),
            decreases ends@.len() - i,
        {
            let end: usize = ends[i];
            let ghost toks = pretoken_tokens(e, s.subrange(all[i as int].0, all[i as int].1));
            proof {
                assert(all.take(i + 1).drop_last() =~= all.take(i as int));
                assert(all.take(i + 1).last() == all[i as int]);
                assert(all =~= all.take(i + 1) + all.skip(i + 1));
                lemma_spans_ids_add(e, s, all.take(i + 1), all.skip(i + 1));
                assert(out@.subrange(start as int, end as int) =~= ids(toks));
            }
            let mut list: Vec<TokenId> = Vec::new();
            let mut k: usize = start;
            while k < end
                invariant
                    start <= k <= end <= out@.len(),
                    list@.len() == k - start,
                    forall|j: int| 0 <= j < list@.len() ==> #[trigger] list@[j] == TokenId(out@[start + j]),
                decreases end - k,
            {
                list.push(TokenId(out[k]));
                k += 1;
            }
            proof {
                assert(list@ =~= toks) by {
                    assert(list@.len() == ids(toks).len());
                    assert forall|j: int| 0 <= j < toks.len() implies list@[j] == toks[j] by {
                        assert(out@.subrange(start as int, end as int)[j] == ids(toks)[j]);
                    }
                }
            }
            r.push(list);
            start = end;
            i += 1;
        }
        r
    }
}

/// The caches hold the spans of a text.
spec fn spans_cached(c: Caches, e: EncodeView, s: Seq<u8>, spans: Seq<(int, int)>) -> bool {
    forall|i: int|
        0 <= i < spans.len() ==> span_cached(c, e, s, #[trigger] spans[i])
}

/// The caches hold a span of a text.
spec fn span_cached(c: Caches, e: EncodeView, s: Seq<u8>, r: (int, int)) -> bool {
    let b = s.subrange(r.0, r.1);
    in_caches_if_room(c, b, pretoken_tokens(e, b).len() as int)
}

/// The caches hold pretokens.
spec fn all_cached(c: Caches, e: EncodeView, v: Seq<Seq<u8>>) -> bool {
    forall|i: int|
        0 <= i < v.len() ==> in_caches_if_room(
            c,
            #[trigger] v[i],
            pretoken_tokens(e, v[i]).len() as int,
        )
}

/// Caches that grow hold what they held and what came.
proof fn lemma_cached_add(
    a: Caches,
    b: Caches,
    e: EncodeView,
    v: Seq<Seq<u8>>,
    w: Seq<Seq<u8>>,
)
    ensures
        caches_keep(a, b) && all_cached(a, e, v) && all_cached(b, e, w) ==> all_cached(
            b,
            e,
            v + w,
        ),
{
    if caches_keep(a, b) && all_cached(a, e, v) && all_cached(b, e, w) {
        assert forall|i: int| 0 <= i < (v + w).len() implies in_caches_if_room(
            b,
            #[trigger] (v + w)[i],
            pretoken_tokens(e, (v + w)[i]).len() as int,
        ) by {
            if i < v.len() {
                assert((v + w)[i] == v[i]);
            } else {
                assert((v + w)[i] == w[i - v.len()]);
            }
        }
    }
}

/// The tokens of two lists of spans, one after the other.
pub proof fn lemma_spans_ids_add(e: EncodeView, s: Seq<u8>, a: Seq<(int, int)>, b: Seq<(int, int)>)
    ensures
        spans_ids(e, s, a + b) == spans_ids(e, s, a) + spans_ids(e, s, b),
    decreases b.len(),
{
    if b.len() == 0 {
        assert(a + b =~= a);
    } else {
        assert((a + b).drop_last() =~= a + b.drop_last());
        lemma_spans_ids_add(e, s, a, b.drop_last());
        assert(spans_ids(e, s, a + b) =~= spans_ids(e, s, a) + spans_ids(e, s, b));
    }
}

/// One added token and the segment before it.
proof fn lemma_encode_step(
    t: TokenizerView,
    s: Seq<u8>,
    pos: int,
    start: int,
    k: int,
    before: Seq<u32>,
    seg: Seq<u32>,
    out: Seq<u32>,
)
    requires
        0 <= pos < s.len(),
        longest_match(patterns(t.added), s, pos) == Some((start, k)),
        pos < after_added(t.added[k], s, start) <= s.len(),
        seg == segment_ids(t, s.subrange(pos, segment_end(t.added[k], s, pos, start))),
        out == (before + seg).push(t.added[k].id.0),
    ensures
        out + encode_from(t, s, after_added(t.added[k], s, start)) == before + encode_from(t, s, pos),
{
    let next = after_added(t.added[k], s, start);
    assert(encode_from(t, s, pos) == seg + seq![t.added[k].id.0] + encode_from(t, s, next));
    assert(out + encode_from(t, s, next) =~= before + encode_from(t, s, pos));
}

impl Tokenizer {
    /// Appends the tokens of one text segment.
    fn encode_segment(&mut self, raw: &[u8], out: &mut Vec<u32>)
        requires
            old(self).wf(),
        ensures
            final(self).wf(),
            final(self).same_settings(old(self)),
            old(self).cache_budget is None ==> caches_keep(old(self).caches, final(self).caches),
            old(self).cache_budget is None ==> all_cached(
                final(self).caches,
                encode_view(old(self)@),
                segment_pretokens(old(self)@, raw@),
            ),
            spent(
                old(self).budget(),
                final(self).budget(),
                segment_ids(old(self)@, raw@).len() as int,
            ),
            final(out)@ == old(out)@ + segment_ids(old(self)@, raw@),
    {
        let ghost first = *self;
        let normal: Vec<u8> = if self.normalize_nfc {
            nfc_segment(raw)
        } else {
            copy_bytes(raw)
        };
        let seg: Vec<u8> = if self.add_prefix_space && normal.len() > 0 && normal[0] != 0x20 {
            let mut padded: Vec<u8> = Vec::new();
            padded.push(0x20);
            let mut tail = normal;
            let ghost t0 = tail@;
            padded.append(&mut tail);
            proof {
                assert(padded@ =~= seq![0x20u8] + t0);
            }
            padded
        } else {
            normal
        };
        let mut pretokens = Pretokens::new(self.pretokenizer_type, seg.as_slice());
        let mut ends: Vec<usize> = Vec::new();
        self.encode_batches(&mut pretokens, out, &mut ends);
    }

    /// Encodes raw text: added tokens emit their ID, and the segments between
    /// them are pretokenized and encoded. The tokens are appended to `out`.
    #[verifier::spinoff_prover]
    #[verifier::rlimit(40)]
    pub fn encode_with_added_tokens_flat(&mut self, bytes: &[u8], out: &mut Vec<u32>)
        requires
            old(self).wf(),
        ensures
            final(self).wf(),
            final(self)@ == old(self)@,
            final(self).merge_ranks() == old(self).merge_ranks(),
            old(self).budget() is None ==> forall|b: Seq<u8>|
                old(self).holds(b) ==> #[trigger] final(self).holds(b),
            old(self).budget() is None ==> forall|i: int|
                0 <= i < pretokens_from(old(self)@, bytes@, 0).len() ==> final(self).remembers(
                    #[trigger] pretokens_from(old(self)@, bytes@, 0)[i],
                ),
            spent(
                old(self).budget(),
                final(self).budget(),
                encoded(old(self)@, bytes@).len() as int,
            ),
            final(out)@ == old(out)@ + encoded(old(self)@, bytes@),
    {
        let ghost t = self@;
        let ghost first = *self;
        let ghost out0 = out@;
        let ghost pats = patterns(t.added);
        let mut pos: usize = 0;
        let ghost mut seen: Seq<Seq<u8>> = Seq::empty();
        proof {
            assert(seen + pretokens_from(t, bytes@, 0) =~= pretokens_from(t, bytes@, 0));
            assert(out@ + encode_from(t, bytes@, 0) =~= out0 + encoded(t, bytes@));
        }
        while pos < bytes.len()
            invariant
                self.wf(),
                self.same_settings(&first),
                first.cache_budget is None ==> caches_keep(first.caches, self.caches),
                first.cache_budget is None ==> all_cached(self.caches, encode_view(t), seen),
                seen + pretokens_from(t, bytes@, pos as int) == pretokens_from(t, bytes@, 0),
                spent(first.budget(), self.budget(), out@.len() - out0.len()),
                out0.len() <= out@.len(),
                t == first@,
                pats == patterns(t.added),
                pos <= bytes@.len(),
                out@ + encode_from(t, bytes@, pos as int) == out0 + encoded(t, bytes@),
            decreases bytes@.len() - pos,
        {
            let ghost out1 = out@;
            let ghost caches1 = self.caches;
            match self.added_matcher.find(bytes, pos) {
                None => {
                    let seg = vstd::slice::slice_subrange(bytes, pos, bytes.len());
                    proof {
                        assert(seg@ =~= bytes@.skip(pos as int));
                    }
                    self.encode_segment(seg, out);
                    proof {
                        let more = segment_pretokens(t, seg@);
                        lemma_cached_add(caches1, self.caches, encode_view(t), seen, more);
                        seen = seen + more;
                        assert(seen + Seq::<Seq<u8>>::empty() =~= seen);
                        assert(out@ == out0 + encoded(t, bytes@));
                        assert(encode_from(t, bytes@, bytes@.len() as int) =~= Seq::<u32>::empty());
                        assert(out@ + encode_from(t, bytes@, bytes@.len() as int) =~= out@);
                    }
                    pos = bytes.len();
                },
                Some((start, k)) => {
                    let tok_id: u32 = self.added_tokens[k].id.0;
                    let n: usize = self.added_tokens[k].content.len();
                    let lstrip = self.added_tokens[k].lstrip;
                    let rstrip = self.added_tokens[k].rstrip;
                    let ghost tok = t.added[k as int];
                    proof {
                        assert(tok == self.added_tokens@[k as int]@);
                        assert(pats[k as int] == tok.content);
                        assert(all_nonempty(t.added));
                        assert(tok.content.len() > 0);
                    }
                    let mut seg_end: usize = start;
                    if lstrip {
                        let head = vstd::slice::slice_subrange(bytes, pos, start);
                        seg_end = pos + trim_ws_end(head);
                    }
                    let seg = vstd::slice::slice_subrange(bytes, pos, seg_end);
                    self.encode_segment(seg, out);
                    out.push(tok_id);
                    let end: usize = start + n;
                    let mut next: usize = end;
                    if rstrip {
                        let tail = vstd::slice::slice_subrange(bytes, end, bytes.len());
                        proof {
                            assert(tail@ =~= bytes@.skip(end as int));
                        }
                        next = end + trim_ws_start(tail);
                    }
                    proof {
                        assert(next == after_added(tok, bytes@, start as int));
                        let more = segment_pretokens(t, seg@);
                        let rest = pretokens_from(t, bytes@, next as int);
                        assert(seen + (more + rest) =~= (seen + more) + rest);
                        lemma_cached_add(caches1, self.caches, encode_view(t), seen, more);
                        seen = seen + more;
                        lemma_encode_step(
                            t,
                            bytes@,
                            pos as int,
                            start as int,
                            k as int,
                            out1,
                            segment_ids(t, seg@),
                            out@,
                        );
                    }
                    pos = next;
                },
            }
        }
        proof {
            assert(seen + Seq::<Seq<u8>>::empty() =~= seen);
            assert(encode_from(t, bytes@, pos as int) =~= Seq::<u32>::empty());
            assert(out@ =~= out0 + encoded(t, bytes@));
        }
    }

    /// The bytes of a token sequence.
    pub fn decode(&self, v: &[TokenId]) -> (r: Vec<u8>)
        requires
            forall|i: int| 0 <= i < v@.len() ==> (#[trigger] v@[i]).0 < self@.model.vocab.len(),
        ensures
            r@ == expand(self@.model.vocab, v@),
    {
        let vocab = self.model.vocab();
        let mut r: Vec<u8> = Vec::new();
        let mut i: usize = 0;
        proof {
            assert(v@.take(0) =~= Seq::<TokenId>::empty());
        }
        while i < v.len()
            invariant
                i <= v@.len(),
                contents(vocab@) == self@.model.vocab,
                self@.model.vocab.len() == vocab@.len(),
                forall|i: int| 0 <= i < v@.len() ==> (#[trigger] v@[i]).0 < self@.model.vocab.len(),
                r@ == expand(self@.model.vocab, v@.take(i as int)),
            decreases v@.len() - i,
        {
            proof {
                assert(v@.take(i + 1).drop_last() =~= v@.take(i as int));
                assert(v@[i as int].0 < self@.model.vocab.len());
            }
            let entry = &vocab[v[i].0 as usize];
            let mut copy: Vec<u8> = copy_bytes(entry.as_slice());
            r.append(&mut copy);
            i += 1;
        }
        proof {
            assert(v@.take(i as int) =~= v@);
        }
        r
    }

    /// Size of the vocabulary: one greater than the largest token ID.
    pub fn vocab_size(&self) -> (n: usize)
        ensures
            n == self@.model.vocab.len(),
    {
        self.model.vocab().len()
    }

    /// The token of a byte string.
    pub fn token_of(&self, bytes: &[u8]) -> (r: Option<TokenId>)
        ensures
            r == (if self@.model.vocab_inv.contains_key(bytes@) {
                Some(self@.model.vocab_inv[bytes@])
            } else {
                None
            }),
    {
        self.model.token_of(bytes)
    }

    /// Vocabulary entries as `(id, bytes)` pairs in ID order, skipping IDs
    /// with no content.
    pub fn vocab_entries(&self) -> (r: Vec<(u32, Vec<u8>)>)
        ensures
            listed_contents(r@) == vocab_listing(self@.model.vocab),
    {
        vocab_entries(self.model.vocab())
    }

    /// Merge rules as `(left, right)` byte pairs in merge-priority order.
    pub fn merge_entries(&self) -> (r: Vec<(Vec<u8>, Vec<u8>)>)
        requires
            self.merge_ranks().len() <= u32::MAX,
            parts_in_vocab(self.merge_ranks(), self@.model.vocab.len()),
        ensures
            exists|keys: Seq<u64>| #[trigger]
                is_merge_order(keys, self.merge_ranks()) && spells_merges(
                    r@,
                    keys,
                    self@.model.vocab,
                ),
    {
        self.model.merge_entries()
    }

    /// Added-token contents paired with their `rstrip` flag, for splitting
    /// text into ranges that encode on their own.
    pub fn added_token_split_blockers(&self) -> (r: Vec<(Vec<u8>, bool)>)
        ensures
            r@.len() == self@.added.len(),
            forall|i: int|
                0 <= i < r@.len() ==> (#[trigger] r@[i]).0@ == self@.added[i].content && r@[i].1
                    == self@.added[i].rstrip,
    {
        let mut r: Vec<(Vec<u8>, bool)> = Vec::new();
        let mut i: usize = 0;
        while i < self.added_tokens.len()
            invariant
                i <= self.added_tokens@.len(),
                r@.len() == i,
                forall|j: int|
                    0 <= j < i ==> (#[trigger] r@[j]).0@ == self@.added[j].content && r@[j].1
                        == self@.added[j].rstrip,
            decreases self.added_tokens@.len() - i,
        {
            r.push((copy_bytes(self.added_tokens[i].content.as_slice()), self.added_tokens[i].rstrip));
            proof {
                assert(self@.added[i as int] == self.added_tokens@[i as int]@);
            }
            i += 1;
        }
        r
    }

    /// The pretokenization scheme.
    pub fn pretokenizer_type(&self) -> (t: PretokenizerType)
        ensures
            t == self@.scheme,
    {
        self.pretokenizer_type
    }

    /// Sets the pretokenization scheme.
    pub fn set_pretokenizer_type(&mut self, pretokenizer_type: PretokenizerType)
        requires
            old(self).wf(),
        ensures
            final(self).wf(),
            final(self)@ == (TokenizerView { scheme: pretokenizer_type, ..old(self)@ }),
            final(self).merge_ranks() == old(self).merge_ranks(),
            final(self).budget() == old(self).budget(),
    {
        self.pretokenizer_type = pretokenizer_type;
    }

    /// Sets whether segments are NFC-normalized before pretokenization.
    pub fn set_normalize_nfc(&mut self, normalize_nfc: bool)
        requires
            old(self).wf(),
        ensures
            final(self).wf(),
            final(self)@ == (TokenizerView { nfc: normalize_nfc, ..old(self)@ }),
            final(self).merge_ranks() == old(self).merge_ranks(),
            final(self).budget() == old(self).budget(),
    {
        if normalize_nfc {
            normalize_nothing();
        }
        self.normalize_nfc = normalize_nfc;
    }

    /// Sets whether a segment that does not start with a space gets one.
    pub fn set_add_prefix_space(&mut self, add_prefix_space: bool)
        requires
            old(self).wf(),
        ensures
            final(self).wf(),
            final(self)@ == (TokenizerView { prefix_space: add_prefix_space, ..old(self)@ }),
            final(self).merge_ranks() == old(self).merge_ranks(),
            final(self).budget() == old(self).budget(),
    {
        self.add_prefix_space = add_prefix_space;
    }

    /// Sets whether a pretoken that is a whole vocabulary entry encodes as
    /// that entry's ID.
    pub fn set_ignore_merges(&mut self, ignore_merges: bool)
        requires
            old(self).wf(),
        ensures
            final(self).wf(),
            final(self)@ == (TokenizerView { ignore_merges, ..old(self)@ }),
            final(self).merge_ranks() == old(self).merge_ranks(),
            budget_total(final(self).budget()) == budget_total(old(self).budget()),
    {
        if self.ignore_merges != ignore_merges {
            let ghost before = *self;
            self.ignore_merges = ignore_merges;
            proof {
                lemma_stale_short(before.caches, encode_view(before@), encode_view(self@));
            }
            self.reseed_or_rederive();
        }
    }

    /// The settings hold but the caches may hold encodings of older settings
    /// for vocabulary entries and long pretokens.
    spec fn stale_wf(&self) -> bool {
        &&& self.added_matcher@ == patterns(self@.added)
        &&& all_nonempty(self@.added)
        &&& inverse_spells(self.model@.vocab_inv, self.model@.vocab)
        &&& self.model@.vocab.len() <= max_entries()
        &&& self.added_tokens@.len() <= max_entries()
        &&& self.merge_scratch.wf()
        &&& self.normalize_nfc ==> nfc_divides()
        &&& right_besides_vocab(self.caches, self.model@, self.ignore_merges)
    }

    /// Seeds the caches again after a change of settings.
    fn reseed_or_rederive(&mut self)
        requires
            old(self).stale_wf(),
        ensures
            final(self).wf(),
            final(self)@ == old(self)@,
            final(self).merge_ranks() == old(self).merge_ranks(),
            budget_total(final(self).budget()) == budget_total(old(self).budget()),
    {
        match self.cache_budget {
            Some(b) => {
                self.rederive(b.total_bytes);
            },
            None => {
                self.caches.long.clear();
                self.caches.seed(&self.model, self.ignore_merges, &self.added_tokens);
            },
        }
    }

    /// Fresh caches under a budget.
    fn rederive(&mut self, total_bytes: usize)
        requires
            old(self).added_matcher@ == patterns(old(self)@.added),
            all_nonempty(old(self)@.added),
            inverse_spells(old(self).model@.vocab_inv, old(self).model@.vocab),
            old(self).model@.vocab.len() <= max_entries(),
            old(self).added_tokens@.len() <= max_entries(),
            old(self).merge_scratch.wf(),
            old(self).normalize_nfc ==> nfc_divides(),
        ensures
            final(self).wf(),
            final(self)@ == old(self)@,
            final(self).merge_ranks() == old(self).merge_ranks(),
            final(self).budget() matches Some(b) && is_fresh_budget(b, old(self)@, total_bytes),
            final(self).arena_len() == seeded_len(encode_view(old(self)@), 0),
            final(self).cached().1 == 0,
            is_table_size(final(self).short_slots() as int, seed_entries(old(self)@) as int, 0),
    {
        let n_short: usize = count_short(self.model.vocab());
        let n_seed: usize = n_short + self.added_tokens.len();
        let caches = seeded_caches(
            &self.model,
            self.ignore_merges,
            &self.added_tokens,
            n_seed,
            0,
        );
        let budget = CacheBudget::derive(total_bytes, n_seed, caches.arena.len());
        proof {
            crate::bpe::pretoken_cache::lemma_least_capacity(
                caches.short.slot_count() as int,
                budget.short_slots as int,
                n_seed as int,
            );
        }
        self.caches = caches;
        self.cache_budget = Some(budget);
    }

    /// Bounds the memory of the caches, or lifts the bound with `None`. What
    /// is emitted does not change. A bound starts the caches at seed level;
    /// [`Self::law_caches_within_budget`] says how it is kept.
    pub fn set_max_cache_bytes(&mut self, budget: Option<usize>)
        requires
            old(self).wf(),
        ensures
            final(self).wf(),
            final(self)@ == old(self)@,
            final(self).merge_ranks() == old(self).merge_ranks(),
            match budget {
                None => {
                    &&& final(self).budget() is None
                    &&& final(self).cached() == old(self).cached()
                    &&& final(self).arena_len() == old(self).arena_len()
                    &&& final(self).short_slots() == old(self).short_slots()
                },
                Some(total_bytes) => {
                    &&& final(self).budget() matches Some(b) && is_fresh_budget(
                        b,
                        old(self)@,
                        total_bytes,
                    )
                    &&& final(self).arena_len() == seeded_len(encode_view(old(self)@), 0)
                    &&& final(self).cached().1 == 0
                    &&& is_table_size(
                        final(self).short_slots() as int,
                        seed_entries(old(self)@) as int,
                        0,
                    )
                },
            },
    {
        match budget {
            None => {
                self.cache_budget = None;
            },
            Some(total_bytes) => {
                self.rederive(total_bytes);
            },
        }
    }

    /// The configured cache budget in bytes; `None` when unbounded.
    pub fn max_cache_bytes(&self) -> (r: Option<usize>)
        ensures
            r == budget_total(self.budget()),
    {
        match &self.cache_budget {
            Some(b) => Some(b.total_bytes),
            None => None,
        }
    }

    /// The number of wipes since the budget was set; 0 when unbounded.
    pub fn cache_generations(&self) -> (n: u64)
        ensures
            n == match self.budget() {
                Some(b) => b.generations,
                None => 0,
            },
    {
        match &self.cache_budget {
            Some(b) => b.generations,
            None => 0,
        }
    }

    /// The budget in force with its split and counters.
    pub fn cache_budget(&self) -> (r: Option<CacheBudget>)
        ensures
            r == self.budget(),
    {
        self.cache_budget
    }

    /// The number of cached pretokens.
    pub fn cache_entries(&self) -> (n: u128)
        ensures
            n == self.cached().0 + self.cached().1,
    {
        self.caches.short.len() as u128 + self.caches.long.len() as u128
    }

    /// Cache sizes: entries and slots of the short table; entries, room and
    /// key bytes of the long map; tokens and room of the arena. How much room
    /// the long map and the arena have is left open.
    pub fn cache_mem_stats(&self) -> (r: (usize, usize, usize, usize, u128, usize, usize))
        requires
            self.wf(),
        ensures
            r.0 == self.cached().0,
            r.1 == self.short_slots(),
            r.2 == self.cached().1,
            r.4 == self.long_key_bytes(),
            r.5 == self.arena_len(),
            self.budget() matches Some(b) ==> r.1 <= b.short_slots,
            r.0 * 4 <= r.1 * 3,
    {
        let full = self.caches.short.is_full();
        (
            self.caches.short.len(),
            self.caches.short.capacity(),
            self.caches.long.len(),
            self.caches.long.capacity(),
            self.caches.long.key_bytes(),
            self.caches.arena.len(),
            arena_capacity(&self.caches.arena),
        )
    }

    /// Sets the added tokens. Tokens without content are ignored.
    pub fn set_added_tokens(&mut self, added_tokens: Vec<AddedTokenDef>)
        requires
            old(self).wf(),
            added_tokens@.len() <= max_entries(),
        ensures
            final(self).wf(),
            final(self)@ == (TokenizerView {
                added: by_length(added_views(added_tokens@)),
                ..old(self)@
            }),
            final(self).merge_ranks() == old(self).merge_ranks(),
            budget_total(final(self).budget()) == budget_total(old(self).budget()),
    {
        let ghost before = *self;
        let sorted = sort_added(added_tokens);
        proof {
            lemma_by_length_nonempty(added_views(added_tokens@));
        }
        self.added_matcher = Arc::new(AddedMatcher::new(&sorted));
        self.added_tokens = sorted;
        proof {
            lemma_stale_short(before.caches, encode_view(before@), encode_view(self@));
        }
        self.reseed_or_rederive();
    }

    /// Registers one added token, extending the vocabulary when its ID lies
    /// outside it.
    pub fn add_special_token(&mut self, content: Vec<u8>, id: TokenId)
        requires
            old(self).wf(),
            id.0 < max_entries(),
            old(self)@.added.len() < max_entries(),
        ensures
            final(self).wf(),
            final(self)@ == with_special(old(self)@, seq![(content@, id)]),
            final(self).merge_ranks() == old(self).merge_ranks(),
            budget_total(final(self).budget()) == budget_total(old(self).budget()),
    {
        let mut tokens: Vec<(Vec<u8>, TokenId)> = Vec::new();
        tokens.push((content, id));
        proof {
            assert(token_views(tokens@) =~= seq![(content@, id)]);
        }
        self.add_special_tokens(tokens);
    }

    /// Registers a batch of added tokens: all vocabulary entries are written
    /// first, then the added tokens are set.
    pub fn add_special_tokens(&mut self, tokens: Vec<(Vec<u8>, TokenId)>)
        requires
            old(self).wf(),
            forall|i: int| 0 <= i < tokens@.len() ==> (#[trigger] tokens@[i]).1.0 < max_entries(),
            old(self)@.added.len() + tokens@.len() <= max_entries(),
        ensures
            final(self).wf(),
            final(self)@ == with_special(old(self)@, token_views(tokens@)),
            final(self).merge_ranks() == old(self).merge_ranks(),
            budget_total(final(self).budget()) == budget_total(old(self).budget()),
    {
        let ghost before = *self;
        let ghost views = token_views(tokens@);
        let mut added: Vec<AddedTokenDef> = Vec::new();
        let mut i: usize = 0;
        while i < self.added_tokens.len()
            invariant
                i <= self.added_tokens@.len(),
                added@.len() == i,
                forall|j: int| 0 <= j < i ==> (#[trigger] added@[j])@ == self.added_tokens@[j]@,
            decreases self.added_tokens@.len() - i,
        {
            added.push(self.added_tokens[i].copy());
            i += 1;
        }
        let n: usize = added.len();
        let mut j: usize = 0;
        while j < tokens.len()
            invariant
                j <= tokens@.len(),
                n == self.added_tokens@.len(),
                added@.len() == n + j,
                forall|k: int| 0 <= k < n ==> (#[trigger] added@[k])@ == self.added_tokens@[k]@,
                forall|k: int|
                    n <= k < n + j ==> (#[trigger] added@[k])@ == special_def(
                        token_views(tokens@)[k - n],
                    ),
            decreases tokens@.len() - j,
        {
            added.push(
                AddedTokenDef {
                    content: copy_bytes(tokens[j].0.as_slice()),
                    id: tokens[j].1,
                    lstrip: false,
                    rstrip: false,
                },
            );
            j += 1;
        }
        proof {
            assert(added_views(added@) =~= before@.added + views.map_values(
                |t: (Seq<u8>, TokenId)| special_def(t),
            ));
            lemma_with_tokens(self.model@, views);
        }
        self.model.add_tokens(&tokens);
        let ghost mid = encode_view(self@);
        let vocab = self.model.vocab();
        let sorted = sort_added(added);
        proof {
            lemma_by_length_nonempty(added_views(added@));
        }
        self.added_matcher = Arc::new(AddedMatcher::new(&sorted));
        self.added_tokens = sorted;
        proof {
            lemma_stale_short(before.caches, encode_view(before@), encode_view(self@));
        }
        self.reseed_or_rederive();
    }

    /// A tokenizer of the same settings with caches of its own at seed level.
    pub fn fork(&self) -> (t: Self)
        requires
            self.wf(),
        ensures
            t.wf(),
            t@ == self@,
            t.merge_ranks() == self.merge_ranks(),
            t.budget() == fresh_budget(self.budget()),
            is_table_size(
                t.short_slots() as int,
                short_count(self@.model.vocab) as int,
                hinted_slots(0, self.budget()),
            ),
            t.cached().1 == 0,
            t.arena_len() == seeded_len(encode_view(self@), 0),
    {
        self.fork_sized(0)
    }

    /// [`Self::fork`] with a short table of about `slots_hint` slots: at least
    /// 2^16, at most 2^22 and what the budget allows.
    pub fn fork_sized(&self, slots_hint: usize) -> (t: Self)
        requires
            self.wf(),
        ensures
            t.wf(),
            t@ == self@,
            t.merge_ranks() == self.merge_ranks(),
            t.budget() == fresh_budget(self.budget()),
            is_table_size(
                t.short_slots() as int,
                short_count(self@.model.vocab) as int,
                hinted_slots(slots_hint, self.budget()),
            ),
            t.cached().1 == 0,
            t.arena_len() == seeded_len(encode_view(self@), 0),
    {
        let clamped: usize = if slots_hint < 0x1_0000 {
            0x1_0000
        } else if slots_hint > 0x40_0000 {
            0x40_0000
        } else {
            slots_hint
        };
        let mut slots: usize = crate::bpe::pretoken_cache::next_pow2(clamped);
        match &self.cache_budget {
            Some(b) => {
                if slots > b.short_slots {
                    slots = b.short_slots;
                }
            },
            None => {},
        }
        let n_short: usize = count_short(self.model.vocab());
        let caches = seeded_caches(
            &self.model,
            self.ignore_merges,
            &self.added_tokens,
            n_short,
            slots,
        );
        proof {
            let table = caches.short.slot_count() as int;
            assert(caches.arena@.len() == caches.arena.len());
            if table > MIN_CAPACITY && table / 2 < slots {
                assert(is_pow2(table / 2));
                lemma_pow2_double(table / 2, slots as int);
            }
            match self.cache_budget {
                Some(b) => {
                    let cap = caches.short.slot_count() as int;
                    if cap > b.short_slots {
                        lemma_pow2_double(b.short_slots as int, cap);
                    }
                },
                None => {},
            }
        }
        let mut added_tokens: Vec<AddedTokenDef> = Vec::new();
        let mut i: usize = 0;
        while i < self.added_tokens.len()
            invariant
                i <= self.added_tokens@.len(),
                added_tokens@.len() == i,
                forall|j: int| 0 <= j < i ==> (#[trigger] added_tokens@[j])@ == self.added_tokens@[j]@,
            decreases self.added_tokens@.len() - i,
        {
            added_tokens.push(self.added_tokens[i].copy());
            i += 1;
        }
        proof {
            assert(added_views(added_tokens@) =~= added_views(self.added_tokens@));
            assert(self.cache_budget matches Some(b) ==> caches.arena@.len() <= b.arena_entries);
        }
        Tokenizer {
            model: self.model.share(),
            caches,
            merge_scratch: MergeScratch::default(),
            symbol_scratch: Vec::new(),
            pretokenizer_type: self.pretokenizer_type,
            added_tokens,
            added_matcher: share(&self.added_matcher),
            normalize_nfc: self.normalize_nfc,
            add_prefix_space: self.add_prefix_space,
            ignore_merges: self.ignore_merges,
            cache_budget: match &self.cache_budget {
                Some(b) => Some(b.fresh()),
                None => None,
            },
        }
    }
}

/// The most tokens of the arena under a budget: its share, the largest encoding
/// on top, and the encoding after which the share was passed.
pub open spec fn arena_limit(b: CacheBudget) -> int {
    b.arena_entries + b.max_encoding + if b.max_encoding > 15 {
        b.max_encoding as int
    } else {
        15
    }
}

/// The entries that seeding stores, at most.
pub open spec fn seed_entries(t: TokenizerView) -> nat {
    short_count(t.model.vocab) + t.added.len()
}

/// The budget of a tokenizer is a fresh one of `total_bytes`.
pub open spec fn is_fresh_budget(b: CacheBudget, t: TokenizerView, total_bytes: usize) -> bool {
    &&& b.splits(
        total_bytes as int,
        seed_entries(t) as int,
        seeded_len(encode_view(t), 0) as int,
    )
    &&& b.long_bytes_used == 0
    &&& b.max_encoding == 0
    &&& b.generations == 0
}

/// The slots of a short table for `n_seed` entries: the least power of two of at
/// least 65536 and `min_slots` that one more entry keeps within 3/4.
pub open spec fn is_table_size(slots: int, n_seed: int, min_slots: int) -> bool {
    &&& is_pow2(slots)
    &&& slots >= MIN_CAPACITY
    &&& slots >= min_slots
    &&& (n_seed + 1) * 4 <= slots * 3
    &&& slots == MIN_CAPACITY || slots / 2 < min_slots || (n_seed + 1) * 4 > (slots / 2) * 3
}

/// The slots that a hint asks for: from 2^16 to 2^22, and at most what the
/// budget allows.
pub open spec fn hinted_slots(hint: usize, budget: Option<CacheBudget>) -> int {
    let slots: int = if hint < 0x1_0000 {
        0x1_0000
    } else if hint > 0x40_0000 {
        0x40_0000
    } else {
        hint as int
    };
    match budget {
        Some(b) => if slots > b.short_slots {
            b.short_slots as int
        } else {
            slots
        },
        None => slots,
    }
}

/// What encoding to `n` tokens makes of a budget: its shares stay, and the
/// largest encoding is one that was there before or is among the `n` tokens.
pub open spec fn spent(before: Option<CacheBudget>, after: Option<CacheBudget>, n: int) -> bool {
    match (before, after) {
        (Some(a), Some(b)) => {
            &&& a.total_bytes == b.total_bytes
            &&& a.short_slots == b.short_slots
            &&& a.arena_entries == b.arena_entries
            &&& a.long_bytes == b.long_bytes
            &&& a.max_encoding <= b.max_encoding
            &&& b.max_encoding == a.max_encoding || b.max_encoding <= n
            &&& a.generations <= b.generations
        },
        (None, None) => true,
        _ => false,
    }
}

/// The size of a budget.
pub open spec fn budget_total(b: Option<CacheBudget>) -> Option<usize> {
    match b {
        Some(b) => Some(b.total_bytes),
        None => None,
    }
}

/// A budget with fresh counters.
pub open spec fn fresh_budget(b: Option<CacheBudget>) -> Option<CacheBudget> {
    match b {
        Some(b) => Some(
            CacheBudget { long_bytes_used: 0, max_encoding: 0, generations: 0, ..b },
        ),
        None => None,
    }
}

/// An added token without stripping.
pub open spec fn special_def(t: (Seq<u8>, TokenId)) -> AddedToken {
    AddedToken { content: t.0, id: t.1, lstrip: false, rstrip: false }
}

/// A tokenizer with more added tokens.
pub open spec fn with_special(t: TokenizerView, tokens: Seq<(Seq<u8>, TokenId)>) -> TokenizerView {
    TokenizerView {
        model: with_tokens(t.model, tokens),
        added: by_length(t.added + tokens.map_values(|x: (Seq<u8>, TokenId)| special_def(x))),
        ..t
    }
}

/// The short entries of pretokens that are not in the vocabulary are right.
spec fn right_besides_vocab(c: Caches, m: ModelView, ignore_merges: bool) -> bool {
    forall|b: Seq<u8>|
        is_short(b) && !m.vocab.contains(b) ==> #[trigger] short_maps(
            c.short@,
            c.arena@,
            b,
            model_tokens(m, ignore_merges, b),
        )
}

/// Entries of pretokens that are in neither vocabulary stay right.
proof fn lemma_stale_short(c: Caches, a: EncodeView, b: EncodeView)
    requires
        c.hold(a),
        inverse_spells(a.model.vocab_inv, a.model.vocab),
        inverse_spells(b.model.vocab_inv, b.model.vocab),
        a.model.rules == b.model.rules,
        a.model.table == b.model.table,
        forall|s: Seq<u8>|
            s.len() > 0 && a.model.vocab.contains(s) ==> #[trigger] b.model.vocab.contains(s),
    ensures
        right_besides_vocab(c, b.model, b.ignore_merges),
{
    assert forall|s: Seq<u8>| is_short(s) && !b.model.vocab.contains(s) implies #[trigger] short_maps(
        c.short@,
        c.arena@,
        s,
        model_tokens(b.model, b.ignore_merges, s),
    ) by {
        assert(!a.model.vocab.contains(s));
        if a.model.vocab_inv.contains_key(s) {
            assert(a.model.vocab[a.model.vocab_inv[s].0 as int] == s);
        }
        if b.model.vocab_inv.contains_key(s) {
            assert(b.model.vocab[b.model.vocab_inv[s].0 as int] == s);
        }
        assert(short_maps(c.short@, c.arena@, s, pretoken_tokens(a, s)));
    }
}

/// Setting tokens keeps the other contents.
proof fn lemma_with_tokens(m: ModelView, tokens: Seq<(Seq<u8>, TokenId)>)
    requires
        m.vocab.len() <= max_entries(),
        forall|i: int| 0 <= i < tokens.len() ==> (#[trigger] tokens[i]).1.0 < max_entries(),
    ensures
        with_tokens(m, tokens).rules == m.rules,
        with_tokens(m, tokens).table == m.table,
        with_tokens(m, tokens).vocab.len() <= max_entries(),
        forall|s: Seq<u8>|
            s.len() > 0 && m.vocab.contains(s) ==> #[trigger] with_tokens(m, tokens).vocab.contains(s),
    decreases tokens.len(),
{
    if tokens.len() > 0 {
        lemma_with_tokens(m, tokens.drop_last());
        let mid = with_tokens(m, tokens.drop_last());
        let last = with_tokens(m, tokens);
        assert(tokens[tokens.len() - 1].1.0 < max_entries());
        assert forall|s: Seq<u8>| s.len() > 0 && m.vocab.contains(s) implies #[trigger] last.vocab.contains(
            s,
        ) by {
            assert(mid.vocab.contains(s));
            let i = choose|i: int| 0 <= i < mid.vocab.len() && mid.vocab[i] == s;
            assert(last.vocab[i] == s);
        }
    }
}

/// The tokens of single bytes, or `None` where a byte has none.
pub open spec fn single_byte_tokens(inv: Map<Seq<u8>, TokenId>, b: Seq<u8>) -> Option<Seq<TokenId>> {
    if forall|i: int| 0 <= i < b.len() ==> inv.contains_key(seq![#[trigger] b[i]]) {
        Some(Seq::new(b.len(), |i: int| inv[seq![b[i]]]))
    } else {
        None
    }
}

/// The merge rules of the first `n` entries of a vocabulary in merge order:
/// each entry of two or more bytes is one merge of two earlier entries.
/// `None` where an entry is not.
pub open spec fn rank_merges(vocab: Seq<Seq<u8>>, n: nat) -> Option<Map<u64, TokenId>>
    decreases n,
{
    if n == 0 {
        Some(Map::empty())
    } else {
        match rank_merges(vocab, (n - 1) as nat) {
            None => None,
            Some(m) => {
                let b = vocab[n - 1];
                if b.len() < 2 {
                    Some(m)
                } else {
                    match single_byte_tokens(vocab_inverse(vocab), b) {
                        None => None,
                        Some(symbols) => {
                            let r = bpe_merge(id_rules(m), symbols);
                            if r.len() == 2 {
                                Some(m.insert(merge_key(r[0], r[1]), TokenId((n - 1) as u32)))
                            } else {
                                None
                            }
                        },
                    }
                }
            },
        }
    }
}

/// An entry that is not a merge spoils the whole list.
proof fn lemma_rank_merges_fail(vocab: Seq<Seq<u8>>, n: nat, m: nat)
    requires
        n <= m,
        rank_merges(vocab, n) is None,
    ensures
        rank_merges(vocab, m) is None,
    decreases m,
{
    if n < m {
        lemma_rank_merges_fail(vocab, n, (m - 1) as nat);
    }
}

impl Tokenizer {
    /// Rebuilds the merge rules from a vocabulary listed in merge order.
    pub fn from_ranks(vocab: Vec<Vec<u8>>) -> (r: Result<Self, RanksError>)
        requires
            vocab@.len() <= max_entries(),
            vocab@.len() < u32::MAX,
        ensures
            match r {
                Ok(t) => {
                    &&& t.wf()
                    &&& rank_merges(contents(vocab@), vocab@.len()) is Some
                    &&& t@ == plain_view(
                        ModelView {
                            rules: id_rules(rank_merges(contents(vocab@), vocab@.len())->0),
                            vocab: contents(vocab@),
                            vocab_inv: vocab_inverse(contents(vocab@)),
                            table: byte_table(contents(vocab@)),
                        },
                    )
                    &&& t.merge_ranks() == ids_of(rank_merges(contents(vocab@), vocab@.len())->0)
                    &&& forall|b: u8|
                        utf8_byte(b) ==> #[trigger] byte_position(contents(vocab@), b) is Some
                },
                Err(RanksError::MissingByte(b)) => !contents(vocab@).contains(seq![b]) && (utf8_byte(b)
                    || rank_merges(contents(vocab@), vocab@.len()) is None),
                Err(RanksError::NotOneMerge(id)) => id < vocab@.len() && rank_merges(
                    contents(vocab@),
                    id as nat,
                ) is Some && rank_merges(contents(vocab@), (id + 1) as nat) is None,
            },
    {
        let ghost all = contents(vocab@);
        let inv = invert_vocab(&vocab);
        let mut merges: IdMerges = HashMap::new();
        let mut id: usize = 0;
        proof {
            assert(merges@ =~= Map::<u64, TokenId>::empty());
        }
        while id < vocab.len()
            invariant
                id <= vocab@.len() < u32::MAX,
                all == contents(vocab@),
                inv@ == vocab_inverse(all),
                rank_merges(all, id as nat) == Some(merges@),
            decreases vocab@.len() - id,
        {
            let bytes = vocab[id].as_slice();
            proof {
                assert(all[id as int] == bytes@);
            }
            if bytes.len() >= 2 {
                let mut symbols: Vec<TokenId> = Vec::new();
                let mut i: usize = 0;
                while i < bytes.len()
                    invariant
                        i <= bytes@.len(),
                        inv@ == vocab_inverse(all),
                        symbols@.len() == i,
                        all == contents(vocab@),
                        id < vocab@.len() < u32::MAX,
                        bytes@ == all[id as int],
                        bytes@.len() >= 2,
                        rank_merges(all, id as nat) is Some,
                        forall|j: int|
                            0 <= j < i ==> inv@.contains_key(seq![#[trigger] bytes@[j]]) && symbols@[j]
                                == inv@[seq![bytes@[j]]],
                    decreases bytes@.len() - i,
                {
                    let one = vstd::slice::slice_subrange(bytes, i, i + 1);
                    proof {
                        assert(one@ =~= seq![bytes@[i as int]]);
                    }
                    match inv.get(one) {
                        None => {
                            proof {
                                let b = bytes@[i as int];
                                lemma_vocab_inverse(all);
                                if all.contains(seq![b]) {
                                    let k = choose|k: int| 0 <= k < all.len() && all[k] == seq![b];
                                    assert(vocab_inverse(all).contains_key(all[k]));
                                }
                                assert(!vocab_inverse(all).contains_key(seq![bytes@[i as int]]));
                                assert(rank_merges(all, (id + 1) as nat) is None);
                                lemma_rank_merges_fail(all, (id + 1) as nat, vocab@.len());
                            }
                            return Err(RanksError::MissingByte(bytes[i]));
                        },
                        Some(t) => {
                            symbols.push(t);
                        },
                    }
                    i += 1;
                }
                proof {
                    assert(single_byte_tokens(vocab_inverse(all), bytes@) == Some(symbols@)) by {
                        assert(symbols@ =~= Seq::new(
                            bytes@.len(),
                            |i: int| vocab_inverse(all)[seq![bytes@[i]]],
                        ));
                    }
                }
                bpe_merge_symbols(&merges, &mut symbols);
                if symbols.len() != 2 {
                    return Err(RanksError::NotOneMerge(id));
                }
                merges.insert(ranked_merge_key(symbols[0], symbols[1]), TokenId(id as u32));
            }
            id += 1;
        }
        match ByteRemapping::from_byte_vocab(&vocab) {
            Err(MissingByte(b)) => {
                proof {
                    if all.contains(seq![b]) {
                        let k = choose|k: int| 0 <= k < all.len() && all[k] == seq![b];
                        lemma_byte_position_some(all, b, k);
                    }
                }
                Err(RanksError::MissingByte(b))
            },
            Ok(byte_remapping) => Ok(Self::from_tables(merges, None, vocab, byte_remapping)),
        }
    }
}

/// The symbol of every byte of `s` stands for that byte.
pub open spec fn bytes_spell(m: ModelView, s: Seq<u8>) -> bool {
    forall|i: int|
        0 <= i < s.len() ==> m.table[(#[trigger] s[i]) as int].0 < m.vocab.len()
            && m.vocab[m.table[s[i] as int].0 as int] == seq![s[i]]
}

/// The tokens as numbers stand for the same bytes.
pub open spec fn expand_ids(vocab: Seq<Seq<u8>>, s: Seq<u32>) -> Seq<u8> {
    expand(vocab, s.map_values(|x: u32| TokenId(x)))
}

proof fn lemma_byte_symbols_expand(m: ModelView, b: Seq<u8>)
    requires
        bytes_spell(m, b),
    ensures
        expand(m.vocab, byte_symbols(m.table, b)) == b,
        in_vocab(m.vocab, byte_symbols(m.table, b)),
    decreases b.len(),
{
    let syms = byte_symbols(m.table, b);
    assert forall|i: int| 0 <= i < syms.len() implies (#[trigger] syms[i]).0 < m.vocab.len() by {
        assert(m.table[b[i] as int].0 < m.vocab.len());
    }
    if b.len() > 0 {
        let head = b.drop_last();
        assert forall|i: int| 0 <= i < head.len() implies m.table[(#[trigger] head[i]) as int].0
            < m.vocab.len() && m.vocab[m.table[head[i] as int].0 as int] == seq![head[i]] by {
            assert(b[i] == head[i]);
        }
        lemma_byte_symbols_expand(m, head);
        assert(syms.drop_last() =~= byte_symbols(m.table, head));
        assert(m.vocab[m.table[b[b.len() - 1] as int].0 as int] == seq![b[b.len() - 1]]);
        assert(b =~= head + seq![b.last()]);
    } else {
        assert(b =~= Seq::<u8>::empty());
    }
}

/// A pretoken decodes to itself.
pub proof fn law_pretoken_round_trip(e: EncodeView, b: Seq<u8>)
    requires
        rules_spell(e.model.rules, e.model.vocab),
        inverse_spells(e.model.vocab_inv, e.model.vocab),
        bytes_spell(e.model, b),
        b.len() > 0,
    ensures
        expand(e.model.vocab, pretoken_tokens(e, b)) == b,
{
    if is_overwritten(e, b) || (e.ignore_merges && e.model.vocab_inv.contains_key(b)) {
        lemma_expand_one(e.model.vocab, e.model.vocab_inv[b]);
    } else {
        lemma_byte_symbols_expand(e.model, b);
        law_merge_keeps_bytes(e.model.rules, e.model.vocab, byte_symbols(e.model.table, b));
    }
}

proof fn lemma_expand_ids_add(vocab: Seq<Seq<u8>>, a: Seq<u32>, b: Seq<u32>)
    ensures
        expand_ids(vocab, a + b) == expand_ids(vocab, a) + expand_ids(vocab, b),
{
    let f = |x: u32| TokenId(x);
    assert((a + b).map_values(f) =~= a.map_values(f) + b.map_values(f));
    lemma_expand_add(vocab, a.map_values(f), b.map_values(f));
}

proof fn lemma_expand_of_ids(vocab: Seq<Seq<u8>>, s: Seq<TokenId>)
    ensures
        expand_ids(vocab, ids(s)) == expand(vocab, s),
{
    assert(ids(s).map_values(|x: u32| TokenId(x)) =~= s);
}

/// The spans from the start up to any of them decode to the text so far.
#[verifier::spinoff_prover]
#[verifier::rlimit(30)]
proof fn lemma_spans_round_trip(e: EncodeView, t: PretokenizerType, s: Seq<u8>, n: int)
    requires
        rules_spell(e.model.rules, e.model.vocab),
        inverse_spells(e.model.vocab_inv, e.model.vocab),
        bytes_spell(e.model, s),
        0 <= n <= spans_from(t, s, 0).len(),
    ensures
        ({
            let spans = spans_from(t, s, 0);
            expand_ids(e.model.vocab, spans_ids(e, s, spans.take(n))) == s.take(
                if n == 0 {
                    0
                } else {
                    spans[n - 1].1
                },
            )
        }),
    decreases n,
{
    let spans = spans_from(t, s, 0);
    if n == 0 {
        assert(spans.take(0) =~= Seq::<(int, int)>::empty());
        assert(spans_ids(e, s, spans.take(0)) =~= Seq::<u32>::empty());
        assert(Seq::<u32>::empty().map_values(|x: u32| TokenId(x)) =~= Seq::<TokenId>::empty());
        assert(s.take(0) =~= Seq::<u8>::empty());
    } else {
        lemma_spans_round_trip(e, t, s, n - 1);
        let (a, b) = spans[n - 1];
        let before = if n == 1 {
            0
        } else {
            spans[n - 2].1
        };
        assert(0 <= a < b <= s.len() && before == a) by {
            law_spans_partition(t, s, 0);
            if n > 1 {
                assert(spans[n - 2].1 == spans[n - 1].0);
            }
        }
        let span = s.subrange(a, b);
        assert(spans.take(n).drop_last() =~= spans.take(n - 1));
        assert(spans.take(n).last() == (a, b));
        assert forall|i: int| 0 <= i < span.len() implies e.model.table[(
        #[trigger] span[i]) as int].0 < e.model.vocab.len() && e.model.vocab[e.model.table[span[i] as int].0 as int]
            == seq![span[i]] by {
            assert(span[i] == s[a + i]);
        }
        law_pretoken_round_trip(e, span);
        lemma_expand_of_ids(e.model.vocab, pretoken_tokens(e, span));
        lemma_expand_ids_add(
            e.model.vocab,
            spans_ids(e, s, spans.take(n - 1)),
            ids(pretoken_tokens(e, span)),
        );
        assert(s.take(b) =~= s.take(a) + span);
    }
}

/// A segment that is neither normalized nor padded decodes to itself.
pub proof fn law_segment_round_trip(t: TokenizerView, s: Seq<u8>)
    requires
        rules_spell(t.model.rules, t.model.vocab),
        inverse_spells(t.model.vocab_inv, t.model.vocab),
        bytes_spell(t.model, s),
        !t.nfc,
        !t.prefix_space,
    ensures
        expand_ids(t.model.vocab, segment_ids(t, s)) == s,
{
    let spans = spans_from(t.scheme, s, 0);
    law_spans_partition(t.scheme, s, 0);
    lemma_spans_round_trip(encode_view(t), t.scheme, s, spans.len() as int);
    assert(spans.take(spans.len() as int) =~= spans);
    if s.len() > 0 {
        assert(s.take(s.len() as int) =~= s);
    } else {
        assert(s.take(0) =~= s);
    }
}

/// Decoding what a text encodes to gives the text back, from any position:
/// for a tokenizer that neither normalizes nor pads nor strips, whose merge
/// rules and byte symbols spell their bytes, and whose added tokens stand for
/// their own content.
pub proof fn law_decode_inverts_encode(t: TokenizerView, s: Seq<u8>, pos: int)
    requires
        rules_spell(t.model.rules, t.model.vocab),
        inverse_spells(t.model.vocab_inv, t.model.vocab),
        bytes_spell(t.model, s),
        !t.nfc,
        !t.prefix_space,
        0 <= pos <= s.len(),
        forall|i: int|
            0 <= i < t.added.len() ==> {
                &&& !(#[trigger] t.added[i]).lstrip
                &&& !t.added[i].rstrip
                &&& t.added[i].content.len() > 0
                &&& t.model.vocab[t.added[i].id.0 as int] == t.added[i].content
            },
    ensures
        expand_ids(t.model.vocab, encode_from(t, s, pos)) == s.skip(pos),
        pos == 0 ==> expand_ids(t.model.vocab, encoded(t, s)) == s,
    decreases s.len() - pos,
{
    let vocab = t.model.vocab;
    if pos >= s.len() {
        assert(Seq::<u32>::empty().map_values(|x: u32| TokenId(x)) =~= Seq::<TokenId>::empty());
        assert(s.skip(pos) =~= Seq::<u8>::empty());
    } else {
        match longest_match(patterns(t.added), s, pos) {
            None => {
                lemma_bytes_spell_part(t.model, s, pos, s.len() as int);
                assert(s.subrange(pos, s.len() as int) =~= s.skip(pos));
                law_segment_round_trip(t, s.skip(pos));
            },
            Some((start, k)) => {
                let pats = patterns(t.added);
                assert(is_longest_match(pats, s, pos, start, k));
                let tok = t.added[k];
                assert(pats[k] == tok.content);
                let next = after_added(tok, s, start);
                let seg = s.subrange(pos, start);
                lemma_bytes_spell_part(t.model, s, pos, start);
                law_segment_round_trip(t, seg);
                law_decode_inverts_encode(t, s, next);
                lemma_expand_ids_add(vocab, segment_ids(t, seg), seq![tok.id.0]);
                let head = segment_ids(t, seg) + seq![tok.id.0];
                lemma_expand_ids_add(vocab, head, encode_from(t, s, next));
                assert(seq![tok.id.0].map_values(|x: u32| TokenId(x)) =~= seq![tok.id]);
                lemma_expand_one(vocab, tok.id);
                assert(s.skip(pos) =~= seg + tok.content + s.skip(next));
            },
        }
    }
    assert(s.skip(0) =~= s);
}

proof fn lemma_bytes_spell_part(m: ModelView, s: Seq<u8>, a: int, b: int)
    requires
        bytes_spell(m, s),
        0 <= a <= b <= s.len(),
    ensures
        bytes_spell(m, s.subrange(a, b)),
{
    let part = s.subrange(a, b);
    assert forall|i: int| 0 <= i < part.len() implies m.table[(#[trigger] part[i]) as int].0
        < m.vocab.len() && m.vocab[m.table[part[i] as int].0 as int] == seq![part[i]] by {
        assert(part[i] == s[a + i]);
    }
}

} // verus!
