//! The pretoken caches of one encoder.
use crate::bpe::added::{added_views, AddedToken, AddedTokenDef};
use crate::bpe::bytes::contents;
use crate::bpe::cache_value::{
    append_ids, append_tokens, fits_inline, ids, lemma_val_stable, pack_val, val_ok, val_tokens,
};
use crate::bpe::merge::SHORT_MERGE_MAX;
use crate::bpe::model::{inverse_spells, model_tokens, Model, ModelView};
use crate::bpe::pretoken_cache::{is_pow2, lemma_pow2_double, ShortPretokenCache};
use crate::bytes_map::BytesMap;
use crate::pretokenize::keys::{
    law_keys_distinct, pack_pretoken_key, pretoken_key, pretoken_key_hash,
};
use crate::token::TokenId;
use vstd::prelude::*;

verus! {

/// What decides the tokens of a pretoken.
pub struct EncodeView {
    pub model: ModelView,
    pub added: Seq<AddedToken>,
    pub ignore_merges: bool,
}

/// A pretoken of 1 to 15 bytes.
pub open spec fn is_short(b: Seq<u8>) -> bool {
    1 <= b.len() <= 15
}

/// A short pretoken that is the content of an added token and has a token of
/// its own is that token.
pub open spec fn is_overwritten(e: EncodeView, b: Seq<u8>) -> bool {
    &&& is_short(b)
    &&& e.model.vocab_inv.contains_key(b)
    &&& exists|i: int| 0 <= i < e.added.len() && (#[trigger] e.added[i]).content == b
}

/// The tokens of one pretoken.
pub open spec fn pretoken_tokens(e: EncodeView, b: Seq<u8>) -> Seq<TokenId> {
    if is_overwritten(e, b) {
        seq![e.model.vocab_inv[b]]
    } else {
        model_tokens(e.model, e.ignore_merges, b)
    }
}

/// The cache key of a short pretoken.
pub open spec fn key_of(b: Seq<u8>) -> u128 {
    pretoken_key(b)->0
}

/// The short table, where it holds `b`, maps it to `toks`.
pub open spec fn short_maps(
    short: Map<u128, (u64, u64)>,
    arena: Seq<TokenId>,
    b: Seq<u8>,
    toks: Seq<TokenId>,
) -> bool {
    short.contains_key(key_of(b)) ==> val_ok(short[key_of(b)], arena) && val_tokens(
        short[key_of(b)],
        arena,
    ) == ids(toks)
}

/// The long map holds tokens of `e` for long and empty pretokens.
pub open spec fn long_ok(
    long: Map<Seq<u8>, (u32, u32)>,
    arena: Seq<TokenId>,
    e: EncodeView,
) -> bool {
    forall|b: Seq<u8>| #[trigger]
        long.contains_key(b) ==> !is_short(b) && long[b].0 + long[b].1 <= arena.len()
            && arena.subrange(long[b].0 as int, long[b].0 + long[b].1) == pretoken_tokens(e, b)
}

/// `b` continues `a`.
pub open spec fn continues(a: Seq<TokenId>, b: Seq<TokenId>) -> bool {
    a.len() <= b.len() && b.take(a.len() as int) == a
}

proof fn lemma_continues_split(a: Seq<TokenId>, b: Seq<TokenId>)
    requires
        continues(a, b),
    ensures
        b == a + b.skip(a.len() as int),
{
    assert(b =~= b.take(a.len() as int) + b.skip(a.len() as int));
}

proof fn lemma_long_grows(
    long: Map<Seq<u8>, (u32, u32)>,
    a: Seq<TokenId>,
    b: Seq<TokenId>,
    e: EncodeView,
)
    requires
        long_ok(long, a, e),
        continues(a, b),
    ensures
        long_ok(long, b, e),
{
    assert forall|k: Seq<u8>| #[trigger] long.contains_key(k) implies !is_short(k) && long[k].0
        + long[k].1 <= b.len() && b.subrange(long[k].0 as int, long[k].0 + long[k].1)
        == pretoken_tokens(e, k) by {
        lemma_continues_split(a, b);
        assert(b.subrange(long[k].0 as int, long[k].0 + long[k].1) =~= a.subrange(
            long[k].0 as int,
            long[k].0 + long[k].1,
        ));
    }
}

proof fn lemma_short_grows(
    short: Map<u128, (u64, u64)>,
    a: Seq<TokenId>,
    c: Seq<TokenId>,
    b: Seq<u8>,
    toks: Seq<TokenId>,
)
    requires
        short_maps(short, a, b, toks),
        continues(a, c),
    ensures
        short_maps(short, c, b, toks),
{
    if short.contains_key(key_of(b)) {
        lemma_continues_split(a, c);
        lemma_val_stable(short[key_of(b)], a, c.skip(a.len() as int));
    }
}

/// The caches hold a pretoken.
pub open spec fn in_caches(c: Caches, b: Seq<u8>) -> bool {
    if is_short(b) {
        c.short@.contains_key(key_of(b))
    } else {
        c.long@.contains_key(b)
    }
}

/// What `a` holds, `b` holds, and `b` is no smaller.
pub open spec fn caches_keep(a: Caches, b: Caches) -> bool {
    &&& forall|k: u128| a.short@.contains_key(k) ==> #[trigger] b.short@.contains_key(k)
    &&& forall|x: Seq<u8>| a.long@.contains_key(x) ==> #[trigger] b.long@.contains_key(x)
    &&& a.short@.len() <= b.short@.len()
    &&& a.arena@.len() <= b.arena@.len()
}

/// The caches hold a pretoken of `n` tokens, unless they are at the limit of
/// what a table or 32 bits can hold.
pub open spec fn in_caches_if_room(c: Caches, b: Seq<u8>, n: int) -> bool {
    c.arena@.len() + n <= u32::MAX && c.short@.len() < usize::MAX / 32 ==> in_caches(c, b)
}

/// The number of entries of 1 to 15 bytes.
pub open spec fn short_count(vocab: Seq<Seq<u8>>) -> nat
    decreases vocab.len(),
{
    if vocab.len() == 0 {
        0
    } else {
        short_count(vocab.drop_last()) + if is_short(vocab.last()) {
            1nat
        } else {
            0nat
        }
    }
}

/// The keys of the entries of 1 to 15 bytes.
spec fn seed_keys(vocab: Seq<Seq<u8>>) -> Set<u128>
    decreases vocab.len(),
{
    if vocab.len() == 0 {
        Set::empty()
    } else if is_short(vocab.last()) {
        seed_keys(vocab.drop_last()).insert(key_of(vocab.last()))
    } else {
        seed_keys(vocab.drop_last())
    }
}

/// There are no more keys than entries.
proof fn lemma_seed_keys(vocab: Seq<Seq<u8>>)
    ensures
        seed_keys(vocab).finite(),
        seed_keys(vocab).len() <= short_count(vocab),
        forall|b: Seq<u8>| #[trigger]
            vocab.contains(b) && is_short(b) ==> seed_keys(vocab).contains(key_of(b)),
    decreases vocab.len(),
{
    if vocab.len() > 0 {
        let head = vocab.drop_last();
        lemma_seed_keys(head);
        assert forall|b: Seq<u8>| #[trigger]
            vocab.contains(b) && is_short(b) implies seed_keys(vocab).contains(key_of(b)) by {
            let i = choose|i: int| 0 <= i < vocab.len() && vocab[i] == b;
            if i < head.len() {
                assert(head[i] == b);
                assert(head.contains(b));
            }
        }
    }
}

/// Keys that were there before or belong to entries are no more than the two
/// together.
proof fn lemma_keys_bounded(now: Set<u128>, before: Set<u128>, vocab: Seq<Seq<u8>>)
    requires
        before.finite(),
        forall|k: u128| #[trigger]
            now.contains(k) ==> before.contains(k) || seed_keys(vocab).contains(k),
    ensures
        now.len() <= before.len() + short_count(vocab),
{
    lemma_seed_keys(vocab);
    let both = before + seed_keys(vocab);
    vstd::set_lib::lemma_set_disjoint_lens(before, seed_keys(vocab).difference(before));
    assert(before + seed_keys(vocab).difference(before) =~= both);
    vstd::set_lib::lemma_len_subset(seed_keys(vocab).difference(before), seed_keys(vocab));
    vstd::set_lib::lemma_len_subset(now, both);
}

/// The number of entries of 1 to 15 bytes.
pub fn count_short(vocab: &Vec<Vec<u8>>) -> (n: usize)
    ensures
        n == short_count(contents(vocab@)),
        n <= vocab@.len(),
{
    let ghost all = contents(vocab@);
    let mut n: usize = 0;
    let mut i: usize = 0;
    proof {
        assert(all.take(0) =~= Seq::<Seq<u8>>::empty());
    }
    while i < vocab.len()
        invariant
            n <= i <= vocab@.len(),
            all == contents(vocab@),
            n == short_count(all.take(i as int)),
        decreases vocab@.len() - i,
    {
        proof {
            assert(all.take(i + 1).drop_last() =~= all.take(i as int));
        }
        if vocab[i].len() >= 1 && vocab[i].len() <= 15 {
            n += 1;
        }
        i += 1;
    }
    proof {
        assert(all.take(i as int) =~= all);
    }
    n
}

/// The tokens in an arena of `len` after some are stored: those that do not fit
/// into a value are appended.
pub open spec fn spilled_len(len: nat, toks: Seq<TokenId>) -> nat {
    if !fits_inline(toks) && len <= u32::MAX && toks.len() <= 127 {
        len + toks.len()
    } else {
        len
    }
}

/// The tokens in an arena of `len` after the first `n` vocabulary entries are
/// seeded.
pub open spec fn vocab_seed_len(m: ModelView, ignore_merges: bool, len: nat, n: nat) -> nat
    decreases n,
{
    if n == 0 {
        len
    } else {
        let before = vocab_seed_len(m, ignore_merges, len, (n - 1) as nat);
        let b = m.vocab[n - 1];
        if is_short(b) {
            spilled_len(before, model_tokens(m, ignore_merges, b))
        } else {
            before
        }
    }
}

/// The same after the first `n` added tokens on top of `len`.
pub open spec fn added_seed_len(e: EncodeView, len: nat, n: nat) -> nat
    decreases n,
{
    if n == 0 {
        len
    } else {
        let before = added_seed_len(e, len, (n - 1) as nat);
        let b = e.added[n - 1].content;
        if is_short(b) && e.model.vocab_inv.contains_key(b) {
            spilled_len(before, seq![e.model.vocab_inv[b]])
        } else {
            before
        }
    }
}

/// The tokens in an arena of `len` after seeding.
pub open spec fn seeded_len(e: EncodeView, len: nat) -> nat {
    added_seed_len(
        e,
        vocab_seed_len(e.model, e.ignore_merges, len, e.model.vocab.len()),
        e.added.len(),
    )
}

/// The caches: a table of short pretokens, a map of the others, and the arena
/// that holds the longer encodings of both.
pub struct Caches {
    pub short: ShortPretokenCache,
    pub long: BytesMap<(u32, u32)>,
    pub arena: Vec<TokenId>,
}

impl Caches {
    /// Every entry is what `e` encodes its pretoken to.
    pub open spec fn hold(&self, e: EncodeView) -> bool {
        &&& forall|b: Seq<u8>|
            is_short(b) ==> #[trigger] short_maps(
                self.short@,
                self.arena@,
                b,
                pretoken_tokens(e, b),
            )
        &&& long_ok(self.long@, self.arena@, e)
    }

    /// Sets the encoding of a short pretoken. A table that cannot take it is
    /// emptied.
    pub fn store_short(&mut self, bytes: &[u8], symbols: &[TokenId])
        requires
            is_short(bytes@),
        ensures
            forall|b: Seq<u8>, toks: Seq<TokenId>|
                is_short(b) && b != bytes@ && short_maps(old(self).short@, old(self).arena@, b, toks)
                    ==> #[trigger] short_maps(final(self).short@, final(self).arena@, b, toks),
            short_maps(final(self).short@, final(self).arena@, bytes@, symbols@),
            final(self).long == old(self).long,
            continues(old(self).arena@, final(self).arena@),
            final(self).arena@.len() == spilled_len(old(self).arena@.len(), symbols@),
            final(self).short@.len() <= old(self).short@.len() + 1,
            forall|k: u128| #[trigger]
                final(self).short@.contains_key(k) ==> old(self).short@.contains_key(k) || k
                    == key_of(bytes@),
            final(self).short.slot_count() >= old(self).short.slot_count(),
            forall|limit: int| #[trigger]
                is_pow2(limit) && old(self).short.slot_count() <= limit && (old(self).short@.len()
                    + 1) * 4 <= limit * 3 ==> final(self).short.slot_count() <= limit,
    {
        let ghost arena0 = self.arena@;
        let ghost short0 = self.short@;
        let n: usize = self.short.len();
        let slots: usize = self.short.capacity();
        let packed = pack_val(symbols, &mut self.arena);
        proof {
            assert(continues(arena0, self.arena@)) by {
                assert(self.arena@.take(arena0.len() as int) =~= arena0);
            }
        }
        match packed {
            Some((val, ext)) => {
                if n < usize::MAX / 32 {
                    let key: u128 = match pack_pretoken_key(bytes) {
                        Some(k) => k,
                        None => 0,
                    };
                    proof {
                        law_keys_distinct(bytes@, bytes@);
                    }
                    let h: u64 = pretoken_key_hash(key);
                    self.short.replace(key, h, val, ext);
                    proof {
                        assert forall|b: Seq<u8>, toks: Seq<TokenId>|
                            is_short(b) && b != bytes@ && short_maps(short0, arena0, b, toks) implies
                            #[trigger] short_maps(self.short@, self.arena@, b, toks) by {
                            law_keys_distinct(b, bytes@);
                            lemma_short_grows(short0, arena0, self.arena@, b, toks);
                        }
                        assert forall|limit: int| #[trigger]
                            is_pow2(limit) && slots <= limit && (n + 1) * 4 <= limit * 3 implies self.short.slot_count()
                            <= limit by {
                            if slots < limit {
                                lemma_pow2_double(slots as int, limit);
                            }
                        }
                        assert(self.short@.len() <= short0.len() + 1);
                    }
                } else {
                    self.short.clear();
                }
            },
            None => {
                self.short.clear();
            },
        }
    }

    /// Records the encoding of a long pretoken, unless the arena is past what
    /// 32 bits address. Returns whether it was recorded.
    pub(crate) fn store_long(&mut self, bytes: &[u8], symbols: &[TokenId], e: Ghost<EncodeView>) -> (r: bool)
        requires
            old(self).hold(e@),
            !is_short(bytes@),
            symbols@ == pretoken_tokens(e@, bytes@),
        ensures
            final(self).hold(e@),
            final(self).short == old(self).short,
            r == (old(self).arena@.len() + symbols@.len() <= u32::MAX),
            final(self).arena@ == if r {
                old(self).arena@ + symbols@
            } else {
                old(self).arena@
            },
            final(self).long@ == if r {
                old(self).long@.insert(bytes@, (old(self).arena@.len() as u32, symbols@.len() as u32))
            } else {
                old(self).long@
            },
            final(self).long.key_weight() == old(self).long.key_weight() + if r
                && !old(self).long@.contains_key(bytes@) {
                bytes@.len()
            } else {
                0
            },
    {
        let start: usize = self.arena.len();
        let n: usize = symbols.len();
        if start as u64 > u32::MAX as u64 || n as u64 > u32::MAX as u64 - start as u64 {
            return false;
        }
        let ghost arena0 = self.arena@;
        let ghost long0 = self.long@;
        append_tokens(&mut self.arena, symbols);
        self.long.insert(bytes, (start as u32, n as u32));
        proof {
            assert(continues(arena0, self.arena@)) by {
                assert(self.arena@.take(arena0.len() as int) =~= arena0);
            }
            lemma_long_grows(long0, arena0, self.arena@, e@);
            assert(self.arena@.subrange(start as int, start + n) =~= symbols@);
            assert forall|b: Seq<u8>| is_short(b) implies #[trigger] short_maps(
                self.short@,
                self.arena@,
                b,
                pretoken_tokens(e@, b),
            ) by {
                assert(short_maps(self.short@, arena0, b, pretoken_tokens(e@, b)));
                lemma_short_grows(self.short@, arena0, self.arena@, b, pretoken_tokens(e@, b));
            }
        }
        true
    }

    /// Drops every entry.
    pub fn clear(&mut self)
        ensures
            final(self).short@ == Map::<u128, (u64, u64)>::empty(),
            final(self).short.slot_count() == old(self).short.slot_count(),
            final(self).long@ == Map::<Seq<u8>, (u32, u32)>::empty(),
            final(self).long.key_weight() == 0,
            final(self).arena@.len() == 0,
    {
        self.short.clear();
        self.arena.clear();
        self.long.clear();
    }

    /// Stores the encoding of every vocabulary entry of 1 to 15 bytes, and
    /// over it the token of every added token of that length that has one.
    pub fn seed(&mut self, model: &Model, ignore_merges: bool, added: &Vec<AddedTokenDef>)
        requires
            ({
                let e = EncodeView { model: model@, added: added_views(added@), ignore_merges };
                &&& long_ok(old(self).long@, old(self).arena@, e)
                &&& forall|b: Seq<u8>|
                    is_short(b) && !model@.vocab.contains(b) ==> #[trigger] short_maps(
                        old(self).short@,
                        old(self).arena@,
                        b,
                        model_tokens(model@, ignore_merges, b),
                    )
            }),
        ensures
            final(self).hold(
                EncodeView { model: model@, added: added_views(added@), ignore_merges },
            ),
            final(self).long == old(self).long,
            continues(old(self).arena@, final(self).arena@),
            final(self).arena@.len() == seeded_len(
                EncodeView { model: model@, added: added_views(added@), ignore_merges },
                old(self).arena@.len(),
            ),
            final(self).short@.len() <= old(self).short@.len() + short_count(model@.vocab),
            final(self).short.slot_count() >= old(self).short.slot_count(),
            forall|limit: int| #[trigger]
                is_pow2(limit) && old(self).short.slot_count() <= limit && (old(self).short@.len()
                    + short_count(model@.vocab) + 1) * 4 <= limit * 3 ==> final(self).short.slot_count()
                    <= limit,
    {
        let ghost e = EncodeView { model: model@, added: added_views(added@), ignore_merges };
        let ghost short0 = self.short@;
        let ghost arena0 = self.arena@;
        let ghost long0 = self.long@;
        let ghost slots0 = self.short.slot_count();
        let _n0: usize = self.short.len();
        let vocab = model.vocab();
        let ghost all = contents(vocab@);
        let mut buf: [TokenId; SHORT_MERGE_MAX] = [TokenId(0);16];
        let mut i: usize = 0;
        proof {
            assert(all.take(0) =~= Seq::<Seq<u8>>::empty());
            assert(self.arena@.take(arena0.len() as int) =~= arena0);
        }
        while i < vocab.len()
            invariant
                i <= vocab@.len(),
                all == contents(vocab@),
                all == model@.vocab,
                self.long@ == long0,
                self.long == old(self).long,
                continues(arena0, self.arena@),
                self.arena@.len() == vocab_seed_len(model@, ignore_merges, arena0.len(), i as nat),
                self.short@.len() <= short0.len() + short_count(all.take(i as int)),
                forall|k: u128| #[trigger]
                    self.short@.contains_key(k) ==> short0.contains_key(k) || seed_keys(
                        all.take(i as int),
                    ).contains(k),
                self.short.slot_count() >= slots0,
                forall|limit: int| #[trigger]
                    is_pow2(limit) && slots0 <= limit && (short0.len() + short_count(all.take(i as int)) + 1) * 4
                        <= limit * 3 ==> self.short.slot_count() <= limit,
                forall|b: Seq<u8>|
                    is_short(b) && (!all.contains(b) || all.take(i as int).contains(b)) ==> #[trigger] short_maps(
                        self.short@,
                        self.arena@,
                        b,
                        model_tokens(model@, ignore_merges, b),
                    ),
            decreases vocab@.len() - i,
        {
            let ghost before = *self;
            proof {
                assert(all.take(i + 1).drop_last() =~= all.take(i as int));
                assert(all.take(i + 1).last() == vocab@[i as int]@);
            }
            let bytes = vocab[i].as_slice();
            if bytes.len() >= 1 && bytes.len() <= 15 {
                let n: usize = model.seed_encode(ignore_merges, bytes, &mut buf);
                let whole: &[TokenId] = &buf;
                let symbols = vstd::slice::slice_subrange(whole, 0, n);
                proof {
                    assert(symbols@ =~= buf@.take(n as int));
                }
                self.store_short(bytes, symbols);
                proof {
                    lemma_continues_trans(arena0, before.arena@, self.arena@);
                }
            }
            proof {
                assert forall|b: Seq<u8>|
                    is_short(b) && (!all.contains(b) || all.take(i + 1).contains(b)) implies #[trigger] short_maps(
                    self.short@,
                    self.arena@,
                    b,
                    model_tokens(model@, ignore_merges, b),
                ) by {
                    if b != bytes@ {
                        if all.take(i + 1).contains(b) {
                            let head = all.take(i + 1);
                            let k = choose|k: int| 0 <= k < head.len() && head[k] == b;
                            assert(all.take(i as int)[k] == b);
                        }
                        assert(short_maps(
                            before.short@,
                            before.arena@,
                            b,
                            model_tokens(model@, ignore_merges, b),
                        ));
                    }
                }
                assert forall|limit: int| #[trigger]
                    is_pow2(limit) && slots0 <= limit && (short0.len() + short_count(all.take(i + 1)) + 1) * 4
                        <= limit * 3 implies self.short.slot_count() <= limit by {
                    assert(before.short.slot_count() <= limit);
                }
            }
            i += 1;
        }
        proof {
            assert(all.take(i as int) =~= all);
        }
        let ghost mid = *self;
        let mut j: usize = 0;
        while j < added.len()
            invariant
                j <= added@.len(),
                all == model@.vocab,
                inverse_spells(model@.vocab_inv, all),
                e == (EncodeView { model: model@, added: added_views(added@), ignore_merges }),
                self.long@ == long0,
                self.long == old(self).long,
                continues(arena0, self.arena@),
                self.arena@.len() == added_seed_len(e, mid.arena@.len(), j as nat),
                short0.dom().finite(),
                self.short@.len() <= short0.len() + short_count(all),
                forall|k: u128| #[trigger]
                    self.short@.contains_key(k) ==> short0.contains_key(k) || seed_keys(
                        all,
                    ).contains(k),
                self.short.slot_count() >= slots0,
                forall|limit: int| #[trigger]
                    is_pow2(limit) && slots0 <= limit && (short0.len() + short_count(all) + 1) * 4
                        <= limit * 3 ==> self.short.slot_count() <= limit,
                forall|b: Seq<u8>|
                    is_short(b) ==> #[trigger] short_maps(
                        self.short@,
                        self.arena@,
                        b,
                        pretoken_tokens(
                            EncodeView {
                                model: model@,
                                added: e.added.take(j as int),
                                ignore_merges,
                            },
                            b,
                        ),
                    ),
            decreases added@.len() - j,
        {
            let ghost before = *self;
            let ghost e0 = EncodeView {
                model: model@,
                added: e.added.take(j as int),
                ignore_merges,
            };
            let ghost e1 = EncodeView { model: model@, added: e.added.take(j + 1), ignore_merges };
            let content = added[j].content.as_slice();
            proof {
                assert(e.added[j as int].content == content@);
                assert forall|b: Seq<u8>| #[trigger] pretoken_tokens(e1, b) == if b == content@ && is_short(b)
                    && model@.vocab_inv.contains_key(b) {
                    seq![model@.vocab_inv[b]]
                } else {
                    pretoken_tokens(e0, b)
                } by {
                    lemma_one_more(e, j as int, b);
                }
            }
            let mut stored = false;
            if content.len() >= 1 && content.len() <= 15 {
                match model.token_of(content) {
                    Some(id) => {
                        let one: [TokenId; 1] = [id];
                        let symbols: &[TokenId] = &one;
                        proof {
                            assert(symbols@ =~= seq![id]);
                        }
                        self.store_short(content, symbols);
                        stored = true;
                        proof {
                            lemma_continues_trans(arena0, before.arena@, self.arena@);
                            lemma_seed_keys(all);
                            assert(all.contains(content@)) by {
                                assert(all[model@.vocab_inv[content@].0 as int] == content@);
                            }
                            lemma_keys_bounded(self.short@.dom(), short0.dom(), all);
                        }
                    },
                    None => {},
                }
            }
            proof {
                assert forall|b: Seq<u8>| is_short(b) implies #[trigger] short_maps(
                    self.short@,
                    self.arena@,
                    b,
                    pretoken_tokens(e1, b),
                ) by {
                    assert(short_maps(
                        before.short@,
                        before.arena@,
                        b,
                        pretoken_tokens(e0, b),
                    ));
                    assert(pretoken_tokens(e1, b) == pretoken_tokens(e1, b));
                }
                assert forall|limit: int| #[trigger]
                    is_pow2(limit) && slots0 <= limit && (short0.len() + short_count(all) + 1) * 4
                        <= limit * 3 implies self.short.slot_count() <= limit by {
                    assert(before.short.slot_count() <= limit);
                }
            }
            j += 1;
        }
        proof {
            assert(e.added.take(j as int) =~= e.added);
            lemma_long_grows(long0, arena0, self.arena@, e);
        }
    }

    /// Appends the tokens of a long pretoken that the map holds. Returns
    /// whether it does.
    pub(crate) fn emit_long(&self, bytes: &[u8], out: &mut Vec<u32>, e: Ghost<EncodeView>) -> (found: bool)
        requires
            self.hold(e@),
        ensures
            found == self.long@.contains_key(bytes@),
            final(out)@ == if found {
                old(out)@ + ids(pretoken_tokens(e@, bytes@))
            } else {
                old(out)@
            },
    {
        match self.long.get(bytes) {
            Some((offset, len)) => {
                let total: usize = self.arena.len();
                let start: usize = offset as usize;
                proof {
                    assert(self.long@.contains_key(bytes@));
                    assert(start + len <= total);
                }
                append_ids(
                    out,
                    vstd::slice::slice_subrange(self.arena.as_slice(), start, start + len as usize),
                );
                true
            },
            None => false,
        }
    }
}

proof fn lemma_continues_trans(a: Seq<TokenId>, b: Seq<TokenId>, c: Seq<TokenId>)
    requires
        continues(a, b),
        continues(b, c),
    ensures
        continues(a, c),
{
    assert(c.take(a.len() as int) =~= b.take(a.len() as int));
}

/// The entries stay right while the arena grows.
pub proof fn lemma_hold_grows(c: Caches, arena: Seq<TokenId>, e: EncodeView)
    requires
        c.hold(e),
        continues(c.arena@, arena),
    ensures
        forall|b: Seq<u8>|
            is_short(b) ==> #[trigger] short_maps(c.short@, arena, b, pretoken_tokens(e, b)),
        long_ok(c.long@, arena, e),
{
    lemma_long_grows(c.long@, c.arena@, arena, e);
    assert forall|b: Seq<u8>| is_short(b) implies #[trigger] short_maps(
        c.short@,
        arena,
        b,
        pretoken_tokens(e, b),
    ) by {
        assert(short_maps(c.short@, c.arena@, b, pretoken_tokens(e, b)));
        lemma_short_grows(c.short@, c.arena@, arena, b, pretoken_tokens(e, b));
    }
}

/// One more added token changes the tokens of its own content alone.
proof fn lemma_one_more(e: EncodeView, j: int, b: Seq<u8>)
    requires
        0 <= j < e.added.len(),
    ensures
        ({
            let e0 = EncodeView {
                model: e.model,
                added: e.added.take(j),
                ignore_merges: e.ignore_merges,
            };
            let e1 = EncodeView {
                model: e.model,
                added: e.added.take(j + 1),
                ignore_merges: e.ignore_merges,
            };
            pretoken_tokens(e1, b) == if b == e.added[j].content && is_short(b)
                && e.model.vocab_inv.contains_key(b) {
                seq![e.model.vocab_inv[b]]
            } else {
                pretoken_tokens(e0, b)
            }
        }),
{
    let e0 = EncodeView { model: e.model, added: e.added.take(j), ignore_merges: e.ignore_merges };
    let e1 = EncodeView {
        model: e.model,
        added: e.added.take(j + 1),
        ignore_merges: e.ignore_merges,
    };
    if is_overwritten(e0, b) {
        let i = choose|i: int| 0 <= i < e0.added.len() && (#[trigger] e0.added[i]).content == b;
        assert(e1.added[i].content == b);
    }
    if is_overwritten(e1, b) {
        let i = choose|i: int| 0 <= i < e1.added.len() && (#[trigger] e1.added[i]).content == b;
        if i < j {
            assert(e0.added[i].content == b);
        }
    }
    if b == e.added[j].content {
        assert(e1.added[j].content == b);
    }
}

} // verus!
