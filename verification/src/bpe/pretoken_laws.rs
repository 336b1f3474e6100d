//! What a pretoken encodes to, and how large its caches are.
use crate::bpe::added::AddedToken;
use crate::bpe::added_laws::law_by_length_keeps_tokens;
use crate::bpe::budget::CacheBudget;
use crate::bpe::bytes::byte_symbols;
use crate::bpe::cache_value::fits_inline;
use crate::bpe::caches::{pretoken_tokens, EncodeView};
use crate::bpe::pretoken_cache::slots_after;
use crate::bpe::rules::bpe_merge;
use crate::bpe::tiktoken::{hinted_slots, special_def, with_special, TokenizerView};
use crate::token::TokenId;
use vstd::prelude::*;

verus! {

/// A pretoken is what its bytes merge to, with two exceptions: where whole
/// tokens come first, one that has a token is that token; and so is one of up to
/// 15 bytes that is the content of an added token.
pub proof fn law_pretoken_is_merged_or_whole(e: EncodeView, b: Seq<u8>)
    ensures
        !e.model.vocab_inv.contains_key(b) ==> pretoken_tokens(e, b) == bpe_merge(
            e.model.rules,
            byte_symbols(e.model.table, b),
        ),
        !e.ignore_merges && (forall|i: int|
            0 <= i < e.added.len() ==> (#[trigger] e.added[i]).content != b) ==> pretoken_tokens(e, b)
            == bpe_merge(e.model.rules, byte_symbols(e.model.table, b)),
        !e.ignore_merges && (b.len() == 0 || b.len() > 15) ==> pretoken_tokens(e, b) == bpe_merge(
            e.model.rules,
            byte_symbols(e.model.table, b),
        ),
        e.model.vocab_inv.contains_key(b) && e.ignore_merges ==> pretoken_tokens(e, b) == seq![
            e.model.vocab_inv[b],
        ],
        e.model.vocab_inv.contains_key(b) && 1 <= b.len() <= 15 && (exists|i: int|
            0 <= i < e.added.len() && (#[trigger] e.added[i]).content == b) ==> pretoken_tokens(e, b)
            == seq![e.model.vocab_inv[b]],
{
}

/// How many slots a hint asks for: as many as it says, within 65,536 and
/// 4,194,304, and never more than a budget allows.
pub proof fn law_hint_is_kept_in_bounds(hint: usize)
    ensures
        0x1_0000 <= hint <= 0x40_0000 ==> hinted_slots(hint, None) == hint,
        65_536 <= hinted_slots(hint, None) <= 4_194_304,
        hint <= 65_536 ==> hinted_slots(hint, None) == 65_536,
        hint >= 4_194_304 ==> hinted_slots(hint, None) == 4_194_304,
{
}

/// A budget bounds the slots that a hint asks for.
pub proof fn law_budget_bounds_the_hint(hint: usize, b: CacheBudget)
    ensures
        hinted_slots(hint, Some(b)) <= b.short_slots,
        hinted_slots(hint, Some(b)) == b.short_slots || hinted_slots(hint, Some(b)) == hinted_slots(
            hint,
            None,
        ),
        hinted_slots(hint, Some(b)) <= hinted_slots(hint, None),
{
}

/// A table never fills more than three quarters of its slots, and it grows only
/// when it has to.
pub proof fn law_table_keeps_room(slots: nat, n: nat)
    requires
        slots >= 2,
    ensures
        n * 4 <= slots_after(slots, n) * 3,
        slots_after(slots, n) >= slots,
        n * 4 <= slots * 3 ==> slots_after(slots, n) == slots,
        slots_after(slots, n) > slots ==> n * 8 > slots_after(slots, n) * 3,
    decreases n,
{
    if n > 0 {
        law_table_keeps_room(slots, (n - 1) as nat);
    }
}

/// One to four tokens with a first one below 2^24 are held in a value as they
/// are.
pub proof fn law_values_hold_few_tokens(s: Seq<TokenId>)
    ensures
        fits_inline(s) ==> 1 <= s.len() <= 4,
        s.len() == 0 || s.len() > 4 ==> !fits_inline(s),
        1 <= s.len() <= 4 && s[0].0 < 16_777_216 ==> fits_inline(s),
        s.len() > 0 && s[0].0 >= 16_777_216 ==> !fits_inline(s),
{
}

/// Special tokens join the added tokens: each with content is matched as it is,
/// and those that were there stay.
pub proof fn law_special_tokens_are_added(
    t: TokenizerView,
    tokens: Seq<(Seq<u8>, TokenId)>,
    i: int,
    old_token: AddedToken,
)
    requires
        0 <= i < tokens.len(),
        tokens[i].0.len() > 0,
    ensures
        with_special(t, tokens).added.contains(
            AddedToken { content: tokens[i].0, id: tokens[i].1, lstrip: false, rstrip: false },
        ),
        t.added.contains(old_token) && old_token.content.len() > 0 ==> with_special(
            t,
            tokens,
        ).added.contains(old_token),
        with_special(t, tokens).scheme == t.scheme,
        with_special(t, tokens).nfc == t.nfc,
        with_special(t, tokens).prefix_space == t.prefix_space,
        with_special(t, tokens).ignore_merges == t.ignore_merges,
{
    let x = AddedToken { content: tokens[i].0, id: tokens[i].1, lstrip: false, rstrip: false };
    let more = tokens.map_values(
        |x: (Seq<u8>, TokenId)| special_def(x),
    );
    let all = t.added + more;
    assert(all[t.added.len() + i] == x);
    law_by_length_keeps_tokens(all, x);
    law_by_length_keeps_tokens(all, old_token);
    if t.added.contains(old_token) {
        let k = choose|k: int| 0 <= k < t.added.len() && t.added[k] == old_token;
        assert(all[k] == old_token);
    }
}

/// A budget is shared out: the short table takes its slots of 32 bytes, and the
/// arena and the long map half of the rest each. Where the rest is large enough
/// for their floors, the shares add up to the budget but for a few bytes.
pub proof fn law_budget_is_shared_out(b: CacheBudget, total: int, n_seed: int, seed_len: int)
    requires
        0 <= total <= usize::MAX,
        0 <= n_seed,
        0 <= seed_len,
        b.splits(total, n_seed, seed_len),
        b.short_slots * 32 + 0x2_0002 <= total,
        b.short_slots * 32 + 8 * (seed_len * 2 + 4096 + 1) <= total,
    ensures
        b.total_bytes == total,
        b.short_slots * 32 + b.arena_entries * 4 + b.long_bytes <= total,
        total < b.short_slots * 32 + b.arena_entries * 4 + b.long_bytes + 6,
        b.arena_entries * 4 <= b.long_bytes < b.arena_entries * 4 + 4,
        n_seed * 8 <= b.short_slots * 5,
{
}

} // verus!
