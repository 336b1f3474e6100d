//! How a cached encoding is packed into two words.
use crate::token::TokenId;
use vstd::prelude::*;

verus! {

/// Set in a value whose tokens stand in the token arena.
pub const VAL_SPILL: u64 = 0x80;

/// The raw numbers of a token sequence.
pub open spec fn ids(s: Seq<TokenId>) -> Seq<u32> {
    s.map_values(|t: TokenId| t.0)
}

/// The number of tokens of a value.
pub open spec fn val_count(val: u64) -> int {
    (val % 128) as int
}

/// The tokens of the value stand in the arena.
pub open spec fn val_spilled(val: u64) -> bool {
    (val / 128) % 2 == 1
}

/// The four token lanes of an inline value: 24 bits, 32 bits, and the two
/// halves of the extension.
pub open spec fn val_lanes(val: u64, ext: u64) -> Seq<u32> {
    seq![
        ((val / 256) % 0x100_0000) as u32,
        (val / 0x1_0000_0000) as u32,
        (ext % 0x1_0000_0000) as u32,
        (ext / 0x1_0000_0000) as u32,
    ]
}

/// The value points at tokens that exist.
pub open spec fn val_ok(v: (u64, u64), arena: Seq<TokenId>) -> bool {
    if val_spilled(v.0) {
        v.0 / 0x1_0000_0000 + val_count(v.0) <= arena.len()
    } else {
        val_count(v.0) <= 4
    }
}

/// The tokens of a value.
pub open spec fn val_tokens(v: (u64, u64), arena: Seq<TokenId>) -> Seq<u32> {
    if val_spilled(v.0) {
        let start = (v.0 / 0x1_0000_0000) as int;
        ids(arena.subrange(start, start + val_count(v.0)))
    } else {
        val_lanes(v.0, v.1).take(val_count(v.0))
    }
}

/// One to four tokens fit into a value when the first is below 2^24.
pub open spec fn fits_inline(s: Seq<TokenId>) -> bool {
    1 <= s.len() <= 4 && s[0].0 < 0x100_0000
}

/// Tokens go to the arena: they do not fit into a value, and their place and
/// their number fit.
pub open spec fn spills(s: Seq<TokenId>, arena: Seq<TokenId>) -> bool {
    !fits_inline(s) && arena.len() <= u32::MAX && s.len() <= 127
}

/// Tokens have a value.
pub open spec fn packs(s: Seq<TokenId>, arena: Seq<TokenId>) -> bool {
    fits_inline(s) || spills(s, arena)
}

proof fn lemma_word_fields(n: int, a: int, b: int)
    requires
        0 <= n < 256,
        0 <= a < 0x100_0000,
        0 <= b < 0x1_0000_0000,
    ensures
        ({
            let val = n + a * 256 + b * 0x1_0000_0000;
            &&& val % 128 == n % 128
            &&& (val / 128) % 2 == n / 128
            &&& (val / 256) % 0x100_0000 == a
            &&& val / 0x1_0000_0000 == b
        }),
{
}

proof fn lemma_lanes_are_ids(s: Seq<TokenId>, val: u64, ext: u64)
    requires
        fits_inline(s),
        (val / 256) % 0x100_0000 == s[0].0,
        s.len() > 1 ==> val / 0x1_0000_0000 == s[1].0,
        s.len() > 2 ==> ext % 0x1_0000_0000 == s[2].0,
        s.len() > 3 ==> ext / 0x1_0000_0000 == s[3].0,
    ensures
        val_lanes(val, ext).take(s.len() as int) == ids(s),
{
    assert(val_lanes(val, ext).take(s.len() as int) =~= ids(s));
}

/// Packs one to four tokens, the first below 2^24; `None` for others.
pub fn pack_val_inline(symbols: &[TokenId]) -> (r: Option<(u64, u64)>)
    ensures
        r is Some <==> fits_inline(symbols@),
        r matches Some(v) ==> !val_spilled(v.0) && val_count(v.0) == symbols@.len()
            && forall|arena: Seq<TokenId>| #[trigger]
            val_ok(v, arena) && val_tokens(v, arena) == ids(symbols@),
{
    let n: usize = symbols.len();
    if n == 0 || n > 4 || symbols[0].0 >= 0x100_0000 {
        return None;
    }
    let a: u64 = symbols[0].0 as u64;
    let b: u64 = if n > 1 {
        symbols[1].0 as u64
    } else {
        0
    };
    let c: u64 = if n > 2 {
        symbols[2].0 as u64
    } else {
        0
    };
    let d: u64 = if n > 3 {
        symbols[3].0 as u64
    } else {
        0
    };
    let val: u64 = n as u64 + a * 256 + b * 0x1_0000_0000;
    let ext: u64 = c + d * 0x1_0000_0000;
    proof {
        lemma_word_fields(n as int, a as int, b as int);
        assert(ext % 0x1_0000_0000 == c);
        assert(ext / 0x1_0000_0000 == d);
        lemma_lanes_are_ids(symbols@, val, ext);
    }
    Some((val, ext))
}

/// The four token lanes of an inline value; callers take as many as the value
/// counts.
pub fn unpack_val_lanes(val: u64, ext: u64) -> (r: [u32; 4])
    ensures
        r@ == val_lanes(val, ext),
{
    let r = [
        ((val / 256) % 0x100_0000) as u32,
        (val / 0x1_0000_0000) as u32,
        (ext % 0x1_0000_0000) as u32,
        (ext / 0x1_0000_0000) as u32,
    ];
    proof {
        assert(r@ =~= val_lanes(val, ext));
    }
    r
}

/// Appends tokens to the arena.
pub fn append_tokens(arena: &mut Vec<TokenId>, symbols: &[TokenId])
    ensures
        final(arena)@ == old(arena)@ + symbols@,
{
    let ghost before = arena@;
    let mut i: usize = 0;
    while i < symbols.len()
        invariant
            i <= symbols@.len(),
            arena@ == before + symbols@.take(i as int),
        decreases symbols@.len() - i,
    {
        arena.push(symbols[i]);
        proof {
            assert(symbols@.take(i + 1) =~= symbols@.take(i as int).push(symbols@[i as int]));
            assert(arena@ =~= before + symbols@.take(i + 1));
        }
        i += 1;
    }
    proof {
        assert(symbols@.take(i as int) =~= symbols@);
    }
}

/// Appends the raw numbers of tokens.
pub fn append_ids(out: &mut Vec<u32>, symbols: &[TokenId])
    ensures
        final(out)@ == old(out)@ + ids(symbols@),
{
    let ghost before = out@;
    let mut i: usize = 0;
    while i < symbols.len()
        invariant
            i <= symbols@.len(),
            out@ == before + ids(symbols@.take(i as int)),
        decreases symbols@.len() - i,
    {
        out.push(symbols[i].0);
        proof {
            assert(ids(symbols@.take(i + 1)) =~= ids(symbols@.take(i as int)).push(
                symbols@[i as int].0,
            ));
            assert(out@ =~= before + ids(symbols@.take(i + 1)));
        }
        i += 1;
    }
    proof {
        assert(symbols@.take(i as int) =~= symbols@);
    }
}

/// Packs a cache value: inline when the tokens fit, else into the arena.
/// `None` when the arena is past what 32 bits address, or for more than 127
/// tokens that do not fit inline.
pub fn pack_val(symbols: &[TokenId], arena: &mut Vec<TokenId>) -> (r: Option<(u64, u64)>)
    ensures
        r is None <==> !fits_inline(symbols@) && (old(arena)@.len() > u32::MAX || symbols@.len()
            > 127),
        r matches Some(v) ==> val_ok(v, final(arena)@) && val_tokens(v, final(arena)@) == ids(
            symbols@,
        ),
        final(arena)@ == if r is None || fits_inline(symbols@) {
            old(arena)@
        } else {
            old(arena)@ + symbols@
        },
{
    match pack_val_inline(symbols) {
        Some(v) => {
            proof {
                assert(val_ok(v, arena@));
            }
            Some(v)
        },
        None => {
            if arena.len() as u64 > u32::MAX as u64 || symbols.len() > 127 {
                return None;
            }
            let offset: u64 = arena.len() as u64;
            let ghost before = arena@;
            append_tokens(arena, symbols);
            let val: u64 = VAL_SPILL + symbols.len() as u64 + offset * 0x1_0000_0000;
            proof {
                lemma_word_fields(128 + symbols@.len() as int, 0, offset as int);
                assert(arena@.subrange(offset as int, offset + symbols@.len()) =~= symbols@);
            }
            Some((val, 0))
        },
    }
}

/// A value keeps its tokens while the arena grows.
pub proof fn lemma_val_stable(v: (u64, u64), arena: Seq<TokenId>, more: Seq<TokenId>)
    requires
        val_ok(v, arena),
    ensures
        val_ok(v, arena + more),
        val_tokens(v, arena + more) == val_tokens(v, arena),
{
    if val_spilled(v.0) {
        let start = (v.0 / 0x1_0000_0000) as int;
        assert((arena + more).subrange(start, start + val_count(v.0)) =~= arena.subrange(
            start,
            start + val_count(v.0),
        ));
    }
}

/// Appends the tokens of a value.
pub fn emit_val(val: u64, ext: u64, arena: &Vec<TokenId>, out: &mut Vec<u32>)
    requires
        val_ok((val, ext), arena@),
    ensures
        final(out)@ == old(out)@ + val_tokens((val, ext), arena@),
{
    let n: usize = (val % 128) as usize;
    if (val / 128) % 2 == 1 {
        let total: usize = arena.len();
        let start: usize = (val / 0x1_0000_0000) as usize;
        proof {
            assert(start + n <= total);
        }
        append_ids(out, vstd::slice::slice_subrange(arena.as_slice(), start, start + n));
    } else {
        let lanes = unpack_val_lanes(val, ext);
        let ghost before = out@;
        let mut i: usize = 0;
        while i < n
            invariant
                i <= n <= 4,
                lanes@ == val_lanes(val, ext),
                out@ == before + lanes@.take(i as int),
            decreases n - i,
        {
            out.push(lanes[i]);
            proof {
                assert(out@ =~= before + lanes@.take(i + 1));
            }
            i += 1;
        }
    }
}

} // verus!
