//! The symbols that a text starts merging from.
use crate::bpe::bytes::contents;
use crate::bpe::merge::{ranked_rules, RankedMerges};
use crate::bpe::rules::Rules;
use crate::bytes_map::BytesMap;
use crate::pretokenize::chars::char_end;
use crate::token::TokenId;
use vstd::prelude::*;

verus! {

/// The space marker U+2581.
pub open spec fn sp_mark() -> Seq<u8> {
    seq![0xE2u8, 0x96u8, 0x81u8]
}

/// The tables of a model: merge rules, the bytes of each token, the token of
/// each byte string, and the fallback token of each byte value.
pub struct SpView {
    pub rules: Rules,
    pub vocab: Seq<Seq<u8>>,
    pub vocab_inv: Map<Seq<u8>, TokenId>,
    pub fallback: Seq<Option<TokenId>>,
}

/// The fallback tokens of some bytes; a byte without one gives none.
pub open spec fn fallback_symbols(fallback: Seq<Option<TokenId>>, bytes: Seq<u8>) -> Seq<TokenId>
    decreases bytes.len(),
{
    if bytes.len() == 0 {
        Seq::empty()
    } else {
        let head = fallback_symbols(fallback, bytes.drop_last());
        match fallback[bytes.last() as int] {
            Some(id) => head.push(id),
            None => head,
        }
    }
}

/// The symbols of one character: its own token, or else its fallback tokens.
pub open spec fn char_symbols(v: SpView, ch: Seq<u8>) -> Seq<TokenId> {
    if v.vocab_inv.contains_key(ch) {
        seq![v.vocab_inv[ch]]
    } else {
        fallback_symbols(v.fallback, ch)
    }
}

/// The character at `p` as it is looked up: in raw text a space is the marker.
pub open spec fn char_text(s: Seq<u8>, p: int, raw: bool) -> Seq<u8> {
    if raw && s[p] == 0x20 {
        sp_mark()
    } else {
        s.subrange(p, char_end(s, p))
    }
}

/// The symbols of a text from `p` on, character by character.
pub open spec fn init_from(v: SpView, s: Seq<u8>, p: int, raw: bool) -> Seq<TokenId>
    decreases s.len() - p,
{
    if 0 <= p < s.len() {
        char_symbols(v, char_text(s, p, raw)) + init_from(v, s, char_end(s, p), raw)
    } else {
        Seq::empty()
    }
}

/// The tables of a model.
pub struct SpTables {
    pub merges: RankedMerges,
    pub vocab: Vec<Vec<u8>>,
    pub vocab_inv: BytesMap<TokenId>,
    /// The fallback token of each of the 256 byte values.
    pub fallback: Vec<Option<TokenId>>,
}

impl SpTables {
    /// What the tables are.
    pub open spec fn view(&self) -> SpView {
        SpView {
            rules: ranked_rules(self.merges@),
            vocab: contents(self.vocab@),
            vocab_inv: self.vocab_inv@,
            fallback: self.fallback@,
        }
    }

    /// There is a fallback entry for each byte value.
    pub open spec fn wf(&self) -> bool {
        self.fallback@.len() == 256
    }

    /// Appends the symbols of one character.
    pub fn push_char(&self, ch: &[u8], symbols: &mut Vec<TokenId>)
        requires
            self.wf(),
        ensures
            final(symbols)@ == old(symbols)@ + char_symbols(self@, ch@),
    {
        let ghost before = symbols@;
        match self.vocab_inv.get(ch) {
            Some(id) => {
                symbols.push(id);
                proof {
                    assert(symbols@ =~= before + seq![id]);
                }
            },
            None => {
                let mut i: usize = 0;
                proof {
                    assert(ch@.take(0) =~= Seq::<u8>::empty());
                    assert(symbols@ =~= before + fallback_symbols(self@.fallback, ch@.take(0)));
                }
                while i < ch.len()
                    invariant
                        self.wf(),
                        i <= ch@.len(),
                        symbols@ == before + fallback_symbols(self@.fallback, ch@.take(i as int)),
                    decreases ch@.len() - i,
                {
                    proof {
                        assert(ch@.take(i + 1).drop_last() =~= ch@.take(i as int));
                    }
                    match self.fallback[ch[i] as usize] {
                        Some(id) => {
                            symbols.push(id);
                        },
                        None => {},
                    }
                    proof {
                        assert(symbols@ =~= before + fallback_symbols(
                            self@.fallback,
                            ch@.take(i + 1),
                        ));
                    }
                    i += 1;
                }
                proof {
                    assert(ch@.take(i as int) =~= ch@);
                }
            },
        }
    }
}

/// The position after the character at `p`.
pub fn next_char(bytes: &[u8], p: usize) -> (e: usize)
    requires
        p < bytes@.len(),
    ensures
        e == char_end(bytes@, p as int),
        p < e <= bytes@.len(),
{
    let b: u8 = bytes[p];
    let n: usize = if b < 0x80 {
        1
    } else if b < 0xE0 {
        2
    } else if b < 0xF0 {
        3
    } else {
        4
    };
    if bytes.len() - p < n {
        bytes.len()
    } else {
        p + n
    }
}

/// The symbols of the characters that are looked up most, found beforehand.
pub struct SpeedTables {
    /// The symbols of the marker.
    pub space_init: Vec<TokenId>,
    /// The symbol of each ASCII character, if it has one.
    pub ascii_init: Vec<Option<TokenId>>,
}

/// The symbols of an optional token.
pub open spec fn opt_symbols(t: Option<TokenId>) -> Seq<TokenId> {
    match t {
        Some(id) => seq![id],
        None => Seq::empty(),
    }
}

impl SpeedTables {
    /// The tables give what the model gives.
    pub open spec fn wf(&self, v: SpView) -> bool {
        &&& self.space_init@ == char_symbols(v, sp_mark())
        &&& self.ascii_init@.len() == 128
        &&& forall|b: int|
            0 <= b < 128 ==> opt_symbols(#[trigger] self.ascii_init@[b]) == char_symbols(
                v,
                seq![b as u8],
            )
    }

    /// Looks the characters up.
    pub fn new(t: &SpTables) -> (r: Self)
        requires
            t.wf(),
        ensures
            r.wf(t@),
    {
        let mark: [u8; 3] = [0xE2, 0x96, 0x81];
        let mark_bytes: &[u8] = &mark;
        let mut space_init: Vec<TokenId> = Vec::new();
        t.push_char(mark_bytes, &mut space_init);
        proof {
            assert(mark_bytes@ =~= sp_mark());
            assert(space_init@ =~= char_symbols(t@, sp_mark()));
        }
        let mut ascii_init: Vec<Option<TokenId>> = Vec::new();
        let mut b: u8 = 0;
        while b < 128
            invariant
                t.wf(),
                b <= 128,
                ascii_init@.len() == b,
                forall|c: int|
                    0 <= c < b ==> opt_symbols(#[trigger] ascii_init@[c]) == char_symbols(
                        t@,
                        seq![c as u8],
                    ),
            decreases 128 - b,
        {
            let one: [u8; 1] = [b];
            let one_bytes: &[u8] = &one;
            let own = t.vocab_inv.get(one_bytes);
            let entry = match own {
                Some(id) => Some(id),
                None => t.fallback[b as usize],
            };
            proof {
                assert(one_bytes@ =~= seq![b]);
                let ch = seq![b];
                assert(ch.drop_last() =~= Seq::<u8>::empty());
                assert(fallback_symbols(t@.fallback, ch.drop_last()) =~= Seq::<TokenId>::empty());
                assert(opt_symbols(entry) =~= char_symbols(t@, ch));
            }
            ascii_init.push(entry);
            b += 1;
        }
        SpeedTables { space_init, ascii_init }
    }
}

/// Appends the symbols of a text. In raw text a space is the marker.
pub fn init_symbols(t: &SpTables, sp: &SpeedTables, text: &[u8], raw: bool, symbols: &mut Vec<TokenId>)
    requires
        t.wf(),
        sp.wf(t@),
    ensures
        final(symbols)@ == old(symbols)@ + init_from(t@, text@, 0, raw),
{
    let ghost before = symbols@;
    let mut p: usize = 0;
    while p < text.len()
        invariant
            t.wf(),
            sp.wf(t@),
            p <= text@.len(),
            symbols@ + init_from(t@, text@, p as int, raw) == before + init_from(t@, text@, 0, raw),
        decreases text@.len() - p,
    {
        let ghost now = symbols@;
        let b: u8 = text[p];
        let e: usize = next_char(text, p);
        if raw && b == 0x20 {
            crate::bpe::cache_value::append_tokens(symbols, sp.space_init.as_slice());
        } else if b < 128 {
            proof {
                assert(text@.subrange(p as int, e as int) =~= seq![b]);
                assert(opt_symbols(sp.ascii_init@[b as int]) == char_symbols(t@, seq![b]));
            }
            match sp.ascii_init[b as usize] {
                Some(id) => {
                    symbols.push(id);
                },
                None => {},
            }
            proof {
                assert(symbols@ =~= now + opt_symbols(sp.ascii_init@[b as int]));
            }
        } else {
            let ch = vstd::slice::slice_subrange(text, p, e);
            t.push_char(ch, symbols);
        }
        proof {
            assert(symbols@ == now + char_symbols(t@, char_text(text@, p as int, raw)));
            assert(symbols@ + init_from(t@, text@, e as int, raw) =~= now + init_from(
                t@,
                text@,
                p as int,
                raw,
            ));
        }
        p = e;
    }
    proof {
        assert(init_from(t@, text@, p as int, raw) =~= Seq::<TokenId>::empty());
        assert(symbols@ =~= before + init_from(t@, text@, 0, raw));
    }
}

} // verus!
