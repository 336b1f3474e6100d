//! The single-byte symbols that a byte string starts merging from.
use crate::token::TokenId;
use vstd::prelude::*;

verus! {

/// The contents of a list of byte strings.
pub open spec fn contents(v: Seq<Vec<u8>>) -> Seq<Seq<u8>> {
    v.map_values(|b: Vec<u8>| b@)
}

/// The lowest position of the one-byte entry for `b`.
pub open spec fn byte_position(vocab: Seq<Seq<u8>>, b: u8) -> Option<nat>
    decreases vocab.len(),
{
    if vocab.len() == 0 {
        None
    } else {
        match byte_position(vocab.drop_last(), b) {
            Some(id) => Some(id),
            None => if vocab.last() == seq![b] {
                Some((vocab.len() - 1) as nat)
            } else {
                None
            },
        }
    }
}

/// Whether `b` can appear in valid UTF-8: `0xC0` and `0xC1` would start an
/// overlong form, `0xF5` and up a code point past the last one.
pub open spec fn utf8_byte(b: u8) -> bool {
    b != 0xC0 && b != 0xC1 && b < 0xF5
}

/// Whether `b` can appear in valid UTF-8.
pub fn is_valid_utf8_byte(b: u8) -> (r: bool)
    ensures
        r == utf8_byte(b),
{
    b != 0xC0 && b != 0xC1 && b < 0xF5
}

/// The symbol of each byte value: its lowest one-byte entry, 0 where the
/// vocabulary has none.
pub open spec fn byte_table(vocab: Seq<Seq<u8>>) -> Seq<TokenId> {
    Seq::new(
        256,
        |b: int|
            match byte_position(vocab, b as u8) {
                Some(id) => TokenId(id as u32),
                None => TokenId(0),
            },
    )
}

/// The table in which each byte's symbol is the byte value.
pub open spec fn identity_table() -> Seq<TokenId> {
    Seq::new(256, |b: int| TokenId(b as u32))
}

/// The symbols of a byte string before any merge.
pub open spec fn byte_symbols(table: Seq<TokenId>, bytes: Seq<u8>) -> Seq<TokenId> {
    Seq::new(bytes.len(), |i: int| table[bytes[i] as int])
}

/// A byte value that occurs in UTF-8 text has no one-byte entry.
#[derive(Clone, Copy, Debug, PartialEq, Eq, Structural)]
pub struct MissingByte(pub u8);

/// Maps each byte value to the symbol of its one-byte vocabulary entry. The
/// symbols need not be below 256.
pub struct ByteRemapping {
    mapping: Vec<TokenId>,
}

const UNSET: u32 = u32::MAX;

/// The table after the first entries, with the sentinel for what is missing.
spec fn partial_table(vocab: Seq<Seq<u8>>, b: int) -> TokenId {
    match byte_position(vocab, b as u8) {
        Some(id) => TokenId(id as u32),
        None => TokenId(UNSET),
    }
}

pub proof fn lemma_byte_position_bound(vocab: Seq<Seq<u8>>, b: u8)
    ensures
        byte_position(vocab, b) matches Some(id) ==> id < vocab.len() && vocab[id as int] == seq![b],
    decreases vocab.len(),
{
    if vocab.len() > 0 {
        lemma_byte_position_bound(vocab.drop_last(), b);
    }
}

/// A vocabulary with a one-byte entry has a position for it.
pub proof fn lemma_byte_position_some(vocab: Seq<Seq<u8>>, b: u8, k: int)
    requires
        0 <= k < vocab.len(),
        vocab[k] == seq![b],
    ensures
        byte_position(vocab, b) is Some,
    decreases vocab.len(),
{
    if k < vocab.len() - 1 {
        lemma_byte_position_some(vocab.drop_last(), b, k);
    }
}

impl ByteRemapping {
    /// The symbol of each byte value.
    pub closed spec fn view(&self) -> Seq<TokenId> {
        self.mapping@
    }

    #[verifier::type_invariant]
    spec fn wf(&self) -> bool {
        self.mapping@.len() == 256
    }

    /// The table has 256 entries.
    pub fn check_len(&self)
        ensures
            self@.len() == 256,
    {
        proof {
            use_type_invariant(self);
        }
    }

    /// Builds the table from the one-byte entries of `vocab`, the lowest
    /// position first. `None` means that every byte's symbol is the byte
    /// value. Bytes that never occur in UTF-8 may be missing.
    pub fn from_byte_vocab(vocab: &Vec<Vec<u8>>) -> (r: Result<Option<Self>, MissingByte>)
        requires
            vocab@.len() < u32::MAX,
        ensures
            match r {
                Ok(Some(m)) => m@ == byte_table(contents(vocab@)) && m@ != identity_table()
                    && forall|b: u8| utf8_byte(b) ==> #[trigger] byte_position(contents(vocab@), b) is Some,
                Ok(None) => byte_table(contents(vocab@)) == identity_table()
                    && forall|b: u8| utf8_byte(b) ==> #[trigger] byte_position(contents(vocab@), b) is Some,
                Err(MissingByte(m)) => utf8_byte(m) && byte_position(contents(vocab@), m) is None
                    && forall|b: u8|
                    b < m && utf8_byte(b) ==> #[trigger] byte_position(contents(vocab@), b) is Some,
            },
    {
        let mut mapping: Vec<TokenId> = vec![TokenId(UNSET); 256];
        let ghost all = contents(vocab@);
        let mut id: usize = 0;
        proof {
            assert(all.take(0) =~= Seq::<Seq<u8>>::empty());
        }
        while id < vocab.len()
            invariant
                id <= vocab@.len() < u32::MAX,
                all == contents(vocab@),
                mapping@.len() == 256,
                forall|b: int| 0 <= b < 256 ==> #[trigger] mapping@[b] == partial_table(all.take(id as int), b),
            decreases vocab@.len() - id,
        {
            let ghost before = mapping@;
            proof {
                assert(all.take(id + 1).drop_last() =~= all.take(id as int));
                assert(all.take(id + 1).last() == vocab@[id as int]@);
                assert forall|b: u8| true implies #[trigger] partial_table(all.take(id as int), b as int).0 <= UNSET && (
                partial_table(all.take(id as int), b as int).0 == UNSET <==> byte_position(
                    all.take(id as int),
                    b,
                ) is None) by {
                    lemma_byte_position_bound(all.take(id as int), b);
                }
            }
            if vocab[id].len() == 1 {
                let b: u8 = vocab[id][0];
                proof {
                    assert(vocab@[id as int]@ =~= seq![b]);
                    assert(partial_table(all.take(id as int), b as int).0 <= UNSET);
                }
                if mapping[b as usize].0 == UNSET {
                    mapping[b as usize] = TokenId(id as u32);
                }
            }
            proof {
                assert forall|b: int| 0 <= b < 256 implies #[trigger] mapping@[b] == partial_table(
                    all.take(id + 1),
                    b,
                ) by {
                    assert(before[b] == partial_table(all.take(id as int), b));
                    assert(partial_table(all.take(id as int), (b as u8) as int).0 <= UNSET);
                    if all.take(id + 1).last() == seq![b as u8] {
                        assert(vocab@[id as int]@.len() == 1);
                        assert(vocab@[id as int]@[0] == b as u8);
                    }
                }
            }
            id += 1;
        }
        proof {
            assert(all.take(id as int) =~= all);
            assert forall|b: u8| true implies (#[trigger] partial_table(all, b as int).0 == UNSET
                <==> byte_position(all, b) is None) by {
                lemma_byte_position_bound(all, b);
            }
        }
        let ghost full = mapping@;
        let mut identity = true;
        let mut b: usize = 0;
        while b < 256
            invariant
                b <= 256,
                vocab@.len() < u32::MAX,
                all == contents(vocab@),
                mapping@.len() == 256,
                full.len() == 256,
                forall|c: int| 0 <= c < 256 ==> #[trigger] full[c] == partial_table(all, c),
                forall|c: u8| #[trigger] partial_table(all, c as int).0 == UNSET <==> byte_position(all, c) is None,
                forall|c: int| b <= c < 256 ==> #[trigger] mapping@[c] == full[c],
                forall|c: int| 0 <= c < b ==> #[trigger] mapping@[c] == byte_table(all)[c],
                forall|c: u8| c < b && utf8_byte(c) ==> #[trigger] byte_position(all, c) is Some,
                identity <==> forall|c: int| 0 <= c < b ==> (#[trigger] mapping@[c]).0 == c,
            decreases 256 - b,
        {
            let ghost before = mapping@;
            assert(full[b as int] == partial_table(all, b as int));
            assert(partial_table(all, (b as u8) as int).0 == UNSET <==> byte_position(all, b as u8) is None);
            if mapping[b].0 == UNSET {
                if is_valid_utf8_byte(b as u8) {
                    return Err(MissingByte(b as u8));
                }
                mapping[b] = TokenId(0);
            }
            if mapping[b].0 != b as u32 {
                identity = false;
            }
            proof {
                assert(mapping@[b as int] == byte_table(all)[b as int]);
                assert forall|c: int| 0 <= c < b implies #[trigger] mapping@[c] == before[c] by {}
            }
            b += 1;
        }
        if identity {
            proof {
                assert(byte_table(all) =~= identity_table()) by {
                    assert forall|c: int| 0 <= c < 256 implies byte_table(all)[c] == identity_table()[c] by {
                        assert(mapping@[c].0 == c);
                        assert(mapping@[c] == byte_table(all)[c]);
                    }
                }
            }
            Ok(None)
        } else {
            proof {
                let c = choose|c: int| 0 <= c < 256 && (#[trigger] mapping@[c]).0 != c;
                assert(mapping@ =~= byte_table(all));
                assert(identity_table()[c].0 == c);
            }
            Ok(Some(ByteRemapping { mapping }))
        }
    }

    /// The same table again.
    pub fn copy(&self) -> (r: Self)
        ensures
            r@ == self@,
    {
        proof {
            use_type_invariant(self);
        }
        let mut mapping: Vec<TokenId> = Vec::new();
        let mut i: usize = 0;
        while i < self.mapping.len()
            invariant
                i <= self.mapping@.len(),
                mapping@ == self.mapping@.take(i as int),
            decreases self.mapping@.len() - i,
        {
            mapping.push(self.mapping[i]);
            proof {
                assert(self.mapping@.take(i + 1) =~= self.mapping@.take(i as int).push(self.mapping@[i as int]));
            }
            i += 1;
        }
        proof {
            assert(mapping@ =~= self.mapping@);
        }
        ByteRemapping { mapping }
    }
}

/// The table that an optional remapping stands for.
pub open spec fn symbol_table(br: Option<ByteRemapping>) -> Seq<TokenId> {
    match br {
        Some(m) => m@,
        None => identity_table(),
    }
}

/// Writes the symbol of each byte over the start of `out`.
pub fn remap_bytes(br: &Option<ByteRemapping>, bytes: &[u8], out: &mut [TokenId])
    requires
        bytes@.len() <= old(out)@.len(),
    ensures
        final(out)@ == byte_symbols(symbol_table(*br), bytes@) + old(out)@.skip(
            bytes@.len() as int,
        ),
{
    let ghost table = symbol_table(*br);
    let ghost before = out@;
    let mut i: usize = 0;
    while i < bytes.len()
        invariant
            i <= bytes@.len() <= out@.len(),
            out@.len() == before.len(),
            table == symbol_table(*br),
            forall|j: int| 0 <= j < i ==> #[trigger] out@[j] == table[bytes@[j] as int],
            forall|j: int| i <= j < out@.len() ==> #[trigger] out@[j] == before[j],
        decreases bytes@.len() - i,
    {
        let b: u8 = bytes[i];
        let t = match br {
            Some(m) => {
                m.check_len();
                m.mapping[b as usize]
            },
            None => TokenId(b as u32),
        };
        out[i] = t;
        i += 1;
    }
    proof {
        assert(out@ =~= byte_symbols(table, bytes@) + before.skip(bytes@.len() as int));
    }
}

} // verus!
