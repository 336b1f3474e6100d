//! The vocabulary of a file.
use crate::bpe::byte_level::{byte_codepoint, char_byte, law_byte_codepoints_differ};
use crate::bpe::bytes::contents;
use crate::bpe::model::padded;
use crate::bpe::tiktoken::max_entries;
use crate::bytes_map::BytesMap;
use crate::load::json::{AddedTokenJson, TokenizerJson};
use crate::search::copy_bytes;
use crate::token::TokenId;
use vstd::prelude::*;
use vstd::utf8::encode_utf8;

verus! {

/// The value of a hexadecimal digit, or -1.
pub open spec fn hex_value(b: u8) -> int {
    if 0x30 <= b <= 0x39 {
        b - 0x30
    } else if 0x41 <= b <= 0x46 {
        b - 0x41 + 10
    } else if 0x61 <= b <= 0x66 {
        b - 0x61 + 10
    } else {
        -1
    }
}

fn hex_digit(b: u8) -> (r: Option<u8>)
    ensures
        match r {
            Some(v) => v == hex_value(b) && v < 16,
            None => hex_value(b) < 0,
        },
{
    if 0x30 <= b && b <= 0x39 {
        Some(b - 0x30)
    } else if 0x41 <= b && b <= 0x46 {
        Some(b - 0x41 + 10)
    } else if 0x61 <= b && b <= 0x66 {
        Some(b - 0x61 + 10)
    } else {
        None
    }
}

/// The byte of a byte token `<0xHH>`, where each `H` is a hexadecimal digit.
pub open spec fn fallback_byte(s: Seq<u8>) -> Option<u8> {
    if s.len() == 6 && s[0] == 0x3C && s[1] == 0x30 && s[2] == 0x78 && s[5] == 0x3E && hex_value(s[3])
        >= 0 && hex_value(s[4]) >= 0 {
        Some((16 * hex_value(s[3]) + hex_value(s[4])) as u8)
    } else {
        None
    }
}

/// The byte of a byte token `<0xHH>`.
pub fn parse_byte_fallback(s: &str) -> (r: Option<u8>)
    ensures
        r == fallback_byte(encode_utf8(s@)),
{
    let b = s.as_bytes();
    if b.len() != 6 || b[0] != 0x3C || b[1] != 0x30 || b[2] != 0x78 || b[5] != 0x3E {
        return None;
    }
    let low: u8 = match hex_digit(b[4]) {
        Some(v) => v,
        None => {
            return None;
        },
    };
    match hex_digit(b[3]) {
        Some(v) => Some(v * 16 + low),
        None => None,
    }
}

/// The bytes that a SentencePiece vocabulary text stands for: the byte of a
/// byte token, else the text itself.
pub open spec fn piece_bytes(s: Seq<u8>) -> Seq<u8> {
    match fallback_byte(s) {
        Some(b) => seq![b],
        None => s,
    }
}

/// The bytes that a SentencePiece vocabulary text stands for.
pub fn token_str_to_bytes(s: &str) -> (r: Vec<u8>)
    ensures
        r@ == piece_bytes(encode_utf8(s@)),
{
    match parse_byte_fallback(s) {
        Some(b) => {
            let mut r: Vec<u8> = Vec::new();
            r.push(b);
            proof {
                assert(r@ =~= seq![b]);
            }
            r
        },
        None => copy_bytes(s.as_bytes()),
    }
}

/// The byte that a character stands for in the byte-level alphabet.
pub open spec fn alphabet_byte(c: char) -> Option<u8> {
    if exists|b: u8| byte_codepoint(b) == c as u32 {
        Some(choose|b: u8| byte_codepoint(b) == c as u32)
    } else {
        None
    }
}

/// Every character is of the byte-level alphabet.
pub open spec fn all_in_alphabet(t: Seq<char>) -> bool {
    forall|i: int| 0 <= i < t.len() ==> alphabet_byte(#[trigger] t[i]) is Some
}

/// The bytes that a byte-level vocabulary text stands for: one for each
/// character, or, with a character outside the alphabet, the text itself.
pub open spec fn level_bytes(t: Seq<char>) -> Seq<u8> {
    if all_in_alphabet(t) {
        t.map_values(|c: char| alphabet_byte(c)->0)
    } else {
        encode_utf8(t)
    }
}

/// The bytes that a byte-level vocabulary text stands for.
pub fn unicode_to_bytes(s: &str) -> (r: Vec<u8>)
    ensures
        r@ == level_bytes(s@),
{
    let mut r: Vec<u8> = Vec::new();
    let n: usize = s.unicode_len();
    let mut i: usize = 0;
    while i < n
        invariant
            i <= n,
            n == s@.len(),
            r@.len() == i,
            forall|j: int| 0 <= j < i ==> alphabet_byte(#[trigger] s@[j]) == Some(r@[j]),
        decreases n - i,
    {
        let c: char = s.get_char(i);
        match char_byte(c) {
            Some(b) => {
                proof {
                    assert(byte_codepoint(b) == c as u32);
                    law_byte_codepoints_differ(b, alphabet_byte(c)->0);
                }
                r.push(b);
            },
            None => {
                proof {
                    assert(alphabet_byte(s@[i as int]) is None);
                }
                return copy_bytes(s.as_bytes());
            },
        }
        i += 1;
    }
    proof {
        assert(all_in_alphabet(s@));
        assert(r@ =~= level_bytes(s@));
    }
    r
}

/// A vocabulary entry: its bytes, its ID, and whether it gives way to another
/// entry with the same bytes.
pub type VocabEntry = (Seq<u8>, u32, bool);

/// The values of a list of entries.
pub open spec fn entry_views(v: Seq<(Vec<u8>, u32, bool)>) -> Seq<VocabEntry> {
    v.map_values(|e: (Vec<u8>, u32, bool)| (e.0@, e.1, e.2))
}

/// One more than the greatest ID; 1 without entries.
pub open spec fn id_count(entries: Seq<VocabEntry>) -> int
    decreases entries.len(),
{
    if entries.len() == 0 {
        1
    } else {
        let n = id_count(entries.drop_last());
        if entries.last().1 + 1 > n {
            entries.last().1 + 1
        } else {
            n
        }
    }
}

/// The bytes of each ID; the last entry of an ID counts.
pub open spec fn placed(entries: Seq<VocabEntry>, n: int) -> Seq<Seq<u8>>
    decreases entries.len(),
{
    if entries.len() == 0 {
        Seq::new(n as nat, |i: int| Seq::<u8>::empty())
    } else {
        placed(entries.drop_last(), n).update(entries.last().1 as int, entries.last().0)
    }
}

/// The ID of each byte string: the last entry counts, but one that gives way
/// only where no other has the same bytes.
pub open spec fn entries_inverse(entries: Seq<VocabEntry>) -> Map<Seq<u8>, TokenId>
    decreases entries.len(),
{
    if entries.len() == 0 {
        Map::empty()
    } else {
        let head = entries_inverse(entries.drop_last());
        let (bytes, id, weak) = entries.last();
        if weak && head.contains_key(bytes) {
            head
        } else {
            head.insert(bytes, TokenId(id))
        }
    }
}

/// The content and ID of each added token.
pub open spec fn added_contents(v: Seq<AddedTokenJson>) -> Seq<(Seq<u8>, u32)> {
    v.map_values(|t: AddedTokenJson| (encode_utf8(t.content@), t.id))
}

/// A vocabulary with added tokens: it grows to hold their IDs, and an ID
/// without content gets that of the token.
pub open spec fn with_added(vocab: Seq<Seq<u8>>, added: Seq<(Seq<u8>, u32)>) -> Seq<Seq<u8>>
    decreases added.len(),
{
    if added.len() == 0 {
        vocab
    } else {
        let (content, id) = added.last();
        let v = padded(with_added(vocab, added.drop_last()), id + 1);
        if v[id as int].len() == 0 {
            v.update(id as int, content)
        } else {
            v
        }
    }
}

/// The bytes of each ID of a file.
pub open spec fn file_vocab(entries: Seq<VocabEntry>, added: Seq<(Seq<u8>, u32)>) -> Seq<Seq<u8>> {
    with_added(placed(entries, id_count(entries)), added)
}

/// Some ID or some list of a file is too large.
pub open spec fn too_large(tj: TokenizerJson) -> bool {
    ||| exists|i: int| 0 <= i < tj.model.vocab@.len() && (#[trigger] tj.model.vocab@[i]).1 + 1 >= max_entries()
    ||| exists|i: int| 0 <= i < tj.added_tokens@.len() && (#[trigger] tj.added_tokens@[i]).id + 1 >= max_entries()
    ||| tj.added_tokens@.len() > max_entries()
    ||| tj.model.merges@.len() > u32::MAX
}

/// Whether some ID or some list of a file is too large.
pub fn is_too_large(tj: &TokenizerJson) -> (r: bool)
    ensures
        r == too_large(*tj),
{
    let limit: usize = if (u32::MAX as usize) < usize::MAX / 256 {
        u32::MAX as usize
    } else {
        usize::MAX / 256
    };
    assert(limit == max_entries());
    if tj.added_tokens.len() > limit || tj.model.merges.len() > u32::MAX as usize {
        return true;
    }
    let mut i: usize = 0;
    while i < tj.model.vocab.len()
        invariant
            i <= tj.model.vocab@.len(),
            limit == max_entries(),
            forall|j: int| 0 <= j < i ==> (#[trigger] tj.model.vocab@[j]).1 + 1 < max_entries(),
        decreases tj.model.vocab@.len() - i,
    {
        if tj.model.vocab[i].1 as usize >= limit - 1 {
            return true;
        }
        i += 1;
    }
    let mut k: usize = 0;
    while k < tj.added_tokens.len()
        invariant
            k <= tj.added_tokens@.len(),
            limit == max_entries(),
            forall|j: int| 0 <= j < k ==> (#[trigger] tj.added_tokens@[j]).id + 1 < max_entries(),
        decreases tj.added_tokens@.len() - k,
    {
        if tj.added_tokens[k].id as usize >= limit - 1 {
            return true;
        }
        k += 1;
    }
    false
}

/// All IDs fit.
pub open spec fn ids_fit(entries: Seq<VocabEntry>) -> bool {
    forall|i: int| 0 <= i < entries.len() ==> (#[trigger] entries[i]).1 + 1 < max_entries()
}

pub proof fn lemma_id_count(entries: Seq<VocabEntry>)
    requires
        ids_fit(entries),
    ensures
        1 <= id_count(entries) < max_entries(),
        forall|i: int| 0 <= i < entries.len() ==> (#[trigger] entries[i]).1 < id_count(entries),
    decreases entries.len(),
{
    if entries.len() > 0 {
        let d = entries.drop_last();
        assert forall|i: int| 0 <= i < d.len() implies (#[trigger] d[i]).1 + 1 < max_entries() by {
            assert(entries[i].1 + 1 < max_entries());
        }
        lemma_id_count(d);
        assert(entries.last() == entries[entries.len() - 1]);
        assert forall|i: int| 0 <= i < entries.len() implies (#[trigger] entries[i]).1 < id_count(
            entries,
        ) by {
            if i < d.len() {
                assert(d[i] == entries[i]);
            }
        }
    }
}

/// Builds the bytes of each ID and the ID of each byte string.
pub fn build_vocab(entries: &Vec<(Vec<u8>, u32, bool)>, added_tokens: &Vec<AddedTokenJson>) -> (r: (
    Vec<Vec<u8>>,
    BytesMap<TokenId>,
))
    requires
        ids_fit(entry_views(entries@)),
        forall|i: int|
            0 <= i < added_tokens@.len() ==> (#[trigger] added_tokens@[i]).id + 1 < max_entries(),
    ensures
        contents(r.0@) == file_vocab(entry_views(entries@), added_contents(added_tokens@)),
        r.0@.len() < max_entries(),
        r.1@ == entries_inverse(entry_views(entries@)),
{
    let ghost all = entry_views(entries@);
    let n: usize = count_ids(entries);
    let mut vocab: Vec<Vec<u8>> = Vec::new();
    let mut i: usize = 0;
    while i < n
        invariant
            i <= n,
            vocab@.len() == i,
            forall|j: int| 0 <= j < i ==> (#[trigger] vocab@[j])@ == Seq::<u8>::empty(),
        decreases n - i,
    {
        vocab.push(Vec::new());
        i += 1;
    }
    let mut inv: BytesMap<TokenId> = BytesMap::new();
    let mut e: usize = 0;
    proof {
        assert(all.take(0) =~= Seq::<VocabEntry>::empty());
        assert(contents(vocab@) =~= placed(all.take(0), n as int));
        lemma_id_count(all);
    }
    while e < entries.len()
        invariant
            e <= entries@.len(),
            all == entry_views(entries@),
            n == id_count(all),
            vocab@.len() == n,
            forall|k: int| 0 <= k < all.len() ==> (#[trigger] all[k]).1 < n,
            contents(vocab@) == placed(all.take(e as int), n as int),
            inv@ == entries_inverse(all.take(e as int)),
        decreases entries@.len() - e,
    {
        let ghost was = vocab@;
        let id: u32 = entries[e].1;
        let bytes = entries[e].0.as_slice();
        proof {
            assert(all[e as int] == (bytes@, id, entries@[e as int].2));
            assert(all.take(e + 1).drop_last() =~= all.take(e as int));
        }
        vocab.set(id as usize, copy_bytes(bytes));
        let keep = entries[e].2 && inv.get(bytes).is_some();
        if !keep {
            inv.insert(bytes, TokenId(id));
        }
        proof {
            assert(contents(vocab@) =~= contents(was).update(id as int, bytes@));
        }
        e += 1;
    }
    proof {
        assert(all.take(e as int) =~= all);
    }
    add_contents(&mut vocab, added_tokens);
    (vocab, inv)
}

/// One more than the greatest ID.
fn count_ids(entries: &Vec<(Vec<u8>, u32, bool)>) -> (n: usize)
    requires
        ids_fit(entry_views(entries@)),
    ensures
        n == id_count(entry_views(entries@)),
{
    let ghost all = entry_views(entries@);
    let mut n: usize = 1;
    let mut i: usize = 0;
    proof {
        assert(all.take(0) =~= Seq::<VocabEntry>::empty());
    }
    while i < entries.len()
        invariant
            i <= entries@.len(),
            all == entry_views(entries@),
            ids_fit(all),
            n == id_count(all.take(i as int)),
        decreases entries@.len() - i,
    {
        proof {
            assert(all[i as int].1 == entries@[i as int].1);
            assert(all.take(i + 1).drop_last() =~= all.take(i as int));
        }
        let id: usize = entries[i].1 as usize;
        if id >= n {
            n = id + 1;
        }
        i += 1;
    }
    proof {
        assert(all.take(i as int) =~= all);
    }
    n
}

/// Gives IDs without content that of the added tokens.
fn add_contents(vocab: &mut Vec<Vec<u8>>, added_tokens: &Vec<AddedTokenJson>)
    requires
        old(vocab)@.len() < max_entries(),
        forall|i: int|
            0 <= i < added_tokens@.len() ==> (#[trigger] added_tokens@[i]).id + 1 < max_entries(),
    ensures
        contents(final(vocab)@) == with_added(
            contents(old(vocab)@),
            added_contents(added_tokens@),
        ),
        final(vocab)@.len() < max_entries(),
{
    let ghost base = contents(vocab@);
    let ghost all = added_contents(added_tokens@);
    let mut k: usize = 0;
    proof {
        assert(all.take(0) =~= Seq::<(Seq<u8>, u32)>::empty());
    }
    while k < added_tokens.len()
        invariant
            k <= added_tokens@.len(),
            all == added_contents(added_tokens@),
            vocab@.len() < max_entries(),
            contents(vocab@) == with_added(base, all.take(k as int)),
            forall|i: int|
                0 <= i < added_tokens@.len() ==> (#[trigger] added_tokens@[i]).id + 1 < max_entries(),
        decreases added_tokens@.len() - k,
    {
        let ghost was = contents(vocab@);
        let id: usize = added_tokens[k].id as usize;
        while vocab.len() <= id
            invariant
                vocab@.len() < max_entries(),
                id + 1 < max_entries(),
                was.len() <= vocab@.len(),
                vocab@.len() <= id + 1 || vocab@.len() == was.len(),
                contents(vocab@) == padded(was, vocab@.len() as int),
            decreases id + 1 - vocab@.len(),
        {
            let ghost now = vocab@;
            let none: Vec<u8> = Vec::new();
            proof {
                assert(none@ =~= Seq::<u8>::empty());
            }
            vocab.push(none);
            proof {
                let grown = contents(vocab@);
                assert forall|i: int| 0 <= i < grown.len() implies grown[i] == padded(
                    was,
                    vocab@.len() as int,
                )[i] by {
                    if i < now.len() {
                        assert(grown[i] == contents(now)[i]);
                    }
                }
                assert(contents(vocab@) =~= padded(was, vocab@.len() as int));
            }
        }
        let ghost grown = contents(vocab@);
        proof {
            assert(grown =~= padded(was, id + 1));
            assert(all[k as int] == (encode_utf8(added_tokens@[k as int].content@), id as u32));
            assert(all.take(k + 1).drop_last() =~= all.take(k as int));
            assert(grown[id as int] == vocab@[id as int]@);
        }
        if vocab[id].len() == 0 {
            vocab.set(id, copy_bytes(added_tokens[k].content.as_str().as_bytes()));
            proof {
                assert(contents(vocab@) =~= grown.update(id as int, all[k as int].0));
            }
        }
        k += 1;
    }
    proof {
        assert(all.take(k as int) =~= all);
    }
}

} // verus!
