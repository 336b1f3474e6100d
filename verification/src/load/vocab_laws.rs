//! What the IDs of a file stand for.
use crate::bpe::added_laws::{law_added_content_is_one_token, law_by_length_keeps_tokens};
use crate::bpe::rules::expand;
use crate::bpe::tiktoken::{all_nonempty, encoded, max_entries, TokenizerView};
use crate::load::assemble::{added_defs, bpe_outcome, level_entries, piece_entries, sp_outcome};
use crate::load::json::{HfError, TokenizerJson};
use crate::load::merge_laws::lemma_placed_len;
use crate::load::vocab::{
    added_contents, entries_inverse, file_vocab, id_count, ids_fit, lemma_id_count, placed,
    too_large, with_added, VocabEntry,
};
use crate::sp::model::SpModel;
use crate::token::TokenId;
use vstd::prelude::*;
use vstd::utf8::encode_utf8;

verus! {

/// An ID has the bytes of the last entry with it.
proof fn lemma_placed_at(entries: Seq<VocabEntry>, n: int, i: int)
    requires
        0 <= i < entries.len(),
        n >= 0,
        forall|j: int| 0 <= j < entries.len() ==> (#[trigger] entries[j]).1 < n,
        forall|j: int| i < j < entries.len() ==> (#[trigger] entries[j]).1 != entries[i].1,
    ensures
        placed(entries, n)[entries[i].1 as int] == entries[i].0,
    decreases entries.len(),
{
    let d = entries.drop_last();
    assert forall|j: int| 0 <= j < d.len() implies (#[trigger] d[j]).1 < n by {
        assert(d[j] == entries[j]);
    }
    lemma_placed_len(d, n);
    assert(entries.last() == entries[entries.len() - 1]);
    if i < d.len() {
        assert(d[i] == entries[i]);
        assert forall|j: int| i < j < d.len() implies (#[trigger] d[j]).1 != d[i].1 by {
            assert(d[j] == entries[j]);
        }
        lemma_placed_at(d, n, i);
        assert(entries[entries.len() - 1].1 != entries[i].1);
    }
}

/// An ID that no entry with content has is without content.
proof fn lemma_placed_empty(entries: Seq<VocabEntry>, n: int, id: int)
    requires
        0 <= id < n,
        forall|j: int| 0 <= j < entries.len() ==> (#[trigger] entries[j]).1 < n,
        forall|j: int|
            0 <= j < entries.len() && (#[trigger] entries[j]).1 == id ==> entries[j].0.len() == 0,
    ensures
        placed(entries, n)[id].len() == 0,
    decreases entries.len(),
{
    if entries.len() > 0 {
        let d = entries.drop_last();
        assert forall|j: int| 0 <= j < d.len() implies (#[trigger] d[j]).1 < n by {
            assert(d[j] == entries[j]);
        }
        assert forall|j: int| 0 <= j < d.len() && (#[trigger] d[j]).1 == id implies d[j].0.len()
            == 0 by {
            assert(d[j] == entries[j]);
        }
        lemma_placed_len(d, n);
        lemma_placed_empty(d, n, id);
        assert(entries.last() == entries[entries.len() - 1]);
    }
}

/// Added tokens leave IDs with content alone.
proof fn lemma_added_keeps(vocab: Seq<Seq<u8>>, added: Seq<(Seq<u8>, u32)>, id: int)
    requires
        0 <= id < vocab.len(),
        vocab[id].len() > 0,
    ensures
        id < with_added(vocab, added).len(),
        with_added(vocab, added)[id] == vocab[id],
    decreases added.len(),
{
    if added.len() > 0 {
        lemma_added_keeps(vocab, added.drop_last(), id);
    }
}

/// An ID without content stays so under tokens that do not give it any.
proof fn lemma_added_empty(vocab: Seq<Seq<u8>>, added: Seq<(Seq<u8>, u32)>, id: int)
    requires
        0 <= id,
        id < vocab.len() ==> vocab[id].len() == 0,
        forall|j: int|
            0 <= j < added.len() && (#[trigger] added[j]).1 == id ==> added[j].0.len() == 0,
    ensures
        id < with_added(vocab, added).len() ==> with_added(vocab, added)[id].len() == 0,
    decreases added.len(),
{
    if added.len() > 0 {
        let d = added.drop_last();
        assert forall|j: int| 0 <= j < d.len() && (#[trigger] d[j]).1 == id implies d[j].0.len()
            == 0 by {
            assert(d[j] == added[j]);
        }
        lemma_added_empty(vocab, d, id);
        assert(added.last() == added[added.len() - 1]);
    }
}

proof fn lemma_added_split(vocab: Seq<Seq<u8>>, added: Seq<(Seq<u8>, u32)>, k: int)
    requires
        0 <= k <= added.len(),
    ensures
        with_added(vocab, added) == with_added(with_added(vocab, added.take(k)), added.skip(k)),
    decreases added.len() - k,
{
    if k < added.len() {
        let d = added.drop_last();
        lemma_added_split(vocab, d, k);
        assert(d.take(k) =~= added.take(k));
        assert(d.skip(k) =~= added.skip(k).drop_last());
        assert(added.skip(k).last() == added.last());
    } else {
        assert(added.take(k) =~= added);
        assert(added.skip(k) =~= Seq::<(Seq<u8>, u32)>::empty());
    }
}

/// An ID stands for the bytes of the vocabulary entry that has it, the last one
/// if several do: added tokens with the same ID change nothing.
pub proof fn law_entry_has_its_bytes(
    entries: Seq<VocabEntry>,
    added: Seq<(Seq<u8>, u32)>,
    i: int,
)
    requires
        ids_fit(entries),
        0 <= i < entries.len(),
        entries[i].0.len() > 0,
        forall|j: int| i < j < entries.len() ==> (#[trigger] entries[j]).1 != entries[i].1,
    ensures
        entries[i].1 < file_vocab(entries, added).len(),
        file_vocab(entries, added)[entries[i].1 as int] == entries[i].0,
{
    let n = id_count(entries);
    lemma_id_count(entries);
    lemma_placed_len(entries, n);
    lemma_placed_at(entries, n, i);
    assert(entries[i].1 < n);
    lemma_added_keeps(placed(entries, n), added, entries[i].1 as int);
}

/// An ID that no vocabulary entry gives bytes to stands for the content of the
/// added token that has it, the first one with content if several do.
pub proof fn law_added_token_has_its_content(
    entries: Seq<VocabEntry>,
    added: Seq<(Seq<u8>, u32)>,
    k: int,
)
    requires
        ids_fit(entries),
        0 <= k < added.len(),
        added[k].0.len() > 0,
        forall|i: int|
            0 <= i < entries.len() && (#[trigger] entries[i]).1 == added[k].1 ==> entries[i].0.len()
                == 0,
        forall|j: int|
            0 <= j < k && (#[trigger] added[j]).1 == added[k].1 ==> added[j].0.len() == 0,
    ensures
        added[k].1 < file_vocab(entries, added).len(),
        file_vocab(entries, added)[added[k].1 as int] == added[k].0,
{
    let n = id_count(entries);
    let id = added[k].1 as int;
    lemma_id_count(entries);
    lemma_placed_len(entries, n);
    let base = placed(entries, n);
    if id < n {
        lemma_placed_empty(entries, n, id);
    }
    let head = added.take(k);
    assert forall|j: int| 0 <= j < head.len() && (#[trigger] head[j]).1 == id implies head[j].0.len()
        == 0 by {
        assert(head[j] == added[j]);
    }
    lemma_added_empty(base, head, id);
    let through = added.take(k + 1);
    assert(through.drop_last() =~= head);
    assert(through.last() == added[k]);
    let now = with_added(base, through);
    assert(id < now.len() && now[id] == added[k].0);
    lemma_added_split(base, added, k + 1);
    lemma_added_keeps(now, added.skip(k + 1), id);
}

/// An ID that neither an entry nor an added token gives bytes to stands for
/// none.
pub proof fn law_other_ids_are_empty(
    entries: Seq<VocabEntry>,
    added: Seq<(Seq<u8>, u32)>,
    id: int,
)
    requires
        ids_fit(entries),
        0 <= id < file_vocab(entries, added).len(),
        forall|i: int|
            0 <= i < entries.len() && (#[trigger] entries[i]).1 == id ==> entries[i].0.len() == 0,
        forall|j: int|
            0 <= j < added.len() && (#[trigger] added[j]).1 == id ==> added[j].0.len() == 0,
    ensures
        file_vocab(entries, added)[id].len() == 0,
{
    let n = id_count(entries);
    lemma_id_count(entries);
    lemma_placed_len(entries, n);
    if id < n {
        lemma_placed_empty(entries, n, id);
    }
    lemma_added_empty(placed(entries, n), added, id);
}

/// A byte string that has an ID stands at it.
pub proof fn law_inverse_is_an_entry(entries: Seq<VocabEntry>, b: Seq<u8>)
    ensures
        entries_inverse(entries).contains_key(b) <==> exists|i: int|
            0 <= i < entries.len() && (#[trigger] entries[i]).0 == b,
        entries_inverse(entries).contains_key(b) ==> exists|i: int|
            0 <= i < entries.len() && (#[trigger] entries[i]).0 == b && entries[i].1
                == entries_inverse(entries)[b].0,
    decreases entries.len(),
{
    if entries.len() > 0 {
        let d = entries.drop_last();
        let last = entries.last();
        law_inverse_is_an_entry(d, b);
        assert(entries[entries.len() - 1] == last);
        if exists|i: int| 0 <= i < d.len() && (#[trigger] d[i]).0 == b {
            let i = choose|i: int| 0 <= i < d.len() && (#[trigger] d[i]).0 == b;
            assert(entries[i].0 == b);
        }
        if exists|i: int| 0 <= i < entries.len() && (#[trigger] entries[i]).0 == b {
            let i = choose|i: int| 0 <= i < entries.len() && (#[trigger] entries[i]).0 == b;
            if i < d.len() {
                assert(d[i].0 == b);
            }
        }
        if entries_inverse(d).contains_key(b) {
            let i = choose|i: int|
                0 <= i < d.len() && (#[trigger] d[i]).0 == b && d[i].1 == entries_inverse(d)[b].0;
            assert(entries[i] == d[i]);
        }
    }
}

/// A byte string has the ID of the last entry that has it and does not give way.
pub proof fn law_inverse_is_the_last_entry(entries: Seq<VocabEntry>, i: int)
    requires
        0 <= i < entries.len(),
        !entries[i].2,
        forall|j: int|
            i < j < entries.len() && (#[trigger] entries[j]).0 == entries[i].0 ==> entries[j].2,
    ensures
        entries_inverse(entries).contains_key(entries[i].0),
        entries_inverse(entries)[entries[i].0] == TokenId(entries[i].1),
    decreases entries.len(),
{
    let d = entries.drop_last();
    assert(entries[entries.len() - 1] == entries.last());
    if i < d.len() {
        assert(d[i] == entries[i]);
        assert forall|j: int| i < j < d.len() && (#[trigger] d[j]).0 == d[i].0 implies d[j].2 by {
            assert(d[j] == entries[j]);
        }
        law_inverse_is_the_last_entry(d, i);
    }
}

/// The added token at `k` gives its ID its content: no vocabulary entry has the
/// ID, and no added token before it does.
pub open spec fn names_its_id(tj: TokenizerJson, k: int) -> bool {
    let t = tj.added_tokens@[k];
    &&& 0 <= k < tj.added_tokens@.len()
    &&& encode_utf8(t.content@).len() > 0
    &&& forall|i: int|
        0 <= i < tj.model.vocab@.len() ==> (#[trigger] tj.model.vocab@[i]).1 != t.id
    &&& forall|j: int| 0 <= j < k ==> (#[trigger] tj.added_tokens@[j]).id != t.id
}

/// An added token of a byte-level file whose ID no vocabulary entry has decodes
/// to its content.
pub proof fn law_added_token_decodes(tj: TokenizerJson, t: TokenizerView, k: int)
    requires
        bpe_outcome(tj) == Ok::<TokenizerView, HfError>(t),
        names_its_id(tj, k),
    ensures
        expand(t.model.vocab, seq![TokenId(tj.added_tokens@[k].id)]) == encode_utf8(
            tj.added_tokens@[k].content@,
        ),
{
    let entries = level_entries(tj.model.vocab@);
    let added = added_contents(tj.added_tokens@);
    lemma_content_of_id(tj, entries, k);
    let one = seq![TokenId(tj.added_tokens@[k].id)];
    assert(one.drop_last() =~= Seq::<TokenId>::empty());
    assert(expand(t.model.vocab, one.drop_last()) =~= Seq::<u8>::empty());
    assert(expand(t.model.vocab, one) =~= t.model.vocab[one.last().0 as int]);
}

/// The same of a SentencePiece-style file.
pub proof fn law_sp_added_token_has_its_content(tj: TokenizerJson, m: SpModel, k: int)
    requires
        sp_outcome(tj) == Ok::<SpModel, HfError>(m),
        names_its_id(tj, k),
    ensures
        tj.added_tokens@[k].id < m.tables.vocab.len(),
        m.tables.vocab[tj.added_tokens@[k].id as int] == encode_utf8(tj.added_tokens@[k].content@),
{
    lemma_content_of_id(tj, piece_entries(tj.model.vocab@), k);
}

proof fn lemma_content_of_id(tj: TokenizerJson, entries: Seq<VocabEntry>, k: int)
    requires
        !too_large(tj),
        entries.len() == tj.model.vocab@.len(),
        forall|i: int|
            0 <= i < entries.len() ==> (#[trigger] entries[i]).1 == tj.model.vocab@[i].1,
        names_its_id(tj, k),
    ensures
        ({
            let v = file_vocab(entries, added_contents(tj.added_tokens@));
            let t = tj.added_tokens@[k];
            t.id < v.len() && v[t.id as int] == encode_utf8(t.content@)
        }),
{
    let added = added_contents(tj.added_tokens@);
    assert forall|i: int| 0 <= i < entries.len() implies (#[trigger] entries[i]).1 + 1
        < max_entries() by {
        assert(entries[i].1 == tj.model.vocab@[i].1);
    }
    assert(added[k] == (encode_utf8(tj.added_tokens@[k].content@), tj.added_tokens@[k].id));
    assert forall|i: int| 0 <= i < entries.len() && (#[trigger] entries[i]).1 == added[k].1 implies entries[i].0.len()
        == 0 by {
        assert(tj.model.vocab@[i].1 != added[k].1);
    }
    assert forall|j: int| 0 <= j < k && (#[trigger] added[j]).1 == added[k].1 implies added[j].0.len()
        == 0 by {
        assert(tj.added_tokens@[j].id != added[k].1);
    }
    law_added_token_has_its_content(entries, added, k);
}

/// The content of an added token of a loaded tokenizer encodes to its ID, and
/// the ID decodes to the content.
pub proof fn law_added_token_round_trip(tj: TokenizerJson, t: TokenizerView, k: int)
    requires
        bpe_outcome(tj) == Ok::<TokenizerView, HfError>(t),
        names_its_id(tj, k),
        all_nonempty(t.added),
        forall|i: int, j: int|
            0 <= i < t.added.len() && 0 <= j < t.added.len() && (#[trigger] t.added[i]).content == (
            #[trigger] t.added[j]).content ==> i == j,
    ensures
        ({
            let c = encode_utf8(tj.added_tokens@[k].content@);
            let id = tj.added_tokens@[k].id;
            encoded(t, c) == seq![id] && expand(t.model.vocab, seq![TokenId(id)]) == c
        }),
{
    law_added_token_decodes(tj, t, k);
    let defs = added_defs(tj.added_tokens@);
    let tok = defs[k];
    assert(defs.contains(tok));
    law_by_length_keeps_tokens(defs, tok);
    let i = choose|i: int| 0 <= i < t.added.len() && t.added[i] == tok;
    law_added_content_is_one_token(t, i);
}

} // verus!
