//! The immutable tables of a byte-level BPE model.
use crate::bpe::bytes::{byte_symbols, contents, remap_bytes, symbol_table, ByteRemapping};
use crate::bpe::merge::{
    bpe_merge_symbols_by_rank, bpe_merge_symbols_ranked, bpe_merge_symbols_ranked_slice,
    bpe_merge_symbols_short_scalar, bpe_merge_symbols_with_scratch, id_rules, ranked_rules,
    IdMerges, MergeScratch, RankedMerges, SHORT_MERGE_MAX,
};
use crate::bpe::pair_rank::PairRankTable;
use crate::bpe::rules::{bpe_merge, lemma_final_unchanged, MergeRules, Rules};
use crate::bytes_map::BytesMap;
use crate::search::copy_bytes;
use crate::token::TokenId;
use std::sync::Arc;
use vstd::prelude::*;

verus! {

broadcast use vstd::std_specs::hash::group_hash_axioms;

/// `std::sync::Arc::clone`: the same shared value.
#[verifier::external_body]
pub(crate) fn share<T>(a: &Arc<T>) -> (r: Arc<T>)
    ensures
        r == *a,
{
    a.clone()
}

/// What a model is: its merge rules, the bytes of each token, the token of
/// each byte string, and the symbol of each byte value.
pub struct ModelView {
    pub rules: Rules,
    pub vocab: Seq<Seq<u8>>,
    pub vocab_inv: Map<Seq<u8>, TokenId>,
    pub table: Seq<TokenId>,
}

/// The tokens of a whole byte string: with `ignore_merges` its own token if it
/// has one, else what its byte symbols merge to.
pub open spec fn model_tokens(m: ModelView, ignore_merges: bool, bytes: Seq<u8>) -> Seq<TokenId> {
    if ignore_merges && m.vocab_inv.contains_key(bytes) {
        seq![m.vocab_inv[bytes]]
    } else {
        bpe_merge(m.rules, byte_symbols(m.table, bytes))
    }
}

/// The token of each byte string of a vocabulary; the last one of equals.
pub open spec fn vocab_inverse(vocab: Seq<Seq<u8>>) -> Map<Seq<u8>, TokenId>
    decreases vocab.len(),
{
    if vocab.len() == 0 {
        Map::empty()
    } else {
        vocab_inverse(vocab.drop_last()).insert(vocab.last(), TokenId((vocab.len() - 1) as u32))
    }
}

/// Every byte string with a token, but for the empty one, is the content of
/// that token.
pub open spec fn inverse_spells(inv: Map<Seq<u8>, TokenId>, vocab: Seq<Seq<u8>>) -> bool {
    forall|b: Seq<u8>| #[trigger]
        inv.contains_key(b) && b.len() > 0 ==> inv[b].0 < vocab.len() && vocab[inv[b].0 as int] == b
}

/// A vocabulary with empty entries added up to `n` entries.
pub open spec fn padded(vocab: Seq<Seq<u8>>, n: int) -> Seq<Seq<u8>> {
    Seq::new(
        if n > vocab.len() {
            n as nat
        } else {
            vocab.len()
        },
        |i: int|
            if i < vocab.len() {
                vocab[i]
            } else {
                Seq::<u8>::empty()
            },
    )
}

/// The model with `content` as the content of token `id`, unless that token
/// has content already. The vocabulary grows to hold the token.
pub open spec fn with_token(m: ModelView, content: Seq<u8>, id: TokenId) -> ModelView {
    let vocab = padded(m.vocab, id.0 + 1);
    if vocab[id.0 as int].len() == 0 {
        ModelView {
            rules: m.rules,
            vocab: vocab.update(id.0 as int, content),
            vocab_inv: m.vocab_inv.insert(content, id),
            table: m.table,
        }
    } else {
        ModelView { rules: m.rules, vocab, vocab_inv: m.vocab_inv, table: m.table }
    }
}

/// The model with a list of tokens set one after the other.
pub open spec fn with_tokens(m: ModelView, tokens: Seq<(Seq<u8>, TokenId)>) -> ModelView
    decreases tokens.len(),
{
    if tokens.len() == 0 {
        m
    } else {
        with_token(with_tokens(m, tokens.drop_last()), tokens.last().0, tokens.last().1)
    }
}

/// The values of a list of tokens with their content.
pub open spec fn token_views(v: Seq<(Vec<u8>, TokenId)>) -> Seq<(Seq<u8>, TokenId)> {
    v.map_values(|t: (Vec<u8>, TokenId)| (t.0@, t.1))
}

/// The inverse of a vocabulary spells it.
pub proof fn lemma_vocab_inverse(vocab: Seq<Seq<u8>>)
    requires
        vocab.len() <= u32::MAX,
    ensures
        inverse_spells(vocab_inverse(vocab), vocab),
        forall|i: int| 0 <= i < vocab.len() ==> #[trigger] vocab_inverse(vocab).contains_key(vocab[i]),
    decreases vocab.len(),
{
    if vocab.len() > 0 {
        let head = vocab.drop_last();
        lemma_vocab_inverse(head);
        assert forall|i: int| 0 <= i < vocab.len() implies #[trigger] vocab_inverse(vocab).contains_key(
            vocab[i],
        ) by {
            if i < head.len() {
                assert(vocab_inverse(head).contains_key(head[i]));
            }
        }
    }
}

/// Builds the inverse of a vocabulary.
pub(crate) fn invert_vocab(vocab: &Vec<Vec<u8>>) -> (inv: BytesMap<TokenId>)
    requires
        vocab@.len() <= u32::MAX,
    ensures
        inv@ == vocab_inverse(contents(vocab@)),
{
    let mut inv: BytesMap<TokenId> = BytesMap::new();
    let ghost all = contents(vocab@);
    let mut i: usize = 0;
    proof {
        assert(all.take(0) =~= Seq::<Seq<u8>>::empty());
    }
    while i < vocab.len()
        invariant
            i <= vocab@.len() <= u32::MAX,
            all == contents(vocab@),
            inv@ == vocab_inverse(all.take(i as int)),
        decreases vocab@.len() - i,
    {
        inv.insert(vocab[i].as_slice(), TokenId(i as u32));
        proof {
            assert(all.take(i + 1).drop_last() =~= all.take(i as int));
        }
        i += 1;
    }
    proof {
        assert(all.take(i as int) =~= all);
    }
    inv
}

/// The same vocabulary again.
fn copy_vocab(vocab: &Vec<Vec<u8>>) -> (r: Vec<Vec<u8>>)
    ensures
        contents(r@) == contents(vocab@),
{
    let mut r: Vec<Vec<u8>> = Vec::new();
    let mut i: usize = 0;
    while i < vocab.len()
        invariant
            i <= vocab@.len(),
            r@.len() == i,
            forall|j: int| 0 <= j < i ==> (#[trigger] r@[j])@ == vocab@[j]@,
        decreases vocab@.len() - i,
    {
        r.push(copy_bytes(vocab[i].as_slice()));
        i += 1;
    }
    proof {
        assert(contents(r@) =~= contents(vocab@));
    }
    r
}

/// The tables of a byte-level BPE model, shared between tokenizers.
pub struct Model {
    merges: Arc<IdMerges>,
    /// Flat lookup of `merges`, when their numbers fit it.
    pair_ranks: Option<Arc<PairRankTable>>,
    /// Explicit merge ranks; these replace `merges`.
    ranked_merges: Option<Arc<RankedMerges>>,
    vocab: Arc<Vec<Vec<u8>>>,
    vocab_inv: Arc<BytesMap<TokenId>>,
    byte_remapping: Option<ByteRemapping>,
}

impl Model {
    /// What the model is.
    pub closed spec fn view(&self) -> ModelView {
        ModelView {
            rules: match self.ranked_merges {
                Some(rm) => ranked_rules(rm@),
                None => id_rules(self.merges@),
            },
            vocab: contents(self.vocab@),
            vocab_inv: self.vocab_inv@,
            table: symbol_table(self.byte_remapping),
        }
    }

    /// The rank of each merge rule.
    pub closed spec fn merge_ranks(&self) -> Map<u64, u32> {
        match self.ranked_merges {
            Some(rm) => crate::bpe::listing::ranks_of(rm@),
            None => crate::bpe::listing::ids_of(self.merges@),
        }
    }

    #[verifier::type_invariant]
    spec fn wf(&self) -> bool {
        &&& self.pair_ranks matches Some(t) ==> t@ == self.merges@
        &&& self.vocab@.len() <= u32::MAX
        &&& inverse_spells(self.vocab_inv@, contents(self.vocab@))
    }

    /// Builds a model. `ranked_merges`, when given, replaces `merges`.
    pub fn new(
        merges: IdMerges,
        ranked_merges: Option<RankedMerges>,
        vocab: Vec<Vec<u8>>,
        byte_remapping: Option<ByteRemapping>,
    ) -> (m: Self)
        requires
            vocab@.len() <= u32::MAX,
        ensures
            m@ == (ModelView {
                rules: match ranked_merges {
                    Some(rm) => ranked_rules(rm@),
                    None => id_rules(merges@),
                },
                vocab: contents(vocab@),
                vocab_inv: vocab_inverse(contents(vocab@)),
                table: symbol_table(byte_remapping),
            }),
            m.merge_ranks() == (match ranked_merges {
                Some(rm) => crate::bpe::listing::ranks_of(rm@),
                None => crate::bpe::listing::ids_of(merges@),
            }),
    {
        let vocab_inv = invert_vocab(&vocab);
        proof {
            lemma_vocab_inverse(contents(vocab@));
        }
        let pair_ranks = match &ranked_merges {
            Some(_) => None,
            None => match PairRankTable::build(&merges, vocab.len()) {
                Some(t) => Some(Arc::new(t)),
                None => None,
            },
        };
        let ranked_merges = match ranked_merges {
            Some(rm) => Some(Arc::new(rm)),
            None => None,
        };
        Model {
            merges: Arc::new(merges),
            pair_ranks,
            ranked_merges,
            vocab: Arc::new(vocab),
            vocab_inv: Arc::new(vocab_inv),
            byte_remapping,
        }
    }

    /// The same model, with its tables shared.
    pub fn share(&self) -> (m: Self)
        ensures
            m@ == self@,
            m.merge_ranks() == self.merge_ranks(),
    {
        proof {
            use_type_invariant(self);
        }
        Model {
            merges: share(&self.merges),
            pair_ranks: match &self.pair_ranks {
                Some(t) => Some(share(t)),
                None => None,
            },
            ranked_merges: match &self.ranked_merges {
                Some(t) => Some(share(t)),
                None => None,
            },
            vocab: share(&self.vocab),
            vocab_inv: share(&self.vocab_inv),
            byte_remapping: match &self.byte_remapping {
                Some(m) => Some(m.copy()),
                None => None,
            },
        }
    }

    /// Sets the content of tokens that have none, growing the vocabulary to
    /// hold them.
    pub fn add_tokens(&mut self, tokens: &Vec<(Vec<u8>, TokenId)>)
        requires
            forall|i: int| 0 <= i < tokens@.len() ==> (#[trigger] tokens@[i]).1.0 < u32::MAX,
        ensures
            final(self)@ == with_tokens(old(self)@, token_views(tokens@)),
            final(self).merge_ranks() == old(self).merge_ranks(),
    {
        proof {
            use_type_invariant(&*self);
        }
        let ghost m0 = self@;
        let ghost all = token_views(tokens@);
        let mut vocab = copy_vocab(&self.vocab);
        let mut inv: BytesMap<TokenId> = self.vocab_inv.copy();
        let mut i: usize = 0;
        proof {
            assert(all.take(0) =~= Seq::<(Seq<u8>, TokenId)>::empty());
            assert(contents(vocab@).len() == contents(self.vocab@).len());
        }
        while i < tokens.len()
            invariant
                i <= tokens@.len(),
                all == token_views(tokens@),
                forall|i: int| 0 <= i < tokens@.len() ==> (#[trigger] tokens@[i]).1.0 < u32::MAX,
                vocab@.len() <= u32::MAX,
                inverse_spells(inv@, contents(vocab@)),
                with_tokens(m0, all.take(i as int)) == (ModelView {
                    rules: m0.rules,
                    vocab: contents(vocab@),
                    vocab_inv: inv@,
                    table: m0.table,
                }),
            decreases tokens@.len() - i,
        {
            let (content, id) = &tokens[i];
            let ghost before = with_tokens(m0, all.take(i as int));
            let ghost v0 = contents(vocab@);
            proof {
                assert(all.take(i + 1).drop_last() =~= all.take(i as int));
                assert(all.take(i + 1).last() == (content@, *id));
                assert(tokens@[i as int].1.0 < u32::MAX);
            }
            let idx: usize = id.0 as usize;
            proof {
                assert(contents(vocab@) =~= padded(v0, vocab@.len() as int));
            }
            while vocab.len() <= idx
                invariant
                    idx < u32::MAX,
                    vocab@.len() <= u32::MAX,
                    v0.len() <= vocab@.len(),
                    vocab@.len() <= idx + 1 || vocab@.len() == v0.len(),
                    contents(vocab@) == padded(v0, vocab@.len() as int),
                decreases idx + 1 - vocab@.len(),
            {
                let ghost shorter = vocab@;
                vocab.push(Vec::new());
                proof {
                    assert forall|j: int| 0 <= j < vocab@.len() implies #[trigger] contents(vocab@)[j]
                        == padded(v0, vocab@.len() as int)[j] by {
                        if j < shorter.len() {
                            assert(contents(shorter)[j] == padded(v0, shorter.len() as int)[j]);
                        } else {
                            assert(contents(vocab@)[j] =~= Seq::<u8>::empty());
                        }
                    }
                    assert(contents(vocab@) =~= padded(v0, vocab@.len() as int));
                }
            }
            let ghost v1 = contents(vocab@);
            proof {
                assert(v1 =~= padded(v0, idx + 1));
                assert forall|b: Seq<u8>| #[trigger] inv@.contains_key(b) && b.len() > 0 implies inv@[b].0
                    < v1.len() && v1[inv@[b].0 as int] == b by {
                    assert(v0[inv@[b].0 as int] == b);
                }
            }
            if vocab[idx].len() == 0 {
                let ghost inv0 = inv@;
                vocab[idx] = copy_bytes(content.as_slice());
                inv.insert(content.as_slice(), *id);
                proof {
                    assert(contents(vocab@) =~= v1.update(idx as int, content@));
                    assert forall|b: Seq<u8>| #[trigger] inv@.contains_key(b) && b.len() > 0 implies inv@[b].0
                        < vocab@.len() && contents(vocab@)[inv@[b].0 as int] == b by {
                        if b != content@ {
                            assert(inv0.contains_key(b));
                            assert(v1[inv0[b].0 as int] == b);
                        }
                    }
                }
            }
            i += 1;
        }
        proof {
            assert(all.take(i as int) =~= all);
        }
        *self = Model {
            merges: share(&self.merges),
            pair_ranks: match &self.pair_ranks {
                Some(t) => Some(share(t)),
                None => None,
            },
            ranked_merges: match &self.ranked_merges {
                Some(t) => Some(share(t)),
                None => None,
            },
            vocab: Arc::new(vocab),
            vocab_inv: Arc::new(inv),
            byte_remapping: match &self.byte_remapping {
                Some(m) => Some(m.copy()),
                None => None,
            },
        };
    }

    /// The vocabulary.
    pub fn vocab(&self) -> (v: &Vec<Vec<u8>>)
        ensures
            contents(v@) == self@.vocab,
            v@.len() <= u32::MAX,
            self@.vocab.len() == v@.len(),
            inverse_spells(self@.vocab_inv, self@.vocab),
    {
        proof {
            use_type_invariant(self);
        }
        &self.vocab
    }

    /// The token of a byte string.
    pub fn token_of(&self, bytes: &[u8]) -> (r: Option<TokenId>)
        ensures
            r == (if self@.vocab_inv.contains_key(bytes@) {
                Some(self@.vocab_inv[bytes@])
            } else {
                None
            }),
    {
        self.vocab_inv.get(bytes)
    }

    /// Merge rules as `(left, right)` byte pairs in priority order.
    pub fn merge_entries(&self) -> (r: Vec<(Vec<u8>, Vec<u8>)>)
        requires
            self.merge_ranks().len() <= u32::MAX,
            crate::bpe::listing::parts_in_vocab(self.merge_ranks(), self@.vocab.len()),
        ensures
            exists|keys: Seq<u64>| #[trigger]
                crate::bpe::listing::is_merge_order(keys, self.merge_ranks())
                    && crate::bpe::listing::spells_merges(r@, keys, self@.vocab),
    {
        match &self.ranked_merges {
            Some(rm) => {
                proof {
                    assert(crate::bpe::listing::ranks_of(rm@).dom() =~= rm@.dom());
                }
                crate::bpe::listing::ranked_merge_entries(rm, &self.vocab)
            },
            None => {
                proof {
                    assert(crate::bpe::listing::ids_of(self.merges@).dom() =~= self.merges@.dom());
                }
                crate::bpe::listing::id_merge_entries(&self.merges, &self.vocab)
            },
        }
    }

    /// Encodes a byte string of 1 to 15 bytes into the front of `buf` and
    /// returns the number of tokens.
    pub fn seed_encode(
        &self,
        ignore_merges: bool,
        bytes: &[u8],
        buf: &mut [TokenId; SHORT_MERGE_MAX],
    ) -> (n: usize)
        requires
            1 <= bytes@.len() < SHORT_MERGE_MAX,
        ensures
            1 <= n <= bytes@.len(),
            final(buf)@.take(n as int) == model_tokens(self@, ignore_merges, bytes@),
    {
        proof {
            use_type_invariant(self);
        }
        if ignore_merges {
            match self.vocab_inv.get(bytes) {
                Some(id) => {
                    buf[0] = id;
                    proof {
                        assert(buf@.take(1) =~= seq![id]);
                    }
                    return 1;
                },
                None => {},
            }
        }
        let n: usize = bytes.len();
        let ghost symbols = byte_symbols(self@.table, bytes@);
        let whole: &mut [TokenId] = buf;
        remap_bytes(&self.byte_remapping, bytes, whole);
        proof {
            assert(buf@.take(n as int) =~= symbols);
            crate::bpe::rules::law_merge_is_final(self@.rules, symbols);
        }
        if n < 2 {
            proof {
                assert(crate::bpe::rules::is_final(self@.rules, symbols));
                lemma_final_unchanged(self@.rules, symbols);
            }
            return n;
        }
        match (&self.ranked_merges, &self.pair_ranks) {
            (Some(rm), _) => {
                let ghost whole0 = buf@;
                let whole: &mut [TokenId] = buf;
                let (front, _) = whole.split_at_mut(n);
                proof {
                    assert(front@ =~= symbols);
                }
                let len: usize = bpe_merge_symbols_ranked_slice(rm, front);
                proof {
                    assert(buf@.take(len as int) =~= bpe_merge(self@.rules, symbols));
                }
                len
            },
            (None, Some(table)) => bpe_merge_symbols_short_scalar(&**table, buf, n),
            (None, None) => bpe_merge_symbols_short_scalar(&*self.merges, buf, n),
        }
    }

    /// Encodes a byte string of any length.
    pub fn encode_bytes(
        &self,
        ignore_merges: bool,
        bytes: &[u8],
        symbols: &mut Vec<TokenId>,
        scratch: &mut MergeScratch,
    )
        requires
            old(scratch).wf(),
        ensures
            final(symbols)@ == model_tokens(self@, ignore_merges, bytes@),
            final(scratch).wf(),
    {
        proof {
            use_type_invariant(self);
        }
        symbols.clear();
        if ignore_merges {
            match self.vocab_inv.get(bytes) {
                Some(id) => {
                    symbols.push(id);
                    proof {
                        assert(symbols@ =~= seq![id]);
                    }
                    return;
                },
                None => {},
            }
        }
        symbols.resize(bytes.len(), TokenId(0));
        remap_bytes(&self.byte_remapping, bytes, symbols.as_mut_slice());
        proof {
            assert(symbols@ =~= byte_symbols(self@.table, bytes@));
        }
        match (&self.ranked_merges, &self.pair_ranks) {
            (Some(rm), _) => {
                bpe_merge_symbols_ranked(rm, symbols);
            },
            (None, Some(table)) => {
                bpe_merge_symbols_by_rank(&**table, symbols, scratch);
            },
            (None, None) => {
                bpe_merge_symbols_with_scratch(&self.merges, symbols, scratch);
            },
        }
    }
}

} // verus!
