//! Cache keys of short pretokens and the batches they travel in.
use crate::pretokenize::mask::MaskState;
use crate::pretokenize::scheme::{
    as_spans, law_spans_partition, spans_from, PretokenizerType,
};
use vstd::prelude::*;

verus! {

/// The most entries that one batch holds.
pub const PRETOKEN_CHUNK: usize = 256;

/// The bytes as one little-endian number.
pub open spec fn le_value(s: Seq<u8>) -> nat
    decreases s.len(),
{
    if s.len() == 0 {
        0
    } else {
        s[0] as nat + 256 * le_value(s.drop_first())
    }
}

/// `256` to the `n`.
pub open spec fn pow256(n: nat) -> nat
    decreases n,
{
    if n == 0 {
        1
    } else {
        256 * pow256((n - 1) as nat)
    }
}

/// `2` to the `120`: the weight of the length byte of a key.
pub const LEN_WEIGHT: u128 = 0x100_0000_0000_0000_0000_0000_0000_0000;

/// The key of a pretoken: its bytes in the low lanes and its length in the top
/// byte for 1 to 15 bytes, 0 for the empty pretoken, none for longer ones.
pub open spec fn pretoken_key(s: Seq<u8>) -> Option<u128> {
    if s.len() > 15 {
        None
    } else if s.len() == 0 {
        Some(0u128)
    } else {
        Some((le_value(s) + s.len() * LEN_WEIGHT) as u128)
    }
}

proof fn lemma_pow256_15()
    ensures
        pow256(15) == LEN_WEIGHT,
{
    reveal_with_fuel(pow256, 16);
}

proof fn lemma_pow256_mono(a: nat, b: nat)
    requires
        a <= b,
    ensures
        0 < pow256(a) <= pow256(b),
    decreases b,
{
    if b > 0 {
        if a < b {
            lemma_pow256_mono(a, (b - 1) as nat);
        } else {
            lemma_pow256_mono((a - 1) as nat, (b - 1) as nat);
        }
    }
}

proof fn lemma_le_bound(s: Seq<u8>)
    ensures
        le_value(s) < pow256(s.len()),
    decreases s.len(),
{
    if s.len() > 0 {
        lemma_le_bound(s.drop_first());
    }
}

proof fn lemma_le_injective(a: Seq<u8>, b: Seq<u8>)
    requires
        a.len() == b.len(),
        le_value(a) == le_value(b),
    ensures
        a == b,
    decreases a.len(),
{
    if a.len() > 0 {
        assert(a[0] == b[0]);
        lemma_le_injective(a.drop_first(), b.drop_first());
        assert(a =~= seq![a[0]] + a.drop_first());
        assert(b =~= seq![b[0]] + b.drop_first());
    } else {
        assert(a =~= b);
    }
}

/// The range of a key.
proof fn lemma_key_range(s: Seq<u8>)
    requires
        1 <= s.len() <= 15,
    ensures
        le_value(s) < LEN_WEIGHT,
        pretoken_key(s) == Some((le_value(s) + s.len() * LEN_WEIGHT) as u128),
        (pretoken_key(s)->0) as nat == le_value(s) + s.len() * LEN_WEIGHT,
        (pretoken_key(s)->0) / LEN_WEIGHT == s.len(),
        pretoken_key(s) != Some(0u128),
{
    lemma_le_bound(s);
    lemma_pow256_mono(s.len(), 15);
    lemma_pow256_15();
    let v = le_value(s) + s.len() * LEN_WEIGHT;
    assert(v <= u128::MAX);
}

/// Keys of pretokens up to 15 bytes never collide, and only the empty
/// pretoken has key 0.
pub proof fn law_keys_distinct(a: Seq<u8>, b: Seq<u8>)
    requires
        a.len() <= 15,
        b.len() <= 15,
    ensures
        pretoken_key(a) == pretoken_key(b) ==> a == b,
        pretoken_key(a) == Some(0u128) <==> a.len() == 0,
{
    if a.len() > 0 {
        lemma_key_range(a);
    }
    if b.len() > 0 {
        lemma_key_range(b);
    }
    if a.len() > 0 && b.len() > 0 && pretoken_key(a) == pretoken_key(b) {
        lemma_le_injective(a, b);
    }
    if a.len() == 0 && b.len() == 0 {
        assert(a =~= b);
    }
}

/// Packs a pretoken of at most 15 bytes into a cache key.
pub fn pack_pretoken_key(bytes: &[u8]) -> (r: Option<u128>)
    ensures
        r == pretoken_key(bytes@),
{
    let n: usize = bytes.len();
    if n > 15 {
        return None;
    }
    if n == 0 {
        return Some(0);
    }
    let mut low: u128 = 0;
    let mut i: usize = n;
    proof {
        assert(bytes@.skip(n as int) =~= Seq::<u8>::empty());
    }
    while i > 0
        invariant
            i <= n == bytes@.len(),
            n <= 15,
            low == le_value(bytes@.skip(i as int)),
        decreases i,
    {
        i -= 1;
        proof {
            assert(bytes@.skip(i as int).drop_first() =~= bytes@.skip(i + 1));
            lemma_le_bound(bytes@.skip(i + 1));
            lemma_pow256_mono((n - i - 1) as nat, 15);
            lemma_pow256_15();
        }
        low = low * 256 + bytes[i] as u128;
    }
    proof {
        assert(bytes@.skip(0) =~= bytes@);
        lemma_key_range(bytes@);
    }
    Some(low + n as u128 * LEN_WEIGHT)
}

/// The hash of a packed key: both halves folded by one multiplication.
pub open spec fn key_hash(key: u128) -> u64 {
    let lo = key as u64;
    let hi = (key >> 64) as u64;
    let h = (lo ^ ((hi >> 25) | (hi << 39))).wrapping_mul(0x9E37_79B9_7F4A_7C15);
    h ^ (h >> 32)
}

/// Hash of a packed pretoken key; key 0 hashes to 0.
pub fn pretoken_key_hash(key: u128) -> (r: u64)
    ensures
        r == key_hash(key),
        key == 0 ==> r == 0,
{
    let lo: u64 = key as u64;
    let hi: u64 = (key >> 64) as u64;
    let h: u64 = (lo ^ ((hi >> 25) | (hi << 39))).wrapping_mul(0x9E37_79B9_7F4A_7C15);
    proof {
        assert(key == 0 ==> key as u64 == 0u64 && (key >> 64u64) as u64 == 0u64) by (bit_vector);
        assert(0u64 ^ ((0u64 >> 25u64) | (0u64 << 39u64)) == 0u64 && 0u64 ^ (0u64 >> 32u64) == 0u64)
            by (bit_vector);
    }
    h ^ (h >> 32)
}

/// One batch slot: a pretoken span with its packed key.
#[derive(Clone, Copy, Debug, PartialEq, Eq, Structural)]
pub struct BatchEntry {
    /// The packed key; 0 for a pretoken of no or more than 15 bytes.
    pub key: u128,
    /// Where the span starts.
    pub start: usize,
    /// The hash of the key, or the span length when the key is 0.
    pub meta: u64,
}

/// The entry of a span of `s`.
pub open spec fn entry_for(s: Seq<u8>, start: int, end: int) -> BatchEntry {
    let span = s.subrange(start, end);
    let key = match pretoken_key(span) {
        Some(k) => k,
        None => 0u128,
    };
    BatchEntry {
        key,
        start: start as usize,
        meta: if key != 0 {
            key_hash(key)
        } else {
            span.len() as u64
        },
    }
}

impl BatchEntry {
    /// The length of the span, whichever way it is kept.
    pub fn span_len(&self) -> (n: u64)
        ensures
            n as int == (if self.key != 0 {
                (self.key / LEN_WEIGHT) as int
            } else {
                self.meta as int
            }),
    {
        if self.key != 0 {
            (self.key / LEN_WEIGHT) as u64
        } else {
            self.meta
        }
    }
}

/// The span length can be read off every entry.
pub proof fn law_entry_span_len(s: Seq<u8>, start: int, end: int)
    requires
        0 <= start <= end <= s.len() <= u64::MAX,
    ensures
        ({
            let e = entry_for(s, start, end);
            end - start == (if e.key != 0 {
                (e.key / LEN_WEIGHT) as int
            } else {
                e.meta as int
            })
        }),
{
    let span = s.subrange(start, end);
    if 1 <= span.len() <= 15 {
        lemma_key_range(span);
    }
}

/// The batch entry of one span.
pub fn make_entry(bytes: &[u8], start: usize, end: usize) -> (e: BatchEntry)
    requires
        start <= end <= bytes@.len(),
    ensures
        e == entry_for(bytes@, start as int, end as int),
{
    let span = vstd::slice::slice_subrange(bytes, start, end);
    let key: u128 = match pack_pretoken_key(span) {
        Some(k) => k,
        None => 0,
    };
    let meta: u64 = if key != 0 {
        pretoken_key_hash(key)
    } else {
        span.len() as u64
    };
    BatchEntry { key, start, meta }
}

/// A chunk of pretoken spans with their keys.
pub struct SpanBatch {
    /// The entries of the most recent fill.
    pub entries: Vec<BatchEntry>,
}

/// The entries of a list of spans.
pub open spec fn entries_for(s: Seq<u8>, spans: Seq<(int, int)>) -> Seq<BatchEntry> {
    Seq::new(spans.len(), |i: int| entry_for(s, spans[i].0, spans[i].1))
}

impl SpanBatch {
    /// An empty batch.
    pub fn new() -> (b: Self)
        ensures
            b.entries@.len() == 0,
    {
        SpanBatch { entries: Vec::new() }
    }

    /// The span of entry `i`.
    pub fn span(&self, i: usize) -> (r: (usize, u64))
        requires
            i < self.entries@.len(),
        ensures
            r.0 == self.entries@[i as int].start,
            r.1 as int == (if self.entries@[i as int].key != 0 {
                (self.entries@[i as int].key / LEN_WEIGHT) as int
            } else {
                self.entries@[i as int].meta as int
            }),
    {
        (self.entries[i].start, self.entries[i].span_len())
    }
}

impl Default for SpanBatch {
    fn default() -> (b: Self)
        ensures
            b.entries@.len() == 0,
    {
        Self::new()
    }
}

/// All spans lie within the text.
pub open spec fn spans_in(s: Seq<u8>, spans: Seq<(int, int)>) -> bool {
    forall|i: int|
        0 <= i < spans.len() ==> 0 <= (#[trigger] spans[i]).0 <= spans[i].1 <= s.len()
}

/// A source of pretoken spans over one text, pulled in batches.
pub trait PretokenSpans {
    /// The text that the spans lie in.
    spec fn text(&self) -> Seq<u8>;

    /// The spans not yet handed out.
    spec fn left(&self) -> Seq<(int, int)>;

    /// The text.
    fn buf(&self) -> (r: &[u8])
        ensures
            r@ == self.text(),
    ;

    /// Fills `batch` with the next spans, at most [`PRETOKEN_CHUNK`], and
    /// returns how many. A batch that is not full means that no spans are
    /// left.
    fn fill_spans_keyed(&mut self, batch: &mut SpanBatch) -> (n: usize)
        ensures
            final(self).text() == old(self).text(),
            spans_in(old(self).text(), old(self).left()),
            n <= PRETOKEN_CHUNK,
            n <= old(self).left().len(),
            n < PRETOKEN_CHUNK ==> n == old(self).left().len(),
            final(batch).entries@ == entries_for(
                old(self).text(),
                old(self).left().take(n as int),
            ),
            final(self).left() == old(self).left().skip(n as int),
    ;
}

/// The pretokens of a text under one scheme.
///
/// UTF-8 text is walked by batch masks, other bytes from token to token.
pub struct Pretokens<'a> {
    scheme: PretokenizerType,
    bytes: &'a [u8],
    state: MaskState,
}

impl<'a> Pretokens<'a> {
    /// The pretokens of `bytes` from the start.
    pub fn new(scheme: PretokenizerType, bytes: &'a [u8]) -> (p: Self)
        ensures
            p.text() == bytes@,
            p.left() == spans_from(scheme, bytes@, 0),
    {
        Pretokens { scheme, bytes, state: MaskState::new(0) }
    }

    #[verifier::type_invariant]
    spec fn wf(&self) -> bool {
        self.state.fits(self.scheme, self.bytes@)
    }
}

impl<'a> PretokenSpans for Pretokens<'a> {
    closed spec fn text(&self) -> Seq<u8> {
        self.bytes@
    }

    closed spec fn left(&self) -> Seq<(int, int)> {
        spans_from(self.scheme, self.bytes@, self.state.at())
    }

    fn buf(&self) -> (r: &[u8]) {
        self.bytes
    }

    fn fill_spans_keyed(&mut self, batch: &mut SpanBatch) -> (n: usize) {
        proof {
            use_type_invariant(&*self);
            self.state.lemma_within(self.scheme, self.bytes@);
            law_spans_partition(self.scheme, self.bytes@, self.state.at());
        }
        let mut state = MaskState::new(0);
        std::mem::swap(&mut state, &mut self.state);
        let n: usize = state.fill_spans_two_phase(self.scheme, self.bytes, batch);
        std::mem::swap(&mut state, &mut self.state);
        n
    }
}

/// A given list of pretoken spans over one text.
pub struct SpanIter<'a> {
    bytes: &'a [u8],
    spans: Vec<(usize, usize)>,
    next: usize,
}

impl<'a> SpanIter<'a> {
    /// The given spans of `bytes`.
    pub fn new(bytes: &'a [u8], spans: Vec<(usize, usize)>) -> (p: Self)
        requires
            spans_in(bytes@, as_spans(spans@)),
        ensures
            p.text() == bytes@,
            p.left() == as_spans(spans@),
    {
        let p = SpanIter { bytes, spans, next: 0 };
        proof {
            assert(as_spans(spans@).skip(0) =~= as_spans(spans@));
        }
        p
    }

    #[verifier::type_invariant]
    spec fn wf(&self) -> bool {
        self.next <= self.spans@.len() && spans_in(self.bytes@, as_spans(self.spans@))
    }
}

impl<'a> PretokenSpans for SpanIter<'a> {
    closed spec fn text(&self) -> Seq<u8> {
        self.bytes@
    }

    closed spec fn left(&self) -> Seq<(int, int)> {
        as_spans(self.spans@).skip(self.next as int)
    }

    fn buf(&self) -> (r: &[u8]) {
        self.bytes
    }

    fn fill_spans_keyed(&mut self, batch: &mut SpanBatch) -> (n: usize) {
        proof {
            use_type_invariant(&*self);
        }
        batch.entries.clear();
        let first: usize = self.next;
        let ghost all = self.left();
        let ghost s = self.bytes@;
        let mut i: usize = first;
        proof {
            assert(batch.entries@ =~= entries_for(s, all.take(0)));
        }
        while batch.entries.len() < PRETOKEN_CHUNK && i < self.spans.len()
            invariant
                self.wf(),
                s == self.bytes@,
                all == as_spans(self.spans@).skip(first as int),
                first <= i <= self.spans@.len(),
                batch.entries@.len() == i - first,
                batch.entries@.len() <= PRETOKEN_CHUNK,
                batch.entries@ == entries_for(s, all.take(i - first)),
            decreases self.spans@.len() - i,
        {
            let (a, b) = self.spans[i];
            proof {
                assert(as_spans(self.spans@)[i as int] == (a as int, b as int));
                assert(all[i - first] == (a as int, b as int));
                assert(entries_for(s, all.take(i - first + 1)) =~= entries_for(
                    s,
                    all.take(i - first),
                ).push(entry_for(s, a as int, b as int)));
            }
            batch.entries.push(make_entry(self.bytes, a, b));
            i += 1;
        }
        let n: usize = batch.entries.len();
        proof {
            assert(as_spans(self.spans@).skip(i as int) =~= all.skip(n as int));
            assert forall|j: int| 0 <= j < all.len() implies 0 <= (#[trigger] all[j]).0 <= all[j].1 <= s.len() by {
                assert(all[j] == as_spans(self.spans@)[first + j]);
            }
        }
        self.next = i;
        n
    }
}

} // verus!
