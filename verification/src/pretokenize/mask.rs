//! The batch walker: pops trusted token starts off the masks of 64-byte
//! batches and goes from token to token where they are silent.
use crate::pretokenize::batches::{batch_masks, clear, entered, masks_ok, told};
use crate::pretokenize::bits::{
    below, bit, disjoint, from_bit, group_bits, lowest, single,
};
use crate::pretokenize::keys::{entries_for, entry_for, make_entry, SpanBatch, PRETOKEN_CHUNK};
use crate::pretokenize::locality::{law_utf8_is_well_encoded, well_encoded};
use crate::pretokenize::scheme::{advance, spans_from, token_end, PretokenizerType};
use crate::pretokenize::starts::{
    is_start, law_chain_is_tokens, law_next_start, lemma_chain_at, lemma_chain_bounds, lemma_chain_empty,
    lemma_chain_push, lemma_first_start, token_chain,
};
use crate::text::utf8_text;
use vstd::prelude::*;

verus! {

broadcast use group_bits;

/// The state of a walk over one text.
pub struct MaskState {
    /// Start of the pending token.
    pos: usize,
    /// Base of the next batch to scan.
    scan: usize,
    /// Base that the batch masks refer to.
    mask_base: usize,
    /// Trusted starts of the current segment that are still to come.
    rem: u64,
    /// All trusted starts of the current batch.
    batch_usable: u64,
    /// The bad positions of the current batch, until all are passed.
    batch_bad: u64,
    /// Go from token to token while `pos` is before this.
    scalar_until: usize,
    /// The masks of a later batch, and its base.
    ahead: Option<(usize, u64, u64)>,
    /// Whether the text is UTF-8, so that the masks can be trusted, once the
    /// walk has looked.
    trusted: Option<bool>,
    /// Every start behind `pos` and before this is in `rem`.
    settled: Ghost<int>,
}

/// The starts behind `pos` and before `settled` are those in `rem`.
pub open spec fn holds_starts(
    t: PretokenizerType,
    s: Seq<u8>,
    base: int,
    rem: u64,
    pos: int,
    settled: int,
) -> bool {
    &&& forall|y: int|
        pos < y < settled ==> #[trigger] is_start(t, s, y) == (base <= y && bit(rem, y - base))
    &&& forall|k: int| #[trigger] bit(rem, k) ==> base + k < settled
}

impl MaskState {
    /// Where the pending token starts.
    pub closed spec fn at(self) -> int {
        self.pos as int
    }

    /// Where the pending token starts.
    pub fn pos(&self) -> (p: usize)
        ensures
            p == self.at(),
    {
        self.pos
    }

    /// The state fits the text: a walk under scheme `t` can go on from it.
    pub closed spec fn fits(self, t: PretokenizerType, s: Seq<u8>) -> bool {
        &&& self.pos <= s.len()
        &&& self.scan <= s.len()
        &&& self.mask_base <= self.scan
        &&& (self.rem != 0 || self.batch_bad != 0) ==> self.mask_base + 64 == self.scan
        &&& self.batch_bad != 0 ==> self.scalar_until >= self.mask_base
        &&& disjoint(self.batch_usable, self.batch_bad)
        &&& forall|k: int| #[trigger] bit(self.rem, k) ==> self.pos < self.mask_base + k
        &&& self.ahead matches Some((b, u, m)) ==> b + 64 <= s.len() && disjoint(u, m) && masks_ok(
            t,
            s,
            b as int,
            u,
            m,
        )
        &&& self.batch_bad != 0 ==> masks_ok(
            t,
            s,
            self.mask_base as int,
            self.batch_usable,
            self.batch_bad,
        )
        &&& self.trusted == Some(true) ==> well_encoded(s)
        &&& self.trusted != Some(true) ==> self.rem == 0 && self.batch_bad == 0
        &&& well_encoded(s) ==> {
            &&& is_start(t, s, self.pos as int)
            &&& holds_starts(
                t,
                s,
                self.mask_base as int,
                self.rem,
                self.pos as int,
                self.settled@,
            )
            &&& self.batch_bad == 0 && self.pos < self.scan ==> self.settled@ == self.scan
                && entered(t, s, self.scan as int)
        }
    }

    /// A walk that starts at `pos`, which is 0 or was the position of an
    /// earlier walk.
    pub fn new(pos: usize) -> (st: Self)
        ensures
            st.at() == pos,
            forall|t: PretokenizerType, s: Seq<u8>|
                pos <= s.len() && (well_encoded(s) ==> is_start(t, s, pos as int))
                    ==> #[trigger] st.fits(t, s),
    {
        let st = MaskState {
            pos,
            scan: pos,
            mask_base: pos,
            rem: 0,
            batch_usable: 0,
            batch_bad: 0,
            scalar_until: pos,
            ahead: None,
            trusted: None,
            settled: Ghost(pos as int),
        };
        st
    }

    /// Takes the trusted starts from `from` to the next bad position into
    /// `rem`, and aims `scalar_until` at the next trusted start behind that
    /// position, or at the end of the batch.
    fn load_segment(&mut self, from: u64, t: Ghost<PretokenizerType>, s: Ghost<Seq<u8>>)
        requires
            from < 64,
            old(self).pos <= s@.len(),
            old(self).mask_base + 64 == old(self).scan <= s@.len(),
            disjoint(old(self).batch_usable, old(self).batch_bad),
            old(self).rem == 0,
            old(self).ahead matches Some((b, u, m)) ==> b + 64 <= s@.len() && disjoint(u, m)
                && masks_ok(t@, s@, b as int, u, m),
            masks_ok(
                t@,
                s@,
                old(self).mask_base as int,
                old(self).batch_usable,
                old(self).batch_bad,
            ),
            old(self).pos == old(self).mask_base + from || (from == 0 && old(self).pos
                < old(self).mask_base),
            old(self).trusted == Some(true),
            well_encoded(s@),
            well_encoded(s@) ==> is_start(t@, s@, old(self).pos as int),
            well_encoded(s@) && old(self).pos < old(self).mask_base ==> {
                &&& entered(t@, s@, old(self).mask_base as int)
                &&& forall|y: int|
                    old(self).pos < y < old(self).mask_base ==> !#[trigger] is_start(t@, s@, y)
            },
        ensures
            final(self).fits(t@, s@),
            final(self).pos == old(self).pos,
            final(self).scan == old(self).scan,
            final(self).trusted == old(self).trusted,
            final(self).rem != 0 || final(self).batch_bad == 0 || final(self).pos
                < final(self).scalar_until,
    {
        let ghost base = self.mask_base as int;
        let ghost r: int = if self.pos < self.mask_base {
            -1
        } else {
            from as int
        };
        let live: u64 = from_bit(from);
        let seg_bad: u64 = self.batch_bad & live;
        let ghost usable = self.batch_usable;
        let ghost bad = self.batch_bad;
        let mut rem: u64;
        let ghost end: int;
        if seg_bad == 0 {
            rem = self.batch_usable & live;
            self.batch_bad = 0;
            proof {
                end = 64;
                assert forall|j: int| 0 <= j && r <= j <= 63 implies !#[trigger] bit(bad, j) by {
                    assert(!bit(seg_bad, j));
                }
            }
        } else {
            let nb: u64 = lowest(seg_bad);
            rem = self.batch_usable & live & below(nb);
            let rest: u64 = self.batch_usable & from_bit(nb);
            self.scalar_until = if rest != 0 {
                self.mask_base + lowest(rest) as usize
            } else {
                self.mask_base + 64
            };
            proof {
                end = nb as int;
                assert(bit(seg_bad, nb as int));
                assert forall|j: int| 0 <= j && r <= j < nb implies !#[trigger] bit(bad, j) by {
                    assert(!bit(seg_bad, j));
                }
                assert(!bit(rest, nb as int));
            }
        }
        // A start at the pending token's own start is not an end.
        if self.pos >= self.mask_base {
            rem = rem & !single(from);
        }
        self.rem = rem;
        self.settled = Ghost(base + end);
        proof {
            if well_encoded(s@) {
                assert forall|y: int| self.pos < y < base + end implies #[trigger] is_start(
                    t@,
                    s@,
                    y,
                ) == (base <= y && bit(rem, y - base)) by {
                    if y >= base {
                        let k = y - base;
                        assert(told(t@, s@, base, usable, bad, r, k));
                        assert(clear(bad, r, k));
                    }
                }
            }
        }
    }

    /// The tokens that are still to come.
    pub open spec fn left(self, t: PretokenizerType, s: Seq<u8>) -> Seq<(int, int)> {
        spans_from(t, s, self.at())
    }

    /// A walk stays within its text.
    pub proof fn lemma_within(self, t: PretokenizerType, s: Seq<u8>)
        requires
            self.fits(t, s),
        ensures
            0 <= self.at() <= s.len(),
    {
    }

    /// Whether the masks can be trusted on the text: looks once.
    fn looked(&mut self, t: Ghost<PretokenizerType>, bytes: &[u8]) -> (r: bool)
        requires
            old(self).fits(t@, bytes@),
        ensures
            final(self).fits(t@, bytes@),
            final(self).trusted == Some(r),
            final(self).pos == old(self).pos,
            r ==> well_encoded(bytes@),
    {
        match self.trusted {
            Some(b) => b,
            None => {
                let b: bool = utf8_text(bytes).is_some();
                proof {
                    if b {
                        law_utf8_is_well_encoded(bytes@);
                    }
                }
                self.trusted = Some(b);
                b
            },
        }
    }

    /// The next token's range, or `None` at the end of the text.
    pub fn next_span(&mut self, t: PretokenizerType, bytes: &[u8]) -> (r: Option<(usize, usize)>)
        requires
            old(self).fits(t, bytes@),
        ensures
            final(self).fits(t, bytes@),
            match r {
                None => {
                    &&& old(self).at() == bytes@.len()
                    &&& final(self).at() == old(self).at()
                    &&& old(self).left(t, bytes@).len() == 0
                },
                Some((a, b)) => {
                    &&& a == old(self).at() < b == final(self).at() <= bytes@.len()
                    &&& b == token_end(t, bytes@, a as int)
                    &&& old(self).left(t, bytes@) == seq![(a as int, b as int)] + final(self).left(
                        t,
                        bytes@,
                    )
                },
            },
    {
        let len: usize = bytes.len();
        let ghost s = bytes@;
        let ghost pos0 = self.pos;
        if !self.looked(Ghost(t), bytes) {
            return self.scalar_step(t, bytes);
        }
        loop
            invariant
                well_encoded(s),
                self.trusted == Some(true),
                self.fits(t, s),
                self.pos == pos0,
                pos0 == old(self).pos,
                s == bytes@,
                len == s.len(),
            decreases
                    len - self.scan,
                    if self.rem != 0 || self.pos < self.scalar_until {
                        0int
                    } else if self.batch_bad == 0 {
                        1int
                    } else {
                        2int
                    },
        {
            let ghost scan0 = self.scan;
            if self.rem != 0 {
                let k: u64 = lowest(self.rem);
                let end: usize = self.mask_base + k as usize;
                let start: usize = self.pos;
                let ghost rem = self.rem;
                let one: u64 = single(k);
                self.rem = self.rem & !one;
                self.pos = end;
                proof {
                    assert(bit(rem, k as int));
                    assert(forall|j: int| #[trigger] bit(self.rem, j) == (bit(rem, j) && j != k));
                    if well_encoded(s) {
                        assert(is_start(t, s, end as int));
                        assert forall|y: int| start < y < end implies !#[trigger] is_start(
                            t,
                            s,
                            y,
                        ) by {
                            if y >= self.mask_base {
                                assert(!bit(rem, y - self.mask_base));
                            }
                        }
                        lemma_first_start(t, s, start as int, end as int);
                    }
                }
                return Some((start, end));
            }
            if self.pos < self.scalar_until {
                return self.scalar_step(t, bytes);
            }
            // The next segment of the current batch, after a gap.
            if self.batch_bad != 0 && self.pos < self.scan {
                let from: usize = self.pos - self.mask_base;
                self.load_segment(from as u64, Ghost(t), Ghost(s));
                continue;
            }
            self.batch_bad = 0;
            // Stay on the grid behind a token that ran past the batch.
            while self.scan <= self.pos && self.pos - self.scan >= 64
                invariant
                    self.fits(t, s),
                    self.trusted == Some(true),
                    self.pos == pos0,
                    self.batch_bad == 0,
                    self.rem == 0,
                    self.pos >= self.scalar_until,
                    len == s.len(),
                    self.scan >= scan0,
                decreases len - self.scan,
            {
                self.scan = self.scan + 64;
            }
            if len - self.scan < 64 {
                return self.scalar_step(t, bytes);
            }
            let (usable, bad) = match self.ahead {
                Some((b, u, m)) => if b == self.scan {
                    (u, m)
                } else {
                    batch_masks(t, bytes, self.scan)
                },
                None => batch_masks(t, bytes, self.scan),
            };
            self.mask_base = self.scan;
            self.scan = self.scan + 64;
            self.batch_usable = usable;
            self.batch_bad = bad;
            self.ahead = if len - self.scan >= 64 {
                let (u, m) = batch_masks(t, bytes, self.scan);
                Some((self.scan, u, m))
            } else {
                None
            };
            let from: usize = if self.pos > self.mask_base {
                self.pos - self.mask_base
            } else {
                0
            };
            self.load_segment(from as u64, Ghost(t), Ghost(s));
        }
    }

    /// One token by the scan from token to token.
    fn scalar_step(&mut self, t: PretokenizerType, bytes: &[u8]) -> (r: Option<(usize, usize)>)
        requires
            old(self).fits(t, bytes@),
            old(self).rem == 0,
        ensures
            final(self).fits(t, bytes@),
            final(self).rem == 0,
            match r {
                None => old(self).pos == bytes@.len() && final(self).pos == old(self).pos,
                Some((a, b)) => {
                    &&& a == old(self).pos < b == final(self).pos <= bytes@.len()
                    &&& b == token_end(t, bytes@, a as int)
                },
            },
    {
        if self.pos >= bytes.len() {
            return None;
        }
        let start: usize = self.pos;
        let end: usize = advance(t, bytes, start);
        self.pos = end;
        proof {
            if well_encoded(bytes@) {
                law_next_start(t, bytes@, start as int);
            }
        }
        Some((start, end))
    }
}

// Two-phase fill: the ends of a chunk of tokens are harvested first, then
// turned into batch entries.

/// Offsets are kept in 16 bits; a batch is harvested only while every
/// position in it is within reach.
pub const REL_LIMIT: usize = 65408;

/// The last of the ends that were harvested behind `base`, or `base`.
pub open spec fn last_of(base: int, bounds: Seq<u16>) -> int {
    if bounds.len() == 0 {
        base
    } else {
        base + bounds.last()
    }
}

/// The spans between harvested ends.
pub open spec fn cuts_of(base: int, bounds: Seq<u16>) -> Seq<(int, int)> {
    Seq::new(bounds.len(), |i: int| (last_of(base, bounds.take(i)), base + bounds[i]))
}

proof fn lemma_cuts_push(
    t: PretokenizerType,
    s: Seq<u8>,
    base: int,
    bounds: Seq<u16>,
    e: int,
    x: u16,
)
    requires
        token_chain(t, s, cuts_of(base, bounds), base, last_of(base, bounds)),
        x == e - base,
        last_of(base, bounds) < e <= s.len(),
        e == token_end(t, s, last_of(base, bounds)),
    ensures
        token_chain(t, s, cuts_of(base, bounds.push(x)), base, e),
        last_of(base, bounds.push(x)) == e,
{
    let last = last_of(base, bounds);
    lemma_chain_push(t, s, cuts_of(base, bounds), base, last, e);
    let v = bounds.push(x);
    assert(v.take(bounds.len() as int) =~= bounds);
    assert forall|i: int| 0 <= i < bounds.len() implies v.take(i) == #[trigger] bounds.take(i) by {
        assert(v.take(i) =~= bounds.take(i));
    }
    assert(cuts_of(base, v) =~= cuts_of(base, bounds).push((last, e)));
}

/// What is known between the last harvested end and the next batch: that end
/// is a start in or behind the batch, or nothing starts before the batch.
pub open spec fn poised(t: PretokenizerType, s: Seq<u8>, last: int, scan: int) -> bool {
    well_encoded(s) ==> {
        &&& is_start(t, s, last)
        &&& last < scan ==> {
            &&& entered(t, s, scan)
            &&& forall|y: int| last < y < scan ==> !#[trigger] is_start(t, s, y)
        }
    }
}

/// Appends the positions of a set, relative to `fill_base`, to the ends.
fn flatten_bits(
    m: u64,
    base: usize,
    fill_base: usize,
    bounds: &mut Vec<u16>,
    t: Ghost<PretokenizerType>,
    s: Ghost<Seq<u8>>,
    upto: Ghost<int>,
)
    requires
        well_encoded(s@),
        base <= fill_base + REL_LIMIT,
        base + 64 <= s@.len() <= usize::MAX,
        token_chain(
            t@,
            s@,
            cuts_of(fill_base as int, old(bounds)@),
            fill_base as int,
            last_of(fill_base as int, old(bounds)@),
        ),
        forall|k: int|
            #[trigger] bit(m, k) ==> last_of(fill_base as int, old(bounds)@) < base + k < upto@,
        well_encoded(s@) ==> is_start(t@, s@, last_of(fill_base as int, old(bounds)@))
            && holds_starts(
            t@,
            s@,
            base as int,
            m,
            last_of(fill_base as int, old(bounds)@),
            upto@,
        ),
    ensures
        token_chain(
            t@,
            s@,
            cuts_of(fill_base as int, final(bounds)@),
            fill_base as int,
            last_of(fill_base as int, final(bounds)@),
        ),
        last_of(fill_base as int, old(bounds)@) <= last_of(fill_base as int, final(bounds)@),
        last_of(fill_base as int, final(bounds)@) == last_of(fill_base as int, old(bounds)@)
            || base <= last_of(fill_base as int, final(bounds)@) < upto@,
        well_encoded(s@) ==> {
            &&& is_start(t@, s@, last_of(fill_base as int, final(bounds)@))
            &&& forall|y: int|
                last_of(fill_base as int, final(bounds)@) < y < upto@ ==> !#[trigger] is_start(
                    t@,
                    s@,
                    y,
                )
        },
{
    let mut left: u64 = m;
    let ghost fb = fill_base as int;
    let ghost last0 = last_of(fb, bounds@);
    proof {
        lemma_chain_bounds(t@, s@, cuts_of(fb, bounds@), fb, last0);
    }
    while left != 0
        invariant
            well_encoded(s@),
            fb == fill_base,
            base <= fill_base + REL_LIMIT,
            base + 64 <= s@.len() <= usize::MAX,
            fill_base <= last0 <= last_of(fb, bounds@),
            last_of(fb, bounds@) == last0 || base <= last_of(fb, bounds@) < upto@,
            token_chain(t@, s@, cuts_of(fb, bounds@), fb, last_of(fb, bounds@)),
            forall|k: int| #[trigger] bit(left, k) ==> last_of(fb, bounds@) < base + k < upto@,
            well_encoded(s@) ==> is_start(t@, s@, last_of(fb, bounds@)) && holds_starts(
                t@,
                s@,
                base as int,
                left,
                last_of(fb, bounds@),
                upto@,
            ),
        decreases upto@ - last_of(fb, bounds@),
    {
        let k: u64 = lowest(left);
        let ghost was = left;
        let ghost last = last_of(fb, bounds@);
        let one: u64 = single(k);
        left = left & !one;
        let end: usize = base + k as usize;
        let x: u16 = (end - fill_base) as u16;
        proof {
            assert(bit(was, k as int));
            assert(forall|j: int| #[trigger] bit(left, j) == (bit(was, j) && j != k));
            if well_encoded(s@) {
                assert(is_start(t@, s@, end as int));
                assert forall|y: int| last < y < end implies !#[trigger] is_start(t@, s@, y) by {
                    if y >= base {
                        assert(!bit(was, y - base));
                    }
                }
                lemma_first_start(t@, s@, last, end as int);
            }
            lemma_cuts_push(t@, s@, fb, bounds@, end as int, x);
        }
        bounds.push(x);
    }
}

/// Harvests one batch: trusted starts up to each bad position, then token by
/// token up to the next trusted start. Returns the base of the next batch,
/// and the end of a token that ends out of reach.
fn harvest_batch(
    t: PretokenizerType,
    bytes: &[u8],
    base: usize,
    fill_base: usize,
    bounds: &mut Vec<u16>,
) -> (r: (usize, Option<usize>))
    requires
        well_encoded(bytes@),
        base <= fill_base + REL_LIMIT,
        base + 64 <= bytes@.len(),
        fill_base < bytes@.len(),
        token_chain(
            t,
            bytes@,
            cuts_of(fill_base as int, old(bounds)@),
            fill_base as int,
            last_of(fill_base as int, old(bounds)@),
        ),
        last_of(fill_base as int, old(bounds)@) < base + 64,
        poised(t, bytes@, last_of(fill_base as int, old(bounds)@), base as int),
    ensures
        token_chain(
            t,
            bytes@,
            cuts_of(fill_base as int, final(bounds)@),
            fill_base as int,
            last_of(fill_base as int, final(bounds)@),
        ),
        r.1 matches Some(p) ==> {
            &&& r.0 == base
            &&& last_of(fill_base as int, final(bounds)@) < p <= bytes@.len()
            &&& p > fill_base + u16::MAX
            &&& p == token_end(t, bytes@, last_of(fill_base as int, final(bounds)@))
        },
        r.1 is None ==> {
            &&& base + 64 <= r.0 <= bytes@.len()
            &&& last_of(fill_base as int, final(bounds)@) < r.0 + 64
        },
        poised(t, bytes@, last_of(fill_base as int, final(bounds)@), r.0 as int),
{
    let (usable, bad) = batch_masks(t, bytes, base);
    let len: usize = bytes.len();
    let ghost s = bytes@;
    proof {
        lemma_chain_bounds(
            t,
            s,
            cuts_of(fill_base as int, bounds@),
            fill_base as int,
            last_of(fill_base as int, bounds@),
        );
    }
    let ghost fb0 = fill_base as int;
    let mut last: usize = if bounds.len() > 0 {
        fill_base + bounds[bounds.len() - 1] as usize
    } else {
        fill_base
    };
    loop
        invariant
            well_encoded(s),
            fb0 == fill_base,
            s == bytes@,
            len == s.len(),
            base <= fill_base + REL_LIMIT,
            base + 64 <= s.len(),
            disjoint(usable, bad),
            masks_ok(t, s, base as int, usable, bad),
            last == last_of(fb0, bounds@),
            fill_base <= last < base + 64,
            token_chain(t, s, cuts_of(fb0, bounds@), fb0, last as int),
            poised(t, s, last as int, base as int),
        decreases base + 64 - last,
    {
        let ghost last0 = last as int;
        let ghost r: int = if last < base {
            -1
        } else {
            last - base
        };
        // Starts at or behind the last end are settled; a bad position at it
        // is not.
        let (ulive, blive): (u64, u64) = if last >= base {
            let k: u64 = (last - base) as u64;
            (from_bit(k) & !single(k), from_bit(k))
        } else {
            (u64::MAX, u64::MAX)
        };
        proof {
            assert(forall|j: int| #[trigger] bit(blive, j) == (r <= j && 0 <= j < 64));
            assert(forall|j: int| #[trigger] bit(ulive, j) == (r < j && 0 <= j < 64));
        }
        let seg_bad: u64 = bad & blive;
        let fb: u64 = if seg_bad == 0 {
            64
        } else {
            lowest(seg_bad)
        };
        let prefix: u64 = usable & ulive & below(fb);
        proof {
            assert forall|j: int| 0 <= j && r <= j < fb implies !#[trigger] bit(bad, j) by {
                assert(!bit(seg_bad, j));
            }
            if well_encoded(s) {
                assert forall|y: int| last < y < base + fb implies #[trigger] is_start(t, s, y) == (
                base <= y && bit(prefix, y - base)) by {
                    if y >= base {
                        let k = y - base;
                        assert(told(t, s, base as int, usable, bad, r, k));
                        assert(clear(bad, r, k));
                    }
                }
            }
        }
        flatten_bits(
            prefix,
            base,
            fill_base,
            bounds,
            Ghost(t),
            Ghost(s),
            Ghost(base + fb as int),
        );
        proof {
            lemma_chain_bounds(t, s, cuts_of(fb0, bounds@), fb0, last_of(fb0, bounds@));
        }
        last = if bounds.len() > 0 {
            fill_base + bounds[bounds.len() - 1] as usize
        } else {
            fill_base
        };
        if seg_bad == 0 {
            return (base + 64, None);
        }
        let rest: u64 = usable & from_bit(fb);
        let until: usize = if rest != 0 {
            base + lowest(rest) as usize
        } else {
            base + 64
        };
        proof {
            assert(bit(seg_bad, fb as int));
            assert(!bit(rest, fb as int));
        }
        let ghost last1 = last;
        while last < until
            invariant
                fb0 == fill_base,
                s == bytes@,
                    until <= base + 64 <= s.len(),
                last == last_of(fb0, bounds@),
                fill_base <= last1 <= last <= s.len(),
                token_chain(t, s, cuts_of(fb0, bounds@), fb0, last as int),
                poised(t, s, last as int, base as int),
            decreases s.len() - last,
        {
            let p: usize = advance(t, bytes, last);
            proof {
                if well_encoded(s) {
                    law_next_start(t, s, last as int);
                }
            }
            if p - fill_base > 0xffff {
                return (base, Some(p));
            }
            let x: u16 = (p - fill_base) as u16;
            proof {
                lemma_cuts_push(t, s, fb0, bounds@, p as int, x);
            }
            bounds.push(x);
            last = p;
        }
        if last >= base + 64 {
            // The token ran past the batch: stay on the grid.
            return (base + 64 * ((last - base) / 64), None);
        }
    }
}

/// Harvests the ends of tokens behind `fill_base` until there are `needed`,
/// the text ends or the next end is out of reach. Returns the base of the
/// next batch, and the end of a token that ends out of reach.
fn harvest(
    t: PretokenizerType,
    bytes: &[u8],
    fill_base: usize,
    start: usize,
    needed: usize,
    bounds: &mut Vec<u16>,
) -> (r: (usize, Option<usize>))
    requires
        well_encoded(bytes@),
        old(bounds)@.len() == 0,
        fill_base < bytes@.len(),
        start <= bytes@.len(),
        fill_base < start + 64,
        needed > 0,
        poised(t, bytes@, fill_base as int, start as int),
    ensures
        token_chain(
            t,
            bytes@,
            cuts_of(fill_base as int, final(bounds)@),
            fill_base as int,
            last_of(fill_base as int, final(bounds)@),
        ),
        r.0 <= bytes@.len(),
        r.1 matches Some(p) ==> {
            &&& last_of(fill_base as int, final(bounds)@) < p <= bytes@.len()
            &&& r.0 <= p
            &&& p == token_end(t, bytes@, last_of(fill_base as int, final(bounds)@))
        },
        poised(t, bytes@, last_of(fill_base as int, final(bounds)@), r.0 as int),
{
    let len: usize = bytes.len();
    let ghost s = bytes@;
    let ghost fb = fill_base as int;
    let mut scan: usize = start;
    proof {
        assert(cuts_of(fb, bounds@) =~= Seq::<(int, int)>::empty());
        lemma_chain_empty(t, s, fb);
    }
    while bounds.len() < needed
        invariant
            well_encoded(s),
            fb == fill_base,
            s == bytes@,
            len == s.len(),
            fill_base < len,
            scan <= len,
            token_chain(t, s, cuts_of(fb, bounds@), fb, last_of(fb, bounds@)),
            last_of(fb, bounds@) < scan + 64,
            poised(t, s, last_of(fb, bounds@), scan as int),
        decreases len - scan,
    {
        if scan > fill_base && scan - fill_base > REL_LIMIT {
            return (scan, None);
        }
        proof {
            lemma_chain_bounds(t, s, cuts_of(fb, bounds@), fb, last_of(fb, bounds@));
        }
        if len - scan < 64 {
            let mut p: usize = if bounds.len() > 0 {
                fill_base + bounds[bounds.len() - 1] as usize
            } else {
                fill_base
            };
            let ghost p0 = p;
            while p < len && bounds.len() < needed
                invariant
                    fb == fill_base,
                    s == bytes@,
                    len == s.len(),
                    scan <= len < scan + 64,
                    scan <= fill_base + REL_LIMIT,
                    fill_base <= p <= len,
                    p == last_of(fb, bounds@),
                    token_chain(t, s, cuts_of(fb, bounds@), fb, p as int),
                    poised(t, s, p as int, scan as int),
                decreases len - p,
            {
                let e: usize = advance(t, bytes, p);
                let x: u16 = (e - fill_base) as u16;
                proof {
                    if well_encoded(s) {
                        law_next_start(t, s, p as int);
                    }
                    lemma_cuts_push(t, s, fb, bounds@, e as int, x);
                }
                bounds.push(x);
                p = e;
            }
            return (scan, None);
        }
        let (next, over) = harvest_batch(t, bytes, scan, fill_base, bounds);
        if over.is_some() {
            return (next, over);
        }
        scan = next;
    }
    (scan, None)
}

/// Turns the first `n` harvested ends into batch entries.
fn emit_bounds(
    t: PretokenizerType,
    bytes: &[u8],
    fill_base: usize,
    bounds: &Vec<u16>,
    n: usize,
    batch: &mut SpanBatch,
    cuts: Ghost<Seq<(int, int)>>,
    from: Ghost<int>,
) -> (r: (usize, Ghost<Seq<(int, int)>>))
    requires
        0 < n <= bounds@.len(),
        token_chain(
            t,
            bytes@,
            cuts_of(fill_base as int, bounds@),
            fill_base as int,
            last_of(fill_base as int, bounds@),
        ),
        token_chain(t, bytes@, cuts@, from@, fill_base as int),
        old(batch).entries@ == entries_for(bytes@, cuts@),
        well_encoded(bytes@) ==> is_start(t, bytes@, fill_base as int),
    ensures
        r.0 == fill_base + bounds@[n - 1],
        fill_base < r.0 <= bytes@.len(),
        token_chain(t, bytes@, r.1@, from@, r.0 as int),
        final(batch).entries@ == entries_for(bytes@, r.1@),
        final(batch).entries@.len() == old(batch).entries@.len() + n,
        well_encoded(bytes@) ==> is_start(t, bytes@, r.0 as int),
{
    let ghost s = bytes@;
    let ghost fb = fill_base as int;
    let ghost all = cuts_of(fb, bounds@);
    let ghost n0 = batch.entries@.len();
    let ghost mut out = cuts@;
    let len: usize = bytes.len();
    let mut pending: usize = fill_base;
    let mut i: usize = 0;
    while i < n
        invariant
            s == bytes@,
            len == s.len(),
            fb == fill_base,
            n <= bounds@.len(),
            i <= n,
            all == cuts_of(fb, bounds@),
            token_chain(t, s, all, fb, last_of(fb, bounds@)),
            pending == last_of(fb, bounds@.take(i as int)),
            i == 0 ==> pending == fill_base,
            i > 0 ==> fill_base < pending <= s.len(),
            batch.entries@.len() == n0 + i,
            batch.entries@ == entries_for(s, out),
            token_chain(t, s, out, from@, pending as int),
            well_encoded(s) ==> is_start(t, s, pending as int),
        decreases n - i,
    {
        proof {
            assert(all[i as int] == (pending as int, fill_base + bounds@[i as int] as int));
            lemma_chain_at(t, s, all, fb, last_of(fb, bounds@), i as int);
            lemma_chain_bounds(t, s, all, fb, last_of(fb, bounds@));
        }
        let end: usize = fill_base + bounds[i] as usize;
        proof {
            if well_encoded(s) {
                law_next_start(t, s, pending as int);
            }
            lemma_chain_push(t, s, out, from@, pending as int, end as int);
            assert(entries_for(s, out.push((pending as int, end as int))) =~= entries_for(
                s,
                out,
            ).push(entry_for(s, pending as int, end as int)));
            out = out.push((pending as int, end as int));
            assert(bounds@.take(i + 1).last() == bounds@[i as int]);
        }
        batch.entries.push(make_entry(bytes, pending, end));
        pending = end;
        i += 1;
    }
    (pending, Ghost(out))
}

/// The grid point at or before `pos`, counted back from `scan`.
fn rewound(scan: usize, pos: usize) -> (r: usize)
    ensures
        r <= pos,
        scan <= pos ==> r == scan,
{
    if scan <= pos {
        return scan;
    }
    let short: usize = (scan - pos) % 64;
    let gap: usize = if short == 0 {
        0
    } else {
        64 - short
    };
    if gap <= pos {
        pos - gap
    } else {
        pos
    }
}

impl MaskState {
    /// The next tokens by the scan from token to token.
    fn fill_scalar(&mut self, t: PretokenizerType, bytes: &[u8], batch: &mut SpanBatch) -> (n:
        usize)
        requires
            old(self).fits(t, bytes@),
            old(self).rem == 0,
        ensures
            final(self).fits(t, bytes@),
            n == final(batch).entries@.len() <= PRETOKEN_CHUNK,
            n < PRETOKEN_CHUNK ==> final(self).at() == bytes@.len(),
            n <= old(self).left(t, bytes@).len(),
            final(batch).entries@ == entries_for(bytes@, old(self).left(t, bytes@).take(n as int)),
            final(self).left(t, bytes@) == old(self).left(t, bytes@).skip(n as int),
    {
        let ghost s = bytes@;
        let ghost from = self.at();
        let ghost all = self.left(t, s);
        let ghost mut cuts: Seq<(int, int)> = Seq::empty();
        batch.entries.clear();
        proof {
            assert(batch.entries@ =~= entries_for(s, cuts));
            lemma_chain_empty(t, s, from);
        }
        while batch.entries.len() < PRETOKEN_CHUNK && self.pos < bytes.len()
            invariant
                s == bytes@,
                self.fits(t, s),
                self.rem == 0,
                batch.entries@.len() <= PRETOKEN_CHUNK,
                batch.entries@ == entries_for(s, cuts),
                token_chain(t, s, cuts, from, self.at()),
            decreases s.len() - self.pos,
        {
            let start: usize = self.pos;
            let _ = self.scalar_step(t, bytes);
            proof {
                let end = self.pos as int;
                lemma_chain_push(t, s, cuts, from, start as int, end);
                assert(entries_for(s, cuts.push((start as int, end))) =~= entries_for(
                    s,
                    cuts,
                ).push(entry_for(s, start as int, end)));
                cuts = cuts.push((start as int, end));
            }
            batch.entries.push(make_entry(bytes, start, self.pos));
        }
        proof {
            law_chain_is_tokens(t, s, cuts, from, self.at());
            assert(all.take(cuts.len() as int) =~= cuts);
            assert(all.skip(cuts.len() as int) =~= self.left(t, s));
        }
        batch.entries.len()
    }

    /// Fills `batch` with the next tokens, at most [`PRETOKEN_CHUNK`], and
    /// returns how many. A batch that is not full means that the text ends
    /// with it.
    pub fn fill_spans_two_phase(
        &mut self,
        t: PretokenizerType,
        bytes: &[u8],
        batch: &mut SpanBatch,
    ) -> (n: usize)
        requires
            old(self).fits(t, bytes@),
        ensures
            final(self).fits(t, bytes@),
            n == final(batch).entries@.len() <= PRETOKEN_CHUNK,
            n < PRETOKEN_CHUNK ==> final(self).at() == bytes@.len(),
            n <= old(self).left(t, bytes@).len(),
            final(batch).entries@ == entries_for(bytes@, old(self).left(t, bytes@).take(n as int)),
            final(self).left(t, bytes@) == old(self).left(t, bytes@).skip(n as int),
    {
        let ghost all = self.left(t, bytes@);
        if !self.looked(Ghost(t), bytes) {
            let n: usize = self.fill_scalar(t, bytes, batch);
            return n;
        }
        let len: usize = bytes.len();
        let ghost s = bytes@;
        let ghost pos0 = self.pos as int;
        let mut pending: usize = self.pos;
        let mut scan: usize = rewound(self.scan, pending);
        batch.entries.clear();
        let ghost mut cuts: Seq<(int, int)> = Seq::empty();
        proof {
            assert(batch.entries@ =~= entries_for(s, cuts));
            lemma_chain_empty(t, s, pos0);
        }
        while batch.entries.len() < PRETOKEN_CHUNK && pending < len
            invariant
                well_encoded(s),
                s == bytes@,
                len == s.len(),
                pending <= len,
                scan <= len,
                batch.entries@.len() <= PRETOKEN_CHUNK,
                batch.entries@ == entries_for(s, cuts),
                token_chain(t, s, cuts, pos0, pending as int),
                well_encoded(s) ==> is_start(t, s, pending as int),
                batch.entries@.len() < PRETOKEN_CHUNK ==> poised(t, s, pending as int, scan as int),
            decreases len - pending,
        {
            // Skip batches that lie behind the pending token.
            if scan <= pending && pending - scan >= 64 {
                scan = scan + 64 * ((pending - scan) / 64);
            }
            let fill_base: usize = pending;
            let needed: usize = PRETOKEN_CHUNK - batch.entries.len();
            let mut bounds: Vec<u16> = Vec::new();
            let (next, over) = harvest(t, bytes, fill_base, scan, needed, &mut bounds);
            scan = next;
            if bounds.len() == 0 {
                // A token that ends out of reach goes out alone.
                let end: usize = match over {
                    Some(p) => p,
                    None => advance(t, bytes, fill_base),
                };
                proof {
                    if well_encoded(s) {
                        law_next_start(t, s, fill_base as int);
                    }
                    lemma_chain_push(t, s, cuts, pos0, fill_base as int, end as int);
                    assert(entries_for(s, cuts.push((fill_base as int, end as int)))
                        =~= entries_for(s, cuts).push(entry_for(s, fill_base as int, end as int)));
                    cuts = cuts.push((fill_base as int, end as int));
                }
                batch.entries.push(make_entry(bytes, fill_base, end));
                pending = end;
                continue;
            }
            let emit: usize = if bounds.len() < needed {
                bounds.len()
            } else {
                needed
            };
            let (last, Ghost(more)) = emit_bounds(
                t,
                bytes,
                fill_base,
                &bounds,
                emit,
                batch,
                Ghost(cuts),
                Ghost(pos0),
            );
            pending = last;
            proof {
                cuts = more;
            }
        }
        // Leave the walk as one that starts anew at `pending`.
        scan = rewound(scan, pending);
        self.pos = pending;
        self.scan = scan;
        self.mask_base = scan;
        self.rem = 0;
        self.batch_usable = 0;
        self.batch_bad = 0;
        self.scalar_until = pending;
        self.ahead = None;
        self.settled = Ghost(pending as int);
        proof {
            law_chain_is_tokens(t, s, cuts, pos0, pending as int);
            assert(all.take(cuts.len() as int) =~= cuts);
            assert(all.skip(cuts.len() as int) =~= self.left(t, s));
        }
        batch.entries.len()
    }
}

} // verus!
