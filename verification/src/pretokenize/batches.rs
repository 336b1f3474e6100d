//! What a 64-byte batch tells of the token starts in it.
use crate::pretokenize::bits::{bit, disjoint, group_bits};
use crate::pretokenize::family_masks::{
    family_asked, family_entered, family_open, lemma_plain_closed, plain_batch,
};
use crate::pretokenize::family_starts::long_s_is_letter;
use crate::pretokenize::locality::well_encoded;
use crate::pretokenize::r50k_masks::{open_ws, r50k_entered, r50k_open};
use crate::pretokenize::scheme::{scheme_rules, PretokenizerType, SchemeRules};
use crate::pretokenize::starts::is_start;
use crate::pretokenize::{family_masks, r50k_masks};
use vstd::prelude::*;

verus! {

broadcast use group_bits;

/// No position from `r` to `k` is in the set.
pub open spec fn clear(bad: u64, r: int, k: int) -> bool {
    forall|j: int| 0 <= j && r <= j <= k ==> !#[trigger] bit(bad, j)
}

/// Position `k` is told right, seen from a known start at `r`, or, where `r`
/// is -1, from before the batch.
pub open spec fn told(
    t: PretokenizerType,
    s: Seq<u8>,
    scan: int,
    usable: u64,
    bad: u64,
    r: int,
    k: int,
) -> bool {
    (if r == -1 {
        entered(t, s, scan)
    } else {
        is_start(t, s, scan + r)
    }) && clear(bad, r, k) ==> bit(usable, k) == is_start(t, s, scan + k)
}

/// The masks of a batch are right: behind a start, and up to the next bad
/// position, `usable` holds exactly the starts.
pub open spec fn masks_ok(
    t: PretokenizerType,
    s: Seq<u8>,
    scan: int,
    usable: u64,
    bad: u64,
) -> bool {
    well_encoded(s) ==> {
        &&& forall|r: int, k: int|
            -1 <= r < k < 64 ==> #[trigger] told(t, s, scan, usable, bad, r, k)
        &&& !bit(bad, 63) ==> entered(t, s, scan + 64)
    }
}

/// Nothing reaches across `scan` that the masks of the batch there would have
/// to know of.
pub open spec fn entered(t: PretokenizerType, s: Seq<u8>, scan: int) -> bool {
    match scheme_rules(t) {
        SchemeRules::R50k => r50k_entered(s, scan),
        SchemeRules::Cl100k(r) => family_entered(s, scan, r),
        SchemeRules::O200k(_) => true,
    }
}

/// The scheme has masks that decide all of a plain batch.
pub open spec fn decides_plain(t: PretokenizerType) -> bool {
    match scheme_rules(t) {
        SchemeRules::R50k => true,
        SchemeRules::Cl100k(r) => long_s_is_letter(r.marks_join),
        SchemeRules::O200k(_) => false,
    }
}

/// Where the masks of a scheme may leave position `k` of the batch at `scan`
/// to the scan from token to token.
pub open spec fn may_open(t: PretokenizerType, s: Seq<u8>, scan: int, k: int) -> bool {
    match scheme_rules(t) {
        SchemeRules::R50k => r50k_open(s, scan, k),
        SchemeRules::Cl100k(r) => long_s_is_letter(r.marks_join) ==> family_open(s, scan, k, r),
        SchemeRules::O200k(_) => true,
    }
}

/// The masks of the batch at `scan`: the trusted token starts, and the
/// positions that only the scan from token to token can decide.
pub fn batch_masks(t: PretokenizerType, bytes: &[u8], scan: usize) -> (r: (u64, u64))
    requires
        scan + 64 <= bytes@.len(),
    ensures
        disjoint(r.0, r.1),
        masks_ok(t, bytes@, scan as int, r.0, r.1),
        well_encoded(bytes@) ==> forall|k: int| #[trigger]
            bit(r.1, k) ==> may_open(t, bytes@, scan as int, k),
        well_encoded(bytes@) && plain_batch(bytes@, scan as int) && decides_plain(t)
            ==> forall|k: int| !#[trigger] bit(r.1, k),
{
    let ghost s = bytes@;
    match t.rules() {
        SchemeRules::R50k => {
            let (usable, bad) = r50k_masks::batch_masks(bytes, scan);
            proof {
                assert(t == PretokenizerType::GPT2);
                if well_encoded(s) {
                    assert forall|r: int, k: int| -1 <= r < k < 64 implies #[trigger] told(
                        t,
                        s,
                        scan as int,
                        usable,
                        bad,
                        r,
                        k,
                    ) by {
                        if clear(bad, r, k) {
                        }
                    }
                    if plain_batch(s, scan as int) {
                        assert forall|k: int| !#[trigger] bit(bad, k) by {
                            if 0 <= k < 64 {
                                lemma_plain_decided(s, scan as int, k);
                            }
                        }
                    }
                }
            }
            (usable, bad)
        },
        SchemeRules::Cl100k(rules) => {
            let (usable, bad) = family_masks::batch_masks(bytes, scan, rules, Ghost(t));
            proof {
                if well_encoded(s) {
                    assert forall|r: int, k: int| -1 <= r < k < 64 implies #[trigger] told(
                        t,
                        s,
                        scan as int,
                        usable,
                        bad,
                        r,
                        k,
                    ) by {
                        if clear(bad, r, k) {
                            assert(family_asked(t, s, scan as int, rules, r) == (if r == -1 {
                                entered(t, s, scan as int)
                            } else {
                                is_start(t, s, scan + r)
                            }));
                        }
                    }
                    if plain_batch(s, scan as int) && decides_plain(t) {
                        assert forall|k: int| !#[trigger] bit(bad, k) by {
                            if 0 <= k < 64 {
                                lemma_plain_closed(s, scan as int, k, rules);
                            }
                        }
                    }
                }
            }
            (usable, bad)
        },
        SchemeRules::O200k(_) => {
            proof {
                assert forall|r: int, k: int| -1 <= r < k < 64 implies #[trigger] told(
                    t,
                    s,
                    scan as int,
                    0,
                    0xffff_ffff_ffff_ffff,
                    r,
                    k,
                ) by {
                    assert(bit(0xffff_ffff_ffff_ffff, k));
                }
            }
            (0, u64::MAX)
        },
    }
}

/// Nothing of a plain batch is left open under the GPT-2 scheme.
proof fn lemma_plain_decided(s: Seq<u8>, scan: int, k: int)
    requires
        0 <= scan,
        plain_batch(s, scan),
        0 <= k < 64,
    ensures
        !r50k_open(s, scan, k),
{
    assert forall|j: int| !#[trigger] open_ws(s, scan, j, false) by {
        if 0 <= j < 64 {
            assert(s[scan + j] < 0x80);
        }
    }
    assert forall|i: int| 61 <= i < 64 implies #[trigger] s[scan + i] != 0x27 by {}
}

} // verus!
