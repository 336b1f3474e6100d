//! Which texts can be looked up in a charsmap whose trie may lead out.
use crate::pretokenize::locality::boundary;
use crate::sp::charsmap::{
    charsmap_safe, map_sized, map_text, offset_of, read_le32, root_node, step_fits, step_goes,
    step_node, step_place, trie_unit, unit_count, unit_leaf, unit_offset, unit_value, value_fits,
    walks_within,
};
use crate::sp::graphemes::grapheme_break;
use vstd::prelude::*;

verus! {

/// A walk along `key` from a node reads the trie only, and the first value that
/// it finds points into the text; `found` says whether it has one.
pub open spec fn walk_fits(b: Seq<u8>, node: u64, key: Seq<u8>, found: bool) -> bool
    decreases key.len(),
{
    if key.len() == 0 || key[0] == 0 {
        true
    } else {
        let p = step_place(node, key[0]);
        &&& p < unit_count(b)
        &&& step_goes(b, node, key[0]) ==> {
            let q = step_node(b, node, key[0]);
            let leaf = unit_leaf(trie_unit(b, p as int));
            &&& leaf ==> q < unit_count(b) && (found || value_fits(
                map_text(b),
                unit_value(trie_unit(b, q as int)),
            ))
            &&& walk_fits(b, q, key.skip(1), found || leaf)
        }
    }
}

/// A text can be looked up.
pub open spec fn lookup_fits(b: Seq<u8>, key: Seq<u8>) -> bool {
    unit_count(b) > 0 && walk_fits(b, root_node(b), key, false)
}

/// No grapheme is known to end between `i` and `e`.
pub open spec fn unbroken(s: Seq<u8>, i: int, e: int) -> bool {
    forall|x: int| i < x < e ==> !grapheme_break(#[trigger] s[x - 1] as u32, s[x] as u32)
}

/// Some characters of a text that may be one grapheme of fewer than six bytes.
pub open spec fn may_be_looked_up(s: Seq<u8>, i: int, e: int) -> bool {
    &&& 0 <= i < e <= s.len()
    &&& e - i < 6
    &&& boundary(s, i)
    &&& boundary(s, e)
    &&& unbroken(s, i, e)
}

/// Whatever may be looked up of a text can be.
pub open spec fn text_fits(b: Seq<u8>, s: Seq<u8>) -> bool {
    forall|i: int, e: int| #[trigger]
        may_be_looked_up(s, i, e) ==> lookup_fits(b, s.subrange(i, e))
}

/// Every ASCII character, and a carriage return with its line feed, can be
/// looked up.
pub open spec fn ascii_fits(b: Seq<u8>) -> bool {
    &&& forall|c: u8| c < 0x80 ==> #[trigger] lookup_fits(b, seq![c])
    &&& lookup_fits(b, seq![0x0Du8, 0x0Au8])
}

proof fn lemma_walk_fits(b: Seq<u8>, nodes: Set<u64>, node: u64, key: Seq<u8>, found: bool)
    requires
        walks_within(b, nodes),
        nodes.contains(node),
    ensures
        walk_fits(b, node, key, found),
    decreases key.len(),
{
    if key.len() > 0 && key[0] != 0 {
        assert(step_fits(b, node, key[0]));
        if step_goes(b, node, key[0]) {
            let leaf = unit_leaf(trie_unit(b, step_place(node, key[0]) as int));
            lemma_walk_fits(
                b,
                nodes,
                step_node(b, node, key[0]),
                key.skip(1),
                found || leaf,
            );
        }
    }
}

/// In a trie that no walk leaves, everything can be looked up.
pub proof fn lemma_safe_fits(b: Seq<u8>)
    requires
        charsmap_safe(b),
    ensures
        forall|key: Seq<u8>| #[trigger] lookup_fits(b, key),
        forall|s: Seq<u8>| #[trigger] text_fits(b, s),
        ascii_fits(b),
{
    let nodes = choose|nodes: Set<u64>| walks_within(b, nodes);
    assert forall|key: Seq<u8>| #[trigger] lookup_fits(b, key) by {
        lemma_walk_fits(b, nodes, root_node(b), key, false);
    }
}

/// Whether a text can be looked up.
pub fn check_lookup(bytes: &[u8], key: &[u8]) -> (r: bool)
    requires
        map_sized(bytes@),
    ensures
        r == lookup_fits(bytes@, key@),
{
    let ghost b = bytes@;
    let total: usize = bytes.len();
    let n: usize = (read_le32(bytes, 0) / 4) as usize;
    if n == 0 {
        return false;
    }
    let mut node: u64 = offset_of(read_le32(bytes, 4));
    let mut found = false;
    let mut i: usize = 0;
    proof {
        let x = unit_offset(trie_unit(b, 0));
        assert(0u64 ^ x == x) by (bit_vector);
        assert(key@.skip(0) =~= key@);
    }
    while i < key.len()
        invariant
            b == bytes@,
            total == b.len(),
            map_sized(b),
            n == unit_count(b),
            n > 0,
            i <= key@.len(),
            lookup_fits(b, key@) == walk_fits(b, node, key@.skip(i as int), found),
        decreases key@.len() - i,
    {
        let c: u8 = key[i];
        let ghost rest = key@.skip(i as int);
        proof {
            assert(rest[0] == c);
            assert(rest.skip(1) =~= key@.skip(i + 1));
        }
        if c == 0 {
            return true;
        }
        let p: u64 = node ^ (c as u64);
        if p >= n as u64 {
            return false;
        }
        let u: u64 = read_le32(bytes, 4 + 4 * p as usize);
        if u & 0x8000_00FF != c as u64 {
            return true;
        }
        let q: u64 = p ^ offset_of(u);
        if (u >> 8) & 1 == 1 {
            if q >= n as u64 {
                return false;
            }
            if !found {
                let v: u64 = read_le32(bytes, 4 + 4 * q as usize) & 0x7FFF_FFFF;
                let base: usize = 4 + 4 * n;
                let len: usize = total - base;
                let fits = v == len as u64 || (v < len as u64 && !(bytes[base + v as usize] >= 0x80
                    && bytes[base + v as usize] < 0xC0));
                proof {
                    let text = map_text(b);
                    assert(text.len() == len);
                    if v < len {
                        assert(text[v as int] == b[base + v]);
                    }
                    assert(fits == value_fits(text, v));
                }
                if !fits {
                    return false;
                }
                found = true;
            }
        }
        node = q;
        i += 1;
    }
    proof {
        assert(key@.skip(i as int).len() == 0);
    }
    true
}

/// Whether every ASCII character and a line end can be looked up.
pub fn check_ascii(bytes: &[u8]) -> (r: bool)
    requires
        map_sized(bytes@),
    ensures
        r == ascii_fits(bytes@),
{
    let mut c: u8 = 0;
    while c < 0x80
        invariant
            c <= 0x80,
            map_sized(bytes@),
            forall|d: u8| d < c ==> #[trigger] lookup_fits(bytes@, seq![d]),
        decreases 0x80 - c,
    {
        let one: [u8; 1] = [c];
        let key: &[u8] = &one;
        proof {
            assert(key@ =~= seq![c]);
        }
        if !check_lookup(bytes, key) {
            return false;
        }
        c += 1;
    }
    let pair: [u8; 2] = [0x0D, 0x0A];
    let key: &[u8] = &pair;
    proof {
        assert(key@ =~= seq![0x0Du8, 0x0Au8]);
    }
    check_lookup(bytes, key)
}

/// Whether a character starts at a position, or the text ends there.
fn is_boundary(s: &[u8], x: usize) -> (r: bool)
    requires
        x <= s@.len(),
    ensures
        r == boundary(s@, x as int),
{
    x == s.len() || !(s[x] >= 0x80 && s[x] < 0xC0)
}

/// Whether a grapheme is known to end between two bytes.
fn is_break(a: u8, b: u8) -> (r: bool)
    ensures
        r == grapheme_break(a as u32, b as u32),
{
    !(a == 0x0D && b == 0x0A) && ((a < 0x80 && b < 0x80) || a < 0x20 || a == 0x7F || b < 0x20 || b
        == 0x7F)
}

/// Whether whatever may be looked up of a text from `i` on can be.
fn check_from(bytes: &[u8], s: &[u8], i: usize) -> (r: bool)
    requires
        map_sized(bytes@),
        i < s@.len(),
    ensures
        r == forall|e: int| #[trigger]
            may_be_looked_up(s@, i as int, e) ==> lookup_fits(bytes@, s@.subrange(i as int, e)),
{
    if !is_boundary(s, i) {
        return true;
    }
    let len: usize = s.len();
    let mut d: usize = 1;
    while d < 6 && d <= len - i
        invariant
            map_sized(bytes@),
            len == s@.len(),
            i < len,
            1 <= d <= 6,
            d <= len - i + 1,
            boundary(s@, i as int),
            unbroken(s@, i as int, i + d - 1),
            forall|x: int|
                x < i + d && #[trigger] may_be_looked_up(s@, i as int, x) ==> lookup_fits(
                    bytes@,
                    s@.subrange(i as int, x),
                ),
        decreases 7 - d,
    {
        let e: usize = i + d;
        if d >= 2 && is_break(s[e - 2], s[e - 1]) {
            proof {
                assert forall|x: int| #[trigger] may_be_looked_up(s@, i as int, x) implies x < e by {
                    if x >= e {
                        assert(!grapheme_break(s@[(e - 1) - 1] as u32, s@[e - 1] as u32));
                    }
                }
            }
            return true;
        }
        proof {
            assert forall|x: int| i < x < e implies !grapheme_break(
                #[trigger] s@[x - 1] as u32,
                s@[x] as u32,
            ) by {
                if x < e - 1 {
                    assert(!grapheme_break(s@[x - 1] as u32, s@[x] as u32));
                }
            }
        }
        if is_boundary(s, e) {
            let key = vstd::slice::slice_subrange(s, i, e);
            if !check_lookup(bytes, key) {
                proof {
                    assert(may_be_looked_up(s@, i as int, e as int));
                }
                return false;
            }
        }
        d += 1;
    }
    true
}

/// Whether whatever may be looked up of a text can be.
pub fn check_text(bytes: &[u8], s: &[u8]) -> (r: bool)
    requires
        map_sized(bytes@),
    ensures
        r == text_fits(bytes@, s@),
{
    let mut i: usize = 0;
    while i < s.len()
        invariant
            map_sized(bytes@),
            i <= s@.len(),
            forall|x: int, e: int|
                x < i && #[trigger] may_be_looked_up(s@, x, e) ==> lookup_fits(
                    bytes@,
                    s@.subrange(x, e),
                ),
        decreases s@.len() - i,
    {
        if !check_from(bytes, s, i) {
            return false;
        }
        i += 1;
    }
    true
}

} // verus!
