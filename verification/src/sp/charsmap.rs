//! Character mapping by a precompiled charsmap.
use crate::pretokenize::r50k::continuation;
use crate::search::copy_bytes;
use crate::sp::graphemes::{
    ascii_apart, bytes_apart, chars_text, control, grapheme_break, lemma_after_ascii,
    lemma_ascii_apart, lemma_bytes_apart, lemma_clean_text, lemma_crlf_apart, lemma_lone,
    lemma_normalize_parts, lemma_valid_parts, lone_grapheme, looked_up, stands_apart,
};
use crate::sp::lookups::{
    ascii_fits, check_ascii, check_text, lemma_safe_fits, lookup_fits, text_fits,
};
use crate::sp::normalize::append_bytes;
use crate::text::utf8_text;
use vstd::prelude::*;
use vstd::utf8::{decode_utf8, encode_utf8, encode_utf8_decode_utf8, valid_utf8};

verus! {

/// The bytes of a charsmap: the byte length of the trie, its units, and the
/// text that the units point into.
pub type CharsmapView = Seq<u8>;

/// A little-endian 32-bit number.
pub open spec fn le32(b: Seq<u8>, p: int) -> u64 {
    (b[p] + 0x100 * b[p + 1] + 0x1_0000 * b[p + 2] + 0x100_0000 * b[p + 3]) as u64
}

/// The number of trie units.
pub open spec fn unit_count(b: Seq<u8>) -> int {
    (le32(b, 0) / 4) as int
}

/// One trie unit.
pub open spec fn trie_unit(b: Seq<u8>, i: int) -> u64 {
    le32(b, 4 + 4 * i)
}

/// The text that the units point into.
pub open spec fn map_text(b: Seq<u8>) -> Seq<u8> {
    b.skip(4 + 4 * unit_count(b))
}

/// The trie lies within the bytes.
pub open spec fn map_sized(b: Seq<u8>) -> bool {
    b.len() >= 4 && 4 + 4 * unit_count(b) <= b.len()
}

/// Where a unit leads to, relative to its own place.
pub open spec fn unit_offset(u: u64) -> u64 {
    (u >> 10) << ((u & 0x200) >> 6)
}

/// The byte that a unit is for.
pub open spec fn unit_label(u: u64) -> u64 {
    u & 0x8000_00FF
}

/// A unit ends an entry.
pub open spec fn unit_leaf(u: u64) -> bool {
    (u >> 8) & 1 == 1
}

/// The text position of a value unit.
pub open spec fn unit_value(u: u64) -> u64 {
    u & 0x7FFF_FFFF
}

/// A text position is where a character starts, or the end.
pub open spec fn value_fits(text: Seq<u8>, v: u64) -> bool {
    v == text.len() || (v < text.len() && !continuation(text[v as int]))
}

/// The place that byte `c` leads to from a node.
pub open spec fn step_place(node: u64, c: u8) -> u64 {
    node ^ (c as u64)
}

/// A walk may look byte `c` up at a node: the places that it reads lie in the
/// trie, and the value that it finds in the text.
pub open spec fn step_fits(b: Seq<u8>, node: u64, c: u8) -> bool {
    let p = step_place(node, c);
    let n = unit_count(b);
    &&& p < n
    &&& ({
        let u = trie_unit(b, p as int);
        unit_label(u) == c && unit_leaf(u) ==> {
            let q = p ^ unit_offset(u);
            q < n && value_fits(map_text(b), unit_value(trie_unit(b, q as int)))
        }
    })
}

/// Byte `c` goes on from a node.
pub open spec fn step_goes(b: Seq<u8>, node: u64, c: u8) -> bool {
    unit_label(trie_unit(b, step_place(node, c) as int)) == c
}

/// The node after byte `c`.
pub open spec fn step_node(b: Seq<u8>, node: u64, c: u8) -> u64 {
    let p = step_place(node, c);
    p ^ unit_offset(trie_unit(b, p as int))
}

/// The node that walks start from.
pub open spec fn root_node(b: Seq<u8>) -> u64 {
    0u64 ^ unit_offset(trie_unit(b, 0))
}

/// `nodes` holds the root and whatever a walk reaches, and every look-up there
/// fits.
pub open spec fn walks_within(b: Seq<u8>, nodes: Set<u64>) -> bool {
    &&& nodes.contains(root_node(b))
    &&& forall|node: u64, c: u8|
        nodes.contains(node) && c != 0 ==> #[trigger] step_fits(b, node, c) && (step_goes(b, node, c)
            ==> nodes.contains(step_node(b, node, c)))
}

/// No walk through the trie leaves it.
pub open spec fn charsmap_safe(b: Seq<u8>) -> bool {
    &&& map_sized(b)
    &&& unit_count(b) > 0
    &&& exists|nodes: Set<u64>| walks_within(b, nodes)
}

/// Reads a little-endian 32-bit number.
pub(crate) fn read_le32(bytes: &[u8], p: usize) -> (r: u64)
    requires
        p + 4 <= bytes@.len(),
    ensures
        r == le32(bytes@, p as int),
        r <= 0xFFFF_FFFF,
{
    bytes[p] as u64 + 0x100 * bytes[p + 1] as u64 + 0x1_0000 * bytes[p + 2] as u64 + 0x100_0000
        * bytes[p + 3] as u64
}

/// Where a unit leads to, relative to its own place.
pub(crate) fn offset_of(u: u64) -> (r: u64)
    ensures
        r == unit_offset(u),
{
    proof {
        assert((u & 0x200) >> 6 <= 8) by (bit_vector);
    }
    (u >> 10) << ((u & 0x200) >> 6)
}

/// Whether the trie lies within the bytes.
fn is_sized(bytes: &[u8]) -> (r: bool)
    ensures
        r == map_sized(bytes@),
{
    if bytes.len() < 4 {
        return false;
    }
    let n: usize = (read_le32(bytes, 0) / 4) as usize;
    n <= (bytes.len() - 4) / 4
}

/// Whether no walk through the trie leaves it.
pub fn check_charsmap(bytes: &[u8]) -> (r: bool)
    ensures
        r == charsmap_safe(bytes@),
{
    let ghost b = bytes@;
    if bytes.len() < 4 {
        return false;
    }
    let n: usize = (read_le32(bytes, 0) / 4) as usize;
    if n == 0 || n > (bytes.len() - 4) / 4 {
        return false;
    }
    let root_unit: u64 = read_le32(bytes, 4);
    let root: u64 = offset_of(root_unit);
    proof {
        assert(root == root_node(b)) by {
            let x = unit_offset(trie_unit(b, 0));
            assert(0u64 ^ x == x) by (bit_vector);
        }
    }
    if root > n as u64 {
        proof {
            lemma_node_bound(b, root);
        }
        return false;
    }
    let mut seen: Vec<bool> = vec![false; n + 1];
    let mut todo: Vec<u64> = Vec::new();
    seen[root as usize] = true;
    todo.push(root);
    let ghost mut left: int = n as int;
    proof {
        lemma_all_unseen(seen@, root as int);
        assert(todo@[0] == root);
    }
    while todo.len() > 0
        invariant
            b == bytes@,
            map_sized(b),
            n == unit_count(b),
            n > 0,
            seen@.len() == n + 1,
            root <= n,
            root == root_node(b),
            seen@[root as int],
            forall|i: int| 0 <= i < todo@.len() ==> (#[trigger] todo@[i]) <= n && seen@[todo@[i] as int],
            forall|nodes: Set<u64>, x: u64| #[trigger] walks_within(b, nodes) && x <= n && #[trigger] seen@[x as int] ==> nodes.contains(x),
            forall|x: u64|
                x <= n && seen@[x as int] && !todo@.contains(x) ==> #[trigger] row_done(
                    b,
                    seen@,
                    x,
                    255,
                ),
            left == unseen(seen@),
            left >= 0,
        decreases left + todo@.len(),
    {
        let ghost todo0 = todo@;
        let node: u64 = todo.pop().unwrap();
        proof {
            assert(todo0[todo0.len() - 1] == node);
        }
        let ghost seen0 = seen@;
        let ghost rest = todo@;
        let ghost measure0 = left + todo0.len();
        let mut c: u8 = 0;
        while c < 255
            invariant
                b == bytes@,
                map_sized(b),
                n == unit_count(b),
                n > 0,
                c <= 255,
                seen@.len() == n + 1,
                seen0.len() == seen@.len(),
                node <= n,
                seen@[node as int],
                seen@[root as int],
                root <= n,
                root == root_node(b),
                forall|x: int| 0 <= x < seen@.len() && seen0[x] ==> #[trigger] seen@[x],
                seen0.len() == seen@.len(),
                forall|i: int| 0 <= i < todo@.len() ==> (#[trigger] todo@[i]) <= n && seen@[todo@[i] as int],
                forall|x: u64| rest.contains(x) ==> #[trigger] todo@.contains(x),
                forall|x: u64| x <= n && #[trigger] seen@[x as int] && !seen0[x as int] ==> todo@.contains(x),
                forall|nodes: Set<u64>, x: u64| #[trigger] walks_within(b, nodes) && x <= n && #[trigger] seen@[x as int] ==> nodes.contains(x),
                row_done(b, seen@, node, c as int),
                left == unseen(seen@),
                left >= 0,
                left + todo@.len() == measure0 - 1,
            decreases 255 - c,
        {
            let ghost seen_top = seen@;
            c += 1;
            let p: u64 = node ^ (c as u64);
            if p >= n as u64 {
                proof {
                    assert(!step_fits(b, node, c));
                    assert forall|nodes: Set<u64>| !walks_within(b, nodes) by {
                        if walks_within(b, nodes) {
                            assert(seen@[node as int]);
                            assert(nodes.contains(node));
                            assert(step_fits(b, node, c));
                        }
                    }
                }
                return false;
            }
            let u: u64 = read_le32(bytes, 4 + 4 * p as usize);
            if u & 0x8000_00FF == c as u64 {
                let q: u64 = p ^ offset_of(u);
                if (u >> 8) & 1 == 1 {
                    let mut fits = q < n as u64;
                    if fits {
                        let v: u64 = read_le32(bytes, 4 + 4 * q as usize) & 0x7FFF_FFFF;
                        let total: usize = bytes.len();
                        let base: usize = 4 + 4 * n;
                        let len: usize = bytes.len() - base;
                        fits = v == len as u64 || (v < len as u64 && !(bytes[base + v as usize] >= 0x80
                            && bytes[base + v as usize] < 0xC0));
                        proof {
                            let text = map_text(b);
                            assert(text.len() == len);
                            if v < len {
                                assert(text[v as int] == b[base + v]);
                            }
                            assert(fits == value_fits(text, v));
                        }
                    }
                    if !fits {
                        proof {
                            assert(!step_fits(b, node, c));
                            assert forall|nodes: Set<u64>| !walks_within(b, nodes) by {
                                if walks_within(b, nodes) {
                                    assert(nodes.contains(node));
                                    assert(step_fits(b, node, c));
                                }
                            }
                        }
                        return false;
                    }
                }
                proof {
                    assert(step_fits(b, node, c));
                    assert(step_goes(b, node, c));
                    assert(q == step_node(b, node, c));
                }
                if q > n as u64 {
                    proof {
                        assert forall|nodes: Set<u64>| !walks_within(b, nodes) by {
                            if walks_within(b, nodes) {
                                assert(nodes.contains(node));
                                assert(step_fits(b, node, c));
                                assert(nodes.contains(q));
                                lemma_big_node(b, nodes, q);
                            }
                        }
                    }
                    return false;
                }
                if !seen[q as usize] {
                    let ghost seen1 = seen@;
                    let ghost todo1 = todo@;
                    seen[q as usize] = true;
                    todo.push(q);
                    proof {
                        lemma_unseen_set(seen1, q as int);
                        left = left - 1;
                        assert forall|nodes: Set<u64>, x: u64|
                            #[trigger] walks_within(b, nodes) && x <= n && #[trigger] seen@[x as int] implies nodes.contains(x) by {
                            if x == q {
                                assert(nodes.contains(node)) by {
                                    assert(seen1[node as int]);
                                }
                                assert(step_fits(b, node, c));
                            } else {
                                assert(seen1[x as int]);
                            }
                        }
                        assert(todo@[todo1.len() as int] == q);
                        assert forall|x: u64| rest.contains(x) implies #[trigger] todo@.contains(x) by {
                            assert(todo1.contains(x));
                            let k = choose|k: int| 0 <= k < todo1.len() && todo1[k] == x;
                            assert(todo@[k] == x);
                        }
                        assert forall|x: u64| x <= n && #[trigger] seen@[x as int] && !seen0[x as int] implies todo@.contains(x) by {
                            if x != q {
                                assert(seen1[x as int]);
                                assert(todo1.contains(x));
                                let k = choose|k: int| 0 <= k < todo1.len() && todo1[k] == x;
                                assert(todo@[k] == x);
                            }
                        }
                    }
                }
            } else {
                proof {
                    assert(step_fits(b, node, c));
                    assert(!step_goes(b, node, c));
                }
            }
            proof {
                lemma_row_step(b, seen_top, seen@, node, c);
            }
        }
        proof {
            assert forall|x: u64| x <= n && seen@[x as int] && !todo@.contains(x) implies #[trigger] row_done(
                b,
                seen@,
                x,
                255,
            ) by {
                if x != node {
                    assert(seen0[x as int]);
                    assert(!rest.contains(x));
                    assert(!todo0.contains(x)) by {
                        if todo0.contains(x) {
                            let k = choose|k: int| 0 <= k < todo0.len() && todo0[k] == x;
                            assert(k < todo0.len() - 1);
                            assert(rest[k] == x);
                        }
                    }
                    assert(row_done(b, seen0, x, 255));
                    lemma_row_grows(b, seen0, seen@, x, 255);
                }
            }
        }
    }
    proof {
        let nodes = Set::new(|x: u64| x <= n && seen@[x as int]);
        assert forall|node: u64, c: u8|
            nodes.contains(node) && c != 0 implies #[trigger] step_fits(b, node, c) && (step_goes(b, node, c)
            ==> nodes.contains(step_node(b, node, c))) by {
            assert(!todo@.contains(node));
            assert(row_done(b, seen@, node, 255));
            assert(step_fits(b, node, c));
        }
        assert(walks_within(b, nodes));
    }
    true
}

/// The first `c` bytes fit at a node, and what they lead to is seen.
spec fn row_done(b: Seq<u8>, seen: Seq<bool>, node: u64, c: int) -> bool {
    forall|d: u8|
        0 < d <= c ==> #[trigger] step_fits(b, node, d) && (step_goes(b, node, d) ==> step_node(b, node, d)
            < seen.len() && seen[step_node(b, node, d) as int])
}

proof fn lemma_row_grows(b: Seq<u8>, seen: Seq<bool>, more: Seq<bool>, node: u64, c: int)
    requires
        row_done(b, seen, node, c),
        seen.len() == more.len(),
        forall|x: int| 0 <= x < seen.len() && seen[x] ==> #[trigger] more[x],
    ensures
        row_done(b, more, node, c),
{
    assert forall|d: u8| 0 < d <= c implies #[trigger] step_fits(b, node, d) && (step_goes(b, node, d)
        ==> step_node(b, node, d) < more.len() && more[step_node(b, node, d) as int]) by {
        assert(step_fits(b, node, d));
    }
}

proof fn lemma_row_step(b: Seq<u8>, seen: Seq<bool>, more: Seq<bool>, node: u64, c: u8)
    requires
        c > 0,
        row_done(b, seen, node, c - 1),
        seen.len() == more.len(),
        forall|x: int| 0 <= x < seen.len() && seen[x] ==> #[trigger] more[x],
        step_fits(b, node, c),
        step_goes(b, node, c) ==> step_node(b, node, c) < more.len() && more[step_node(b, node, c) as int],
    ensures
        row_done(b, more, node, c as int),
{
    lemma_row_grows(b, seen, more, node, c - 1);
}

/// The number of unseen nodes.
spec fn unseen(seen: Seq<bool>) -> int
    decreases seen.len(),
{
    if seen.len() == 0 {
        0
    } else {
        unseen(seen.drop_last()) + if seen.last() {
            0int
        } else {
            1int
        }
    }
}

proof fn lemma_unseen_set(seen: Seq<bool>, q: int)
    requires
        0 <= q < seen.len(),
        !seen[q],
    ensures
        unseen(seen.update(q, true)) == unseen(seen) - 1,
        unseen(seen) >= 1,
    decreases seen.len(),
{
    lemma_unseen_range(seen.drop_last());
    if q == seen.len() - 1 {
        assert(seen.update(q, true).drop_last() =~= seen.drop_last());
    } else {
        lemma_unseen_set(seen.drop_last(), q);
        assert(seen.update(q, true).drop_last() =~= seen.drop_last().update(q, true));
    }
}

proof fn lemma_unseen_range(seen: Seq<bool>)
    ensures
        0 <= unseen(seen) <= seen.len(),
    decreases seen.len(),
{
    if seen.len() > 0 {
        lemma_unseen_range(seen.drop_last());
    }
}

/// One seen node leaves the others unseen.
proof fn lemma_all_unseen(seen: Seq<bool>, q: int)
    requires
        0 <= q < seen.len(),
        forall|i: int| 0 <= i < seen.len() ==> #[trigger] seen[i] == (i == q),
    ensures
        unseen(seen) == seen.len() - 1,
    decreases seen.len(),
{
    let head = seen.drop_last();
    if q == seen.len() - 1 {
        lemma_none_seen(head);
    } else {
        assert forall|i: int| 0 <= i < head.len() implies #[trigger] head[i] == (i == q) by {
            assert(seen[i] == (i == q));
        }
        lemma_all_unseen(head, q);
    }
}

proof fn lemma_none_seen(seen: Seq<bool>)
    requires
        forall|i: int| 0 <= i < seen.len() ==> !#[trigger] seen[i],
    ensures
        unseen(seen) == seen.len(),
    decreases seen.len(),
{
    if seen.len() > 0 {
        let head = seen.drop_last();
        assert forall|i: int| 0 <= i < head.len() implies !#[trigger] head[i] by {
            assert(!seen[i]);
        }
        lemma_none_seen(head);
    }
}

/// A node past the trie has a look-up outside it.
proof fn lemma_big_node(b: Seq<u8>, nodes: Set<u64>, node: u64)
    requires
        walks_within(b, nodes),
        nodes.contains(node),
    ensures
        node <= unit_count(b),
{
    assert(step_fits(b, node, 1));
    assert(1u8 as u64 == 1u64);
    assert((node ^ 1u64) + 1 >= node) by (bit_vector);
}

/// A root past the trie has no walks.
proof fn lemma_node_bound(b: Seq<u8>, root: u64)
    requires
        root == root_node(b),
        root > unit_count(b),
    ensures
        !charsmap_safe(b),
{
    assert forall|nodes: Set<u64>| !walks_within(b, nodes) by {
        if walks_within(b, nodes) {
            lemma_big_node(b, nodes, root);
        }
    }
}

/// `spm_precompiled::Precompiled`: a charsmap ready for look-ups.
#[verifier::external_type_specification]
#[verifier::external_body]
pub struct ExPrecompiled(spm_precompiled::Precompiled);

/// The bytes that a charsmap was made from.
pub uninterp spec fn charsmap_bytes(m: spm_precompiled::Precompiled) -> Seq<u8>;

/// The text position of the shortest entry that `key` starts with, looked up
/// from a node on.
pub open spec fn first_value(b: Seq<u8>, node: u64, key: Seq<u8>) -> Option<u64>
    decreases key.len(),
{
    if key.len() == 0 || key[0] == 0 || !step_goes(b, node, key[0]) {
        None
    } else {
        let next = step_node(b, node, key[0]);
        if unit_leaf(trie_unit(b, step_place(node, key[0]) as int)) {
            Some(unit_value(trie_unit(b, next as int)))
        } else {
            first_value(b, next, key.skip(1))
        }
    }
}

/// The text from its start up to the first zero byte.
pub open spec fn up_to_zero(text: Seq<u8>) -> Seq<u8>
    decreases text.len(),
{
    if text.len() == 0 || text[0] == 0 {
        Seq::empty()
    } else {
        seq![text[0]] + up_to_zero(text.skip(1))
    }
}

/// What a charsmap maps a short text to: the text that the shortest entry which
/// it starts with points to, up to a zero byte.
pub open spec fn charsmap_transform(map: Seq<u8>, chunk: Seq<char>) -> Option<Seq<char>> {
    match first_value(map, root_node(map), encode_utf8(chunk)) {
        Some(v) => Some(decode_utf8(up_to_zero(map_text(map).skip(v as int)))),
        None => None,
    }
}

/// A text normalized by a charsmap, as `spm_precompiled` walks its graphemes.
pub uninterp spec fn charsmap_normalize(map: Seq<u8>, text: Seq<char>) -> Seq<char>;

/// `spm_precompiled::Precompiled::from`: the charsmap of some bytes whose trie
/// lies within them, or `None` when the text after the trie is not UTF-8.
#[verifier::external_body]
fn load_precompiled(bytes: &[u8]) -> (r: Option<spm_precompiled::Precompiled>)
    requires
        map_sized(bytes@),
    ensures
        r is Some <==> valid_utf8(map_text(bytes@)),
        r matches Some(m) ==> charsmap_bytes(m) == bytes@,
{
    spm_precompiled::Precompiled::from(bytes).ok()
}

/// `spm_precompiled::Precompiled::transform`: what the charsmap maps a short
/// text to, if anything. It walks the trie along the bytes of the text to the
/// first entry, and takes the text that the entry points to up to a zero byte.
/// `normalize_string` looks up each grapheme of fewer than six bytes this way,
/// and the characters of one that is not mapped; so an ASCII character, or a
/// carriage return with its line feed, is normalized to what is looked up here.
#[verifier::external_body]
fn transform(m: &spm_precompiled::Precompiled, chunk: &str) -> (r: Option<String>)
    requires
        lookup_fits(charsmap_bytes(*m), encode_utf8(chunk@)),
    ensures
        r is Some <==> charsmap_transform(charsmap_bytes(*m), chunk@) is Some,
        r matches Some(t) ==> charsmap_transform(charsmap_bytes(*m), chunk@) == Some(t@),
        charsmap_safe(charsmap_bytes(*m)) && lone_grapheme(chunk@) ==> stands_apart(
            charsmap_bytes(*m),
            chunk@,
            match r {
                Some(t) => t@,
                None => chars_text(charsmap_bytes(*m), chunk@),
            },
        ),
{
    m.transform(chunk).map(|t| t.to_string())
}

/// `spm_precompiled::Precompiled::normalize_string`: the text normalized. It
/// depends on the charsmap's bytes and the text alone. Graphemes of fewer than
/// six bytes and single characters are looked up, one by one, so that text
/// around this one which meets it where graphemes end is normalized on its own.
#[verifier::external_body]
fn normalize_string(m: &spm_precompiled::Precompiled, text: &str) -> (r: String)
    requires
        text_fits(charsmap_bytes(*m), encode_utf8(text@)),
    ensures
        r@ == charsmap_normalize(charsmap_bytes(*m), text@),
        charsmap_safe(charsmap_bytes(*m)) ==> stands_apart(charsmap_bytes(*m), text@, r@),
{
    m.normalize_string(text)
}

/// What some bytes map to as one grapheme, if anything.
pub open spec fn grapheme_text(map: Seq<u8>, bytes: Seq<u8>) -> Option<Seq<u8>> {
    match charsmap_transform(map, decode_utf8(bytes)) {
        Some(t) => Some(encode_utf8(t)),
        None => None,
    }
}

/// What an ASCII character maps to: itself if the charsmap has nothing for it.
pub open spec fn ascii_text(map: Seq<u8>, b: u8) -> Seq<u8> {
    match grapheme_text(map, seq![b]) {
        Some(t) => t,
        None => seq![b],
    }
}

/// No printable ASCII character is mapped to something else.
pub open spec fn printable_fixed(map: Seq<u8>) -> bool {
    forall|b: u8| 0x20 <= b < 0x7F ==> #[trigger] ascii_text(map, b) == seq![b]
}

/// What a carriage return before a line feed maps to: the two are one grapheme.
pub open spec fn crlf_text(map: Seq<u8>) -> Seq<u8> {
    match grapheme_text(map, seq![0x0Du8, 0x0Au8]) {
        Some(t) => t,
        None => ascii_text(map, 0x0D) + ascii_text(map, 0x0A),
    }
}

/// A span of text as the charsmap normalizes it. Bytes that are not UTF-8 stay.
pub open spec fn span_text(map: Seq<u8>, span: Seq<u8>) -> Seq<u8> {
    if valid_utf8(span) {
        encode_utf8(charsmap_normalize(map, decode_utf8(span)))
    } else {
        span
    }
}

/// A byte that stands for itself: printable ASCII.
pub open spec fn is_printable(b: u8) -> bool {
    0x20 <= b < 0x7F
}

/// The first byte from `p` on that is not printable ASCII.
pub open spec fn clean_end(s: Seq<u8>, p: int) -> int
    decreases s.len() - p,
{
    if 0 <= p < s.len() && is_printable(s[p]) {
        clean_end(s, p + 1)
    } else {
        p
    }
}

/// Where a span around non-ASCII text ends: before a control character, or
/// after an ASCII character that no non-ASCII byte follows.
pub open spec fn wide_end(s: Seq<u8>, k: int) -> int
    decreases s.len() - k,
{
    if k >= s.len() || k < 0 {
        s.len() as int
    } else if s[k] < 0x20 || s[k] == 0x7F {
        k
    } else if s[k] < 0x80 && (k + 1 >= s.len() || s[k + 1] < 0x80) {
        k + 1
    } else {
        wide_end(s, k + 1)
    }
}

/// The text from `i` on, mapped: printable ASCII stands for itself, a control
/// character is mapped alone, and non-ASCII text is normalized together with
/// the ASCII characters next to it.
pub open spec fn mapped_from(map: Seq<u8>, s: Seq<u8>, i: int) -> Seq<u8>
    decreases s.len() - i,
    via mapped_from_decreases
{
    let j = clean_end(s, i);
    if i >= s.len() || i < 0 {
        Seq::empty()
    } else if j >= s.len() {
        s.skip(i)
    } else if s[j] < 0x80 {
        if s[j] == 0x0D && j + 1 < s.len() && s[j + 1] == 0x0A {
            s.subrange(i, j) + crlf_text(map) + mapped_from(map, s, j + 2)
        } else {
            s.subrange(i, j) + ascii_text(map, s[j]) + mapped_from(map, s, j + 1)
        }
    } else {
        let start = if j > i {
            j - 1
        } else {
            j
        };
        let end = wide_end(s, j);
        s.subrange(i, start) + span_text(map, s.subrange(start, end)) + mapped_from(map, s, end)
    }
}

#[via_fn]
proof fn mapped_from_decreases(map: Seq<u8>, s: Seq<u8>, i: int) {
    if 0 <= i < s.len() {
        lemma_clean_end(s, i);
        let j = clean_end(s, i);
        if j < s.len() {
            lemma_wide_end(s, j);
        }
    }
}

proof fn lemma_clean_end(s: Seq<u8>, p: int)
    requires
        0 <= p <= s.len(),
    ensures
        p <= clean_end(s, p) <= s.len(),
        clean_end(s, p) < s.len() ==> !is_printable(s[clean_end(s, p)]),
        forall|k: int| p <= k < clean_end(s, p) ==> is_printable(#[trigger] s[k]),
    decreases s.len() - p,
{
    if p < s.len() && is_printable(s[p]) {
        lemma_clean_end(s, p + 1);
    }
}

proof fn lemma_wide_end(s: Seq<u8>, k: int)
    requires
        0 <= k < s.len(),
    ensures
        k <= wide_end(s, k) <= s.len(),
        s[k] >= 0x80 ==> k < wide_end(s, k),
        forall|p: int| k <= p < wide_end(s, k) ==> !control(#[trigger] s[p] as u32),
        wide_end(s, k) < s.len() ==> control(s[wide_end(s, k)] as u32) || (k < wide_end(s, k)
            && s[wide_end(s, k) - 1] < 0x80 && s[wide_end(s, k)] < 0x80),
    decreases s.len() - k,
{
    if s[k] < 0x20 || s[k] == 0x7F {
    } else if s[k] < 0x80 && (k + 1 >= s.len() || s[k + 1] < 0x80) {
    } else if k + 1 < s.len() {
        lemma_wide_end(s, k + 1);
    }
}

/// A text mapped by a charsmap. Where the trie leads out, text that might lead
/// there stays as it is.
pub open spec fn charsmap_text(map: CharsmapView, s: Seq<u8>) -> Seq<u8> {
    if !charsmap_safe(map) {
        if text_fits(map, s) {
            span_text(map, s)
        } else {
            s
        }
    } else if printable_fixed(map) {
        mapped_from(map, s, 0)
    } else {
        span_text(map, s)
    }
}

/// Why bytes are not a charsmap.
#[derive(Clone, Copy, Debug, PartialEq, Eq, Structural)]
pub enum CharsmapError {
    /// The trie does not lie within the bytes, or leads out of them from an ASCII
    /// character.
    BrokenTrie,
    /// The text after the trie is not UTF-8.
    InvalidText,
}

/// A charsmap with what it maps ASCII to, looked up beforehand.
pub struct PrecompiledCharsmap {
    pre: spm_precompiled::Precompiled,
    /// The bytes of the charsmap, if some text leads out of its trie.
    leads_out: Option<Vec<u8>>,
    ascii_map: Vec<Option<Vec<u8>>>,
    crlf: Vec<u8>,
    fast_scan: bool,
}

/// What a table entry stands for.
spec fn entry_text(entry: Option<Vec<u8>>, b: u8) -> Seq<u8> {
    match entry {
        Some(t) => t@,
        None => seq![b],
    }
}

pub proof fn lemma_ascii_valid(b: u8)
    requires
        b < 0x80,
    ensures
        valid_utf8(seq![b]),
{
    reveal_with_fuel(valid_utf8, 2);
    let s = seq![b];
    assert(b & 0x7F == b) by (bit_vector)
        requires
            b < 0x80,
    ;
    assert(vstd::utf8::pop_first_scalar(s) =~= Seq::<u8>::empty());
}

impl PrecompiledCharsmap {
    /// The bytes of the charsmap.
    pub closed spec fn view(&self) -> CharsmapView {
        charsmap_bytes(self.pre)
    }

    #[verifier::type_invariant]
    spec fn wf(&self) -> bool {
        let map = charsmap_bytes(self.pre);
        match self.leads_out {
            Some(b) => b@ == map && map_sized(map) && !charsmap_safe(map),
            None => charsmap_safe(map) && self.tables_fit(),
        }
    }

    /// The tables hold what ASCII is mapped to.
    spec fn tables_fit(&self) -> bool {
        let map = charsmap_bytes(self.pre);
        &&& self.ascii_map@.len() == 128
        &&& forall|b: u8|
            b < 128 ==> entry_text(#[trigger] self.ascii_map@[b as int], b) == ascii_text(map, b)
        &&& self.crlf@ == crlf_text(map)
        &&& self.fast_scan == printable_fixed(map)
        &&& forall|b: u8| b < 128 ==> #[trigger] ascii_apart(map, b)
        &&& bytes_apart(map, seq![0x0Du8, 0x0Au8], crlf_text(map))
    }

    /// Loads a charsmap.
    pub fn new(bytes: &[u8]) -> (r: Result<Self, CharsmapError>)
        ensures
            match r {
                Ok(m) => m@ == bytes@ && map_sized(bytes@) && valid_utf8(map_text(bytes@))
                    && ascii_fits(bytes@),
                Err(CharsmapError::BrokenTrie) => !map_sized(bytes@) || (valid_utf8(
                    map_text(bytes@),
                ) && !ascii_fits(bytes@)),
                Err(CharsmapError::InvalidText) => map_sized(bytes@) && !valid_utf8(
                    map_text(bytes@),
                ),
            },
    {
        if !is_sized(bytes) {
            return Err(CharsmapError::BrokenTrie);
        }
        let pre = match load_precompiled(bytes) {
            None => {
                return Err(CharsmapError::InvalidText);
            },
            Some(p) => p,
        };
        if !check_ascii(bytes) {
            return Err(CharsmapError::BrokenTrie);
        }
        let mut ascii_map: Vec<Option<Vec<u8>>> = Vec::new();
        if !check_charsmap(bytes) {
            return Ok(
                PrecompiledCharsmap {
                    pre,
                    leads_out: Some(copy_bytes(bytes)),
                    ascii_map,
                    crlf: Vec::new(),
                    fast_scan: false,
                },
            );
        }
        let ghost map = bytes@;
        let mut fast_scan = true;
        let mut b: u8 = 0;
        while b < 128
            invariant
                b <= 128,
                map == charsmap_bytes(pre),
                charsmap_safe(map),
                ascii_map@.len() == b,
                forall|c: u8|
                    c < b ==> entry_text(#[trigger] ascii_map@[c as int], c) == ascii_text(map, c),
                fast_scan <==> forall|c: u8|
                    0x20 <= c < 0x7F && c < b ==> #[trigger] ascii_text(map, c) == seq![c],
                forall|c: u8| c < b ==> #[trigger] ascii_apart(map, c),
            decreases 128 - b,
        {
            let one: [u8; 1] = [b];
            let one_bytes: &[u8] = &one;
            proof {
                assert(one_bytes@ =~= seq![b]);
                lemma_ascii_valid(b);
                lemma_lone(b);
            }
            let entry = lookup(&pre, one_bytes);
            proof {
                lemma_ascii_apart(map, b);
            }
            let moved = match &entry {
                Some(t) => !(t.len() == 1 && t[0] == b),
                None => false,
            };
            proof {
                assert(moved <==> ascii_text(map, b) != seq![b]) by {
                    match entry {
                        Some(t) => {
                            if t@.len() == 1 && t@[0] == b {
                                assert(t@ =~= seq![b]);
                            }
                        },
                        None => {},
                    }
                }
            }
            if moved && b >= 0x20 && b < 0x7F {
                fast_scan = false;
            }
            let ghost before = ascii_map@;
            ascii_map.push(entry);
            proof {
                assert forall|c: u8| c < b + 1 implies entry_text(#[trigger] ascii_map@[c as int], c)
                    == ascii_text(map, c) by {
                    if c < b {
                        assert(ascii_map@[c as int] == before[c as int]);
                    }
                }
            }
            b += 1;
        }
        let pair: [u8; 2] = [0x0D, 0x0A];
        let pair_bytes: &[u8] = &pair;
        proof {
            assert(pair_bytes@ =~= seq![0x0Du8, 0x0Au8]);
            lemma_lone(0x0D);
        }
        let crlf: Vec<u8> = match lookup(&pre, pair_bytes) {
            Some(t) => t,
            None => {
                let mut t: Vec<u8> = Vec::new();
                push_ascii(&ascii_map, 0x0D, &mut t, Ghost(map));
                push_ascii(&ascii_map, 0x0A, &mut t, Ghost(map));
                proof {
                    assert(t@ =~= ascii_text(map, 0x0D) + ascii_text(map, 0x0A));
                }
                t
            },
        };
        proof {
            assert(fast_scan <==> printable_fixed(map));
            lemma_crlf_apart(map);
        }
        Ok(PrecompiledCharsmap { pre, leads_out: None, ascii_map, crlf, fast_scan })
    }

    /// Maps a text. Printable ASCII is copied where the charsmap leaves it
    /// alone; the graphemes are walked only around non-ASCII text. The outcome
    /// for UTF-8 text is that of normalizing it as a whole.
    pub fn normalize_into(&self, input: &[u8]) -> (r: Vec<u8>)
        ensures
            r@ == charsmap_text(self@, input@),
            valid_utf8(input@) && text_fits(self@, input@) ==> r@ == span_text(self@, input@),
    {
        proof {
            use_type_invariant(self);
        }
        let ghost map = self@;
        let ghost s = input@;
        if let Some(bytes) = &self.leads_out {
            if !check_text(bytes.as_slice(), input) {
                return copy_bytes(input);
            }
            return self.normalize_span(input);
        }
        proof {
            lemma_safe_fits(map);
        }
        if !self.fast_scan {
            return self.normalize_span(input);
        }
        let mut out: Vec<u8> = Vec::new();
        let mut i: usize = 0;
        proof {
            assert(out@ + mapped_from(map, s, 0) =~= mapped_from(map, s, 0));
            assert(s.skip(0) =~= s);
            assert(out@ + span_text(map, s) =~= span_text(map, s));
        }
        while i < input.len()
            invariant
                self.tables_fit(),
                self.leads_out is None,
                charsmap_safe(map),
                text_fits(map, s),
                self.fast_scan,
                map == self@,
                s == input@,
                i <= s.len(),
                out@ + mapped_from(map, s, i as int) == mapped_from(map, s, 0),
                valid_utf8(s) ==> valid_utf8(s.skip(i as int)) && out@ + span_text(
                    map,
                    s.skip(i as int),
                ) == span_text(map, s),
            decreases s.len() - i,
        {
            let ghost before = out@;
            let ghost first = i as int;
            proof {
                lemma_clean_end(s, first);
            }
            let mut j: usize = i;
            while j < input.len() && input[j] >= 0x20 && input[j] < 0x7F
                invariant
                    s == input@,
                    i <= j <= s.len(),
                    clean_end(s, j as int) == clean_end(s, i as int),
                decreases s.len() - j,
            {
                j += 1;
            }
            if j >= input.len() {
                append_bytes(&mut out, vstd::slice::slice_subrange(input, i, input.len()));
                proof {
                    assert(s.subrange(i as int, s.len() as int) =~= s.skip(i as int));
                    let rest = s.skip(first);
                    assert forall|k: int| 0 <= k < rest.len() implies is_printable(#[trigger] rest[k]) by {
                        assert(rest[k] == s[first + k]);
                    }
                    lemma_clean_text(map, rest);
                }
                return out;
            }
            let b: u8 = input[j];
            if b < 0x80 {
                append_bytes(&mut out, vstd::slice::slice_subrange(input, i, j));
                if b == 0x0D && input.len() - j >= 2 && input[j + 1] == 0x0A {
                    append_bytes(&mut out, self.crlf.as_slice());
                    proof {
                        lemma_append3(
                            before,
                            s.subrange(i as int, j as int),
                            crlf_text(map),
                            mapped_from(map, s, j + 2),
                        );
                        assert(s.subrange(j as int, j + 2) =~= seq![0x0Du8, 0x0Au8]);
                        lemma_mapped_part(map, s, first, j as int, j + 2, crlf_text(map), before);
                    }
                    i = j + 2;
                } else {
                    push_ascii(&self.ascii_map, b, &mut out, Ghost(map));
                    proof {
                        lemma_append3(
                            before,
                            s.subrange(i as int, j as int),
                            ascii_text(map, b),
                            mapped_from(map, s, j + 1),
                        );
                        assert(s.subrange(j as int, j + 1) =~= seq![b]);
                        assert(ascii_apart(map, b));
                        lemma_mapped_part(map, s, first, j as int, j + 1, ascii_text(map, b), before);
                    }
                    i = j + 1;
                }
            } else {
                let start: usize = if j > i {
                    j - 1
                } else {
                    j
                };
                append_bytes(&mut out, vstd::slice::slice_subrange(input, i, start));
                let end: usize = find_wide_end(input, j);
                proof {
                    lemma_wide_end(s, j as int);
                    if valid_utf8(s) {
                        lemma_valid_parts(s, first, start as int);
                        lemma_valid_parts(s, start as int, end as int);
                    }
                }
                let span = self.normalize_span(vstd::slice::slice_subrange(input, start, end));
                append_bytes(&mut out, span.as_slice());
                proof {
                    lemma_append3(
                        before,
                        s.subrange(i as int, start as int),
                        span_text(map, s.subrange(start as int, end as int)),
                        mapped_from(map, s, end as int),
                    );
                    lemma_mapped_part(map, s, first, start as int, end as int, span@, before);
                }
                i = end;
            }
        }
        proof {
            assert(mapped_from(map, s, i as int) =~= Seq::<u8>::empty());
            assert(out@ + Seq::<u8>::empty() =~= out@);
        }
        out
    }

    /// Normalizes a span as a whole.
    fn normalize_span(&self, span: &[u8]) -> (r: Vec<u8>)
        requires
            charsmap_safe(self@) || text_fits(self@, span@),
        ensures
            r@ == span_text(self@, span@),
            charsmap_safe(self@) && valid_utf8(span@) ==> bytes_apart(self@, span@, r@),
    {
        proof {
            use_type_invariant(self);
        }
        match utf8_text(span) {
            None => copy_bytes(span),
            Some(text) => {
                proof {
                    encode_utf8_decode_utf8(text@);
                }
                proof {
                    if charsmap_safe(self@) {
                        lemma_safe_fits(self@);
                    }
                }
                let t = normalize_string(&self.pre, text);
                proof {
                    if charsmap_safe(self@) {
                        lemma_bytes_apart(self@, span@, t@);
                    }
                }
                copy_bytes(t.as_str().as_bytes())
            },
        }
    }
}

/// Where a span around non-ASCII text ends.
fn find_wide_end(input: &[u8], j: usize) -> (e: usize)
    requires
        j < input@.len(),
        input@[j as int] >= 0x80,
    ensures
        e == wide_end(input@, j as int),
        j < e <= input@.len(),
{
    let mut k: usize = j;
    proof {
        lemma_wide_end(input@, j as int);
    }
    while k < input.len()
        invariant
            j <= k <= input@.len(),
            wide_end(input@, k as int) == wide_end(input@, j as int),
            j < wide_end(input@, j as int),
        decreases input@.len() - k,
    {
        let c: u8 = input[k];
        if c < 0x20 || c == 0x7F {
            return k;
        }
        if c < 0x80 && (input.len() - k < 2 || input[k + 1] < 0x80) {
            return k + 1;
        }
        k += 1;
    }
    input.len()
}

/// One step over a text that starts at `i`: printable ASCII up to `start`, then
/// a part that is normalized to `part`.
proof fn lemma_mapped_part(
    map: Seq<u8>,
    s: Seq<u8>,
    i: int,
    start: int,
    end: int,
    part: Seq<u8>,
    out: Seq<u8>,
)
    requires
        0 <= i <= start < end <= s.len(),
        forall|b: u8| b < 128 ==> #[trigger] ascii_apart(map, b),
        printable_fixed(map),
        forall|k: int| i <= k < start ==> is_printable(#[trigger] s[k]),
        i < start ==> s[start] < 0x80,
        end < s.len() ==> grapheme_break(s[end - 1] as u32, s[end] as u32),
        valid_utf8(s) ==> valid_utf8(s.skip(i)) && bytes_apart(map, s.subrange(start, end), part),
        end < s.len() && s[end] >= 0x80 ==> s[end - 1] < 0x80,
        valid_utf8(s) ==> out + span_text(map, s.skip(i)) == span_text(map, s),
    ensures
        valid_utf8(s) ==> valid_utf8(s.skip(end)) && out + s.subrange(i, start) + part + span_text(
            map,
            s.skip(end),
        ) == span_text(map, s),
{
    if valid_utf8(s) {
        let mid = s.subrange(start, end);
        if end < s.len() && s[end] >= 0x80 {
            lemma_after_ascii(s.skip(i), end - i);
            assert(s.skip(i)[end - i] == s[end]);
        }
        lemma_valid_parts(s, i, end);
        if i < start {
            assert(s.subrange(i, start).last() == s[start - 1]);
            assert(mid[0] == s[start]);
        }
        if end < s.len() {
            assert(mid.last() == s[end - 1]);
            assert(s.skip(end)[0] == s[end]);
        }
        lemma_normalize_parts(map, s, i, start, end, part);
        lemma_append3(out, s.subrange(i, start), part, span_text(map, s.skip(end)));
    }
}

proof fn lemma_append3(a: Seq<u8>, b: Seq<u8>, c: Seq<u8>, d: Seq<u8>)
    ensures
        a + b + c + d == a + (b + c + d),
{
    assert(a + b + c + d =~= a + (b + c + d));
}

/// What a charsmap maps some bytes to as one grapheme.
fn lookup(pre: &spm_precompiled::Precompiled, bytes: &[u8]) -> (r: Option<Vec<u8>>)
    requires
        charsmap_safe(charsmap_bytes(*pre)),
        valid_utf8(bytes@),
    ensures
        r is Some <==> grapheme_text(charsmap_bytes(*pre), bytes@) is Some,
        r matches Some(t) ==> grapheme_text(charsmap_bytes(*pre), bytes@) == Some(t@),
        lone_grapheme(decode_utf8(bytes@)) ==> stands_apart(
            charsmap_bytes(*pre),
            decode_utf8(bytes@),
            looked_up(charsmap_bytes(*pre), decode_utf8(bytes@)),
        ),
{
    match utf8_text(bytes) {
        None => None,
        Some(text) => {
            proof {
                encode_utf8_decode_utf8(text@);
            }
            proof {
                lemma_safe_fits(charsmap_bytes(*pre));
            }
            match transform(pre, text) {
                Some(t) => Some(copy_bytes(t.as_str().as_bytes())),
                None => None,
            }
        },
    }
}

/// Appends what an ASCII character maps to.
fn push_ascii(ascii_map: &Vec<Option<Vec<u8>>>, b: u8, out: &mut Vec<u8>, map: Ghost<Seq<u8>>)
    requires
        b < 128,
        ascii_map@.len() == 128,
        forall|c: u8|
            c < 128 ==> entry_text(#[trigger] ascii_map@[c as int], c) == ascii_text(map@, c),
    ensures
        final(out)@ == old(out)@ + ascii_text(map@, b),
{
    let ghost before = out@;
    proof {
        assert(entry_text(ascii_map@[b as int], b) == ascii_text(map@, b));
    }
    match &ascii_map[b as usize] {
        Some(t) => {
            append_bytes(out, t.as_slice());
        },
        None => {
            out.push(b);
            proof {
                assert(out@ =~= before + seq![b]);
            }
        },
    }
}

} // verus!
