//! Finding bytes and byte strings.
use vstd::prelude::*;

verus! {

/// `needle` stands in `haystack` at `i`.
pub open spec fn occurs_at(haystack: Seq<u8>, needle: Seq<u8>, i: int) -> bool {
    &&& 0 <= i
    &&& i + needle.len() <= haystack.len()
    &&& haystack.subrange(i, i + needle.len()) == needle
}

/// `memchr::memmem::find`: the position of the first occurrence of `needle`
/// in `haystack`, or `None` when there is none; an empty needle is found at
/// the start.
#[verifier::external_body]
pub(crate) fn find(haystack: &[u8], needle: &[u8]) -> (r: Option<usize>)
    ensures
        match r {
            Some(i) => {
                &&& occurs_at(haystack@, needle@, i as int)
                &&& forall|j: int| 0 <= j < i ==> !#[trigger] occurs_at(haystack@, needle@, j)
            },
            None => forall|j: int| !#[trigger] occurs_at(haystack@, needle@, j),
        },
{
    memchr::memmem::find(haystack, needle)
}

/// `memchr::memchr`: the position of the first `needle` in `haystack`, or
/// `None` when there is none.
#[verifier::external_body]
pub(crate) fn find_byte(needle: u8, haystack: &[u8]) -> (r: Option<usize>)
    ensures
        match r {
            Some(i) => {
                &&& i < haystack@.len()
                &&& haystack@[i as int] == needle
                &&& forall|j: int| 0 <= j < i ==> #[trigger] haystack@[j] != needle
            },
            None => forall|j: int| 0 <= j < haystack@.len() ==> #[trigger] haystack@[j] != needle,
        },
{
    memchr::memchr(needle, haystack)
}

/// Whether two byte strings are equal.
pub fn bytes_equal(a: &[u8], b: &[u8]) -> (r: bool)
    ensures
        r == (a@ == b@),
{
    if a.len() != b.len() {
        return false;
    }
    let mut i: usize = 0;
    while i < a.len()
        invariant
            i <= a@.len(),
            a@.len() == b@.len(),
            forall|j: int| 0 <= j < i ==> #[trigger] a@[j] == b@[j],
        decreases a@.len() - i,
    {
        if a[i] != b[i] {
            assert(a@[i as int] != b@[i as int]);
            return false;
        }
        i += 1;
    }
    assert(a@ =~= b@);
    true
}

/// Whether `haystack` ends with `tail`.
pub fn ends_with(haystack: &[u8], tail: &[u8]) -> (r: bool)
    ensures
        r == (tail@.len() <= haystack@.len() && haystack@.skip(haystack@.len() - tail@.len())
            == tail@),
{
    if tail.len() > haystack.len() {
        return false;
    }
    let n: usize = haystack.len() - tail.len();
    let end = vstd::slice::slice_subrange(haystack, n, haystack.len());
    assert(end@ =~= haystack@.skip(n as int));
    bytes_equal(end, tail)
}

/// Whether `needle` stands in `haystack` at `i`.
pub fn stands_at(haystack: &[u8], needle: &[u8], i: usize) -> (r: bool)
    requires
        i <= haystack@.len(),
    ensures
        r == occurs_at(haystack@, needle@, i as int),
{
    if needle.len() > haystack.len() - i {
        return false;
    }
    bytes_equal(vstd::slice::slice_subrange(haystack, i, i + needle.len()), needle)
}

/// A copy of a byte slice.
pub fn copy_bytes(a: &[u8]) -> (r: Vec<u8>)
    ensures
        r@ == a@,
{
    let mut v: Vec<u8> = Vec::with_capacity(a.len());
    let mut i: usize = 0;
    while i < a.len()
        invariant
            i <= a@.len(),
            v@ == a@.take(i as int),
        decreases a@.len() - i,
    {
        v.push(a[i]);
        assert(a@.take(i + 1) =~= a@.take(i as int).push(a@[i as int]));
        i += 1;
    }
    assert(a@.take(i as int) =~= a@);
    v
}

} // verus!
