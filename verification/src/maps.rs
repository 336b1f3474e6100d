//! Walking hash maps.
use std::collections::HashMap;
use vstd::prelude::*;

verus! {

broadcast use vstd::std_specs::hash::group_hash_axioms;

/// `es` lists every entry of `m` once.
pub open spec fn lists_map<V>(es: Seq<(u64, V)>, m: Map<u64, V>) -> bool {
    &&& es.len() == m.len()
    &&& forall|i: int|
        0 <= i < es.len() ==> m.contains_key((#[trigger] es[i]).0) && m[es[i].0] == es[i].1
    &&& forall|i: int, j: int|
        0 <= i < j < es.len() ==> (#[trigger] es[i]).0 != (#[trigger] es[j]).0
    &&& forall|k: u64| #[trigger]
        m.contains_key(k) ==> exists|i: int| 0 <= i < es.len() && (#[trigger] es[i]).0 == k
}

/// The entries of a map, in no particular order.
pub fn map_entries<V: Copy>(m: &HashMap<u64, V>) -> (es: Vec<(u64, V)>)
    ensures
        lists_map(es@, m@),
{
    let mut es: Vec<(u64, V)> = Vec::new();
    for (k, v) in it: m.iter()
        invariant
            es@.len() == it.index(),
            it.seq().len() == m@.len(),
            it.seq().no_duplicates(),
            forall|i: int|
                0 <= i < it.seq().len() ==> m@.contains_key(*(#[trigger] it.seq()[i]).0)
                    && m@[*it.seq()[i].0] == *it.seq()[i].1,
            forall|i: int|
                0 <= i < es@.len() ==> (#[trigger] es@[i]).0 == *it.seq()[i].0 && es@[i].1
                    == *it.seq()[i].1,
            forall|k: u64| #[trigger]
                m@.contains_key(k) ==> exists|i: int|
                    0 <= i < it.seq().len() && *(#[trigger] it.seq()[i]).0 == k,
            forall|i: int, j: int|
                0 <= i < j < es@.len() ==> (#[trigger] es@[i]).0 != (#[trigger] es@[j]).0,
            it.index() == it.seq().len() ==> forall|k: u64| #[trigger]
                m@.contains_key(k) ==> exists|i: int|
                    0 <= i < es@.len() && (#[trigger] es@[i]).0 == k,
    {
        let ghost before = es@;
        es.push((*k, *v));
        proof {
            let n = before.len() as int;
            assert forall|i: int, j: int| 0 <= i < j < es@.len() implies (#[trigger] es@[i]).0 != (
            #[trigger] es@[j]).0 by {
                if j == n {
                    assert(it.seq()[i] != it.seq()[n]);
                    assert(m@[*it.seq()[i].0] == *it.seq()[i].1);
                    assert(m@[*it.seq()[n].0] == *it.seq()[n].1);
                }
            }
            assert forall|k: u64|
                es@.len() == it.seq().len() && #[trigger] m@.contains_key(k) implies exists|i: int|
                0 <= i < es@.len() && (#[trigger] es@[i]).0 == k by {
                let i = choose|i: int| 0 <= i < it.seq().len() && *(#[trigger] it.seq()[i]).0 == k;
                assert(es@[i].0 == k);
            }
        }
    }
    es
}

} // verus!
