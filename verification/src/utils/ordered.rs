//! The insertion-ordered map that holds ground tiles column by column, and
//! the sorting of its keys.  What is stated here of `linked_hash_map` and of
//! the standard sort is taken on trust.

use linked_hash_map::LinkedHashMap;
use vstd::prelude::*;

verus! {

#[verifier::external_type_specification]
#[verifier::external_body]
#[verifier::reject_recursive_types(K)]
#[verifier::reject_recursive_types(V)]
#[verifier::reject_recursive_types(S)]
pub struct ExLinkedHashMap<K, V, S>(LinkedHashMap<K, V, S>);

/// The entries of the map, oldest first, each a key with its values.
pub uninterp spec fn linked_entries(m: LinkedHashMap<usize, Vec<usize>>) -> Seq<
    (usize, Seq<usize>),
>;

/// `LinkedHashMap::new`: a map without entries.
#[verifier::external_body]
pub(crate) fn linked_new() -> (m: LinkedHashMap<usize, Vec<usize>>)
    ensures
        linked_entries(m) == Seq::<(usize, Seq<usize>)>::empty(),
{
    LinkedHashMap::new()
}

/// `LinkedHashMap::insert`: a new key is appended as the youngest entry; a
/// key already present has its entry taken out, and is appended as the
/// youngest with the new value.
#[verifier::external_body]
pub(crate) fn linked_insert(m: &mut LinkedHashMap<usize, Vec<usize>>, k: usize, v: Vec<usize>)
    ensures
        (forall|a: int|
            0 <= a < linked_entries(*old(m)).len() ==> (#[trigger] linked_entries(*old(m))[a]).0
                != k) ==> linked_entries(*final(m)) == linked_entries(*old(m)).push((k, v@)),
        forall|a: int|
            0 <= a < linked_entries(*old(m)).len() && (#[trigger] linked_entries(*old(m))[a]).0
                == k ==> linked_entries(*final(m)) == linked_entries(*old(m)).remove(a).push(
                (k, v@),
            ),
{
    m.insert(k, v);
}

/// `LinkedHashMap::get`: the values stored under `k`, if the map has an
/// entry for it.
#[verifier::external_body]
pub(crate) fn linked_get<'a>(m: &'a LinkedHashMap<usize, Vec<usize>>, k: &usize) -> (found: Option<
    &'a Vec<usize>,
>)
    ensures
        match found {
            Some(values) => exists|a: int|
                0 <= a < linked_entries(*m).len() && (#[trigger] linked_entries(*m)[a]) == (
                    *k,
                    values@,
                ),
            None => forall|a: int|
                0 <= a < linked_entries(*m).len() ==> (#[trigger] linked_entries(*m)[a]).0 != *k,
        },
{
    m.get(k)
}

/// `LinkedHashMap::iter`: walks the entries from the oldest to the youngest.
/// Each is handed out as a copy.
#[verifier::external_body]
pub(crate) fn linked_iter(m: &LinkedHashMap<usize, Vec<usize>>) -> (entries: Vec<
    (usize, Vec<usize>),
>)
    ensures
        entries@.len() == linked_entries(*m).len(),
        forall|a: int|
            0 <= a < entries@.len() ==> (#[trigger] entries@[a]).0 == linked_entries(*m)[a].0
                && entries@[a].1@ == linked_entries(*m)[a].1,
{
    m.iter().map(|(k, v)| (*k, v.clone())).collect()
}

/// `sort` on a slice of the standard library: the same keys, each as often
/// as before, in ascending order.
#[verifier::external_body]
pub(crate) fn sort_keys(keys: &mut Vec<usize>)
    ensures
        final(keys)@.to_multiset() == old(keys)@.to_multiset(),
        forall|a: int, b: int|
            0 <= a <= b < final(keys)@.len() ==> final(keys)@[a] <= final(keys)@[b],
{
    keys.sort();
}

} // verus!
