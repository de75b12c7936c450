//! The insertion-ordered map of counts that a tally holds.
//!
//! Nothing in this file is proved: each function states what the `indexmap`
//! crate documents of the method it calls, over [`map_entries`], the sequence
//! of pairs that a map holds.

use indexmap::IndexMap;
use vstd::prelude::*;

verus! {

/// `indexmap::IndexMap`, of which nothing is known but what the functions
/// below state.
#[verifier::external_type_specification]
#[verifier::external_body]
#[verifier::reject_recursive_types(K)]
#[verifier::reject_recursive_types(V)]
#[verifier::reject_recursive_types(S)]
pub struct ExIndexMap<K, V, S>(IndexMap<K, V, S>);

/// The pairs that a map of counts holds, in its iteration order.
pub uninterp spec fn map_entries(m: IndexMap<String, u32>) -> Seq<(Seq<char>, u32)>;

/// `IndexMap::new`: a fresh map holds nothing.
#[verifier::external_body]
pub(crate) fn map_new() -> (m: IndexMap<String, u32>)
    ensures
        map_entries(m) == Seq::<(Seq<char>, u32)>::empty(),
{
    IndexMap::new()
}

/// `IndexMap::len`: the number of pairs held.
#[verifier::external_body]
pub(crate) fn map_len(m: &IndexMap<String, u32>) -> (n: usize)
    ensures
        n == map_entries(*m).len(),
{
    m.len()
}

/// `IndexMap::get_index_of`: the position of the pair whose key equals
/// `key`, or `None` when no held key does.
#[verifier::external_body]
pub(crate) fn map_index_of(m: &IndexMap<String, u32>, key: &str) -> (r: Option<usize>)
    ensures
        match r {
            Some(i) => i < map_entries(*m).len() && map_entries(*m)[i as int].0 == key@,
            None => forall|j: int| 0 <= j < map_entries(*m).len() ==> map_entries(*m)[j].0 != key@,
        },
{
    m.get_index_of(key)
}

/// `IndexMap::get_index`: the pair at a position, or `None` past the end.
#[verifier::external_body]
pub(crate) fn map_get_index(m: &IndexMap<String, u32>, index: usize) -> (r: Option<
    (&String, &u32),
>)
    ensures
        match r {
            Some((k, v)) => index < map_entries(*m).len() && (k@, *v) == map_entries(
                *m,
            )[index as int],
            None => index >= map_entries(*m).len(),
        },
{
    m.get_index(index)
}

/// `IndexMap::insert_full`: a key that is already held stays where it is,
/// takes the new value and gives the former one back; a new key goes to the
/// end with its value. Returns the key's position beside the former value.
#[verifier::external_body]
pub(crate) fn map_insert_full(m: &mut IndexMap<String, u32>, key: String, value: u32) -> (r: (
    usize,
    Option<u32>,
))
    ensures
        match r.1 {
            Some(former) => r.0 < map_entries(*old(m)).len() && map_entries(*old(m))[r.0 as int]
                == (key@, former) && map_entries(*final(m)) == map_entries(*old(m)).update(
                r.0 as int,
                (key@, value),
            ),
            None => r.0 == map_entries(*old(m)).len() && map_entries(*final(m)) == map_entries(
                *old(m),
            ).push((key@, value)) && forall|j: int|
                0 <= j < map_entries(*old(m)).len() ==> map_entries(*old(m))[j].0 != key@,
        },
{
    m.insert_full(key, value)
}

/// Indexing an `IndexMap` by position for writing (`IndexMut<usize>`): the
/// value at a position in range, to be changed in place; the key and every
/// other pair stay.
#[verifier::external_body]
pub(crate) fn map_value_at_mut(m: &mut IndexMap<String, u32>, index: usize) -> (v: &mut u32)
    requires
        index < map_entries(*old(m)).len(),
    ensures
        *v == map_entries(*old(m))[index as int].1,
        map_entries(*final(m)) == map_entries(*old(m)).update(
            index as int,
            (map_entries(*old(m))[index as int].0, *final(v)),
        ),
{
    &mut m[index]
}

} // verus!
