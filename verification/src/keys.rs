//! The hashed, insertion-ordered key index that the ordered maps are built on.
//!
//! Nothing in this file is proved: each function states what the `indexmap`
//! crate documents of the method it calls, over [`set_items`], the sequence of
//! keys that an index holds.

use indexmap::IndexSet;
use vstd::prelude::*;

verus! {

#[verifier::external_type_specification]
#[verifier::external_body]
#[verifier::reject_recursive_types(T)]
#[verifier::reject_recursive_types(S)]
pub struct ExIndexSet<T, S>(IndexSet<T, S>);

/// The keys that an index holds, in its iteration order.
pub uninterp spec fn set_items(s: IndexSet<String>) -> Seq<Seq<char>>;

/// `IndexSet::new`: a fresh index holds nothing.
#[verifier::external_body]
pub(crate) fn set_new() -> (s: IndexSet<String>)
    ensures
        set_items(s) == Seq::<Seq<char>>::empty(),
{
    IndexSet::new()
}

/// `IndexSet::get_index_of`: the position of the held key that equals `key`,
/// or `None` when no held key does.
#[verifier::external_body]
pub(crate) fn set_index_of(s: &IndexSet<String>, key: &str) -> (r: Option<usize>)
    ensures
        match r {
            Some(i) => i < set_items(*s).len() && set_items(*s)[i as int] == key@,
            None => forall|j: int| 0 <= j < set_items(*s).len() ==> set_items(*s)[j] != key@,
        },
{
    s.get_index_of(key)
}

/// Indexing an `IndexSet` by position (`Index<usize>`): the key at a position
/// in range.
#[verifier::external_body]
pub(crate) fn set_key_at(s: &IndexSet<String>, index: usize) -> (k: &String)
    requires
        index < set_items(*s).len(),
    ensures
        k@ == set_items(*s)[index as int],
{
    &s[index]
}

/// `IndexSet::insert_full`: a key that is already held stays where it is and
/// the index is left as it was; a new key goes to the end. Returns the key's
/// position and whether it was new.
#[verifier::external_body]
pub(crate) fn set_insert_full(s: &mut IndexSet<String>, key: String) -> (r: (usize, bool))
    ensures
        r.0 < set_items(*final(s)).len(),
        set_items(*final(s))[r.0 as int] == key@,
        r.1 ==> set_items(*final(s)) == set_items(*old(s)).push(key@)
            && forall|j: int| 0 <= j < set_items(*old(s)).len() ==> set_items(*old(s))[j] != key@,
        !r.1 ==> set_items(*final(s)) == set_items(*old(s)),
{
    s.insert_full(key)
}

/// `IndexSet::shift_remove_full`: takes the key that equals `key` out, moving
/// the keys behind it one position forward, and returns the position it had;
/// `None`, and no change, when no held key equals `key`.
#[verifier::external_body]
pub(crate) fn set_shift_remove_full(s: &mut IndexSet<String>, key: &str) -> (r: Option<
    (usize, String),
>)
    ensures
        match r {
            Some((i, k)) => i < set_items(*old(s)).len() && set_items(*old(s))[i as int] == key@
                && k@ == key@ && set_items(*final(s)) == set_items(*old(s)).remove(i as int),
            None => set_items(*final(s)) == set_items(*old(s)) && forall|j: int|
                0 <= j < set_items(*old(s)).len() ==> set_items(*old(s))[j] != key@,
        },
{
    s.shift_remove_full(key)
}

} // verus!
