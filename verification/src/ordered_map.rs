//! An insertion-ordered map with string keys: a hashed index of the keys
//! beside a vector of the values, position by position.

use crate::assoc::{distinct_keys, has_key, key_index, value_of};
use crate::keys::{
    set_index_of, set_insert_full, set_items, set_key_at, set_new, set_shift_remove_full,
};
use indexmap::IndexSet;
use vstd::prelude::*;

verus! {

/// A map from strings to `V` that remembers the order in which keys came in.
#[derive(Debug)]
pub struct OrderedMap<V> {
    keys: IndexSet<String>,
    values: Vec<V>,
}

impl<V> View for OrderedMap<V> {
    type V = Seq<(Seq<char>, V)>;

    /// The pairs of the map, in insertion order.
    closed spec fn view(&self) -> Seq<(Seq<char>, V)> {
        Seq::new(self.values@.len(), |i: int| (set_items(self.keys)[i], self.values@[i]))
    }
}

impl<V> OrderedMap<V> {
    /// The index and the values line up.
    pub closed spec fn aligned(&self) -> bool {
        set_items(self.keys).len() == self.values@.len()
    }

    /// Well-formedness: every key has its value and no key occurs twice.
    pub open spec fn wf(&self) -> bool {
        &&& self.aligned()
        &&& distinct_keys(self@)
    }

    /// An empty map.
    pub fn new() -> (m: Self)
        ensures
            m.wf(),
            m@ == Seq::<(Seq<char>, V)>::empty(),
    {
        OrderedMap { keys: set_new(), values: Vec::new() }
    }

    /// The number of pairs.
    pub fn len(&self) -> (n: usize)
        requires
            self.wf(),
        ensures
            n == self@.len(),
    {
        self.values.len()
    }

    /// The position of `key`, if the map has it.
    pub fn index_of(&self, key: &str) -> (r: Option<usize>)
        requires
            self.wf(),
        ensures
            r is Some <==> has_key(self@, key@),
            r matches Some(i) ==> i == key_index(self@, key@) && i < self@.len()
                && self@[i as int].0 == key@,
    {
        let r = set_index_of(&self.keys, key);
        proof {
            match r {
                Some(i) => {
                    assert(self@[i as int].0 == key@);
                    crate::assoc::lemma_key_at(self@, i as int);
                },
                None => {
                    assert forall|j: int| 0 <= j < self@.len() implies (#[trigger] self@[j]).0
                        != key@ by {
                        assert(set_items(self.keys)[j] != key@);
                    }
                },
            }
        }
        r
    }

    /// Whether the map has `key`.
    pub fn contains_key(&self, key: &str) -> (b: bool)
        requires
            self.wf(),
        ensures
            b == has_key(self@, key@),
    {
        self.index_of(key).is_some()
    }

    /// The key at a position.
    pub fn key_at(&self, i: usize) -> (k: &String)
        requires
            self.wf(),
            i < self@.len(),
        ensures
            k@ == self@[i as int].0,
    {
        set_key_at(&self.keys, i)
    }

    /// The value at a position.
    pub fn value_at(&self, i: usize) -> (v: &V)
        requires
            self.wf(),
            i < self@.len(),
        ensures
            *v == self@[i as int].1,
    {
        &self.values[i]
    }

    /// The value at a position, to be changed in place; the key stays.
    pub fn value_at_mut(&mut self, i: usize) -> (v: &mut V)
        requires
            old(self).wf(),
            i < old(self)@.len(),
        ensures
            *v == old(self)@[i as int].1,
            final(self).wf(),
            final(self)@ == old(self)@.update(i as int, (old(self)@[i as int].0, *final(v))),
    {
        let ghost before = self@;
        let ghost keys = set_items(self.keys);
        let ghost values = self.values@;
        let v = &mut self.values[i];
        proof {
            let after = before.update(i as int, (before[i as int].0, *final(v)));
            crate::assoc::lemma_keys_agree(before, after);
            let changed = values.update(i as int, *final(v));
            assert(Seq::new(changed.len(), |j: int| (keys[j], changed[j])) =~= after);
        }
        v
    }

    /// Stores `value` under `key`. A key that the map already has keeps its
    /// position and gives its former value back; a new key goes to the end.
    pub fn insert(&mut self, key: String, value: V) -> (former: Option<V>)
        requires
            old(self).wf(),
        ensures
            final(self).wf(),
            former is Some <==> has_key(old(self)@, key@),
            former matches Some(v) ==> v == value_of(old(self)@, key@) && final(self)@ == old(
                self,
            )@.update(key_index(old(self)@, key@), (key@, value)),
            former is None ==> final(self)@ == old(self)@.push((key@, value)),
    {
        let ghost k = key@;
        let ghost before = self@;
        let (i, fresh) = set_insert_full(&mut self.keys, key);
        if fresh {
            self.values.push(value);
            proof {
                assert(self@ =~= before.push((k, value)));
                assert forall|j: int| 0 <= j < before.len() implies (#[trigger] before[j]).0
                    != k by {}
            }
            None
        } else {
            let mut value = value;
            proof {
                assert(before[i as int].0 == k);
                crate::assoc::lemma_key_at(before, i as int);
            }
            core::mem::swap(&mut self.values[i], &mut value);
            proof {
                assert(self@ =~= before.update(i as int, (k, self.values@[i as int])));
            }
            Some(value)
        }
    }

    /// Takes `key` and its value out, keeping the order of the rest.
    pub fn remove(&mut self, key: &str) -> (taken: Option<V>)
        requires
            old(self).wf(),
        ensures
            final(self).wf(),
            taken is Some <==> has_key(old(self)@, key@),
            taken matches Some(v) ==> v == value_of(old(self)@, key@) && final(self)@ == old(
                self,
            )@.remove(key_index(old(self)@, key@)),
            taken is None ==> final(self)@ == old(self)@,
    {
        let ghost before = self@;
        match set_shift_remove_full(&mut self.keys, key) {
            Some((i, _)) => {
                proof {
                    assert(before[i as int].0 == key@);
                    crate::assoc::lemma_key_at(before, i as int);
                }
                let v = self.values.remove(i);
                proof {
                    assert(self@ =~= before.remove(i as int));
                }
                Some(v)
            },
            None => {
                proof {
                    assert(self@ =~= before);
                    assert forall|j: int| 0 <= j < before.len() implies (#[trigger] before[j]).0
                        != key@ by {}
                }
                None
            },
        }
    }

    /// The value stored under `key`, if the map has it.
    pub fn get(&self, key: &str) -> (r: Option<&V>)
        requires
            self.wf(),
        ensures
            r is Some <==> has_key(self@, key@),
            r matches Some(v) ==> *v == value_of(self@, key@),
    {
        match self.index_of(key) {
            Some(i) => Some(&self.values[i]),
            None => None,
        }
    }
}

} // verus!
