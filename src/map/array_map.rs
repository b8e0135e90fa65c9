//! Partial maps of fixed capacity: the capacity is a parameter of the type
//! and must equal the key type's size.

use crate::map::entry::Entry;
use crate::map::map::{map_of_pairs, OrdinalMap};
use crate::ordinal::Ordinal;
use vstd::prelude::*;

verus! {

/// Map from ordinal keys to values whose block of `S` slots, one per key,
/// is allocated when the map is made; `S` must be the size of `K`.
pub struct OrdinalArrayMap<K, V, const S: usize> {
    map: OrdinalMap<K, V>,
}

impl<K: Ordinal, V, const S: usize> View for OrdinalArrayMap<K, V, S> {
    /// The keys that have a value, with their values.
    type V = Map<K, V>;

    closed spec fn view(&self) -> Map<K, V> {
        self.map@
    }
}

impl<K: Ordinal, V, const S: usize> OrdinalArrayMap<K, V, S> {
    /// The capacity is the key type's size and the block is allocated.
    pub closed spec fn wf(&self) -> bool {
        &&& self.map.wf()
        &&& S == K::spec_size()
        &&& (self.map.spec_allocated() || S == 0)
    }

    /// Some key has value `v`.
    pub open spec fn spec_has_value(&self, v: V) -> bool {
        exists|k: K| self@.contains_key(k) && self@[k] == v
    }

    /// Number of keys that have a value.
    pub closed spec fn spec_len(&self) -> nat {
        self.map.spec_len()
    }

    /// An empty map with all `S` slots allocated.
    pub fn new() -> (r: Self)
        requires
            K::spec_size_ok(),
            S == K::spec_size(),
        ensures
            r.wf(),
            r@ == Map::<K, V>::empty(),
            r.spec_len() == 0,
    {
        let mut map = OrdinalMap::new();
        map.init_full_map();
        OrdinalArrayMap { map }
    }

    /// The map made by inserting `pairs` in order; a later pair for a key wins.
    pub fn from_pairs(pairs: Vec<(K, V)>) -> (r: Self)
        requires
            K::spec_size_ok(),
            S == K::spec_size(),
        ensures
            r.wf(),
            r@ == map_of_pairs(pairs@),
    {
        let mut map = OrdinalMap::from_pairs(pairs);
        map.init_full_map();
        OrdinalArrayMap { map }
    }

    /// Number of keys that have a value; this walks every slot.
    pub fn len(&self) -> (r: usize)
        requires
            self.wf(),
        ensures
            r == self.spec_len(),
            r == self@.dom().len(),
    {
        self.map.len()
    }

    /// Whether no key has a value; this walks every slot.
    pub fn is_empty(&self) -> (r: bool)
        requires
            self.wf(),
        ensures
            r <==> self.spec_len() == 0,
            r <==> self@.dom().len() == 0,
    {
        self.map.len() == 0
    }

    /// The value for `key`, if it has one.
    pub fn get(&self, key: &K) -> (r: Option<&V>)
        requires
            self.wf(),
        ensures
            r is Some <==> self@.contains_key(*key),
            r is Some ==> *r->0 == self@[*key],
    {
        self.map.get(key)
    }

    /// The value for `key`, if it has one, to change in place.
    pub fn get_mut(&mut self, key: &K) -> (r: Option<&mut V>)
        requires
            old(self).wf(),
        ensures
            final(self).wf(),
            r is Some <==> old(self)@.contains_key(*key),
            r is Some ==> *r->0 == old(self)@[*key] && final(self)@ == old(self)@.insert(
                *key,
                *final(r->0),
            ),
            r is None ==> final(self)@ == old(self)@,
    {
        self.map.get_mut(key)
    }

    /// Whether `key` has a value.
    pub fn contains_key(&self, key: &K) -> (r: bool)
        requires
            self.wf(),
        ensures
            r == self@.contains_key(*key),
    {
        self.map.contains_key(key)
    }

    /// Gives `key` the value `value`; returns the value it had, if any.
    pub fn insert(&mut self, key: K, value: V) -> (r: Option<V>)
        requires
            old(self).wf(),
        ensures
            final(self).wf(),
            final(self)@ == old(self)@.insert(key, value),
            r is Some <==> old(self)@.contains_key(key),
            r is Some ==> r->0 == old(self)@[key],
    {
        self.map.insert(key, value)
    }

    /// The slot of `key`; what is left in it when the entry is dropped is the
    /// key's value afterwards.
    pub fn entry(&mut self, key: K) -> (r: Entry<'_, K, V>)
        requires
            old(self).wf(),
        ensures
            r.wf(),
            r.spec_key() == key,
            r is Occupied <==> old(self)@.contains_key(key),
            r is Occupied ==> r.spec_slot() == Some(old(self)@[key]),
            final(self).wf(),
            final(self)@ == (match *final(r.spec_ref()) {
                Some(v) => old(self)@.insert(key, v),
                None => old(self)@.remove(key),
            }),
    {
        self.map.entry(key)
    }

    /// Takes the value of `key` out of the map, if it has one.
    pub fn remove(&mut self, key: &K) -> (r: Option<V>)
        requires
            old(self).wf(),
        ensures
            final(self).wf(),
            final(self)@ == old(self)@.remove(*key),
            r is Some <==> old(self)@.contains_key(*key),
            r is Some ==> r->0 == old(self)@[*key],
    {
        self.map.remove(key)
    }

    /// Each key that has a value, with its value, in order of key numbers.
    pub fn iter(&self) -> (r: Vec<(K, &V)>)
        requires
            self.wf(),
        ensures
            r@.len() == self.spec_len(),
            forall|j: int| 0 <= j < r@.len() ==> {
                &&& self@.contains_key((#[trigger] r@[j]).0)
                &&& *r@[j].1 == self@[r@[j].0]
            },
            forall|j: int, l: int| 0 <= j < l < r@.len() ==> (#[trigger] r@[j]).0.spec_ordinal() < (#[trigger] r@[l]).0.spec_ordinal(),
            forall|k: K| self@.contains_key(k) ==> exists|j: int| 0 <= j < r@.len() && (#[trigger] r@[j]).0 == k,
    {
        self.map.iter()
    }

    /// Each key that has a value, in order of key numbers.
    pub fn keys(&self) -> (r: Vec<K>)
        requires
            self.wf(),
        ensures
            r@.len() == self.spec_len(),
            forall|j: int| 0 <= j < r@.len() ==> self@.contains_key(#[trigger] r@[j]),
            forall|j: int, l: int| 0 <= j < l < r@.len() ==> (#[trigger] r@[j]).spec_ordinal() < (#[trigger] r@[l]).spec_ordinal(),
            forall|k: K| self@.contains_key(k) ==> exists|j: int| 0 <= j < r@.len() && #[trigger] r@[j] == k,
    {
        self.map.keys()
    }

    /// The values, in order of their keys' numbers; one per key that has a value.
    pub fn values(&self) -> (r: Vec<&V>)
        requires
            self.wf(),
        ensures
            r@.len() == self.spec_len(),
            forall|j: int| 0 <= j < r@.len() ==> self.spec_has_value(*#[trigger] r@[j]),
    {
        let r = self.map.values();
        assert forall|j: int| 0 <= j < r@.len() implies self.spec_has_value(*#[trigger] r@[j]) by {
            assert(self.map.spec_has_value(*r@[j]));
            let k = choose|k: K| self.map@.contains_key(k) && self.map@[k] == *r@[j];
            assert(self@.contains_key(k) && self@[k] == *r@[j]);
        }
        r
    }

    /// Takes every key and value out of the map, in order of key numbers.
    pub fn drain(&mut self) -> (r: Vec<(K, V)>)
        requires
            old(self).wf(),
        ensures
            final(self).wf(),
            final(self)@ == Map::<K, V>::empty(),
            r@.len() == old(self).spec_len(),
            forall|j: int| 0 <= j < r@.len() ==> {
                &&& old(self)@.contains_key((#[trigger] r@[j]).0)
                &&& r@[j].1 == old(self)@[r@[j].0]
            },
            forall|j: int, l: int| 0 <= j < l < r@.len() ==> (#[trigger] r@[j]).0.spec_ordinal() < (#[trigger] r@[l]).0.spec_ordinal(),
            forall|k: K| old(self)@.contains_key(k) ==> exists|j: int| 0 <= j < r@.len() && (#[trigger] r@[j]).0 == k,
    {
        self.map.drain()
    }

    /// Keeps the keys for which `keep` answers `true` and removes the others.
    pub fn retain(&mut self, keep: impl Fn(&K, &V) -> bool)
        requires
            old(self).wf(),
            forall|k: &K, v: &V| keep.requires((k, v)),
        ensures
            final(self).wf(),
            forall|k: K| #[trigger] final(self)@.contains_key(k) ==> old(self)@.contains_key(k) && final(self)@[k] == old(self)@[k] && keep.ensures((&k, &old(self)@[k]), true),
            forall|k: K| old(self)@.contains_key(k) && !final(self)@.contains_key(k) ==> #[trigger] keep.ensures((&k, &old(self)@[k]), false),
    {
        self.map.retain(keep)
    }

    /// Empties the map.
    pub fn clear(&mut self)
        requires
            old(self).wf(),
        ensures
            final(self).wf(),
            final(self)@ == Map::<K, V>::empty(),
            final(self).spec_len() == 0,
    {
        self.map.clear()
    }
}

impl<K: Ordinal, V, const S: usize> Default for OrdinalArrayMap<K, V, S> {
    /// An empty map with all `S` slots allocated.
    fn default() -> (r: Self)
        ensures
            K::spec_size_ok() && S == K::spec_size() ==> r.wf(),
            r@ == Map::<K, V>::empty(),
            r.spec_len() == 0,
    {
        OrdinalArrayMap { map: OrdinalMap::with_empty_slots(S) }
    }
}

} // verus!
