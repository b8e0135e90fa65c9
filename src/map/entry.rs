//! Entry API of the partial maps: a handle on one key's slot, taken with a
//! single lookup.

use vstd::prelude::*;

verus! {

/// A slot known to hold a value.
pub struct OccupiedEntry<'a, K, V> {
    key: K,
    entry: &'a mut Option<V>,
}

/// A slot known to be empty.
pub struct VacantEntry<'a, K, V> {
    key: K,
    entry: &'a mut Option<V>,
}

/// The slot of one key, filled or empty.
pub enum Entry<'a, K, V> {
    /// The key has a value.
    Occupied(OccupiedEntry<'a, K, V>),
    /// The key has no value.
    Vacant(VacantEntry<'a, K, V>),
}

impl<'a, K, V> OccupiedEntry<'a, K, V> {
    /// The key of the entry.
    pub closed spec fn spec_key(&self) -> K {
        self.key
    }

    /// The slot now.
    pub closed spec fn spec_slot(&self) -> Option<V> {
        *self.entry
    }

    /// The borrowed slot.
    pub closed spec fn spec_ref(&self) -> &'a mut Option<V> {
        self.entry
    }

    /// The key of the entry.
    pub fn key(&self) -> (r: &K)
        ensures
            *r == self.spec_key(),
    {
        &self.key
    }

    /// The value in the slot.
    pub fn get(&self) -> (r: &V)
        requires
            self.spec_slot() is Some,
        ensures
            *r == self.spec_slot()->0,
    {
        self.entry.as_ref().unwrap()
    }

    /// The value in the slot, to change in place.
    pub fn get_mut(&mut self) -> (r: &mut V)
        requires
            old(self).spec_slot() is Some,
        ensures
            *r == old(self).spec_slot()->0,
            final(self).spec_key() == old(self).spec_key(),
            final(self).spec_slot() == Some(*final(r)),
            *final(final(self).spec_ref()) == *final(old(self).spec_ref()),
    {
        self.entry.as_mut().unwrap()
    }
}

impl<'a, K, V> VacantEntry<'a, K, V> {
    /// The key of the entry.
    pub closed spec fn spec_key(&self) -> K {
        self.key
    }

    /// The slot now.
    pub closed spec fn spec_slot(&self) -> Option<V> {
        *self.entry
    }

    /// The borrowed slot.
    pub closed spec fn spec_ref(&self) -> &'a mut Option<V> {
        self.entry
    }

    /// The key of the entry.
    pub fn key(&self) -> (r: &K)
        ensures
            *r == self.spec_key(),
    {
        &self.key
    }

    /// Puts `value` in the slot.
    pub fn insert(self, value: V)
        ensures
            *final(self.spec_ref()) == Some(value),
    {
        *self.entry = Some(value);
    }
}

impl<'a, K, V> Entry<'a, K, V> {
    /// The handle on `entry`, occupied when it holds a value.
    pub(crate) fn new(key: K, entry: &'a mut Option<V>) -> (r: Self)
        ensures
            r.spec_key() == key,
            r.spec_slot() == *old(entry),
            *final(r.spec_ref()) == *final(entry),
            r.wf(),
            r is Occupied <==> *old(entry) is Some,
    {
        if entry.is_some() {
            Entry::Occupied(OccupiedEntry { key, entry })
        } else {
            Entry::Vacant(VacantEntry { key, entry })
        }
    }

    /// An occupied entry's slot holds a value, a vacant one's does not.
    pub open spec fn wf(&self) -> bool {
        match self {
            Entry::Occupied(e) => e.spec_slot() is Some,
            Entry::Vacant(e) => e.spec_slot() is None,
        }
    }

    /// The key of the entry.
    pub open spec fn spec_key(&self) -> K {
        match self {
            Entry::Occupied(e) => e.spec_key(),
            Entry::Vacant(e) => e.spec_key(),
        }
    }

    /// The slot now.
    pub open spec fn spec_slot(&self) -> Option<V> {
        match self {
            Entry::Occupied(e) => e.spec_slot(),
            Entry::Vacant(e) => e.spec_slot(),
        }
    }

    /// The borrowed slot.
    pub open spec fn spec_ref(&self) -> &'a mut Option<V> {
        match self {
            Entry::Occupied(e) => e.spec_ref(),
            Entry::Vacant(e) => e.spec_ref(),
        }
    }

    /// The key of the entry.
    pub fn key(&self) -> (r: &K)
        ensures
            *r == self.spec_key(),
    {
        match self {
            Entry::Occupied(entry) => entry.key(),
            Entry::Vacant(entry) => entry.key(),
        }
    }

    /// The value in the slot, after putting `value` there if it was empty.
    pub fn or_insert(self, value: V) -> (r: &'a mut V)
        requires
            self.wf(),
        ensures
            self.spec_slot() is Some ==> *r == self.spec_slot()->0,
            self.spec_slot() is None ==> *r == value,
            *final(self.spec_ref()) == Some(*final(r)),
    {
        match self {
            Entry::Occupied(entry) => entry.entry.as_mut().unwrap(),
            Entry::Vacant(entry) => entry.entry.insert(value),
        }
    }
}

} // verus!
