//! Partial maps: a key may have a value or not. The block of slots is
//! allocated on the first insertion.

use crate::map::entry::Entry;
use crate::ordinal::Ordinal;
use std::marker::PhantomData;
use vstd::prelude::*;

verus! {

/// Number of filled slots.
pub open spec fn count_some<V>(s: Seq<Option<V>>) -> nat
    decreases s.len(),
{
    if s.len() == 0 {
        0
    } else {
        count_some(s.drop_last()) + if s.last() is Some {
            1nat
        } else {
            0nat
        }
    }
}

/// The map made by inserting `pairs` in order: a later pair for a key wins.
pub open spec fn map_of_pairs<K, V>(pairs: Seq<(K, V)>) -> Map<K, V>
    decreases pairs.len(),
{
    if pairs.len() == 0 {
        Map::empty()
    } else {
        map_of_pairs(pairs.drop_last()).insert(pairs.last().0, pairs.last().1)
    }
}

/// Indices of the filled slots.
pub open spec fn filled_indices<V>(s: Seq<Option<V>>) -> Set<nat> {
    Set::new(|i: nat| i < s.len() && s[i as int] is Some)
}

/// The filled slots are finitely many, and `count_some` counts them.
pub proof fn lemma_count_some_card<V>(s: Seq<Option<V>>)
    ensures
        filled_indices(s).finite(),
        filled_indices(s).len() == count_some(s),
    decreases s.len(),
{
    if s.len() == 0 {
        assert(filled_indices(s) =~= Set::<nat>::empty());
    } else {
        let prev = s.drop_last();
        lemma_count_some_card(prev);
        let last = (s.len() - 1) as nat;
        if s.last() is Some {
            assert(filled_indices(s) =~= filled_indices(prev).insert(last));
        } else {
            assert(filled_indices(s) =~= filled_indices(prev));
        }
    }
}

/// Every slot empty: no slot filled.
pub proof fn lemma_count_some_none<V>(s: Seq<Option<V>>)
    requires
        forall|i: int| 0 <= i < s.len() ==> s[i] is None,
    ensures
        count_some(s) == 0,
    decreases s.len(),
{
    if s.len() > 0 {
        lemma_count_some_none(s.drop_last());
    }
}

/// Map from ordinal keys to values, with constant-time operations.
///
/// The slots, one per key in order of key numbers, are allocated on the
/// heap on the first insertion; a new map holds no block at all.
pub struct OrdinalMap<K, V> {
    map: Vec<Option<V>>,
    _phantom: PhantomData<K>,
}

impl<K: Ordinal, V> View for OrdinalMap<K, V> {
    /// The keys that have a value, with their values.
    type V = Map<K, V>;

    closed spec fn view(&self) -> Map<K, V> {
        Map::new(|k: K| self.spec_slot(&k) is Some, |k: K| self.spec_slot(&k)->0)
    }
}

impl<K: Ordinal, V> OrdinalMap<K, V> {
    /// The block is either not allocated, or holds one slot per key.
    pub closed spec fn wf(&self) -> bool {
        &&& K::spec_size_ok()
        &&& (self.map@.len() == 0 || self.map@.len() == K::spec_size())
    }

    /// Whether the block of slots is allocated.
    pub closed spec fn spec_allocated(&self) -> bool {
        self.map@.len() != 0
    }

    /// The slot of `key`: its value, if it has one.
    pub closed spec fn spec_slot(&self, key: &K) -> Option<V> {
        if key.spec_ordinal() < self.map@.len() {
            self.map@[key.spec_ordinal() as int]
        } else {
            None
        }
    }

    /// Some key has value `v`.
    pub open spec fn spec_has_value(&self, v: V) -> bool {
        exists|k: K| self@.contains_key(k) && self@[k] == v
    }

    /// Number of keys that have a value.
    pub closed spec fn spec_len(&self) -> nat {
        count_some(self.map@)
    }

    /// The number of filled slots is the number of keys that have a value.
    pub proof fn lemma_len_is_dom_len(&self)
        requires
            self.wf(),
        ensures
            self@.dom().finite(),
            self.spec_len() == self@.dom().len(),
    {
        lemma_count_some_card(self.map@);
        let idx = filled_indices(self.map@);
        let f = |i: nat| crate::ordinal::numbered::<K>(i);
        assert forall|i: nat, j: nat| idx.contains(i) && idx.contains(j) && #[trigger] f(i) == #[trigger] f(j) implies i == j by {
            K::lemma_ordinal_surjective(i);
            K::lemma_ordinal_surjective(j);
        }
        assert(self@.dom() =~= idx.map(f)) by {
            assert forall|k: K| #[trigger] self@.dom().contains(k) implies idx.map(f).contains(k) by {
                let i = k.spec_ordinal();
                K::lemma_ordinal_surjective(i);
                K::lemma_ordinal_injective(&k, &f(i));
                assert(idx.contains(i) && f(i) == k);
            }
            assert forall|k: K| #[trigger] idx.map(f).contains(k) implies self@.dom().contains(k) by {
                let i = choose|i: nat| idx.contains(i) && f(i) == k;
                K::lemma_ordinal_surjective(i);
            }
        }
        vstd::set_lib::lemma_map_size(idx, self@.dom(), f);
    }

    /// An empty map; no block is allocated.
    pub fn new() -> (r: Self)
        requires
            K::spec_size_ok(),
        ensures
            r.wf(),
            r@ == Map::<K, V>::empty(),
            r.spec_len() == 0,
            !r.spec_allocated(),
    {
        let r = OrdinalMap { map: Vec::new(), _phantom: PhantomData };
        assert(r@ =~= Map::<K, V>::empty());
        r
    }

    /// The map made by inserting `pairs` in order; a later pair for a key wins.
    pub fn from_pairs(pairs: Vec<(K, V)>) -> (r: Self)
        requires
            K::spec_size_ok(),
        ensures
            r.wf(),
            r@ == map_of_pairs(pairs@),
    {
        let ghost all = pairs@;
        let mut rest = pairs;
        let mut reversed: Vec<(K, V)> = Vec::new();
        while rest.len() > 0
            invariant
                all.len() == rest@.len() + reversed@.len(),
                rest@ == all.subrange(0, rest@.len() as int),
                forall|j: int| 0 <= j < reversed@.len() ==> #[trigger] reversed@[j] == all[all.len() - 1 - j],
            decreases rest@.len(),
        {
            let p = rest.pop().unwrap();
            reversed.push(p);
        }
        let mut map = OrdinalMap::new();
        let ghost n = all.len();
        assert(all.subrange(0, 0) =~= Seq::<(K, V)>::empty());
        while reversed.len() > 0
            invariant
                map.wf(),
                n == all.len(),
                reversed@.len() <= n,
                forall|j: int| 0 <= j < reversed@.len() ==> #[trigger] reversed@[j] == all[n - 1 - j],
                map@ == map_of_pairs(all.subrange(0, n - reversed@.len())),
            decreases reversed@.len(),
        {
            let ghost k = n - reversed@.len();
            let (key, value) = reversed.pop().unwrap();
            assert(all.subrange(0, k + 1).drop_last() =~= all.subrange(0, k));
            map.insert(key, value);
        }
        assert(all.subrange(0, n as int) =~= all);
        map
    }

    /// The value for `key`, if it has one.
    pub fn get(&self, key: &K) -> (r: Option<&V>)
        requires
            self.wf(),
        ensures
            r is Some <==> self@.contains_key(*key),
            r is Some ==> *r->0 == self@[*key],
    {
        let i = key.ordinal();
        if i < self.map.len() {
            self.map[i].as_ref()
        } else {
            None
        }
    }

    /// The value for `key`, if it has one, to change in place.
    pub fn get_mut(&mut self, key: &K) -> (r: Option<&mut V>)
        requires
            old(self).wf(),
        ensures
            final(self).wf(),
            r is Some <==> old(self)@.contains_key(*key),
            r is Some ==> *r->0 == old(self)@[*key] && final(self)@ == old(self)@.insert(
                *key,
                *final(r->0),
            ),
            r is None ==> final(self)@ == old(self)@,
            final(self).spec_allocated() == old(self).spec_allocated(),
    {
        let i = key.ordinal();
        if i < self.map.len() {
            let ghost old_self = *self;
            proof {
                assert forall|b: Self, v: V|
                    b.map@ == old_self.map@.update(i as int, Some(v)) implies #[trigger] b.view()
                    =~= #[trigger] old_self@.insert(*key, v) by {
                    assert forall|k: K| #[trigger] b@.contains_key(k) == old_self@.insert(*key, v).contains_key(k) by {
                        K::lemma_ordinal_injective(&k, key);
                    }
                    assert forall|k: K| #[trigger] b@.contains_key(k) implies b@[k] == old_self@.insert(*key, v)[k] by {
                        K::lemma_ordinal_injective(&k, key);
                    }
                }
                assert forall|b: Self| b.map@ == old_self.map@ implies #[trigger] b.view() =~= old_self@ by {}
            }
            let r = self.map[i].as_mut();
            r
        } else {
            None
        }
    }

    /// Whether `key` has a value.
    pub fn contains_key(&self, key: &K) -> (r: bool)
        requires
            self.wf(),
        ensures
            r == self@.contains_key(*key),
    {
        let i = key.ordinal();
        i < self.map.len() && self.map[i].is_some()
    }

    /// Number of keys that have a value; this walks every slot.
    pub fn len(&self) -> (r: usize)
        requires
            self.wf(),
        ensures
            r == self.spec_len(),
            r == self@.dom().len(),
    {
        proof {
            self.lemma_len_is_dom_len();
        }
        let n = self.map.len();
        let mut count: usize = 0;
        let mut i: usize = 0;
        assert(self.map@.subrange(0, 0) =~= Seq::<Option<V>>::empty());
        while i < n
            invariant
                n == self.map@.len(),
                i <= n,
                count == count_some(self.map@.subrange(0, i as int)),
                count <= i,
            decreases n - i,
        {
            assert(self.map@.subrange(0, i + 1).drop_last() =~= self.map@.subrange(0, i as int));
            if self.map[i].is_some() {
                count = count + 1;
            }
            i = i + 1;
        }
        assert(self.map@.subrange(0, n as int) =~= self.map@);
        count
    }

    /// An empty map with a block of `n` empty slots.
    pub(crate) fn with_empty_slots(n: usize) -> (r: Self)
        ensures
            r@ == Map::<K, V>::empty(),
            r.spec_len() == 0,
            (K::spec_size_ok() && n == K::spec_size()) ==> r.wf(),
            n > 0 ==> r.spec_allocated(),
    {
        let mut map: Vec<Option<V>> = Vec::with_capacity(n);
        let mut i: usize = 0;
        while i < n
            invariant
                i <= n,
                map@.len() == i,
                forall|j: int| 0 <= j < i ==> map@[j] is None,
            decreases n - i,
        {
            map.push(None);
            i = i + 1;
        }
        let r = OrdinalMap { map, _phantom: PhantomData };
        proof {
            lemma_count_some_none(r.map@);
            assert(r@ =~= Map::<K, V>::empty());
        }
        r
    }

    /// Allocates the block of empty slots if it is not there yet.
    pub(crate) fn init_full_map(&mut self)
        requires
            old(self).wf(),
        ensures
            final(self).wf(),
            final(self).spec_allocated() || K::spec_size() == 0,
            final(self)@ == old(self)@,
            final(self).spec_len() == old(self).spec_len(),
    {
        if self.map.len() == 0 {
            let ghost old_self = *self;
            let n = K::ordinal_size();
            let mut map: Vec<Option<V>> = Vec::with_capacity(n);
            let mut i: usize = 0;
            while i < n
                invariant
                    i <= n,
                    map@.len() == i,
                    forall|j: int| 0 <= j < i ==> map@[j] is None,
                decreases n - i,
            {
                map.push(None);
                i = i + 1;
            }
            self.map = map;
            proof {
                lemma_count_some_none(self.map@);
                assert(self@ =~= old_self@);
            }
        }
    }

    /// Gives `key` the value `value`; returns the value it had, if any.
    pub fn insert(&mut self, key: K, value: V) -> (r: Option<V>)
        requires
            old(self).wf(),
        ensures
            final(self).wf(),
            final(self).spec_allocated(),
            final(self)@ == old(self)@.insert(key, value),
            r is Some <==> old(self)@.contains_key(key),
            r is Some ==> r->0 == old(self)@[key],
    {
        self.init_full_map();
        proof {
            K::lemma_ordinal_bound(&key);
        }
        let ghost mid = *self;
        let i = key.ordinal();
        let mut slot = Some(value);
        std::mem::swap(&mut self.map[i], &mut slot);
        proof {
            assert forall|k: K| #[trigger] self@.contains_key(k) == mid@.insert(key, value).contains_key(k) by {
                K::lemma_ordinal_injective(&k, &key);
            }
            assert forall|k: K| #[trigger] self@.contains_key(k) implies self@[k] == mid@.insert(key, value)[k] by {
                K::lemma_ordinal_injective(&k, &key);
            }
            assert(self@ =~= mid@.insert(key, value));
        }
        slot
    }

    /// The slot of `key`, allocating the block first if needed; what is left in
    /// the slot when the entry is dropped is the key's value afterwards.
    pub fn entry(&mut self, key: K) -> (r: Entry<'_, K, V>)
        requires
            old(self).wf(),
        ensures
            r.wf(),
            r.spec_key() == key,
            r is Occupied <==> old(self)@.contains_key(key),
            r is Occupied ==> r.spec_slot() == Some(old(self)@[key]),
            final(self).wf(),
            final(self).spec_allocated(),
            final(self)@ == (match *final(r.spec_ref()) {
                Some(v) => old(self)@.insert(key, v),
                None => old(self)@.remove(key),
            }),
    {
        self.init_full_map();
        proof {
            K::lemma_ordinal_bound(&key);
        }
        let ghost mid = *self;
        let i = key.ordinal();
        proof {
            assert forall|b: Self, v: V|
                b.map@ == mid.map@.update(i as int, Some(v)) implies #[trigger] b.view()
                =~= #[trigger] mid@.insert(key, v) by {
                assert forall|k: K| #[trigger] b@.contains_key(k) == mid@.insert(key, v).contains_key(k) by {
                    K::lemma_ordinal_injective(&k, &key);
                }
                assert forall|k: K| #[trigger] b@.contains_key(k) implies b@[k] == mid@.insert(key, v)[k] by {
                    K::lemma_ordinal_injective(&k, &key);
                }
            }
            assert forall|b: Self|
                b.map@ == mid.map@.update(i as int, None) implies #[trigger] b.view()
                =~= mid@.remove(key) by {
                assert forall|k: K| #[trigger] b@.contains_key(k) == mid@.remove(key).contains_key(k) by {
                    K::lemma_ordinal_injective(&k, &key);
                }
                assert forall|k: K| #[trigger] b@.contains_key(k) implies b@[k] == mid@.remove(key)[k] by {
                    K::lemma_ordinal_injective(&k, &key);
                }
            }
        }
        let slot = &mut self.map[i];
        Entry::new(key, slot)
    }

    /// Takes the value of `key` out of the map, if it has one.
    pub fn remove(&mut self, key: &K) -> (r: Option<V>)
        requires
            old(self).wf(),
        ensures
            final(self).wf(),
            final(self)@ == old(self)@.remove(*key),
            r is Some <==> old(self)@.contains_key(*key),
            r is Some ==> r->0 == old(self)@[*key],
            final(self).spec_allocated() == old(self).spec_allocated(),
    {
        let i = key.ordinal();
        if i < self.map.len() {
            let ghost old_self = *self;
            let mut slot: Option<V> = None;
            std::mem::swap(&mut self.map[i], &mut slot);
            proof {
                assert forall|k: K| #[trigger] self@.contains_key(k) == old_self@.remove(*key).contains_key(k) by {
                    K::lemma_ordinal_injective(&k, key);
                }
                assert forall|k: K| #[trigger] self@.contains_key(k) implies self@[k] == old_self@.remove(*key)[k] by {
                    K::lemma_ordinal_injective(&k, key);
                }
                assert(self@ =~= old_self@.remove(*key));
            }
            slot
        } else {
            assert(self@ =~= self@.remove(*key));
            None
        }
    }

    /// Each key that has a value, with its value, in order of key numbers.
    pub fn iter(&self) -> (r: Vec<(K, &V)>)
        requires
            self.wf(),
        ensures
            r@.len() == self.spec_len(),
            forall|j: int| 0 <= j < r@.len() ==> {
                &&& self@.contains_key((#[trigger] r@[j]).0)
                &&& *r@[j].1 == self@[r@[j].0]
            },
            forall|j: int, l: int| 0 <= j < l < r@.len() ==> (#[trigger] r@[j]).0.spec_ordinal() < (#[trigger] r@[l]).0.spec_ordinal(),
            forall|k: K| self@.contains_key(k) ==> exists|j: int| 0 <= j < r@.len() && (#[trigger] r@[j]).0 == k,
    {
        let n = self.map.len();
        let mut out: Vec<(K, &V)> = Vec::new();
        let mut i: usize = 0;
        assert(self.map@.subrange(0, 0) =~= Seq::<Option<V>>::empty());
        while i < n
            invariant
                self.wf(),
                n == self.map@.len(),
                i <= n,
                out@.len() == count_some(self.map@.subrange(0, i as int)),
                forall|j: int| 0 <= j < out@.len() ==> {
                    &&& self@.contains_key((#[trigger] out@[j]).0)
                    &&& *out@[j].1 == self@[out@[j].0]
                    &&& out@[j].0.spec_ordinal() < i
                },
                forall|j: int, l: int| 0 <= j < l < out@.len() ==> (#[trigger] out@[j]).0.spec_ordinal() < (#[trigger] out@[l]).0.spec_ordinal(),
                forall|k: K| self@.contains_key(k) && k.spec_ordinal() < i ==> exists|j: int| 0 <= j < out@.len() && (#[trigger] out@[j]).0 == k,
            decreases n - i,
        {
            assert(self.map@.subrange(0, i + 1).drop_last() =~= self.map@.subrange(0, i as int));
            match self.map[i].as_ref() {
                Some(v) => {
                    let key = K::from_ordinal(i).unwrap();
                    let ghost old_out = out@;
                    out.push((key, v));
                    proof {
                        assert(self.spec_slot(&key) is Some);
                        assert forall|k: K| self@.contains_key(k) && k.spec_ordinal() < i + 1 implies exists|j: int| 0 <= j < out@.len() && (#[trigger] out@[j]).0 == k by {
                            if k.spec_ordinal() == i {
                                K::lemma_ordinal_injective(&k, &key);
                                assert(out@[out@.len() - 1].0 == k);
                            } else {
                                let j = choose|j: int| 0 <= j < old_out.len() && (#[trigger] old_out[j]).0 == k;
                                assert(out@[j].0 == k);
                            }
                        }
                    }
                },
                None => {
                    proof {
                        assert forall|k: K| self@.contains_key(k) && k.spec_ordinal() < i + 1 implies exists|j: int| 0 <= j < out@.len() && (#[trigger] out@[j]).0 == k by {
                            if k.spec_ordinal() == i {
                                assert(self.spec_slot(&k) is None);
                            }
                        }
                    }
                },
            }
            i = i + 1;
        }
        assert(self.map@.subrange(0, n as int) =~= self.map@);
        proof {
            assert forall|k: K| self@.contains_key(k) implies exists|j: int| 0 <= j < out@.len() && (#[trigger] out@[j]).0 == k by {
                K::lemma_ordinal_bound(&k);
            }
        }
        out
    }

    /// Each key that has a value, in order of key numbers.
    pub fn keys(&self) -> (r: Vec<K>)
        requires
            self.wf(),
        ensures
            r@.len() == self.spec_len(),
            forall|j: int| 0 <= j < r@.len() ==> self@.contains_key(#[trigger] r@[j]),
            forall|j: int, l: int| 0 <= j < l < r@.len() ==> (#[trigger] r@[j]).spec_ordinal() < (#[trigger] r@[l]).spec_ordinal(),
            forall|k: K| self@.contains_key(k) ==> exists|j: int| 0 <= j < r@.len() && #[trigger] r@[j] == k,
    {
        let n = self.map.len();
        let mut out: Vec<K> = Vec::new();
        let mut i: usize = 0;
        assert(self.map@.subrange(0, 0) =~= Seq::<Option<V>>::empty());
        while i < n
            invariant
                self.wf(),
                n == self.map@.len(),
                i <= n,
                out@.len() == count_some(self.map@.subrange(0, i as int)),
                forall|j: int| 0 <= j < out@.len() ==> {
                    &&& self@.contains_key(#[trigger] out@[j])
                    &&& out@[j].spec_ordinal() < i
                },
                forall|j: int, l: int| 0 <= j < l < out@.len() ==> (#[trigger] out@[j]).spec_ordinal() < (#[trigger] out@[l]).spec_ordinal(),
                forall|k: K| self@.contains_key(k) && k.spec_ordinal() < i ==> exists|j: int| 0 <= j < out@.len() && #[trigger] out@[j] == k,
            decreases n - i,
        {
            assert(self.map@.subrange(0, i + 1).drop_last() =~= self.map@.subrange(0, i as int));
            if self.map[i].is_some() {
                let key = K::from_ordinal(i).unwrap();
                let ghost old_out = out@;
                out.push(key);
                proof {
                    assert(self.spec_slot(&key) is Some);
                    assert forall|k: K| self@.contains_key(k) && k.spec_ordinal() < i + 1 implies exists|j: int| 0 <= j < out@.len() && #[trigger] out@[j] == k by {
                        if k.spec_ordinal() == i {
                            K::lemma_ordinal_injective(&k, &key);
                            assert(out@[out@.len() - 1] == k);
                        } else {
                            let j = choose|j: int| 0 <= j < old_out.len() && #[trigger] old_out[j] == k;
                            assert(out@[j] == k);
                        }
                    }
                }
            } else {
                proof {
                    assert forall|k: K| self@.contains_key(k) && k.spec_ordinal() < i + 1 implies exists|j: int| 0 <= j < out@.len() && #[trigger] out@[j] == k by {
                        if k.spec_ordinal() == i {
                            assert(self.spec_slot(&k) is None);
                        }
                    }
                }
            }
            i = i + 1;
        }
        assert(self.map@.subrange(0, n as int) =~= self.map@);
        proof {
            assert forall|k: K| self@.contains_key(k) implies exists|j: int| 0 <= j < out@.len() && #[trigger] out@[j] == k by {
                K::lemma_ordinal_bound(&k);
            }
        }
        out
    }

    /// The values, in order of their keys' numbers; one per key that has a value.
    pub fn values(&self) -> (r: Vec<&V>)
        requires
            self.wf(),
        ensures
            r@.len() == self.spec_len(),
            forall|j: int| 0 <= j < r@.len() ==> self.spec_has_value(*#[trigger] r@[j]),
    {
        let n = self.map.len();
        let mut out: Vec<&V> = Vec::new();
        let mut i: usize = 0;
        assert(self.map@.subrange(0, 0) =~= Seq::<Option<V>>::empty());
        while i < n
            invariant
                self.wf(),
                n == self.map@.len(),
                i <= n,
                out@.len() == count_some(self.map@.subrange(0, i as int)),
                forall|j: int| 0 <= j < out@.len() ==> self.spec_has_value(*#[trigger] out@[j]),
            decreases n - i,
        {
            assert(self.map@.subrange(0, i + 1).drop_last() =~= self.map@.subrange(0, i as int));
            match self.map[i].as_ref() {
                Some(v) => {
                    proof {
                        K::lemma_ordinal_surjective(i as nat);
                        let k = crate::ordinal::numbered::<K>(i as nat);
                        assert(self.spec_slot(&k) is Some);
                        assert(self@.contains_key(k) && *v == self@[k]);
                    }
                    out.push(v);
                },
                None => {},
            }
            i = i + 1;
        }
        assert(self.map@.subrange(0, n as int) =~= self.map@);
        out
    }

    /// Takes every key and value out of the map, in order of key numbers;
    /// the block stays.
    pub fn drain(&mut self) -> (r: Vec<(K, V)>)
        requires
            old(self).wf(),
        ensures
            final(self).wf(),
            final(self)@ == Map::<K, V>::empty(),
            final(self).spec_allocated() == old(self).spec_allocated(),
            r@.len() == old(self).spec_len(),
            forall|j: int| 0 <= j < r@.len() ==> {
                &&& old(self)@.contains_key((#[trigger] r@[j]).0)
                &&& r@[j].1 == old(self)@[r@[j].0]
            },
            forall|j: int, l: int| 0 <= j < l < r@.len() ==> (#[trigger] r@[j]).0.spec_ordinal() < (#[trigger] r@[l]).0.spec_ordinal(),
            forall|k: K| old(self)@.contains_key(k) ==> exists|j: int| 0 <= j < r@.len() && (#[trigger] r@[j]).0 == k,
    {
        let ghost old_self = *self;
        let n = self.map.len();
        let mut out: Vec<(K, V)> = Vec::new();
        let mut i: usize = 0;
        assert(self.map@.subrange(0, 0) =~= Seq::<Option<V>>::empty());
        while i < n
            invariant
                self.wf(),
                old_self.wf(),
                n == self.map@.len(),
                n == old_self.map@.len(),
                i <= n,
                forall|j: int| 0 <= j < i ==> self.map@[j] is None,
                forall|j: int| i <= j < n ==> self.map@[j] == old_self.map@[j],
                out@.len() == count_some(old_self.map@.subrange(0, i as int)),
                forall|j: int| 0 <= j < out@.len() ==> {
                    &&& old_self@.contains_key((#[trigger] out@[j]).0)
                    &&& out@[j].1 == old_self@[out@[j].0]
                    &&& out@[j].0.spec_ordinal() < i
                },
                forall|j: int, l: int| 0 <= j < l < out@.len() ==> (#[trigger] out@[j]).0.spec_ordinal() < (#[trigger] out@[l]).0.spec_ordinal(),
                forall|k: K| old_self@.contains_key(k) && k.spec_ordinal() < i ==> exists|j: int| 0 <= j < out@.len() && (#[trigger] out@[j]).0 == k,
            decreases n - i,
        {
            assert(old_self.map@.subrange(0, i + 1).drop_last() =~= old_self.map@.subrange(0, i as int));
            let mut slot: Option<V> = None;
            std::mem::swap(&mut self.map[i], &mut slot);
            match slot {
                Some(v) => {
                    let key = K::from_ordinal(i).unwrap();
                    let ghost old_out = out@;
                    proof {
                        assert(old_self.spec_slot(&key) is Some);
                    }
                    out.push((key, v));
                    proof {
                        assert forall|k: K| old_self@.contains_key(k) && k.spec_ordinal() < i + 1 implies exists|j: int| 0 <= j < out@.len() && (#[trigger] out@[j]).0 == k by {
                            if k.spec_ordinal() == i {
                                K::lemma_ordinal_injective(&k, &key);
                                assert(out@[out@.len() - 1].0 == k);
                            } else {
                                let j = choose|j: int| 0 <= j < old_out.len() && (#[trigger] old_out[j]).0 == k;
                                assert(out@[j].0 == k);
                            }
                        }
                    }
                },
                None => {
                    proof {
                        assert forall|k: K| old_self@.contains_key(k) && k.spec_ordinal() < i + 1 implies exists|j: int| 0 <= j < out@.len() && (#[trigger] out@[j]).0 == k by {
                            if k.spec_ordinal() == i {
                                assert(old_self.spec_slot(&k) is None);
                            }
                        }
                    }
                },
            }
            i = i + 1;
        }
        assert(old_self.map@.subrange(0, n as int) =~= old_self.map@);
        proof {
            assert forall|k: K| old_self@.contains_key(k) implies exists|j: int| 0 <= j < out@.len() && (#[trigger] out@[j]).0 == k by {
                K::lemma_ordinal_bound(&k);
            }
            assert(self@ =~= Map::<K, V>::empty());
        }
        out
    }

    /// Keeps the keys for which `keep` answers `true` and removes the others.
    pub(crate) fn retain(&mut self, keep: impl Fn(&K, &V) -> bool)
        requires
            old(self).wf(),
            forall|k: &K, v: &V| keep.requires((k, v)),
        ensures
            final(self).wf(),
            final(self).spec_allocated() == old(self).spec_allocated(),
            forall|k: K| #[trigger] final(self)@.contains_key(k) ==> old(self)@.contains_key(k) && final(self)@[k] == old(self)@[k] && keep.ensures((&k, &old(self)@[k]), true),
            forall|k: K| old(self)@.contains_key(k) && !final(self)@.contains_key(k) ==> #[trigger] keep.ensures((&k, &old(self)@[k]), false),
    {
        let ghost old_self = *self;
        let n = self.map.len();
        let mut i: usize = 0;
        while i < n
            invariant
                old_self == *old(self),
                self.wf(),
                n == self.map@.len(),
                n == old_self.map@.len(),
                i <= n,
                forall|k: &K, v: &V| keep.requires((k, v)),
                forall|j: int| i <= j < n ==> self.map@[j] == old_self.map@[j],
                forall|k: K| k.spec_ordinal() < i && #[trigger] self@.contains_key(k) ==> old_self@.contains_key(k) && self@[k] == old_self@[k] && keep.ensures((&k, &old_self@[k]), true),
                forall|k: K| k.spec_ordinal() < i && old_self@.contains_key(k) && !self@.contains_key(k) ==> #[trigger] keep.ensures((&k, &old_self@[k]), false),
            decreases n - i,
        {
            let ghost before = *self;
            if self.map[i].is_some() {
                let key = K::from_ordinal(i).unwrap();
                let v = self.map[i].as_ref().unwrap();
                let kept = keep(&key, v);
                proof {
                    assert(old_self.spec_slot(&key) is Some);
                    assert(old_self@[key] == *v);
                    assert(keep.ensures((&key, &old_self@[key]), kept));
                }
                if !kept {
                    self.map.set(i, None);
                }
                proof {
                    assert forall|k: K| k.spec_ordinal() != i implies #[trigger] self.spec_slot(&k) == before.spec_slot(&k) by {}
                    assert forall|k: K| k.spec_ordinal() == i implies k == key by {
                        K::lemma_ordinal_injective(&k, &key);
                    }
                    assert forall|k: K| k.spec_ordinal() < i + 1 && #[trigger] self@.contains_key(k) implies old_self@.contains_key(k) && self@[k] == old_self@[k] && keep.ensures((&k, &old_self@[k]), true) by {
                        if k.spec_ordinal() == i {
                            assert(k == key);
                        } else {
                            assert(before@.contains_key(k));
                        }
                    }
                }
            } else {
                proof {
                    assert forall|k: K| k.spec_ordinal() == i implies !old_self@.contains_key(k) by {}
                }
            }
            i = i + 1;
        }
        proof {
            assert forall|k: K| #[trigger] self@.contains_key(k) implies old_self@.contains_key(k) && self@[k] == old_self@[k] && keep.ensures((&k, &old_self@[k]), true) by {
                K::lemma_ordinal_bound(&k);
            }
            assert forall|k: K| old_self@.contains_key(k) && !self@.contains_key(k) implies #[trigger] keep.ensures((&k, &old_self@[k]), false) by {
                K::lemma_ordinal_bound(&k);
            }
        }
    }

    /// Empties the map, keeping the block.
    pub fn clear(&mut self)
        requires
            old(self).wf(),
        ensures
            final(self).wf(),
            final(self)@ == Map::<K, V>::empty(),
            final(self).spec_len() == 0,
            final(self).spec_allocated() == old(self).spec_allocated(),
    {
        let n = self.map.len();
        let mut i: usize = 0;
        while i < n
            invariant
                self.wf(),
                n == self.map@.len(),
                i <= n,
                forall|j: int| 0 <= j < i ==> self.map@[j] is None,
            decreases n - i,
        {
            self.map.set(i, None);
            i = i + 1;
        }
        proof {
            lemma_count_some_none(self.map@);
            assert(self@ =~= Map::<K, V>::empty());
        }
    }
}

impl<K: Ordinal, V> Default for OrdinalMap<K, V> {
    /// An empty map; no block is allocated.
    fn default() -> (r: Self)
        ensures
            K::spec_size_ok() ==> r.wf(),
            r@ == Map::<K, V>::empty(),
    {
        let r = OrdinalMap { map: Vec::new(), _phantom: PhantomData };
        assert(r@ =~= Map::<K, V>::empty());
        r
    }
}

} // verus!
