//! Total maps of fixed capacity: the capacity is a parameter of the type
//! and must equal the key type's size.

use crate::array::array_from_vec;
use crate::map::total_map::OrdinalTotalMap;
use crate::ordinal::Ordinal;
use crate::values::OrdinalValues;
use vstd::prelude::*;

verus! {

/// Map in which every key of `K` has a value, in a block of `S` slots made
/// with the map; `S` must be the size of `K`.
pub struct OrdinalTotalArrayMap<K, V, const S: usize> {
    map: OrdinalTotalMap<K, V>,
}

/// Relies on `Vec::from([T; N])`, which moves the array's elements, in
/// order, into a new vector.
#[verifier::external_body]
fn vec_from_array<T, const N: usize>(array: [T; N]) -> (r: Vec<T>)
    ensures
        r@ == array@,
{
    Vec::from(array)
}

impl<K: Ordinal, V, const S: usize> View for OrdinalTotalArrayMap<K, V, S> {
    /// The values, the one for the key numbered `i` at index `i`.
    type V = Seq<V>;

    closed spec fn view(&self) -> Seq<V> {
        self.map@
    }
}

impl<K: Ordinal, V, const S: usize> OrdinalTotalArrayMap<K, V, S> {
    /// One value per key, and the capacity is the key type's size.
    pub closed spec fn wf(&self) -> bool {
        &&& self.map.wf()
        &&& S == K::spec_size()
    }

    /// The value for `key`.
    pub open spec fn spec_get(&self, key: &K) -> V {
        self@[key.spec_ordinal() as int]
    }

    /// that `init` gives, keys taken in order of their numbers.
    pub fn try_new<E>(init: impl Fn(K) -> Result<V, E>) -> (r: Result<Self, E>)
        requires
            K::spec_size_ok(),
            S == K::spec_size(),
            forall|k: K| init.requires((k,)),
        ensures
            r matches Ok(m) ==> m.wf() && forall|k: K| init.ensures((k,), Ok(#[trigger] m.spec_get(&k))),
            r is Err ==> exists|k: K| #[trigger] init.ensures((k,), Err::<V, E>(r->Err_0)),
    {
        let res = OrdinalTotalMap::try_new(init);
        match res {
            Ok(map) => {
                let m = OrdinalTotalArrayMap { map };
                assert forall|k: K| init.ensures((k,), Ok(#[trigger] m.spec_get(&k))) by {
                    assert(m.spec_get(&k) == map.spec_get(&k));
                }
                Ok(m)
            },
            Err(e) => {
                let r: Result<Self, E> = Err(e);
                assert(exists|k: K| #[trigger] init.ensures((k,), Err::<V, E>(r->Err_0))) by {
                    let k = choose|k: K| #[trigger] init.ensures((k,), Err::<V, E>(e));
                    assert(init.ensures((k,), Err::<V, E>(r->Err_0)));
                }
                r
            },
        }
    }

    /// A map whose value for each key `k` is `init(k)`.
    pub fn new(init: impl Fn(K) -> V) -> (r: Self)
        requires
            K::spec_size_ok(),
            S == K::spec_size(),
            forall|k: K| init.requires((k,)),
        ensures
            r.wf(),
            forall|k: K| init.ensures((k,), #[trigger] r.spec_get(&k)),
    {
        let map = OrdinalTotalMap::new(init);
        let r = OrdinalTotalArrayMap { map };
        assert forall|k: K| init.ensures((k,), #[trigger] r.spec_get(&k)) by {
            assert(r.spec_get(&k) == map.spec_get(&k));
        }
        r
    }

    /// Number of entries: always `K`'s size.
    pub fn len(&self) -> (r: usize)
        requires
            self.wf(),
        ensures
            r == K::spec_size(),
    {
        self.map.len()
    }

    /// Whether `K` has no values at all.
    pub fn is_empty(&self) -> (r: bool)
        requires
            self.wf(),
        ensures
            r <==> K::spec_size() == 0,
    {
        self.map.is_empty()
    }

    /// The value for `key`.
    pub fn get(&self, key: &K) -> (r: &V)
        requires
            self.wf(),
        ensures
            *r == self.spec_get(key),
    {
        self.map.get(key)
    }

    /// The value for `key`, to change in place.
    pub fn get_mut(&mut self, key: &K) -> (r: &mut V)
        requires
            old(self).wf(),
        ensures
            *r == old(self).spec_get(key),
            final(self).wf(),
            final(self)@ == old(self)@.update(key.spec_ordinal() as int, *final(r)),
    {
        self.map.get_mut(key)
    }

    /// Replaces the value for `key` by `value` and returns the one it held.
    pub fn insert(&mut self, key: K, value: V) -> (r: V)
        requires
            old(self).wf(),
        ensures
            r == old(self).spec_get(&key),
            final(self).wf(),
            final(self)@ == old(self)@.update(key.spec_ordinal() as int, value),
    {
        self.map.insert(key, value)
    }

    /// The keys: all values of `K`, in order of their numbers.
    pub fn keys(&self) -> (r: OrdinalValues<K>)
        requires
            self.wf(),
        ensures
            r.wf(),
            r.spec_start() == 0,
            r.spec_end() == K::spec_size(),
    {
        self.map.keys()
    }

    /// The keys, taking the map: all values of `K`, in order of their numbers.
    pub fn into_keys(self) -> (r: OrdinalValues<K>)
        requires
            self.wf(),
        ensures
            r.wf(),
            r.spec_start() == 0,
            r.spec_end() == K::spec_size(),
    {
        self.map.into_keys()
    }

    /// The values, in order of their keys' numbers.
    pub fn values(&self) -> (r: &[V])
        requires
            self.wf(),
        ensures
            r@ == self@,
    {
        self.map.values()
    }

    /// The values, in order of their keys' numbers, to change in place.
    pub fn values_mut(&mut self) -> (r: &mut [V])
        requires
            old(self).wf(),
        ensures
            r@ == old(self)@,
            final(self)@ == final(r)@,
    {
        self.map.values_mut()
    }

    /// The values, taking the map, in order of their keys' numbers.
    pub fn into_values(self) -> (r: [V; S])
        requires
            self.wf(),
        ensures
            r@ == self@,
    {
        proof {
            self.map.lemma_view_len();
        }
        let values = self.map.into_values();
        array_from_vec::<V, S>(values).unwrap()
    }

    /// The map whose value for each key is `f` of the key and this map's value.
    pub fn map<W>(self, f: impl Fn(K, V) -> W) -> (r: OrdinalTotalArrayMap<K, W, S>)
        requires
            self.wf(),
            forall|k: K, v: V| f.requires((k, v)),
        ensures
            r.wf(),
            forall|k: K| f.ensures((k, self.spec_get(&k)), #[trigger] r.spec_get(&k)),
    {
        let ghost old_self = self;
        let map = self.map.map(f);
        let r = OrdinalTotalArrayMap { map };
        assert forall|k: K| f.ensures((k, old_self.spec_get(&k)), #[trigger] r.spec_get(&k)) by {
            assert(r.spec_get(&k) == map.spec_get(&k));
            assert(old_self.spec_get(&k) == old_self.map.spec_get(&k));
        }
        r
    }

    /// The map whose value for each key is `f` of this map's value.
    pub fn map_values<W>(self, f: impl Fn(V) -> W) -> (r: OrdinalTotalArrayMap<K, W, S>)
        requires
            self.wf(),
            forall|v: V| f.requires((v,)),
        ensures
            r.wf(),
            forall|k: K| f.ensures((self.spec_get(&k),), #[trigger] r.spec_get(&k)),
    {
        let ghost old_self = self;
        let map = self.map.map_values(f);
        let r = OrdinalTotalArrayMap { map };
        assert forall|k: K| f.ensures((old_self.spec_get(&k),), #[trigger] r.spec_get(&k)) by {
            assert(r.spec_get(&k) == map.spec_get(&k));
            assert(old_self.spec_get(&k) == old_self.map.spec_get(&k));
        }
        r
    }

    /// The map whose value for each key is `f` of the key and the two maps' values.
    pub fn zip<W, X>(self, other: OrdinalTotalArrayMap<K, W, S>, f: impl Fn(K, V, W) -> X) -> (r: OrdinalTotalArrayMap<K, X, S>)
        requires
            self.wf(),
            other.wf(),
            forall|k: K, v: V, w: W| f.requires((k, v, w)),
        ensures
            r.wf(),
            forall|k: K| f.ensures((k, self.spec_get(&k), other.spec_get(&k)), #[trigger] r.spec_get(&k)),
    {
        let ghost old_self = self;
        let ghost old_other = other;
        let map = self.map.zip(other.map, f);
        let r = OrdinalTotalArrayMap { map };
        assert forall|k: K| f.ensures((k, old_self.spec_get(&k), old_other.spec_get(&k)), #[trigger] r.spec_get(&k)) by {
            assert(r.spec_get(&k) == map.spec_get(&k));
            assert(old_self.spec_get(&k) == old_self.map.spec_get(&k));
            assert(old_other.spec_get(&k) == old_other.map.spec_get(&k));
        }
        r
    }

    /// The map whose values are the elements of `array`, the one for the key
    /// numbered `i` at index `i`.
    pub fn from_array(array: [V; S]) -> (r: Self)
        requires
            K::spec_size_ok(),
            S == K::spec_size(),
        ensures
            r.wf(),
            r@ == array@,
    {
        proof {
            vstd::array::array_len_matches_n(&array);
        }
        OrdinalTotalArrayMap { map: OrdinalTotalMap::from_vec(vec_from_array(array)) }
    }

    /// Each key with its value, in order of key numbers.
    pub fn iter(&self) -> (r: Vec<(K, &V)>)
        requires
            self.wf(),
        ensures
            r@.len() == K::spec_size(),
            forall|i: int| 0 <= i < r@.len() ==> {
                &&& (#[trigger] r@[i]).0.spec_ordinal() == i
                &&& *r@[i].1 == self@[i]
            },
    {
        self.map.iter()
    }
}

} // verus!
