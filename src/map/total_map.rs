//! Total maps: a value for every possible key, held in one block indexed
//! by the key's number.

use crate::ordinal::Ordinal;
use crate::values::OrdinalValues;
use std::marker::PhantomData;
use vstd::prelude::*;

verus! {

/// Map in which every key of `K` has a value, kept on the heap in one
/// contiguous block of `K`'s size, in order of key numbers.
pub struct OrdinalTotalMap<K, V> {
    map: Vec<V>,
    _phantom: PhantomData<K>,
}

impl<K: Ordinal, V> View for OrdinalTotalMap<K, V> {
    /// The values, the one for the key numbered `i` at index `i`.
    type V = Seq<V>;

    closed spec fn view(&self) -> Seq<V> {
        self.map@
    }
}

impl<K: Ordinal, V> OrdinalTotalMap<K, V> {
    /// One value per key: the block is as long as `K`'s size.
    pub closed spec fn wf(&self) -> bool {
        &&& K::spec_size_ok()
        &&& self.map@.len() == K::spec_size()
    }

    /// The value for `key`.
    pub open spec fn spec_get(&self, key: &K) -> V {
        self@[key.spec_ordinal() as int]
    }

    /// A well-formed map holds one value per key.
    pub proof fn lemma_view_len(&self)
        requires
            self.wf(),
        ensures
            self@.len() == K::spec_size(),
            K::spec_size() <= usize::MAX,
    {
        K::lemma_size_ok();
    }

    /// A map whose value for each key `k` is `init(k)`, or the first error
    /// that `init` gives, keys taken in order of their numbers.
    pub fn try_new<E>(init: impl Fn(K) -> Result<V, E>) -> (r: Result<Self, E>)
        requires
            K::spec_size_ok(),
            forall|k: K| init.requires((k,)),
        ensures
            r matches Ok(m) ==> m.wf() && forall|k: K| init.ensures((k,), Ok(#[trigger] m.spec_get(&k))),
            r is Err ==> exists|k: K| #[trigger] init.ensures((k,), Err::<V, E>(r->Err_0)),
    {
        proof {
            K::lemma_size_ok();
        }
        let n = K::ordinal_size();
        let mut map: Vec<V> = Vec::with_capacity(n);
        let mut i: usize = 0;
        while i < n
            invariant
                K::spec_size_ok(),
                n == K::spec_size(),
                i <= n,
                map@.len() == i,
                forall|k: K| init.requires((k,)),
                forall|k: K| #[trigger] k.spec_ordinal() < i ==> init.ensures((k,), Ok(map@[k.spec_ordinal() as int])),
            decreases n - i,
        {
            let key = K::from_ordinal(i).unwrap();
            let res = init(key);
            match res {
                Ok(v) => {
                    let ghost old_map = map@;
                    map.push(v);
                    proof {
                        assert forall|k: K| #[trigger] k.spec_ordinal() < i + 1 implies init.ensures((k,), Ok(map@[k.spec_ordinal() as int])) by {
                            if k.spec_ordinal() == i {
                                K::lemma_ordinal_injective(&k, &key);
                            } else {
                                assert(map@[k.spec_ordinal() as int] == old_map[k.spec_ordinal() as int]);
                            }
                        }
                    }
                },
                Err(e) => {
                    let r: Result<Self, E> = Err(e);
                    proof {
                        assert(init.ensures((key,), Err::<V, E>(r->Err_0)));
                    }
                    return r;
                },
            }
            i = i + 1;
        }
        let r = OrdinalTotalMap { map, _phantom: PhantomData };
        proof {
            assert forall|k: K| init.ensures((k,), Ok(#[trigger] r.spec_get(&k))) by {
                K::lemma_ordinal_bound(&k);
            }
        }
        Ok(r)
    }

    /// A map whose value for each key `k` is `init(k)`.
    pub fn new(init: impl Fn(K) -> V) -> (r: Self)
        requires
            K::spec_size_ok(),
            forall|k: K| init.requires((k,)),
        ensures
            r.wf(),
            forall|k: K| init.ensures((k,), #[trigger] r.spec_get(&k)),
    {
        proof {
            K::lemma_size_ok();
        }
        let n = K::ordinal_size();
        let mut map: Vec<V> = Vec::with_capacity(n);
        let mut i: usize = 0;
        while i < n
            invariant
                K::spec_size_ok(),
                n == K::spec_size(),
                i <= n,
                map@.len() == i,
                forall|k: K| init.requires((k,)),
                forall|k: K| #[trigger] k.spec_ordinal() < i ==> init.ensures((k,), map@[k.spec_ordinal() as int]),
            decreases n - i,
        {
            let key = K::from_ordinal(i).unwrap();
            let v = init(key);
            let ghost old_map = map@;
            map.push(v);
            proof {
                assert forall|k: K| #[trigger] k.spec_ordinal() < i + 1 implies init.ensures((k,), map@[k.spec_ordinal() as int]) by {
                    if k.spec_ordinal() == i {
                        K::lemma_ordinal_injective(&k, &key);
                    } else {
                        assert(map@[k.spec_ordinal() as int] == old_map[k.spec_ordinal() as int]);
                    }
                }
            }
            i = i + 1;
        }
        let r = OrdinalTotalMap { map, _phantom: PhantomData };
        proof {
            assert forall|k: K| init.ensures((k,), #[trigger] r.spec_get(&k)) by {
                K::lemma_ordinal_bound(&k);
            }
        }
        r
    }

    /// The map whose values are `values`, the one for the key numbered `i` at index `i`.
    pub(crate) fn from_vec(values: Vec<V>) -> (r: Self)
        requires
            K::spec_size_ok(),
            values@.len() == K::spec_size(),
        ensures
            r.wf(),
            r@ == values@,
    {
        OrdinalTotalMap { map: values, _phantom: PhantomData }
    }

    /// Number of entries: always `K`'s size.
    pub fn len(&self) -> (r: usize)
        requires
            self.wf(),
        ensures
            r == K::spec_size(),
    {
        K::ordinal_size()
    }

    /// Whether `K` has no values at all.
    pub fn is_empty(&self) -> (r: bool)
        requires
            self.wf(),
        ensures
            r <==> K::spec_size() == 0,
    {
        K::ordinal_size() == 0
    }

    /// The value for `key`.
    pub fn get(&self, key: &K) -> (r: &V)
        requires
            self.wf(),
        ensures
            *r == self.spec_get(key),
    {
        proof {
            K::lemma_ordinal_bound(key);
        }
        &self.map[key.ordinal()]
    }

    /// The value for `key`, to change in place.
    pub fn get_mut(&mut self, key: &K) -> (r: &mut V)
        requires
            old(self).wf(),
        ensures
            *r == old(self).spec_get(key),
            final(self).wf(),
            final(self)@ == old(self)@.update(key.spec_ordinal() as int, *final(r)),
    {
        proof {
            K::lemma_ordinal_bound(key);
        }
        let i = key.ordinal();
        &mut self.map[i]
    }

    /// Replaces the value for `key` by `value` and returns the one it held.
    pub fn insert(&mut self, key: K, value: V) -> (r: V)
        requires
            old(self).wf(),
        ensures
            r == old(self).spec_get(&key),
            final(self).wf(),
            final(self)@ == old(self)@.update(key.spec_ordinal() as int, value),
    {
        proof {
            K::lemma_ordinal_bound(&key);
        }
        let i = key.ordinal();
        let mut v = value;
        std::mem::swap(&mut self.map[i], &mut v);
        v
    }

    /// The keys: all values of `K`, in order of their numbers.
    pub fn keys(&self) -> (r: OrdinalValues<K>)
        requires
            self.wf(),
        ensures
            r.wf(),
            r.spec_start() == 0,
            r.spec_end() == K::spec_size(),
    {
        OrdinalValues::new()
    }

    /// The keys, taking the map: all values of `K`, in order of their numbers.
    pub fn into_keys(self) -> (r: OrdinalValues<K>)
        requires
            self.wf(),
        ensures
            r.wf(),
            r.spec_start() == 0,
            r.spec_end() == K::spec_size(),
    {
        OrdinalValues::new()
    }

    /// The values, in order of their keys' numbers.
    pub fn values(&self) -> (r: &[V])
        requires
            self.wf(),
        ensures
            r@ == self@,
    {
        self.map.as_slice()
    }

    /// The values, in order of their keys' numbers, to change in place.
    pub fn values_mut(&mut self) -> (r: &mut [V])
        requires
            old(self).wf(),
        ensures
            r@ == old(self)@,
            final(self)@ == final(r)@,
    {
        self.map.as_mut_slice()
    }

    /// The values, taking the map, in order of their keys' numbers.
    pub fn into_values(self) -> (r: Vec<V>)
        requires
            self.wf(),
        ensures
            r@ == self@,
    {
        self.map
    }

    /// The map whose value for each key is `f` of the key and this map's value.
    pub fn map<W>(self, f: impl Fn(K, V) -> W) -> (r: OrdinalTotalMap<K, W>)
        requires
            self.wf(),
            forall|k: K, v: V| f.requires((k, v)),
        ensures
            r.wf(),
            forall|k: K| f.ensures((k, self.spec_get(&k)), #[trigger] r.spec_get(&k)),
    {
        proof {
            self.lemma_view_len();
        }
        let ghost all = self.map@;
        let n = self.map.len();
        let mut rest = self.map;
        let mut reversed: Vec<V> = Vec::with_capacity(n);
        while rest.len() > 0
            invariant
                all.len() == rest@.len() + reversed@.len(),
                rest@ == all.subrange(0, rest@.len() as int),
                forall|j: int| 0 <= j < reversed@.len() ==> #[trigger] reversed@[j] == all[all.len() - 1 - j],
            decreases rest@.len(),
        {
            let v = rest.pop().unwrap();
            reversed.push(v);
        }
        let mut out: Vec<W> = Vec::with_capacity(n);
        while reversed.len() > 0
            invariant
                K::spec_size_ok(),
                n == all.len(),
                n == K::spec_size(),
                out@.len() + reversed@.len() == n,
                forall|j: int| 0 <= j < reversed@.len() ==> #[trigger] reversed@[j] == all[n - 1 - j],
                forall|k: K, v: V| f.requires((k, v)),
                forall|k: K| #[trigger] k.spec_ordinal() < out@.len() ==> f.ensures((k, all[k.spec_ordinal() as int]), out@[k.spec_ordinal() as int]),
            decreases reversed@.len(),
        {
            let i = out.len();
            let v = reversed.pop().unwrap();
            let key = K::from_ordinal(i).unwrap();
            let ghost key_g = key;
            let w = f(key, v);
            let ghost old_out = out@;
            out.push(w);
            proof {
                assert forall|k: K| #[trigger] k.spec_ordinal() < out@.len() implies f.ensures((k, all[k.spec_ordinal() as int]), out@[k.spec_ordinal() as int]) by {
                    if k.spec_ordinal() == i {
                        K::lemma_ordinal_injective(&k, &key_g);
                    } else {
                        assert(out@[k.spec_ordinal() as int] == old_out[k.spec_ordinal() as int]);
                    }
                }
            }
        }
        let r = OrdinalTotalMap { map: out, _phantom: PhantomData };
        proof {
            assert forall|k: K| f.ensures((k, self.spec_get(&k)), #[trigger] r.spec_get(&k)) by {
                K::lemma_ordinal_bound(&k);
            }
        }
        r
    }

    /// The map whose value for each key is `f` of the key and the two maps' values.
    pub fn zip<W, X>(self, other: OrdinalTotalMap<K, W>, f: impl Fn(K, V, W) -> X) -> (r: OrdinalTotalMap<K, X>)
        requires
            self.wf(),
            other.wf(),
            forall|k: K, v: V, w: W| f.requires((k, v, w)),
        ensures
            r.wf(),
            forall|k: K| f.ensures((k, self.spec_get(&k), other.spec_get(&k)), #[trigger] r.spec_get(&k)),
    {
        proof {
            self.lemma_view_len();
        }
        let ghost all = self.map@;
        let ghost all_w = other.map@;
        let n = self.map.len();
        let mut rest = self.map;
        let mut rest_w = other.map;
        let mut reversed: Vec<V> = Vec::with_capacity(n);
        let mut reversed_w: Vec<W> = Vec::with_capacity(n);
        while rest.len() > 0
            invariant
                all.len() == all_w.len(),
                all.len() == rest@.len() + reversed@.len(),
                rest_w@.len() == rest@.len(),
                reversed_w@.len() == reversed@.len(),
                rest@ == all.subrange(0, rest@.len() as int),
                rest_w@ == all_w.subrange(0, rest@.len() as int),
                forall|j: int| 0 <= j < reversed@.len() ==> #[trigger] reversed@[j] == all[all.len() - 1 - j],
                forall|j: int| 0 <= j < reversed_w@.len() ==> #[trigger] reversed_w@[j] == all_w[all.len() - 1 - j],
            decreases rest@.len(),
        {
            let v = rest.pop().unwrap();
            reversed.push(v);
            let w = rest_w.pop().unwrap();
            reversed_w.push(w);
        }
        let mut out: Vec<X> = Vec::with_capacity(n);
        while reversed.len() > 0
            invariant
                K::spec_size_ok(),
                n == all.len(),
                n == K::spec_size(),
                out@.len() + reversed@.len() == n,
                reversed_w@.len() == reversed@.len(),
                forall|j: int| 0 <= j < reversed@.len() ==> #[trigger] reversed@[j] == all[n - 1 - j],
                forall|j: int| 0 <= j < reversed_w@.len() ==> #[trigger] reversed_w@[j] == all_w[n - 1 - j],
                forall|k: K, v: V, w: W| f.requires((k, v, w)),
                forall|k: K| #[trigger] k.spec_ordinal() < out@.len() ==> f.ensures((k, all[k.spec_ordinal() as int], all_w[k.spec_ordinal() as int]), out@[k.spec_ordinal() as int]),
            decreases reversed@.len(),
        {
            let i = out.len();
            let v = reversed.pop().unwrap();
            let w = reversed_w.pop().unwrap();
            let key = K::from_ordinal(i).unwrap();
            let ghost key_g = key;
            let x = f(key, v, w);
            let ghost old_out = out@;
            out.push(x);
            proof {
                assert forall|k: K| #[trigger] k.spec_ordinal() < out@.len() implies f.ensures((k, all[k.spec_ordinal() as int], all_w[k.spec_ordinal() as int]), out@[k.spec_ordinal() as int]) by {
                    if k.spec_ordinal() == i {
                        K::lemma_ordinal_injective(&k, &key_g);
                    } else {
                        assert(out@[k.spec_ordinal() as int] == old_out[k.spec_ordinal() as int]);
                    }
                }
            }
        }
        let r = OrdinalTotalMap { map: out, _phantom: PhantomData };
        proof {
            assert forall|k: K| f.ensures((k, self.spec_get(&k), other.spec_get(&k)), #[trigger] r.spec_get(&k)) by {
                K::lemma_ordinal_bound(&k);
            }
        }
        r
    }

    /// The map whose value for each key is `f` of this map's value.
    pub fn map_values<W>(self, f: impl Fn(V) -> W) -> (r: OrdinalTotalMap<K, W>)
        requires
            self.wf(),
            forall|v: V| f.requires((v,)),
        ensures
            r.wf(),
            forall|k: K| f.ensures((self.spec_get(&k),), #[trigger] r.spec_get(&k)),
    {
        proof {
            self.lemma_view_len();
        }
        let ghost all = self.map@;
        let n = self.map.len();
        let mut rest = self.map;
        let mut reversed: Vec<V> = Vec::with_capacity(n);
        while rest.len() > 0
            invariant
                all.len() == rest@.len() + reversed@.len(),
                rest@ == all.subrange(0, rest@.len() as int),
                forall|j: int| 0 <= j < reversed@.len() ==> #[trigger] reversed@[j] == all[all.len() - 1 - j],
            decreases rest@.len(),
        {
            let v = rest.pop().unwrap();
            reversed.push(v);
        }
        let mut out: Vec<W> = Vec::with_capacity(n);
        while reversed.len() > 0
            invariant
                n == all.len(),
                out@.len() + reversed@.len() == n,
                forall|j: int| 0 <= j < reversed@.len() ==> #[trigger] reversed@[j] == all[n - 1 - j],
                forall|v: V| f.requires((v,)),
                forall|j: int| 0 <= j < out@.len() ==> f.ensures((all[j],), #[trigger] out@[j]),
            decreases reversed@.len(),
        {
            let v = reversed.pop().unwrap();
            let w = f(v);
            out.push(w);
        }
        let r = OrdinalTotalMap { map: out, _phantom: PhantomData };
        proof {
            assert forall|k: K| f.ensures((self.spec_get(&k),), #[trigger] r.spec_get(&k)) by {
                K::lemma_ordinal_bound(&k);
            }
        }
        r
    }

    /// Each key with its value, in order of key numbers.
    pub fn iter(&self) -> (r: Vec<(K, &V)>)
        requires
            self.wf(),
        ensures
            r@.len() == K::spec_size(),
            forall|i: int| 0 <= i < r@.len() ==> {
                &&& (#[trigger] r@[i]).0.spec_ordinal() == i
                &&& *r@[i].1 == self@[i]
            },
    {
        proof {
            self.lemma_view_len();
        }
        let n = K::ordinal_size();
        let mut out: Vec<(K, &V)> = Vec::with_capacity(n);
        let mut i: usize = 0;
        while i < n
            invariant
                self.wf(),
                n == K::spec_size(),
                i <= n,
                out@.len() == i,
                forall|j: int| 0 <= j < i ==> {
                    &&& (#[trigger] out@[j]).0.spec_ordinal() == j
                    &&& *out@[j].1 == self@[j]
                },
            decreases n - i,
        {
            let key = K::from_ordinal(i).unwrap();
            out.push((key, &self.map[i]));
            i = i + 1;
        }
        out
    }
}

} // verus!
