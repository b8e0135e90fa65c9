use std::collections::HashMap;

use ordinal_map::map::{
    Entry, OrdinalArrayMap, OrdinalMap, OrdinalTotalArrayMap, OrdinalTotalMap,
};
use ordinal_map::Ordinal;

/// A small linear congruential generator, so that runs repeat exactly.
struct Lcg(u64);

impl Lcg {
    fn next(&mut self) -> u64 {
        self.0 = self.0.wrapping_mul(6364136223846793005).wrapping_add(1442695040888963407);
        self.0 >> 33
    }
}

#[test]
fn init_test() {
    let map: OrdinalTotalMap<bool, u32> = OrdinalTotalMap::new(|b: bool| if b { 1 } else { 0 });
    assert_eq!(0, *map.get(&false));
    assert_eq!(1, *map.get(&true));
}

#[test]
fn init_array_test() {
    let map: OrdinalTotalArrayMap<bool, u32, 2> = OrdinalTotalArrayMap::new(|b: bool| b as u32 + 10);
    assert_eq!(10, *map.get(&false));
    assert_eq!(11, *map.get(&true));
}

#[test]
fn init_map_test() {
    let map: Result<OrdinalTotalMap<u8, u8>, u8> =
        OrdinalTotalMap::try_new(|k: u8| if k < 200 { Ok(k) } else { Err(k) });
    assert_eq!(Some(200), map.err());
}

#[test]
fn array_map_test() {
    let mut map: OrdinalTotalArrayMap<Option<bool>, &str, 3> = OrdinalTotalArrayMap::new(|_k: Option<bool>| "");
    assert_eq!(3, map.len());
    assert_eq!("", map.insert(Some(true), "t"));
    assert_eq!(vec!["", "", "t"], map.into_values().to_vec());
}

#[test]
fn map_test() {
    let mut map: OrdinalTotalMap<u8, u64> = OrdinalTotalMap::new(|_k: u8| 0);
    for k in [3u8, 3, 7, 255] {
        *map.get_mut(&k) += 1;
    }
    assert_eq!(2, *map.get(&3));
    assert_eq!(1, *map.get(&7));
    assert_eq!(1, *map.get(&255));
    assert_eq!(0, *map.get(&0));
    assert_eq!(256, map.len());
}

#[test]
fn total_map_test() {
    let map: OrdinalTotalMap<bool, u32> = OrdinalTotalMap::new(|b: bool| b as u32);
    let doubled = map.map_values(|v: u32| v * 2);
    assert_eq!(vec![0, 2], doubled.into_values());
    let keyed: OrdinalTotalMap<bool, u32> = OrdinalTotalMap::new(|b: bool| b as u32);
    let with_keys = keyed.map(|k: bool, v: u32| if k { v + 100 } else { v });
    assert_eq!(101, *with_keys.get(&true));
    let a: OrdinalTotalMap<bool, u32> = OrdinalTotalMap::new(|b: bool| b as u32);
    let b: OrdinalTotalMap<bool, u32> = OrdinalTotalMap::new(|b: bool| 10 + b as u32);
    let sums = a.zip(b, |_k: bool, x: u32, y: u32| x + y);
    assert_eq!(vec![10, 12], sums.values().to_vec());
}

#[test]
fn total_map_iter_in_key_order() {
    let map: OrdinalTotalMap<Option<bool>, u8> = OrdinalTotalMap::new(|k: Option<bool>| k.ordinal() as u8 * 3);
    let items = map.iter();
    assert_eq!(vec![(None, &0u8), (Some(false), &3), (Some(true), &6)], items);
}

#[test]
fn total_array_map_from_array() {
    let map: OrdinalTotalArrayMap<bool, &str, 2> = OrdinalTotalArrayMap::from_array(["no", "yes"]);
    assert_eq!("no", *map.get(&false));
    assert_eq!("yes", *map.get(&true));
}

#[test]
fn empty_partial_map() {
    let map: OrdinalMap<u16, u32> = OrdinalMap::new();
    assert_eq!(0, map.len());
    for k in [0u16, 1, 1000, u16::MAX] {
        assert_eq!(None, map.get(&k));
        assert!(!map.contains_key(&k));
    }
    assert!(map.iter().is_empty());
    assert!(map.keys().is_empty());
}

#[test]
fn partial_map_insert_remove() {
    let mut map: OrdinalMap<i8, &str> = OrdinalMap::new();
    assert_eq!(None, map.insert(-3, "a"));
    assert_eq!(Some("a"), map.insert(-3, "b"));
    assert_eq!(None, map.insert(5, "c"));
    assert_eq!(2, map.len());
    assert_eq!(Some(&"b"), map.get(&-3));
    assert_eq!(Some("b"), map.remove(&-3));
    assert_eq!(None, map.remove(&-3));
    assert!(!map.contains_key(&-3));
    assert_eq!(1, map.len());
    assert_eq!(vec![5i8], map.keys());
    map.clear();
    assert_eq!(0, map.len());
}

#[test]
fn partial_map_entry() {
    let mut map: OrdinalMap<bool, u32> = OrdinalMap::new();
    match map.entry(true) {
        Entry::Vacant(e) => {
            assert!(*e.key());
            e.insert(5);
        }
        Entry::Occupied(_) => panic!("entry should be vacant"),
    }
    *map.entry(true).or_insert(0) += 1;
    *map.entry(false).or_insert(7) += 1;
    assert_eq!(Some(&6), map.get(&true));
    assert_eq!(Some(&8), map.get(&false));
    if let Entry::Occupied(mut e) = map.entry(false) {
        assert_eq!(8, *e.get());
        *e.get_mut() = 9;
    }
    assert_eq!(Some(&9), map.get(&false));
}

#[test]
fn partial_map_drain_and_from_pairs() {
    let mut map = OrdinalMap::from_pairs(vec![(3u8, 'a'), (1, 'b'), (3, 'c')]);
    assert_eq!(2, map.len());
    assert_eq!(Some(&'c'), map.get(&3));
    let drained = map.drain();
    assert_eq!(vec![(1u8, 'b'), (3, 'c')], drained);
    assert_eq!(0, map.len());
    assert_eq!(None, map.get(&1));
}

#[test]
fn array_map_retain_and_values() {
    let mut map: OrdinalArrayMap<u8, u32, 256> = OrdinalArrayMap::new();
    for k in 0..10u8 {
        map.insert(k, k as u32 * 10);
    }
    map.retain(|k: &u8, _v: &u32| k % 2 == 0);
    assert_eq!(5, map.len());
    assert_eq!(vec![&0, &20, &40, &60, &80], map.values());
    assert!(map.get(&3).is_none());
    assert!(!map.is_empty());
}

#[test]
fn partial_map_matches_hash_map() {
    let mut rng = Lcg(42);
    let mut map: OrdinalMap<u8, u32> = OrdinalMap::new();
    let mut control: HashMap<u8, u32> = HashMap::new();
    for _ in 0..2000 {
        let key = (rng.next() % 64) as u8;
        let value = rng.next() as u32;
        match rng.next() % 3 {
            0 | 1 => assert_eq!(control.insert(key, value), map.insert(key, value)),
            _ => assert_eq!(control.remove(&key), map.remove(&key)),
        }
        assert_eq!(control.len(), map.len());
        let probe = (rng.next() % 256) as u8;
        assert_eq!(control.get(&probe), map.get(&probe));
    }
}

#[test]
fn array_map_matches_hash_map() {
    let mut rng = Lcg(7);
    let mut map: OrdinalArrayMap<bool, u32, 2> = OrdinalArrayMap::new();
    let mut control: HashMap<bool, u32> = HashMap::new();
    for _ in 0..200 {
        let key = rng.next() % 2 == 0;
        let value = rng.next() as u32;
        if rng.next() % 2 == 0 {
            assert_eq!(control.insert(key, value), map.insert(key, value));
        } else {
            assert_eq!(control.remove(&key), map.remove(&key));
        }
        assert_eq!(control.len(), map.len());
        assert_eq!(control.contains_key(&key), map.contains_key(&key));
    }
}
