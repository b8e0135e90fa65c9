use std::collections::HashSet;

use ordinal_map::set::{ordinal_array_set_s, OrdinalArraySet, OrdinalSet, OrdinalSet64};
use ordinal_map::Ordinal;

struct Lcg(u64);

impl Lcg {
    fn next(&mut self) -> u64 {
        self.0 = self.0.wrapping_mul(6364136223846793005).wrapping_add(1442695040888963407);
        self.0 >> 33
    }
}

#[test]
fn test_all() {
    let set = OrdinalSet64::<(bool, bool)>::all();
    let mut iter = set.iter();
    assert_eq!(4, iter.len());
    for v in [(false, false), (false, true), (true, false), (true, true)] {
        assert!(set.contains(&v));
        assert_eq!(Some(v), iter.next());
    }
    assert_eq!(None, iter.next());
}

#[test]
fn bit_set_insert_twice() {
    let mut set: OrdinalSet<u16> = OrdinalSet::new();
    assert!(set.insert(1000));
    assert!(!set.insert(1000));
    let mut small: OrdinalSet64<bool> = OrdinalSet64::new();
    assert!(small.insert(true));
    assert!(!small.insert(true));
    let mut fixed: OrdinalArraySet<i8, 4> = OrdinalArraySet::new();
    assert!(fixed.insert(-1));
    assert!(!fixed.insert(-1));
}

#[test]
fn set64_iterates_both_ways() {
    let set = OrdinalSet64::from_values(vec![5u8 % 4 == 1, false]);
    let mut iter = set.iter();
    assert_eq!(2, iter.len());
    assert_eq!(Some(true), iter.next_back());
    assert_eq!(Some(false), iter.next());
    assert_eq!(None, iter.next());
    assert_eq!(None, iter.next_back());
    assert_eq!(0, iter.len());
}

#[test]
fn set_iterates_in_number_order() {
    let set = OrdinalSet::from_values(vec![300u16, 2, 70, 2, 65535]);
    let mut iter = set.iter();
    let mut seen = Vec::new();
    while let Some(v) = iter.next() {
        seen.push(v);
    }
    assert_eq!(vec![2, 70, 300, 65535], seen);
    let mut back = set.iter();
    assert_eq!(Some(65535), back.next_back());
    assert_eq!(Some(2), back.next());
}

#[test]
fn array_set_word_count() {
    assert_eq!(4, ordinal_array_set_s::<i8>());
    assert_eq!(1, ordinal_array_set_s::<bool>());
    assert_eq!(1, ordinal_array_set_s::<[bool; 0]>());
    assert_eq!(1024, ordinal_array_set_s::<u16>());
}

#[test]
fn empty_set_holds_nothing() {
    let set: OrdinalSet<u8> = OrdinalSet::new();
    for v in 0..=255u8 {
        assert!(!set.contains(&v));
    }
    assert_eq!(None, set.iter().next());
}

#[test]
fn array_set_matches_hash_set() {
    let mut rng = Lcg(3);
    let mut control: HashSet<i8> = HashSet::new();
    let mut set: OrdinalArraySet<i8, 4> = OrdinalArraySet::new();
    for _ in 0..1000 {
        let value = rng.next() as u8 as i8;
        assert_eq!(control.insert(value), set.insert(value));
        let probe = rng.next() as u8 as i8;
        assert_eq!(control.contains(&probe), set.contains(&probe));
    }
    let mut iter = set.iter();
    let mut seen = Vec::new();
    while let Some(v) = iter.next() {
        seen.push(v);
    }
    let mut expected: Vec<i8> = control.into_iter().collect();
    expected.sort();
    assert_eq!(expected, seen);
}

#[test]
fn set_matches_hash_set() {
    let mut rng = Lcg(11);
    let mut control: HashSet<u16> = HashSet::new();
    let mut set: OrdinalSet<u16> = OrdinalSet::new();
    for _ in 0..1000 {
        let value = rng.next() as u16;
        assert_eq!(control.insert(value), set.insert(value));
        let probe = rng.next() as u16;
        assert_eq!(control.contains(&probe), set.contains(&probe));
    }
}

#[test]
fn set64_matches_hash_set() {
    let mut rng = Lcg(5);
    let mut control: HashSet<(bool, Option<bool>)> = HashSet::new();
    let mut set: OrdinalSet64<(bool, Option<bool>)> = OrdinalSet64::new();
    for _ in 0..100 {
        let n = rng.next() as usize % 6;
        let value = <(bool, Option<bool>)>::from_ordinal(n).unwrap();
        assert_eq!(control.insert(value), set.insert(value));
        assert!(set.contains(&value));
    }
}
