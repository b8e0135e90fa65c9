use std::cmp::Ordering;
use std::fmt::Debug;

use ordinal_map::all_values;
use ordinal_map::Ordinal;

fn test_ordinal_value<T: Ordinal + Eq + Debug>(value: T) {
    let ordinal = value.ordinal();
    assert_eq!(value, T::from_ordinal(ordinal).unwrap());
}

fn test_ordinal_some<T: Ordinal + Eq + Debug>() {
    let size = T::ordinal_size();
    if size > 0 {
        test_ordinal_value(T::from_ordinal(0).unwrap());
        test_ordinal_value(T::from_ordinal(size - 1).unwrap());
    }
    assert!(T::from_ordinal(size).is_none());
    if size < usize::MAX {
        assert!(T::from_ordinal(usize::MAX).is_none());
    }
}

fn collect_all<T: Ordinal>() -> Vec<T> {
    let mut iter = all_values::<T>();
    let mut out = Vec::new();
    while let Some(v) = iter.next() {
        out.push(v);
    }
    out
}

fn test_ordinal<T: Ordinal + Ord + Eq + Debug>(expected: impl IntoIterator<Item = T>) {
    let expected = Vec::from_iter(expected);

    for (a, b) in expected.iter().zip(expected.iter().skip(1)) {
        assert!(a < b);
    }

    assert_eq!(expected.len(), T::ordinal_size());
    assert_eq!(expected, collect_all::<T>());

    for i in 0..T::ordinal_size() {
        let t = T::from_ordinal(i).unwrap();
        assert_eq!(t, expected[i]);
        assert_eq!(i, t.ordinal());
    }

    assert_eq!(None, T::from_ordinal(T::ordinal_size()));

    test_ordinal_some::<T>();
}

#[test]
fn test_bool() {
    test_ordinal::<bool>([false, true]);
}

#[test]
fn test_u8() {
    test_ordinal::<u8>(0..=255);
}

#[test]
fn test_i8() {
    test_ordinal::<i8>(i8::MIN..=i8::MAX);
}

#[test]
fn test_u16() {
    test_ordinal::<u16>(0..=u16::MAX);
}

#[test]
fn test_i16() {
    test_ordinal::<i16>(i16::MIN..=i16::MAX);
}

#[test]
fn test_u32() {
    if usize::BITS == 64 {
        let mut iter = all_values::<u32>();
        assert_eq!(u32::MAX as usize + 1, iter.len());
        assert_eq!(Some(0), iter.next());
        assert_eq!(Some(1), iter.next());
        assert_eq!(Some(u32::MAX), iter.next_back());
    }
}

#[test]
fn test_i32() {
    if usize::BITS == 64 {
        let mut iter = all_values::<i32>();
        assert_eq!(u32::MAX as usize + 1, iter.len());
        assert_eq!(Some(i32::MIN), iter.next());
        assert_eq!(Some(i32::MAX), iter.next_back());
    }
}

#[test]
fn test_char() {
    test_ordinal((0..=(char::MAX as u32)).filter_map(char::from_u32))
}

#[test]
fn test_ordering() {
    test_ordinal([Ordering::Less, Ordering::Equal, Ordering::Greater]);
}

#[test]
fn test_option() {
    test_ordinal([None, Some(false), Some(true)]);
}

#[test]
fn test_result() {
    test_ordinal([
        Ok(false),
        Ok(true),
        Err(None),
        Err(Some(false)),
        Err(Some(true)),
    ]);
}

#[test]
fn test_box() {
    test_ordinal([Box::new(false), Box::new(true)])
}

#[test]
fn test_tuple_0() {
    test_ordinal([()]);
}

#[test]
fn test_tuple_1() {
    test_ordinal((0..=255u8).map(|i| (i,)));
}

#[test]
fn test_tuple_2() {
    test_ordinal((0..=255u8).flat_map(|i| [false, true].map(move |b| (i, b))));
}

#[test]
fn test_tuple_3() {
    test_ordinal((0..=255u8).flat_map(|i| {
        [false, true]
            .into_iter()
            .flat_map(move |b| [None, Some(false), Some(true)].map(move |o| (i, b, o)))
    }));
}

#[test]
fn bool_pair_numbers_in_row_major_order() {
    assert_eq!(4, <(bool, bool)>::ordinal_size());
    let expected = [(false, false), (false, true), (true, false), (true, true)];
    for (i, v) in expected.iter().enumerate() {
        assert_eq!(i, v.ordinal());
        assert_eq!(Some(*v), <(bool, bool)>::from_ordinal(i));
    }
    assert_eq!(None, <(bool, bool)>::from_ordinal(4));
}

#[test]
fn decode_at_and_past_size_is_none() {
    assert_eq!(None, bool::from_ordinal(2));
    assert_eq!(None, bool::from_ordinal(usize::MAX));
    assert_eq!(None, u8::from_ordinal(256));
    assert_eq!(None, i16::from_ordinal(65536));
    assert_eq!(None, char::from_ordinal(char::ordinal_size()));
    assert_eq!(None, <Option<bool>>::from_ordinal(3));
    assert_eq!(None, <(u8, bool)>::from_ordinal(512));
}

#[test]
fn signed_numbers_start_at_minimum() {
    assert_eq!(0, i8::MIN.ordinal());
    assert_eq!(128, 0i8.ordinal());
    assert_eq!(255, i8::MAX.ordinal());
    assert_eq!(Some(i16::MIN), i16::from_ordinal(0));
    assert_eq!(Some(i16::MIN + 1), i16::from_ordinal(1));
    assert_eq!(32768, 0i16.ordinal());
}

#[test]
fn char_numbers_skip_surrogate_gap() {
    assert_eq!(0xd7ff, '\u{d7ff}'.ordinal());
    assert_eq!(0xd800, '\u{e000}'.ordinal());
    assert_eq!(Some('\u{e000}'), char::from_ordinal(0xd800));
    assert_eq!(0x10f800, char::ordinal_size());
    assert_eq!(0x10f7ff, char::MAX.ordinal());
}

#[test]
fn result_and_option_numbers() {
    assert_eq!(0, None::<u16>.ordinal());
    assert_eq!(1, Some::<u16>(0).ordinal());
    assert_eq!(2, Some::<u16>(1).ordinal());
    assert_eq!(2, Err::<bool, bool>(false).ordinal());
    assert_eq!(Some(Err(true)), <Result<bool, bool>>::from_ordinal(3));
}

#[test]
fn values_meet_in_the_middle() {
    let mut iter = all_values::<Ordering>();
    assert_eq!(3, iter.len());
    assert_eq!(Some(Ordering::Less), iter.next());
    assert_eq!(Some(Ordering::Greater), iter.next_back());
    assert_eq!(1, iter.len());
    assert_eq!(Some(Ordering::Equal), iter.next_back());
    assert_eq!(None, iter.next());
    assert_eq!(None, iter.next_back());
    assert_eq!(0, iter.len());
}

#[test]
fn test_array_0() {
    test_ordinal::<[u16; 0]>([[]]);
}

#[test]
fn test_array_1() {
    test_ordinal([[false], [true]]);
}

#[test]
fn test_array_2() {
    test_ordinal([[false, false], [false, true], [true, false], [true, true]]);
    // Should be compatible with ordinal for tuple.
    test_ordinal([(false, false), (false, true), (true, false), (true, true)]);
}

#[test]
fn array_of_bytes_numbers() {
    assert_eq!(65536, <[u8; 2]>::ordinal_size());
    assert_eq!(0x1234, [0x12u8, 0x34].ordinal());
    assert_eq!(Some([0xabu8, 0xcd]), <[u8; 2]>::from_ordinal(0xabcd));
    assert_eq!(None, <[u8; 2]>::from_ordinal(65536));
}

#[test]
fn test_array_from_iter() {
    let array: [String; 3] = ordinal_map::array::array_from_iter((0..3).map(|i| i.to_string()).collect());
    assert_eq!(["0".to_owned(), "1".to_owned(), "2".to_owned()], array);
}
