use ordinal_map::composite::{
    ordinal_size_product, ordinal_size_sum, product_decode, product_encode, sum_decode, sum_encode,
};
use ordinal_map::Ordinal;

/// Checks a product type whose fields have sizes `sizes`: the values, given
/// by their field numbers, must be numbered `0, 1, 2, ...` in the order given.
fn check_product(sizes: &[usize], expected: &[Vec<usize>]) {
    let size = expected.len();
    assert_eq!(size, product_size(sizes));
    for (i, digits) in expected.iter().enumerate() {
        assert_eq!(i, product_encode(digits, sizes));
        assert_eq!(Some(digits.clone()), product_decode(i, sizes));
    }
    assert_eq!(None, product_decode(size, sizes));
}

fn product_size(sizes: &[usize]) -> usize {
    let mut r = 1usize;
    for s in sizes {
        r *= s;
    }
    r
}

/// Checks a sum type whose variants have sizes `sizes`: the values, given by
/// variant and number within the variant, must be numbered in the order given.
fn check_sum(sizes: &[usize], expected: &[(usize, usize)]) {
    let size = expected.len();
    assert_eq!(size, sizes.iter().sum::<usize>());
    for (i, &(variant, inner)) in expected.iter().enumerate() {
        assert_eq!(i, sum_encode(variant, inner, sizes));
        assert_eq!(Some((variant, inner)), sum_decode(i, sizes));
    }
    assert_eq!(None, sum_decode(size, sizes));
}

#[test]
fn test_unit_struct() {
    assert_eq!(1, ordinal_size_product([]));
    check_product(&[], &[vec![]]);
    assert_eq!(0, ().ordinal());
}

#[test]
fn test_tuple_struct_1() {
    let expected: Vec<Vec<usize>> = (0..=255u8).map(|i| vec![i.ordinal()]).collect();
    check_product(&[u8::ordinal_size()], &expected);
}

#[test]
fn test_tuple_struct_2() {
    let expected: Vec<Vec<usize>> = (0..=255u8)
        .flat_map(|i| [false, true].map(move |b| vec![i.ordinal(), b.ordinal()]))
        .collect();
    check_product(&[u8::ordinal_size(), bool::ordinal_size()], &expected);
    assert_eq!(512, ordinal_size_product([u8::ordinal_size(), bool::ordinal_size()]));
}

#[test]
fn test_record_struct_1() {
    let expected: Vec<Vec<usize>> = (0..=255u8).map(|a| vec![a.ordinal()]).collect();
    check_product(&[u8::ordinal_size()], &expected);
}

#[test]
fn test_record_struct_2() {
    let expected: Vec<Vec<usize>> = (0..=255u8)
        .flat_map(|a| [false, true].map(move |b| vec![a.ordinal(), b.ordinal()]))
        .collect();
    check_product(&[u8::ordinal_size(), bool::ordinal_size()], &expected);
}

#[test]
fn test_empty_enum() {
    assert_eq!(0, ordinal_size_sum([]));
    check_sum(&[], &[]);
}

#[test]
fn test_simple_enum_1() {
    assert_eq!(1, ordinal_size_sum([1]));
    check_sum(&[1], &[(0, 0)]);
}

#[test]
fn test_simple_enum_3() {
    assert_eq!(3, ordinal_size_sum([1, 1, 1]));
    check_sum(&[1, 1, 1], &[(0, 0), (1, 0), (2, 0)]);
}

#[test]
fn test_tuple_enum() {
    // A(bool), B(Option<()>)
    let sizes = [bool::ordinal_size(), <Option<()>>::ordinal_size()];
    check_sum(
        &sizes,
        &[
            (0, false.ordinal()),
            (0, true.ordinal()),
            (1, None::<()>.ordinal()),
            (1, Some(()).ordinal()),
        ],
    );
}

#[test]
fn test_record_enum() {
    // A { a: bool }, B { a: bool, b: Option<()> }
    let b_fields = [bool::ordinal_size(), <Option<()>>::ordinal_size()];
    let sizes = [bool::ordinal_size(), ordinal_size_product(b_fields)];
    let b = |a: bool, o: Option<()>| product_encode(&[a.ordinal(), o.ordinal()], &b_fields);
    check_sum(
        &sizes,
        &[
            (0, false.ordinal()),
            (0, true.ordinal()),
            (1, b(false, None)),
            (1, b(false, Some(()))),
            (1, b(true, None)),
            (1, b(true, Some(()))),
        ],
    );
}

#[test]
fn test_mixed_enum() {
    // A, B(bool), C { a: Result<bool, ()>, b: Option<()> }
    let c_fields = [<Result<bool, ()>>::ordinal_size(), <Option<()>>::ordinal_size()];
    let sizes = [1, bool::ordinal_size(), ordinal_size_product(c_fields)];
    assert_eq!(9, ordinal_size_sum(sizes));
    let c = |a: Result<bool, ()>, o: Option<()>| product_encode(&[a.ordinal(), o.ordinal()], &c_fields);
    check_sum(
        &sizes,
        &[
            (0, 0),
            (1, false.ordinal()),
            (1, true.ordinal()),
            (2, c(Ok(false), None)),
            (2, c(Ok(false), Some(()))),
            (2, c(Ok(true), None)),
            (2, c(Ok(true), Some(()))),
            (2, c(Err(()), None)),
            (2, c(Err(()), Some(()))),
        ],
    );
}

#[test]
fn test_empty_struct() {
    // A struct with one field of a type that has no values.
    assert_eq!(0, ordinal_size_product([0]));
    check_product(&[0], &[]);
    assert_eq!(None, product_decode(0, &[0]));
}

#[test]
fn enum_of_bool_variant_example() {
    // {A, B(bool), C}
    let sizes = [1, 2, 1];
    assert_eq!(4, ordinal_size_sum(sizes));
    check_sum(&sizes, &[(0, 0), (1, 0), (1, 1), (2, 0)]);
}

#[test]
fn sum_ranges_follow_declaration_order() {
    let sizes = [3, 0, 2, 4];
    for i in 0..3 {
        assert_eq!(Some((0, i)), sum_decode(i, &sizes));
    }
    for i in 3..5 {
        assert_eq!(Some((2, i - 3)), sum_decode(i, &sizes));
    }
    for i in 5..9 {
        assert_eq!(Some((3, i - 5)), sum_decode(i, &sizes));
    }
    assert_eq!(None, sum_decode(9, &sizes));
    assert_eq!(None, sum_decode(usize::MAX, &sizes));
}

#[test]
fn product_last_field_least_significant() {
    let sizes = [3, 4, 5];
    assert_eq!(60, ordinal_size_product(sizes));
    assert_eq!(2 * 20 + 3 * 5 + 4, product_encode(&[2, 3, 4], &sizes));
    assert_eq!(Some(vec![1, 0, 3]), product_decode(23, &sizes));
    assert_eq!(None, product_decode(60, &sizes));
    assert_eq!(None, product_decode(0, &[3, 0, 5]));
}
