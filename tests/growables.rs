use arrow2::binary::BinaryArray;
use arrow2::boolean::BooleanArray;
use arrow2::growable::GrowablePrimitive;
use arrow2::growable::GrowableBoolean;
use arrow2::growable_binary::GrowableBinary;
use arrow2::primitive::PrimitiveArray;

#[test]
fn growable_copies_runs_from_several_sources() {
    let a = PrimitiveArray::<i64>::from_trusted_len_iter(vec![Some(1), None, Some(3)]);
    let b = PrimitiveArray::<i64>::from_values(vec![10, 20, 30, 40]);
    let mut growable = GrowablePrimitive::new(vec![&a, &b], false, 8);
    growable.extend(1, 2, 2);
    growable.extend(0, 0, 3);
    growable.extend(1, 0, 0);
    growable.extend(1, 0, 1);
    let out = growable.to_array();
    let expected = [Some(30), Some(40), Some(1), None, Some(3), Some(10)];
    assert_eq!(out.len(), expected.len());
    for (i, e) in expected.iter().enumerate() {
        match e {
            Some(v) => {
                assert!(!out.is_null(i));
                assert_eq!(out.value(i), *v);
            }
            None => assert!(out.is_null(i)),
        }
    }
}

#[test]
fn growable_pads_with_nulls() {
    let a = PrimitiveArray::<u8>::from_values(vec![7, 8]);
    let mut growable = GrowablePrimitive::new(vec![&a], false, 4);
    growable.extend(0, 0, 2);
    growable.extend_validity(2);
    let out = growable.to_array();
    assert_eq!(out.len(), 4);
    assert_eq!(out.value(1), 8);
    assert!(!out.is_null(1));
    assert!(out.is_null(2));
    assert!(out.is_null(3));
    assert_eq!(out.null_count(), 2);
}

#[test]
fn growable_without_nulls_has_no_validity() {
    let a = PrimitiveArray::<i32>::from_values(vec![1, 2, 3]);
    let mut growable = GrowablePrimitive::new(vec![&a], false, 3);
    growable.extend(0, 1, 2);
    let out = growable.to_array();
    assert!(out.validity().is_none());
    assert_eq!(out.value(0), 2);
}

#[test]
fn growable_booleans() {
    let a = BooleanArray::from_trusted_len_iter(vec![Some(true), None, Some(false)]);
    let mut growable = GrowableBoolean::new(vec![&a], false, 4);
    growable.extend(0, 1, 2);
    growable.extend_validity(1);
    growable.extend(0, 0, 1);
    let out = growable.to_array();
    assert_eq!(out.len(), 4);
    assert!(out.is_null(0));
    assert_eq!(out.value(1), false);
    assert!(out.is_null(2));
    assert_eq!(out.value(3), true);
}

#[test]
fn growable_binary_with_null_padding() {
    let data: Vec<Option<&[u8]>> = vec![Some(b"ab"), None, Some(b"cde")];
    let a = BinaryArray::<i64>::from_trusted_len_iter(&data);
    let mut growable = GrowableBinary::new(vec![&a], false, 4);
    growable.extend(0, 2, 1);
    growable.extend_validity(1);
    growable.extend(0, 0, 2);
    let out = growable.to_array();
    assert_eq!(out.len(), 4);
    assert_eq!(out.value(0), b"cde");
    assert!(out.is_null(1));
    assert_eq!(out.value(2), b"ab");
    assert!(out.is_null(3));
    assert_eq!(out.offsets().as_slice(), &[0i64, 3, 3, 5, 5]);
}

#[test]
fn requested_validity_is_materialized() {
    let a = PrimitiveArray::<i32>::from_values(vec![1, 2, 3]);
    let mut growable = GrowablePrimitive::new(vec![&a], true, 3);
    growable.extend(0, 0, 3);
    let out = growable.to_array();
    assert!(out.validity().is_some());
    assert_eq!(out.null_count(), 0);
    let data: Vec<Option<&[u8]>> = vec![Some(b"a")];
    let b = BinaryArray::<i32>::from_trusted_len_iter(&data);
    let mut growable = GrowableBinary::new(vec![&b], true, 1);
    growable.extend(0, 0, 1);
    assert!(growable.to_array().validity().is_some());
}
