use arrow2::boolean::BooleanArray;
use arrow2::filter::filter;
use arrow2::nested::Array;
use arrow2::primitive::PrimitiveArray;
use arrow2::binary::BinaryArray;
use arrow2::utf8::Utf8Array;

fn int32(array: Array) -> PrimitiveArray<i32> {
    match array {
        Array::Int32(a) => a,
        _ => panic!("expected an Int32 array"),
    }
}

fn utf8(array: Array) -> Utf8Array<i32> {
    match array {
        Array::Utf8(a) => a,
        _ => panic!("expected a Utf8 array"),
    }
}

#[test]
fn test_filter_array_slice() {
    let a = PrimitiveArray::<i32>::from_slice(&[5, 6, 7, 8, 9]).slice(1, 4);
    let b = BooleanArray::from_slice(&[true, true, false, false, true]).slice(1, 4);
    let c = filter(&Array::Int32(a), &b).unwrap();
    let d = int32(c);
    assert_eq!(2, d.len());
    assert_eq!(6, d.value(0));
    assert_eq!(9, d.value(1));
}

#[test]
fn test_filter_array_low_density() {
    // this test exercises the all 0's branch of the filter algorithm
    let mut data_values = (1..=65).collect::<Vec<i32>>();
    let mut filter_values = (1..=65).map(|i| matches!(i % 65, 0)).collect::<Vec<bool>>();
    // set up two more values after the batch
    data_values.extend_from_slice(&[66, 67]);
    filter_values.extend_from_slice(&[false, true]);
    let a = PrimitiveArray::<i32>::from_slice(&data_values);
    let b = BooleanArray::from_slice(&filter_values);
    let c = filter(&Array::Int32(a), &b).unwrap();
    let d = int32(c);
    assert_eq!(2, d.len());
    assert_eq!(65, d.value(0));
    assert_eq!(67, d.value(1));
}

#[test]
fn test_filter_array_high_density() {
    // this test exercises the all 1's branch of the filter algorithm
    let mut data_values = (1..=65).map(Some).collect::<Vec<_>>();
    let mut filter_values = (1..=65)
        .map(|i| !matches!(i % 65, 0))
        .collect::<Vec<bool>>();
    // set second data value to null
    data_values[1] = None;
    // set up two more values after the batch
    data_values.extend_from_slice(&[Some(66), None, Some(67), None]);
    filter_values.extend_from_slice(&[false, true, true, true]);
    let a = PrimitiveArray::<i32>::from_trusted_len_iter(data_values);
    let b = BooleanArray::from_slice(&filter_values);
    let c = filter(&Array::Int32(a), &b).unwrap();
    let d = int32(c);
    assert_eq!(67, d.len());
    assert_eq!(3, d.null_count());
    assert_eq!(1, d.value(0));
    assert_eq!(true, d.is_null(1));
    assert_eq!(64, d.value(63));
    assert_eq!(true, d.is_null(64));
    assert_eq!(67, d.value(65));
}

#[test]
fn test_filter_string_array_simple() {
    let a = Utf8Array::<i32>::from_slice(&["hello", " ", "world", "!"]);
    let b = BooleanArray::from_slice(&[true, false, true, false]);
    let c = filter(&Array::Utf8(a), &b).unwrap();
    let d = utf8(c);
    assert_eq!(2, d.len());
    assert_eq!("hello", d.value(0));
    assert_eq!("world", d.value(1));
}

#[test]
fn test_filter_primative_array_with_null() {
    let a = PrimitiveArray::<i32>::from_trusted_len_iter(vec![Some(5), None]);
    let b = BooleanArray::from_slice(&[false, true]);
    let c = filter(&Array::Int32(a), &b).unwrap();
    let d = int32(c);
    assert_eq!(1, d.len());
    assert_eq!(true, d.is_null(0));
}

#[test]
fn test_filter_string_array_with_null() {
    let a = Utf8Array::<i32>::from_trusted_len_iter(&[Some("hello"), None, Some("world"), None]);
    let b = BooleanArray::from_slice(&[true, false, false, true]);
    let c = filter(&Array::Utf8(a), &b).unwrap();
    let d = utf8(c);
    assert_eq!(2, d.len());
    assert_eq!("hello", d.value(0));
    assert_eq!(false, d.is_null(0));
    assert_eq!(true, d.is_null(1));
}

#[test]
fn test_filter_binary_array_with_null() {
    let data: Vec<Option<&[u8]>> = vec![Some(b"hello"), None, Some(b"world"), None];
    let a = BinaryArray::<i32>::from_trusted_len_iter(&data);
    let b = BooleanArray::from_slice(&[true, false, false, true]);
    let c = filter(&Array::Binary(a), &b).unwrap();
    let d = match c {
        Array::Binary(d) => d,
        _ => panic!("expected a Binary array"),
    };
    assert_eq!(2, d.len());
    assert_eq!(b"hello", d.value(0));
    assert_eq!(false, d.is_null(0));
    assert_eq!(true, d.is_null(1));
}
