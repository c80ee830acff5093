use arrow2::boolean::BooleanArray;
use arrow2::primitive::PrimitiveArray;

#[test]
fn from_trusted_len_iter() {
    let iter = std::iter::repeat(true).take(2).map(Some);
    let a = BooleanArray::from_trusted_len_iter(iter.collect());
    assert_eq!(a.len(), 2);
}

#[test]
fn from_iter() {
    let iter = std::iter::repeat(true).take(2).map(Some);
    let a = BooleanArray::from_trusted_len_iter(iter.collect::<Vec<_>>());
    assert_eq!(a.len(), 2);
}

#[test]
fn bla() {
    let data = vec![Some(1), None, Some(10)];

    let array = PrimitiveArray::from_trusted_len_iter(data.clone());
    assert_eq!(array.len(), 3);

    let array = PrimitiveArray::from_trusted_len_iter(data.into_iter().collect());
    assert_eq!(array.len(), 3);

    let data = vec![1i32, 2, 3];

    let array = PrimitiveArray::from_values(data.clone());
    assert_eq!(array.len(), 3);

    let array = PrimitiveArray::from_trusted_len_values_iter(data.into_iter().collect());
    assert_eq!(array.len(), 3);
}
