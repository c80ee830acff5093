use arrow2::boolean::BooleanArray;
use arrow2::filter::filter;
use arrow2::growable_binary::GrowableUtf8;
use arrow2::nested::Array;
use arrow2::primitive::PrimitiveArray;
use arrow2::utf8::Utf8Array;

#[test]
fn filter_keeps_selected_slots_and_nulls() {
    let source = PrimitiveArray::<i32>::from_trusted_len_iter(vec![Some(1), Some(2), None, Some(4), Some(5)]);
    let mask = BooleanArray::from_slice(&[true, false, true, true, false]);
    let out = match filter(&Array::Int32(source), &mask).unwrap() {
        Array::Int32(a) => a,
        _ => panic!("expected an Int32 array"),
    };
    assert_eq!(out.len(), 3);
    assert_eq!(out.value(0), 1);
    assert!(!out.is_null(0));
    assert!(out.is_null(1));
    assert_eq!(out.value(2), 4);
    assert!(!out.is_null(2));
    assert_eq!(out.null_count(), 1);
}

#[test]
fn growable_concatenates_strings_with_rebased_offsets() {
    let first = Utf8Array::<i32>::from_slice(&["ab", "cd"]);
    let second = Utf8Array::<i32>::from_slice(&["ef"]);
    let mut growable = GrowableUtf8::new(vec![&first, &second], false, 3);
    growable.extend(0, 0, 2);
    growable.extend(1, 0, 1);
    let out = growable.to_array();
    assert_eq!(out.len(), 3);
    assert_eq!(out.value(0), "ab");
    assert_eq!(out.value(1), "cd");
    assert_eq!(out.value(2), "ef");
    assert_eq!(out.offsets().as_slice(), &[0, 2, 4, 6]);
    assert_eq!(out.values().as_slice(), b"abcdef");
}

#[test]
fn growable_rebases_offsets_of_a_sliced_source() {
    let source = Utf8Array::<i32>::from_slice(&["x", "hello", "world"]).slice(1, 2);
    let mut growable = GrowableUtf8::new(vec![&source], false, 2);
    growable.extend(0, 1, 1);
    growable.extend(0, 0, 2);
    let out = growable.to_array();
    assert_eq!(out.len(), 3);
    assert_eq!(out.value(0), "world");
    assert_eq!(out.value(1), "hello");
    assert_eq!(out.value(2), "world");
    assert_eq!(out.offsets().as_slice(), &[0, 5, 10, 15]);
}
