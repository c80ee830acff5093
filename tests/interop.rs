use std::sync::Arc;

use arrow2::binary::BinaryArray;
use arrow2::bitmap::Bitmap;
use arrow2::boolean::BooleanArray;
use arrow2::buffer::Buffer;
use arrow2::error::ArrowError;
use arrow2::ffi::{ForeignArray, ForeignBuffer};
use arrow2::nested::{Array, FixedSizeListArray, ListArray};
use arrow2::primitive::PrimitiveArray;
use arrow2::types::DataType;
use arrow2::utf8::Utf8Array;

#[test]
fn primitive_round_trip_keeps_slots() {
    let array = PrimitiveArray::<i32>::from_trusted_len_iter(vec![Some(1), None, Some(3), Some(4)]).slice(1, 3);
    let exported = array.to_ffi();
    assert_eq!(exported.offset, 1);
    assert_eq!(exported.length, 3);
    assert_eq!(exported.null_count, 1);
    assert_eq!(exported.buffers.len(), 2);
    let imported = PrimitiveArray::<i32>::try_from_ffi(&exported).unwrap();
    assert_eq!(imported.len(), 3);
    assert!(imported.is_null(0));
    assert_eq!(imported.value(1), 3);
    assert_eq!(imported.value(2), 4);
    drop(exported);
    assert_eq!(array.value(2), 4);
}

#[test]
fn primitive_import_rejects_wrong_type_and_counts() {
    let array = PrimitiveArray::<i64>::from_values(vec![1, 2]);
    let exported = array.to_ffi();
    assert!(matches!(PrimitiveArray::<i32>::try_from_ffi(&exported), Err(ArrowError::Ffi(_))));
    let missing = ForeignArray {
        length: 2,
        offset: 0,
        null_count: 0,
        buffers: vec![None],
        children: Vec::new(),
    };
    assert!(matches!(PrimitiveArray::<i64>::try_from_ffi(&missing), Err(ArrowError::Ffi(_))));
    let too_long = ForeignArray {
        length: 3,
        offset: 0,
        null_count: 0,
        buffers: vec![None, Some(ForeignBuffer::I64(Arc::new(vec![1, 2])))],
        children: Vec::new(),
    };
    assert!(PrimitiveArray::<i64>::try_from_ffi(&too_long).is_err());
    let negative = ForeignArray {
        length: -1,
        offset: 0,
        null_count: 0,
        buffers: vec![None, Some(ForeignBuffer::I64(Arc::new(vec![1, 2])))],
        children: Vec::new(),
    };
    assert!(PrimitiveArray::<i64>::try_from_ffi(&negative).is_err());
}

#[test]
fn import_absorbs_a_declared_offset() {
    let foreign = ForeignArray {
        length: 2,
        offset: 3,
        null_count: 1,
        buffers: vec![
            Some(ForeignBuffer::U8(Arc::new(vec![0b0001_0000]))),
            Some(ForeignBuffer::I32(Arc::new(vec![0, 1, 2, 3, 4, 5]))),
        ],
        children: Vec::new(),
    };
    let array = PrimitiveArray::<i32>::try_from_ffi(&foreign).unwrap();
    assert_eq!(array.len(), 2);
    assert!(array.is_null(0));
    assert_eq!(array.value(1), 4);
    assert!(!array.is_null(1));
}

#[test]
fn strings_round_trip() {
    let array = Utf8Array::<i64>::from_trusted_len_iter(&[Some("x"), None, Some("yz")]).slice(1, 2);
    let exported = array.to_ffi();
    assert_eq!(exported.buffers.len(), 3);
    let imported = Utf8Array::<i64>::try_from_ffi(&exported).unwrap();
    assert_eq!(imported.len(), 2);
    assert!(imported.is_null(0));
    assert_eq!(imported.value(1), "yz");
}

#[test]
fn strings_import_rejects_invalid_utf8() {
    let foreign = ForeignArray {
        length: 1,
        offset: 0,
        null_count: 0,
        buffers: vec![
            None,
            Some(ForeignBuffer::I32(Arc::new(vec![0, 2]))),
            Some(ForeignBuffer::U8(Arc::new(vec![0xff, 0xfe]))),
        ],
        children: Vec::new(),
    };
    assert!(matches!(Utf8Array::<i32>::try_from_ffi(&foreign), Err(ArrowError::Ffi(_))));
    let decreasing = ForeignArray {
        length: 1,
        offset: 0,
        null_count: 0,
        buffers: vec![
            None,
            Some(ForeignBuffer::I32(Arc::new(vec![2, 0]))),
            Some(ForeignBuffer::U8(Arc::new(vec![0x61, 0x62]))),
        ],
        children: Vec::new(),
    };
    assert!(Utf8Array::<i32>::try_from_ffi(&decreasing).is_err());
}

#[test]
fn booleans_round_trip() {
    let array = BooleanArray::from_trusted_len_iter(vec![Some(true), Some(false), None, Some(true)]).slice(1, 3);
    let exported = array.to_ffi();
    let imported = BooleanArray::try_from_ffi(&exported).unwrap();
    assert_eq!(imported.len(), 3);
    assert_eq!(imported.value(0), false);
    assert!(imported.is_null(1));
    assert_eq!(imported.value(2), true);
}

#[test]
fn list_round_trip_through_array() {
    let child = Array::Int32(PrimitiveArray::<i32>::from_values(vec![1, 2, 3, 4, 5]));
    let offsets = Buffer::from_vec(vec![0i32, 2, 2, 5]);
    let list = ListArray::from_data(offsets, Arc::new(child), None);
    let array = Array::List(list);
    let exported = array.to_ffi();
    assert_eq!(exported.children.len(), 1);
    let data_type = array.data_type();
    assert!(matches!(data_type, DataType::List(_)));
    let imported = Array::try_from_ffi(&exported, &data_type).unwrap();
    let list = match imported {
        Array::List(l) => l,
        _ => panic!("expected a list array"),
    };
    assert_eq!(list.len(), 3);
    match list.value(2) {
        Array::Int32(a) => {
            assert_eq!(a.len(), 3);
            assert_eq!(a.value(0), 3);
            assert_eq!(a.value(2), 5);
        }
        _ => panic!("expected an Int32 child"),
    }
    assert_eq!(list.value(1).len(), 0);
}

#[test]
fn import_with_the_wrong_type_fails() {
    let array = Array::Int32(PrimitiveArray::<i32>::from_values(vec![1, 2]));
    let exported = array.to_ffi();
    assert!(Array::try_from_ffi(&exported, &DataType::Utf8).is_err());
    assert!(Array::try_from_ffi(&exported, &DataType::List(Box::new(DataType::Int32))).is_err());
}

#[test]
fn binary_export_from_a_sliced_byte_buffer() {
    let bytes = Buffer::from_vec(b"xxabc".to_vec()).slice(2, 3);
    let array = BinaryArray::<i32>::try_new(Buffer::from_vec(vec![0, 1, 3]), bytes, None).unwrap();
    let exported = array.to_ffi();
    let imported = BinaryArray::<i32>::try_from_ffi(&exported).unwrap();
    assert_eq!(imported.len(), 2);
    assert_eq!(imported.value(0), b"a");
    assert_eq!(imported.value(1), b"bc");
}

#[test]
fn fixed_size_list_round_trip() {
    let child = Array::Int64(PrimitiveArray::<i64>::from_values(vec![1, 2, 3, 4, 5, 6]));
    let list = FixedSizeListArray::try_new(3, Arc::new(child), None).unwrap().slice(1, 1);
    let array = Array::FixedSizeList(list);
    let exported = array.to_ffi();
    assert_eq!(exported.offset, 1);
    let imported = Array::try_from_ffi(&exported, &array.data_type()).unwrap();
    let list = match imported {
        Array::FixedSizeList(l) => l,
        _ => panic!("expected a list array of fixed size"),
    };
    match list.value(0) {
        Array::Int64(a) => {
            assert_eq!(a.len(), 3);
            assert_eq!(a.value(0), 4);
            assert_eq!(a.value(2), 6);
        }
        _ => panic!("expected an Int64 child"),
    }
    assert!(Array::try_from_ffi(&exported, &DataType::FixedSizeList(Box::new(DataType::Int64), 4)).is_err());
}

#[test]
fn export_realigns_a_validity_sliced_apart_from_its_values() {
    let values = Buffer::from_vec(vec![10u16, 20, 30]);
    let validity = Bitmap::try_new(vec![0b0000_1010], 8).unwrap().slice(1, 3);
    let array = PrimitiveArray::try_new(values, Some(validity)).unwrap();
    assert!(!array.is_null(0));
    assert!(array.is_null(1));
    assert!(!array.is_null(2));
    let imported = PrimitiveArray::<u16>::try_from_ffi(&array.to_ffi()).unwrap();
    assert!(!imported.is_null(0));
    assert!(imported.is_null(1));
    assert!(!imported.is_null(2));
    assert_eq!(imported.value(2), 30);
}

#[test]
fn the_validity_buffer_is_absent_without_validity() {
    let plain = PrimitiveArray::<i32>::from_values(vec![1, 2]);
    assert!(plain.to_ffi().buffers[0].is_none());
    let nullable = PrimitiveArray::<i32>::from_trusted_len_iter(vec![Some(1), None]);
    assert!(nullable.to_ffi().buffers[0].is_some());
    let strings = Utf8Array::<i32>::from_slice(&["a"]);
    assert!(strings.to_ffi().buffers[0].is_none());
    let booleans = BooleanArray::from_trusted_len_iter(vec![None, Some(true)]);
    assert!(booleans.to_ffi().buffers[0].is_some());
}
