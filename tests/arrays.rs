use std::sync::Arc;

use arrow2::allocation::{
    allocate_aligned, allocate_aligned_zeroed, free_aligned, reallocate, Allocations,
};
use arrow2::binary::BinaryArray;
use arrow2::bitmap::Bitmap;
use arrow2::boolean::BooleanArray;
use arrow2::buffer::Buffer;
use arrow2::cast::boolean_to_utf8;
use arrow2::error::ArrowError;
use arrow2::filter::{build_filter, filter, filter_record_batch};
use arrow2::nested::{Array, FixedSizeListArray, ListArray};
use arrow2::primitive::PrimitiveArray;
use arrow2::record_batch::RecordBatch;
use arrow2::types::{DataType, Field, Schema};
use arrow2::bitmap::MutableBitmap;
use arrow2::growable::build_extend_null_bits;
use arrow2::utf8::Utf8Array;

#[test]
fn slicing_twice_gives_the_same_slots() {
    let array = Array::Int16(PrimitiveArray::<i16>::from_trusted_len_iter(vec![Some(1), None, Some(3), Some(4), None]));
    let once = array.slice(1, 3);
    let twice = once.slice(0, 3);
    assert_eq!(once.len(), 3);
    assert_eq!(twice.len(), 3);
    for i in 0..3 {
        assert_eq!(once.is_null(i), twice.is_null(i));
    }
    match (once, twice) {
        (Array::Int16(a), Array::Int16(b)) => {
            assert_eq!(a.value(1), b.value(1));
            assert_eq!(a.value(2), 4);
        }
        _ => panic!("slicing changed the type"),
    }
    assert_eq!(array.len(), 5);
}

#[test]
fn checked_slices_report_bounds_errors() {
    let array = PrimitiveArray::<u32>::from_values(vec![1, 2, 3]);
    assert!(matches!(array.try_slice(2, 2), Err(ArrowError::InvalidArgumentError(_))));
    assert!(array.try_slice(1, 2).is_ok());
    let strings = Utf8Array::<i32>::from_slice(&["a"]);
    assert!(strings.try_slice(1, 1).is_err());
    let booleans = BooleanArray::from_slice(&[true]);
    assert!(booleans.try_slice(0, 2).is_err());
}

#[test]
fn constructors_validate_their_parts() {
    let values = Buffer::from_vec(vec![1u64, 2, 3]);
    let validity = Bitmap::try_new(vec![0b11], 2).unwrap();
    assert!(PrimitiveArray::try_new(values, Some(validity)).is_err());
    let offsets = Buffer::from_vec(vec![0i32, 3, 2]);
    let bytes = Buffer::from_vec(b"abc".to_vec());
    assert!(BinaryArray::try_new(offsets, bytes, None).is_err());
    let bad = BinaryArray::<i32>::try_new(Buffer::from_vec(vec![0, 1]), Buffer::from_vec(vec![0xc3u8]), None).unwrap();
    assert!(Utf8Array::try_from_binary(bad).is_err());
    let good = BinaryArray::<i32>::try_new(Buffer::from_vec(vec![0, 2]), Buffer::from_vec(vec![0xc3u8, 0xa9]), None).unwrap();
    assert_eq!(Utf8Array::try_from_binary(good).unwrap().value(0), "é");
}

#[test]
fn try_from_trusted_len_iter_returns_the_first_error() {
    let items: Vec<Result<Option<bool>, u8>> = vec![Ok(Some(true)), Err(3), Ok(None), Err(4)];
    assert_eq!(BooleanArray::try_from_trusted_len_iter(items).err(), Some(3));
    let items: Vec<Result<Option<bool>, u8>> = vec![Ok(Some(true)), Ok(None)];
    let array = BooleanArray::try_from_trusted_len_iter(items).unwrap();
    assert_eq!(array.len(), 2);
    assert!(array.is_null(1));
}

#[test]
fn binary_iterator_yields_slots() {
    let data: Vec<Option<&[u8]>> = vec![Some(b"a"), None, Some(b"")];
    let array = BinaryArray::<i32>::from_trusted_len_iter(&data);
    let mut iter = array.iter();
    assert_eq!(iter.size_hint(), (3, Some(3)));
    assert_eq!(iter.next(), Some(Some(&b"a"[..])));
    assert_eq!(iter.next(), Some(None));
    assert_eq!(iter.next(), Some(Some(&b""[..])));
    assert_eq!(iter.next(), None);
}

#[test]
fn list_iterators_yield_lists() {
    let child = Array::UInt8(PrimitiveArray::<u8>::from_values(vec![1, 2, 3, 4]));
    let validity = Bitmap::try_new(vec![0b101], 3).unwrap();
    let list = ListArray::from_data(Buffer::from_vec(vec![0i64, 1, 1, 4]), Arc::new(child), Some(validity));
    let mut values = list.values_iter();
    assert_eq!(values.size_hint(), (3, Some(3)));
    assert_eq!(values.next_back().unwrap().len(), 3);
    assert_eq!(values.next().unwrap().len(), 1);
    assert_eq!(values.next().unwrap().len(), 0);
    assert!(values.next().is_none());
    let mut slots = list.iter();
    assert_eq!(slots.next().unwrap().unwrap().len(), 1);
    assert!(slots.next().unwrap().is_none());
    assert_eq!(slots.next().unwrap().unwrap().len(), 3);
    assert!(slots.next().is_none());
}

#[test]
fn fixed_size_lists() {
    let child = Array::Int32(PrimitiveArray::<i32>::from_values(vec![1, 2, 3, 4, 5, 6]));
    let list = FixedSizeListArray::try_new(2, Arc::new(child), None).unwrap();
    assert_eq!(list.len(), 3);
    let sliced = list.slice(1, 2);
    match sliced.value(1) {
        Array::Int32(a) => {
            assert_eq!(a.value(0), 5);
            assert_eq!(a.value(1), 6);
        }
        _ => panic!("expected an Int32 child"),
    }
    let mut values = sliced.values_iter();
    assert_eq!(values.next().unwrap().len(), 2);
    let mut slots = list.iter();
    assert!(slots.next().unwrap().is_some());
    let odd = Array::Int32(PrimitiveArray::<i32>::from_values(vec![1, 2, 3]));
    assert!(FixedSizeListArray::try_new(2, Arc::new(odd), None).is_err());
    let any = Array::Int32(PrimitiveArray::<i32>::from_values(vec![1]));
    assert!(FixedSizeListArray::try_new(0, Arc::new(any), None).is_err());
}

#[test]
fn filter_reports_length_mismatch() {
    let array = Array::Int8(PrimitiveArray::<i8>::from_values(vec![1, 2, 3]));
    let mask = BooleanArray::from_slice(&[true, false]);
    assert!(matches!(filter(&array, &mask), Err(ArrowError::InvalidArgumentError(_))));
}

#[test]
fn filter_copies_the_child_items_of_kept_lists() {
    let child = Array::Int8(PrimitiveArray::<i8>::from_values(vec![0, 1, 2, 3, 4, 5]));
    let validity = Bitmap::try_new(vec![0b1101], 4).unwrap();
    let list = ListArray::from_data(Buffer::from_vec(vec![0i32, 1, 3, 3, 6]), Arc::new(child), Some(validity)).slice(1, 3);
    let mask = BooleanArray::from_slice(&[true, true, true]);
    let all = match filter(&Array::List(list.try_slice(0, 3).unwrap()), &mask).unwrap() {
        Array::List(l) => l,
        _ => panic!("expected a list array"),
    };
    assert_eq!(all.len(), 3);
    assert_eq!(all.offsets().as_slice(), &[0, 2, 2, 5]);
    let mask = BooleanArray::from_slice(&[true, false, true]);
    let out = match filter(&Array::List(list), &mask).unwrap() {
        Array::List(l) => l,
        _ => panic!("expected a list array"),
    };
    assert_eq!(out.len(), 2);
    assert!(out.is_null(0));
    assert!(!out.is_null(1));
    assert_eq!(out.offsets().as_slice(), &[0, 2, 5]);
    match out.value(0) {
        Array::Int8(a) => {
            assert_eq!(a.len(), 2);
            assert_eq!(a.value(0), 1);
            assert_eq!(a.value(1), 2);
        }
        _ => panic!("expected an Int8 child"),
    }
    match out.value(1) {
        Array::Int8(a) => {
            assert_eq!(a.len(), 3);
            assert_eq!(a.value(0), 3);
            assert_eq!(a.value(2), 5);
        }
        _ => panic!("expected an Int8 child"),
    }
    assert_eq!(out.values().len(), 5);
}

#[test]
fn filter_keeps_null_lists() {
    let child = Array::Int8(PrimitiveArray::<i8>::from_values(vec![1, 2, 3]));
    let validity = Bitmap::try_new(vec![0b01], 2).unwrap();
    let list = ListArray::from_data(Buffer::from_vec(vec![0i64, 1, 3]), Arc::new(child), Some(validity));
    let mask = BooleanArray::from_slice(&[false, true]);
    let out = match filter(&Array::LargeList(list), &mask).unwrap() {
        Array::LargeList(l) => l,
        _ => panic!("expected a large list array"),
    };
    assert_eq!(out.len(), 1);
    assert!(out.is_null(0));
    assert_eq!(out.values().len(), 2);
}

#[test]
fn filter_fixed_size_lists() {
    let child = Array::Int32(PrimitiveArray::<i32>::from_values(vec![1, 2, 3, 4, 5, 6]));
    let list = FixedSizeListArray::try_new(2, Arc::new(child), None).unwrap().slice(1, 2);
    let mask = BooleanArray::from_slice(&[false, true]);
    let out = match filter(&Array::FixedSizeList(list), &mask).unwrap() {
        Array::FixedSizeList(l) => l,
        _ => panic!("expected a list array of fixed size"),
    };
    assert_eq!(out.len(), 1);
    match out.value(0) {
        Array::Int32(a) => {
            assert_eq!(a.len(), 2);
            assert_eq!(a.value(0), 5);
            assert_eq!(a.value(1), 6);
        }
        _ => panic!("expected an Int32 child"),
    }
}

#[test]
fn filter_lists_of_lists() {
    let items = Array::Utf8(Utf8Array::<i32>::from_slice(&["a", "b", "c", "d"]));
    let inner = Array::List(ListArray::from_data(Buffer::from_vec(vec![0i32, 1, 3, 4]), Arc::new(items), None));
    let outer = Array::List(ListArray::from_data(Buffer::from_vec(vec![0i32, 2, 3]), Arc::new(inner), None));
    let mask = BooleanArray::from_slice(&[false, true]);
    let out = match filter(&outer, &mask).unwrap() {
        Array::List(l) => l,
        _ => panic!("expected a list array"),
    };
    assert_eq!(out.len(), 1);
    let inner = match out.value(0) {
        Array::List(l) => l,
        _ => panic!("expected a list child"),
    };
    assert_eq!(inner.len(), 1);
    match inner.value(0) {
        Array::Utf8(a) => {
            assert_eq!(a.len(), 1);
            assert_eq!(a.value(0), "d");
        }
        _ => panic!("expected a Utf8 child"),
    }
}

#[test]
fn filter_reads_mask_values_not_validity() {
    let array = Array::Boolean(BooleanArray::from_slice(&[true, false, true]));
    let mask = BooleanArray::from_trusted_len_iter(vec![Some(false), None, Some(true)]);
    let out = match filter(&array, &mask).unwrap() {
        Array::Boolean(a) => a,
        _ => panic!("expected a boolean array"),
    };
    assert_eq!(out.len(), 1);
    assert_eq!(out.value(0), true);
}

#[test]
fn prepared_filter_applies_to_several_arrays() {
    let mask = BooleanArray::from_slice(&[false, true, true, false]);
    let prepared = build_filter(&mask).unwrap();
    assert_eq!(prepared.filter_count(), 2);
    let numbers = Array::UInt64(PrimitiveArray::<u64>::from_values(vec![10, 20, 30, 40]));
    let words = Array::LargeUtf8(Utf8Array::<i64>::from_slice(&["a", "b", "c", "d"]));
    match prepared.apply(&numbers).unwrap() {
        Array::UInt64(a) => {
            assert_eq!(a.value(0), 20);
            assert_eq!(a.value(1), 30);
        }
        _ => panic!("expected a UInt64 array"),
    }
    match prepared.apply(&words).unwrap() {
        Array::LargeUtf8(a) => {
            assert_eq!(a.value(0), "b");
            assert_eq!(a.value(1), "c");
        }
        _ => panic!("expected a LargeUtf8 array"),
    }
}

#[test]
fn record_batches_filter_each_column() {
    let numbers = Array::Int32(PrimitiveArray::<i32>::from_values(vec![1, 2, 3]));
    let words = Array::Utf8(Utf8Array::<i32>::from_slice(&["x", "y", "z"]));
    let schema = Arc::new(Schema {
        fields: vec![
            Field { name: "n".to_string(), data_type: DataType::Int32, nullable: false },
            Field { name: "w".to_string(), data_type: DataType::Utf8, nullable: false },
        ],
    });
    let batch = RecordBatch::try_new(schema.clone(), vec![numbers, words]).unwrap();
    let mask = BooleanArray::from_slice(&[true, false, true]);
    let out = filter_record_batch(&batch, &mask).unwrap();
    assert_eq!(out.len(), 2);
    assert_eq!(out.num_columns(), 2);
    assert!(Arc::ptr_eq(&out.schema(), &schema));
    assert_eq!(out.schema().fields[1].name, "w");
    match out.column(1) {
        Array::Utf8(a) => assert_eq!(a.value(1), "z"),
        _ => panic!("expected a Utf8 column"),
    }
    let short = BooleanArray::from_slice(&[true]);
    assert!(filter_record_batch(&batch, &short).is_err());
    assert!(RecordBatch::try_new(Arc::new(Schema { fields: Vec::new() }), Vec::new()).is_err());
    let two_ints = Arc::new(Schema {
        fields: vec![
            Field { name: "a".to_string(), data_type: DataType::Int32, nullable: true },
            Field { name: "b".to_string(), data_type: DataType::Int32, nullable: true },
        ],
    });
    let uneven = vec![
        Array::Int32(PrimitiveArray::<i32>::from_values(vec![1])),
        Array::Int32(PrimitiveArray::<i32>::from_values(vec![1, 2])),
    ];
    assert!(RecordBatch::try_new(two_ints.clone(), uneven).is_err());
    let mistyped = vec![
        Array::Int32(PrimitiveArray::<i32>::from_values(vec![1])),
        Array::Int64(PrimitiveArray::<i64>::from_values(vec![1])),
    ];
    assert!(RecordBatch::try_new(two_ints.clone(), mistyped).is_err());
    let one = vec![Array::Int32(PrimitiveArray::<i32>::from_values(vec![1]))];
    assert!(RecordBatch::try_new(two_ints, one).is_err());
}

#[test]
fn booleans_cast_to_strings() {
    let array = BooleanArray::from_trusted_len_iter(vec![Some(true), Some(false), None]);
    let strings = boolean_to_utf8::<i32>(&array);
    assert_eq!(strings.len(), 3);
    assert_eq!(strings.value(0), "1");
    assert_eq!(strings.value(1), "0");
    assert_eq!(strings.value(2), "0");
}

#[test]
fn test_allocate() {
    let mut allocations = Allocations::new();
    for _ in 0..10 {
        let p = allocate_aligned::<u32>(&mut allocations, 1024);
        assert_eq!(p.size(), 1024);
        assert_eq!(allocations.allocated(), 4096);
        // allocations are modelled as values, not addresses: their alignment is not checked
        free_aligned(&mut allocations, p);
    }
    assert_eq!(allocations.allocated(), 0);
}

#[test]
fn test_reallocate() {
    let mut allocations = Allocations::new();
    let size = 16;
    let ptr = allocate_aligned::<i32>(&mut allocations, size);
    let new_size = 32;
    let ptr = reallocate(&mut allocations, ptr, 32);
    assert_eq!(ptr.size(), new_size);
    free_aligned(&mut allocations, ptr);
    assert_eq!(allocations.allocated(), 0);
}

#[test]
fn reallocation_keeps_values_and_accounts_bytes() {
    let mut allocations = Allocations::new();
    let p = allocate_aligned_zeroed::<i32>(&mut allocations, 16);
    assert_eq!(allocations.allocated(), 64);
    let p = reallocate(&mut allocations, p, 32);
    assert_eq!(allocations.allocated(), 128);
    assert_eq!(p.size(), 32);
    assert!(p.as_slice().iter().all(|v| *v == 0));
    let p = reallocate(&mut allocations, p, 0);
    assert_eq!(allocations.allocated(), 0);
    free_aligned(&mut allocations, p);
    let empty = allocate_aligned::<i64>(&mut allocations, 0);
    assert_eq!(allocations.allocated(), 0);
    free_aligned(&mut allocations, empty);
    assert_eq!(allocations.allocated(), 0);
}

#[test]
fn from_external_error_keeps_the_description() {
    match ArrowError::from_external_error("boom".to_string()) {
        ArrowError::External(message, source) => {
            assert_eq!(message, "");
            assert_eq!(source, "boom");
        }
        _ => panic!("expected an external error"),
    }
}

#[test]
fn booleans_cast_to_numbers() {
    let array = BooleanArray::from_trusted_len_iter(vec![Some(true), None, Some(false)]);
    let numbers = arrow2::cast::boolean_to_primitive::<i16>(&array);
    assert_eq!(numbers.len(), 3);
    assert_eq!(numbers.value(0), 1);
    assert!(numbers.is_null(1));
    assert_eq!(numbers.value(2), 0);
    assert!(!numbers.is_null(2));
}

#[test]
fn checked_buffer_slices_and_list_construction() {
    let buffer = Buffer::from_vec(vec![1u8, 2, 3, 4]);
    assert!(matches!(buffer.try_slice(3, 2), Err(ArrowError::InvalidArgumentError(_))));
    let slice = buffer.try_slice(1, 2).unwrap();
    assert_eq!(slice.as_slice(), &[2, 3]);
    assert_eq!(*slice.get(1), 3);
    let child = Arc::new(Array::Int32(PrimitiveArray::<i32>::from_values(vec![1, 2, 3])));
    assert!(ListArray::try_new(Buffer::from_vec(vec![0i32, 4]), child.clone(), None).is_err());
    assert!(ListArray::try_new(Buffer::from_vec(vec![0i32, 2, 1]), child.clone(), None).is_err());
    let validity = Bitmap::try_new(vec![0b1], 1).unwrap();
    assert!(ListArray::try_new(Buffer::from_vec(vec![0i32, 1, 3]), child.clone(), Some(validity)).is_err());
    let list = ListArray::try_new(Buffer::from_vec(vec![0i32, 1, 3]), child, None).unwrap();
    assert_eq!(list.len(), 2);
    assert_eq!(list.value(1).len(), 2);
}

#[test]
fn null_bits_are_copied_from_a_source_bitmap_even_untracked() {
    let source = Bitmap::try_new(vec![0b0000_0101], 4).unwrap();
    let mut bits = MutableBitmap::new();
    build_extend_null_bits(&Some(source.share()), false).extend(&mut bits, 1, 3);
    assert_eq!(bits.into_bitmap().to_vec(), vec![false, true, false]);
    let mut bits = MutableBitmap::new();
    build_extend_null_bits(&None, true).extend(&mut bits, 0, 2);
    assert_eq!(bits.into_bitmap().to_vec(), vec![true, true]);
    let mut bits = MutableBitmap::new();
    build_extend_null_bits(&None, false).extend(&mut bits, 0, 2);
    assert_eq!(bits.len(), 0);
}

#[test]
fn filter_keeps_the_type_of_the_array() {
    let mask = BooleanArray::from_slice(&[true, false]);
    let array = Array::UInt16(PrimitiveArray::<u16>::from_values(vec![3, 4]));
    let out = filter(&array, &mask).unwrap();
    assert!(matches!(out.data_type(), DataType::UInt16));
    let strings = Array::LargeBinary(BinaryArray::<i64>::from_trusted_len_iter(&[Some(&b"x"[..]), None]));
    assert!(matches!(filter(&strings, &mask).unwrap().data_type(), DataType::LargeBinary));
}

#[test]
fn slicing_keeps_the_shape() {
    let strings = Array::Utf8(Utf8Array::<i32>::from_slice(&["a", "b", "c"]));
    let slice = strings.slice(1, 2);
    assert!(matches!(slice.data_type(), DataType::Utf8));
    match slice {
        Array::Utf8(a) => assert_eq!(a.value(0), "b"),
        _ => panic!("slicing changed the shape"),
    }
}
