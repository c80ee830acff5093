use std::sync::Arc;
use vstd::prelude::*;

use crate::array::{masked, validity_view};
use crate::bitmap::{bits_of, count_unset, lemma_count_total, Bitmap, MutableBitmap};
use crate::primitive::validity_of;
use crate::buffer::Buffer;
use crate::error::{ArrowError, Result};
use crate::binary::{offsets_ok, spans, BinaryArray};
use crate::boolean::BooleanArray;
use crate::primitive::PrimitiveArray;
use crate::utf8::{all_utf8, Utf8Array};
use crate::nested::{bools, byte_strings, fixed_slots, ints, list_slots, Scalar};
use crate::types::{DataType, NativeType, Offset};

verus! {

/// A buffer handed across the foreign boundary: a handle on an allocation that keeps it alive
/// for as long as either side holds one.
pub enum ForeignBuffer {
    U8(Arc<Vec<u8>>),
    U16(Arc<Vec<u16>>),
    U32(Arc<Vec<u32>>),
    U64(Arc<Vec<u64>>),
    I8(Arc<Vec<i8>>),
    I16(Arc<Vec<i16>>),
    I32(Arc<Vec<i32>>),
    I64(Arc<Vec<i64>>),
}

/// The flat description of an array handed across the foreign boundary: its `length`, the
/// `offset` of its first slot in each buffer, its number of nulls, its buffers (the validity
/// first, absent when no slot is null) and its children. Dropping it releases its hold on the
/// buffers.
pub struct ForeignArray {
    pub length: i64,
    pub offset: i64,
    pub null_count: i64,
    pub buffers: Vec<Option<ForeignBuffer>>,
    pub children: Vec<ForeignArray>,
}

/// `d` describes `length` slots from `offset`, both non-negative.
pub open spec fn header_ok(d: ForeignArray) -> bool {
    &&& 0 <= d.offset
    &&& 0 <= d.length
    &&& d.offset + d.length <= usize::MAX
}

/// The validity buffer of `d` is absent, or holds bytes with a bit for each of its slots.
pub open spec fn validity_ok(d: ForeignArray) -> bool {
    &&& d.buffers@.len() >= 1
    &&& match d.buffers@[0] {
        None => true,
        Some(ForeignBuffer::U8(b)) => d.offset + d.length <= 8 * b@.len(),
        Some(_) => false,
    }
}

/// The validity bits of the slots of `d`, when it has a validity buffer.
pub open spec fn foreign_validity(d: ForeignArray) -> Option<Seq<bool>> {
    match d.buffers@[0] {
        Some(ForeignBuffer::U8(b)) => Some(bits_of(b@, d.offset as int, d.length as int)),
        _ => None,
    }
}

/// The slots of a primitive array of `T` that `d` describes, if it describes one.
pub open spec fn imported_primitive<T: NativeType>(d: ForeignArray) -> Option<Seq<Option<T>>> {
    if header_ok(d) && d.buffers@.len() == 2 && d.children@.len() == 0 && validity_ok(d)
        && d.buffers@[1] is Some && T::foreign_data(d.buffers@[1]->0) is Some && d.offset
        + d.length <= T::foreign_data(d.buffers@[1]->0)->0.len() {
        Some(
            masked(
                T::foreign_data(d.buffers@[1]->0)->0.subrange(
                    d.offset as int,
                    d.offset + d.length,
                ),
                foreign_validity(d),
            ),
        )
    } else {
        None
    }
}

/// The bytes that `b` holds, when it holds bytes.
pub open spec fn foreign_bytes(b: Option<ForeignBuffer>) -> Option<Seq<u8>> {
    match b {
        Some(ForeignBuffer::U8(a)) => Some(a@),
        _ => None,
    }
}

/// The values of a boolean array that `d` describes, if it describes one.
pub open spec fn imported_boolean(d: ForeignArray) -> Option<Seq<Option<bool>>> {
    if header_ok(d) && d.buffers@.len() == 2 && d.children@.len() == 0 && validity_ok(d)
        && foreign_bytes(d.buffers@[1]) is Some && d.offset + d.length <= 8 * foreign_bytes(
        d.buffers@[1],
    )->0.len() {
        Some(
            masked(
                bits_of(foreign_bytes(d.buffers@[1])->0, d.offset as int, d.length as int),
                foreign_validity(d),
            ),
        )
    } else {
        None
    }
}

/// The entries of the offsets buffer of `d` that delimit its slots.
pub open spec fn foreign_offsets<O: Offset>(d: ForeignArray) -> Seq<O> {
    O::foreign_data(d.buffers@[1]->0)->0.subrange(d.offset as int, d.offset + d.length + 1)
}

/// `d` has an offsets buffer of `O` with an entry for each of its slots and one more.
pub open spec fn offsets_present<O: Offset>(d: ForeignArray) -> bool {
    &&& d.buffers@.len() >= 2
    &&& d.buffers@[1] is Some
    &&& O::foreign_data(d.buffers@[1]->0) is Some
    &&& d.offset + d.length + 1 <= O::foreign_data(d.buffers@[1]->0)->0.len()
}

/// The byte strings of an array with offsets of `O` that `d` describes, if it describes one.
pub open spec fn imported_binary<O: Offset>(d: ForeignArray) -> Option<Seq<Option<Seq<u8>>>> {
    if header_ok(d) && d.buffers@.len() == 3 && d.children@.len() == 0 && validity_ok(d)
        && offsets_present::<O>(d) && foreign_bytes(d.buffers@[2]) is Some && offsets_ok(
        foreign_offsets::<O>(d),
        foreign_bytes(d.buffers@[2])->0.len() as int,
    ) {
        Some(
            masked(
                spans(foreign_offsets::<O>(d), foreign_bytes(d.buffers@[2])->0),
                foreign_validity(d),
            ),
        )
    } else {
        None
    }
}

/// The strings of an array with offsets of `O` that `d` describes, if it describes one.
pub open spec fn imported_utf8<O: Offset>(d: ForeignArray) -> Option<Seq<Option<Seq<u8>>>> {
    if imported_binary::<O>(d) is Some && all_utf8(
        spans(foreign_offsets::<O>(d), foreign_bytes(d.buffers@[2])->0),
    ) {
        imported_binary::<O>(d)
    } else {
        None
    }
}

/// The slots of a list array with offsets of `O` that `d` describes, given the slots `child`
/// of its child.
pub open spec fn imported_list<O: Offset>(d: ForeignArray, child: Seq<Option<Scalar>>) -> Option<
    Seq<Option<Scalar>>,
> {
    if header_ok(d) && d.buffers@.len() == 2 && validity_ok(d) && offsets_present::<O>(d)
        && offsets_ok(foreign_offsets::<O>(d), child.len() as int) {
        Some(list_slots(foreign_offsets::<O>(d), foreign_validity(d), child))
    } else {
        None
    }
}

/// The slots of a list array of lists of `size` items that `d` describes, given the slots
/// `child` of its child.
pub open spec fn imported_fixed(d: ForeignArray, size: nat, child: Seq<Option<Scalar>>) -> Option<
    Seq<Option<Scalar>>,
> {
    if header_ok(d) && d.buffers@.len() == 1 && validity_ok(d) && size > 0 && (d.offset
        + d.length) * size <= child.len() {
        Some(fixed_slots(size, d.offset as nat, d.length as nat, foreign_validity(d), child))
    } else {
        None
    }
}

/// The slots of the array of type `data_type` that `d` describes, if it describes one.
pub open spec fn imported(d: ForeignArray, data_type: DataType) -> Option<Seq<Option<Scalar>>>
    decreases data_type,
{
    match data_type {
        DataType::Int8 => match imported_primitive::<i8>(d) {
            Some(s) => Some(ints(s)),
            None => None,
        },
        DataType::Int16 => match imported_primitive::<i16>(d) {
            Some(s) => Some(ints(s)),
            None => None,
        },
        DataType::Int32 => match imported_primitive::<i32>(d) {
            Some(s) => Some(ints(s)),
            None => None,
        },
        DataType::Int64 => match imported_primitive::<i64>(d) {
            Some(s) => Some(ints(s)),
            None => None,
        },
        DataType::UInt8 => match imported_primitive::<u8>(d) {
            Some(s) => Some(ints(s)),
            None => None,
        },
        DataType::UInt16 => match imported_primitive::<u16>(d) {
            Some(s) => Some(ints(s)),
            None => None,
        },
        DataType::UInt32 => match imported_primitive::<u32>(d) {
            Some(s) => Some(ints(s)),
            None => None,
        },
        DataType::UInt64 => match imported_primitive::<u64>(d) {
            Some(s) => Some(ints(s)),
            None => None,
        },
        DataType::Boolean => match imported_boolean(d) {
            Some(s) => Some(bools(s)),
            None => None,
        },
        DataType::Binary => match imported_binary::<i32>(d) {
            Some(s) => Some(byte_strings(s)),
            None => None,
        },
        DataType::LargeBinary => match imported_binary::<i64>(d) {
            Some(s) => Some(byte_strings(s)),
            None => None,
        },
        DataType::Utf8 => match imported_utf8::<i32>(d) {
            Some(s) => Some(byte_strings(s)),
            None => None,
        },
        DataType::LargeUtf8 => match imported_utf8::<i64>(d) {
            Some(s) => Some(byte_strings(s)),
            None => None,
        },
        DataType::List(child) => if d.children@.len() == 1 {
            match imported(d.children@[0], *child) {
                Some(c) => imported_list::<i32>(d, c),
                None => None,
            }
        } else {
            None
        },
        DataType::LargeList(child) => if d.children@.len() == 1 {
            match imported(d.children@[0], *child) {
                Some(c) => imported_list::<i64>(d, c),
                None => None,
            }
        } else {
            None
        },
        DataType::FixedSizeList(child, size) => if d.children@.len() == 1 {
            match imported(d.children@[0], *child) {
                Some(c) => imported_fixed(d, size as nat, c),
                None => None,
            }
        } else {
            None
        },
    }
}

/// Bytes holding the bits of `bitmap` from bit `offset` on, sharing its allocation when it
/// already starts there.
fn aligned_bytes(bitmap: &Bitmap, offset: usize) -> (r: Arc<Vec<u8>>)
    requires
        bitmap.wf(),
        offset + bitmap@.len() <= usize::MAX,
    ensures
        offset + bitmap@.len() <= 8 * r@.len(),
        bits_of(r@, offset as int, bitmap@.len() as int) == bitmap@,
{
    proof {
        bitmap.lemma_view();
    }
    if bitmap.offset() == offset {
        bitmap.shared_bytes()
    } else {
        let n = bitmap.len();
        let mut bits = MutableBitmap::with_capacity(offset + n);
        bits.extend_constant(offset, false);
        bits.extend_from_bitmap(bitmap, 0, n);
        let realigned = bits.into_bitmap();
        proof {
            realigned.lemma_view();
            assert(bitmap@.subrange(0, n as int) =~= bitmap@);
            assert forall|i: int| 0 <= i < n implies #[trigger] bits_of(
                realigned.spec_bytes(),
                offset as int,
                n as int,
            )[i] == bitmap@[i] by {
                assert(realigned@[offset + i] == bitmap@[i]);
            }
            assert(bits_of(realigned.spec_bytes(), offset as int, n as int) =~= bitmap@);
        }
        realigned.shared_bytes()
    }
}

/// The foreign validity buffer of an array of `length` slots from `offset` with `validity`.
pub(crate) fn export_validity(validity: &Option<Bitmap>, offset: usize, length: usize) -> (r: Option<
    ForeignBuffer,
>)
    requires
        validity matches Some(b) ==> b.wf() && b@.len() == length,
        offset + length <= usize::MAX,
    ensures
        match *validity {
            Some(b) => r matches Some(ForeignBuffer::U8(bytes)) && offset + length <= 8 * bytes@.len()
                && bits_of(bytes@, offset as int, length as int) == b@,
            None => r is None,
        },
{
    match validity {
        Some(b) => Some(ForeignBuffer::U8(aligned_bytes(b, offset))),
        None => None,
    }
}

/// The validity of the slots of `d`, sharing its buffer; an error when the buffer is not one
/// of bytes long enough.
pub(crate) fn import_validity(d: &ForeignArray, offset: usize, length: usize) -> (r: Result<Option<Bitmap>>)
    requires
        d.buffers@.len() >= 1,
        offset == d.offset,
        length == d.length,
        offset + length <= usize::MAX,
    ensures
        r is Ok <==> validity_ok(*d),
        r matches Ok(v) ==> validity_view(v) == foreign_validity(*d) && match v {
            Some(b) => b.wf() && b@.len() == length,
            None => true,
        },
{
    match &d.buffers[0] {
        None => Ok(None),
        Some(ForeignBuffer::U8(bytes)) => {
            if (offset + length) / 8 > bytes.len() || ((offset + length) / 8 == bytes.len() && (
            offset + length) % 8 != 0) {
                Err(ArrowError::Ffi("the validity buffer is too short".to_string()))
            } else {
                Ok(Some(Bitmap::from_shared(bytes.clone(), offset, length)))
            }
        },
        Some(_) => Err(ArrowError::Ffi("the validity buffer must hold bytes".to_string())),
    }
}

/// The offset and length that `d` declares, when both are non-negative and fit together.
pub(crate) fn import_header(d: &ForeignArray) -> (r: Result<(usize, usize)>)
    ensures
        r is Ok <==> header_ok(*d),
        r matches Ok(x) ==> x.0 == d.offset && x.1 == d.length,
{
    if d.offset < 0 || d.length < 0 {
        return Err(ArrowError::Ffi("offset and length must not be negative".to_string()));
    }
    let offset = d.offset as u64;
    let length = d.length as u64;
    if offset + length > usize::MAX as u64 {
        return Err(ArrowError::Ffi("offset and length exceed the address space".to_string()));
    }
    Ok((offset as usize, length as usize))
}

impl<T: NativeType> PrimitiveArray<T> {
    /// The foreign description of this array, sharing its buffers: the validity, then the
    /// values.
    pub fn to_ffi(&self) -> (r: ForeignArray)
        requires
            self.wf(),
            self.spec_values().spec_offset() + self@.len() <= i64::MAX,
        ensures
            imported_primitive::<T>(r) == Some(self@),
            r.buffers@[0] is None <==> self.spec_validity() is None,
            r.null_count == count_unset(validity_of(self@)),
    {
        proof {
            self.lemma_view();
            self.spec_values().lemma_view();
        }
        let values = self.values();
        let offset = values.offset();
        let length = values.len();
        let validity = self.validity();
        let null_count = self.null_count();
        proof {
            lemma_count_total(validity_of(self@));
        }
        let exported_validity = export_validity(&validity, offset, length);
        let exported_values = T::into_foreign(values.shared_data());
        let r = ForeignArray {
            length: length as i64,
            offset: offset as i64,
            null_count: null_count as i64,
            buffers: vec![exported_validity, Some(exported_values)],
            children: Vec::new(),
        };
        assert(r.buffers@[1] == Some(exported_values));
        assert(imported_primitive::<T>(r)->0 =~= self@);
        r
    }

    /// The array that `d` describes, sharing its buffers; an error when `d` does not describe
    /// a primitive array of `T`.
    pub fn try_from_ffi(d: &ForeignArray) -> (r: Result<Self>)
        ensures
            r is Ok <==> imported_primitive::<T>(*d) is Some,
            r matches Ok(a) ==> a.wf() && a@ == imported_primitive::<T>(*d)->0,
    {
        let (offset, length) = match import_header(d) {
            Ok(x) => x,
            Err(e) => {
                return Err(e);
            },
        };
        if d.buffers.len() != 2 {
            return Err(ArrowError::Ffi("a primitive array has two buffers".to_string()));
        }
        if d.children.len() != 0 {
            return Err(ArrowError::Ffi("a primitive array has no children".to_string()));
        }
        let validity = match import_validity(d, offset, length) {
            Ok(v) => v,
            Err(e) => {
                return Err(e);
            },
        };
        let data = match &d.buffers[1] {
            Some(b) => T::from_foreign(b),
            None => None,
        };
        let data = match data {
            Some(data) => data,
            None => {
                return Err(ArrowError::Ffi("the values buffer is not of the array's type".to_string()));
            },
        };
        if offset + length > data.len() {
            return Err(ArrowError::Ffi("the values buffer is too short".to_string()));
        }
        let values = Buffer::from_shared(data, offset, length);
        Ok(PrimitiveArray::from_data(values, validity))
    }
}


/// Bytes that start with those of `values`, sharing its allocation when it starts there.
fn bytes_from_start(values: &Buffer<u8>) -> (r: Arc<Vec<u8>>)
    requires
        values.wf(),
    ensures
        values@.len() <= r@.len(),
        r@.subrange(0, values@.len() as int) == values@,
{
    proof {
        values.lemma_view();
    }
    if values.offset() == 0 {
        values.shared_data()
    } else {
        Arc::new(vstd::slice::slice_to_vec(values.as_slice()))
    }
}

/// The offset buffer of `d`, from its entry `offset` on, holding `length + 1` entries; an
/// error when it is absent, of another type or too short.
pub(crate) fn import_offsets<O: Offset>(d: &ForeignArray, offset: usize, length: usize) -> (r: Result<
    Buffer<O>,
>)
    requires
        d.buffers@.len() >= 2,
        offset == d.offset,
        length == d.length,
        offset + length <= usize::MAX,
    ensures
        r is Ok <==> offsets_present::<O>(*d),
        r matches Ok(b) ==> b.wf() && b@ == foreign_offsets::<O>(*d),
{
    let data = match &d.buffers[1] {
        Some(b) => O::from_foreign(b),
        None => None,
    };
    match data {
        Some(data) => {
            if offset + length >= data.len() {
                Err(ArrowError::Ffi("the offsets buffer is too short".to_string()))
            } else {
                Ok(Buffer::from_shared(data, offset, length + 1))
            }
        },
        None => Err(ArrowError::Ffi("the offsets buffer is not of the offset type".to_string())),
    }
}

impl BooleanArray {
    /// The foreign description of this array, sharing its buffers: the validity, then the
    /// values.
    pub fn to_ffi(&self) -> (r: ForeignArray)
        requires
            self.wf(),
            self.spec_values().spec_offset() + self@.len() <= i64::MAX,
        ensures
            imported_boolean(r) == Some(self@),
            r.buffers@[0] is None <==> self.spec_validity() is None,
            r.null_count == count_unset(validity_of(self@)),
    {
        proof {
            self.lemma_view();
            self.spec_values().lemma_view();
        }
        let values = self.values();
        let offset = values.offset();
        let length = values.len();
        let validity = self.validity();
        let null_count = self.null_count();
        proof {
            lemma_count_total(validity_of(self@));
        }
        let exported_validity = export_validity(&validity, offset, length);
        let exported_values = ForeignBuffer::U8(values.shared_bytes());
        let r = ForeignArray {
            length: length as i64,
            offset: offset as i64,
            null_count: null_count as i64,
            buffers: vec![exported_validity, Some(exported_values)],
            children: Vec::new(),
        };
        assert(r.buffers@[1] == Some(exported_values));
        assert(imported_boolean(r)->0 =~= self@);
        r
    }

    /// The array that `d` describes, sharing its buffers; an error when `d` does not describe
    /// a boolean array.
    pub fn try_from_ffi(d: &ForeignArray) -> (r: Result<Self>)
        ensures
            r is Ok <==> imported_boolean(*d) is Some,
            r matches Ok(a) ==> a.wf() && a@ == imported_boolean(*d)->0,
    {
        let (offset, length) = match import_header(d) {
            Ok(x) => x,
            Err(e) => {
                return Err(e);
            },
        };
        if d.buffers.len() != 2 {
            return Err(ArrowError::Ffi("a boolean array has two buffers".to_string()));
        }
        if d.children.len() != 0 {
            return Err(ArrowError::Ffi("a boolean array has no children".to_string()));
        }
        let validity = match import_validity(d, offset, length) {
            Ok(v) => v,
            Err(e) => {
                return Err(e);
            },
        };
        let bytes = match &d.buffers[1] {
            Some(ForeignBuffer::U8(bytes)) => bytes.clone(),
            _ => {
                return Err(ArrowError::Ffi("the values buffer must hold bytes".to_string()));
            },
        };
        if (offset + length) / 8 > bytes.len() || ((offset + length) / 8 == bytes.len() && (offset
            + length) % 8 != 0) {
            return Err(ArrowError::Ffi("the values buffer is too short".to_string()));
        }
        let values = Bitmap::from_shared(bytes, offset, length);
        Ok(BooleanArray::from_data(values, validity))
    }
}

impl<O: Offset> BinaryArray<O> {
    /// The foreign description of this array, sharing its buffers when it can: the validity,
    /// the offsets, then the bytes.
    pub fn to_ffi(&self) -> (r: ForeignArray)
        requires
            self.wf(),
            self.spec_offsets().spec_offset() + self@.len() <= i64::MAX,
        ensures
            imported_binary::<O>(r) == Some(self@),
            r.buffers@[0] is None <==> self.spec_validity() is None,
            r.null_count == count_unset(validity_of(self@)),
            spans(foreign_offsets::<O>(r), foreign_bytes(r.buffers@[2])->0) == self.spec_spans(),
    {
        proof {
            self.lemma_view();
            self.spec_offsets().lemma_view();
            self.spec_values().lemma_view();
        }
        let offsets = self.offsets();
        let offset = offsets.offset();
        let length = offsets.len() - 1;
        let validity = self.validity();
        let null_count = self.null_count();
        proof {
            lemma_count_total(validity_of(self@));
        }
        let exported_validity = export_validity(&validity, offset, length);
        let exported_offsets = O::into_foreign(offsets.shared_data());
        let bytes = bytes_from_start(self.values());
        let ghost view = self.spec_values()@;
        let exported_values = ForeignBuffer::U8(bytes);
        let r = ForeignArray {
            length: length as i64,
            offset: offset as i64,
            null_count: null_count as i64,
            buffers: vec![exported_validity, Some(exported_offsets), Some(exported_values)],
            children: Vec::new(),
        };
        proof {
            assert(r.buffers@[1] == Some(exported_offsets));
            assert(r.buffers@[2] == Some(exported_values));
            assert(foreign_offsets::<O>(r) =~= offsets@);
            let offs = offsets@;
            assert forall|i: int| 0 <= i < offs.len() implies 0 <= #[trigger] offs[i].as_int()
                <= bytes@.len() by {}
            assert forall|i: int| 0 <= i < length implies #[trigger] spans(offs, bytes@)[i]
                == spans(offs, view)[i] by {
                assert(offs[i].as_int() <= offs[i + 1].as_int());
                assert(bytes@.subrange(offs[i].as_int(), offs[i + 1].as_int()) =~= bytes@.subrange(
                    0,
                    view.len() as int,
                ).subrange(offs[i].as_int(), offs[i + 1].as_int()));
            }
            assert(spans(offs, bytes@) =~= spans(offs, view));
            assert(imported_binary::<O>(r)->0 =~= self@);
        }
        r
    }

    /// The array that `d` describes, sharing its buffers; an error when `d` does not describe
    /// an array of byte strings with offsets of `O`.
    pub fn try_from_ffi(d: &ForeignArray) -> (r: Result<Self>)
        ensures
            r is Ok <==> imported_binary::<O>(*d) is Some,
            r matches Ok(a) ==> a.wf() && a@ == imported_binary::<O>(*d)->0 && a.spec_spans()
                == spans(foreign_offsets::<O>(*d), foreign_bytes(d.buffers@[2])->0),
    {
        let (offset, length) = match import_header(d) {
            Ok(x) => x,
            Err(e) => {
                return Err(e);
            },
        };
        if d.buffers.len() != 3 {
            return Err(ArrowError::Ffi("an array of byte strings has three buffers".to_string()));
        }
        if d.children.len() != 0 {
            return Err(ArrowError::Ffi("an array of byte strings has no children".to_string()));
        }
        let validity = match import_validity(d, offset, length) {
            Ok(v) => v,
            Err(e) => {
                return Err(e);
            },
        };
        let offsets = match import_offsets::<O>(d, offset, length) {
            Ok(o) => o,
            Err(e) => {
                return Err(e);
            },
        };
        let bytes = match &d.buffers[2] {
            Some(ForeignBuffer::U8(bytes)) => bytes.clone(),
            _ => {
                return Err(ArrowError::Ffi("the values buffer must hold bytes".to_string()));
            },
        };
        let n = bytes.len();
        let values = Buffer::from_shared(bytes, 0, n);
        assert(values@ =~= foreign_bytes(d.buffers@[2])->0);
        match BinaryArray::try_new(offsets, values, validity) {
            Ok(a) => Ok(a),
            Err(_) => Err(ArrowError::Ffi("the offsets are not an index into the values".to_string())),
        }
    }
}

impl<O: Offset> Utf8Array<O> {
    /// The foreign description of this array, sharing its buffers when it can: the validity,
    /// the offsets, then the bytes.
    pub fn to_ffi(&self) -> (r: ForeignArray)
        requires
            self.wf(),
            self.spec_binary().spec_offsets().spec_offset() + self@.len() <= i64::MAX,
        ensures
            imported_utf8::<O>(r) == Some(self@),
            r.buffers@[0] is None <==> self.spec_binary().spec_validity() is None,
            r.null_count == count_unset(validity_of(self@)),
    {
        proof {
            self.lemma_view();
        }
        let r = self.as_binary().to_ffi();
        proof {
            let binary = self.spec_binary();
            binary.lemma_view();
            let spans_out = spans(foreign_offsets::<O>(r), foreign_bytes(r.buffers@[2])->0);
            assert(spans_out.len() == binary.spec_spans().len());
            assert(spans_out == binary.spec_spans());
        }
        r
    }

    /// The array that `d` describes, sharing its buffers; an error when `d` does not describe
    /// an array of strings with offsets of `O`.
    pub fn try_from_ffi(d: &ForeignArray) -> (r: Result<Self>)
        ensures
            r is Ok <==> imported_utf8::<O>(*d) is Some,
            r matches Ok(a) ==> a.wf() && a@ == imported_utf8::<O>(*d)->0,
    {
        let binary = match BinaryArray::<O>::try_from_ffi(d) {
            Ok(b) => b,
            Err(e) => {
                return Err(e);
            },
        };
        match Utf8Array::try_from_binary(binary) {
            Ok(a) => Ok(a),
            Err(_) => Err(ArrowError::Ffi("a string is not valid UTF-8".to_string())),
        }
    }
}

} // verus!
