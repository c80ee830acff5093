use std::sync::Arc;
use vstd::prelude::*;

use crate::array::{
    lemma_masked_subrange, masked, share_validity, slice_validity, sub_validity, validity_is_null,
    validity_null_count, validity_view, validity_wf,
};
use crate::binary::{offsets_ok, BinaryArray};
use crate::bitmap::Bitmap;
use crate::boolean::BooleanArray;
use crate::buffer::Buffer;
use crate::error::{ArrowError, Result};
use crate::primitive::PrimitiveArray;
use crate::ffi::{
    export_validity, foreign_offsets, foreign_validity, import_header, import_offsets,
    import_validity, imported, ForeignArray,
};
use crate::types::{DataType, NativeType, Offset};
use crate::utf8::Utf8Array;

verus! {

/// The logical value of a non-null slot of an [`Array`].
pub enum Scalar {
    Int(int),
    Bool(bool),
    Bytes(Seq<u8>),
    List(Seq<Option<Scalar>>),
}

/// The slots of a primitive array as scalars.
pub open spec fn ints<T: NativeType>(s: Seq<Option<T>>) -> Seq<Option<Scalar>> {
    Seq::new(
        s.len(),
        |i: int|
            match s[i] {
                Some(v) => Some(Scalar::Int(v.as_int())),
                None => None,
            },
    )
}

/// The slots of a boolean array as scalars.
pub open spec fn bools(s: Seq<Option<bool>>) -> Seq<Option<Scalar>> {
    Seq::new(
        s.len(),
        |i: int|
            match s[i] {
                Some(v) => Some(Scalar::Bool(v)),
                None => None,
            },
    )
}

/// The slots of an array of byte strings as scalars.
pub open spec fn byte_strings(s: Seq<Option<Seq<u8>>>) -> Seq<Option<Scalar>> {
    Seq::new(
        s.len(),
        |i: int|
            match s[i] {
                Some(v) => Some(Scalar::Bytes(v)),
                None => None,
            },
    )
}

/// The slots of a list array whose `offsets` index into a child array of slots `child`.
pub open spec fn list_slots<O: Offset>(
    offsets: Seq<O>,
    validity: Option<Seq<bool>>,
    child: Seq<Option<Scalar>>,
) -> Seq<Option<Scalar>> {
    masked(
        Seq::new(
            (offsets.len() - 1) as nat,
            |i: int| Scalar::List(child.subrange(offsets[i].as_int(), offsets[i + 1].as_int())),
        ),
        validity,
    )
}

/// The slots of a list array of `length` lists of `size` items each, from the list at
/// `offset` on, of a child array of slots `child`.
pub open spec fn fixed_slots(
    size: nat,
    offset: nat,
    length: nat,
    validity: Option<Seq<bool>>,
    child: Seq<Option<Scalar>>,
) -> Seq<Option<Scalar>> {
    masked(
        Seq::new(
            length,
            |i: int| Scalar::List(child.subrange((offset + i) * size, (offset + i + 1) * size)),
        ),
        validity,
    )
}

/// An array whose slots are lists of consecutive slots of a child array, delimited by an
/// offsets index of type `O`. The child is shared, not copied.
pub struct ListArray<O> {
    offsets: Buffer<O>,
    values: Arc<Array>,
    validity: Option<Bitmap>,
}

/// An array whose slots are lists of `size` consecutive slots of a child array, from the
/// list at `offset` of the child on.
pub struct FixedSizeListArray {
    size: usize,
    offset: usize,
    length: usize,
    values: Arc<Array>,
    validity: Option<Bitmap>,
}

/// An array of any of the supported shapes.
pub enum Array {
    Int8(PrimitiveArray<i8>),
    Int16(PrimitiveArray<i16>),
    Int32(PrimitiveArray<i32>),
    Int64(PrimitiveArray<i64>),
    UInt8(PrimitiveArray<u8>),
    UInt16(PrimitiveArray<u16>),
    UInt32(PrimitiveArray<u32>),
    UInt64(PrimitiveArray<u64>),
    Boolean(BooleanArray),
    Binary(BinaryArray<i32>),
    LargeBinary(BinaryArray<i64>),
    Utf8(Utf8Array<i32>),
    LargeUtf8(Utf8Array<i64>),
    List(ListArray<i32>),
    LargeList(ListArray<i64>),
    FixedSizeList(FixedSizeListArray),
}

impl Array {
    /// The array satisfies the invariants of its shape, its children included.
    pub closed spec fn wf(&self) -> bool
        decreases self,
    {
        match self {
            Array::Int8(a) => a.wf(),
            Array::Int16(a) => a.wf(),
            Array::Int32(a) => a.wf(),
            Array::Int64(a) => a.wf(),
            Array::UInt8(a) => a.wf(),
            Array::UInt16(a) => a.wf(),
            Array::UInt32(a) => a.wf(),
            Array::UInt64(a) => a.wf(),
            Array::Boolean(a) => a.wf(),
            Array::Binary(a) => a.wf(),
            Array::LargeBinary(a) => a.wf(),
            Array::Utf8(a) => a.wf(),
            Array::LargeUtf8(a) => a.wf(),
            Array::List(l) => {
                &&& l.offsets.wf()
                &&& offsets_ok(l.offsets@, l.values.view().len() as int)
                &&& validity_wf(l.validity, (l.offsets@.len() - 1) as nat)
                &&& l.values.wf()
            },
            Array::LargeList(l) => {
                &&& l.offsets.wf()
                &&& offsets_ok(l.offsets@, l.values.view().len() as int)
                &&& validity_wf(l.validity, (l.offsets@.len() - 1) as nat)
                &&& l.values.wf()
            },
            Array::FixedSizeList(l) => {
                &&& l.size > 0
                &&& (l.offset + l.length) * l.size <= l.values.view().len()
                &&& validity_wf(l.validity, l.length as nat)
                &&& l.values.wf()
            },
        }
    }

    /// The slots of the array.
    pub closed spec fn view(&self) -> Seq<Option<Scalar>>
        decreases self,
    {
        match self {
            Array::Int8(a) => ints(a@),
            Array::Int16(a) => ints(a@),
            Array::Int32(a) => ints(a@),
            Array::Int64(a) => ints(a@),
            Array::UInt8(a) => ints(a@),
            Array::UInt16(a) => ints(a@),
            Array::UInt32(a) => ints(a@),
            Array::UInt64(a) => ints(a@),
            Array::Boolean(a) => bools(a@),
            Array::Binary(a) => byte_strings(a@),
            Array::LargeBinary(a) => byte_strings(a@),
            Array::Utf8(a) => byte_strings(a@),
            Array::LargeUtf8(a) => byte_strings(a@),
            Array::List(l) => list_slots(l.offsets@, validity_view(l.validity), l.values.view()),
            Array::LargeList(l) => list_slots(
                l.offsets@,
                validity_view(l.validity),
                l.values.view(),
            ),
            Array::FixedSizeList(l) => fixed_slots(
                l.size as nat,
                l.offset as nat,
                l.length as nat,
                validity_view(l.validity),
                l.values.view(),
            ),
        }
    }

    /// How deep lists nest in the array: zero when it holds no list.
    pub closed spec fn depth(&self) -> nat
        decreases self,
    {
        match self {
            Array::List(l) => 1 + l.values.depth(),
            Array::LargeList(l) => 1 + l.values.depth(),
            Array::FixedSizeList(l) => 1 + l.values.depth(),
            _ => 0,
        }
    }

    /// The logical type of the array.
    pub closed spec fn data_type_spec(&self) -> DataType
        decreases self,
    {
        match self {
            Array::Int8(_) => DataType::Int8,
            Array::Int16(_) => DataType::Int16,
            Array::Int32(_) => DataType::Int32,
            Array::Int64(_) => DataType::Int64,
            Array::UInt8(_) => DataType::UInt8,
            Array::UInt16(_) => DataType::UInt16,
            Array::UInt32(_) => DataType::UInt32,
            Array::UInt64(_) => DataType::UInt64,
            Array::Boolean(_) => DataType::Boolean,
            Array::Binary(_) => DataType::Binary,
            Array::LargeBinary(_) => DataType::LargeBinary,
            Array::Utf8(_) => DataType::Utf8,
            Array::LargeUtf8(_) => DataType::LargeUtf8,
            Array::List(l) => DataType::List(Box::new(l.values.data_type_spec())),
            Array::LargeList(l) => DataType::LargeList(Box::new(l.values.data_type_spec())),
            Array::FixedSizeList(l) => DataType::FixedSizeList(
                Box::new(l.values.data_type_spec()),
                l.size,
            ),
        }
    }

    /// The logical type of the array.
    pub fn data_type(&self) -> (r: DataType)
        ensures
            r == self.data_type_spec(),
        decreases self,
    {
        match self {
            Array::Int8(_) => DataType::Int8,
            Array::Int16(_) => DataType::Int16,
            Array::Int32(_) => DataType::Int32,
            Array::Int64(_) => DataType::Int64,
            Array::UInt8(_) => DataType::UInt8,
            Array::UInt16(_) => DataType::UInt16,
            Array::UInt32(_) => DataType::UInt32,
            Array::UInt64(_) => DataType::UInt64,
            Array::Boolean(_) => DataType::Boolean,
            Array::Binary(_) => DataType::Binary,
            Array::LargeBinary(_) => DataType::LargeBinary,
            Array::Utf8(_) => DataType::Utf8,
            Array::LargeUtf8(_) => DataType::LargeUtf8,
            Array::List(l) => DataType::List(Box::new(l.values.data_type())),
            Array::LargeList(l) => DataType::LargeList(Box::new(l.values.data_type())),
            Array::FixedSizeList(l) => DataType::FixedSizeList(
                Box::new(l.values.data_type()),
                l.size,
            ),
        }
    }

    /// The offsets and lengths of the array and of its children fit the foreign description.
    pub closed spec fn ffi_fits(&self) -> bool
        decreases self,
    {
        match self {
            Array::Int8(a) => a.spec_values().spec_offset() + a@.len() <= i64::MAX,
            Array::Int16(a) => a.spec_values().spec_offset() + a@.len() <= i64::MAX,
            Array::Int32(a) => a.spec_values().spec_offset() + a@.len() <= i64::MAX,
            Array::Int64(a) => a.spec_values().spec_offset() + a@.len() <= i64::MAX,
            Array::UInt8(a) => a.spec_values().spec_offset() + a@.len() <= i64::MAX,
            Array::UInt16(a) => a.spec_values().spec_offset() + a@.len() <= i64::MAX,
            Array::UInt32(a) => a.spec_values().spec_offset() + a@.len() <= i64::MAX,
            Array::UInt64(a) => a.spec_values().spec_offset() + a@.len() <= i64::MAX,
            Array::Boolean(a) => a.spec_values().spec_offset() + a@.len() <= i64::MAX,
            Array::Binary(a) => a.spec_offsets().spec_offset() + a@.len() <= i64::MAX,
            Array::LargeBinary(a) => a.spec_offsets().spec_offset() + a@.len() <= i64::MAX,
            Array::Utf8(a) => a.spec_binary().spec_offsets().spec_offset() + a@.len() <= i64::MAX,
            Array::LargeUtf8(a) => a.spec_binary().spec_offsets().spec_offset() + a@.len() <= i64::MAX,
            Array::List(l) => l.offsets.spec_offset() + l.offsets@.len() <= i64::MAX
                && l.values.ffi_fits(),
            Array::LargeList(l) => l.offsets.spec_offset() + l.offsets@.len() <= i64::MAX
                && l.values.ffi_fits(),
            Array::FixedSizeList(l) => l.offset + l.length <= i64::MAX && l.values.ffi_fits(),
        }
    }

    /// The foreign description of this array and of its children, sharing their buffers.
    pub fn to_ffi(&self) -> (r: ForeignArray)
        requires
            self.wf(),
            self.ffi_fits(),
        ensures
            imported(r, self.data_type_spec()) == Some(self.view()),
        decreases self,
    {
        proof {
            self.lemma_leaf();
        }
        match self {
            Array::Int8(a) => a.to_ffi(),
            Array::Int16(a) => a.to_ffi(),
            Array::Int32(a) => a.to_ffi(),
            Array::Int64(a) => a.to_ffi(),
            Array::UInt8(a) => a.to_ffi(),
            Array::UInt16(a) => a.to_ffi(),
            Array::UInt32(a) => a.to_ffi(),
            Array::UInt64(a) => a.to_ffi(),
            Array::Boolean(a) => a.to_ffi(),
            Array::Binary(a) => a.to_ffi(),
            Array::LargeBinary(a) => a.to_ffi(),
            Array::Utf8(a) => a.to_ffi(),
            Array::LargeUtf8(a) => a.to_ffi(),
            Array::List(l) => l.to_ffi(),
            Array::LargeList(l) => l.to_ffi(),
            Array::FixedSizeList(l) => l.to_ffi(),
        }
    }

    /// The array of type `data_type` that `d` describes, sharing its buffers; an error when
    /// `d` does not describe one.
    pub fn try_from_ffi(d: &ForeignArray, data_type: &DataType) -> (r: Result<Array>)
        ensures
            r is Ok <==> imported(*d, *data_type) is Some,
            r matches Ok(a) ==> a.wf() && a.view() == imported(*d, *data_type)->0,
        decreases data_type, 0nat,
    {
        let r = match data_type {
            DataType::Int8 => match PrimitiveArray::<i8>::try_from_ffi(d) {
                Ok(a) => Array::Int8(a),
                Err(e) => {
                    return Err(e);
                },
            },
            DataType::Int16 => match PrimitiveArray::<i16>::try_from_ffi(d) {
                Ok(a) => Array::Int16(a),
                Err(e) => {
                    return Err(e);
                },
            },
            DataType::Int32 => match PrimitiveArray::<i32>::try_from_ffi(d) {
                Ok(a) => Array::Int32(a),
                Err(e) => {
                    return Err(e);
                },
            },
            DataType::Int64 => match PrimitiveArray::<i64>::try_from_ffi(d) {
                Ok(a) => Array::Int64(a),
                Err(e) => {
                    return Err(e);
                },
            },
            DataType::UInt8 => match PrimitiveArray::<u8>::try_from_ffi(d) {
                Ok(a) => Array::UInt8(a),
                Err(e) => {
                    return Err(e);
                },
            },
            DataType::UInt16 => match PrimitiveArray::<u16>::try_from_ffi(d) {
                Ok(a) => Array::UInt16(a),
                Err(e) => {
                    return Err(e);
                },
            },
            DataType::UInt32 => match PrimitiveArray::<u32>::try_from_ffi(d) {
                Ok(a) => Array::UInt32(a),
                Err(e) => {
                    return Err(e);
                },
            },
            DataType::UInt64 => match PrimitiveArray::<u64>::try_from_ffi(d) {
                Ok(a) => Array::UInt64(a),
                Err(e) => {
                    return Err(e);
                },
            },
            DataType::Boolean => match BooleanArray::try_from_ffi(d) {
                Ok(a) => Array::Boolean(a),
                Err(e) => {
                    return Err(e);
                },
            },
            DataType::Binary => match BinaryArray::<i32>::try_from_ffi(d) {
                Ok(a) => Array::Binary(a),
                Err(e) => {
                    return Err(e);
                },
            },
            DataType::LargeBinary => match BinaryArray::<i64>::try_from_ffi(d) {
                Ok(a) => Array::LargeBinary(a),
                Err(e) => {
                    return Err(e);
                },
            },
            DataType::Utf8 => match Utf8Array::<i32>::try_from_ffi(d) {
                Ok(a) => Array::Utf8(a),
                Err(e) => {
                    return Err(e);
                },
            },
            DataType::LargeUtf8 => match Utf8Array::<i64>::try_from_ffi(d) {
                Ok(a) => Array::LargeUtf8(a),
                Err(e) => {
                    return Err(e);
                },
            },
            DataType::List(child) => match ListArray::<i32>::try_from_ffi(d, child) {
                Ok(l) => Array::List(l),
                Err(e) => {
                    return Err(e);
                },
            },
            DataType::LargeList(child) => match ListArray::<i64>::try_from_ffi(d, child) {
                Ok(l) => Array::LargeList(l),
                Err(e) => {
                    return Err(e);
                },
            },
            DataType::FixedSizeList(child, size) => match FixedSizeListArray::try_from_ffi(
                d,
                child,
                *size,
            ) {
                Ok(l) => Array::FixedSizeList(l),
                Err(e) => {
                    return Err(e);
                },
            },
        };
        proof {
            r.lemma_leaf();
        }
        Ok(r)
    }

    /// The slots, invariants and type of each shape of array.
    pub proof fn lemma_leaf(&self)
        ensures
            match *self {
                Array::List(l) => self.view() == l.slots() && self.wf() == l.wf() && self.depth()
                    == 1 + l.spec_values().depth() && self.data_type_spec() == DataType::List(
                    Box::new(l.spec_values().data_type_spec()),
                ),
                Array::LargeList(l) => self.view() == l.slots() && self.wf() == l.wf()
                    && self.depth() == 1 + l.spec_values().depth() && self.data_type_spec()
                    == DataType::LargeList(Box::new(l.spec_values().data_type_spec())),
                Array::FixedSizeList(l) => self.view() == l.slots() && self.wf() == l.wf()
                    && self.depth() == 1 + l.spec_values().depth() && self.data_type_spec()
                    == DataType::FixedSizeList(
                    Box::new(l.spec_values().data_type_spec()),
                    l.spec_size() as usize,
                ),
                _ => true,
            },
            match *self {
                Array::Int8(a) => self.view() == ints(a@) && self.wf() == a.wf()
                    && self.data_type_spec() == DataType::Int8,
                Array::Int16(a) => self.view() == ints(a@) && self.wf() == a.wf()
                    && self.data_type_spec() == DataType::Int16,
                Array::Int32(a) => self.view() == ints(a@) && self.wf() == a.wf()
                    && self.data_type_spec() == DataType::Int32,
                Array::Int64(a) => self.view() == ints(a@) && self.wf() == a.wf()
                    && self.data_type_spec() == DataType::Int64,
                Array::UInt8(a) => self.view() == ints(a@) && self.wf() == a.wf()
                    && self.data_type_spec() == DataType::UInt8,
                Array::UInt16(a) => self.view() == ints(a@) && self.wf() == a.wf()
                    && self.data_type_spec() == DataType::UInt16,
                Array::UInt32(a) => self.view() == ints(a@) && self.wf() == a.wf()
                    && self.data_type_spec() == DataType::UInt32,
                Array::UInt64(a) => self.view() == ints(a@) && self.wf() == a.wf()
                    && self.data_type_spec() == DataType::UInt64,
                Array::Boolean(a) => self.view() == bools(a@) && self.wf() == a.wf()
                    && self.data_type_spec() == DataType::Boolean,
                Array::Binary(a) => self.view() == byte_strings(a@) && self.wf() == a.wf()
                    && self.data_type_spec() == DataType::Binary,
                Array::LargeBinary(a) => self.view() == byte_strings(a@) && self.wf() == a.wf()
                    && self.data_type_spec() == DataType::LargeBinary,
                Array::Utf8(a) => self.view() == byte_strings(a@) && self.wf() == a.wf()
                    && self.data_type_spec() == DataType::Utf8,
                Array::LargeUtf8(a) => self.view() == byte_strings(a@) && self.wf() == a.wf()
                    && self.data_type_spec() == DataType::LargeUtf8,
                _ => true,
            },
    {
    }

    pub fn len(&self) -> (r: usize)
        requires
            self.wf(),
        ensures
            r == self.view().len(),
    {
        match self {
            Array::Int8(a) => a.len(),
            Array::Int16(a) => a.len(),
            Array::Int32(a) => a.len(),
            Array::Int64(a) => a.len(),
            Array::UInt8(a) => a.len(),
            Array::UInt16(a) => a.len(),
            Array::UInt32(a) => a.len(),
            Array::UInt64(a) => a.len(),
            Array::Boolean(a) => a.len(),
            Array::Binary(a) => a.len(),
            Array::LargeBinary(a) => a.len(),
            Array::Utf8(a) => a.len(),
            Array::LargeUtf8(a) => a.len(),
            Array::List(l) => l.offsets.len() - 1,
            Array::LargeList(l) => l.offsets.len() - 1,
            Array::FixedSizeList(l) => l.length,
        }
    }

    /// Whether slot `i` is null.
    pub fn is_null(&self, i: usize) -> (r: bool)
        requires
            self.wf(),
            i < self.view().len(),
        ensures
            r == (self.view()[i as int] is None),
    {
        match self {
            Array::Int8(a) => a.is_null(i),
            Array::Int16(a) => a.is_null(i),
            Array::Int32(a) => a.is_null(i),
            Array::Int64(a) => a.is_null(i),
            Array::UInt8(a) => a.is_null(i),
            Array::UInt16(a) => a.is_null(i),
            Array::UInt32(a) => a.is_null(i),
            Array::UInt64(a) => a.is_null(i),
            Array::Boolean(a) => a.is_null(i),
            Array::Binary(a) => a.is_null(i),
            Array::LargeBinary(a) => a.is_null(i),
            Array::Utf8(a) => a.is_null(i),
            Array::LargeUtf8(a) => a.is_null(i),
            Array::List(l) => validity_is_null(&l.validity, i, l.offsets.len() - 1),
            Array::LargeList(l) => validity_is_null(&l.validity, i, l.offsets.len() - 1),
            Array::FixedSizeList(l) => validity_is_null(&l.validity, i, l.length),
        }
    }

    /// The slots `offset..offset + length`, sharing all buffers and children.
    pub fn slice(&self, offset: usize, length: usize) -> (r: Array)
        requires
            self.wf(),
            offset + length <= self.view().len(),
        ensures
            r.wf(),
            r.view() == self.view().subrange(offset as int, offset + length),
            r.data_type_spec() == self.data_type_spec(),
    {
        let r = match self {
            Array::Int8(a) => Array::Int8(a.slice(offset, length)),
            Array::Int16(a) => Array::Int16(a.slice(offset, length)),
            Array::Int32(a) => Array::Int32(a.slice(offset, length)),
            Array::Int64(a) => Array::Int64(a.slice(offset, length)),
            Array::UInt8(a) => Array::UInt8(a.slice(offset, length)),
            Array::UInt16(a) => Array::UInt16(a.slice(offset, length)),
            Array::UInt32(a) => Array::UInt32(a.slice(offset, length)),
            Array::UInt64(a) => Array::UInt64(a.slice(offset, length)),
            Array::Boolean(a) => Array::Boolean(a.slice(offset, length)),
            Array::Binary(a) => Array::Binary(a.slice(offset, length)),
            Array::LargeBinary(a) => Array::LargeBinary(a.slice(offset, length)),
            Array::Utf8(a) => Array::Utf8(a.slice(offset, length)),
            Array::LargeUtf8(a) => Array::LargeUtf8(a.slice(offset, length)),
            Array::List(l) => Array::List(l.slice(offset, length)),
            Array::LargeList(l) => Array::LargeList(l.slice(offset, length)),
            Array::FixedSizeList(l) => Array::FixedSizeList(l.slice(offset, length)),
        };
        assert(r.view() =~= self.view().subrange(offset as int, offset + length));
        r
    }

    /// Another handle on the same array, sharing all buffers and children.
    pub fn share(&self) -> (r: Array)
        requires
            self.wf(),
        ensures
            r.wf(),
            r.view() == self.view(),
    {
        let n = self.len();
        let r = self.slice(0, n);
        assert(self.view().subrange(0, n as int) =~= self.view());
        r
    }
}

impl<O: Offset> ListArray<O> {
    /// The array satisfies its invariants, its child included.
    pub closed spec fn wf(&self) -> bool {
        &&& self.offsets.wf()
        &&& offsets_ok(self.offsets@, self.values.view().len() as int)
        &&& validity_wf(self.validity, (self.offsets@.len() - 1) as nat)
        &&& self.values.wf()
    }

    /// The slots of the array.
    pub closed spec fn slots(&self) -> Seq<Option<Scalar>> {
        list_slots(self.offsets@, validity_view(self.validity), self.values.view())
    }

    /// What the invariants of a list array say of its parts.
    pub proof fn lemma_parts(&self)
        requires
            self.wf(),
        ensures
            offsets_ok(self.spec_offsets(), self.spec_values().view().len() as int),
            validity_wf(self.spec_validity(), (self.spec_offsets().len() - 1) as nat),
            self.spec_values().wf(),
            self.slots().len() + 1 == self.spec_offsets().len(),
    {
    }

    pub proof fn lemma_slots(&self)
        ensures
            self.slots() == list_slots(
                self.spec_offsets(),
                validity_view(self.spec_validity()),
                self.spec_values().view(),
            ),
    {
    }

    pub closed spec fn spec_offsets(&self) -> Seq<O> {
        self.offsets@
    }

    pub closed spec fn spec_values(&self) -> Array {
        *self.values
    }

    pub closed spec fn spec_validity(&self) -> Option<Bitmap> {
        self.validity
    }

    /// The list array of `offsets` into the child array `values`, with `validity`.
    pub fn from_data(offsets: Buffer<O>, values: Arc<Array>, validity: Option<Bitmap>) -> (r: Self)
        requires
            offsets.wf(),
            values.wf(),
            offsets_ok(offsets@, values.view().len() as int),
            validity_wf(validity, (offsets@.len() - 1) as nat),
        ensures
            r.wf(),
            r.slots() == list_slots(offsets@, validity_view(validity), values.view()),
            r.spec_offsets() == offsets@,
            r.spec_values() == *values,
            r.spec_validity() == validity,
    {
        ListArray { offsets, values, validity }
    }

    /// The list array of `offsets` into the child array `values`, with `validity`; an error
    /// when the offsets are not a non-decreasing index into the child or the validity's length
    /// differs.
    pub fn try_new(offsets: Buffer<O>, values: Arc<Array>, validity: Option<Bitmap>) -> (r: Result<
        Self,
    >)
        requires
            offsets.wf(),
            values.wf(),
            validity matches Some(b) ==> b.wf(),
        ensures
            r is Ok <==> offsets_ok(offsets@, values.view().len() as int) && validity_wf(
                validity,
                (offsets@.len() - 1) as nat,
            ),
            r matches Ok(l) ==> l.wf() && l.slots() == list_slots(
                offsets@,
                validity_view(validity),
                values.view(),
            ),
    {
        if !crate::binary::check_offsets(&offsets, values.len()) {
            return Err(
                ArrowError::InvalidArgumentError(
                    "offsets must be a non-decreasing index into the values".to_string(),
                ),
            );
        }
        match &validity {
            Some(b) => {
                if b.len() != offsets.len() - 1 {
                    return Err(
                        ArrowError::InvalidArgumentError(
                            "validity must be as long as the array".to_string(),
                        ),
                    );
                }
            },
            None => {},
        }
        Ok(ListArray { offsets, values, validity })
    }

    pub fn len(&self) -> (r: usize)
        requires
            self.wf(),
        ensures
            r == self.slots().len(),
    {
        self.offsets.len() - 1
    }

    /// Whether slot `i` is null.
    pub fn is_null(&self, i: usize) -> (r: bool)
        requires
            self.wf(),
            i < self.slots().len(),
        ensures
            r == (self.slots()[i as int] is None),
    {
        validity_is_null(&self.validity, i, self.offsets.len() - 1)
    }

    /// The list of slot `i`: the slots of the child that its offsets delimit, sharing the
    /// child's buffers; whatever is stored there when the slot is null.
    pub fn value(&self, i: usize) -> (r: Array)
        requires
            self.wf(),
            i < self.slots().len(),
        ensures
            r.wf(),
            r.view() == self.spec_values().view().subrange(
                self.spec_offsets()[i as int].as_int(),
                self.spec_offsets()[i + 1].as_int(),
            ),
            self.slots()[i as int] matches Some(v) ==> v == Scalar::List(r.view()),
    {
        proof {
            self.offsets.lemma_view();
        }
        // the offsets, at most the child's length, fit a usize
        let _child_len = self.values.len();
        let start = self.offsets.get(i).to_usize().unwrap();
        let end = self.offsets.get(i + 1).to_usize().unwrap();
        self.values.slice(start, end - start)
    }

    /// The child array.
    pub fn values(&self) -> (r: Arc<Array>)
        ensures
            *r == self.spec_values(),
    {
        self.values.clone()
    }

    /// The offsets index.
    pub fn offsets(&self) -> (r: &Buffer<O>)
        ensures
            r@ == self.spec_offsets(),
            self.wf() ==> r.wf(),
    {
        &self.offsets
    }

    /// The validity, if any, sharing its allocation.
    pub fn validity(&self) -> (r: Option<Bitmap>)
        ensures
            r == self.spec_validity(),
    {
        share_validity(&self.validity)
    }

    /// The slots `offset..offset + length`, sharing the offsets and the child.
    pub fn slice(&self, offset: usize, length: usize) -> (r: Self)
        requires
            self.wf(),
            offset + length <= self.slots().len(),
        ensures
            r.wf(),
            r.slots() == self.slots().subrange(offset as int, offset + length),
            r.spec_values() == self.spec_values(),
    {
        proof {
            self.offsets.lemma_view();
        }
        let r = ListArray {
            offsets: self.offsets.slice(offset, length + 1),
            values: self.values.clone(),
            validity: slice_validity(&self.validity, offset, length),
        };
        assert(r.slots() =~= self.slots().subrange(offset as int, offset + length));
        r
    }

    /// The slots `offset..offset + length`; an error when they exceed the array.
    pub fn try_slice(&self, offset: usize, length: usize) -> (r: Result<Self>)
        requires
            self.wf(),
        ensures
            r is Ok <==> offset + length <= self.slots().len(),
            r matches Ok(s) ==> s.wf() && s.slots() == self.slots().subrange(
                offset as int,
                offset + length,
            ),
    {
        if offset > self.len() || length > self.len() - offset {
            Err(ArrowError::InvalidArgumentError("the slice exceeds the array".to_string()))
        } else {
            Ok(self.slice(offset, length))
        }
    }
}

impl FixedSizeListArray {
    /// The array satisfies its invariants, its child included.
    pub closed spec fn wf(&self) -> bool {
        &&& self.size > 0
        &&& (self.offset + self.length) * self.size <= self.values.view().len()
        &&& validity_wf(self.validity, self.length as nat)
        &&& self.values.wf()
    }

    /// The slots of the array.
    pub closed spec fn slots(&self) -> Seq<Option<Scalar>> {
        fixed_slots(
            self.size as nat,
            self.offset as nat,
            self.length as nat,
            validity_view(self.validity),
            self.values.view(),
        )
    }

    /// What the invariants of a list array of fixed size say of its parts.
    pub proof fn lemma_parts(&self)
        requires
            self.wf(),
        ensures
            self.spec_size() > 0,
            (self.spec_offset() + self.slots().len()) * self.spec_size()
                <= self.spec_values().view().len(),
            validity_wf(self.spec_validity(), self.slots().len()),
            self.spec_values().wf(),
    {
    }

    /// The array of the `length` lists of `size` consecutive slots of `values`, which must
    /// hold exactly that many, with `validity`.
    pub fn from_data(size: usize, length: usize, values: Arc<Array>, validity: Option<Bitmap>) -> (r:
        Self)
        requires
            size > 0,
            values.wf(),
            values.view().len() == length * size,
            validity_wf(validity, length as nat),
        ensures
            r.wf(),
            r.slots() == fixed_slots(
                size as nat,
                0,
                length as nat,
                validity_view(validity),
                values.view(),
            ),
            r.spec_size() == size,
            r.spec_offset() == 0,
            r.spec_values() == *values,
    {
        FixedSizeListArray { size, offset: 0, length, values, validity }
    }

    /// The list of the child that slot 0 starts at.
    pub fn offset(&self) -> (r: usize)
        ensures
            r == self.spec_offset(),
    {
        self.offset
    }

    pub proof fn lemma_slots(&self)
        ensures
            self.slots() == fixed_slots(
                self.spec_size(),
                self.spec_offset(),
                self.slots().len(),
                validity_view(self.spec_validity()),
                self.spec_values().view(),
            ),
    {
    }

    pub closed spec fn spec_size(&self) -> nat {
        self.size as nat
    }

    pub closed spec fn spec_offset(&self) -> nat {
        self.offset as nat
    }

    pub closed spec fn spec_values(&self) -> Array {
        *self.values
    }

    pub closed spec fn spec_validity(&self) -> Option<Bitmap> {
        self.validity
    }

    /// The array of the lists of `size` consecutive slots of `values`, with `validity`; an
    /// error when `size` is zero, does not divide the child's length, or the validity's
    /// length differs.
    pub fn try_new(size: usize, values: Arc<Array>, validity: Option<Bitmap>) -> (r: Result<Self>)
        requires
            values.wf(),
            validity matches Some(b) ==> b.wf(),
        ensures
            r is Ok <==> size > 0 && values.view().len() % (size as nat) == 0 && validity_wf(
                validity,
                values.view().len() / (size as nat),
            ),
            r matches Ok(a) ==> a.wf() && a.slots() == fixed_slots(
                size as nat,
                0,
                values.view().len() / (size as nat),
                validity_view(validity),
                values.view(),
            ),
    {
        if size == 0 {
            return Err(ArrowError::InvalidArgumentError("the size must be positive".to_string()));
        }
        let n = values.len();
        if n % size != 0 {
            return Err(
                ArrowError::InvalidArgumentError(
                    "the size must divide the length of the values".to_string(),
                ),
            );
        }
        let length = n / size;
        match &validity {
            Some(b) => {
                if b.len() != length {
                    return Err(
                        ArrowError::InvalidArgumentError(
                            "validity must be as long as the array".to_string(),
                        ),
                    );
                }
            },
            None => {},
        }
        assert(length * size == n) by (nonlinear_arith)
            requires
                length == n / size,
                n % size == 0,
                size > 0,
        ;
        Ok(FixedSizeListArray { size, offset: 0, length, values, validity })
    }

    pub fn len(&self) -> (r: usize)
        requires
            self.wf(),
        ensures
            r == self.slots().len(),
    {
        self.length
    }

    /// Number of child slots in each list.
    pub fn size(&self) -> (r: usize)
        ensures
            r == self.spec_size(),
    {
        self.size
    }

    /// Whether slot `i` is null.
    pub fn is_null(&self, i: usize) -> (r: bool)
        requires
            self.wf(),
            i < self.slots().len(),
        ensures
            r == (self.slots()[i as int] is None),
    {
        validity_is_null(&self.validity, i, self.length)
    }

    /// The list of slot `i`: `size` consecutive slots of the child, sharing the child's
    /// buffers; whatever is stored there when the slot is null.
    pub fn value(&self, i: usize) -> (r: Array)
        requires
            self.wf(),
            i < self.slots().len(),
        ensures
            r.wf(),
            r.view() == self.spec_values().view().subrange(
                (self.spec_offset() + i) * self.spec_size(),
                (self.spec_offset() + i + 1) * self.spec_size(),
            ),
            self.slots()[i as int] matches Some(v) ==> v == Scalar::List(r.view()),
    {
        let child_len = self.values.len();
        assert(self.offset + self.length <= child_len) by (nonlinear_arith)
            requires
                (self.offset + self.length) * self.size <= child_len,
                self.size > 0,
        ;
        let k = self.offset + i;
        assert((k + 1) * self.size <= (self.offset + self.length) * self.size) by (nonlinear_arith)
            requires
                k + 1 <= self.offset + self.length,
        ;
        assert((k + 1) * self.size == k * self.size + self.size) by (nonlinear_arith);
        self.values.slice(k * self.size, self.size)
    }

    /// The child array.
    pub fn values(&self) -> (r: Arc<Array>)
        ensures
            *r == self.spec_values(),
    {
        self.values.clone()
    }

    /// The validity, if any, sharing its allocation.
    pub fn validity(&self) -> (r: Option<Bitmap>)
        ensures
            r == self.spec_validity(),
    {
        share_validity(&self.validity)
    }

    /// The slots `offset..offset + length`, sharing the child.
    pub fn slice(&self, offset: usize, length: usize) -> (r: Self)
        requires
            self.wf(),
            offset + length <= self.slots().len(),
        ensures
            r.wf(),
            r.slots() == self.slots().subrange(offset as int, offset + length),
            r.spec_values() == self.spec_values(),
            r.spec_size() == self.spec_size(),
    {
        let child_len = self.values.len();
        assert(self.offset + self.length <= child_len) by (nonlinear_arith)
            requires
                (self.offset + self.length) * self.size <= child_len,
                self.size > 0,
        ;
        let r = FixedSizeListArray {
            size: self.size,
            offset: self.offset + offset,
            length,
            values: self.values.clone(),
            validity: slice_validity(&self.validity, offset, length),
        };
        assert((r.offset + r.length) * self.size <= (self.offset + self.length) * self.size)
            by (nonlinear_arith)
            requires
                r.offset + r.length <= self.offset + self.length,
        ;
        assert forall|i: int| 0 <= i < length implies #[trigger] r.slots()[i] == self.slots()[offset + i] by {
            assert(r.offset + i == self.offset + (offset + i));
        }
        assert(r.slots() =~= self.slots().subrange(offset as int, offset + length));
        r
    }
}


impl<O: Offset> ListArray<O> {
    /// The foreign description of this array, sharing its buffers: the validity and the
    /// offsets, with the child's description.
    fn to_ffi(&self) -> (r: ForeignArray)
        requires
            self.wf(),
            self.offsets.spec_offset() + self.offsets@.len() <= i64::MAX,
            self.values.ffi_fits(),
        ensures
            r.children@.len() == 1,
            imported(r.children@[0], self.values.data_type_spec()) == Some(self.values.view()),
            crate::ffi::imported_list::<O>(r, self.values.view()) == Some(self.slots()),
        decreases self,
    {
        proof {
            self.offsets.lemma_view();
        }
        let offset = self.offsets.offset();
        let length = self.offsets.len() - 1;
        let exported_validity = export_validity(&self.validity, offset, length);
        let exported_offsets = O::into_foreign(self.offsets.shared_data());
        let child = self.values.to_ffi();
        let r = ForeignArray {
            length: length as i64,
            offset: offset as i64,
            null_count: validity_null_count(&self.validity) as i64,
            buffers: vec![exported_validity, Some(exported_offsets)],
            children: vec![child],
        };
        assert(r.buffers@[1] == Some(exported_offsets));
        assert(foreign_offsets::<O>(r) =~= self.offsets@);
        assert(crate::ffi::imported_list::<O>(r, self.values.view())->0 =~= self.slots());
        r
    }

    /// The list array that `d` describes, with a child of type `child_type`, sharing its
    /// buffers; an error when `d` does not describe one.
    pub fn try_from_ffi(d: &ForeignArray, child_type: &DataType) -> (r: Result<Self>)
        ensures
            r is Ok <==> d.children@.len() == 1 && imported(d.children@[0], *child_type) is Some
                && crate::ffi::imported_list::<O>(*d, imported(d.children@[0], *child_type)->0) is Some,
            r matches Ok(l) ==> l.wf() && l.slots() == crate::ffi::imported_list::<O>(
                *d,
                imported(d.children@[0], *child_type)->0,
            )->0,
        decreases child_type, 1nat,
    {
        if d.children.len() != 1 {
            return Err(ArrowError::Ffi("a list array has one child".to_string()));
        }
        let child = match Array::try_from_ffi(&d.children[0], child_type) {
            Ok(c) => c,
            Err(e) => {
                return Err(e);
            },
        };
        let (offset, length) = match import_header(d) {
            Ok(x) => x,
            Err(e) => {
                return Err(e);
            },
        };
        if d.buffers.len() != 2 {
            return Err(ArrowError::Ffi("a list array has two buffers".to_string()));
        }
        let validity = match import_validity(d, offset, length) {
            Ok(v) => v,
            Err(e) => {
                return Err(e);
            },
        };
        let offsets = match import_offsets::<O>(d, offset, length) {
            Ok(o) => o,
            Err(e) => {
                return Err(e);
            },
        };
        if !crate::binary::check_offsets(&offsets, child.len()) {
            return Err(ArrowError::Ffi("the offsets are not an index into the child".to_string()));
        }
        let l = ListArray { offsets, values: Arc::new(child), validity };
        assert(l.slots() =~= crate::ffi::imported_list::<O>(*d, imported(d.children@[0], *child_type)->0)->0);
        Ok(l)
    }
}

impl FixedSizeListArray {
    /// The foreign description of this array, sharing its buffers: the validity, with the
    /// child's description.
    fn to_ffi(&self) -> (r: ForeignArray)
        requires
            self.wf(),
            self.offset + self.length <= i64::MAX,
            self.values.ffi_fits(),
        ensures
            r.children@.len() == 1,
            imported(r.children@[0], self.values.data_type_spec()) == Some(self.values.view()),
            crate::ffi::imported_fixed(r, self.size as nat, self.values.view()) == Some(self.slots()),
        decreases self,
    {
        let child_len = self.values.len();
        assert(self.offset + self.length <= child_len) by (nonlinear_arith)
            requires
                (self.offset + self.length) * self.size <= child_len,
                self.size > 0,
        ;
        let exported_validity = export_validity(&self.validity, self.offset, self.length);
        let child = self.values.to_ffi();
        let r = ForeignArray {
            length: self.length as i64,
            offset: self.offset as i64,
            null_count: validity_null_count(&self.validity) as i64,
            buffers: vec![exported_validity],
            children: vec![child],
        };
        assert(crate::ffi::imported_fixed(r, self.size as nat, self.values.view())->0 =~= self.slots());
        r
    }

    /// The array of lists of `size` items that `d` describes, with a child of type
    /// `child_type`, sharing its buffers; an error when `d` does not describe one.
    pub fn try_from_ffi(d: &ForeignArray, child_type: &DataType, size: usize) -> (r: Result<Self>)
        ensures
            r is Ok <==> d.children@.len() == 1 && imported(d.children@[0], *child_type) is Some
                && crate::ffi::imported_fixed(*d, size as nat, imported(d.children@[0], *child_type)->0) is Some,
            r matches Ok(l) ==> l.wf() && l.slots() == crate::ffi::imported_fixed(
                *d,
                size as nat,
                imported(d.children@[0], *child_type)->0,
            )->0,
        decreases child_type, 1nat,
    {
        if d.children.len() != 1 {
            return Err(ArrowError::Ffi("a list array has one child".to_string()));
        }
        let child = match Array::try_from_ffi(&d.children[0], child_type) {
            Ok(c) => c,
            Err(e) => {
                return Err(e);
            },
        };
        let (offset, length) = match import_header(d) {
            Ok(x) => x,
            Err(e) => {
                return Err(e);
            },
        };
        if d.buffers.len() != 1 {
            return Err(ArrowError::Ffi("a list array of fixed size has one buffer".to_string()));
        }
        if size == 0 {
            return Err(ArrowError::Ffi("the size of the lists must be positive".to_string()));
        }
        let validity = match import_validity(d, offset, length) {
            Ok(v) => v,
            Err(e) => {
                return Err(e);
            },
        };
        let n = child.len();
        if (offset + length) > n / size {
            proof {
                assert((offset + length) * size > n) by (nonlinear_arith)
                    requires
                        offset + length > n / size,
                        size > 0,
                ;
            }
            return Err(ArrowError::Ffi("the child is too short".to_string()));
        }
        assert((offset + length) * size <= n) by (nonlinear_arith)
            requires
                offset + length <= n / size,
                size > 0,
        ;
        let l = FixedSizeListArray { size, offset, length, values: Arc::new(child), validity };
        assert(l.slots() =~= crate::ffi::imported_fixed(*d, size as nat, imported(d.children@[0], *child_type)->0)->0);
        Ok(l)
    }
}


/// Slicing a slice from its start over its whole length gives the same slots as the slice.
pub proof fn lemma_slice_idempotent(a: Array, offset: int, length: int)
    requires
        a.wf(),
        0 <= offset,
        0 <= length,
        offset + length <= a.view().len(),
    ensures
        a.view().subrange(offset, offset + length).subrange(0, length) == a.view().subrange(
            offset,
            offset + length,
        ),
{
    assert(a.view().subrange(offset, offset + length).subrange(0, length) =~= a.view().subrange(
        offset,
        offset + length,
    ));
}

} // verus!
