use std::sync::Arc;
use vstd::prelude::*;

use crate::ffi::ForeignBuffer;

verus! {

/// The logical type of an array.
pub enum DataType {
    Int8,
    Int16,
    Int32,
    Int64,
    UInt8,
    UInt16,
    UInt32,
    UInt64,
    Boolean,
    Binary,
    LargeBinary,
    Utf8,
    LargeUtf8,
    /// Lists with offsets of `i32`, of items of the given type.
    List(Box<DataType>),
    /// Lists with offsets of `i64`, of items of the given type.
    LargeList(Box<DataType>),
    /// Lists of the given number of items of the given type.
    FixedSizeList(Box<DataType>, usize),
}

/// Whether `a` and `b` are the same type.
pub fn same_type(a: &DataType, b: &DataType) -> (r: bool)
    ensures
        r == (*a == *b),
    decreases a,
{
    match (a, b) {
        (DataType::Int8, DataType::Int8) => true,
        (DataType::Int16, DataType::Int16) => true,
        (DataType::Int32, DataType::Int32) => true,
        (DataType::Int64, DataType::Int64) => true,
        (DataType::UInt8, DataType::UInt8) => true,
        (DataType::UInt16, DataType::UInt16) => true,
        (DataType::UInt32, DataType::UInt32) => true,
        (DataType::UInt64, DataType::UInt64) => true,
        (DataType::Boolean, DataType::Boolean) => true,
        (DataType::Binary, DataType::Binary) => true,
        (DataType::LargeBinary, DataType::LargeBinary) => true,
        (DataType::Utf8, DataType::Utf8) => true,
        (DataType::LargeUtf8, DataType::LargeUtf8) => true,
        (DataType::List(x), DataType::List(y)) => same_type(&**x, &**y),
        (DataType::LargeList(x), DataType::LargeList(y)) => same_type(&**x, &**y),
        (DataType::FixedSizeList(x, n), DataType::FixedSizeList(y, m)) => *n == *m && same_type(
            &**x,
            &**y,
        ),
        _ => false,
    }
}

/// A named column of a record batch: its type and whether it may hold nulls.
pub struct Field {
    pub name: String,
    pub data_type: DataType,
    pub nullable: bool,
}

/// The fields of the columns of a record batch, in order.
pub struct Schema {
    pub fields: Vec<Field>,
}

/// Fixed-width element types that a [`crate::buffer::Buffer`] can hold.
pub trait NativeType: Copy + Sized {
    /// Number of bytes of one element.
    spec fn width() -> nat;

    /// The element as a mathematical integer.
    spec fn as_int(self) -> int;

    fn byte_width() -> (r: usize)
        ensures
            r as nat == Self::width(),
            1 <= r <= 8,
    ;

    /// The element whose bytes are all zero.
    fn zero() -> (r: Self)
        ensures
            r.as_int() == 0,
    ;

    /// The element one.
    fn one() -> (r: Self)
        ensures
            r.as_int() == 1,
    ;

    /// The elements that `b` holds, when they are of this type.
    spec fn foreign_data(b: ForeignBuffer) -> Option<Seq<Self>>;

    /// The foreign buffer sharing `data`.
    fn into_foreign(data: Arc<Vec<Self>>) -> (r: ForeignBuffer)
        ensures
            Self::foreign_data(r) == Some(data@),
    ;

    /// The allocation that `b` shares, when it holds elements of this type.
    fn from_foreign(b: &ForeignBuffer) -> (r: Option<Arc<Vec<Self>>>)
        ensures
            match Self::foreign_data(*b) {
                Some(s) => r matches Some(a) && a@ == s,
                None => r is None,
            },
    ;
}

/// Types usable as the entries of an offsets index: `i32` and `i64`.
pub trait Offset: NativeType {
    /// The largest offset of this type.
    spec fn max_offset() -> int;

    proof fn lemma_max_offset()
        ensures
            0x7fff_ffff <= Self::max_offset(),
    ;

    proof fn lemma_bounded(self)
        ensures
            self.as_int() <= Self::max_offset(),
    ;

    fn to_usize(self) -> (r: Option<usize>)
        ensures
            r matches Some(u) <==> 0 <= self.as_int() <= usize::MAX,
            r matches Some(u) ==> u as int == self.as_int(),
    ;

    fn from_usize(u: usize) -> (r: Option<Self>)
        ensures
            r matches Some(o) <==> u as int <= Self::max_offset(),
            r matches Some(o) ==> o.as_int() == u as int,
    ;
}

impl NativeType for i8 {
    open spec fn width() -> nat {
        1
    }

    open spec fn as_int(self) -> int {
        self as int
    }

    fn byte_width() -> (r: usize) {
        1
    }

    fn zero() -> (r: i8) {
        0
    }

    fn one() -> (r: i8) {
        1
    }

    open spec fn foreign_data(b: ForeignBuffer) -> Option<Seq<i8>> {
        match b {
            ForeignBuffer::I8(a) => Some(a@),
            _ => None,
        }
    }

    fn into_foreign(data: Arc<Vec<i8>>) -> (r: ForeignBuffer) {
        ForeignBuffer::I8(data)
    }

    fn from_foreign(b: &ForeignBuffer) -> (r: Option<Arc<Vec<i8>>>) {
        match b {
            ForeignBuffer::I8(a) => Some(a.clone()),
            _ => None,
        }
    }
}

impl NativeType for i16 {
    open spec fn width() -> nat {
        2
    }

    open spec fn as_int(self) -> int {
        self as int
    }

    fn byte_width() -> (r: usize) {
        2
    }

    fn zero() -> (r: i16) {
        0
    }

    fn one() -> (r: i16) {
        1
    }

    open spec fn foreign_data(b: ForeignBuffer) -> Option<Seq<i16>> {
        match b {
            ForeignBuffer::I16(a) => Some(a@),
            _ => None,
        }
    }

    fn into_foreign(data: Arc<Vec<i16>>) -> (r: ForeignBuffer) {
        ForeignBuffer::I16(data)
    }

    fn from_foreign(b: &ForeignBuffer) -> (r: Option<Arc<Vec<i16>>>) {
        match b {
            ForeignBuffer::I16(a) => Some(a.clone()),
            _ => None,
        }
    }
}

impl NativeType for i32 {
    open spec fn width() -> nat {
        4
    }

    open spec fn as_int(self) -> int {
        self as int
    }

    fn byte_width() -> (r: usize) {
        4
    }

    fn zero() -> (r: i32) {
        0
    }

    fn one() -> (r: i32) {
        1
    }

    open spec fn foreign_data(b: ForeignBuffer) -> Option<Seq<i32>> {
        match b {
            ForeignBuffer::I32(a) => Some(a@),
            _ => None,
        }
    }

    fn into_foreign(data: Arc<Vec<i32>>) -> (r: ForeignBuffer) {
        ForeignBuffer::I32(data)
    }

    fn from_foreign(b: &ForeignBuffer) -> (r: Option<Arc<Vec<i32>>>) {
        match b {
            ForeignBuffer::I32(a) => Some(a.clone()),
            _ => None,
        }
    }
}

impl NativeType for i64 {
    open spec fn width() -> nat {
        8
    }

    open spec fn as_int(self) -> int {
        self as int
    }

    fn byte_width() -> (r: usize) {
        8
    }

    fn zero() -> (r: i64) {
        0
    }

    fn one() -> (r: i64) {
        1
    }

    open spec fn foreign_data(b: ForeignBuffer) -> Option<Seq<i64>> {
        match b {
            ForeignBuffer::I64(a) => Some(a@),
            _ => None,
        }
    }

    fn into_foreign(data: Arc<Vec<i64>>) -> (r: ForeignBuffer) {
        ForeignBuffer::I64(data)
    }

    fn from_foreign(b: &ForeignBuffer) -> (r: Option<Arc<Vec<i64>>>) {
        match b {
            ForeignBuffer::I64(a) => Some(a.clone()),
            _ => None,
        }
    }
}

impl NativeType for u8 {
    open spec fn width() -> nat {
        1
    }

    open spec fn as_int(self) -> int {
        self as int
    }

    fn byte_width() -> (r: usize) {
        1
    }

    fn zero() -> (r: u8) {
        0
    }

    fn one() -> (r: u8) {
        1
    }

    open spec fn foreign_data(b: ForeignBuffer) -> Option<Seq<u8>> {
        match b {
            ForeignBuffer::U8(a) => Some(a@),
            _ => None,
        }
    }

    fn into_foreign(data: Arc<Vec<u8>>) -> (r: ForeignBuffer) {
        ForeignBuffer::U8(data)
    }

    fn from_foreign(b: &ForeignBuffer) -> (r: Option<Arc<Vec<u8>>>) {
        match b {
            ForeignBuffer::U8(a) => Some(a.clone()),
            _ => None,
        }
    }
}

impl NativeType for u16 {
    open spec fn width() -> nat {
        2
    }

    open spec fn as_int(self) -> int {
        self as int
    }

    fn byte_width() -> (r: usize) {
        2
    }

    fn zero() -> (r: u16) {
        0
    }

    fn one() -> (r: u16) {
        1
    }

    open spec fn foreign_data(b: ForeignBuffer) -> Option<Seq<u16>> {
        match b {
            ForeignBuffer::U16(a) => Some(a@),
            _ => None,
        }
    }

    fn into_foreign(data: Arc<Vec<u16>>) -> (r: ForeignBuffer) {
        ForeignBuffer::U16(data)
    }

    fn from_foreign(b: &ForeignBuffer) -> (r: Option<Arc<Vec<u16>>>) {
        match b {
            ForeignBuffer::U16(a) => Some(a.clone()),
            _ => None,
        }
    }
}

impl NativeType for u32 {
    open spec fn width() -> nat {
        4
    }

    open spec fn as_int(self) -> int {
        self as int
    }

    fn byte_width() -> (r: usize) {
        4
    }

    fn zero() -> (r: u32) {
        0
    }

    fn one() -> (r: u32) {
        1
    }

    open spec fn foreign_data(b: ForeignBuffer) -> Option<Seq<u32>> {
        match b {
            ForeignBuffer::U32(a) => Some(a@),
            _ => None,
        }
    }

    fn into_foreign(data: Arc<Vec<u32>>) -> (r: ForeignBuffer) {
        ForeignBuffer::U32(data)
    }

    fn from_foreign(b: &ForeignBuffer) -> (r: Option<Arc<Vec<u32>>>) {
        match b {
            ForeignBuffer::U32(a) => Some(a.clone()),
            _ => None,
        }
    }
}

impl NativeType for u64 {
    open spec fn width() -> nat {
        8
    }

    open spec fn as_int(self) -> int {
        self as int
    }

    fn byte_width() -> (r: usize) {
        8
    }

    fn zero() -> (r: u64) {
        0
    }

    fn one() -> (r: u64) {
        1
    }

    open spec fn foreign_data(b: ForeignBuffer) -> Option<Seq<u64>> {
        match b {
            ForeignBuffer::U64(a) => Some(a@),
            _ => None,
        }
    }

    fn into_foreign(data: Arc<Vec<u64>>) -> (r: ForeignBuffer) {
        ForeignBuffer::U64(data)
    }

    fn from_foreign(b: &ForeignBuffer) -> (r: Option<Arc<Vec<u64>>>) {
        match b {
            ForeignBuffer::U64(a) => Some(a.clone()),
            _ => None,
        }
    }
}

impl Offset for i32 {
    open spec fn max_offset() -> int {
        i32::MAX as int
    }

    proof fn lemma_max_offset() {
    }

    proof fn lemma_bounded(self) {
    }

    fn to_usize(self) -> (r: Option<usize>) {
        if self >= 0 && self as u64 <= usize::MAX as u64 {
            Some(self as usize)
        } else {
            None
        }
    }

    fn from_usize(u: usize) -> (r: Option<i32>) {
        if u as u64 <= i32::MAX as u64 {
            Some(u as i32)
        } else {
            None
        }
    }
}

impl Offset for i64 {
    open spec fn max_offset() -> int {
        i64::MAX as int
    }

    proof fn lemma_max_offset() {
    }

    proof fn lemma_bounded(self) {
    }

    fn to_usize(self) -> (r: Option<usize>) {
        if self >= 0 && self as u64 <= usize::MAX as u64 {
            Some(self as usize)
        } else {
            None
        }
    }

    fn from_usize(u: usize) -> (r: Option<i64>) {
        if u as u64 <= i64::MAX as u64 {
            Some(u as i64)
        } else {
            None
        }
    }
}

} // verus!
