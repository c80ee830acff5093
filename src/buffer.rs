use std::sync::Arc;
use vstd::prelude::*;

use crate::error::{ArrowError, Result};

verus! {

/// An immutable, shareable, contiguous sequence of `T`. Slicing shares the allocation.
pub struct Buffer<T> {
    data: Arc<Vec<T>>,
    offset: usize,
    length: usize,
}

impl<T> View for Buffer<T> {
    type V = Seq<T>;

    closed spec fn view(&self) -> Seq<T> {
        self.data@.subrange(self.offset as int, self.offset + self.length)
    }
}

impl<T> Buffer<T> {
    pub closed spec fn wf(&self) -> bool {
        self.offset + self.length <= self.data@.len() <= usize::MAX
    }

    pub fn from_vec(v: Vec<T>) -> (r: Self)
        ensures
            r.wf(),
            r@ == v@,
    {
        let length = v.len();
        let r = Buffer { data: Arc::new(v), offset: 0, length };
        assert(r@ =~= r.data@);
        r
    }

    pub fn slice(&self, offset: usize, length: usize) -> (r: Self)
        requires
            self.wf(),
            offset + length <= self@.len(),
        ensures
            r.wf(),
            r@ == self@.subrange(offset as int, offset + length),
    {
        let r = Buffer { data: self.data.clone(), offset: self.offset + offset, length };
        assert(r@ =~= self@.subrange(offset as int, offset + length));
        r
    }

    /// The elements `offset..offset + length`, sharing the allocation; an error when they
    /// exceed the buffer.
    pub fn try_slice(&self, offset: usize, length: usize) -> (r: Result<Self>)
        requires
            self.wf(),
        ensures
            r is Ok <==> offset + length <= self@.len(),
            r matches Ok(b) ==> b.wf() && b@ == self@.subrange(offset as int, offset + length),
    {
        if offset > self.length || length > self.length - offset {
            Err(ArrowError::InvalidArgumentError("the slice exceeds the buffer".to_string()))
        } else {
            Ok(self.slice(offset, length))
        }
    }

    /// The element offset of this buffer within its allocation.
    pub closed spec fn spec_offset(&self) -> nat {
        self.offset as nat
    }

    /// The whole allocation this buffer reads from.
    pub closed spec fn spec_data(&self) -> Seq<T> {
        self.data@
    }

    pub proof fn lemma_view(&self)
        requires
            self.wf(),
        ensures
            self@ == self.spec_data().subrange(
                self.spec_offset() as int,
                (self.spec_offset() + self@.len()) as int,
            ),
            self.spec_offset() + self@.len() <= self.spec_data().len() <= usize::MAX,
    {
    }

    /// The `length` elements of `data` from `offset`, sharing `data`.
    pub fn from_shared(data: Arc<Vec<T>>, offset: usize, length: usize) -> (r: Self)
        requires
            offset + length <= data@.len(),
        ensures
            r.wf(),
            r@ == data@.subrange(offset as int, offset + length),
            r.spec_data() == data@,
            r.spec_offset() == offset,
    {
        // the length of an allocation is a usize
        let _capacity = data.len();
        Buffer { data, offset, length }
    }

    pub fn len(&self) -> (r: usize)
        requires
            self.wf(),
        ensures
            r == self@.len(),
    {
        self.length
    }

    /// The element offset of this buffer within its allocation.
    pub fn offset(&self) -> (r: usize)
        ensures
            r == self.spec_offset(),
    {
        self.offset
    }

    /// A new handle on the allocation this buffer reads from.
    pub fn shared_data(&self) -> (r: Arc<Vec<T>>)
        ensures
            r@ == self.spec_data(),
    {
        self.data.clone()
    }

    /// Another handle on the same elements, sharing the allocation.
    pub fn share(&self) -> (r: Self)
        ensures
            r@ == self@,
            r.wf() == self.wf(),
            r.spec_data() == self.spec_data(),
            r.spec_offset() == self.spec_offset(),
    {
        Buffer { data: self.data.clone(), offset: self.offset, length: self.length }
    }

    pub fn as_slice(&self) -> (r: &[T])
        requires
            self.wf(),
        ensures
            r@ == self@,
    {
        vstd::slice::slice_subrange(self.data.as_slice(), self.offset, self.offset + self.length)
    }

    pub fn get(&self, i: usize) -> (r: &T)
        requires
            self.wf(),
            i < self@.len(),
        ensures
            *r == self@[i as int],
    {
        &self.data[self.offset + i]
    }
}

} // verus!
