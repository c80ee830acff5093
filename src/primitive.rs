use vstd::prelude::*;

use crate::array::{
    all_valid, lemma_masked_subrange, masked, share_validity, slice_validity, sub_validity,
    validity_is_null, validity_null_count, validity_view, validity_wf,
};
use crate::bitmap::{count_unset, Bitmap, MutableBitmap};
use crate::buffer::Buffer;
use crate::error::{ArrowError, Result};
use crate::types::NativeType;

verus! {

/// An array of fixed-width values of type `T`, each slot possibly null.
pub struct PrimitiveArray<T> {
    values: Buffer<T>,
    validity: Option<Bitmap>,
}

impl<T: NativeType> View for PrimitiveArray<T> {
    type V = Seq<Option<T>>;

    closed spec fn view(&self) -> Seq<Option<T>> {
        masked(self.values@, validity_view(self.validity))
    }
}

/// The validity of `values`: present, with the nulls of `values`, when one of them is null.
pub open spec fn validity_of<A>(values: Seq<Option<A>>) -> Seq<bool> {
    Seq::new(values.len(), |i: int| values[i] is Some)
}

impl<T: NativeType> PrimitiveArray<T> {
    pub closed spec fn wf(&self) -> bool {
        &&& self.values.wf()
        &&& validity_wf(self.validity, self.values@.len())
    }

    /// The values, nulls included, as stored.
    pub closed spec fn spec_values(&self) -> Buffer<T> {
        self.values
    }

    pub closed spec fn spec_validity(&self) -> Option<Bitmap> {
        self.validity
    }

    pub proof fn lemma_view(&self)
        requires
            self.wf(),
        ensures
            self@ == masked(self.spec_values()@, validity_view(self.spec_validity())),
            self.spec_values().wf(),
            validity_wf(self.spec_validity(), self@.len()),
    {
    }

    /// The array of `values` with `validity`, whose length must be that of `values`.
    pub fn from_data(values: Buffer<T>, validity: Option<Bitmap>) -> (r: Self)
        requires
            values.wf(),
            validity_wf(validity, values@.len()),
        ensures
            r.wf(),
            r@ == masked(values@, validity_view(validity)),
            r.spec_values() == values,
            r.spec_validity() == validity,
    {
        PrimitiveArray { values, validity }
    }

    /// The array of `values` with `validity`; an error when their lengths differ.
    pub fn try_new(values: Buffer<T>, validity: Option<Bitmap>) -> (r: Result<Self>)
        requires
            values.wf(),
            validity matches Some(b) ==> b.wf(),
        ensures
            r is Ok <==> validity_wf(validity, values@.len()),
            r matches Ok(a) ==> a.wf() && a@ == masked(values@, validity_view(validity)),
    {
        match &validity {
            Some(b) => {
                if b.len() != values.len() {
                    return Err(
                        ArrowError::InvalidArgumentError(
                            "validity must be as long as the values".to_string(),
                        ),
                    );
                }
            },
            None => {},
        }
        Ok(PrimitiveArray { values, validity })
    }

    /// Creates a new array out of a vector of values, none null.
    pub fn from_values(values: Vec<T>) -> (r: Self)
        ensures
            r.wf(),
            r@ == all_valid(values@),
    {
        let r = PrimitiveArray { values: Buffer::from_vec(values), validity: None };
        assert(r@ =~= all_valid(values@));
        r
    }

    /// Creates a new array out of a slice of values, none null.
    pub fn from_slice(slice: &[T]) -> (r: Self)
        ensures
            r.wf(),
            r@ == all_valid(slice@),
    {
        Self::from_values(vstd::slice::slice_to_vec(slice))
    }

    /// Creates a new array out of values of known number, none null.
    pub fn from_trusted_len_values_iter(values: Vec<T>) -> (r: Self)
        ensures
            r.wf(),
            r@ == all_valid(values@),
    {
        Self::from_values(values)
    }

    /// Creates a new array out of optional values of known number; `None` is a null slot.
    pub fn from_trusted_len_iter(items: Vec<Option<T>>) -> (r: Self)
        requires
            items@.len() <= usize::MAX,
        ensures
            r.wf(),
            r@ == items@,
    {
        let mut values: Vec<T> = Vec::with_capacity(items.len());
        let mut validity = MutableBitmap::with_capacity(items.len());
        let mut i: usize = 0;
        while i < items.len()
            invariant
                i <= items@.len() <= usize::MAX,
                values@.len() == i,
                validity.wf(),
                validity@ == validity_of(items@.subrange(0, i as int)),
                masked(values@, Some(validity@)) == items@.subrange(0, i as int),
            decreases items@.len() - i,
        {
            match items[i] {
                Some(v) => {
                    values.push(v);
                    validity.push(true);
                },
                None => {
                    values.push(T::zero());
                    validity.push(false);
                },
            }
            i += 1;
            assert(validity@ =~= validity_of(items@.subrange(0, i as int)));
            assert(masked(values@, Some(validity@)) =~= items@.subrange(0, i as int));
        }
        assert(items@.subrange(0, i as int) =~= items@);
        let validity = if validity.null_count() > 0 {
            Some(validity.into_bitmap())
        } else {
            None
        };
        let r = PrimitiveArray { values: Buffer::from_vec(values), validity };
        proof {
            if validity is None {
                assert forall|k: int| 0 <= k < i implies items@[k] is Some by {
                    lemma_no_unset(validity_of(items@), k);
                }
            }
        }
        assert(r@ =~= items@);
        r
    }

    pub fn len(&self) -> (r: usize)
        requires
            self.wf(),
        ensures
            r == self@.len(),
    {
        self.values.len()
    }

    /// Whether slot `i` is null.
    pub fn is_null(&self, i: usize) -> (r: bool)
        requires
            self.wf(),
            i < self@.len(),
        ensures
            r == (self@[i as int] is None),
    {
        validity_is_null(&self.validity, i, self.values.len())
    }

    /// The value of slot `i`, whatever is stored there when the slot is null.
    pub fn value(&self, i: usize) -> (r: T)
        requires
            self.wf(),
            i < self@.len(),
        ensures
            r == self.spec_values()@[i as int],
            self@[i as int] matches Some(v) ==> r == v,
    {
        *self.values.get(i)
    }

    /// Number of null slots.
    pub fn null_count(&self) -> (r: usize)
        requires
            self.wf(),
        ensures
            r == count_unset(validity_of(self@)),
    {
        proof {
            if self.validity is Some {
                assert(validity_of(self@) =~= self.validity->0@);
            } else {
                lemma_all_set(validity_of(self@));
            }
        }
        validity_null_count(&self.validity)
    }

    /// The stored values, nulls included.
    pub fn values(&self) -> (r: &Buffer<T>)
        ensures
            *r == self.spec_values(),
    {
        &self.values
    }

    /// The validity, if any, sharing its allocation.
    pub fn validity(&self) -> (r: Option<Bitmap>)
        ensures
            r == self.spec_validity(),
    {
        share_validity(&self.validity)
    }

    /// The slots `offset..offset + length`, sharing all buffers.
    pub fn slice(&self, offset: usize, length: usize) -> (r: Self)
        requires
            self.wf(),
            offset + length <= self@.len(),
        ensures
            r.wf(),
            r@ == self@.subrange(offset as int, offset + length),
    {
        let r = PrimitiveArray {
            values: self.values.slice(offset, length),
            validity: slice_validity(&self.validity, offset, length),
        };
        proof {
            lemma_masked_subrange(
                self.values@,
                validity_view(self.validity),
                offset as int,
                offset + length,
            );
        }
        r
    }

    /// The slots `offset..offset + length`; an error when they exceed the array.
    pub fn try_slice(&self, offset: usize, length: usize) -> (r: Result<Self>)
        requires
            self.wf(),
        ensures
            r is Ok <==> offset + length <= self@.len(),
            r matches Ok(s) ==> s.wf() && s@ == self@.subrange(offset as int, offset + length),
    {
        if offset > self.len() || length > self.len() - offset {
            Err(ArrowError::InvalidArgumentError("the slice exceeds the array".to_string()))
        } else {
            Ok(self.slice(offset, length))
        }
    }

    /// Another handle on the same array, sharing all buffers.
    pub fn share(&self) -> (r: Self)
        requires
            self.wf(),
        ensures
            r.wf(),
            r@ == self@,
            r.spec_values()@ == self.spec_values()@,
            r.spec_validity() == self.spec_validity(),
    {
        PrimitiveArray { values: self.values.share(), validity: share_validity(&self.validity) }
    }
}

pub proof fn lemma_all_set(s: Seq<bool>)
    requires
        forall|i: int| 0 <= i < s.len() ==> #[trigger] s[i],
    ensures
        count_unset(s) == 0,
    decreases s.len(),
{
    if s.len() > 0 {
        lemma_all_set(s.drop_first());
    }
}

pub proof fn lemma_no_unset(s: Seq<bool>, k: int)
    requires
        count_unset(s) == 0,
        0 <= k < s.len(),
    ensures
        s[k],
    decreases s.len(),
{
    if k > 0 {
        lemma_no_unset(s.drop_first(), k - 1);
    }
}

} // verus!
