use vstd::prelude::*;

use crate::array::{
    all_valid, lemma_masked_subrange, masked, share_validity, slice_validity, validity_is_null,
    validity_null_count, validity_view, validity_wf,
};
use crate::bitmap::{count_unset, Bitmap, MutableBitmap};
use crate::error::{ArrowError, Result};
use crate::primitive::{lemma_all_set, lemma_no_unset, validity_of};

verus! {

/// An array of booleans, each slot possibly null.
pub struct BooleanArray {
    values: Bitmap,
    validity: Option<Bitmap>,
}

impl View for BooleanArray {
    type V = Seq<Option<bool>>;

    closed spec fn view(&self) -> Seq<Option<bool>> {
        masked(self.values@, validity_view(self.validity))
    }
}

/// The first error among `items`, if any.
pub open spec fn first_error<E>(items: Seq<core::result::Result<Option<bool>, E>>) -> Option<E>
    decreases items.len(),
{
    if items.len() == 0 {
        None
    } else {
        match items[0] {
            Err(e) => Some(e),
            Ok(_) => first_error(items.drop_first()),
        }
    }
}

/// The values of `items`, all of which are `Ok`.
pub open spec fn ok_values<E>(items: Seq<core::result::Result<Option<bool>, E>>) -> Seq<
    Option<bool>,
> {
    Seq::new(items.len(), |i: int| items[i]->Ok_0)
}

proof fn lemma_first_error_prefix<E>(items: Seq<core::result::Result<Option<bool>, E>>, i: int)
    requires
        0 <= i <= items.len(),
        forall|k: int| 0 <= k < i ==> #[trigger] items[k] is Ok,
    ensures
        first_error(items) == first_error(items.subrange(i, items.len() as int)),
    decreases i,
{
    if i > 0 {
        lemma_first_error_prefix(items.drop_first(), i - 1);
        assert(items.drop_first().subrange(i - 1, items.len() - 1) =~= items.subrange(
            i,
            items.len() as int,
        ));
    } else {
        assert(items.subrange(0, items.len() as int) =~= items);
    }
}

impl BooleanArray {
    pub closed spec fn wf(&self) -> bool {
        &&& self.values.wf()
        &&& validity_wf(self.validity, self.values@.len())
    }

    /// The values, nulls included, as stored.
    pub closed spec fn spec_values(&self) -> Bitmap {
        self.values
    }

    pub closed spec fn spec_validity(&self) -> Option<Bitmap> {
        self.validity
    }

    pub proof fn lemma_view(&self)
        requires
            self.wf(),
        ensures
            self@ == masked(self.spec_values()@, validity_view(self.spec_validity())),
            self.spec_values().wf(),
            validity_wf(self.spec_validity(), self@.len()),
    {
    }

    /// The array of `values` with `validity`, whose length must be that of `values`.
    pub fn from_data(values: Bitmap, validity: Option<Bitmap>) -> (r: Self)
        requires
            values.wf(),
            validity_wf(validity, values@.len()),
        ensures
            r.wf(),
            r@ == masked(values@, validity_view(validity)),
            r.spec_values() == values,
            r.spec_validity() == validity,
    {
        BooleanArray { values, validity }
    }

    /// Creates a new array out of a slice of booleans, none null.
    pub fn from_slice(slice: &[bool]) -> (r: Self)
        requires
            slice@.len() <= usize::MAX,
        ensures
            r.wf(),
            r@ == all_valid(slice@),
    {
        let mut bits = MutableBitmap::with_capacity(slice.len());
        bits.extend_from_slice(slice);
        let r = BooleanArray { values: bits.into_bitmap(), validity: None };
        assert(r@ =~= all_valid(slice@));
        r
    }

    /// Creates a new array out of booleans of known number, none null.
    pub fn from_trusted_len_values_iter(values: Vec<bool>) -> (r: Self)
        requires
            values@.len() <= usize::MAX,
        ensures
            r.wf(),
            r@ == all_valid(values@),
    {
        Self::from_slice(values.as_slice())
    }

    /// Creates a new array out of optional booleans of known number; `None` is a null slot.
    pub fn from_trusted_len_iter(items: Vec<Option<bool>>) -> (r: Self)
        requires
            items@.len() <= usize::MAX,
        ensures
            r.wf(),
            r@ == items@,
    {
        let mut values = MutableBitmap::with_capacity(items.len());
        let mut validity = MutableBitmap::with_capacity(items.len());
        let mut i: usize = 0;
        while i < items.len()
            invariant
                i <= items@.len() <= usize::MAX,
                values.wf(),
                validity.wf(),
                values@.len() == i,
                validity@ == validity_of(items@.subrange(0, i as int)),
                masked(values@, Some(validity@)) == items@.subrange(0, i as int),
            decreases items@.len() - i,
        {
            match items[i] {
                Some(v) => {
                    values.push(v);
                    validity.push(true);
                },
                None => {
                    values.push(false);
                    validity.push(false);
                },
            }
            i += 1;
            assert(validity@ =~= validity_of(items@.subrange(0, i as int)));
            assert(masked(values@, Some(validity@)) =~= items@.subrange(0, i as int));
        }
        assert(items@.subrange(0, i as int) =~= items@);
        let validity = if validity.null_count() > 0 {
            Some(validity.into_bitmap())
        } else {
            None
        };
        let r = BooleanArray { values: values.into_bitmap(), validity };
        proof {
            if validity is None {
                assert forall|k: int| 0 <= k < i implies items@[k] is Some by {
                    lemma_no_unset(validity_of(items@), k);
                }
            }
        }
        assert(r@ =~= items@);
        r
    }

    /// Creates a new array out of fallible optional booleans of known number: the first error,
    /// if any, else the array of the values.
    pub fn try_from_trusted_len_iter<E>(items: Vec<core::result::Result<Option<bool>, E>>) -> (r:
        core::result::Result<Self, E>)
        requires
            items@.len() <= usize::MAX,
        ensures
            match first_error(items@) {
                Some(e) => r matches Err(x) && x == e,
                None => r matches Ok(a) && a.wf() && a@ == ok_values(items@),
            },
    {
        let mut items = items;
        let ghost all = items@;
        let mut values: Vec<Option<bool>> = Vec::with_capacity(items.len());
        let mut i: usize = 0;
        while i < items.len()
            invariant
                items@ == all,
                i <= all.len() <= usize::MAX,
                values@.len() == i,
                forall|k: int| 0 <= k < i ==> #[trigger] all[k] is Ok,
                forall|k: int| 0 <= k < i ==> values@[k] == #[trigger] all[k]->Ok_0,
            ensures
                items@ == all,
                i <= all.len(),
                values@.len() == i,
                forall|k: int| 0 <= k < i ==> #[trigger] all[k] is Ok,
                forall|k: int| 0 <= k < i ==> values@[k] == #[trigger] all[k]->Ok_0,
                i < all.len() ==> all[i as int] is Err,
            decreases all.len() - i,
        {
            match &items[i] {
                Ok(v) => {
                    values.push(*v);
                },
                Err(_) => {
                    break ;
                },
            }
            i += 1;
        }
        proof {
            lemma_first_error_prefix(all, i as int);
            if i < all.len() {
                assert(all.subrange(i as int, all.len() as int)[0] == all[i as int]);
            } else {
                assert(all.subrange(i as int, all.len() as int).len() == 0);
            }
        }
        if i < items.len() {
            if let Err(e) = items.remove(i) {
                return Err(e);
            }
        }
        let r = Self::from_trusted_len_iter(values);
        assert(values@ =~= ok_values(all));
        Ok(r)
    }

    pub fn len(&self) -> (r: usize)
        requires
            self.wf(),
        ensures
            r == self@.len(),
    {
        self.values.len()
    }

    /// Whether slot `i` is null.
    pub fn is_null(&self, i: usize) -> (r: bool)
        requires
            self.wf(),
            i < self@.len(),
        ensures
            r == (self@[i as int] is None),
    {
        validity_is_null(&self.validity, i, self.values.len())
    }

    /// The value of slot `i`, whatever is stored there when the slot is null.
    pub fn value(&self, i: usize) -> (r: bool)
        requires
            self.wf(),
            i < self@.len(),
        ensures
            r == self.spec_values()@[i as int],
            self@[i as int] matches Some(v) ==> r == v,
    {
        self.values.get_bit(i)
    }

    /// Number of null slots.
    pub fn null_count(&self) -> (r: usize)
        requires
            self.wf(),
        ensures
            r == count_unset(validity_of(self@)),
    {
        proof {
            if self.validity is Some {
                assert(validity_of(self@) =~= self.validity->0@);
            } else {
                lemma_all_set(validity_of(self@));
            }
        }
        validity_null_count(&self.validity)
    }

    /// The stored values, nulls included.
    pub fn values(&self) -> (r: &Bitmap)
        ensures
            *r == self.spec_values(),
    {
        &self.values
    }

    /// The validity, if any, sharing its allocation.
    pub fn validity(&self) -> (r: Option<Bitmap>)
        ensures
            r == self.spec_validity(),
    {
        share_validity(&self.validity)
    }

    /// The slots `offset..offset + length`, sharing all buffers.
    pub fn slice(&self, offset: usize, length: usize) -> (r: Self)
        requires
            self.wf(),
            offset + length <= self@.len(),
        ensures
            r.wf(),
            r@ == self@.subrange(offset as int, offset + length),
    {
        let r = BooleanArray {
            values: self.values.slice(offset, length),
            validity: slice_validity(&self.validity, offset, length),
        };
        proof {
            lemma_masked_subrange(
                self.values@,
                validity_view(self.validity),
                offset as int,
                offset + length,
            );
        }
        r
    }

    /// The slots `offset..offset + length`; an error when they exceed the array.
    pub fn try_slice(&self, offset: usize, length: usize) -> (r: Result<Self>)
        requires
            self.wf(),
        ensures
            r is Ok <==> offset + length <= self@.len(),
            r matches Ok(s) ==> s.wf() && s@ == self@.subrange(offset as int, offset + length),
    {
        if offset > self.len() || length > self.len() - offset {
            Err(ArrowError::InvalidArgumentError("the slice exceeds the array".to_string()))
        } else {
            Ok(self.slice(offset, length))
        }
    }

    /// Another handle on the same array, sharing all buffers.
    pub fn share(&self) -> (r: Self)
        requires
            self.wf(),
        ensures
            r == *self,
    {
        BooleanArray { values: self.values.share(), validity: share_validity(&self.validity) }
    }
}

} // verus!
