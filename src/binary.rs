use vstd::prelude::*;

use crate::array::{
    lemma_masked_subrange, masked, share_validity, slice_validity, validity_is_null,
    validity_null_count, validity_view, validity_wf,
};
use crate::bitmap::{count_unset, Bitmap, MutableBitmap};
use crate::buffer::Buffer;
use crate::error::{ArrowError, Result};
use crate::primitive::{lemma_all_set, lemma_no_unset, validity_of};
use crate::types::Offset;

verus! {

/// `offsets` is an index into `n_values` bytes: non-empty, non-decreasing and within range.
pub open spec fn offsets_ok<O: Offset>(offsets: Seq<O>, n_values: int) -> bool {
    &&& offsets.len() >= 1
    &&& forall|i: int, j: int|
        0 <= i <= j < offsets.len() ==> #[trigger] offsets[i].as_int() <= #[trigger] offsets[j].as_int()
    &&& forall|i: int| 0 <= i < offsets.len() ==> 0 <= #[trigger] offsets[i].as_int() <= n_values
}

/// The byte strings that consecutive entries of `offsets` delimit in `values`.
pub open spec fn spans<O: Offset>(offsets: Seq<O>, values: Seq<u8>) -> Seq<Seq<u8>> {
    Seq::new(
        (offsets.len() - 1) as nat,
        |i: int| values.subrange(offsets[i].as_int(), offsets[i + 1].as_int()),
    )
}

/// The byte strings of `items`, by view.
pub open spec fn views_of(items: Seq<Option<&[u8]>>) -> Seq<Option<Seq<u8>>> {
    Seq::new(
        items.len(),
        |i: int|
            match items[i] {
                Some(b) => Some(b@),
                None => None,
            },
    )
}

/// Total length of the byte strings of `items`.
pub open spec fn total_len(items: Seq<Option<Seq<u8>>>) -> int
    decreases items.len(),
{
    if items.len() == 0 {
        0
    } else {
        total_len(items.drop_last()) + match items.last() {
            Some(b) => b.len() as int,
            None => 0,
        }
    }
}

/// The byte strings of `items`, a null one as the empty string.
pub open spec fn filled(items: Seq<Option<Seq<u8>>>) -> Seq<Seq<u8>> {
    Seq::new(
        items.len(),
        |i: int|
            match items[i] {
                Some(b) => b,
                None => Seq::empty(),
            },
    )
}

/// An array of byte strings delimited by an offsets index of type `O`, each slot possibly null.
pub struct BinaryArray<O> {
    offsets: Buffer<O>,
    values: Buffer<u8>,
    validity: Option<Bitmap>,
}

impl<O: Offset> View for BinaryArray<O> {
    type V = Seq<Option<Seq<u8>>>;

    closed spec fn view(&self) -> Seq<Option<Seq<u8>>> {
        masked(spans(self.offsets@, self.values@), validity_view(self.validity))
    }
}

impl<O: Offset> BinaryArray<O> {
    pub closed spec fn wf(&self) -> bool {
        &&& self.offsets.wf()
        &&& self.values.wf()
        &&& offsets_ok(self.offsets@, self.values@.len() as int)
        &&& validity_wf(self.validity, (self.offsets@.len() - 1) as nat)
    }

    pub closed spec fn spec_offsets(&self) -> Buffer<O> {
        self.offsets
    }

    pub closed spec fn spec_values(&self) -> Buffer<u8> {
        self.values
    }

    pub closed spec fn spec_validity(&self) -> Option<Bitmap> {
        self.validity
    }

    /// The byte strings as stored, nulls included.
    pub open spec fn spec_spans(&self) -> Seq<Seq<u8>> {
        spans(self.spec_offsets()@, self.spec_values()@)
    }

    pub proof fn lemma_view(&self)
        requires
            self.wf(),
        ensures
            self@ == masked(self.spec_spans(), validity_view(self.spec_validity())),
            self.spec_offsets().wf(),
            self.spec_values().wf(),
            offsets_ok(self.spec_offsets()@, self.spec_values()@.len() as int),
            validity_wf(self.spec_validity(), self@.len()),
            self@.len() + 1 == self.spec_offsets()@.len(),
    {
    }

    /// The array of `offsets` into `values` with `validity`.
    pub fn from_data(offsets: Buffer<O>, values: Buffer<u8>, validity: Option<Bitmap>) -> (r: Self)
        requires
            offsets.wf(),
            values.wf(),
            offsets_ok(offsets@, values@.len() as int),
            validity_wf(validity, (offsets@.len() - 1) as nat),
        ensures
            r.wf(),
            r@ == masked(spans(offsets@, values@), validity_view(validity)),
            r.spec_offsets() == offsets,
            r.spec_values() == values,
            r.spec_validity() == validity,
    {
        BinaryArray { offsets, values, validity }
    }

    /// The array of `offsets` into `values` with `validity`; an error when the offsets are not
    /// a non-decreasing index into `values` or the validity's length differs.
    pub fn try_new(offsets: Buffer<O>, values: Buffer<u8>, validity: Option<Bitmap>) -> (r: Result<
        Self,
    >)
        requires
            offsets.wf(),
            values.wf(),
            validity matches Some(b) ==> b.wf(),
        ensures
            r is Ok <==> offsets_ok(offsets@, values@.len() as int) && validity_wf(
                validity,
                (offsets@.len() - 1) as nat,
            ),
            r matches Ok(a) ==> a.wf() && a@ == masked(
                spans(offsets@, values@),
                validity_view(validity),
            ) && a.spec_offsets() == offsets && a.spec_values() == values && a.spec_validity()
                == validity,
    {
        if !check_offsets(&offsets, values.len()) {
            return Err(
                ArrowError::InvalidArgumentError(
                    "offsets must be a non-decreasing index into the values".to_string(),
                ),
            );
        }
        match &validity {
            Some(b) => {
                if b.len() != offsets.len() - 1 {
                    return Err(
                        ArrowError::InvalidArgumentError(
                            "validity must be as long as the array".to_string(),
                        ),
                    );
                }
            },
            None => {},
        }
        Ok(BinaryArray { offsets, values, validity })
    }

    /// Creates a new array out of optional byte strings of known number; `None` is a null slot.
    pub fn from_trusted_len_iter(items: &[Option<&[u8]>]) -> (r: Self)
        requires
            items@.len() <= usize::MAX,
            total_len(views_of(items@)) <= O::max_offset(),
        ensures
            r.wf(),
            r@ == views_of(items@),
            r.spec_spans() == filled(views_of(items@)),
    {
        let ghost all = views_of(items@);
        let mut offsets: Vec<O> = Vec::with_capacity(items.len());
        let mut values: Vec<u8> = Vec::new();
        let mut validity = MutableBitmap::with_capacity(items.len());
        proof {
            lemma_total_prefix(all, 0);
        }
        offsets.push(O::from_usize(0).unwrap());
        let mut i: usize = 0;
        while i < items.len()
            invariant
                all == views_of(items@),
                i <= items@.len() <= usize::MAX,
                total_len(all) <= O::max_offset(),
                offsets@.len() == i + 1,
                offsets_ok(offsets@, values@.len() as int),
                offsets@[i as int].as_int() == values@.len(),
                values@.len() == total_len(all.subrange(0, i as int)),
                validity.wf(),
                validity@ == validity_of(all.subrange(0, i as int)),
                masked(spans(offsets@, values@), Some(validity@)) == all.subrange(0, i as int),
                spans(offsets@, values@) == filled(all.subrange(0, i as int)),
            decreases items@.len() - i,
        {
            let ghost prev_values = values@;
            let ghost prev_offsets = offsets@;
            proof {
                lemma_total_prefix(all, i as int + 1);
                assert(all.subrange(0, i + 1).drop_last() =~= all.subrange(0, i as int));
            }
            match items[i] {
                Some(b) => {
                    values.extend_from_slice(b);
                    validity.push(true);
                    assert(values@.subrange(prev_values.len() as int, values@.len() as int)
                        =~= b@);
                    assert(all[i as int] == Some(b@));
                },
                None => {
                    validity.push(false);
                    assert(values@.subrange(prev_values.len() as int, values@.len() as int)
                        =~= Seq::<u8>::empty());
                    assert(all[i as int] is None);
                },
            }
            let end = O::from_usize(values.len()).unwrap();
            offsets.push(end);
            i += 1;
            proof {
                assert forall|k: int| 0 <= k < i - 1 implies spans(offsets@, values@)[k] =~= spans(
                    prev_offsets,
                    prev_values,
                )[k] by {
                    assert(offsets@[k] == prev_offsets[k]);
                    assert(offsets@[k + 1] == prev_offsets[k + 1]);
                }
            }
            assert(validity@ =~= validity_of(all.subrange(0, i as int)));
            assert(masked(spans(offsets@, values@), Some(validity@)) =~= all.subrange(0, i as int));
            assert(spans(offsets@, values@)[i - 1] == values@.subrange(
                prev_values.len() as int,
                values@.len() as int,
            ));
            assert forall|k: int| 0 <= k < i - 1 implies spans(offsets@, values@)[k] == filled(
                all.subrange(0, i as int),
            )[k] by {
                assert(filled(all.subrange(0, i - 1))[k] == spans(prev_offsets, prev_values)[k]);
                assert(all.subrange(0, i - 1)[k] == all.subrange(0, i as int)[k]);
            }
            assert(spans(offsets@, values@) =~= filled(all.subrange(0, i as int)));
        }
        assert(all.subrange(0, i as int) =~= all);
        let validity = if validity.null_count() > 0 {
            Some(validity.into_bitmap())
        } else {
            None
        };
        let r = BinaryArray {
            offsets: Buffer::from_vec(offsets),
            values: Buffer::from_vec(values),
            validity,
        };
        proof {
            if validity is None {
                assert forall|k: int| 0 <= k < i implies all[k] is Some by {
                    lemma_no_unset(validity_of(all), k);
                }
            }
        }
        assert(r@ =~= all);
        r
    }

    pub fn len(&self) -> (r: usize)
        requires
            self.wf(),
        ensures
            r == self@.len(),
    {
        self.offsets.len() - 1
    }

    /// Whether slot `i` is null.
    pub fn is_null(&self, i: usize) -> (r: bool)
        requires
            self.wf(),
            i < self@.len(),
        ensures
            r == (self@[i as int] is None),
    {
        validity_is_null(&self.validity, i, self.offsets.len() - 1)
    }

    /// The start and end of the bytes of slot `i`.
    pub fn value_range(&self, i: usize) -> (r: (usize, usize))
        requires
            self.wf(),
            i < self@.len(),
        ensures
            r.0 == self.spec_offsets()@[i as int].as_int(),
            r.1 == self.spec_offsets()@[i + 1].as_int(),
            r.0 <= r.1 <= self.spec_values()@.len(),
    {
        proof {
            self.values.lemma_view();
            self.offsets.lemma_view();
        }
        let start = self.offsets.get(i).to_usize().unwrap();
        let end = self.offsets.get(i + 1).to_usize().unwrap();
        (start, end)
    }

    /// The bytes of slot `i`, whatever is stored there when the slot is null.
    pub fn value(&self, i: usize) -> (r: &[u8])
        requires
            self.wf(),
            i < self@.len(),
        ensures
            r@ == self.spec_spans()[i as int],
            self@[i as int] matches Some(v) ==> r@ == v,
    {
        let (start, end) = self.value_range(i);
        vstd::slice::slice_subrange(self.values.as_slice(), start, end)
    }

    /// The bytes of slot `i`, which must be within the array.
    pub fn value_unchecked(&self, i: usize) -> (r: &[u8])
        requires
            self.wf(),
            i < self@.len(),
        ensures
            r@ == self.spec_spans()[i as int],
    {
        self.value(i)
    }

    /// Number of null slots.
    pub fn null_count(&self) -> (r: usize)
        requires
            self.wf(),
        ensures
            r == count_unset(validity_of(self@)),
    {
        proof {
            if self.validity is Some {
                assert(validity_of(self@) =~= self.validity->0@);
            } else {
                lemma_all_set(validity_of(self@));
            }
        }
        validity_null_count(&self.validity)
    }

    /// The offsets index.
    pub fn offsets(&self) -> (r: &Buffer<O>)
        ensures
            *r == self.spec_offsets(),
    {
        &self.offsets
    }

    /// The bytes the offsets index into.
    pub fn values(&self) -> (r: &Buffer<u8>)
        ensures
            *r == self.spec_values(),
    {
        &self.values
    }

    /// The validity, if any, sharing its allocation.
    pub fn validity(&self) -> (r: Option<Bitmap>)
        ensures
            r == self.spec_validity(),
    {
        share_validity(&self.validity)
    }

    /// The slots `offset..offset + length`, sharing all buffers.
    pub fn slice(&self, offset: usize, length: usize) -> (r: Self)
        requires
            self.wf(),
            offset + length <= self@.len(),
        ensures
            r.wf(),
            r@ == self@.subrange(offset as int, offset + length),
            r.spec_spans() == self.spec_spans().subrange(offset as int, offset + length),
            r.spec_values()@ == self.spec_values()@,
    {
        proof {
            self.offsets.lemma_view();
        }
        let r = BinaryArray {
            offsets: self.offsets.slice(offset, length + 1),
            values: self.values.share(),
            validity: slice_validity(&self.validity, offset, length),
        };
        assert(r.spec_spans() =~= self.spec_spans().subrange(offset as int, offset + length));
        proof {
            lemma_masked_subrange(
                self.spec_spans(),
                validity_view(self.validity),
                offset as int,
                offset + length,
            );
        }
        r
    }

    /// The slots `offset..offset + length`; an error when they exceed the array.
    pub fn try_slice(&self, offset: usize, length: usize) -> (r: Result<Self>)
        requires
            self.wf(),
        ensures
            r is Ok <==> offset + length <= self@.len(),
            r matches Ok(s) ==> s.wf() && s@ == self@.subrange(offset as int, offset + length),
    {
        if offset > self.len() || length > self.len() - offset {
            Err(ArrowError::InvalidArgumentError("the slice exceeds the array".to_string()))
        } else {
            Ok(self.slice(offset, length))
        }
    }

    /// Another handle on the same array, sharing all buffers.
    pub fn share(&self) -> (r: Self)
        requires
            self.wf(),
        ensures
            r.wf(),
            r@ == self@,
            r.spec_spans() == self.spec_spans(),
            r.spec_validity() == self.spec_validity(),
    {
        BinaryArray {
            offsets: self.offsets.share(),
            values: self.values.share(),
            validity: share_validity(&self.validity),
        }
    }

    /// An iterator over the slots.
    pub fn iter(&self) -> (r: BinaryIter<'_, O>)
        requires
            self.wf(),
        ensures
            r.wf(),
            r.remaining() == self@,
    {
        BinaryIter::new(self)
    }
}

/// Whether `offsets` is a non-decreasing index into `n_values` bytes.
pub(crate) fn check_offsets<O: Offset>(offsets: &Buffer<O>, n_values: usize) -> (r: bool)
    requires
        offsets.wf(),
    ensures
        r == offsets_ok(offsets@, n_values as int),
{
    let n = offsets.len();
    if n == 0 {
        return false;
    }
    let mut i: usize = 0;
    while i < n
        invariant
            offsets.wf(),
            n == offsets@.len() >= 1,
            i <= n,
            forall|a: int, b: int|
                0 <= a <= b < i ==> #[trigger] offsets@[a].as_int() <= #[trigger] offsets@[b].as_int(),
            forall|a: int| 0 <= a < i ==> 0 <= #[trigger] offsets@[a].as_int() <= n_values,
        decreases n - i,
    {
        let o = match offsets.get(i).to_usize() {
            Some(o) => o,
            None => {
                return false;
            },
        };
        if o > n_values {
            return false;
        }
        if i > 0 {
            let p = offsets.get(i - 1).to_usize().unwrap();
            if p > o {
                return false;
            }
        }
        i += 1;
    }
    true
}

proof fn lemma_total_prefix(items: Seq<Option<Seq<u8>>>, i: int)
    requires
        0 <= i <= items.len(),
    ensures
        0 <= total_len(items.subrange(0, i)) <= total_len(items),
    decreases items.len() - i,
{
    if i < items.len() {
        lemma_total_prefix(items, i + 1);
        assert(items.subrange(0, i + 1).drop_last() =~= items.subrange(0, i));
        lemma_total_nonneg(items.subrange(0, i));
    } else {
        assert(items.subrange(0, i) =~= items);
        lemma_total_nonneg(items);
    }
}

proof fn lemma_total_nonneg(items: Seq<Option<Seq<u8>>>)
    ensures
        total_len(items) >= 0,
    decreases items.len(),
{
    if items.len() > 0 {
        lemma_total_nonneg(items.drop_last());
    }
}

/// An iterator over the slots of a [`BinaryArray`].
pub struct BinaryIter<'a, O> {
    array: &'a BinaryArray<O>,
    i: usize,
    len: usize,
}

impl<'a, O: Offset> BinaryIter<'a, O> {
    pub closed spec fn wf(&self) -> bool {
        &&& self.array.wf()
        &&& self.i <= self.len
        &&& self.len == self.array@.len()
    }

    /// The slots not yet yielded.
    pub closed spec fn remaining(&self) -> Seq<Option<Seq<u8>>> {
        self.array@.subrange(self.i as int, self.len as int)
    }

    /// create a new iterator
    pub fn new(array: &'a BinaryArray<O>) -> (r: Self)
        requires
            array.wf(),
        ensures
            r.wf(),
            r.remaining() == array@,
    {
        let r = BinaryIter { array, i: 0, len: array.len() };
        assert(r.remaining() =~= array@);
        r
    }

    /// The next slot: `Some(None)` for a null slot, `None` once all were yielded.
    pub fn next(&mut self) -> (r: Option<Option<&'a [u8]>>)
        requires
            old(self).wf(),
        ensures
            final(self).wf(),
            match r {
                None => old(self).remaining().len() == 0 && final(self).remaining().len() == 0,
                Some(x) => {
                    &&& old(self).remaining().len() > 0
                    &&& final(self).remaining() == old(self).remaining().drop_first()
                    &&& match x {
                        Some(b) => old(self).remaining()[0] == Some(b@),
                        None => old(self).remaining()[0] is None,
                    }
                },
            },
    {
        let i = self.i;
        if i >= self.len {
            None
        } else if self.array.is_null(i) {
            self.i += 1;
            assert(self.remaining() =~= old(self).remaining().drop_first());
            Some(None)
        } else {
            self.i += 1;
            assert(self.remaining() =~= old(self).remaining().drop_first());
            Some(Some(self.array.value_unchecked(i)))
        }
    }

    /// Number of slots not yet yielded.
    pub fn size_hint(&self) -> (r: (usize, Option<usize>))
        requires
            self.wf(),
        ensures
            r.0 == self.remaining().len(),
            r.1 == Some(r.0),
    {
        (self.len - self.i, Some(self.len - self.i))
    }
}

} // verus!
