use vstd::prelude::*;

use crate::nested::{Array, FixedSizeListArray, ListArray, Scalar};
use crate::types::Offset;

verus! {

/// Arrays whose slots are lists, each readable as an array.
pub trait IterableListArray {
    spec fn list_wf(&self) -> bool;

    /// Number of lists.
    spec fn list_len(&self) -> nat;

    /// The slots of the list of slot `i`, whatever is stored there when the slot is null.
    spec fn list_value(&self, i: int) -> Seq<Option<Scalar>>;

    /// Whether slot `i` is null.
    spec fn list_null(&self, i: int) -> bool;

    fn len(&self) -> (r: usize)
        requires
            self.list_wf(),
        ensures
            r == self.list_len(),
    ;

    fn value(&self, i: usize) -> (r: Array)
        requires
            self.list_wf(),
            i < self.list_len(),
        ensures
            r.wf(),
            r.view() == self.list_value(i as int),
    ;

    fn is_null(&self, i: usize) -> (r: bool)
        requires
            self.list_wf(),
            i < self.list_len(),
        ensures
            r == self.list_null(i as int),
    ;
}

impl<O: Offset> IterableListArray for ListArray<O> {
    open spec fn list_wf(&self) -> bool {
        self.wf()
    }

    open spec fn list_len(&self) -> nat {
        self.slots().len()
    }

    open spec fn list_value(&self, i: int) -> Seq<Option<Scalar>> {
        self.spec_values().view().subrange(
            self.spec_offsets()[i].as_int(),
            self.spec_offsets()[i + 1].as_int(),
        )
    }

    open spec fn list_null(&self, i: int) -> bool {
        self.slots()[i] is None
    }

    fn len(&self) -> (r: usize) {
        ListArray::<O>::len(self)
    }

    fn value(&self, i: usize) -> (r: Array) {
        ListArray::<O>::value(self, i)
    }

    fn is_null(&self, i: usize) -> (r: bool) {
        ListArray::<O>::is_null(self, i)
    }
}

impl IterableListArray for FixedSizeListArray {
    open spec fn list_wf(&self) -> bool {
        self.wf()
    }

    open spec fn list_len(&self) -> nat {
        self.slots().len()
    }

    open spec fn list_value(&self, i: int) -> Seq<Option<Scalar>> {
        self.spec_values().view().subrange(
            (self.spec_offset() + i) * self.spec_size(),
            (self.spec_offset() + i + 1) * self.spec_size(),
        )
    }

    open spec fn list_null(&self, i: int) -> bool {
        self.slots()[i] is None
    }

    fn len(&self) -> (r: usize) {
        FixedSizeListArray::len(self)
    }

    fn value(&self, i: usize) -> (r: Array) {
        FixedSizeListArray::value(self, i)
    }

    fn is_null(&self, i: usize) -> (r: bool) {
        FixedSizeListArray::is_null(self, i)
    }
}

/// An iterator over the lists of an array, each as an array, null slots included.
pub struct ListValuesIter<'a, A> {
    array: &'a A,
    index: usize,
    end: usize,
}

impl<'a, A: IterableListArray> ListValuesIter<'a, A> {
    pub closed spec fn wf(&self) -> bool {
        &&& self.array.list_wf()
        &&& self.index <= self.end <= self.array.list_len()
    }

    /// The lists not yet yielded, from either end.
    pub closed spec fn remaining(&self) -> Seq<Seq<Option<Scalar>>> {
        Seq::new(
            (self.end - self.index) as nat,
            |k: int| self.array.list_value(self.index + k),
        )
    }

    pub fn new(array: &'a A) -> (r: Self)
        requires
            array.list_wf(),
        ensures
            r.wf(),
            r.remaining() == Seq::new(array.list_len(), |k: int| array.list_value(k)),
            r.zipped() == Seq::new(
                array.list_len(),
                |k: int|
                    if array.list_null(k) {
                        None
                    } else {
                        Some(array.list_value(k))
                    },
            ),
    {
        let r = ListValuesIter { array, index: 0, end: array.len() };
        assert(r.remaining() =~= Seq::new(array.list_len(), |k: int| array.list_value(k)));
        assert(r.zipped() =~= Seq::new(
            array.list_len(),
            |k: int|
                if array.list_null(k) {
                    None
                } else {
                    Some(array.list_value(k))
                },
        ));
        r
    }

    /// The next list from the front, or `None` once all were yielded.
    pub fn next(&mut self) -> (r: Option<Array>)
        requires
            old(self).wf(),
        ensures
            final(self).wf(),
            match r {
                None => old(self).remaining().len() == 0 && final(self).remaining().len() == 0,
                Some(a) => {
                    &&& old(self).remaining().len() > 0
                    &&& a.wf()
                    &&& a.view() == old(self).remaining()[0]
                    &&& final(self).remaining() == old(self).remaining().drop_first()
                    &&& final(self).zipped() == old(self).zipped().drop_first()
                    &&& old(self).zipped()[0] == if old(self).front_is_null() {
                        None
                    } else {
                        Some(a.view())
                    }
                },
            },
    {
        if self.index == self.end {
            return None;
        }
        let current = self.index;
        self.index += 1;
        assert(self.remaining() =~= old(self).remaining().drop_first());
        assert(self.zipped() =~= old(self).zipped().drop_first());
        Some(self.array.value(current))
    }

    /// The next list from the back, or `None` once all were yielded.
    pub fn next_back(&mut self) -> (r: Option<Array>)
        requires
            old(self).wf(),
        ensures
            final(self).wf(),
            match r {
                None => old(self).remaining().len() == 0 && final(self).remaining().len() == 0,
                Some(a) => {
                    &&& old(self).remaining().len() > 0
                    &&& a.wf()
                    &&& a.view() == old(self).remaining().last()
                    &&& final(self).remaining() == old(self).remaining().drop_last()
                },
            },
    {
        if self.index == self.end {
            None
        } else {
            self.end -= 1;
            assert(self.remaining() =~= old(self).remaining().drop_last());
            Some(self.array.value(self.end))
        }
    }

    /// Whether the next slot from the front is null.
    pub closed spec fn front_is_null(&self) -> bool {
        self.array.list_null(self.index as int)
    }

    /// The slots not yet yielded: `None` for a null one, else its list.
    pub closed spec fn zipped(&self) -> Seq<Option<Seq<Option<Scalar>>>> {
        Seq::new(
            (self.end - self.index) as nat,
            |k: int|
                if self.array.list_null(self.index + k) {
                    None
                } else {
                    Some(self.array.list_value(self.index + k))
                },
        )
    }

    /// Number of lists not yet yielded.
    pub fn size_hint(&self) -> (r: (usize, Option<usize>))
        requires
            self.wf(),
        ensures
            r.0 == self.remaining().len(),
            r.1 == Some(r.0),
    {
        (self.end - self.index, Some(self.end - self.index))
    }
}

/// An iterator over the slots of a list array: `None` for a null slot, else its list.
pub struct ZipValidity<'a, A> {
    values: ListValuesIter<'a, A>,
}

impl<'a, A: IterableListArray> ZipValidity<'a, A> {
    pub closed spec fn wf(&self) -> bool {
        self.values.wf()
    }

    /// The slots not yet yielded: `None` for a null one, else its list.
    pub closed spec fn remaining(&self) -> Seq<Option<Seq<Option<Scalar>>>> {
        self.values.zipped()
    }

    pub fn new(values: ListValuesIter<'a, A>) -> (r: Self)
        requires
            values.wf(),
        ensures
            r.wf(),
            r.remaining() == values.zipped(),
    {
        ZipValidity { values }
    }

    /// The next slot: `Some(None)` for a null slot, `None` once all were yielded.
    pub fn next(&mut self) -> (r: Option<Option<Array>>)
        requires
            old(self).wf(),
        ensures
            final(self).wf(),
            match r {
                None => old(self).remaining().len() == 0 && final(self).remaining().len() == 0,
                Some(x) => {
                    &&& old(self).remaining().len() > 0
                    &&& final(self).remaining() == old(self).remaining().drop_first()
                    &&& match x {
                        Some(a) => a.wf() && old(self).remaining()[0] == Some(a.view()),
                        None => old(self).remaining()[0] is None,
                    }
                },
            },
    {
        if self.values.index == self.values.end {
            return None;
        }
        let i = self.values.index;
        let null = self.values.array.is_null(i);
        let value = self.values.next();
        match value {
            Some(a) => {
                if null {
                    Some(None)
                } else {
                    Some(Some(a))
                }
            },
            None => None,
        }
    }
}

impl<O: Offset> ListArray<O> {
    /// An iterator over the slots: `None` for a null slot, else its list.
    pub fn iter(&self) -> (r: ZipValidity<'_, ListArray<O>>)
        requires
            self.wf(),
        ensures
            r.wf(),
            r.remaining() == Seq::new(
                self.list_len(),
                |k: int|
                    if self.list_null(k) {
                        None
                    } else {
                        Some(self.list_value(k))
                    },
            ),
    {
        let values = ListValuesIter::new(self);
        ZipValidity::new(values)
    }

    /// An iterator over the lists, null slots included.
    pub fn values_iter(&self) -> (r: ListValuesIter<'_, ListArray<O>>)
        requires
            self.wf(),
        ensures
            r.wf(),
            r.remaining() == Seq::new(self.list_len(), |k: int| self.list_value(k)),
    {
        ListValuesIter::new(self)
    }
}

impl FixedSizeListArray {
    /// An iterator over the slots: `None` for a null slot, else its list.
    pub fn iter(&self) -> (r: ZipValidity<'_, FixedSizeListArray>)
        requires
            self.wf(),
        ensures
            r.wf(),
            r.remaining() == Seq::new(
                self.list_len(),
                |k: int|
                    if self.list_null(k) {
                        None
                    } else {
                        Some(self.list_value(k))
                    },
            ),
    {
        let values = ListValuesIter::new(self);
        ZipValidity::new(values)
    }

    /// An iterator over the lists, null slots included.
    pub fn values_iter(&self) -> (r: ListValuesIter<'_, FixedSizeListArray>)
        requires
            self.wf(),
        ensures
            r.wf(),
            r.remaining() == Seq::new(self.list_len(), |k: int| self.list_value(k)),
    {
        ListValuesIter::new(self)
    }
}

} // verus!
