use vstd::prelude::*;

use crate::bitmap::count_set;
use crate::boolean::BooleanArray;
use crate::error::{ArrowError, Result};
use crate::nested::Array;
use crate::record_batch::RecordBatch;
use crate::runs::{filtered, lemma_gather_runs, lemma_scan_within, lemma_within_ordered, runs};
use crate::slices::{as_runs, SlicesIterator};
use crate::take::take_runs;

verus! {

/// A filter prepared once and applied to any number of arrays: the runs of set values of a
/// mask, with the number of set values.
pub struct Filter {
    slices: Vec<(usize, usize)>,
    filter_count: usize,
    length: usize,
    mask: Ghost<Seq<bool>>,
}

impl Filter {
    /// The values of the mask.
    pub closed spec fn mask(&self) -> Seq<bool> {
        self.mask@
    }

    pub closed spec fn wf(&self) -> bool {
        &&& as_runs(self.slices@) == runs(self.mask@)
        &&& self.length == self.mask@.len()
        &&& self.filter_count == count_set(self.mask@)
    }

    /// Number of set values of the mask: the length of every filtered array.
    pub fn filter_count(&self) -> (r: usize)
        requires
            self.wf(),
        ensures
            r == count_set(self.mask()),
    {
        self.filter_count
    }

    /// The slots of `array` whose value in the mask is set, in order; an error when `array`
    /// is not as long as the mask.
    pub fn apply(&self, array: &Array) -> (r: Result<Array>)
        requires
            self.wf(),
            array.wf(),
        ensures
            r is Ok <==> array.view().len() == self.mask().len(),
            r matches Ok(a) ==> a.wf() && a.view() == filtered(array.view(), self.mask())
                && a.data_type_spec() == array.data_type_spec(),
    {
        if array.len() != self.length {
            return Err(
                ArrowError::InvalidArgumentError(
                    "the filter must be as long as the array".to_string(),
                ),
            );
        }
        let ghost mask = self.mask@;
        proof {
            lemma_scan_within(mask, 0, None);
            lemma_within_ordered(runs(mask), 0, mask.len() as int);
            lemma_gather_runs(array.view(), mask);
        }
        Ok(take_runs(array, &self.slices, self.filter_count))
    }
}

/// Returns a filter prepared once to be applied to several arrays of the length of `filter`,
/// e.g. the columns of a [`RecordBatch`]. The validity of `filter` is not read: a null slot
/// counts by the value stored in it.
pub fn build_filter(filter: &BooleanArray) -> (r: Result<Filter>)
    requires
        filter.wf(),
    ensures
        r matches Ok(f) && f.wf() && f.mask() == filter.spec_values()@,
{
    let iter = SlicesIterator::new(filter);
    let filter_count = iter.get_filter_count();
    let ghost mask = iter.bits();
    proof {
        filter.lemma_view();
    }
    let length = filter.len();
    let slices = iter.collect_runs();
    Ok(Filter { slices, filter_count, length, mask: Ghost(mask) })
}

/// Filters an array, keeping the slots whose value in `filter_array` is set, in order; an error
/// when `array` is not as long as `filter_array`. The validity of `filter_array` is not read: a
/// null slot counts by the value stored in it.
pub fn filter(array: &Array, filter_array: &BooleanArray) -> (r: Result<Array>)
    requires
        array.wf(),
        filter_array.wf(),
    ensures
        r is Ok <==> array.view().len() == filter_array@.len(),
        r matches Ok(a) ==> a.wf() && a.view() == filtered(array.view(), filter_array.spec_values()@)
            && a.data_type_spec() == array.data_type_spec(),
{
    proof {
        filter_array.lemma_view();
    }
    match build_filter(filter_array) {
        Ok(f) => f.apply(array),
        Err(e) => Err(e),
    }
}

/// Returns a new record batch whose columns keep the slots whose value in `filter` is set; an
/// error when the batch has not the length of `filter`. The validity of `filter` is not read.
pub fn filter_record_batch(record_batch: &RecordBatch, filter: &BooleanArray) -> (r: Result<
    RecordBatch,
>)
    requires
        record_batch.wf(),
        filter.wf(),
    ensures
        r is Ok <==> record_batch.num_rows() == filter@.len(),
        r matches Ok(b) ==> b.wf() && b.spec_schema() == record_batch.spec_schema()
            && b.columns().len() == record_batch.columns().len() && forall|i: int|
            0 <= i < b.columns().len() ==> (#[trigger] b.columns()[i]).view() == filtered(
                record_batch.columns()[i].view(),
                filter.spec_values()@,
            ) && b.columns()[i].data_type_spec() == record_batch.columns()[i].data_type_spec(),
{
    proof {
        filter.lemma_view();
        record_batch.lemma_columns();
    }
    let f = match build_filter(filter) {
        Ok(f) => f,
        Err(e) => {
            return Err(e);
        },
    };
    let columns = record_batch.columns_ref();
    let ghost mask = filter.spec_values()@;
    if record_batch.len() != filter.len() {
        return Err(
            ArrowError::InvalidArgumentError(
                "the filter must be as long as the record batch".to_string(),
            ),
        );
    }
    let mut filtered_arrays: Vec<Array> = Vec::with_capacity(columns.len());
    let mut i: usize = 0;
    while i < columns.len()
        invariant
            f.wf(),
            f.mask() == mask,
            i <= columns@.len(),
            columns@ == record_batch.columns(),
            record_batch.num_rows() == mask.len(),
            forall|k: int| 0 <= k < columns@.len() ==> (#[trigger] columns@[k]).wf() && columns@[k].view().len() == record_batch.num_rows(),
            filtered_arrays@.len() == i,
            forall|k: int|
                0 <= k < i ==> (#[trigger] filtered_arrays@[k]).wf() && filtered_arrays@[k].view()
                    == filtered(columns@[k].view(), mask) && filtered_arrays@[k].data_type_spec()
                    == columns@[k].data_type_spec(),
        decreases columns@.len() - i,
    {
        match f.apply(&columns[i]) {
            Ok(a) => filtered_arrays.push(a),
            Err(e) => {
                return Err(e);
            },
        }
        i += 1;
    }
    proof {
        assert forall|k: int| 0 <= k < filtered_arrays@.len() implies (#[trigger] filtered_arrays@[k]).view().len()
            == count_set(mask) by {
            crate::runs::lemma_filtered_len(columns@[k].view(), mask);
        }
    }
    RecordBatch::try_new(record_batch.schema(), filtered_arrays)
}

} // verus!
