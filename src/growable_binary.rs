use vstd::prelude::*;
use vstd::utf8::valid_utf8;

use crate::binary::{offsets_ok, spans, BinaryArray};
use crate::bitmap::MutableBitmap;
use crate::buffer::Buffer;
use crate::growable::{
    build_extend_null_bits, grown, lemma_grown_append, lemma_masked_run, no_nulls, validity_bits,
    ExtendNullBits,
};
use crate::types::Offset;
use crate::utf8::{all_utf8, Utf8Array};

verus! {

/// Appends to `buffer` the entries of `offsets` after the first, rebased so that they
/// continue from `last_offset`; `last_offset` becomes the last appended entry.
pub fn extend_offsets<O: Offset>(buffer: &mut Vec<O>, last_offset: &mut O, offsets: &[O])
    requires
        offsets_ok(offsets@, offsets@.last().as_int()),
        offsets@.last().as_int() <= usize::MAX,
        0 <= old(last_offset).as_int(),
        old(last_offset).as_int() + offsets@.last().as_int() - offsets@[0].as_int()
            <= O::max_offset(),
        old(last_offset).as_int() + offsets@.last().as_int() - offsets@[0].as_int()
            <= usize::MAX,
    ensures
        final(buffer)@.len() == old(buffer)@.len() + offsets@.len() - 1,
        final(buffer)@.subrange(0, old(buffer)@.len() as int) == old(buffer)@,
        forall|k: int|
            0 <= k < offsets@.len() - 1 ==> (#[trigger] final(buffer)@[old(buffer)@.len() + k]).as_int()
                == old(last_offset).as_int() + offsets@[k + 1].as_int() - offsets@[0].as_int(),
        final(last_offset).as_int() == old(last_offset).as_int() + offsets@.last().as_int()
            - offsets@[0].as_int(),
{
    let ghost first = offsets@[0].as_int();
    let ghost base = last_offset.as_int();
    let ghost old_buffer = buffer@;
    let n = offsets.len();
    let mut last = last_offset.to_usize().unwrap();
    let mut i: usize = 1;
    while i < n
        invariant
            n == offsets@.len() >= 1,
            offsets_ok(offsets@, offsets@.last().as_int()),
            offsets@.last().as_int() <= usize::MAX,
            1 <= i <= n,
            base + offsets@.last().as_int() - first <= O::max_offset(),
            base + offsets@.last().as_int() - first <= usize::MAX,
            last == base + offsets@[i - 1].as_int() - first,
            last_offset.as_int() == last,
            buffer@.len() == old_buffer.len() + i - 1,
            buffer@.subrange(0, old_buffer.len() as int) == old_buffer,
            forall|k: int|
                0 <= k < i - 1 ==> (#[trigger] buffer@[old_buffer.len() + k]).as_int() == base
                    + offsets@[k + 1].as_int() - first,
        decreases n - i,
    {
        // compute the new offset
        let previous = offsets[i - 1].to_usize().unwrap();
        let current = offsets[i].to_usize().unwrap();
        let length = current - previous;
        last = last + length;
        let next = O::from_usize(last).unwrap();
        *last_offset = next;
        let ghost prev = buffer@;
        buffer.push(next);
        assert(buffer@.subrange(0, old_buffer.len() as int) =~= prev.subrange(
            0,
            old_buffer.len() as int,
        ));
        assert(buffer@[old_buffer.len() + i - 1] == next);
        i += 1;
    }
}

/// Appends to `buffer` the bytes of `values` that the slots `start..start + len` of `offsets`
/// span.
pub fn extend_offset_values<O: Offset>(
    buffer: &mut Vec<u8>,
    offsets: &[O],
    values: &[u8],
    start: usize,
    len: usize,
)
    requires
        start + len < offsets@.len(),
        0 <= offsets@[start as int].as_int() <= offsets@[start + len].as_int() <= values@.len(),
        values@.len() <= usize::MAX,
    ensures
        final(buffer)@ == old(buffer)@ + values@.subrange(
            offsets@[start as int].as_int(),
            offsets@[start + len].as_int(),
        ),
{
    let start_values = offsets[start].to_usize().unwrap();
    let end_values = offsets[start + len].to_usize().unwrap();
    let new_values = vstd::slice::slice_subrange(values, start_values, end_values);
    buffer.extend_from_slice(new_values);
}

/// Number of bytes that the slots `start..start + len` of `a` span.
pub open spec fn span_len<O: Offset>(a: &BinaryArray<O>, start: int, len: int) -> int {
    a.spec_offsets()@[start + len].as_int() - a.spec_offsets()@[start].as_int()
}

/// Builds one array of byte strings by copying runs of slots of source arrays.
pub struct GrowableBinary<'a, O> {
    arrays: Vec<&'a BinaryArray<O>>,
    validity: MutableBitmap,
    values: Vec<u8>,
    offsets: Vec<O>,
    last_offset: O,
    use_validity: bool,
    extend_null_bits: Vec<ExtendNullBits>,
}

impl<'a, O: Offset> View for GrowableBinary<'a, O> {
    type V = Seq<Option<Seq<u8>>>;

    closed spec fn view(&self) -> Seq<Option<Seq<u8>>> {
        grown(spans(self.offsets@, self.values@), self.validity@, self.use_validity)
    }
}

impl<'a, O: Offset> GrowableBinary<'a, O> {
    /// The source arrays.
    pub closed spec fn sources(&self) -> Seq<&'a BinaryArray<O>> {
        self.arrays@
    }

    /// Whether validity is tracked, so that the frozen array has a validity bitmap.
    pub closed spec fn spec_use_validity(&self) -> bool {
        self.use_validity
    }

    /// The byte strings built so far, nulls included.
    pub closed spec fn spec_spans(&self) -> Seq<Seq<u8>> {
        spans(self.offsets@, self.values@)
    }

    /// Number of bytes built so far.
    pub closed spec fn values_len(&self) -> nat {
        self.values@.len()
    }

    pub closed spec fn wf(&self) -> bool {
        &&& self.validity.wf()
        &&& offsets_ok(self.offsets@, self.values@.len() as int)
        &&& self.offsets@.last().as_int() == self.values@.len()
        &&& self.last_offset.as_int() == self.values@.len()
        &&& self.validity@.len() == if self.use_validity {
            self.offsets@.len() - 1
        } else {
            0
        }
        &&& self.extend_null_bits@.len() == self.arrays@.len()
        &&& forall|k: int|
            0 <= k < self.arrays@.len() ==> {
                &&& (#[trigger] self.arrays@[k]).wf()
                &&& self.extend_null_bits@[k].spec_validity() == self.arrays@[k].spec_validity()
                &&& self.extend_null_bits@[k].spec_use_validity() == self.use_validity
                &&& !self.use_validity ==> no_nulls(self.arrays@[k]@)
                &&& !self.use_validity ==> self.arrays@[k].spec_validity() is None
            }
    }

    pub proof fn lemma_view(&self)
        requires
            self.wf(),
        ensures
            self@.len() == self.spec_spans().len(),
            forall|i: int|
                0 <= i < self@.len() ==> #[trigger] self@[i] is None || self@[i] == Some(
                    self.spec_spans()[i],
                ),
    {
    }

    fn null_bits_of(arrays: &Vec<&'a BinaryArray<O>>, use_validity: bool) -> (r: Vec<
        ExtendNullBits,
    >)
        ensures
            r@.len() == arrays@.len(),
            forall|j: int|
                0 <= j < arrays@.len() ==> (#[trigger] r@[j]).spec_validity()
                    == arrays@[j].spec_validity() && r@[j].spec_use_validity() == use_validity,
    {
        let mut r: Vec<ExtendNullBits> = Vec::with_capacity(arrays.len());
        let mut k: usize = 0;
        while k < arrays.len()
            invariant
                k <= arrays@.len(),
                r@.len() == k,
                forall|j: int|
                    0 <= j < k ==> (#[trigger] r@[j]).spec_validity()
                        == arrays@[j].spec_validity() && r@[j].spec_use_validity()
                        == use_validity,
            decreases arrays@.len() - k,
        {
            r.push(build_extend_null_bits(&arrays[k].validity(), use_validity));
            k += 1;
        }
        r
    }

    /// A growable over `arrays`, tracking validity when `use_validity` is set or a source
    /// has a validity bitmap; `capacity` is the expected number of slots.
    pub fn new(arrays: Vec<&'a BinaryArray<O>>, use_validity: bool, capacity: usize) -> (r:
        Self)
        requires
            forall|k: int| 0 <= k < arrays@.len() ==> (#[trigger] arrays@[k]).wf(),
        ensures
            r.wf(),
            r.sources() == arrays@,
            use_validity ==> r.spec_use_validity(),
            r@ == Seq::<Option<Seq<u8>>>::empty(),
            r.spec_spans() == Seq::<Seq<u8>>::empty(),
            r.values_len() == 0,
    {
        let mut track = use_validity;
        let mut k: usize = 0;
        while k < arrays.len()
            invariant
                k <= arrays@.len(),
                use_validity ==> track,
                forall|j: int| 0 <= j < arrays@.len() ==> (#[trigger] arrays@[j]).wf(),
                !track ==> forall|j: int|
                    0 <= j < k ==> no_nulls(#[trigger] arrays@[j]@) && arrays@[j].spec_validity() is None,
            decreases arrays@.len() - k,
        {
            if arrays[k].validity().is_some() {
                track = true;
            } else {
                proof {
                    let a = arrays@[k as int];
                    a.lemma_view();
                    assert forall|i: int| 0 <= i < a@.len() implies #[trigger] a@[i] is Some by {}
                }
            }
            k += 1;
        }
        let extend_null_bits = Self::null_bits_of(&arrays, track);
        proof {
            O::lemma_max_offset();
        }
        let zero = O::from_usize(0).unwrap();
        let mut offsets: Vec<O> = Vec::with_capacity(capacity);
        offsets.push(zero);
        let r = GrowableBinary {
            arrays,
            validity: MutableBitmap::with_capacity(capacity),
            values: Vec::new(),
            offsets,
            last_offset: zero,
            use_validity: track,
            extend_null_bits,
        };
        assert(r@ =~= Seq::<Option<Seq<u8>>>::empty());
        assert(r.spec_spans() =~= Seq::<Seq<u8>>::empty());
        r
    }

    /// Appends the slots `start..start + len` of the source `index`, rebasing their offsets
    /// to follow the bytes already built.
    pub fn extend(&mut self, index: usize, start: usize, len: usize)
        requires
            old(self).wf(),
            index < old(self).sources().len(),
            start + len <= old(self).sources()[index as int]@.len(),
            old(self)@.len() + len <= usize::MAX,
            old(self).values_len() + span_len(old(self).sources()[index as int], start as int, len as int)
                <= O::max_offset(),
            old(self).values_len() + span_len(old(self).sources()[index as int], start as int, len as int)
                <= usize::MAX,
        ensures
            final(self).wf(),
            final(self).sources() == old(self).sources(),
            final(self).spec_use_validity() == old(self).spec_use_validity(),
            final(self)@ == old(self)@ + old(self).sources()[index as int]@.subrange(
                start as int,
                start + len,
            ),
            final(self).spec_spans() == old(self).spec_spans() + old(self).sources()[index as int].spec_spans().subrange(
                start as int,
                start + len,
            ),
            final(self).values_len() == old(self).values_len() + span_len(
                old(self).sources()[index as int],
                start as int,
                len as int,
            ),
    {
        let array = self.arrays[index];
        proof {
            array.lemma_view();
            array.spec_offsets().lemma_view();
            array.spec_values().lemma_view();
        }
        let ghost src_offsets = array.spec_offsets()@;
        let ghost src_values = array.spec_values()@;
        let ghost old_offsets = self.offsets@;
        let ghost old_values = self.values@;
        let ghost old_validity = self.validity@;
        let ghost old_spans = spans(old_offsets, old_values);
        let ghost n0 = old_offsets.len() as int;
        let ghost last = old_values.len() as int;
        let ghost a = src_offsets[start as int].as_int();
        self.extend_null_bits[index].extend(&mut self.validity, start, len);
        let offsets = array.offsets().as_slice();
        let values = array.values().as_slice();
        let run = vstd::slice::slice_subrange(offsets, start, start + len + 1);
        proof {
            assert forall|i: int, j: int|
                0 <= i <= j < run@.len() implies #[trigger] run@[i].as_int()
                <= #[trigger] run@[j].as_int() by {
                assert(run@[i] == src_offsets[start + i]);
                assert(run@[j] == src_offsets[start + j]);
            }
            assert forall|i: int| 0 <= i < run@.len() implies 0 <= #[trigger] run@[i].as_int()
                <= run@.last().as_int() by {
                assert(run@[i] == src_offsets[start + i]);
                assert(run@.last() == src_offsets[start + len]);
            }
        }
        extend_offsets(&mut self.offsets, &mut self.last_offset, run);
        extend_offset_values(&mut self.values, offsets, values, start, len);
        proof {
            let new_offsets = self.offsets@;
            let new_values = self.values@;
            let b = src_offsets[start + len].as_int();
            assert(new_values.len() == last + b - a);
            assert(run@[0] == src_offsets[start as int]);
            assert forall|j: int| 0 <= j <= len implies #[trigger] new_offsets[n0 - 1 + j].as_int()
                == last + src_offsets[start + j].as_int() - a by {
                if j == 0 {
                    assert(new_offsets.subrange(0, n0)[n0 - 1] == old_offsets[n0 - 1]);
                } else {
                    let k = j - 1;
                    assert(new_offsets[n0 + k].as_int() == last + run@[k + 1].as_int() - run@[0].as_int());
                    assert(n0 + k == n0 - 1 + j);
                    assert(run@[j] == src_offsets[start + j]);
                }
            }
            assert forall|m: int| 0 <= m < n0 implies #[trigger] new_offsets[m] == old_offsets[m] by {
                assert(new_offsets.subrange(0, n0)[m] == old_offsets[m]);
            }
            // the offsets stay a non-decreasing index into the bytes
            assert forall|i: int| 0 <= i < new_offsets.len() implies 0 <= #[trigger] new_offsets[i].as_int()
                <= new_values.len() by {
                if i >= n0 {
                    assert(new_offsets[n0 - 1 + (i - n0 + 1)].as_int() == last + src_offsets[start + (i - n0 + 1)].as_int() - a);
                }
            }
            assert forall|i: int, j: int| 0 <= i <= j < new_offsets.len() implies #[trigger] new_offsets[i].as_int()
                <= #[trigger] new_offsets[j].as_int() by {
                if j >= n0 {
                    assert(new_offsets[n0 - 1 + (j - n0 + 1)].as_int() == last + src_offsets[start + (j - n0 + 1)].as_int() - a);
                    assert(src_offsets[start as int].as_int() <= src_offsets[start + (j - n0 + 1)].as_int());
                    if i >= n0 {
                        assert(new_offsets[n0 - 1 + (i - n0 + 1)].as_int() == last + src_offsets[start + (i - n0 + 1)].as_int() - a);
                        assert(src_offsets[start + (i - n0 + 1)].as_int() <= src_offsets[start + (j - n0 + 1)].as_int());
                    } else {
                        assert(old_offsets[i].as_int() <= old_offsets[n0 - 1].as_int());
                    }
                }
            }
            let added = array.spec_spans().subrange(start as int, start + len);
            assert forall|m: int| 0 <= m < n0 - 1 implies #[trigger] spans(new_offsets, new_values)[m]
                == old_spans[m] by {
                assert(old_offsets[m].as_int() <= old_offsets[m + 1].as_int());
                assert(old_offsets[m + 1].as_int() <= last);
                assert(new_values.subrange(old_offsets[m].as_int(), old_offsets[m + 1].as_int())
                    =~= old_values.subrange(old_offsets[m].as_int(), old_offsets[m + 1].as_int()));
            }
            assert forall|m: int| n0 - 1 <= m < n0 - 1 + len implies #[trigger] spans(new_offsets, new_values)[m]
                == added[m - (n0 - 1)] by {
                let j = m - (n0 - 1);
                assert(m == n0 - 1 + j);
                let lo = src_offsets[start + j].as_int();
                let hi = src_offsets[start + j + 1].as_int();
                assert(new_offsets[n0 - 1 + j].as_int() == last + lo - a);
                assert(new_offsets[n0 - 1 + (j + 1)].as_int() == last + hi - a);
                assert(a <= lo <= hi <= b);
                assert(new_values.subrange(last + lo - a, last + hi - a) =~= src_values.subrange(lo, hi));
            }
            assert(spans(new_offsets, new_values) =~= old_spans + added);
            lemma_grown_append(
                old_spans,
                old_validity,
                self.use_validity,
                added,
                validity_bits(array.spec_validity(), start as int, len as int),
            );
            lemma_masked_run(array.spec_spans(), array.spec_validity(), start as int, len as int);
            if !self.use_validity {
                assert(grown(added, Seq::empty(), false) =~= array@.subrange(start as int, start + len));
            }
        }
    }

    /// Appends `additional` null slots, each spanning no bytes.
    pub fn extend_validity(&mut self, additional: usize)
        requires
            old(self).wf(),
            old(self)@.len() + additional <= usize::MAX,
        ensures
            final(self).wf(),
            final(self).sources() == old(self).sources(),
            final(self).spec_use_validity(),
            final(self)@ == old(self)@ + Seq::new(additional as nat, |i: int| None::<Seq<u8>>),
            final(self).spec_spans() == old(self).spec_spans() + Seq::new(
                additional as nat,
                |i: int| Seq::<u8>::empty(),
            ),
            final(self).values_len() == old(self).values_len(),
    {
        if !self.use_validity {
            let ghost before = self@;
            self.validity.extend_constant(self.offsets.len() - 1, true);
            self.use_validity = true;
            self.extend_null_bits = Self::null_bits_of(&self.arrays, true);
            assert(self@ =~= before);
        }
        let ghost old_offsets = self.offsets@;
        let ghost old_validity = self.validity@;
        let ghost old_spans = self.spec_spans();
        let ghost snapshot = *self;
        let mut i: usize = 0;
        while i < additional
            invariant
                self.arrays == snapshot.arrays,
                self.validity == snapshot.validity,
                self.values == snapshot.values,
                self.last_offset == snapshot.last_offset,
                self.use_validity == snapshot.use_validity,
                self.extend_null_bits == snapshot.extend_null_bits,
                snapshot.wf(),
                i <= additional,
                self.offsets@.len() == old_offsets.len() + i,
                self.offsets@.subrange(0, old_offsets.len() as int) == old_offsets,
                forall|k: int|
                    old_offsets.len() <= k < self.offsets@.len() ==> #[trigger] self.offsets@[k]
                        == self.last_offset,
            decreases additional - i,
        {
            let ghost prev = self.offsets@;
            self.offsets.push(self.last_offset);
            i += 1;
            assert(self.offsets@.subrange(0, old_offsets.len() as int) =~= prev.subrange(
                0,
                old_offsets.len() as int,
            ));
        }
        self.validity.extend_constant(additional, false);
        proof {
            let n0 = old_offsets.len() as int;
            assert forall|k: int| 0 <= k < n0 implies #[trigger] self.offsets@[k] == old_offsets[k] by {
                assert(self.offsets@.subrange(0, n0)[k] == old_offsets[k]);
            }
            assert(old_offsets[n0 - 1].as_int() == self.last_offset.as_int());
            assert forall|a: int, b: int|
                0 <= a <= b < self.offsets@.len() implies #[trigger] self.offsets@[a].as_int()
                <= #[trigger] self.offsets@[b].as_int() by {
                if a < n0 {
                    assert(old_offsets[a].as_int() <= old_offsets[n0 - 1].as_int());
                }
            }
            let added = Seq::new(additional as nat, |i: int| Seq::<u8>::empty());
            assert forall|m: int| 0 <= m < self.offsets@.len() - 1 implies #[trigger] self.spec_spans()[m]
                == (old_spans + added)[m] by {
                if m >= n0 - 1 {
                    assert(self.offsets@[m].as_int() == self.values@.len());
                    assert(self.offsets@[m + 1].as_int() == self.values@.len());
                }
            }
            assert(self.spec_spans() =~= old_spans + added);
            lemma_grown_append(old_spans, old_validity, true, added, Seq::new(additional as nat, |i: int| false));
            assert(grown(added, Seq::new(additional as nat, |i: int| false), true) =~= Seq::new(
                additional as nat,
                |i: int| None::<Seq<u8>>,
            ));
        }
    }

    /// Freezes the slots into a new array.
    pub fn to_array(self) -> (r: BinaryArray<O>)
        requires
            self.wf(),
        ensures
            r.wf(),
            r@ == self@,
            self.spec_use_validity() ==> r.spec_validity() is Some,
            r.spec_spans() == self.spec_spans(),
    {
        let ghost spans_before = self.spec_spans();
        let ghost view_before = self@;
        let validity = if self.use_validity {
            Some(self.validity.into_bitmap())
        } else {
            None
        };
        let offsets = Buffer::from_vec(self.offsets);
        let values = Buffer::from_vec(self.values);
        let r = BinaryArray::from_data(offsets, values, validity);
        assert(r@ =~= view_before);
        r
    }
}


/// Builds one array of strings by copying runs of slots of source arrays.
pub struct GrowableUtf8<'a, O> {
    arrays: Vec<&'a Utf8Array<O>>,
    inner: GrowableBinary<'a, O>,
}

impl<'a, O: Offset> View for GrowableUtf8<'a, O> {
    type V = Seq<Option<Seq<u8>>>;

    closed spec fn view(&self) -> Seq<Option<Seq<u8>>> {
        self.inner@
    }
}

impl<'a, O: Offset> GrowableUtf8<'a, O> {
    /// The source arrays.
    pub closed spec fn sources(&self) -> Seq<&'a Utf8Array<O>> {
        self.arrays@
    }

    /// Whether validity is tracked, so that the frozen array has a validity bitmap.
    pub closed spec fn spec_use_validity(&self) -> bool {
        self.inner.spec_use_validity()
    }

    /// Number of bytes built so far.
    pub closed spec fn values_len(&self) -> nat {
        self.inner.values_len()
    }

    pub closed spec fn wf(&self) -> bool {
        &&& self.inner.wf()
        &&& all_utf8(self.inner.spec_spans())
        &&& self.inner.sources().len() == self.arrays@.len()
        &&& forall|k: int|
            0 <= k < self.arrays@.len() ==> (#[trigger] self.arrays@[k]).wf() && *self.inner.sources()[k]
                == self.arrays@[k].spec_binary()
    }

    /// A growable over `arrays`, tracking validity when `use_validity` is set or a source
    /// has a validity bitmap; `capacity` is the expected number of slots.
    pub fn new(arrays: Vec<&'a Utf8Array<O>>, use_validity: bool, capacity: usize) -> (r: Self)
        requires
            forall|k: int| 0 <= k < arrays@.len() ==> (#[trigger] arrays@[k]).wf(),
        ensures
            r.wf(),
            r.sources() == arrays@,
            use_validity ==> r.spec_use_validity(),
            r@ == Seq::<Option<Seq<u8>>>::empty(),
            r.values_len() == 0,
    {
        let mut binaries: Vec<&'a BinaryArray<O>> = Vec::with_capacity(arrays.len());
        let mut k: usize = 0;
        while k < arrays.len()
            invariant
                k <= arrays@.len(),
                binaries@.len() == k,
                forall|j: int| 0 <= j < arrays@.len() ==> (#[trigger] arrays@[j]).wf(),
                forall|j: int|
                    0 <= j < k ==> *(#[trigger] binaries@[j]) == arrays@[j].spec_binary(),
            decreases arrays@.len() - k,
        {
            let array: &'a Utf8Array<O> = arrays[k];
            proof {
                array.lemma_view();
            }
            binaries.push(array.as_binary());
            k += 1;
        }
        assert forall|j: int| 0 <= j < binaries@.len() implies (#[trigger] binaries@[j]).wf() by {
            arrays@[j].lemma_view();
        }
        let inner = GrowableBinary::new(binaries, use_validity, capacity);
        GrowableUtf8 { arrays, inner }
    }

    /// Appends the slots `start..start + len` of the source `index`.
    pub fn extend(&mut self, index: usize, start: usize, len: usize)
        requires
            old(self).wf(),
            index < old(self).sources().len(),
            start + len <= old(self).sources()[index as int]@.len(),
            old(self)@.len() + len <= usize::MAX,
            old(self).values_len() + span_len(&old(self).sources()[index as int].spec_binary(), start as int, len as int)
                <= O::max_offset(),
            old(self).values_len() + span_len(&old(self).sources()[index as int].spec_binary(), start as int, len as int)
                <= usize::MAX,
        ensures
            final(self).wf(),
            final(self).sources() == old(self).sources(),
            final(self).spec_use_validity() == old(self).spec_use_validity(),
            final(self)@ == old(self)@ + old(self).sources()[index as int]@.subrange(
                start as int,
                start + len,
            ),
            final(self).values_len() == old(self).values_len() + span_len(
                &old(self).sources()[index as int].spec_binary(),
                start as int,
                len as int,
            ),
    {
        proof {
            self.arrays@[index as int].lemma_view();
            self.arrays@[index as int].spec_binary().lemma_view();
        }
        let ghost src = self.arrays@[index as int].spec_binary().spec_spans();
        let ghost before = self.inner.spec_spans();
        self.inner.extend(index, start, len);
        assert(self.inner.spec_spans() == before + src.subrange(start as int, start + len));
        assert forall|m: int| 0 <= m < self.inner.spec_spans().len() implies valid_utf8(
            #[trigger] self.inner.spec_spans()[m],
        ) by {
            if m >= before.len() {
                assert(self.inner.spec_spans()[m] == src[start + (m - before.len())]);
            } else {
                assert(self.inner.spec_spans()[m] == before[m]);
            }
        }
    }

    /// Appends `additional` null slots.
    pub fn extend_validity(&mut self, additional: usize)
        requires
            old(self).wf(),
            old(self)@.len() + additional <= usize::MAX,
        ensures
            final(self).wf(),
            final(self).sources() == old(self).sources(),
            final(self).spec_use_validity(),
            final(self)@ == old(self)@ + Seq::new(additional as nat, |i: int| None::<Seq<u8>>),
            final(self).values_len() == old(self).values_len(),
    {
        let ghost before = self.inner.spec_spans();
        self.inner.extend_validity(additional);
        assert forall|m: int| 0 <= m < self.inner.spec_spans().len() implies valid_utf8(
            #[trigger] self.inner.spec_spans()[m],
        ) by {
            if m >= before.len() {
                assert(self.inner.spec_spans()[m] == Seq::<u8>::empty());
            } else {
                assert(self.inner.spec_spans()[m] == before[m]);
            }
        }
    }

    /// Freezes the slots into a new array.
    pub fn to_array(self) -> (r: Utf8Array<O>)
        requires
            self.wf(),
        ensures
            r.wf(),
            r@ == self@,
            self.spec_use_validity() ==> r.spec_binary().spec_validity() is Some,
    {
        let binary = self.inner.to_array();
        Utf8Array::from_binary(binary)
    }
}

} // verus!

