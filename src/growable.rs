use vstd::prelude::*;

use crate::array::{all_valid, masked, validity_view, validity_wf};
use crate::bitmap::{count_unset, Bitmap, MutableBitmap};
use crate::boolean::BooleanArray;
use crate::buffer::Buffer;
use crate::primitive::PrimitiveArray;
use crate::types::NativeType;

verus! {

/// The slots built by a growable: the values, masked by the validity when it is tracked.
pub open spec fn grown<A>(values: Seq<A>, validity: Seq<bool>, use_validity: bool) -> Seq<
    Option<A>,
> {
    if use_validity {
        masked(values, Some(validity))
    } else {
        all_valid(values)
    }
}

/// `s` has no null slot.
pub open spec fn no_nulls<A>(s: Seq<Option<A>>) -> bool {
    forall|i: int| 0 <= i < s.len() ==> #[trigger] s[i] is Some
}

/// The validity bits of the slots `start..start + len` under `validity`.
pub open spec fn validity_bits(validity: Option<Bitmap>, start: int, len: int) -> Seq<bool> {
    match validity {
        Some(b) => b@.subrange(start, start + len),
        None => Seq::new(len as nat, |i: int| true),
    }
}

/// Appends to `mutable_validity` the validity bits of the slots `start..start + len` under
/// `validity`, when `use_validity` is set or `validity` is present.
pub fn extend_validity(
    mutable_validity: &mut MutableBitmap,
    validity: &Option<Bitmap>,
    start: usize,
    len: usize,
    use_validity: bool,
)
    requires
        old(mutable_validity).wf(),
        validity matches Some(b) ==> b.wf() && start + len <= b@.len(),
        old(mutable_validity)@.len() + len <= usize::MAX,
    ensures
        final(mutable_validity).wf(),
        final(mutable_validity)@ == if use_validity || validity is Some {
            old(mutable_validity)@ + validity_bits(*validity, start as int, len as int)
        } else {
            old(mutable_validity)@
        },
{
    match validity {
        Some(bitmap) => {
            mutable_validity.extend_from_bitmap(bitmap, start, len);
        },
        None => {
            if use_validity {
                mutable_validity.extend_constant(len, true);
            }
        },
    }
}

/// How a growable takes the validity bits of one source array.
pub struct ExtendNullBits {
    validity: Option<Bitmap>,
    use_validity: bool,
}

impl ExtendNullBits {
    pub closed spec fn spec_validity(&self) -> Option<Bitmap> {
        self.validity
    }

    pub closed spec fn spec_use_validity(&self) -> bool {
        self.use_validity
    }

    /// Appends to `validity` the validity bits of the source slots `start..start + len`: those
    /// of the source's bitmap when it has one, else all set when validity is tracked; does
    /// nothing when the source has no bitmap and validity is not tracked.
    pub fn extend(&self, validity: &mut MutableBitmap, start: usize, len: usize)
        requires
            old(validity).wf(),
            self.spec_validity() matches Some(b) ==> b.wf() && start + len <= b@.len(),
            old(validity)@.len() + len <= usize::MAX,
        ensures
            final(validity).wf(),
            final(validity)@ == if self.spec_use_validity() || self.spec_validity() is Some {
                old(validity)@ + validity_bits(self.spec_validity(), start as int, len as int)
            } else {
                old(validity)@
            },
    {
        extend_validity(validity, &self.validity, start, len, self.use_validity);
    }
}

/// How a growable that tracks validity when `use_validity` is set takes the validity bits of
/// a source array whose validity is `validity`.
pub fn build_extend_null_bits(validity: &Option<Bitmap>, use_validity: bool) -> (r: ExtendNullBits)
    ensures
        r.spec_validity() == *validity,
        r.spec_use_validity() == use_validity,
{
    ExtendNullBits { validity: crate::array::share_validity(validity), use_validity }
}

/// The slots `start..start + len` of an array of `values` with `validity`, as the validity
/// bits say.
pub proof fn lemma_masked_run<A>(
    values: Seq<A>,
    validity: Option<Bitmap>,
    start: int,
    len: int,
)
    requires
        0 <= start,
        0 <= len,
        start + len <= values.len(),
        validity_wf(validity, values.len()),
    ensures
        masked(values.subrange(start, start + len), Some(validity_bits(validity, start, len)))
            == masked(values, validity_view(validity)).subrange(start, start + len),
{
    assert(masked(values.subrange(start, start + len), Some(validity_bits(validity, start, len)))
        =~= masked(values, validity_view(validity)).subrange(start, start + len));
}

/// Appending values and their validity bits appends the slots they make.
pub proof fn lemma_grown_append<A>(
    values: Seq<A>,
    validity: Seq<bool>,
    use_validity: bool,
    more: Seq<A>,
    more_validity: Seq<bool>,
)
    requires
        use_validity ==> validity.len() == values.len(),
        use_validity ==> more_validity.len() == more.len(),
    ensures
        grown(values + more, validity + more_validity, use_validity) == grown(
            values,
            validity,
            use_validity,
        ) + grown(more, more_validity, use_validity),
{
    assert(grown(values + more, validity + more_validity, use_validity) =~= grown(
        values,
        validity,
        use_validity,
    ) + grown(more, more_validity, use_validity));
}

/// The slots that extending a growable over arrays of slots `sources` by the runs `ops`, each
/// `(source, start, length)`, appends, in order.
pub open spec fn extended<A>(sources: Seq<Seq<Option<A>>>, ops: Seq<(int, int, int)>) -> Seq<
    Option<A>,
>
    decreases ops.len(),
{
    if ops.len() == 0 {
        Seq::empty()
    } else {
        let op = ops.last();
        extended(sources, ops.drop_last()) + sources[op.0].subrange(op.1, op.1 + op.2)
    }
}

/// Number of slots that the first `t` runs of `ops` append.
pub open spec fn appended_before(ops: Seq<(int, int, int)>, t: int) -> int
    decreases t,
{
    if t <= 0 {
        0
    } else {
        appended_before(ops, t - 1) + ops[t - 1].2
    }
}

/// Each run of `ops` lies within its source.
pub open spec fn runs_in_sources<A>(sources: Seq<Seq<Option<A>>>, ops: Seq<(int, int, int)>) -> bool {
    forall|k: int|
        0 <= k < ops.len() ==> 0 <= (#[trigger] ops[k]).0 < sources.len() && 0 <= ops[k].1 && 0
            <= ops[k].2 && ops[k].1 + ops[k].2 <= sources[ops[k].0].len()
}

proof fn lemma_extended_len<A>(sources: Seq<Seq<Option<A>>>, ops: Seq<(int, int, int)>)
    requires
        runs_in_sources(sources, ops),
    ensures
        extended(sources, ops).len() == appended_before(ops, ops.len() as int),
    decreases ops.len(),
{
    if ops.len() > 0 {
        let prefix = ops.drop_last();
        assert(runs_in_sources(sources, prefix)) by {
            assert forall|k: int| 0 <= k < prefix.len() implies 0 <= (#[trigger] prefix[k]).0
                < sources.len() && 0 <= prefix[k].1 && 0 <= prefix[k].2 && prefix[k].1
                + prefix[k].2 <= sources[prefix[k].0].len() by {
                assert(prefix[k] == ops[k]);
            }
        }
        lemma_extended_len(sources, prefix);
        lemma_appended_prefix(ops, ops.len() - 1);
        assert(ops[ops.len() - 1] == ops.last());
    }
}

proof fn lemma_appended_prefix(ops: Seq<(int, int, int)>, t: int)
    requires
        0 <= t <= ops.len() - 1,
    ensures
        appended_before(ops.drop_last(), t) == appended_before(ops, t),
    decreases t,
{
    if t > 0 {
        lemma_appended_prefix(ops, t - 1);
    }
}

/// A growable's output is the per-slot copy of its runs: slot `j` of the run `t` of `ops` is
/// slot `start + j` of its source, where the run's slots begin after those of the runs before.
pub proof fn lemma_extended_slots<A>(
    sources: Seq<Seq<Option<A>>>,
    ops: Seq<(int, int, int)>,
    t: int,
    j: int,
)
    requires
        runs_in_sources(sources, ops),
        0 <= t < ops.len(),
        0 <= j < ops[t].2,
    ensures
        extended(sources, ops)[appended_before(ops, t) + j] == sources[ops[t].0][ops[t].1 + j],
    decreases ops.len(),
{
    let prefix = ops.drop_last();
    assert(runs_in_sources(sources, prefix)) by {
        assert forall|k: int| 0 <= k < prefix.len() implies 0 <= (#[trigger] prefix[k]).0
            < sources.len() && 0 <= prefix[k].1 && 0 <= prefix[k].2 && prefix[k].1 + prefix[k].2
            <= sources[prefix[k].0].len() by {
            assert(prefix[k] == ops[k]);
        }
    }
    lemma_extended_len(sources, prefix);
    lemma_appended_prefix(ops, prefix.len() as int);
    let e = extended(sources, prefix);
    let op = ops.last();
    let run = sources[op.0].subrange(op.1, op.1 + op.2);
    assert(extended(sources, ops) == e + run);
    if t == ops.len() - 1 {
        assert(ops.last() == ops[t]);
        assert(e.len() == appended_before(ops, t));
        assert((e + run)[e.len() + j] == run[j]);
    } else {
        lemma_extended_slots(sources, prefix, t, j);
        lemma_appended_prefix(ops, t);
        lemma_appended_monotone(ops, t + 1, prefix.len() as int);
        lemma_appended_monotone(ops, 0, t);
        assert(prefix[t] == ops[t]);
        assert(appended_before(ops, t + 1) == appended_before(ops, t) + ops[t].2);
        assert(appended_before(ops, t) + j < e.len());
        assert((e + run)[appended_before(ops, t) + j] == e[appended_before(ops, t) + j]);
    }
}

proof fn lemma_appended_monotone(ops: Seq<(int, int, int)>, a: int, b: int)
    requires
        0 <= a <= b <= ops.len(),
        forall|k: int| 0 <= k < ops.len() ==> 0 <= (#[trigger] ops[k]).2,
    ensures
        appended_before(ops, a) <= appended_before(ops, b),
    decreases b - a,
{
    if a < b {
        lemma_appended_monotone(ops, a, b - 1);
    }
}

/// Builds one primitive array by copying runs of slots of source arrays.
pub struct GrowablePrimitive<'a, T> {
    arrays: Vec<&'a PrimitiveArray<T>>,
    validity: MutableBitmap,
    values: Vec<T>,
    use_validity: bool,
    extend_null_bits: Vec<ExtendNullBits>,
}

impl<'a, T: NativeType> View for GrowablePrimitive<'a, T> {
    type V = Seq<Option<T>>;

    closed spec fn view(&self) -> Seq<Option<T>> {
        grown(self.values@, self.validity@, self.use_validity)
    }
}

impl<'a, T: NativeType> GrowablePrimitive<'a, T> {
    /// The source arrays.
    pub closed spec fn sources(&self) -> Seq<&'a PrimitiveArray<T>> {
        self.arrays@
    }

    /// Whether validity is tracked, so that the frozen array has a validity bitmap.
    pub closed spec fn spec_use_validity(&self) -> bool {
        self.use_validity
    }

    pub closed spec fn wf(&self) -> bool {
        &&& self.validity.wf()
        &&& self.validity@.len() == if self.use_validity {
            self.values@.len()
        } else {
            0
        }
        &&& self.extend_null_bits@.len() == self.arrays@.len()
        &&& forall|k: int|
            0 <= k < self.arrays@.len() ==> {
                &&& (#[trigger] self.arrays@[k]).wf()
                &&& self.extend_null_bits@[k].spec_validity() == self.arrays@[k].spec_validity()
                &&& self.extend_null_bits@[k].spec_use_validity() == self.use_validity
                &&& !self.use_validity ==> no_nulls(self.arrays@[k]@)
                &&& !self.use_validity ==> self.arrays@[k].spec_validity() is None
            }
    }

    fn null_bits_of(arrays: &Vec<&'a PrimitiveArray<T>>, use_validity: bool) -> (r: Vec<
        ExtendNullBits,
    >)
        ensures
            r@.len() == arrays@.len(),
            forall|j: int|
                0 <= j < arrays@.len() ==> (#[trigger] r@[j]).spec_validity()
                    == arrays@[j].spec_validity() && r@[j].spec_use_validity() == use_validity,
    {
        let mut r: Vec<ExtendNullBits> = Vec::with_capacity(arrays.len());
        let mut k: usize = 0;
        while k < arrays.len()
            invariant
                k <= arrays@.len(),
                r@.len() == k,
                forall|j: int|
                    0 <= j < k ==> (#[trigger] r@[j]).spec_validity()
                        == arrays@[j].spec_validity() && r@[j].spec_use_validity()
                        == use_validity,
            decreases arrays@.len() - k,
        {
            r.push(build_extend_null_bits(&arrays[k].validity(), use_validity));
            k += 1;
        }
        r
    }

    /// A growable over `arrays`, tracking validity when `use_validity` is set or a source
    /// has a validity bitmap; `capacity` is the expected number of slots.
    pub fn new(arrays: Vec<&'a PrimitiveArray<T>>, use_validity: bool, capacity: usize) -> (r:
        Self)
        requires
            forall|k: int| 0 <= k < arrays@.len() ==> (#[trigger] arrays@[k]).wf(),
        ensures
            r.wf(),
            r.sources() == arrays@,
            use_validity ==> r.spec_use_validity(),
            r@ == Seq::<Option<T>>::empty(),
    {
        let mut track = use_validity;
        let mut k: usize = 0;
        while k < arrays.len()
            invariant
                k <= arrays@.len(),
                use_validity ==> track,
                forall|j: int| 0 <= j < arrays@.len() ==> (#[trigger] arrays@[j]).wf(),
                !track ==> forall|j: int|
                    0 <= j < k ==> no_nulls(#[trigger] arrays@[j]@) && arrays@[j].spec_validity() is None,
            decreases arrays@.len() - k,
        {
            if arrays[k].validity().is_some() {
                track = true;
            } else {
                proof {
                    let a = arrays@[k as int];
                    a.lemma_view();
                    assert forall|i: int| 0 <= i < a@.len() implies #[trigger] a@[i] is Some by {}
                }
            }
            k += 1;
        }
        let extend_null_bits = Self::null_bits_of(&arrays, track);
        let r = GrowablePrimitive {
            arrays,
            validity: MutableBitmap::with_capacity(capacity),
            values: Vec::with_capacity(capacity),
            use_validity: track,
            extend_null_bits,
        };
        assert(r@ =~= Seq::<Option<T>>::empty());
        r
    }

    /// Appends the slots `start..start + len` of the source `index`.
    pub fn extend(&mut self, index: usize, start: usize, len: usize)
        requires
            old(self).wf(),
            index < old(self).sources().len(),
            start + len <= old(self).sources()[index as int]@.len(),
            old(self)@.len() + len <= usize::MAX,
        ensures
            final(self).wf(),
            final(self).sources() == old(self).sources(),
            final(self).spec_use_validity() == old(self).spec_use_validity(),
            final(self)@ == old(self)@ + old(self).sources()[index as int]@.subrange(
                start as int,
                start + len,
            ),
    {
        let array = self.arrays[index];
        let ghost src = array.spec_values()@;
        proof {
            array.lemma_view();
        }
        let ghost old_values = self.values@;
        let ghost old_validity = self.validity@;
        self.extend_null_bits[index].extend(&mut self.validity, start, len);
        let values = array.values();
        proof {
            values.lemma_view();
        }
        let ghost snapshot = *self;
        let mut i: usize = 0;
        while i < len
            invariant
                self.arrays == snapshot.arrays,
                self.validity == snapshot.validity,
                self.use_validity == snapshot.use_validity,
                self.extend_null_bits == snapshot.extend_null_bits,
                src.len() <= usize::MAX,
                self.values@ == old_values + src.subrange(start as int, start + i),
                i <= len,
                start + len <= src.len(),
                *values == array.spec_values(),
                values.wf(),
                src == values@,
            decreases len - i,
        {
            self.values.push(*values.get(start + i));
            i += 1;
            assert(self.values@ =~= old_values + src.subrange(start as int, start + i));
        }
        proof {
            lemma_grown_append(
                old_values,
                old_validity,
                self.use_validity,
                src.subrange(start as int, start + len),
                validity_bits(array.spec_validity(), start as int, len as int),
            );
            lemma_masked_run(src, array.spec_validity(), start as int, len as int);
            if !self.use_validity {
                assert(grown(src.subrange(start as int, start + len), Seq::empty(), false) =~= array@.subrange(start as int, start + len));
            }
        }
    }

    /// Appends `additional` null slots.
    pub fn extend_validity(&mut self, additional: usize)
        requires
            old(self).wf(),
            old(self)@.len() + additional <= usize::MAX,
        ensures
            final(self).wf(),
            final(self).sources() == old(self).sources(),
            final(self).spec_use_validity(),
            final(self)@ == old(self)@ + Seq::new(additional as nat, |i: int| None::<T>),
    {
        if !self.use_validity {
            let ghost before = self@;
            self.validity.extend_constant(self.values.len(), true);
            self.use_validity = true;
            self.extend_null_bits = Self::null_bits_of(&self.arrays, true);
            assert(self@ =~= before);
        }
        assert(self.wf());
        let ghost old_values = self.values@;
        let ghost old_validity = self.validity@;
        let ghost snapshot = *self;
        let mut i: usize = 0;
        while i < additional
            invariant
                self.arrays == snapshot.arrays,
                self.validity == snapshot.validity,
                self.use_validity == snapshot.use_validity,
                self.extend_null_bits == snapshot.extend_null_bits,
                self.validity.wf(),
                self.validity@ == old_validity,
                i <= additional,
                self.values@.len() == old_values.len() + i,
                self.values@.subrange(0, old_values.len() as int) == old_values,
                old_validity.len() == old_values.len(),
            decreases additional - i,
        {
            let ghost prev = self.values@;
            self.values.push(T::zero());
            i += 1;
            assert(self.values@.subrange(0, old_values.len() as int) =~= prev.subrange(
                0,
                old_values.len() as int,
            ));
        }
        self.validity.extend_constant(additional, false);
        assert(self@ =~= grown(old_values, old_validity, true) + Seq::new(
            additional as nat,
            |i: int| None::<T>,
        ));
    }

    /// Freezes the slots into a new array.
    pub fn to_array(self) -> (r: PrimitiveArray<T>)
        requires
            self.wf(),
        ensures
            r.wf(),
            r@ == self@,
            self.spec_use_validity() ==> r.spec_validity() is Some,
    {
        let validity = if self.use_validity {
            Some(self.validity.into_bitmap())
        } else {
            None
        };
        let r = PrimitiveArray::from_data(Buffer::from_vec(self.values), validity);
        assert(r@ =~= self@);
        r
    }
}


/// Builds one boolean array by copying runs of slots of source arrays.
pub struct GrowableBoolean<'a> {
    arrays: Vec<&'a BooleanArray>,
    validity: MutableBitmap,
    values: MutableBitmap,
    use_validity: bool,
    extend_null_bits: Vec<ExtendNullBits>,
}

impl<'a> View for GrowableBoolean<'a> {
    type V = Seq<Option<bool>>;

    closed spec fn view(&self) -> Seq<Option<bool>> {
        grown(self.values@, self.validity@, self.use_validity)
    }
}

impl<'a> GrowableBoolean<'a> {
    /// The source arrays.
    pub closed spec fn sources(&self) -> Seq<&'a BooleanArray> {
        self.arrays@
    }

    /// Whether validity is tracked, so that the frozen array has a validity bitmap.
    pub closed spec fn spec_use_validity(&self) -> bool {
        self.use_validity
    }

    pub closed spec fn wf(&self) -> bool {
        &&& self.validity.wf()
        &&& self.values.wf()
        &&& self.validity@.len() == if self.use_validity {
            self.values@.len()
        } else {
            0
        }
        &&& self.extend_null_bits@.len() == self.arrays@.len()
        &&& forall|k: int|
            0 <= k < self.arrays@.len() ==> {
                &&& (#[trigger] self.arrays@[k]).wf()
                &&& self.extend_null_bits@[k].spec_validity() == self.arrays@[k].spec_validity()
                &&& self.extend_null_bits@[k].spec_use_validity() == self.use_validity
                &&& !self.use_validity ==> no_nulls(self.arrays@[k]@)
                &&& !self.use_validity ==> self.arrays@[k].spec_validity() is None
            }
    }

    fn null_bits_of(arrays: &Vec<&'a BooleanArray>, use_validity: bool) -> (r: Vec<
        ExtendNullBits,
    >)
        ensures
            r@.len() == arrays@.len(),
            forall|j: int|
                0 <= j < arrays@.len() ==> (#[trigger] r@[j]).spec_validity()
                    == arrays@[j].spec_validity() && r@[j].spec_use_validity() == use_validity,
    {
        let mut r: Vec<ExtendNullBits> = Vec::with_capacity(arrays.len());
        let mut k: usize = 0;
        while k < arrays.len()
            invariant
                k <= arrays@.len(),
                r@.len() == k,
                forall|j: int|
                    0 <= j < k ==> (#[trigger] r@[j]).spec_validity()
                        == arrays@[j].spec_validity() && r@[j].spec_use_validity()
                        == use_validity,
            decreases arrays@.len() - k,
        {
            r.push(build_extend_null_bits(&arrays[k].validity(), use_validity));
            k += 1;
        }
        r
    }

    /// A growable over `arrays`, tracking validity when `use_validity` is set or a source
    /// has a validity bitmap; `capacity` is the expected number of slots.
    pub fn new(arrays: Vec<&'a BooleanArray>, use_validity: bool, capacity: usize) -> (r: Self)
        requires
            forall|k: int| 0 <= k < arrays@.len() ==> (#[trigger] arrays@[k]).wf(),
        ensures
            r.wf(),
            r.sources() == arrays@,
            use_validity ==> r.spec_use_validity(),
            r@ == Seq::<Option<bool>>::empty(),
    {
        let mut track = use_validity;
        let mut k: usize = 0;
        while k < arrays.len()
            invariant
                k <= arrays@.len(),
                use_validity ==> track,
                forall|j: int| 0 <= j < arrays@.len() ==> (#[trigger] arrays@[j]).wf(),
                !track ==> forall|j: int|
                    0 <= j < k ==> no_nulls(#[trigger] arrays@[j]@) && arrays@[j].spec_validity() is None,
            decreases arrays@.len() - k,
        {
            if arrays[k].validity().is_some() {
                track = true;
            } else {
                proof {
                    let a = arrays@[k as int];
                    a.lemma_view();
                    assert(a.spec_validity() is None);
                    assert forall|i: int| 0 <= i < a@.len() implies #[trigger] a@[i] is Some by {
                        assert(a@[i] == Some(a.spec_values()@[i]));
                    }
                }
            }
            k += 1;
        }
        let extend_null_bits = Self::null_bits_of(&arrays, track);
        let r = GrowableBoolean {
            arrays,
            validity: MutableBitmap::with_capacity(capacity),
            values: MutableBitmap::with_capacity(capacity),
            use_validity: track,
            extend_null_bits,
        };
        assert(r@ =~= Seq::<Option<bool>>::empty());
        r
    }

    /// Appends the slots `start..start + len` of the source `index`.
    pub fn extend(&mut self, index: usize, start: usize, len: usize)
        requires
            old(self).wf(),
            index < old(self).sources().len(),
            start + len <= old(self).sources()[index as int]@.len(),
            old(self)@.len() + len <= usize::MAX,
        ensures
            final(self).wf(),
            final(self).sources() == old(self).sources(),
            final(self).spec_use_validity() == old(self).spec_use_validity(),
            final(self)@ == old(self)@ + old(self).sources()[index as int]@.subrange(
                start as int,
                start + len,
            ),
    {
        let array = self.arrays[index];
        let ghost src = array.spec_values()@;
        proof {
            array.lemma_view();
        }
        let ghost old_values = self.values@;
        let ghost old_validity = self.validity@;
        self.extend_null_bits[index].extend(&mut self.validity, start, len);
        self.values.extend_from_bitmap(array.values(), start, len);
        proof {
            lemma_grown_append(
                old_values,
                old_validity,
                self.use_validity,
                src.subrange(start as int, start + len),
                validity_bits(array.spec_validity(), start as int, len as int),
            );
            lemma_masked_run(src, array.spec_validity(), start as int, len as int);
            if !self.use_validity {
                assert(grown(src.subrange(start as int, start + len), Seq::empty(), false)
                    =~= array@.subrange(start as int, start + len));
            }
        }
    }

    /// Appends `additional` null slots.
    pub fn extend_validity(&mut self, additional: usize)
        requires
            old(self).wf(),
            old(self)@.len() + additional <= usize::MAX,
        ensures
            final(self).wf(),
            final(self).sources() == old(self).sources(),
            final(self).spec_use_validity(),
            final(self)@ == old(self)@ + Seq::new(additional as nat, |i: int| None::<bool>),
    {
        if !self.use_validity {
            let ghost before = self@;
            self.validity.extend_constant(self.values.len(), true);
            self.use_validity = true;
            self.extend_null_bits = Self::null_bits_of(&self.arrays, true);
            assert(self@ =~= before);
        }
        let ghost old_values = self.values@;
        let ghost old_validity = self.validity@;
        self.values.extend_constant(additional, false);
        self.validity.extend_constant(additional, false);
        assert(self@ =~= grown(old_values, old_validity, true) + Seq::new(
            additional as nat,
            |i: int| None::<bool>,
        ));
    }

    /// Freezes the slots into a new array.
    pub fn to_array(self) -> (r: BooleanArray)
        requires
            self.wf(),
        ensures
            r.wf(),
            r@ == self@,
            self.spec_use_validity() ==> r.spec_validity() is Some,
    {
        let validity = if self.use_validity {
            Some(self.validity.into_bitmap())
        } else {
            None
        };
        let r = BooleanArray::from_data(self.values.into_bitmap(), validity);
        assert(r@ =~= self@);
        r
    }
}

} // verus!
