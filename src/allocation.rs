use vstd::prelude::*;

use crate::types::NativeType;

verus! {

/// The alignment, in bytes, that buffers are allocated with.
pub const ALIGNMENT: usize = 64;

/// Sum of `s`.
pub open spec fn sum(s: Seq<nat>) -> nat
    decreases s.len(),
{
    if s.len() == 0 {
        0
    } else {
        sum(s.drop_last()) + s.last()
    }
}

proof fn lemma_sum_update(s: Seq<nat>, i: int, v: nat)
    requires
        0 <= i < s.len(),
    ensures
        sum(s.update(i, v)) + s[i] == sum(s) + v,
    decreases s.len(),
{
    if i < s.len() - 1 {
        lemma_sum_update(s.drop_last(), i, v);
        assert(s.update(i, v).drop_last() =~= s.drop_last().update(i, v));
    } else {
        assert(s.update(i, v).drop_last() =~= s.drop_last());
    }
}

proof fn lemma_sum_zeros(s: Seq<nat>)
    requires
        forall|i: int| 0 <= i < s.len() ==> #[trigger] s[i] == 0,
    ensures
        sum(s) == 0,
    decreases s.len(),
{
    if s.len() > 0 {
        lemma_sum_zeros(s.drop_last());
    }
}

/// The accounting of the bytes allocated for buffers and not yet freed: a counter of live
/// bytes, and the size of each allocation made so far, zero once freed.
pub struct Allocations {
    live: usize,
    sizes: Ghost<Seq<nat>>,
}

/// An allocation of `len` elements of `T`, recorded in an [`Allocations`]. It cannot be
/// cloned: it is freed once, by [`free_aligned`] or by [`reallocate`].
pub struct AlignedAllocation<T> {
    data: Vec<T>,
    bytes: usize,
    id: Ghost<int>,
}

impl<T> AlignedAllocation<T> {
    pub closed spec fn len(&self) -> nat {
        self.data@.len()
    }

    /// The bytes this allocation accounts for.
    pub closed spec fn bytes(&self) -> nat {
        self.bytes as nat
    }

    /// The elements of this allocation.
    pub closed spec fn contents(&self) -> Seq<T> {
        self.data@
    }

    pub closed spec fn id(&self) -> int {
        self.id@
    }

    /// Number of elements.
    pub fn size(&self) -> (r: usize)
        ensures
            r == self.len(),
    {
        self.data.len()
    }

    /// The elements.
    pub fn as_slice(&self) -> (r: &[T])
        ensures
            r@ == self.contents(),
    {
        self.data.as_slice()
    }
}

impl Allocations {
    /// Number of bytes allocated and not yet freed.
    pub closed spec fn live(&self) -> nat {
        self.live as nat
    }

    /// The size of each allocation made so far, zero once freed.
    pub closed spec fn sizes(&self) -> Seq<nat> {
        self.sizes@
    }

    pub closed spec fn wf(&self) -> bool {
        self.live == sum(self.sizes@)
    }

    /// `a` is an allocation of this accounting that is not freed yet, or one of no byte.
    pub closed spec fn holds<T>(&self, a: &AlignedAllocation<T>) -> bool {
        a.bytes == 0 || (0 <= a.id@ < self.sizes@.len() && self.sizes@[a.id@] == a.bytes)
    }

    /// What it takes for this accounting to hold `a`.
    pub proof fn lemma_holds<T>(&self, a: &AlignedAllocation<T>)
        ensures
            self.holds(a) == (a.bytes() == 0 || (0 <= a.id() < self.sizes().len()
                && self.sizes()[a.id()] == a.bytes())),
    {
    }

    /// An accounting with nothing allocated.
    pub fn new() -> (r: Self)
        ensures
            r.wf(),
            r.live() == 0,
            r.sizes() == Seq::<nat>::empty(),
    {
        Allocations { live: 0, sizes: Ghost(Seq::empty()) }
    }

    /// Number of bytes allocated and not yet freed.
    pub fn allocated(&self) -> (r: usize)
        ensures
            r == self.live(),
    {
        self.live
    }

    /// Once every allocation has been freed, no byte is accounted as live.
    pub proof fn lemma_no_leak(&self)
        requires
            self.wf(),
            forall|i: int| 0 <= i < self.sizes().len() ==> #[trigger] self.sizes()[i] == 0,
        ensures
            self.live() == 0,
    {
        assert forall|i: int| 0 <= i < self.sizes@.len() implies #[trigger] self.sizes@[i] == 0 by {
            assert(self.sizes()[i] == 0);
        }
        lemma_sum_zeros(self.sizes@);
    }

    fn record<T>(&mut self, data: Vec<T>, bytes: usize) -> (r: AlignedAllocation<T>)
        requires
            old(self).wf(),
            old(self).live() + bytes <= usize::MAX,
        ensures
            final(self).wf(),
            final(self).holds(&r),
            final(self).live() == old(self).live() + bytes,
            final(self).sizes() == old(self).sizes().push(bytes as nat),
            r.bytes() == bytes,
            r.contents() == data@,
            r.id() == old(self).sizes().len(),
    {
        let ghost id = self.sizes@.len() as int;
        proof {
            assert(self.sizes@.push(bytes as nat).drop_last() =~= self.sizes@);
        }
        self.sizes = Ghost(self.sizes@.push(bytes as nat));
        self.live = self.live + bytes;
        AlignedAllocation { data, bytes, id: Ghost(id) }
    }

    fn release<T>(&mut self, a: AlignedAllocation<T>) -> (r: Vec<T>)
        requires
            old(self).wf(),
            old(self).holds(&a),
        ensures
            final(self).wf(),
            final(self).live() == old(self).live() - a.bytes(),
            a.bytes() > 0 ==> final(self).sizes() == old(self).sizes().update(a.id(), 0),
            a.bytes() == 0 ==> final(self).sizes() == old(self).sizes(),
            r@ == a.contents(),
    {
        if a.bytes > 0 {
            proof {
                lemma_sum_update(self.sizes@, a.id@, 0);
            }
            self.sizes = Ghost(self.sizes@.update(a.id@, 0));
            self.live = self.live - a.bytes;
        }
        a.data
    }
}

/// The sizes recorded once `a` is freed: its entry becomes zero.
pub open spec fn released<T>(sizes: Seq<nat>, a: &AlignedAllocation<T>) -> Seq<nat> {
    if a.bytes() > 0 {
        sizes.update(a.id(), 0)
    } else {
        sizes
    }
}

/// `size` zeros of `T`.
fn zeros<T: NativeType>(size: usize) -> (r: Vec<T>)
    ensures
        r@.len() == size,
        forall|i: int| 0 <= i < size ==> (#[trigger] r@[i]).as_int() == 0,
{
    let mut r: Vec<T> = Vec::with_capacity(size);
    let mut i: usize = 0;
    while i < size
        invariant
            i <= size,
            r@.len() == i,
            forall|k: int| 0 <= k < i ==> (#[trigger] r@[k]).as_int() == 0,
        decreases size - i,
    {
        r.push(T::zero());
        i += 1;
    }
    r
}

/// Allocates `size` elements of `T`, recording their bytes in `allocations`; an allocation of
/// no element records nothing. The contents are unspecified.
pub fn allocate_aligned<T: NativeType>(allocations: &mut Allocations, size: usize) -> (r:
    AlignedAllocation<T>)
    requires
        old(allocations).wf(),
        size * T::width() + old(allocations).live() <= usize::MAX,
    ensures
        final(allocations).wf(),
        final(allocations).holds(&r),
        r.len() == size,
        r.bytes() == size * T::width(),
        final(allocations).live() == old(allocations).live() + size * T::width(),
        r.bytes() > 0 ==> r.id() == old(allocations).sizes().len() && final(allocations).sizes()
            == old(allocations).sizes().push(r.bytes()),
        r.bytes() == 0 ==> final(allocations).sizes() == old(allocations).sizes(),
{
    allocate_aligned_zeroed(allocations, size)
}

/// Allocates `size` zeroed elements of `T`, recording their bytes in `allocations`; an
/// allocation of no element records nothing.
pub fn allocate_aligned_zeroed<T: NativeType>(allocations: &mut Allocations, size: usize) -> (r:
    AlignedAllocation<T>)
    requires
        old(allocations).wf(),
        size * T::width() + old(allocations).live() <= usize::MAX,
    ensures
        final(allocations).wf(),
        final(allocations).holds(&r),
        r.len() == size,
        r.bytes() == size * T::width(),
        forall|i: int| 0 <= i < size ==> (#[trigger] r.contents()[i]).as_int() == 0,
        final(allocations).live() == old(allocations).live() + size * T::width(),
        r.bytes() > 0 ==> r.id() == old(allocations).sizes().len() && final(allocations).sizes()
            == old(allocations).sizes().push(r.bytes()),
        r.bytes() == 0 ==> final(allocations).sizes() == old(allocations).sizes(),
{
    let width = T::byte_width();
    assert(size * width <= usize::MAX);
    let bytes = size * width;
    let data = zeros::<T>(size);
    if bytes == 0 {
        AlignedAllocation { data, bytes: 0, id: Ghost(-1) }
    } else {
        allocations.record(data, bytes)
    }
}

/// Frees `allocation`, removing its bytes from `allocations`.
pub fn free_aligned<T>(allocations: &mut Allocations, allocation: AlignedAllocation<T>)
    requires
        old(allocations).wf(),
        old(allocations).holds(&allocation),
    ensures
        final(allocations).wf(),
        final(allocations).live() == old(allocations).live() - allocation.bytes(),
        allocation.bytes() > 0 ==> final(allocations).sizes() == old(allocations).sizes().update(
            allocation.id(),
            0,
        ),
        allocation.bytes() == 0 ==> final(allocations).sizes() == old(allocations).sizes(),
{
    let _ = allocations.release(allocation);
}

/// Grows or shrinks `allocation` to `new_size` elements, keeping the first ones; the bytes
/// recorded in `allocations` change by the difference. Shrinking to no element frees it.
pub fn reallocate<T: NativeType>(
    allocations: &mut Allocations,
    allocation: AlignedAllocation<T>,
    new_size: usize,
) -> (r: AlignedAllocation<T>)
    requires
        old(allocations).wf(),
        old(allocations).holds(&allocation),
        new_size * T::width() + old(allocations).live() <= usize::MAX,
    ensures
        final(allocations).wf(),
        final(allocations).holds(&r),
        r.len() == new_size,
        r.bytes() == new_size * T::width(),
        final(allocations).live() == old(allocations).live() - allocation.bytes() + new_size
            * T::width(),
        r.bytes() > 0 ==> r.id() == released(old(allocations).sizes(), &allocation).len()
            && final(allocations).sizes() == released(old(allocations).sizes(), &allocation).push(
            r.bytes(),
        ),
        r.bytes() == 0 ==> final(allocations).sizes() == released(
            old(allocations).sizes(),
            &allocation,
        ),
        forall|i: int|
            0 <= i < new_size && i < allocation.len() ==> #[trigger] r.contents()[i]
                == allocation.contents()[i],
{
    let width = T::byte_width();
    assert(new_size * width <= usize::MAX);
    let ghost old_contents = allocation.contents();
    let mut data = allocations.release(allocation);
    if data.len() > new_size {
        data.truncate(new_size);
    }
    while data.len() < new_size
        invariant
            data@.len() <= new_size,
            data@.len() < new_size ==> data@.len() >= old_contents.len(),
            forall|i: int|
                0 <= i < data@.len() && i < old_contents.len() ==> #[trigger] data@[i]
                    == old_contents[i],
        decreases new_size - data@.len(),
    {
        data.push(T::zero());
    }
    let bytes = new_size * width;
    if bytes == 0 {
        AlignedAllocation { data, bytes: 0, id: Ghost(-1) }
    } else {
        allocations.record(data, bytes)
    }
}

} // verus!
