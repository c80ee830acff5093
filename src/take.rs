use std::sync::Arc;
use vstd::prelude::*;

use crate::array::validity_view;
use crate::binary::{offsets_ok, BinaryArray};
use crate::bitmap::{Bitmap, MutableBitmap};
use crate::buffer::Buffer;
use crate::boolean::BooleanArray;
use crate::growable::{extend_validity, GrowableBoolean, GrowablePrimitive};
use crate::growable_binary::{extend_offsets, GrowableBinary, GrowableUtf8};
use crate::nested::{
    bools, byte_strings, fixed_slots, ints, list_slots, Array, FixedSizeListArray, ListArray,
    Scalar,
};
use crate::primitive::PrimitiveArray;
use crate::runs::{
    gather, lemma_gather_cons, lemma_gather_map, lemma_gather_push, lemma_runs_ordered_cons,
    runs_ordered,
};
use crate::utf8::Utf8Array;
use crate::slices::as_runs;
use crate::types::{NativeType, Offset};

verus! {

/// The slots of `array` that the runs `slices` cover, run after run.
fn take_primitive<T: NativeType>(array: &PrimitiveArray<T>, slices: &Vec<(usize, usize)>, capacity: usize) -> (r:
    PrimitiveArray<T>)
    requires
        array.wf(),
        runs_ordered(as_runs(slices@), 0, array@.len() as int),
    ensures
        r.wf(),
        r@ == gather(array@, as_runs(slices@)),
{
    let ghost rs = as_runs(slices@);
    proof {
        array.lemma_view();
    }
    let n = array.len();
    let mut mutable = GrowablePrimitive::new(vec![array], false, capacity);
    let ghost mut last_end: int = 0;
    let mut k: usize = 0;
    assert(rs.subrange(0, rs.len() as int) =~= rs);
    while k < slices.len()
        invariant
            rs == as_runs(slices@),
            k <= rs.len(),
            array@.len() == n,
            array.wf(),
            mutable.wf(),
            mutable.sources() == seq![array],
            mutable@ + gather(array@, rs.subrange(k as int, rs.len() as int)) == gather(array@, rs),
            runs_ordered(rs.subrange(k as int, rs.len() as int), last_end, n as int),
            mutable@.len() <= last_end <= n,
        decreases rs.len() - k,
    {
        let (start, len) = slices[k];
        let ghost rest = rs.subrange(k + 1, rs.len() as int);
        proof {
            assert(rs[k as int] == (start as int, len as int));
            assert(rs.subrange(k as int, rs.len() as int) =~= seq![(start as int, len as int)] + rest);
            lemma_runs_ordered_cons((start as int, len as int), rest, last_end, n as int);
            lemma_gather_cons(array@, (start as int, len as int), rest);
        }
        let ghost prev = mutable@;
        mutable.extend(0, start, len);
        proof {
            last_end = start + len;
        }
        k += 1;
        assert(mutable@ + gather(array@, rs.subrange(k as int, rs.len() as int)) =~= prev + gather(
            array@,
            seq![(start as int, len as int)] + rest,
        ));
    }
    assert(gather(array@, rs.subrange(k as int, rs.len() as int)) =~= Seq::<Option<T>>::empty());
    assert(mutable@ + Seq::<Option<T>>::empty() =~= mutable@);
    mutable.to_array()
}

/// The slots of `array` that the runs `slices` cover, run after run.
fn take_boolean(array: &BooleanArray, slices: &Vec<(usize, usize)>, capacity: usize) -> (r:
    BooleanArray)
    requires
        array.wf(),
        runs_ordered(as_runs(slices@), 0, array@.len() as int),
    ensures
        r.wf(),
        r@ == gather(array@, as_runs(slices@)),
{
    let ghost rs = as_runs(slices@);
    proof {
        array.lemma_view();
    }
    let n = array.len();
    let mut mutable = GrowableBoolean::new(vec![array], false, capacity);
    let ghost mut last_end: int = 0;
    let mut k: usize = 0;
    assert(rs.subrange(0, rs.len() as int) =~= rs);
    while k < slices.len()
        invariant
            rs == as_runs(slices@),
            k <= rs.len(),
            array@.len() == n,
            array.wf(),
            mutable.wf(),
            mutable.sources() == seq![array],
            mutable@ + gather(array@, rs.subrange(k as int, rs.len() as int)) == gather(array@, rs),
            runs_ordered(rs.subrange(k as int, rs.len() as int), last_end, n as int),
            mutable@.len() <= last_end <= n,
        decreases rs.len() - k,
    {
        let (start, len) = slices[k];
        let ghost rest = rs.subrange(k + 1, rs.len() as int);
        proof {
            assert(rs[k as int] == (start as int, len as int));
            assert(rs.subrange(k as int, rs.len() as int) =~= seq![(start as int, len as int)] + rest);
            lemma_runs_ordered_cons((start as int, len as int), rest, last_end, n as int);
            lemma_gather_cons(array@, (start as int, len as int), rest);
        }
        let ghost prev = mutable@;
        mutable.extend(0, start, len);
        proof {
            last_end = start + len;
        }
        k += 1;
        assert(mutable@ + gather(array@, rs.subrange(k as int, rs.len() as int)) =~= prev + gather(
            array@,
            seq![(start as int, len as int)] + rest,
        ));
    }
    assert(gather(array@, rs.subrange(k as int, rs.len() as int)) =~= Seq::<Option<bool>>::empty());
    assert(mutable@ + Seq::<Option<bool>>::empty() =~= mutable@);
    mutable.to_array()
}

/// The slots of `array` that the runs `slices` cover, run after run.
fn take_binary<O: Offset>(array: &BinaryArray<O>, slices: &Vec<(usize, usize)>, capacity: usize) -> (r:
    BinaryArray<O>)
    requires
        array.wf(),
        runs_ordered(as_runs(slices@), 0, array@.len() as int),
    ensures
        r.wf(),
        r@ == gather(array@, as_runs(slices@)),
{
    let ghost rs = as_runs(slices@);
    proof {
        array.lemma_view();
    }
    let ghost off = array.spec_offsets()@;
    proof {
        array.spec_values().lemma_view();
    }
    let n = array.len();
    let mut mutable = GrowableBinary::new(vec![array], false, capacity);
    let ghost mut last_end: int = 0;
    let mut k: usize = 0;
    assert(rs.subrange(0, rs.len() as int) =~= rs);
    while k < slices.len()
        invariant
            rs == as_runs(slices@),
            k <= rs.len(),
            array@.len() == n,
            array.wf(),
            off == array.spec_offsets()@,
            off.len() == n + 1,
            offsets_ok(off, array.spec_values()@.len() as int),
            array.spec_values()@.len() <= usize::MAX,
            0 <= last_end,
            mutable.values_len() <= off[last_end].as_int() - off[0].as_int(),
            mutable.wf(),
            mutable.sources() == seq![array],
            mutable@ + gather(array@, rs.subrange(k as int, rs.len() as int)) == gather(array@, rs),
            runs_ordered(rs.subrange(k as int, rs.len() as int), last_end, n as int),
            mutable@.len() <= last_end <= n,
        decreases rs.len() - k,
    {
        let (start, len) = slices[k];
        let ghost rest = rs.subrange(k + 1, rs.len() as int);
        proof {
            assert(rs[k as int] == (start as int, len as int));
            assert(rs.subrange(k as int, rs.len() as int) =~= seq![(start as int, len as int)] + rest);
            lemma_runs_ordered_cons((start as int, len as int), rest, last_end, n as int);
            lemma_gather_cons(array@, (start as int, len as int), rest);
                assert(off[last_end].as_int() <= off[start as int].as_int());
                assert(off[0].as_int() >= 0);
                off[start + len].lemma_bounded();
        }
        let ghost prev = mutable@;
        mutable.extend(0, start, len);
        proof {
            last_end = start + len;
        }
        k += 1;
        assert(mutable@ + gather(array@, rs.subrange(k as int, rs.len() as int)) =~= prev + gather(
            array@,
            seq![(start as int, len as int)] + rest,
        ));
    }
    assert(gather(array@, rs.subrange(k as int, rs.len() as int)) =~= Seq::<Option<Seq<u8>>>::empty());
    assert(mutable@ + Seq::<Option<Seq<u8>>>::empty() =~= mutable@);
    mutable.to_array()
}

/// The slots of `array` that the runs `slices` cover, run after run.
fn take_utf8<O: Offset>(array: &Utf8Array<O>, slices: &Vec<(usize, usize)>, capacity: usize) -> (r:
    Utf8Array<O>)
    requires
        array.wf(),
        runs_ordered(as_runs(slices@), 0, array@.len() as int),
    ensures
        r.wf(),
        r@ == gather(array@, as_runs(slices@)),
{
    let ghost rs = as_runs(slices@);
    proof {
        array.lemma_view();
    }
    let ghost off = array.spec_binary().spec_offsets()@;
    proof {
        array.spec_binary().lemma_view();
        array.spec_binary().spec_values().lemma_view();
    }
    let n = array.len();
    let mut mutable = GrowableUtf8::new(vec![array], false, capacity);
    let ghost mut last_end: int = 0;
    let mut k: usize = 0;
    assert(rs.subrange(0, rs.len() as int) =~= rs);
    while k < slices.len()
        invariant
            rs == as_runs(slices@),
            k <= rs.len(),
            array@.len() == n,
            array.wf(),
            off == array.spec_binary().spec_offsets()@,
            off.len() == n + 1,
            offsets_ok(off, array.spec_binary().spec_values()@.len() as int),
            array.spec_binary().spec_values()@.len() <= usize::MAX,
            0 <= last_end,
            mutable.values_len() <= off[last_end].as_int() - off[0].as_int(),
            mutable.wf(),
            mutable.sources() == seq![array],
            mutable@ + gather(array@, rs.subrange(k as int, rs.len() as int)) == gather(array@, rs),
            runs_ordered(rs.subrange(k as int, rs.len() as int), last_end, n as int),
            mutable@.len() <= last_end <= n,
        decreases rs.len() - k,
    {
        let (start, len) = slices[k];
        let ghost rest = rs.subrange(k + 1, rs.len() as int);
        proof {
            assert(rs[k as int] == (start as int, len as int));
            assert(rs.subrange(k as int, rs.len() as int) =~= seq![(start as int, len as int)] + rest);
            lemma_runs_ordered_cons((start as int, len as int), rest, last_end, n as int);
            lemma_gather_cons(array@, (start as int, len as int), rest);
                assert(off[last_end].as_int() <= off[start as int].as_int());
                assert(off[0].as_int() >= 0);
                off[start + len].lemma_bounded();
        }
        let ghost prev = mutable@;
        mutable.extend(0, start, len);
        proof {
            last_end = start + len;
        }
        k += 1;
        assert(mutable@ + gather(array@, rs.subrange(k as int, rs.len() as int)) =~= prev + gather(
            array@,
            seq![(start as int, len as int)] + rest,
        ));
    }
    assert(gather(array@, rs.subrange(k as int, rs.len() as int)) =~= Seq::<Option<Seq<u8>>>::empty());
    assert(mutable@ + Seq::<Option<Seq<u8>>>::empty() =~= mutable@);
    mutable.to_array()
}


/// The slots of `array` that the ordered runs `slices` cover, run after run, copied into a new
/// array of the same shape; `capacity` is the expected number of slots. Lists copy the items
/// of their child that they span.
#[verifier::rlimit(40)]
pub fn take_runs(array: &Array, slices: &Vec<(usize, usize)>, capacity: usize) -> (r: Array)
    requires
        array.wf(),
        runs_ordered(as_runs(slices@), 0, array.view().len() as int),
    ensures
        r.wf(),
        r.view() == gather(array.view(), as_runs(slices@)),
        r.data_type_spec() == array.data_type_spec(),
    decreases array.depth(), 1nat,
{
    proof {
        array.lemma_leaf();
    }
    match array {
        Array::Int8(a) => {
            let r = Array::Int8(take_primitive(a, slices, capacity));
            proof {
                r.lemma_leaf();
                lemma_gather_ints(a@, as_runs(slices@));
            }
            r
        },
        Array::Int16(a) => {
            let r = Array::Int16(take_primitive(a, slices, capacity));
            proof {
                r.lemma_leaf();
                lemma_gather_ints(a@, as_runs(slices@));
            }
            r
        },
        Array::Int32(a) => {
            let r = Array::Int32(take_primitive(a, slices, capacity));
            proof {
                r.lemma_leaf();
                lemma_gather_ints(a@, as_runs(slices@));
            }
            r
        },
        Array::Int64(a) => {
            let r = Array::Int64(take_primitive(a, slices, capacity));
            proof {
                r.lemma_leaf();
                lemma_gather_ints(a@, as_runs(slices@));
            }
            r
        },
        Array::UInt8(a) => {
            let r = Array::UInt8(take_primitive(a, slices, capacity));
            proof {
                r.lemma_leaf();
                lemma_gather_ints(a@, as_runs(slices@));
            }
            r
        },
        Array::UInt16(a) => {
            let r = Array::UInt16(take_primitive(a, slices, capacity));
            proof {
                r.lemma_leaf();
                lemma_gather_ints(a@, as_runs(slices@));
            }
            r
        },
        Array::UInt32(a) => {
            let r = Array::UInt32(take_primitive(a, slices, capacity));
            proof {
                r.lemma_leaf();
                lemma_gather_ints(a@, as_runs(slices@));
            }
            r
        },
        Array::UInt64(a) => {
            let r = Array::UInt64(take_primitive(a, slices, capacity));
            proof {
                r.lemma_leaf();
                lemma_gather_ints(a@, as_runs(slices@));
            }
            r
        },
        Array::Boolean(a) => {
            let r = Array::Boolean(take_boolean(a, slices, capacity));
            proof {
                r.lemma_leaf();
                lemma_gather_bools(a@, as_runs(slices@));
            }
            r
        },
        Array::Binary(a) => {
            let r = Array::Binary(take_binary(a, slices, capacity));
            proof {
                r.lemma_leaf();
                lemma_gather_bytes(a@, as_runs(slices@));
            }
            r
        },
        Array::LargeBinary(a) => {
            let r = Array::LargeBinary(take_binary(a, slices, capacity));
            proof {
                r.lemma_leaf();
                lemma_gather_bytes(a@, as_runs(slices@));
            }
            r
        },
        Array::Utf8(a) => {
            let r = Array::Utf8(take_utf8(a, slices, capacity));
            proof {
                r.lemma_leaf();
                lemma_gather_bytes(a@, as_runs(slices@));
            }
            r
        },
        Array::LargeUtf8(a) => {
            let r = Array::LargeUtf8(take_utf8(a, slices, capacity));
            proof {
                r.lemma_leaf();
                lemma_gather_bytes(a@, as_runs(slices@));
            }
            r
        },
        Array::List(l) => {
            let r = Array::List(take_list_runs(l, slices, Ghost(array.depth())));
            proof {
                r.lemma_leaf();
            }
            r
        },
        Array::LargeList(l) => {
            let r = Array::LargeList(take_list_runs(l, slices, Ghost(array.depth())));
            proof {
                r.lemma_leaf();
            }
            r
        },
        Array::FixedSizeList(l) => {
            let r = Array::FixedSizeList(take_fixed_runs(l, slices, Ghost(array.depth())));
            proof {
                r.lemma_leaf();
            }
            r
        },
    }
}

proof fn lemma_gather_ints<T: NativeType>(s: Seq<Option<T>>, rs: Seq<(int, int)>)
    requires
        runs_ordered(rs, 0, s.len() as int),
    ensures
        gather(ints(s), rs) == ints(gather(s, rs)),
{
    let f = |x: Option<T>|
        match x {
            Some(v) => Some(Scalar::Int(v.as_int())),
            None => None,
        };
    assert(ints(s) =~= s.map_values(f));
    lemma_gather_map(s, f, rs);
    assert(ints(gather(s, rs)) =~= gather(s, rs).map_values(f));
}

proof fn lemma_gather_bools(s: Seq<Option<bool>>, rs: Seq<(int, int)>)
    requires
        runs_ordered(rs, 0, s.len() as int),
    ensures
        gather(bools(s), rs) == bools(gather(s, rs)),
{
    let f = |x: Option<bool>|
        match x {
            Some(v) => Some(Scalar::Bool(v)),
            None => None,
        };
    assert(bools(s) =~= s.map_values(f));
    lemma_gather_map(s, f, rs);
    assert(bools(gather(s, rs)) =~= gather(s, rs).map_values(f));
}

proof fn lemma_gather_bytes(s: Seq<Option<Seq<u8>>>, rs: Seq<(int, int)>)
    requires
        runs_ordered(rs, 0, s.len() as int),
    ensures
        gather(byte_strings(s), rs) == byte_strings(gather(s, rs)),
{
    let f = |x: Option<Seq<u8>>|
        match x {
            Some(v) => Some(Scalar::Bytes(v)),
            None => None,
        };
    assert(byte_strings(s) =~= s.map_values(f));
    lemma_gather_map(s, f, rs);
    assert(byte_strings(gather(s, rs)) =~= gather(s, rs).map_values(f));
}

/// The validity built for a copy of an array of validity `source`: `bits` when it has one.
spec fn own_validity(source: Option<Seq<bool>>, bits: Seq<bool>) -> Option<Seq<bool>> {
    if source is Some {
        Some(bits)
    } else {
        None
    }
}

/// The entries `start..=start + len` of an offsets index are one too.
proof fn lemma_run_of_offsets<O: Offset>(off: Seq<O>, n_values: int, run: Seq<O>, start: int, len: int)
    requires
        offsets_ok(off, n_values),
        0 <= start,
        0 <= len,
        start + len < off.len(),
        n_values <= usize::MAX,
        run == off.subrange(start, start + len + 1),
    ensures
        offsets_ok(run, run.last().as_int()),
        run.last().as_int() <= usize::MAX,
        run[0] == off[start],
        run.last() == off[start + len],
{
    assert forall|i: int, j: int|
        0 <= i <= j < run.len() implies #[trigger] run[i].as_int() <= #[trigger] run[j].as_int() by {
        assert(run[i] == off[start + i]);
        assert(run[j] == off[start + j]);
    }
    assert forall|i: int| 0 <= i < run.len() implies 0 <= #[trigger] run[i].as_int()
        <= run.last().as_int() by {
        assert(run[i] == off[start + i]);
    }
}

/// Ordered runs within `0..hi` stay ordered with one more run from `hi` on.
proof fn lemma_ordered_push(rs: Seq<(int, int)>, hi: int, r: (int, int))
    requires
        0 <= hi,
        runs_ordered(rs, 0, hi),
        hi <= r.0,
        0 <= r.1,
    ensures
        runs_ordered(rs.push(r), 0, r.0 + r.1),
{
    let all = rs.push(r);
    assert forall|q: int| 0 <= q < all.len() implies 0 <= #[trigger] all[q].0 && all[q].1 >= 0
        && all[q].0 + all[q].1 <= r.0 + r.1 by {
        if q < rs.len() {
            assert(all[q] == rs[q]);
        }
    }
    assert forall|q: int| 0 <= q < all.len() - 1 implies #[trigger] all[q].0 + all[q].1 <= all[q
        + 1].0 by {
        assert(all[q] == rs[q]);
        if q + 1 < rs.len() {
            assert(all[q + 1] == rs[q + 1]);
        }
    }
}

/// Appending the lists of the slots `start..start + len` of a list array of offsets `off`,
/// validity `vv` and child slots `cv` to one of offsets `o0`, validity `v0` and child slots
/// `g0`, with offsets rebased to follow, gives the lists of both in order.
proof fn lemma_list_run<O: Offset>(
    o0: Seq<O>,
    v0: Option<Seq<bool>>,
    g0: Seq<Option<Scalar>>,
    o1: Seq<O>,
    v1: Option<Seq<bool>>,
    g1: Seq<Option<Scalar>>,
    off: Seq<O>,
    vv: Option<Seq<bool>>,
    cv: Seq<Option<Scalar>>,
    start: int,
    len: int,
)
    requires
        offsets_ok(o0, g0.len() as int),
        o0.last().as_int() == g0.len(),
        offsets_ok(off, cv.len() as int),
        0 <= start,
        0 <= len,
        start + len < off.len(),
        o1.len() == o0.len() + len,
        forall|m: int| 0 <= m < o0.len() ==> #[trigger] o1[m] == o0[m],
        forall|j: int|
            0 <= j < len ==> (#[trigger] o1[o0.len() + j]).as_int() == g0.len() + off[start + j
                + 1].as_int() - off[start].as_int(),
        g1 == g0 + cv.subrange(off[start].as_int(), off[start + len].as_int()),
        v0 is Some <==> vv is Some,
        v1 is Some <==> vv is Some,
        v0 matches Some(b) ==> b.len() == o0.len() - 1,
        vv matches Some(b) ==> b.len() == off.len() - 1,
        v1 matches Some(b) ==> b == v0->0 + vv->0.subrange(start, start + len),
    ensures
        offsets_ok(o1, g1.len() as int),
        o1.last().as_int() == g1.len(),
        list_slots(o1, v1, g1) == list_slots(o0, v0, g0) + list_slots(off, vv, cv).subrange(
            start,
            start + len,
        ),
{
    let n0 = o0.len() as int;
    let a = off[start].as_int();
    let b = off[start + len].as_int();
    assert(a <= b);
    assert forall|j: int| 0 <= j <= len implies #[trigger] o1[n0 - 1 + j].as_int() == g0.len()
        + off[start + j].as_int() - a by {
        if j > 0 {
            assert(o1[n0 + (j - 1)].as_int() == g0.len() + off[start + (j - 1) + 1].as_int() - a);
            assert(n0 + (j - 1) == n0 - 1 + j);
        }
    }
    assert forall|i: int| 0 <= i < o1.len() implies 0 <= #[trigger] o1[i].as_int() <= g1.len() by {
        if i >= n0 {
            assert(o1[n0 - 1 + (i - n0 + 1)].as_int() == g0.len() + off[start + (i - n0
                + 1)].as_int() - a);
        }
    }
    assert forall|i: int, j: int|
        0 <= i <= j < o1.len() implies #[trigger] o1[i].as_int() <= #[trigger] o1[j].as_int() by {
        if j >= n0 {
            assert(o1[n0 - 1 + (j - n0 + 1)].as_int() == g0.len() + off[start + (j - n0
                + 1)].as_int() - a);
            assert(a <= off[start + (j - n0 + 1)].as_int());
            if i >= n0 {
                assert(o1[n0 - 1 + (i - n0 + 1)].as_int() == g0.len() + off[start + (i - n0
                    + 1)].as_int() - a);
                assert(off[start + (i - n0 + 1)].as_int() <= off[start + (j - n0 + 1)].as_int());
            } else {
                assert(o0[i].as_int() <= o0[n0 - 1].as_int());
            }
        }
    }
    assert(o1.last() == o1[n0 - 1 + len]);
    let before = list_slots(o0, v0, g0);
    let added = list_slots(off, vv, cv).subrange(start, start + len);
    assert forall|m: int| 0 <= m < n0 - 1 implies #[trigger] list_slots(o1, v1, g1)[m]
        == before[m] by {
        assert(o0[m].as_int() <= o0[m + 1].as_int());
        assert(o0[m + 1].as_int() <= g0.len());
        assert(g1.subrange(o0[m].as_int(), o0[m + 1].as_int()) =~= g0.subrange(
            o0[m].as_int(),
            o0[m + 1].as_int(),
        ));
        if v1 is Some {
            assert(v1->0[m] == v0->0[m]);
        }
    }
    assert forall|m: int| n0 - 1 <= m < n0 - 1 + len implies #[trigger] list_slots(o1, v1, g1)[m]
        == added[m - (n0 - 1)] by {
        let j = m - (n0 - 1);
        assert(m == n0 - 1 + j);
        let lo = off[start + j].as_int();
        let hi = off[start + j + 1].as_int();
        assert(o1[n0 - 1 + j].as_int() == g0.len() + lo - a);
        assert(o1[n0 - 1 + (j + 1)].as_int() == g0.len() + hi - a);
        assert(a <= lo <= hi <= b);
        assert(g1.subrange(g0.len() + lo - a, g0.len() + hi - a) =~= cv.subrange(lo, hi));
        if v1 is Some {
            assert(v1->0[m] == vv->0[start + j]);
        }
    }
    assert(list_slots(o1, v1, g1) =~= before + added);
}

fn has_validity(validity: &Option<Bitmap>) -> (r: bool)
    ensures
        r == validity is Some,
{
    validity.is_some()
}

/// The lists that the ordered runs `slices` cover, run after run, in a new list array: the
/// offsets are rebased to follow one another and the child keeps the items they span.
fn take_list_runs<O: Offset>(l: &ListArray<O>, slices: &Vec<(usize, usize)>, depth: Ghost<nat>) -> (r:
    ListArray<O>)
    requires
        l.wf(),
        depth@ == l.spec_values().depth() + 1,
        runs_ordered(as_runs(slices@), 0, l.slots().len() as int),
    ensures
        r.wf(),
        r.slots() == gather(l.slots(), as_runs(slices@)),
        r.spec_values().data_type_spec() == l.spec_values().data_type_spec(),
    decreases depth@, 0nat,
{
    let ghost rs = as_runs(slices@);
    proof {
        l.lemma_parts();
        l.lemma_slots();
    }
    let ghost off = l.spec_offsets();
    let ghost cv = l.spec_values().view();
    let ghost vv = validity_view(l.spec_validity());
    let ghost slots = l.slots();
    let offsets_buffer = l.offsets();
    proof {
        offsets_buffer.lemma_view();
        O::lemma_max_offset();
    }
    let values = l.values();
    let child_len = values.len();
    let n = offsets_buffer.len() - 1;
    let source = offsets_buffer.as_slice();
    let source_validity = l.validity();
    let zero = O::from_usize(0).unwrap();
    let mut offsets: Vec<O> = Vec::new();
    offsets.push(zero);
    let mut last = zero;
    let mut validity = MutableBitmap::new();
    let mut child_runs: Vec<(usize, usize)> = Vec::new();
    let ghost mut last_end: int = 0;
    let ghost mut g: Seq<Option<Scalar>> = Seq::empty();
    let mut k: usize = 0;
    proof {
        assert(as_runs(child_runs@) =~= Seq::<(int, int)>::empty());
        assert(list_slots(offsets@, own_validity(vv, validity@), g) =~= gather(
            slots,
            rs.subrange(0, 0),
        ));
    }
    while k < slices.len()
        invariant
            rs == as_runs(slices@),
            k <= rs.len(),
            vv == validity_view(source_validity),
            source_validity matches Some(b) ==> b.wf() && b@.len() == n,
            vv matches Some(b) ==> b.len() == n,
            source@ == off,
            off.len() == n + 1,
            off.len() <= usize::MAX,
            slots == list_slots(off, vv, cv),
            cv.len() == child_len,
            offsets_ok(off, cv.len() as int),
            0 <= last_end <= n,
            offsets@.len() - 1 <= last_end,
            runs_ordered(rs.subrange(k as int, rs.len() as int), last_end, n as int),
            runs_ordered(as_runs(child_runs@), 0, off[last_end].as_int()),
            g == gather(cv, as_runs(child_runs@)),
            offsets_ok(offsets@, g.len() as int),
            offsets@.last().as_int() == g.len(),
            last.as_int() == g.len(),
            g.len() <= off[last_end].as_int() - off[0].as_int(),
            validity.wf(),
            validity@.len() == if vv is Some {
                offsets@.len() - 1
            } else {
                0
            },
            list_slots(offsets@, own_validity(vv, validity@), g) == gather(
                slots,
                rs.subrange(0, k as int),
            ),
        decreases rs.len() - k,
    {
        let (start, len) = slices[k];
        let ghost rest = rs.subrange(k + 1, rs.len() as int);
        let ghost o0 = offsets@;
        let ghost v0 = validity@;
        let ghost cr0 = as_runs(child_runs@);
        let ghost g0 = g;
        proof {
            assert(rs[k as int] == (start as int, len as int));
            assert(rs.subrange(k as int, rs.len() as int) =~= seq![(start as int, len as int)]
                + rest);
            lemma_runs_ordered_cons((start as int, len as int), rest, last_end, n as int);
            off[start + len].lemma_bounded();
            assert(off[last_end].as_int() <= off[start as int].as_int());
        }
        extend_validity(&mut validity, &source_validity, start, len, false);
        let run = vstd::slice::slice_subrange(source, start, start + len + 1);
        proof {
            lemma_run_of_offsets(off, cv.len() as int, run@, start as int, len as int);
        }
        extend_offsets(&mut offsets, &mut last, run);
        let a = source[start].to_usize().unwrap();
        let b = source[start + len].to_usize().unwrap();
        child_runs.push((a, b - a));
        proof {
            assert(as_runs(child_runs@) =~= cr0.push((a as int, (b - a) as int)));
            lemma_gather_push(cv, cr0, (a as int, (b - a) as int));
            lemma_ordered_push(cr0, off[last_end].as_int(), (a as int, (b - a) as int));
            assert forall|m: int| 0 <= m < o0.len() implies #[trigger] offsets@[m] == o0[m] by {
                assert(offsets@.subrange(0, o0.len() as int)[m] == o0[m]);
            }
            assert forall|j: int| 0 <= j < len implies (#[trigger] offsets@[o0.len() + j]).as_int()
                == g0.len() + off[start + j + 1].as_int() - off[start as int].as_int() by {
                assert(run@[j + 1] == off[start + j + 1]);
            }
            lemma_list_run(
                o0,
                own_validity(vv, v0),
                g0,
                offsets@,
                own_validity(vv, validity@),
                g0 + cv.subrange(a as int, b as int),
                off,
                vv,
                cv,
                start as int,
                len as int,
            );
            assert(rs.subrange(0, k + 1) =~= rs.subrange(0, k as int).push(
                (start as int, len as int),
            ));
            lemma_gather_push(slots, rs.subrange(0, k as int), (start as int, len as int));
            last_end = start + len;
            g = g0 + cv.subrange(a as int, b as int);
        }
        k += 1;
    }
    proof {
        assert(rs.subrange(0, k as int) =~= rs);
        let cr = as_runs(child_runs@);
        assert forall|q: int| 0 <= q < cr.len() implies 0 <= #[trigger] cr[q].0 && cr[q].1 >= 0
            && cr[q].0 + cr[q].1 <= cv.len() by {}
    }
    let capacity = last.to_usize().unwrap();
    let child = take_runs(&*values, &child_runs, capacity);
    let validity = if has_validity(&source_validity) {
        Some(validity.into_bitmap())
    } else {
        None
    };
    ListArray::from_data(Buffer::from_vec(offsets), Arc::new(child), validity)
}


/// Appending the lists of the slots `start..start + len` of a list array of lists of `size`
/// items from list `offset` on, with validity `vv` and child slots `cv`, to one of `m0` lists
/// of validity `v0` and child slots `g0`, gives the lists of both in order.
proof fn lemma_fixed_run(
    size: nat,
    m0: nat,
    v0: Option<Seq<bool>>,
    g0: Seq<Option<Scalar>>,
    v1: Option<Seq<bool>>,
    g1: Seq<Option<Scalar>>,
    offset: nat,
    n: nat,
    vv: Option<Seq<bool>>,
    cv: Seq<Option<Scalar>>,
    start: int,
    len: int,
)
    requires
        size > 0,
        g0.len() == m0 * size,
        0 <= start,
        0 <= len,
        start + len <= n,
        (offset + n) * size <= cv.len(),
        g1 == g0 + cv.subrange((offset + start) * size, (offset + start + len) * size),
        v0 is Some <==> vv is Some,
        v1 is Some <==> vv is Some,
        v0 matches Some(b) ==> b.len() == m0,
        vv matches Some(b) ==> b.len() == n,
        v1 matches Some(b) ==> b == v0->0 + vv->0.subrange(start, start + len),
    ensures
        g1.len() == (m0 + len) * size,
        fixed_slots(size, 0, (m0 + len) as nat, v1, g1) == fixed_slots(size, 0, m0, v0, g0)
            + fixed_slots(size, offset, n, vv, cv).subrange(start, start + len),
{
    let a = (offset + start) * size;
    lemma_fixed_bounds(offset as int, start, len, start, n as int, size as int, cv.len() as int);
    assert(g1.len() == (m0 + len) * size) by (nonlinear_arith)
        requires
            g1.len() == m0 * size + len * size,
    ;
    let before = fixed_slots(size, 0, m0, v0, g0);
    let added = fixed_slots(size, offset, n, vv, cv).subrange(start, start + len);
    assert forall|m: int| 0 <= m < m0 implies #[trigger] fixed_slots(
        size,
        0,
        (m0 + len) as nat,
        v1,
        g1,
    )[m] == before[m] by {
        assert((m + 1) * size <= m0 * size) by (nonlinear_arith)
            requires
                m + 1 <= m0,
        ;
        assert(0 <= m * size) by (nonlinear_arith)
            requires
                0 <= m,
        ;
        assert((m + 1) * size == m * size + size) by (nonlinear_arith);
        assert(g1.subrange(m * size, (m + 1) * size) =~= g0.subrange(m * size, (m + 1) * size));
        if v1 is Some {
            assert(v1->0[m] == v0->0[m]);
        }
    }
    assert forall|m: int| m0 <= m < m0 + len implies #[trigger] fixed_slots(
        size,
        0,
        (m0 + len) as nat,
        v1,
        g1,
    )[m] == added[m - m0] by {
        let j = m - m0;
        assert(m * size == m0 * size + j * size) by (nonlinear_arith)
            requires
                m == m0 + j,
        ;
        assert((m + 1) * size == m0 * size + j * size + size) by (nonlinear_arith)
            requires
                m == m0 + j,
        ;
        assert((offset + (start + j)) * size == a + j * size) by (nonlinear_arith)
            requires
                a == (offset + start) * size,
        ;
        assert((offset + (start + j) + 1) * size == a + j * size + size) by (nonlinear_arith)
            requires
                a == (offset + start) * size,
        ;
        assert(j * size + size <= len * size) by (nonlinear_arith)
            requires
                j + 1 <= len,
        ;
        assert(0 <= j * size) by (nonlinear_arith)
            requires
                0 <= j,
        ;
        assert(g1.subrange(m * size, (m + 1) * size) =~= cv.subrange(
            a + j * size,
            a + j * size + size,
        ));
        if v1 is Some {
            assert(v1->0[m] == vv->0[start + j]);
        }
    }
    assert(fixed_slots(size, 0, (m0 + len) as nat, v1, g1) =~= before + added);
}

/// The child items of the lists `start..start + len` lie within the child, after those of
/// the lists before `last_end`.
proof fn lemma_fixed_bounds(
    offset: int,
    start: int,
    len: int,
    last_end: int,
    n: int,
    size: int,
    child_len: int,
)
    requires
        0 <= offset,
        0 <= last_end <= start,
        0 <= len,
        start + len <= n,
        size > 0,
        (offset + n) * size <= child_len,
    ensures
        0 <= (offset + last_end) * size <= (offset + start) * size,
        (offset + start) * size + len * size == (offset + start + len) * size,
        (offset + start + len) * size <= child_len,
        (offset + start) * size <= child_len,
        offset + start <= child_len,
        0 <= len * size,
{
    assert(offset + start <= (offset + start) * size) by (nonlinear_arith)
        requires
            0 <= offset,
            0 <= start,
            size > 0,
    ;
    assert(0 <= (offset + last_end) * size <= (offset + start) * size) by (nonlinear_arith)
        requires
            0 <= offset,
            0 <= last_end <= start,
            size > 0,
    ;
    assert((offset + start) * size + len * size == (offset + start + len) * size)
        by (nonlinear_arith);
    assert((offset + start + len) * size <= (offset + n) * size) by (nonlinear_arith)
        requires
            start + len <= n,
            size > 0,
    ;
    assert(0 <= len * size) by (nonlinear_arith)
        requires
            0 <= len,
            size > 0,
    ;
}

/// The lists that the ordered runs `slices` cover, run after run, in a new array whose child
/// keeps the items they span.
#[verifier::rlimit(100)]
fn take_fixed_runs(l: &FixedSizeListArray, slices: &Vec<(usize, usize)>, depth: Ghost<nat>) -> (r:
    FixedSizeListArray)
    requires
        l.wf(),
        depth@ == l.spec_values().depth() + 1,
        runs_ordered(as_runs(slices@), 0, l.slots().len() as int),
    ensures
        r.wf(),
        r.slots() == gather(l.slots(), as_runs(slices@)),
        r.spec_values().data_type_spec() == l.spec_values().data_type_spec(),
        r.spec_size() == l.spec_size(),
    decreases depth@, 0nat,
{
    let ghost rs = as_runs(slices@);
    proof {
        l.lemma_parts();
        l.lemma_slots();
    }
    let ghost cv = l.spec_values().view();
    let ghost vv = validity_view(l.spec_validity());
    let ghost slots = l.slots();
    let size = l.size();
    let offset = l.offset();
    let n = l.len();
    let values = l.values();
    let child_len = values.len();
    let source_validity = l.validity();
    let mut validity = MutableBitmap::new();
    let mut child_runs: Vec<(usize, usize)> = Vec::new();
    let mut length: usize = 0;
    let ghost mut last_end: int = 0;
    let ghost mut g: Seq<Option<Scalar>> = Seq::empty();
    let mut k: usize = 0;
    proof {
        assert(as_runs(child_runs@) =~= Seq::<(int, int)>::empty());
        assert(fixed_slots(size as nat, 0, 0, own_validity(vv, validity@), g) =~= gather(
            slots,
            rs.subrange(0, 0),
        ));
    }
    while k < slices.len()
        invariant
            rs == as_runs(slices@),
            k <= rs.len(),
            vv == validity_view(source_validity),
            source_validity matches Some(b) ==> b.wf() && b@.len() == n,
            vv matches Some(b) ==> b.len() == n,
            slots == fixed_slots(size as nat, offset as nat, n as nat, vv, cv),
            cv.len() == child_len,
            size > 0,
            (offset + n) * size <= child_len,
            0 <= last_end <= n,
            length <= last_end,
            runs_ordered(rs.subrange(k as int, rs.len() as int), last_end, n as int),
            runs_ordered(as_runs(child_runs@), 0, (offset + last_end) * size),
            g == gather(cv, as_runs(child_runs@)),
            g.len() == length * size,
            validity.wf(),
            validity@.len() == if vv is Some {
                length as int
            } else {
                0
            },
            fixed_slots(size as nat, 0, length as nat, own_validity(vv, validity@), g) == gather(
                slots,
                rs.subrange(0, k as int),
            ),
        decreases rs.len() - k,
    {
        let (start, len) = slices[k];
        let ghost rest = rs.subrange(k + 1, rs.len() as int);
        let ghost v0 = validity@;
        let ghost cr0 = as_runs(child_runs@);
        let ghost g0 = g;
        let ghost m0 = length as nat;
        proof {
            assert(rs[k as int] == (start as int, len as int));
            assert(rs.subrange(k as int, rs.len() as int) =~= seq![(start as int, len as int)]
                + rest);
            lemma_runs_ordered_cons((start as int, len as int), rest, last_end, n as int);
            lemma_fixed_bounds(
                offset as int,
                start as int,
                len as int,
                last_end,
                n as int,
                size as int,
                child_len as int,
            );
        }
        extend_validity(&mut validity, &source_validity, start, len, false);
        let a = (offset + start) * size;
        child_runs.push((a, len * size));
        length = length + len;
        proof {
            assert(as_runs(child_runs@) =~= cr0.push((a as int, (len * size) as int)));
            lemma_gather_push(cv, cr0, (a as int, (len * size) as int));
            lemma_ordered_push(cr0, (offset + last_end) * size, (a as int, (len * size) as int));
            lemma_fixed_run(
                size as nat,
                m0,
                own_validity(vv, v0),
                g0,
                own_validity(vv, validity@),
                g0 + cv.subrange(a as int, a + len * size),
                offset as nat,
                n as nat,
                vv,
                cv,
                start as int,
                len as int,
            );
            assert(rs.subrange(0, k + 1) =~= rs.subrange(0, k as int).push(
                (start as int, len as int),
            ));
            lemma_gather_push(slots, rs.subrange(0, k as int), (start as int, len as int));
            last_end = start + len;
            g = g0 + cv.subrange(a as int, a + len * size);
        }
        k += 1;
    }
    proof {
        assert(rs.subrange(0, k as int) =~= rs);
        let cr = as_runs(child_runs@);
        lemma_fixed_bounds(offset as int, last_end, 0, last_end, n as int, size as int, child_len as int);
        assert forall|q: int| 0 <= q < cr.len() implies 0 <= #[trigger] cr[q].0 && cr[q].1 >= 0
            && cr[q].0 + cr[q].1 <= cv.len() by {}
        assert(length * size <= (offset + n) * size) by (nonlinear_arith)
            requires
                length <= n,
                size > 0,
        ;
    }
    let child = take_runs(&*values, &child_runs, length * size);
    let validity = if has_validity(&source_validity) {
        Some(validity.into_bitmap())
    } else {
        None
    };
    FixedSizeListArray::from_data(size, length, Arc::new(child), validity)
}

} // verus!
