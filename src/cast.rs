use vstd::prelude::*;
use vstd::utf8::{pop_first_scalar, valid_first_scalar, valid_utf8};

use crate::binary::{offsets_ok, spans, BinaryArray};
use crate::boolean::BooleanArray;
use crate::buffer::Buffer;
use crate::primitive::PrimitiveArray;
use crate::array::{masked, validity_view};
use crate::types::{NativeType, Offset};
use crate::utf8::Utf8Array;

verus! {

/// The UTF-8 bytes of the text of a boolean: `1` or `0`.
pub open spec fn digit_of(b: bool) -> Seq<u8> {
    if b {
        seq![0x31u8]
    } else {
        seq![0x30u8]
    }
}

/// A single byte below 0x80 is well-formed UTF-8.
proof fn lemma_ascii_byte_valid(b: u8)
    requires
        b <= 0x7f,
    ensures
        valid_utf8(seq![b]),
{
    let s = seq![b];
    assert(b & 0x7fu8 <= 0x7fu8) by (bit_vector);
    assert(valid_first_scalar(s));
    assert(pop_first_scalar(s) =~= Seq::<u8>::empty());
    assert(valid_utf8(Seq::<u8>::empty()));
    assert(valid_utf8(pop_first_scalar(s)));
}

/// Casts the values of `from` to the strings `1` and `0`; the validity of `from` is not read.
pub fn boolean_to_utf8<O: Offset>(from: &BooleanArray) -> (r: Utf8Array<O>)
    requires
        from.wf(),
        from@.len() <= O::max_offset(),
    ensures
        r.wf(),
        r@ == Seq::new(from@.len(), |i: int| Some(digit_of(from.spec_values()@[i]))),
{
    proof {
        from.lemma_view();
        lemma_ascii_byte_valid(0x31u8);
        lemma_ascii_byte_valid(0x30u8);
    }
    let values = from.values();
    let n = values.len();
    let mut offsets: Vec<O> = Vec::with_capacity(n);
    let mut bytes: Vec<u8> = Vec::with_capacity(n);
    offsets.push(O::from_usize(0).unwrap());
    let mut i: usize = 0;
    while i < n
        invariant
            n == values@.len(),
            *values == from.spec_values(),
            values.wf(),
            n <= O::max_offset(),
            i <= n,
            offsets@.len() == i + 1,
            bytes@.len() == i,
            forall|k: int| 0 <= k <= i ==> (#[trigger] offsets@[k]).as_int() == k,
            forall|k: int| 0 <= k < i ==> #[trigger] bytes@[k] == digit_of(values@[k])[0],
        decreases n - i,
    {
        if values.get_bit(i) {
            bytes.push(0x31u8);
        } else {
            bytes.push(0x30u8);
        }
        i += 1;
        offsets.push(O::from_usize(i).unwrap());
    }
    let ghost digits = Seq::new(n as nat, |k: int| digit_of(values@[k]));
    proof {
        assert forall|a: int, b: int|
            0 <= a <= b < offsets@.len() implies #[trigger] offsets@[a].as_int()
            <= #[trigger] offsets@[b].as_int() by {}
        assert forall|k: int| 0 <= k < n implies #[trigger] spans(offsets@, bytes@)[k] == digits[k] by {
            assert(bytes@.subrange(k, k + 1) =~= seq![bytes@[k]]);
        }
        assert(spans(offsets@, bytes@) =~= digits);
    }
    let array = BinaryArray::from_data(Buffer::from_vec(offsets), Buffer::from_vec(bytes), None);
    proof {
        array.lemma_view();
        assert forall|k: int| 0 <= k < array.spec_spans().len() implies valid_utf8(
            #[trigger] array.spec_spans()[k],
        ) by {
            assert(array.spec_spans()[k] == digit_of(values@[k]));
        }
    }
    let r = Utf8Array::from_binary(array);
    assert(r@ =~= Seq::new(from@.len(), |i: int| Some(digit_of(from.spec_values()@[i]))));
    r
}


/// Casts the values of `from` to one and zero of `T`, keeping its validity.
pub fn boolean_to_primitive<T: NativeType>(from: &BooleanArray) -> (r: PrimitiveArray<T>)
    requires
        from.wf(),
    ensures
        r.wf(),
        r@.len() == from@.len(),
        forall|i: int|
            0 <= i < from@.len() ==> match (#[trigger] from@[i], r@[i]) {
                (Some(b), Some(v)) => v.as_int() == if b {
                    1int
                } else {
                    0int
                },
                (None, None) => true,
                _ => false,
            },
{
    proof {
        from.lemma_view();
    }
    let values = from.values();
    let n = values.len();
    let mut out: Vec<T> = Vec::with_capacity(n);
    let mut i: usize = 0;
    while i < n
        invariant
            n == values@.len(),
            *values == from.spec_values(),
            values.wf(),
            i <= n,
            out@.len() == i,
            forall|k: int|
                0 <= k < i ==> (#[trigger] out@[k]).as_int() == if values@[k] {
                    1int
                } else {
                    0int
                },
        decreases n - i,
    {
        if values.get_bit(i) {
            out.push(T::one());
        } else {
            out.push(T::zero());
        }
        i += 1;
    }
    let r = PrimitiveArray::from_data(Buffer::from_vec(out), from.validity());
    proof {
        r.lemma_view();
    }
    r
}

} // verus!
