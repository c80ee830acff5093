use vstd::prelude::*;
use vstd::utf8::{decode_utf8, encode_utf8, encode_utf8_valid_utf8, valid_utf8};

use crate::binary::{offsets_ok, spans, total_len, views_of, BinaryArray};
use crate::bitmap::{count_unset, Bitmap};
use crate::buffer::Buffer;
use crate::error::{ArrowError, Result};
use crate::primitive::validity_of;
use crate::types::Offset;
use crate::array::{masked, validity_view, validity_wf};

verus! {

broadcast use encode_utf8_valid_utf8;

/// Relies on `std::str::from_utf8`: it accepts exactly the well-formed UTF-8 byte strings,
/// and the string it returns holds the characters those bytes encode.
#[verifier::external_body]
fn str_from_utf8(bytes: &[u8]) -> (r: Option<&str>)
    ensures
        r is Some <==> valid_utf8(bytes@),
        r matches Some(s) ==> s@ == decode_utf8(bytes@),
{
    std::str::from_utf8(bytes).ok()
}

/// The UTF-8 encodings of `items`.
pub open spec fn encodings_of(items: Seq<Option<&str>>) -> Seq<Option<Seq<u8>>> {
    Seq::new(
        items.len(),
        |i: int|
            match items[i] {
                Some(s) => Some(encode_utf8(s@)),
                None => None,
            },
    )
}

/// Every byte string of `s` is well-formed UTF-8.
pub open spec fn all_utf8(s: Seq<Seq<u8>>) -> bool {
    forall|i: int| 0 <= i < s.len() ==> valid_utf8(#[trigger] s[i])
}

/// An array of strings delimited by an offsets index of type `O`, each slot possibly null.
/// The view holds the UTF-8 bytes of each string.
pub struct Utf8Array<O> {
    inner: BinaryArray<O>,
}

impl<O: Offset> View for Utf8Array<O> {
    type V = Seq<Option<Seq<u8>>>;

    closed spec fn view(&self) -> Seq<Option<Seq<u8>>> {
        self.inner@
    }
}

impl<O: Offset> Utf8Array<O> {
    pub closed spec fn wf(&self) -> bool {
        &&& self.inner.wf()
        &&& all_utf8(self.inner.spec_spans())
    }

    /// The same slots, as byte strings.
    pub closed spec fn spec_binary(&self) -> BinaryArray<O> {
        self.inner
    }

    pub proof fn lemma_view(&self)
        requires
            self.wf(),
        ensures
            self@ == self.spec_binary()@,
            self.spec_binary().wf(),
            all_utf8(self.spec_binary().spec_spans()),
    {
    }

    /// The array of the byte strings of `array`, each of which must be well-formed UTF-8.
    pub fn from_binary(array: BinaryArray<O>) -> (r: Self)
        requires
            array.wf(),
            all_utf8(array.spec_spans()),
        ensures
            r.wf(),
            r@ == array@,
            r.spec_binary() == array,
    {
        Utf8Array { inner: array }
    }

    /// The array of the byte strings of `array`; an error when one is not well-formed UTF-8.
    pub fn try_from_binary(array: BinaryArray<O>) -> (r: Result<Self>)
        requires
            array.wf(),
        ensures
            r is Ok <==> all_utf8(array.spec_spans()),
            r matches Ok(a) ==> a.wf() && a@ == array@,
    {
        proof {
            array.lemma_view();
        }
        let n = array.len();
        let mut i: usize = 0;
        while i < n
            invariant
                array.wf(),
                n == array.spec_spans().len(),
                n == array@.len(),
                i <= n,
                forall|k: int| 0 <= k < i ==> valid_utf8(#[trigger] array.spec_spans()[k]),
            decreases n - i,
        {
            if str_from_utf8(array.value(i)).is_none() {
                return Err(
                    ArrowError::InvalidArgumentError("a string is not valid UTF-8".to_string()),
                );
            }
            i += 1;
        }
        Ok(Utf8Array { inner: array })
    }

    /// The array of `offsets` into `values` with `validity`; an error when the offsets are
    /// not a non-decreasing index into `values`, the validity's length differs, or a string
    /// is not well-formed UTF-8.
    pub fn try_new(offsets: Buffer<O>, values: Buffer<u8>, validity: Option<Bitmap>) -> (r: Result<
        Self,
    >)
        requires
            offsets.wf(),
            values.wf(),
            validity matches Some(b) ==> b.wf(),
        ensures
            r is Ok <==> offsets_ok(offsets@, values@.len() as int) && validity_wf(
                validity,
                (offsets@.len() - 1) as nat,
            ) && all_utf8(spans(offsets@, values@)),
            r matches Ok(a) ==> a.wf() && a@ == masked(
                spans(offsets@, values@),
                validity_view(validity),
            ),
    {
        match BinaryArray::try_new(offsets, values, validity) {
            Ok(array) => Self::try_from_binary(array),
            Err(e) => Err(e),
        }
    }

    /// Creates a new array out of optional strings of known number; `None` is a null slot.
    pub fn from_trusted_len_iter(items: &[Option<&str>]) -> (r: Self)
        requires
            items@.len() <= usize::MAX,
            total_len(encodings_of(items@)) <= O::max_offset(),
        ensures
            r.wf(),
            r@ == encodings_of(items@),
    {
        let mut bytes: Vec<Option<&[u8]>> = Vec::with_capacity(items.len());
        let mut i: usize = 0;
        while i < items.len()
            invariant
                i <= items@.len(),
                bytes@.len() == i,
                views_of(bytes@) == encodings_of(items@.subrange(0, i as int)),
            decreases items@.len() - i,
        {
            let ghost prev = bytes@;
            match items[i] {
                Some(s) => {
                    let b = s.as_bytes();
                    assert(items@[i as int] == Some(s));
                    assert(b@ == encode_utf8(s@));
                    bytes.push(Some(b));
                    assert(views_of(bytes@)[i as int] == Some(b@));
                },
                None => bytes.push(None),
            }
            assert(bytes@ == prev.push(bytes@.last()));
            assert(views_of(bytes@)[i as int] == encodings_of(items@.subrange(0, i + 1))[i as int]);
            i += 1;
            assert forall|k: int| 0 <= k < i - 1 implies views_of(bytes@)[k] == encodings_of(
                items@.subrange(0, i as int),
            )[k] by {
                assert(views_of(prev)[k] == encodings_of(items@.subrange(0, i - 1))[k]);
                assert(bytes@[k] == prev[k]);
                assert(items@.subrange(0, i - 1)[k] == items@.subrange(0, i as int)[k]);
            }
            assert(views_of(bytes@) =~= encodings_of(items@.subrange(0, i as int)));
        }
        assert(items@.subrange(0, i as int) =~= items@);
        let inner = BinaryArray::<O>::from_trusted_len_iter(bytes.as_slice());
        proof {
            inner.lemma_view();
            assert forall|k: int| 0 <= k < inner.spec_spans().len() implies valid_utf8(
                #[trigger] inner.spec_spans()[k],
            ) by {
                assert(views_of(bytes@)[k] == encodings_of(items@)[k]);
            }
        }
        Utf8Array { inner }
    }

    /// Creates a new array out of strings, none null.
    pub fn from_slice(items: &[&str]) -> (r: Self)
        requires
            items@.len() <= usize::MAX,
            total_len(encodings_of(items@.map_values(|s: &str| Some(s)))) <= O::max_offset(),
        ensures
            r.wf(),
            r@ == encodings_of(items@.map_values(|s: &str| Some(s))),
    {
        let mut opts: Vec<Option<&str>> = Vec::with_capacity(items.len());
        let mut i: usize = 0;
        while i < items.len()
            invariant
                i <= items@.len(),
                opts@ == items@.subrange(0, i as int).map_values(|s: &str| Some(s)),
            decreases items@.len() - i,
        {
            opts.push(Some(items[i]));
            i += 1;
            assert(opts@ =~= items@.subrange(0, i as int).map_values(|s: &str| Some(s)));
        }
        assert(items@.subrange(0, i as int) =~= items@);
        Self::from_trusted_len_iter(opts.as_slice())
    }

    /// Creates a new array out of strings of known number, none null.
    pub fn from_trusted_len_values_iter(items: Vec<&str>) -> (r: Self)
        requires
            items@.len() <= usize::MAX,
            total_len(encodings_of(items@.map_values(|s: &str| Some(s)))) <= O::max_offset(),
        ensures
            r.wf(),
            r@ == encodings_of(items@.map_values(|s: &str| Some(s))),
    {
        Self::from_slice(items.as_slice())
    }

    pub fn len(&self) -> (r: usize)
        requires
            self.wf(),
        ensures
            r == self@.len(),
    {
        self.inner.len()
    }

    /// Whether slot `i` is null.
    pub fn is_null(&self, i: usize) -> (r: bool)
        requires
            self.wf(),
            i < self@.len(),
        ensures
            r == (self@[i as int] is None),
    {
        self.inner.is_null(i)
    }

    /// The string of slot `i`, whatever is stored there when the slot is null.
    pub fn value(&self, i: usize) -> (r: &str)
        requires
            self.wf(),
            i < self@.len(),
        ensures
            r@ == decode_utf8(self.spec_binary().spec_spans()[i as int]),
            self@[i as int] matches Some(v) ==> r@ == decode_utf8(v),
    {
        let bytes = self.inner.value(i);
        proof {
            self.inner.lemma_view();
            assert(valid_utf8(self.inner.spec_spans()[i as int]));
        }
        match str_from_utf8(bytes) {
            Some(s) => s,
            None => "",
        }
    }

    /// Number of null slots.
    pub fn null_count(&self) -> (r: usize)
        requires
            self.wf(),
        ensures
            r == count_unset(validity_of(self@)),
    {
        self.inner.null_count()
    }

    /// The offsets index.
    pub fn offsets(&self) -> (r: &Buffer<O>)
        ensures
            *r == self.spec_binary().spec_offsets(),
    {
        self.inner.offsets()
    }

    /// The bytes the offsets index into.
    pub fn values(&self) -> (r: &Buffer<u8>)
        ensures
            *r == self.spec_binary().spec_values(),
    {
        self.inner.values()
    }

    /// The validity, if any, sharing its allocation.
    pub fn validity(&self) -> (r: Option<Bitmap>)
        ensures
            r == self.spec_binary().spec_validity(),
    {
        self.inner.validity()
    }

    /// The same slots, as byte strings.
    pub fn as_binary(&self) -> (r: &BinaryArray<O>)
        ensures
            *r == self.spec_binary(),
    {
        &self.inner
    }

    /// The slots `offset..offset + length`, sharing all buffers.
    pub fn slice(&self, offset: usize, length: usize) -> (r: Self)
        requires
            self.wf(),
            offset + length <= self@.len(),
        ensures
            r.wf(),
            r@ == self@.subrange(offset as int, offset + length),
    {
        let inner = self.inner.slice(offset, length);
        proof {
            self.inner.lemma_view();
            inner.lemma_view();
        }
        assert forall|k: int| 0 <= k < inner.spec_spans().len() implies valid_utf8(
            #[trigger] inner.spec_spans()[k],
        ) by {
            assert(inner.spec_spans()[k] == self.inner.spec_spans()[offset + k]);
        }
        Utf8Array { inner }
    }

    /// The slots `offset..offset + length`; an error when they exceed the array.
    pub fn try_slice(&self, offset: usize, length: usize) -> (r: Result<Self>)
        requires
            self.wf(),
        ensures
            r is Ok <==> offset + length <= self@.len(),
            r matches Ok(s) ==> s.wf() && s@ == self@.subrange(offset as int, offset + length),
    {
        if offset > self.len() || length > self.len() - offset {
            Err(ArrowError::InvalidArgumentError("the slice exceeds the array".to_string()))
        } else {
            Ok(self.slice(offset, length))
        }
    }

    /// Another handle on the same array, sharing all buffers.
    pub fn share(&self) -> (r: Self)
        requires
            self.wf(),
        ensures
            r.wf(),
            r@ == self@,
    {
        Utf8Array { inner: self.inner.share() }
    }
}

} // verus!
