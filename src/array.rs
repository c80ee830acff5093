use vstd::prelude::*;

use crate::bitmap::{count_unset, Bitmap};

verus! {

/// The slots of an array: slot `i` holds `values[i]` unless `validity` is present and its bit
/// `i` is unset, in which case the slot is null.
pub open spec fn masked<A>(values: Seq<A>, validity: Option<Seq<bool>>) -> Seq<Option<A>> {
    Seq::new(
        values.len(),
        |i: int|
            match validity {
                Some(v) => if v[i] {
                    Some(values[i])
                } else {
                    None
                },
                None => Some(values[i]),
            },
    )
}

/// Every item of `s`, none null.
pub open spec fn all_valid<A>(s: Seq<A>) -> Seq<Option<A>> {
    Seq::new(s.len(), |i: int| Some(s[i]))
}

pub open spec fn validity_view(v: Option<Bitmap>) -> Option<Seq<bool>> {
    match v {
        Some(b) => Some(b@),
        None => None,
    }
}

/// `v`, if present, is a well-formed bitmap of `len` bits.
pub open spec fn validity_wf(v: Option<Bitmap>, len: nat) -> bool {
    match v {
        Some(b) => b.wf() && b@.len() == len,
        None => true,
    }
}

/// The bits `a..b` of the validity `v`.
pub open spec fn sub_validity(v: Option<Seq<bool>>, a: int, b: int) -> Option<Seq<bool>> {
    match v {
        Some(bits) => Some(bits.subrange(a, b)),
        None => None,
    }
}

pub proof fn lemma_masked_subrange<A>(values: Seq<A>, validity: Option<Seq<bool>>, a: int, b: int)
    requires
        0 <= a <= b <= values.len(),
        validity matches Some(v) ==> v.len() == values.len(),
    ensures
        masked(values.subrange(a, b), sub_validity(validity, a, b)) == masked(
            values,
            validity,
        ).subrange(a, b),
{
    assert(masked(values.subrange(a, b), sub_validity(validity, a, b)) =~= masked(
        values,
        validity,
    ).subrange(a, b));
}

/// The slots of `validity` at `offset..offset + length`, sharing its allocation.
pub fn slice_validity(validity: &Option<Bitmap>, offset: usize, length: usize) -> (r: Option<
    Bitmap,
>)
    requires
        validity matches Some(b) ==> b.wf() && offset + length <= b@.len(),
    ensures
        validity_wf(r, length as nat),
        validity_view(r) == sub_validity(validity_view(*validity), offset as int, offset + length),
{
    match validity {
        Some(b) => Some(b.slice(offset, length)),
        None => None,
    }
}

/// Another handle on `validity`, sharing its allocation.
pub fn share_validity(validity: &Option<Bitmap>) -> (r: Option<Bitmap>)
    ensures
        r == *validity,
{
    match validity {
        Some(b) => Some(b.share()),
        None => None,
    }
}

/// Whether slot `i` is null under `validity`.
pub fn validity_is_null(validity: &Option<Bitmap>, i: usize, len: usize) -> (r: bool)
    requires
        validity_wf(*validity, len as nat),
        i < len,
    ensures
        r == match *validity {
            Some(b) => !b@[i as int],
            None => false,
        },
{
    match validity {
        Some(b) => !b.get_bit(i),
        None => false,
    }
}

/// Number of null slots under `validity`.
pub fn validity_null_count(validity: &Option<Bitmap>) -> (r: usize)
    requires
        validity matches Some(b) ==> b.wf(),
    ensures
        r == match *validity {
            Some(b) => count_unset(b@),
            None => 0,
        },
{
    match validity {
        Some(b) => b.null_count(),
        None => 0,
    }
}

} // verus!
