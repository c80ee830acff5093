use std::sync::Arc;
use vstd::prelude::*;

verus! {

/// Whether bit `i` of `bytes` is set; bits are numbered from the least significant bit of
/// the first byte.
pub open spec fn bit_at(bytes: Seq<u8>, i: int) -> bool {
    bytes[i / 8] & (1u8 << ((i % 8) as u8)) != 0
}

/// The `length` bits of `bytes` that start at bit `offset`.
pub open spec fn bits_of(bytes: Seq<u8>, offset: int, length: int) -> Seq<bool> {
    Seq::new(length as nat, |i: int| bit_at(bytes, offset + i))
}

/// Number of `false` entries of `s`.
pub open spec fn count_unset(s: Seq<bool>) -> nat
    decreases s.len(),
{
    if s.len() == 0 {
        0
    } else {
        (if s[0] {
            0nat
        } else {
            1nat
        }) + count_unset(s.drop_first())
    }
}

/// Number of `true` entries of `s`.
pub open spec fn count_set(s: Seq<bool>) -> nat
    decreases s.len(),
{
    if s.len() == 0 {
        0
    } else {
        (if s[0] {
            1nat
        } else {
            0nat
        }) + count_set(s.drop_first())
    }
}

pub proof fn lemma_count_push(s: Seq<bool>, b: bool)
    ensures
        count_unset(s.push(b)) == count_unset(s) + (if b {
            0nat
        } else {
            1nat
        }),
        count_set(s.push(b)) == count_set(s) + (if b {
            1nat
        } else {
            0nat
        }),
    decreases s.len(),
{
    if s.len() > 0 {
        assert(s.push(b).drop_first() =~= s.drop_first().push(b));
        lemma_count_push(s.drop_first(), b);
    } else {
        assert(s.push(b).drop_first() =~= Seq::<bool>::empty());
        assert(count_unset(Seq::<bool>::empty()) == 0);
        assert(count_set(Seq::<bool>::empty()) == 0);
    }
}

pub proof fn lemma_count_append_constant(s: Seq<bool>, v: bool, n: nat)
    ensures
        count_unset(s + Seq::new(n, |i: int| v)) == count_unset(s) + if v {
            0
        } else {
            n
        },
    decreases n,
{
    if n > 0 {
        lemma_count_append_constant(s, v, (n - 1) as nat);
        assert(s + Seq::new(n, |i: int| v) =~= (s + Seq::new((n - 1) as nat, |i: int| v)).push(v));
        lemma_count_push(s + Seq::new((n - 1) as nat, |i: int| v), v);
    } else {
        assert(s + Seq::new(n, |i: int| v) =~= s);
    }
}

pub proof fn lemma_count_total(s: Seq<bool>)
    ensures
        count_set(s) + count_unset(s) == s.len(),
    decreases s.len(),
{
    if s.len() > 0 {
        lemma_count_total(s.drop_first());
    }
}

proof fn lemma_count_step(s: Seq<bool>, i: int)
    requires
        0 <= i < s.len(),
    ensures
        count_unset(s.subrange(i, s.len() as int)) == (if s[i] {
            0nat
        } else {
            1nat
        }) + count_unset(s.subrange(i + 1, s.len() as int)),
{
    assert(s.subrange(i, s.len() as int).drop_first() =~= s.subrange(i + 1, s.len() as int));
}

proof fn lemma_byte_set_bit(b: u8, k: u8, j: u8)
    requires
        k < 8,
        j < 8,
    ensures
        ((b | (1u8 << k)) & (1u8 << j) != 0) == ((b & (1u8 << j) != 0) || j == k),
{
    assert(((b | (1u8 << k)) & (1u8 << j) != 0) == ((b & (1u8 << j) != 0) || j == k))
        by (bit_vector)
        requires
            k < 8,
            j < 8,
    ;
}

proof fn lemma_byte_zero(j: u8)
    requires
        j < 8,
    ensures
        0u8 & (1u8 << j) == 0,
{
    assert(0u8 & (1u8 << j) == 0) by (bit_vector);
}

/// Number of unset bits among the `length` bits of `bytes` from bit `offset`.
fn count_unset_bits(bytes: &Vec<u8>, offset: usize, length: usize) -> (r: usize)
    requires
        offset + length <= 8 * bytes@.len(),
        offset + length <= usize::MAX,
    ensures
        r == count_unset(bits_of(bytes@, offset as int, length as int)),
{
    let ghost bits = bits_of(bytes@, offset as int, length as int);
    let mut i: usize = length;
    let mut n: usize = 0;
    while i > 0
        invariant
            i <= length,
            offset + length <= 8 * bytes@.len(),
            offset + length <= usize::MAX,
            bits == bits_of(bytes@, offset as int, length as int),
            n == count_unset(bits.subrange(i as int, length as int)),
            n <= length - i,
        decreases i,
    {
        i -= 1;
        let idx = offset + i;
        let set = bytes[idx / 8] & (1u8 << ((idx % 8) as u8)) != 0;
        proof {
            lemma_count_step(bits, i as int);
        }
        if !set {
            n += 1;
        }
    }
    assert(bits.subrange(0, length as int) =~= bits);
    n
}

/// An immutable sequence of bits over a shared byte allocation, with its number of unset bits.
pub struct Bitmap {
    bytes: Arc<Vec<u8>>,
    offset: usize,
    length: usize,
    unset_bits: usize,
}

impl View for Bitmap {
    type V = Seq<bool>;

    closed spec fn view(&self) -> Seq<bool> {
        bits_of(self.bytes@, self.offset as int, self.length as int)
    }
}

impl Bitmap {
    pub closed spec fn wf(&self) -> bool {
        &&& self.offset + self.length <= 8 * self.bytes@.len()
        &&& self.offset + self.length <= usize::MAX
        &&& self.unset_bits == count_unset(self@)
    }

    /// The bit offset of this bitmap within its allocation.
    pub closed spec fn spec_offset(&self) -> nat {
        self.offset as nat
    }

    /// The whole allocation this bitmap reads from.
    pub closed spec fn spec_bytes(&self) -> Seq<u8> {
        self.bytes@
    }

    pub proof fn lemma_view(&self)
        ensures
            self@ == bits_of(self.spec_bytes(), self.spec_offset() as int, self@.len() as int),
            self@.len() <= usize::MAX,
            self.wf() ==> self.spec_offset() + self@.len() <= 8 * self.spec_bytes().len(),
            self.wf() ==> self.spec_offset() + self@.len() <= usize::MAX,
    {
    }

    /// The bitmap of the `length` bits of `bytes` from bit `offset`, sharing `bytes`.
    pub fn from_shared(bytes: Arc<Vec<u8>>, offset: usize, length: usize) -> (r: Self)
        requires
            offset + length <= 8 * bytes@.len(),
            offset + length <= usize::MAX,
        ensures
            r.wf(),
            r@ == bits_of(bytes@, offset as int, length as int),
            r.spec_bytes() == bytes@,
            r.spec_offset() == offset,
    {
        let unset_bits = count_unset_bits(&bytes, offset, length);
        Bitmap { bytes, offset, length, unset_bits }
    }

    /// The bitmap of the first `length` bits of `bytes`; an error when `bytes` is too short.
    pub fn try_new(bytes: Vec<u8>, length: usize) -> (r: crate::error::Result<Self>)
        ensures
            r is Ok <==> length <= 8 * bytes@.len(),
            r matches Ok(b) ==> b.wf() && b@ == bits_of(bytes@, 0, length as int),
    {
        if length / 8 > bytes.len() || (length / 8 == bytes.len() && length % 8 != 0) {
            Err(
                crate::error::ArrowError::InvalidArgumentError(
                    "the length of the bitmap exceeds its bytes".to_string(),
                ),
            )
        } else {
            Ok(Bitmap::from_shared(Arc::new(bytes), 0, length))
        }
    }

    pub fn len(&self) -> (r: usize)
        ensures
            r == self@.len(),
    {
        self.length
    }

    /// Number of unset bits.
    pub fn null_count(&self) -> (r: usize)
        requires
            self.wf(),
        ensures
            r == count_unset(self@),
    {
        self.unset_bits
    }

    /// The bit offset of this bitmap within its allocation.
    pub fn offset(&self) -> (r: usize)
        ensures
            r == self.spec_offset(),
    {
        self.offset
    }

    /// A new handle on the allocation this bitmap reads from.
    pub fn shared_bytes(&self) -> (r: Arc<Vec<u8>>)
        ensures
            r@ == self.spec_bytes(),
    {
        self.bytes.clone()
    }

    pub fn get_bit(&self, i: usize) -> (r: bool)
        requires
            self.wf(),
            i < self@.len(),
        ensures
            r == self@[i as int],
    {
        let idx = self.offset + i;
        self.bytes[idx / 8] & (1u8 << ((idx % 8) as u8)) != 0
    }

    /// The bits `offset..offset + length`, sharing the allocation.
    pub fn slice(&self, offset: usize, length: usize) -> (r: Self)
        requires
            self.wf(),
            offset + length <= self@.len(),
        ensures
            r.wf(),
            r@ == self@.subrange(offset as int, offset + length),
    {
        let r = Bitmap::from_shared(self.bytes.clone(), self.offset + offset, length);
        assert(r@ =~= self@.subrange(offset as int, offset + length));
        r
    }

    /// The bits `start..start + n` packed into a word, bit `j` of the word holding bit
    /// `start + j`; the bits above `n` are unset.
    pub fn word(&self, start: usize, n: usize) -> (r: u64)
        requires
            self.wf(),
            n <= 64,
            start + n <= self@.len(),
        ensures
            forall|j: u64| j < n ==> (#[trigger] (r & (1u64 << j)) != 0) == self@[start + j],
            forall|j: u64| n <= j < 64 ==> #[trigger] (r & (1u64 << j)) == 0,
    {
        if n == 64 && (self.offset + start) % 8 == 0 {
            return self.aligned_word(start);
        }
        let mut w: u64 = 0;
        let mut k: u64 = 0;
        assert forall|j: u64| 0 <= j < 64 implies #[trigger] (w & (1u64 << j)) == 0 by {
            assert(0u64 & (1u64 << j) == 0) by (bit_vector);
        }
        while k < n as u64
            invariant
                self.wf(),
                n <= 64,
                start + n <= self@.len(),
                k <= n,
                forall|j: u64| j < k ==> (#[trigger] (w & (1u64 << j)) != 0) == self@[start + j],
                forall|j: u64| k <= j < 64 ==> #[trigger] (w & (1u64 << j)) == 0,
            decreases n - k,
        {
            let bit = self.get_bit(start + k as usize);
            let ghost w0 = w;
            if bit {
                w = w | (1u64 << k);
            }
            assert forall|j: u64| j < k + 1 implies (#[trigger] (w & (1u64 << j)) != 0)
                == self@[start + j] by {
                lemma_word_set_bit(w0, k, j);
            }
            assert forall|j: u64| k + 1 <= j < 64 implies #[trigger] (w & (1u64 << j)) == 0 by {
                lemma_word_set_bit(w0, k, j);
            }
            k += 1;
        }
        w
    }

    /// Another handle on the same bits, sharing the allocation.
    pub fn share(&self) -> (r: Self)
        ensures
            r == *self,
    {
        Bitmap {
            bytes: self.bytes.clone(),
            offset: self.offset,
            length: self.length,
            unset_bits: self.unset_bits,
        }
    }

    /// The bits `start..start + 64` packed into a word, read a byte at a time; bit `start` must
    /// start a byte of the allocation.
    fn aligned_word(&self, start: usize) -> (r: u64)
        requires
            self.wf(),
            start + 64 <= self@.len(),
            (self.offset + start) % 8 == 0,
        ensures
            forall|j: u64| j < 64 ==> (#[trigger] (r & (1u64 << j)) != 0) == self@[start + j],
    {
        let first = (self.offset + start) / 8;
        let mut w: u64 = 0;
        let mut k: usize = 0;
        assert forall|j: u64| 0 <= j < 64 implies #[trigger] (w & (1u64 << j)) == 0 by {
            assert(0u64 & (1u64 << j) == 0) by (bit_vector);
        }
        while k < 8
            invariant
                self.wf(),
                start + 64 <= self@.len(),
                first * 8 == self.offset + start,
                k <= 8,
                forall|j: u64| j < 8 * k ==> (#[trigger] (w & (1u64 << j)) != 0) == self@[start + j],
                forall|j: u64| 8 * k <= j < 64 ==> #[trigger] (w & (1u64 << j)) == 0,
            decreases 8 - k,
        {
            let b = self.bytes[first + k];
            let ghost w0 = w;
            w = w | ((b as u64) << (8 * k as u64));
            assert forall|j: u64| j < 64 implies (#[trigger] (w & (1u64 << j)) != 0) == ((w0 & (1u64
                << j)) != 0 || (8 * k <= j < 8 * k + 8 && (b & (1u8 << ((j - 8 * k) as u8))) != 0))
                by {
                lemma_word_or_byte(w0, b, k as u64, j);
            }
            assert forall|j: u64| 8 * k <= j < 8 * k + 8 implies (#[trigger] (w & (1u64 << j)) != 0)
                == self@[start + j] by {
                let i = self.offset + start + j;
                assert(i / 8 == first + k);
                assert(i % 8 == j - 8 * k);
            }
            k += 1;
        }
        w
    }

    /// The bits as a vector.
    pub fn to_vec(&self) -> (r: Vec<bool>)
        requires
            self.wf(),
        ensures
            r@ == self@,
    {
        let mut r: Vec<bool> = Vec::with_capacity(self.length);
        let mut i: usize = 0;
        while i < self.length
            invariant
                self.wf(),
                i <= self@.len(),
                r@ == self@.subrange(0, i as int),
            decreases self@.len() - i,
        {
            r.push(self.get_bit(i));
            i += 1;
            assert(r@ =~= self@.subrange(0, i as int));
        }
        assert(r@ =~= self@);
        r
    }
}

proof fn lemma_word_set_bit(w: u64, k: u64, j: u64)
    requires
        k < 64,
        j < 64,
    ensures
        ((w | (1u64 << k)) & (1u64 << j) != 0) == ((w & (1u64 << j) != 0) || j == k),
        j != k ==> ((w | (1u64 << k)) & (1u64 << j) == 0) == (w & (1u64 << j) == 0),
{
    assert(((w | (1u64 << k)) & (1u64 << j) != 0) == ((w & (1u64 << j) != 0) || j == k))
        by (bit_vector)
        requires
            k < 64,
            j < 64,
    ;
}

proof fn lemma_word_or_byte(w: u64, b: u8, k: u64, j: u64)
    requires
        k < 8,
        j < 64,
    ensures
        ((w | ((b as u64) << (8 * k))) & (1u64 << j) != 0) == ((w & (1u64 << j)) != 0 || (8 * k
            <= j < 8 * k + 8 && (b & (1u8 << ((j - 8 * k) as u8))) != 0)),
{
    assert(((w | ((b as u64) << (8 * k))) & (1u64 << j) != 0) == ((w & (1u64 << j)) != 0 || (8
        * k <= j < 8 * k + 8 && (b & (1u8 << ((j - 8 * k) as u8))) != 0))) by (bit_vector)
        requires
            k < 8,
            j < 64,
    ;
}

/// A growable sequence of bits, frozen into a [`Bitmap`] once built.
pub struct MutableBitmap {
    buffer: Vec<u8>,
    length: usize,
    unset_bits: usize,
}

impl View for MutableBitmap {
    type V = Seq<bool>;

    closed spec fn view(&self) -> Seq<bool> {
        bits_of(self.buffer@, 0, self.length as int)
    }
}

impl MutableBitmap {
    pub closed spec fn wf(&self) -> bool {
        &&& self.length <= 8 * self.buffer@.len() < self.length + 8
        &&& forall|j: int|
            self.length <= j < 8 * self.buffer@.len() ==> !bit_at(self.buffer@, j)
        &&& self.unset_bits == count_unset(self@)
    }

    pub fn new() -> (r: Self)
        ensures
            r.wf(),
            r@ == Seq::<bool>::empty(),
    {
        let r = MutableBitmap { buffer: Vec::new(), length: 0, unset_bits: 0 };
        assert(r@ =~= Seq::<bool>::empty());
        r
    }

    /// An empty bitmap with room for `capacity` bits.
    pub fn with_capacity(capacity: usize) -> (r: Self)
        ensures
            r.wf(),
            r@ == Seq::<bool>::empty(),
    {
        let r = MutableBitmap {
            buffer: Vec::with_capacity(capacity / 8 + 1),
            length: 0,
            unset_bits: 0,
        };
        assert(r@ =~= Seq::<bool>::empty());
        r
    }

    pub fn len(&self) -> (r: usize)
        ensures
            r == self@.len(),
    {
        self.length
    }

    pub fn push(&mut self, value: bool)
        requires
            old(self).wf(),
            old(self)@.len() < usize::MAX,
        ensures
            final(self).wf(),
            final(self)@ == old(self)@.push(value),
    {
        let ghost old_view = self@;
        proof {
            lemma_count_total(old_view);
        }
        let len = self.length;
        if len % 8 == 0 {
            self.buffer.push(0u8);
            proof {
                assert forall|j: int| len <= j < 8 * self.buffer@.len() implies !bit_at(
                    self.buffer@,
                    j,
                ) by {
                    lemma_byte_zero((j % 8) as u8);
                }
            }
        }
        let ghost before = self.buffer@;
        let idx = len / 8;
        if value {
            let b = self.buffer[idx];
            self.buffer.set(idx, b | (1u8 << ((len % 8) as u8)));
        }
        proof {
            assert forall|j: int| 0 <= j < 8 * self.buffer@.len() && j != len implies bit_at(
                self.buffer@,
                j,
            ) == bit_at(before, j) by {
                if value && j / 8 == idx {
                    lemma_byte_set_bit(before[idx as int], (len % 8) as u8, (j % 8) as u8);
                }
            }
            if value {
                lemma_byte_set_bit(before[idx as int], (len % 8) as u8, (len % 8) as u8);
            }
        }
        self.length = len + 1;
        if !value {
            self.unset_bits = self.unset_bits + 1;
        }
        proof {
            assert(self@ =~= old_view.push(value));
            lemma_count_push(old_view, value);
            assert(self.length <= 8 * self.buffer@.len() < self.length + 8);
            assert forall|j: int|
                self.length <= j < 8 * self.buffer@.len() implies !bit_at(self.buffer@, j) by {
                assert(bit_at(self.buffer@, j) == bit_at(before, j));
            }
        }
    }

    /// Appends eight copies of `value` as one byte; the length must be a whole number of
    /// bytes.
    fn push_byte(&mut self, value: bool)
        requires
            old(self).wf(),
            old(self)@.len() % 8 == 0,
            old(self)@.len() + 8 <= usize::MAX,
        ensures
            final(self).wf(),
            final(self)@ == old(self)@ + Seq::new(8, |i: int| value),
    {
        let ghost old_view = self@;
        let ghost old_buffer = self.buffer@;
        let byte: u8 = if value {
            0xff
        } else {
            0
        };
        self.buffer.push(byte);
        self.length = self.length + 8;
        proof {
            lemma_count_append_constant(old_view, value, 8);
            lemma_count_total(old_view);
            assert forall|j: int| old_view.len() <= j < old_view.len() + 8 implies #[trigger] bit_at(
                self.buffer@,
                j,
            ) == value by {
                let k = (j % 8) as u8;
                assert((0xffu8 & (1u8 << k)) != 0 && (0u8 & (1u8 << k)) == 0) by (bit_vector)
                    requires
                        k < 8,
                ;
                assert(j / 8 == old_buffer.len());
            }
            assert forall|j: int| 0 <= j < old_view.len() implies #[trigger] bit_at(self.buffer@, j)
                == bit_at(old_buffer, j) by {
                assert(j / 8 < old_buffer.len());
            }
            assert(self@ =~= old_view + Seq::new(8, |i: int| value));
        }
        if !value {
            self.unset_bits = self.unset_bits + 8;
        }
    }

    /// Appends `additional` copies of `value`: bit by bit up to a byte boundary, then a byte
    /// at a time, then bit by bit.
    pub fn extend_constant(&mut self, additional: usize, value: bool)
        requires
            old(self).wf(),
            old(self)@.len() + additional <= usize::MAX,
        ensures
            final(self).wf(),
            final(self)@ == old(self)@ + Seq::new(additional as nat, |i: int| value),
    {
        let mut i: usize = 0;
        while i < additional && self.length % 8 != 0
            invariant
                self.wf(),
                i <= additional,
                old(self)@.len() + additional <= usize::MAX,
                self@ == old(self)@ + Seq::new(i as nat, |k: int| value),
            decreases additional - i,
        {
            self.push(value);
            i += 1;
            assert(self@ =~= old(self)@ + Seq::new(i as nat, |k: int| value));
        }
        while additional - i >= 8
            invariant
                self.wf(),
                i <= additional,
                i < additional ==> self@.len() % 8 == 0,
                old(self)@.len() + additional <= usize::MAX,
                self@ == old(self)@ + Seq::new(i as nat, |k: int| value),
            decreases additional - i,
        {
            self.push_byte(value);
            i += 8;
            assert(self@ =~= old(self)@ + Seq::new(i as nat, |k: int| value));
        }
        while i < additional
            invariant
                self.wf(),
                i <= additional,
                old(self)@.len() + additional <= usize::MAX,
                self@ == old(self)@ + Seq::new(i as nat, |k: int| value),
            decreases additional - i,
        {
            self.push(value);
            i += 1;
            assert(self@ =~= old(self)@ + Seq::new(i as nat, |k: int| value));
        }
    }

    /// Appends the bits `start..start + len` of `bitmap`.
    pub fn extend_from_bitmap(&mut self, bitmap: &Bitmap, start: usize, len: usize)
        requires
            old(self).wf(),
            bitmap.wf(),
            start + len <= bitmap@.len(),
            old(self)@.len() + len <= usize::MAX,
        ensures
            final(self).wf(),
            final(self)@ == old(self)@ + bitmap@.subrange(start as int, start + len),
    {
        let mut i: usize = 0;
        while i < len
            invariant
                self.wf(),
                bitmap.wf(),
                i <= len,
                start + len <= bitmap@.len(),
                old(self)@.len() + len <= usize::MAX,
                self@ == old(self)@ + bitmap@.subrange(start as int, start + i),
            decreases len - i,
        {
            self.push(bitmap.get_bit(start + i));
            i += 1;
            assert(self@ =~= old(self)@ + bitmap@.subrange(start as int, start + i));
        }
    }

    /// Appends the values of `slice`.
    pub fn extend_from_slice(&mut self, slice: &[bool])
        requires
            old(self).wf(),
            old(self)@.len() + slice@.len() <= usize::MAX,
        ensures
            final(self).wf(),
            final(self)@ == old(self)@ + slice@,
    {
        let mut i: usize = 0;
        while i < slice.len()
            invariant
                self.wf(),
                i <= slice@.len(),
                old(self)@.len() + slice@.len() <= usize::MAX,
                self@ == old(self)@ + slice@.subrange(0, i as int),
            decreases slice@.len() - i,
        {
            self.push(slice[i]);
            i += 1;
            assert(self@ =~= old(self)@ + slice@.subrange(0, i as int));
        }
        assert(slice@.subrange(0, slice@.len() as int) =~= slice@);
    }

    /// Number of unset bits.
    pub fn null_count(&self) -> (r: usize)
        requires
            self.wf(),
        ensures
            r == count_unset(self@),
    {
        self.unset_bits
    }

    /// Freezes the bits into an immutable [`Bitmap`].
    pub fn into_bitmap(self) -> (r: Bitmap)
        requires
            self.wf(),
        ensures
            r.wf(),
            r@ == self@,
            r.spec_offset() == 0,
    {
        let r = Bitmap {
            bytes: Arc::new(self.buffer),
            offset: 0,
            length: self.length,
            unset_bits: self.unset_bits,
        };
        assert(r@ =~= self@);
        r
    }
}

} // verus!
