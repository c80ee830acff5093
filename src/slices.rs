use vstd::prelude::*;

use crate::bitmap::{count_set, count_unset, lemma_count_total, Bitmap};
use crate::boolean::BooleanArray;
use crate::runs::{close, grow, lemma_scan_ones, lemma_scan_zeros, open_before, scan};

verus! {

/// The runs yielded by a [`SlicesIterator`], as mathematical pairs.
pub open spec fn as_runs(v: Seq<(usize, usize)>) -> Seq<(int, int)> {
    v.map_values(|x: (usize, usize)| (x.0 as int, x.1 as int))
}

/// Every bit of the word `c` of `bits` (bits `64 * c..64 * c + 64`) is `value`.
pub open spec fn word_is(bits: Seq<bool>, c: int, value: bool) -> bool {
    forall|j: int| 0 <= j < 64 ==> #[trigger] bits[c * 64 + j] == value
}

/// The words `from..to` of `bits` are each all set or all unset.
pub open spec fn words_uniform(bits: Seq<bool>, from: int, to: int) -> bool {
    forall|c: int| from <= c < to ==> #[trigger] word_is(bits, c, true) || word_is(bits, c, false)
}

/// Internal state of [`SlicesIterator`].
#[derive(Clone, Copy)]
enum State {
    /// iterating over the bits of a mixed word
    Bits(u64),
    /// iterating over whole words
    Chunks,
    /// iterating over the bits that do not fill a word
    Remainder,
    /// nothing more to iterate
    Finish,
}

/// An iterator of `(start, len)`, each the interval `[start, start + len)` of a maximal run of
/// set bits of a bitmap, in order. Whole words of 64 bits that are all set or all unset are
/// handled at once; mixed words and the remainder are scanned bit by bit.
pub struct SlicesIterator {
    values: Bitmap,
    state: State,
    filter_count: usize,
    remainder_mask: u64,
    remainder_len: usize,
    chunk_len: usize,
    len: usize,
    start: usize,
    on_region: bool,
    current_chunk: usize,
    current_bit: usize,
    next_chunk: usize,
}

proof fn lemma_word_uniform(w: u64, j: u64)
    requires
        j < 64,
    ensures
        w == 0 ==> (w & (1u64 << j)) == 0,
        w == 0xffff_ffff_ffff_ffffu64 ==> (w & (1u64 << j)) != 0,
{
    assert(w == 0 ==> (w & (1u64 << j)) == 0) by (bit_vector);
    assert(w == 0xffff_ffff_ffff_ffffu64 ==> (w & (1u64 << j)) != 0) by (bit_vector)
        requires
            j < 64,
    ;
}

impl SlicesIterator {
    /// The bits whose runs this iterator yields.
    pub closed spec fn bits(&self) -> Seq<bool> {
        self.values@
    }

    /// The position up to which the bits have been scanned.
    closed spec fn cursor(&self) -> int {
        match self.state {
            State::Chunks => self.next_chunk * 64,
            State::Bits(_) => self.current_chunk * 64 + self.current_bit,
            State::Remainder => self.current_chunk * 64 + self.current_bit,
            State::Finish => self.bits().len() as int,
        }
    }

    closed spec fn open_run(&self) -> Option<(int, int)> {
        if self.on_region {
            Some((self.start as int, self.len as int))
        } else {
            None
        }
    }

    /// The runs still to be yielded.
    pub closed spec fn remaining(&self) -> Seq<(int, int)> {
        match self.state {
            State::Finish => Seq::empty(),
            _ => scan(self.bits(), self.cursor(), self.open_run()),
        }
    }

    /// What stays fixed while iterating.
    closed spec fn fixed(&self) -> bool {
        let n = self.bits().len();
        &&& self.values.wf()
        &&& self.chunk_len * 64 + self.remainder_len == n
        &&& self.remainder_len < 64
        &&& forall|j: u64|
            j < self.remainder_len ==> (#[trigger] (self.remainder_mask & (1u64 << j)) != 0)
                == self.bits()[self.chunk_len * 64 + j]
        &&& self.filter_count == count_set(self.bits())
    }

    closed spec fn same_fixed(&self, other: &Self) -> bool {
        &&& self.values == other.values
        &&& self.chunk_len == other.chunk_len
        &&& self.remainder_len == other.remainder_len
        &&& self.remainder_mask == other.remainder_mask
        &&& self.filter_count == other.filter_count
    }

    /// The state is consistent with the bits.
    pub closed spec fn wf(&self) -> bool {
        &&& self.fixed()
        &&& self.next_chunk <= self.chunk_len
        &&& match self.state {
            State::Chunks => self.current_bit == 0,
            State::Bits(mask) => {
                &&& self.next_chunk == self.current_chunk + 1
                &&& self.current_bit <= 64
                &&& forall|j: u64|
                    j < 64 ==> (#[trigger] (mask & (1u64 << j)) != 0) == self.bits()[self.current_chunk
                        * 64 + j]
            },
            State::Remainder => {
                &&& self.current_chunk == self.chunk_len
                &&& self.next_chunk == self.chunk_len
                &&& self.current_bit <= self.remainder_len
            },
            State::Finish => true,
        }
        &&& self.cursor() <= self.bits().len()
        &&& open_before(self.bits(), self.open_run(), self.cursor())
    }

    /// An iterator over the runs of set bits of `values`.
    fn from_bitmap(values: &Bitmap) -> (r: Self)
        requires
            values.wf(),
        ensures
            r.wf(),
            r.bits() == values@,
            r.remaining() == scan(values@, 0, None),
            r.filter_count() == count_set(values@),
    {
        let n = values.len();
        let chunk_len = n / 64;
        let remainder_len = n % 64;
        let remainder_mask = values.word(chunk_len * 64, remainder_len);
        proof {
            lemma_count_total(values@);
        }
        let filter_count = n - values.null_count();
        SlicesIterator {
            values: values.share(),
            state: State::Chunks,
            filter_count,
            remainder_mask,
            remainder_len,
            chunk_len,
            len: 0,
            start: 0,
            on_region: false,
            current_chunk: 0,
            current_bit: 0,
            next_chunk: 0,
        }
    }

    /// An iterator over the runs of set values of `filter`; its validity is not read.
    pub fn new(filter: &BooleanArray) -> (r: Self)
        requires
            filter.wf(),
        ensures
            r.wf(),
            r.bits() == filter.spec_values()@,
            r.remaining() == scan(filter.spec_values()@, 0, None),
            r.filter_count() == count_set(filter.spec_values()@),
    {
        proof {
            filter.lemma_view();
        }
        Self::from_bitmap(filter.values())
    }

    pub closed spec fn filter_count(&self) -> nat {
        self.filter_count as nat
    }

    /// Number of set bits of the whole bitmap.
    pub fn get_filter_count(&self) -> (r: usize)
        ensures
            r == self.filter_count(),
    {
        self.filter_count
    }

    fn current_start(&self) -> (r: usize)
        requires
            self.current_chunk * 64 + self.current_bit <= usize::MAX,
        ensures
            r == self.current_chunk * 64 + self.current_bit,
    {
        self.current_chunk * 64 + self.current_bit
    }

    /// Scans bits `current_bit..max` of `mask`, the word at `current_chunk`, until a run closes.
    fn iterate_bits(&mut self, mask: u64, max: usize) -> (r: Option<(usize, usize)>)
        requires
            old(self).wf(),
            match old(self).state {
                State::Bits(m) => m == mask && max == 64,
                State::Remainder => mask == old(self).remainder_mask && max
                    == old(self).remainder_len,
                _ => false,
            },
        ensures
            final(self).same_fixed(old(self)),
            final(self).state == old(self).state,
            final(self).next_chunk == old(self).next_chunk,
            final(self).current_chunk == old(self).current_chunk,
            match r {
                Some(x) => {
                    &&& final(self).wf()
                    &&& old(self).remaining() == seq![(x.0 as int, x.1 as int)]
                        + final(self).remaining()
                },
                None => {
                    let end = old(self).current_chunk * 64 + max;
                    &&& final(self).current_bit == 0
                    &&& end <= old(self).bits().len()
                    &&& open_before(final(self).bits(), final(self).open_run(), end)
                    &&& old(self).remaining() == scan(
                        old(self).bits(),
                        end,
                        final(self).open_run(),
                    )
                },
            },
    {
        let ghost bits = self.bits();
        let ghost base = self.current_chunk * 64;
        let ghost before = *self;
        proof {
            self.values.lemma_view();
            assert(base + max <= bits.len()) by {
                if self.state is Bits {
                    assert(self.current_chunk + 1 <= self.chunk_len);
                }
            }
        }
        while self.current_bit < max
            invariant
                before == *old(self),
                self.same_fixed(&before),
                self.fixed(),
                self.state == before.state,
                self.next_chunk == before.next_chunk,
                self.current_chunk == before.current_chunk,
                bits == self.bits(),
                base == self.current_chunk * 64,
                max <= 64,
                base + max <= bits.len(),
                self.current_bit <= max,
                forall|j: u64| j < max ==> (#[trigger] (mask & (1u64 << j)) != 0) == bits[base + j],
                before.remaining() == scan(bits, base + self.current_bit, self.open_run()),
                open_before(bits, self.open_run(), base + self.current_bit),
                match self.state {
                    State::Bits(m) => m == mask && max == 64 && self.next_chunk
                        == self.current_chunk + 1,
                    State::Remainder => mask == self.remainder_mask && max == self.remainder_len
                        && self.current_chunk == self.chunk_len && self.next_chunk
                        == self.chunk_len,
                    _ => false,
                },
                self.next_chunk <= self.chunk_len,
                bits.len() <= usize::MAX,
            decreases max - self.current_bit,
        {
            let ghost p = base + self.current_bit;
            let ghost o = self.open_run();
            assert((mask & (1u64 << (self.current_bit as u64)) != 0) == bits[p]);
            if (mask & (1u64 << (self.current_bit as u64))) != 0 {
                if !self.on_region {
                    self.start = self.current_start();
                    self.on_region = true;
                    self.len = 0;
                }
                self.len += 1;
                assert(self.open_run() == grow(o, p, 1));
            } else if self.on_region {
                let result = (self.start, self.len);
                self.len = 0;
                self.on_region = false;
                self.current_bit += 1;
                assert(scan(bits, p, Some((result.0 as int, result.1 as int))) == seq![
                    (result.0 as int, result.1 as int),
                ] + scan(bits, p + 1, None));
                return Some(result);
            }
            self.current_bit += 1;
        }
        self.current_bit = 0;
        None
    }

    /// Consumes whole words: an all-unset word closes the open run, an all-set word extends it,
    /// and a mixed word switches to bit-by-bit scanning.
    fn iterate_chunks(&mut self) -> (r: Option<(usize, usize)>)
        requires
            old(self).wf(),
            old(self).state is Chunks,
        ensures
            final(self).wf(),
            final(self).same_fixed(old(self)),
            final(self).next_chunk >= old(self).next_chunk,
            match r {
                Some(x) => {
                    &&& final(self).state is Chunks
                    &&& old(self).remaining() == seq![(x.0 as int, x.1 as int)]
                        + final(self).remaining()
                    &&& final(self).next_chunk == final(self).current_chunk + 1
                    &&& words_uniform(
                        old(self).bits(),
                        old(self).next_chunk as int,
                        final(self).current_chunk as int,
                    )
                    &&& word_is(old(self).bits(), final(self).current_chunk as int, false)
                },
                None => {
                    &&& old(self).remaining() == final(self).remaining()
                    &&& final(self).current_bit == 0
                    &&& (final(self).state is Remainder || (final(self).state is Bits
                        && final(self).next_chunk > old(self).next_chunk))
                    &&& words_uniform(
                        old(self).bits(),
                        old(self).next_chunk as int,
                        final(self).current_chunk as int,
                    )
                    &&& final(self).state matches State::Bits(m) ==> m != 0 && m
                        != 0xffff_ffff_ffff_ffffu64
                },
            },
    {
        let ghost bits = self.bits();
        proof {
            self.values.lemma_view();
        }
        while self.next_chunk < self.chunk_len
            invariant
                self.wf(),
                self.state is Chunks,
                self.same_fixed(old(self)),
                bits == self.bits(),
                bits.len() <= usize::MAX,
                self.next_chunk >= old(self).next_chunk,
                old(self).remaining() == self.remaining(),
                words_uniform(bits, old(self).next_chunk as int, self.next_chunk as int),
            decreases self.chunk_len - self.next_chunk,
        {
            let i = self.next_chunk;
            let ghost o = self.open_run();
            let mask = self.values.word(i * 64, 64);
            self.next_chunk = i + 1;
            self.current_chunk = i;
            if mask == 0 {
                proof {
                    assert forall|j: int| i * 64 <= j < i * 64 + 64 implies !#[trigger] bits[j] by {
                        lemma_word_uniform(mask, (j - i * 64) as u64);
                        assert(((mask & (1u64 << ((j - i * 64) as u64))) != 0) == bits[i * 64 + (j - i * 64) as u64]);
                    }
                    lemma_scan_zeros(bits, i * 64, o, 64);
                    assert(word_is(bits, i as int, false));
                }
                if self.on_region {
                    let result = (self.start, self.len);
                    self.len = 0;
                    self.on_region = false;
                    return Some(result);
                }
                assert(close(o) + scan(bits, i * 64 + 64, None) =~= scan(bits, i * 64 + 64, None));
            } else if mask == 0xffff_ffff_ffff_ffffu64 {
                proof {
                    assert forall|j: int| i * 64 <= j < i * 64 + 64 implies #[trigger] bits[j] by {
                        lemma_word_uniform(mask, (j - i * 64) as u64);
                        assert(((mask & (1u64 << ((j - i * 64) as u64))) != 0) == bits[i * 64 + (j - i * 64) as u64]);
                    }
                    lemma_scan_ones(bits, i * 64, o, 64);
                    assert(word_is(bits, i as int, true));
                }
                if !self.on_region {
                    self.start = self.current_start();
                    self.on_region = true;
                    self.len = 0;
                }
                self.len += 64;
                assert(self.open_run() == grow(o, i * 64, 64));
            } else {
                self.state = State::Bits(mask);
                return None;
            }
        }
        self.current_chunk = self.chunk_len;
        self.state = State::Remainder;
        None
    }

    spec fn rank(&self) -> int {
        match self.state {
            State::Chunks => 2,
            State::Bits(_) => 3,
            _ => 0,
        }
    }

    /// The next run, or `None` once all runs have been yielded.
    pub fn next(&mut self) -> (r: Option<(usize, usize)>)
        requires
            old(self).wf(),
        ensures
            final(self).wf(),
            final(self).bits() == old(self).bits(),
            final(self).filter_count() == old(self).filter_count(),
            match r {
                Some(x) => old(self).remaining() == seq![(x.0 as int, x.1 as int)]
                    + final(self).remaining(),
                None => old(self).remaining().len() == 0 && final(self).remaining().len() == 0,
            },
    {
        loop
            invariant
                self.wf(),
                self.bits() == old(self).bits(),
                self.filter_count() == old(self).filter_count(),
                self.remaining() == old(self).remaining(),
            decreases 2 * (self.chunk_len - self.next_chunk) + self.rank(),
        {
            match self.state {
                State::Chunks => {
                    match self.iterate_chunks() {
                        None => {
                            self.current_bit = 0;
                        },
                        other => {
                            return other;
                        },
                    }
                },
                State::Bits(mask) => {
                    let ghost c = self.current_chunk;
                    match self.iterate_bits(mask, 64) {
                        None => {
                            self.state = State::Chunks;
                            assert(self.cursor() == c * 64 + 64);
                        },
                        other => {
                            return other;
                        },
                    }
                },
                State::Remainder => {
                    let mask = self.remainder_mask;
                    let max = self.remainder_len;
                    match self.iterate_bits(mask, max) {
                        None => {
                            self.state = State::Finish;
                            if self.on_region {
                                return Some((self.start, self.len));
                            } else {
                                return None;
                            }
                        },
                        other => {
                            return other;
                        },
                    }
                },
                State::Finish => {
                    return None;
                },
            }
        }
    }

    /// All the remaining runs, in order.
    pub fn collect_runs(self) -> (r: Vec<(usize, usize)>)
        requires
            self.wf(),
        ensures
            as_runs(r@) == self.remaining(),
    {
        let mut it = self;
        let mut out: Vec<(usize, usize)> = Vec::new();
        loop
            invariant
                it.wf(),
                as_runs(out@) + it.remaining() == self.remaining(),
            ensures
                as_runs(out@) == self.remaining(),
            decreases it.remaining().len(),
        {
            let ghost prev = out@;
            let ghost before = it.remaining();
            match it.next() {
                Some(x) => {
                    out.push(x);
                    assert(as_runs(out@) =~= as_runs(prev).push((x.0 as int, x.1 as int)));
                    assert(as_runs(out@) + it.remaining() =~= as_runs(prev) + before);
                },
                None => {
                    assert(as_runs(out@) + it.remaining() =~= as_runs(out@));
                    break;
                },
            }
        }
        out
    }
}

} // verus!
