use vstd::prelude::*;

use crate::bitmap::count_set;

verus! {

/// The open run `open` extended by `k` set bits found from position `i`.
pub open spec fn grow(open: Option<(int, int)>, i: int, k: int) -> Option<(int, int)> {
    match open {
        Some(r) => Some((r.0, r.1 + k)),
        None => Some((i, k)),
    }
}

/// The runs that closing `open` yields.
pub open spec fn close(open: Option<(int, int)>) -> Seq<(int, int)> {
    match open {
        Some(r) => seq![r],
        None => Seq::empty(),
    }
}

/// The maximal runs `(start, length)` of set bits of `bits` that a bit-by-bit scan yields
/// from position `i`, given the run `open` still open when reaching `i`.
pub open spec fn scan(bits: Seq<bool>, i: int, open: Option<(int, int)>) -> Seq<(int, int)>
    decreases bits.len() - i,
{
    if i >= bits.len() {
        close(open)
    } else if bits[i] {
        scan(bits, i + 1, grow(open, i, 1))
    } else {
        close(open) + scan(bits, i + 1, None)
    }
}

/// The maximal runs of set bits of `bits`, in order.
pub open spec fn runs(bits: Seq<bool>) -> Seq<(int, int)> {
    scan(bits, 0, None)
}

/// The items of `s` that the runs `rs` cover, run after run.
pub open spec fn gather<A>(s: Seq<A>, rs: Seq<(int, int)>) -> Seq<A>
    decreases rs.len(),
{
    if rs.len() == 0 {
        Seq::empty()
    } else {
        s.subrange(rs[0].0, rs[0].0 + rs[0].1) + gather(s, rs.drop_first())
    }
}

/// The items of `s` from position `i` on whose entry in `mask` is set, in order.
pub open spec fn select_from<A>(s: Seq<A>, mask: Seq<bool>, i: int) -> Seq<A>
    decreases mask.len() - i,
{
    if i >= mask.len() {
        Seq::empty()
    } else if mask[i] {
        seq![s[i]] + select_from(s, mask, i + 1)
    } else {
        select_from(s, mask, i + 1)
    }
}

/// The items of `s` whose entry in `mask` is set, in order.
pub open spec fn filtered<A>(s: Seq<A>, mask: Seq<bool>) -> Seq<A> {
    select_from(s, mask, 0)
}

/// Sum of the lengths of the runs `rs`.
pub open spec fn sum_lens(rs: Seq<(int, int)>) -> int
    decreases rs.len(),
{
    if rs.len() == 0 {
        0
    } else {
        rs[0].1 + sum_lens(rs.drop_first())
    }
}

/// The runs `rs` are non-empty, lie within `lo..hi`, come in increasing order, and are
/// separated by at least one position.
pub open spec fn runs_within(rs: Seq<(int, int)>, lo: int, hi: int) -> bool {
    &&& forall|k: int|
        0 <= k < rs.len() ==> lo <= #[trigger] rs[k].0 && rs[k].1 >= 1 && rs[k].0 + rs[k].1 <= hi
    &&& forall|k: int| 0 <= k < rs.len() - 1 ==> #[trigger] rs[k].0 + rs[k].1 < rs[k + 1].0
}

/// `open` is a run of set bits ending right before position `i`.
pub open spec fn open_before(bits: Seq<bool>, open: Option<(int, int)>, i: int) -> bool {
    match open {
        Some(r) => 0 <= r.0 && r.1 >= 1 && r.0 + r.1 == i && forall|j: int|
            r.0 <= j < i ==> #[trigger] bits[j],
        None => true,
    }
}

/// Where the first run of a scan from `i` with the open run `open` starts, at the earliest.
pub open spec fn first_start(open: Option<(int, int)>, i: int) -> int {
    match open {
        Some(r) => r.0,
        None => i,
    }
}

/// Scanning `k >= 1` set bits extends the open run by `k`.
pub proof fn lemma_scan_ones(bits: Seq<bool>, i: int, open: Option<(int, int)>, k: int)
    requires
        0 <= i,
        k >= 1,
        i + k <= bits.len(),
        forall|j: int| i <= j < i + k ==> #[trigger] bits[j],
    ensures
        scan(bits, i, open) == scan(bits, i + k, grow(open, i, k)),
    decreases k,
{
    if k > 1 {
        lemma_scan_ones(bits, i + 1, grow(open, i, 1), k - 1);
        assert(grow(grow(open, i, 1), i + 1, k - 1) == grow(open, i, k));
    }
}

/// Scanning `k >= 1` unset bits closes the open run.
pub proof fn lemma_scan_zeros(bits: Seq<bool>, i: int, open: Option<(int, int)>, k: int)
    requires
        0 <= i,
        k >= 1,
        i + k <= bits.len(),
        forall|j: int| i <= j < i + k ==> !#[trigger] bits[j],
    ensures
        scan(bits, i, open) == close(open) + scan(bits, i + k, None),
    decreases k,
{
    if k > 1 {
        lemma_scan_zeros(bits, i + 1, None, k - 1);
        assert(close(None) + scan(bits, i + k, None) =~= scan(bits, i + k, None));
    }
}

pub proof fn lemma_gather_cons<A>(s: Seq<A>, r: (int, int), rs: Seq<(int, int)>)
    ensures
        gather(s, seq![r] + rs) == s.subrange(r.0, r.0 + r.1) + gather(s, rs),
{
    assert((seq![r] + rs).drop_first() =~= rs);
}

proof fn lemma_sum_cons(r: (int, int), rs: Seq<(int, int)>)
    ensures
        sum_lens(seq![r] + rs) == r.1 + sum_lens(rs),
{
    assert((seq![r] + rs).drop_first() =~= rs);
}

/// Gathering the runs of a scan from `i` yields the open run's items, then the items of the
/// set positions from `i` on.
pub proof fn lemma_gather_scan<A>(s: Seq<A>, bits: Seq<bool>, i: int, open: Option<(int, int)>)
    requires
        s.len() == bits.len(),
        0 <= i <= bits.len(),
        open_before(bits, open, i),
    ensures
        gather(s, scan(bits, i, open)) == s.subrange(first_start(open, i), i) + select_from(
            s,
            bits,
            i,
        ),
    decreases bits.len() - i,
{
    if i >= bits.len() {
        match open {
            Some(r) => {
                lemma_gather_cons(s, r, Seq::empty());
                assert(gather(s, Seq::<(int, int)>::empty()) == Seq::<A>::empty());
                assert(s.subrange(r.0, i) + Seq::<A>::empty() =~= s.subrange(r.0, i));
                assert(s.subrange(r.0, i) + select_from(s, bits, i) =~= s.subrange(r.0, i));
            },
            None => {
                assert(s.subrange(i, i) + select_from(s, bits, i) =~= Seq::<A>::empty());
            },
        }
    } else if bits[i] {
        lemma_gather_scan(s, bits, i + 1, grow(open, i, 1));
        assert(s.subrange(first_start(open, i), i + 1) =~= s.subrange(first_start(open, i), i)
            + seq![s[i]]);
        assert(s.subrange(first_start(open, i), i + 1) + select_from(s, bits, i + 1)
            =~= s.subrange(first_start(open, i), i) + select_from(s, bits, i));
    } else {
        lemma_gather_scan(s, bits, i + 1, None);
        assert(s.subrange(i + 1, i + 1) + select_from(s, bits, i + 1) =~= select_from(
            s,
            bits,
            i + 1,
        ));
        match open {
            Some(r) => {
                lemma_gather_cons(s, r, scan(bits, i + 1, None));
            },
            None => {
                assert(close(open) + scan(bits, i + 1, None) =~= scan(bits, i + 1, None));
                assert(s.subrange(i, i) + select_from(s, bits, i) =~= select_from(s, bits, i));
            },
        }
    }
}

/// The lengths of the runs of a scan from `i` add up to the open run's length and the
/// number of set bits from `i` on.
pub proof fn lemma_sum_scan(bits: Seq<bool>, i: int, open: Option<(int, int)>)
    requires
        0 <= i <= bits.len(),
        open_before(bits, open, i),
    ensures
        sum_lens(scan(bits, i, open)) == (i - first_start(open, i)) + count_set(
            bits.subrange(i, bits.len() as int),
        ),
    decreases bits.len() - i,
{
    let rest = bits.subrange(i, bits.len() as int);
    if i >= bits.len() {
        assert(rest.len() == 0);
        match open {
            Some(r) => {
                lemma_sum_cons(r, Seq::empty());
            },
            None => {},
        }
    } else {
        assert(rest.drop_first() =~= bits.subrange(i + 1, bits.len() as int));
        if bits[i] {
            lemma_sum_scan(bits, i + 1, grow(open, i, 1));
        } else {
            lemma_sum_scan(bits, i + 1, None);
            match open {
                Some(r) => {
                    lemma_sum_cons(r, scan(bits, i + 1, None));
                },
                None => {
                    assert(close(open) + scan(bits, i + 1, None) =~= scan(bits, i + 1, None));
                },
            }
        }
    }
}

/// The runs of a scan from `i` are ordered, separated and within range.
pub proof fn lemma_scan_within(bits: Seq<bool>, i: int, open: Option<(int, int)>)
    requires
        0 <= i <= bits.len(),
        open_before(bits, open, i),
    ensures
        runs_within(scan(bits, i, open), first_start(open, i), bits.len() as int),
    decreases bits.len() - i,
{
    if i < bits.len() {
        if bits[i] {
            lemma_scan_within(bits, i + 1, grow(open, i, 1));
        } else {
            lemma_scan_within(bits, i + 1, None);
            let rest = scan(bits, i + 1, None);
            match open {
                Some(r) => {
                    let all = seq![r] + rest;
                    assert(all =~= close(open) + rest);
                    assert forall|k: int| 0 <= k < all.len() - 1 implies #[trigger] all[k].0
                        + all[k].1 < all[k + 1].0 by {
                        if k > 0 {
                            assert(all[k] == rest[k - 1]);
                        }
                    }
                },
                None => {
                    assert(close(open) + rest =~= rest);
                },
            }
        }
    }
}

/// The runs of a bit sequence cover exactly its set positions, in order, and their lengths
/// add up to the number of set bits. The runs are ordered, non-empty and separated.
pub proof fn lemma_runs_cover_set_bits(bits: Seq<bool>)
    ensures
        gather(Seq::new(bits.len(), |i: int| i), runs(bits)) == filtered(
            Seq::new(bits.len(), |i: int| i),
            bits,
        ),
        sum_lens(runs(bits)) == count_set(bits),
        runs_within(runs(bits), 0, bits.len() as int),
{
    let pos = Seq::new(bits.len(), |i: int| i);
    lemma_gather_scan(pos, bits, 0, None);
    assert(pos.subrange(0, 0) + select_from(pos, bits, 0) =~= select_from(pos, bits, 0));
    lemma_sum_scan(bits, 0, None);
    assert(bits.subrange(0, bits.len() as int) =~= bits);
    lemma_scan_within(bits, 0, None);
}

/// Gathering the runs of `mask` from `s` keeps the items whose mask entry is set.
pub proof fn lemma_gather_runs<A>(s: Seq<A>, mask: Seq<bool>)
    requires
        s.len() == mask.len(),
    ensures
        gather(s, runs(mask)) == filtered(s, mask),
{
    lemma_gather_scan(s, mask, 0, None);
    assert(s.subrange(0, 0) + select_from(s, mask, 0) =~= select_from(s, mask, 0));
}


/// Keeping the items of `s` at the set positions of `mask` keeps as many as `mask` has set.
pub proof fn lemma_filtered_len<A>(s: Seq<A>, mask: Seq<bool>)
    requires
        s.len() == mask.len(),
    ensures
        filtered(s, mask).len() == count_set(mask),
{
    lemma_select_len(s, mask, 0);
    assert(mask.subrange(0, mask.len() as int) =~= mask);
}

proof fn lemma_select_len<A>(s: Seq<A>, mask: Seq<bool>, i: int)
    requires
        s.len() == mask.len(),
        0 <= i <= mask.len(),
    ensures
        select_from(s, mask, i).len() == count_set(mask.subrange(i, mask.len() as int)),
    decreases mask.len() - i,
{
    if i < mask.len() {
        lemma_select_len(s, mask, i + 1);
        assert(mask.subrange(i, mask.len() as int).drop_first() =~= mask.subrange(
            i + 1,
            mask.len() as int,
        ));
    }
}


/// The runs `rs` lie within `lo..hi`, in order, without overlapping; some may be empty.
pub open spec fn runs_ordered(rs: Seq<(int, int)>, lo: int, hi: int) -> bool {
    &&& forall|k: int|
        0 <= k < rs.len() ==> lo <= #[trigger] rs[k].0 && rs[k].1 >= 0 && rs[k].0 + rs[k].1 <= hi
    &&& forall|k: int| 0 <= k < rs.len() - 1 ==> #[trigger] rs[k].0 + rs[k].1 <= rs[k + 1].0
}

/// Runs that are separated are ordered.
pub proof fn lemma_within_ordered(rs: Seq<(int, int)>, lo: int, hi: int)
    requires
        runs_within(rs, lo, hi),
    ensures
        runs_ordered(rs, lo, hi),
{
}

/// The first of ordered runs within `lo..hi` lies there, and the others lie after it.
pub proof fn lemma_runs_ordered_cons(r: (int, int), rest: Seq<(int, int)>, lo: int, hi: int)
    requires
        runs_ordered(seq![r] + rest, lo, hi),
    ensures
        lo <= r.0,
        r.1 >= 0,
        r.0 + r.1 <= hi,
        runs_ordered(rest, r.0 + r.1, hi),
{
    let all = seq![r] + rest;
    assert(all[0] == r);
    assert forall|k: int| 0 <= k < rest.len() implies r.0 + r.1 <= #[trigger] rest[k].0
        && rest[k].1 >= 0 && rest[k].0 + rest[k].1 <= hi by {
        assert(rest[k] == all[k + 1]);
        lemma_runs_ordered_chain(all, lo, hi, k + 1);
    }
    assert forall|k: int| 0 <= k < rest.len() - 1 implies #[trigger] rest[k].0 + rest[k].1
        <= rest[k + 1].0 by {
        assert(rest[k] == all[k + 1]);
        assert(rest[k + 1] == all[k + 2]);
    }
}

proof fn lemma_runs_ordered_chain(all: Seq<(int, int)>, lo: int, hi: int, k: int)
    requires
        runs_ordered(all, lo, hi),
        1 <= k < all.len(),
    ensures
        all[0].0 + all[0].1 <= all[k].0,
    decreases k,
{
    if k > 1 {
        lemma_runs_ordered_chain(all, lo, hi, k - 1);
        assert(all[k - 1].0 + all[k - 1].1 <= all[k].0);
    }
}


/// Gathering one more run appends its items.
pub proof fn lemma_gather_push<A>(s: Seq<A>, rs: Seq<(int, int)>, r: (int, int))
    ensures
        gather(s, rs.push(r)) == gather(s, rs) + s.subrange(r.0, r.0 + r.1),
    decreases rs.len(),
{
    if rs.len() == 0 {
        assert(rs.push(r).drop_first() =~= Seq::<(int, int)>::empty());
        assert(gather(s, Seq::<(int, int)>::empty()) == Seq::<A>::empty());
        assert(s.subrange(r.0, r.0 + r.1) + Seq::<A>::empty() =~= s.subrange(r.0, r.0 + r.1));
        assert(Seq::<A>::empty() + s.subrange(r.0, r.0 + r.1) =~= s.subrange(r.0, r.0 + r.1));
    } else {
        assert(rs.push(r).drop_first() =~= rs.drop_first().push(r));
        lemma_gather_push(s, rs.drop_first(), r);
        assert(rs.push(r)[0] == rs[0]);
    }
}

/// Gathering runs of mapped items is mapping the gathered items.
pub proof fn lemma_gather_map<A, B>(s: Seq<A>, f: spec_fn(A) -> B, rs: Seq<(int, int)>)
    requires
        forall|k: int|
            0 <= k < rs.len() ==> 0 <= (#[trigger] rs[k]).0 && 0 <= rs[k].1 && rs[k].0 + rs[k].1
                <= s.len(),
    ensures
        gather(s.map_values(f), rs) == gather(s, rs).map_values(f),
    decreases rs.len(),
{
    if rs.len() == 0 {
        assert(Seq::<A>::empty().map_values(f) =~= Seq::<B>::empty());
    } else {
        let rest = rs.drop_first();
        assert forall|k: int| 0 <= k < rest.len() implies 0 <= (#[trigger] rest[k]).0 && 0
            <= rest[k].1 && rest[k].0 + rest[k].1 <= s.len() by {
            assert(rest[k] == rs[k + 1]);
        }
        lemma_gather_map(s, f, rest);
        let r = rs[0];
        assert(s.map_values(f).subrange(r.0, r.0 + r.1) =~= s.subrange(r.0, r.0 + r.1).map_values(
            f,
        ));
        assert((s.subrange(r.0, r.0 + r.1) + gather(s, rest)).map_values(f) =~= s.subrange(
            r.0,
            r.0 + r.1,
        ).map_values(f) + gather(s, rest).map_values(f));
    }
}

} // verus!
