//! Sets of unique, inclusive physical address ranges with merging, splitting and
//! aligned allocation.
use vstd::prelude::*;

verus! {

/// Maximum number of ranges that a `RangeSet` can hold.
pub const MAX_RANGES: usize = 256;

/// An inclusive range.
#[derive(Copy, Clone, Debug)]
pub struct Range {
    pub start: u64,
    pub end: u64,
}

impl Range {
    /// `a` lies inside this inclusive range.
    pub open spec fn has(self, a: u64) -> bool {
        self.start <= a && a <= self.end
    }

    /// The addresses of this range as a set.
    pub open spec fn addrs(self) -> Set<u64> {
        Set::new(|a: u64| self.has(a))
    }

    /// Get the size of this range.
    pub fn size(&self) -> (s: u64)
        requires
            self.start <= self.end,
            self.end - self.start < u64::MAX,
        ensures
            s == self.end - self.start + 1,
    {
        // Add one because range is inclusive.
        self.end - self.start + 1
    }
}

/// `a` and `b` share at least one address.
pub open spec fn spec_overlaps(a: Range, b: Range) -> bool {
    a.start <= b.end && b.start <= a.end
}

/// `a` contains every address of `b`.
pub open spec fn spec_contains(a: Range, b: Range) -> bool {
    b.start >= a.start && b.end <= a.end
}

/// `a` and `b` overlap or are directly adjacent, so their union is one range.
pub open spec fn touches(a: Range, b: Range) -> bool {
    a.start <= b.end + 1 && b.start <= a.end + 1
}

/// Removing `range` from `cur` leaves a piece on both sides.
pub open spec fn splits(range: Range, cur: Range) -> bool {
    cur.start < range.start && range.end < cur.end
}

/// Some range of `s` holds the address `a`.
pub open spec fn covers(s: Seq<Range>, a: u64) -> bool {
    exists|i: int| 0 <= i < s.len() && #[trigger] s[i].has(a)
}

/// The set of addresses held by the ranges of `s`.
pub open spec fn seq_addrs(s: Seq<Range>) -> Set<u64> {
    Set::new(|a: u64| covers(s, a))
}

/// Every range is well shaped and no two ranges overlap or are adjacent.
pub open spec fn canonical(s: Seq<Range>) -> bool {
    &&& forall|i: int| 0 <= i < s.len() ==> #[trigger] s[i].start <= s[i].end
    &&& forall|i: int, j: int|
        0 <= i < s.len() && 0 <= j < s.len() && i != j ==> !touches(#[trigger] s[i], #[trigger] s[j])
}

/// Every range of a canonical list is a maximal run of its addresses: the addresses just
/// before and after it are not held.
proof fn lemma_canonical_maximal(s: Seq<Range>, i: int)
    requires
        canonical(s),
        0 <= i < s.len(),
    ensures
        s[i].start > 0 ==> !seq_addrs(s).contains((s[i].start - 1) as u64),
        s[i].end < u64::MAX ==> !seq_addrs(s).contains((s[i].end + 1) as u64),
{
    let r = s[i];
    if r.start > 0 && seq_addrs(s).contains((r.start - 1) as u64) {
        let k = choose|k: int| 0 <= k < s.len() && #[trigger] s[k].has((r.start - 1) as u64);
        assert(!touches(s[i], s[k]));
    }
    if r.end < u64::MAX && seq_addrs(s).contains((r.end + 1) as u64) {
        let k = choose|k: int| 0 <= k < s.len() && #[trigger] s[k].has((r.end + 1) as u64);
        assert(!touches(s[i], s[k]));
    }
}

/// `r` is one of the ranges of `s`.
pub open spec fn has_range(s: Seq<Range>, r: Range) -> bool {
    exists|j: int| 0 <= j < s.len() && s[j] == r
}

/// Two canonical range lists that hold the same addresses hold the same ranges: the layout
/// of a range set is fixed by its addresses, up to the order of the entries.
pub proof fn lemma_canonical_unique(s1: Seq<Range>, s2: Seq<Range>)
    requires
        canonical(s1),
        canonical(s2),
        seq_addrs(s1) == seq_addrs(s2),
    ensures
        forall|i: int| 0 <= i < s1.len() ==> has_range(s2, #[trigger] s1[i]),
{
    assert forall|i: int| 0 <= i < s1.len() implies has_range(s2, #[trigger] s1[i]) by {
        let r = s1[i];
        assert(r.has(r.start));
        assert(seq_addrs(s1).contains(r.start));
        let j = choose|j: int| 0 <= j < s2.len() && #[trigger] s2[j].has(r.start);
        let q = s2[j];
        lemma_canonical_maximal(s1, i);
        lemma_canonical_maximal(s2, j);
        if q.start < r.start {
            assert(q.has((r.start - 1) as u64));
            assert(seq_addrs(s2).contains((r.start - 1) as u64));
        }
        if q.end > r.end {
            assert(q.has((r.end + 1) as u64));
            assert(seq_addrs(s2).contains((r.end + 1) as u64));
        }
        if q.end < r.end {
            assert(r.has((q.end + 1) as u64));
            assert(seq_addrs(s1).contains((q.end + 1) as u64));
        }
        assert(q == r);
        assert(s2[j] == r);
    }
}

/// The ranges that `r` does not contain.
pub open spec fn outside(r: Range) -> spec_fn(Range) -> bool {
    |e: Range| !spec_contains(r, e)
}

proof fn lemma_filter_push(x: Seq<Range>, y: Range, q: spec_fn(Range) -> bool)
    ensures
        x.push(y).filter(q) == if q(y) {
            x.filter(q).push(y)
        } else {
            x.filter(q)
        },
{
    reveal(Seq::filter);
    assert(x.push(y).drop_last() =~= x);
}

/// Filtering by what a larger range leaves out after filtering by what a smaller one leaves
/// out is filtering by the larger one alone.
proof fn lemma_filter_outside_twice(s: Seq<Range>, r: Range, r2: Range)
    requires
        spec_contains(r2, r),
    ensures
        s.filter(outside(r)).filter(outside(r2)) == s.filter(outside(r2)),
    decreases s.len(),
{
    if s.len() > 0 {
        let d = s.drop_last();
        lemma_filter_outside_twice(d, r, r2);
        assert(s == d.push(s.last()));
        lemma_filter_push(d, s.last(), outside(r));
        lemma_filter_push(d, s.last(), outside(r2));
        lemma_filter_push(d.filter(outside(r)), s.last(), outside(r2));
    } else {
        reveal(Seq::filter);
    }
}

/// Removing an entry that a filter drops does not change the filtered sequence.
proof fn lemma_filter_remove(s: Seq<Range>, i: int, q: spec_fn(Range) -> bool)
    requires
        0 <= i < s.len(),
        !q(s[i]),
    ensures
        s.remove(i).filter(q) == s.filter(q),
{
    let a = s.take(i);
    let b = s.skip(i + 1);
    assert(s =~= a + seq![s[i]] + b);
    assert(s.remove(i) =~= a + b);
    Seq::filter_distributes_over_add(a + seq![s[i]], b, q);
    Seq::filter_distributes_over_add(a, seq![s[i]], q);
    Seq::filter_distributes_over_add(a, b, q);
    lemma_filter_push(Seq::<Range>::empty(), s[i], q);
    assert(seq![s[i]] =~= Seq::<Range>::empty().push(s[i]));
    reveal(Seq::filter);
    assert(Seq::<Range>::empty().filter(q) =~= Seq::<Range>::empty());
    assert(a.filter(q) + Seq::<Range>::empty() =~= a.filter(q));
}

/// A filter that keeps every entry keeps the sequence.
proof fn lemma_filter_all(s: Seq<Range>, q: spec_fn(Range) -> bool)
    requires
        forall|i: int| 0 <= i < s.len() ==> q(#[trigger] s[i]),
    ensures
        s.filter(q) == s,
    decreases s.len(),
{
    if s.len() > 0 {
        let d = s.drop_last();
        lemma_filter_all(d, q);
        assert(s =~= d.push(s.last()));
        lemma_filter_push(d, s.last(), q);
    } else {
        reveal(Seq::filter);
    }
}

/// What removing `r` leaves of the range `e`: all of it when they do not overlap, nothing
/// when `r` contains it, else the part past `r` (the right part when `r` splits it) or the
/// part before `r`.
pub open spec fn trimmed(r: Range) -> spec_fn(Range) -> Option<Range> {
    |e: Range|
        if !spec_overlaps(r, e) {
            Some(e)
        } else if spec_contains(r, e) {
            None
        } else if r.start <= e.start {
            Some(Range { start: (r.end + 1) as u64, end: e.end })
        } else if r.end >= e.end {
            Some(Range { start: e.start, end: (r.start - 1) as u64 })
        } else {
            Some(Range { start: (r.end + 1) as u64, end: e.end })
        }
}

/// The part before `r` of the range of `s` that `r` splits, if any.
pub open spec fn split_piece(s: Seq<Range>, r: Range) -> Seq<Range> {
    if exists|i: int| 0 <= i < s.len() && #[trigger] splits(r, s[i]) {
        let i = choose|i: int| 0 <= i < s.len() && #[trigger] splits(r, s[i]);
        seq![Range { start: s[i].start, end: (r.start - 1) as u64 }]
    } else {
        Seq::empty()
    }
}

proof fn lemma_filter_map_step(s: Seq<Range>, k: int, f: spec_fn(Range) -> Option<Range>)
    requires
        0 <= k < s.len(),
    ensures
        s.take(k + 1).filter_map(f) == match f(s[k]) {
            Some(x) => s.take(k).filter_map(f) + seq![x],
            None => s.take(k).filter_map(f),
        },
{
    assert(s.take(k + 1).drop_last() =~= s.take(k));
}

/// When `f` keeps every entry from `k` on as it is, they follow the mapped prefix unchanged.
proof fn lemma_filter_map_tail(s: Seq<Range>, k: int, j: int, f: spec_fn(Range) -> Option<Range>)
    requires
        0 <= k <= j <= s.len(),
        forall|i: int| k <= i < s.len() ==> f(#[trigger] s[i]) == Some(s[i]),
    ensures
        s.take(j).filter_map(f) == s.take(k).filter_map(f) + s.subrange(k, j),
    decreases j - k,
{
    if j > k {
        lemma_filter_map_tail(s, k, j - 1, f);
        lemma_filter_map_step(s, j - 1, f);
        assert(s.subrange(k, j) =~= s.subrange(k, j - 1) + seq![s[j - 1]]);
        assert(s.take(k).filter_map(f) + s.subrange(k, j - 1) + seq![s[j - 1]] =~= s.take(k).filter_map(f)
            + s.subrange(k, j));
    } else {
        assert(s.subrange(k, j) =~= Seq::<Range>::empty());
        assert(s.take(k).filter_map(f) + Seq::<Range>::empty() =~= s.take(k).filter_map(f));
    }
}

/// One entry of a removal: the entry at `idx` of `prev` is the old entry `k`, and it is
/// replaced by what the removal leaves of it, or deleted.
proof fn lemma_remove_step(
    old_s: Seq<Range>,
    prev: Seq<Range>,
    next: Seq<Range>,
    idx: int,
    k: int,
    r: Range,
)
    requires
        0 <= idx < prev.len(),
        0 <= k <= old_s.len(),
        prev.take(idx) == old_s.take(k).filter_map(trimmed(r)),
        prev.skip(idx) == old_s.skip(k),
        trimmed(r)(prev[idx]) matches Some(x) ==> next == prev.update(idx, x),
        trimmed(r)(prev[idx]) is None ==> next == prev.remove(idx),
    ensures
        k < old_s.len(),
        prev[idx] == old_s[k],
        trimmed(r)(prev[idx]) is Some ==> next.take(idx + 1) == old_s.take(k + 1).filter_map(trimmed(r))
            && next.skip(idx + 1) == old_s.skip(k + 1),
        trimmed(r)(prev[idx]) is None ==> next.take(idx) == old_s.take(k + 1).filter_map(trimmed(r))
            && next.skip(idx) == old_s.skip(k + 1),
{
    assert(prev.skip(idx).len() > 0);
    assert(prev.skip(idx)[0] == prev[idx]);
    assert(old_s.skip(k)[0] == old_s[k]);
    lemma_filter_map_step(old_s, k, trimmed(r));
    match trimmed(r)(prev[idx]) {
        Some(x) => {
            assert(next.take(idx + 1) =~= prev.take(idx) + seq![x]);
            assert(next.skip(idx + 1) =~= prev.skip(idx).skip(1));
            assert(old_s.skip(k + 1) =~= old_s.skip(k).skip(1));
        },
        None => {
            assert(next.take(idx) =~= prev.take(idx));
            assert(next.skip(idx) =~= prev.skip(idx).skip(1));
            assert(old_s.skip(k + 1) =~= old_s.skip(k).skip(1));
        },
    }
}

/// A removal that went through every entry without splitting one leaves exactly what it
/// left of each entry.
proof fn lemma_remove_done(old_s: Seq<Range>, s: Seq<Range>, idx: int, k: int, r: Range)
    requires
        0 <= k <= old_s.len(),
        idx == s.len(),
        s.take(idx) == old_s.take(k).filter_map(trimmed(r)),
        s.skip(idx) == old_s.skip(k),
        forall|i: int| 0 <= i < k ==> !#[trigger] splits(r, old_s[i]),
    ensures
        s == old_s.filter_map(trimmed(r)) + split_piece(old_s, r),
{
    assert(s.skip(idx).len() == 0);
    assert(k == old_s.len());
    assert(old_s.take(k) =~= old_s);
    assert(s.take(idx) =~= s);
    assert(!exists|i: int| 0 <= i < old_s.len() && #[trigger] splits(r, old_s[i]));
    assert(s + Seq::<Range>::empty() =~= s);
}

/// A removal that splits an entry leaves what it left of the entries before it, the right
/// part in its place, the entries after it, and the left part at the end.
proof fn lemma_remove_split(
    old_s: Seq<Range>,
    prev: Seq<Range>,
    fin: Seq<Range>,
    idx: int,
    k: int,
    r: Range,
)
    requires
        canonical(old_s),
        r.start <= r.end,
        0 <= idx < prev.len(),
        0 <= k <= old_s.len(),
        prev.take(idx) == old_s.take(k).filter_map(trimmed(r)),
        prev.skip(idx) == old_s.skip(k),
        splits(r, prev[idx]),
        fin == prev.update(idx, Range { start: (r.end + 1) as u64, end: prev[idx].end }).push(
            Range { start: prev[idx].start, end: (r.start - 1) as u64 },
        ),
    ensures
        fin == old_s.filter_map(trimmed(r)) + split_piece(old_s, r),
{
    assert(prev.skip(idx).len() > 0);
    let cur = prev[idx];
    assert(prev.skip(idx)[0] == prev[idx]);
    assert(old_s.skip(k)[0] == old_s[k]);
    assert(cur == old_s[k]);
    let right = Range { start: (r.end + 1) as u64, end: cur.end };
    let left = Range { start: cur.start, end: (r.start - 1) as u64 };
    lemma_filter_map_step(old_s, k, trimmed(r));
    assert forall|i: int| k + 1 <= i < old_s.len() implies trimmed(r)(#[trigger] old_s[i]) == Some(old_s[i]) by {
        assert(!touches(old_s[k], old_s[i]));
    }
    lemma_filter_map_tail(old_s, k + 1, old_s.len() as int, trimmed(r));
    assert(old_s.take(old_s.len() as int) =~= old_s);
    assert(splits(r, old_s[k]));
    let i = choose|i: int| 0 <= i < old_s.len() && #[trigger] splits(r, old_s[i]);
    if i != k {
        assert(!touches(old_s[i], old_s[k]));
    }
    assert(split_piece(old_s, r) == seq![left]);
    assert(prev.skip(idx + 1) =~= prev.skip(idx).skip(1));
    assert(old_s.skip(k + 1) =~= old_s.skip(k).skip(1));
    assert(old_s.skip(k + 1) =~= old_s.subrange(k + 1, old_s.len() as int));
    assert(fin =~= prev.take(idx) + seq![right] + prev.skip(idx + 1) + seq![left]);
}

/// Number of set bits of `x`.
pub open spec fn popcount(x: u64) -> nat
    decreases x,
{
    if x == 0 {
        0
    } else {
        (x % 2) as nat + popcount(x / 2)
    }
}

/// Front padding needed to align `start` to `align` (a power of two).
pub open spec fn align_padding(start: u64, align: u64) -> u64 {
    ((align - (start & ((align - 1) as u64))) as u64) & ((align - 1) as u64)
}

/// Inclusive end of an allocation of `size` bytes carved from the front of `r`, counting
/// the padding that aligns its start.
pub open spec fn alloc_end(r: Range, size: u64, align: u64) -> int {
    r.start + (size - 1) + align_padding(r.start, align)
}

/// The highest address an allocation may reach: `max_address` capped to the pointer width.
pub open spec fn effective_max(max_address: Option<u64>) -> u64 {
    match max_address {
        Some(m) => if m < usize::MAX as u64 { m } else { usize::MAX as u64 },
        None => usize::MAX as u64,
    }
}

/// An aligned allocation of `size` bytes fits into `r` below `max`.
pub open spec fn fits(r: Range, size: u64, align: u64, max: u64) -> bool {
    alloc_end(r, size, align) <= r.end && alloc_end(r, size, align) <= max
}

/// Region `a` (with padding `pa` and start alignment `ta`) is strictly preferred to region
/// `b`: it wastes less space, or the same space with a smaller start alignment.
pub open spec fn preferred(pa: u64, ta: u32, pb: u64, tb: u32) -> bool {
    pa < pb || (pa == pb && ta < tb)
}

/// The first region of `s` among those that fit that no fitting region is preferred to.
pub open spec fn is_best_fit(s: Seq<Range>, i: int, size: u64, align: u64, max: u64) -> bool {
    &&& 0 <= i < s.len()
    &&& fits(s[i], size, align, max)
    &&& forall|j: int|
        0 <= j < i && fits(#[trigger] s[j], size, align, max) ==> preferred(
            align_padding(s[i].start, align),
            s[i].start.trailing_zeros(),
            align_padding(s[j].start, align),
            s[j].start.trailing_zeros(),
        )
    &&& forall|j: int|
        i < j < s.len() && fits(#[trigger] s[j], size, align, max) ==> !preferred(
            align_padding(s[j].start, align),
            s[j].start.trailing_zeros(),
            align_padding(s[i].start, align),
            s[i].start.trailing_zeros(),
        )
}

/// What `allocate_limited` does to a set whose entries were `before`: the result `r`, and
/// the entries `after`.
///
/// Nothing is allocated and nothing changes for a zero size, an alignment that is not a
/// power of two, or when the aligned allocation would overflow for some entry. Otherwise an
/// allocation happens exactly when some entry fits; it is carved from the best fitting entry
/// (see `is_best_fit`), the returned address is that entry's start plus its padding, and
/// the entry's front up to the end of the allocation leaves the set.
pub open spec fn allocate_result(
    before: Seq<Range>,
    after: Seq<Range>,
    size: u64,
    align: u64,
    max_address: Option<u64>,
    r: Option<usize>,
) -> bool {
    let max = effective_max(max_address);
    if size == 0 || popcount(align) != 1 || exists|j: int|
        0 <= j < before.len() && alloc_end(#[trigger] before[j], size, align) > u64::MAX {
        r is None && after == before
    } else {
        &&& (r is None <==> forall|j: int| 0 <= j < before.len() ==> !fits(#[trigger] before[j], size, align, max))
        &&& r is None ==> after == before
        &&& r matches Some(addr) ==> exists|i: int| {
            &&& is_best_fit(before, i, size, align, max)
            &&& addr == before[i].start + align_padding(before[i].start, align)
            &&& seq_addrs(after) == seq_addrs(before).difference(
                Range { start: before[i].start, end: alloc_end(before[i], size, align) as u64 }.addrs(),
            )
        }
    }
}

/// A successful allocation hands out `size` bytes at an address aligned to `align`, ending
/// at or below the limit, that were in the set before and are not in it after.
pub proof fn lemma_allocation_sound(
    before: Seq<Range>,
    after: Seq<Range>,
    size: u64,
    align: u64,
    max_address: Option<u64>,
    addr: usize,
)
    requires
        canonical(before),
        allocate_result(before, after, size, align, max_address, Some(addr)),
    ensures
        size > 0,
        (addr as int) % (align as int) == 0,
        addr + size - 1 <= effective_max(max_address),
        forall|a: u64|
            addr <= a <= addr + size - 1 ==> seq_addrs(before).contains(a) && !seq_addrs(
                after,
            ).contains(a),
{
    let max = effective_max(max_address);
    let i = choose|i: int|
        {
            &&& is_best_fit(before, i, size, align, max)
            &&& addr == before[i].start + align_padding(before[i].start, align)
            &&& seq_addrs(after) == seq_addrs(before).difference(
                Range { start: before[i].start, end: alloc_end(before[i], size, align) as u64 }.addrs(),
            )
        };
    let r = before[i];
    lemma_padding_aligns(r.start, align);
    assert forall|a: u64| addr <= a <= addr + size - 1 implies seq_addrs(before).contains(a)
        && !seq_addrs(after).contains(a) by {
        assert(r.has(a));
        assert(covers(before, a));
    }
}

/// Removing a range that was just inserted into a set it did not meet gives the set back.
pub proof fn lemma_remove_undoes_insert(before: Set<u64>, range: Range)
    requires
        before.disjoint(range.addrs()),
    ensures
        before.union(range.addrs()).difference(range.addrs()) == before,
{
    assert(before.union(range.addrs()).difference(range.addrs()) =~= before);
}

/// Inserting a range that was just removed from a set that held all of it gives the set
/// back.
pub proof fn lemma_insert_undoes_remove(before: Set<u64>, range: Range)
    requires
        range.addrs().subset_of(before),
    ensures
        before.difference(range.addrs()).union(range.addrs()) == before,
{
    assert(before.difference(range.addrs()).union(range.addrs()) =~= before);
}

proof fn lemma_popcount_zero(x: u64)
    requires
        popcount(x) == 0,
    ensures
        x == 0,
    decreases x,
{
    if x != 0 {
        lemma_popcount_zero(x / 2);
    }
}

/// A value with exactly one set bit is a power of two.
pub proof fn lemma_popcount_one(x: u64)
    requires
        popcount(x) == 1,
    ensures
        exists|k: u64| k < 64 && x == 1u64 << k,
    decreases x,
{
    if x % 2 == 1 {
        lemma_popcount_zero(x / 2);
        crate::hpet::lemma_no_shift(0);
        assert(x == 1u64 << 0u64);
    } else {
        lemma_popcount_one(x / 2);
        let h = x / 2;
        let k = choose|k: u64| k < 64 && h == 1u64 << k;
        assert(h <= 0x7fff_ffff_ffff_ffffu64);
        assert(k < 63 && (1u64 << k) * 2 == 1u64 << ((k + 1) as u64)) by (bit_vector)
            requires
                k < 64,
                (1u64 << k) <= 0x7fff_ffff_ffff_ffffu64,
        ;
        assert(x == 1u64 << ((k + 1) as u64));
    }
}

/// Start plus alignment padding is a multiple of the alignment.
proof fn lemma_padding_aligns(start: u64, align: u64)
    requires
        popcount(align) == 1,
        start + align_padding(start, align) <= u64::MAX,
    ensures
        (start + align_padding(start, align)) % (align as int) == 0,
{
    lemma_popcount_one(align);
    let k = choose|k: u64| k < 64 && align == 1u64 << k;
    let pad = align_padding(start, align);
    let sum = (start + pad) as u64;
    assert(sum & ((align - 1) as u64) == 0) by (bit_vector)
        requires
            k < 64,
            align == 1u64 << k,
            pad == ((align - (start & ((align - 1) as u64))) as u64) & ((align - 1) as u64),
            sum == start + pad,
    ;
    vstd::bits::lemma_u64_pow2_no_overflow(k as nat);
    vstd::bits::lemma_u64_shl_is_mul(1, k);
    vstd::bits::lemma_u64_low_bits_mask_is_mod(sum, k as nat);
}

/// Count the set bits of `x`.
fn count_ones(x: u64) -> (c: u32)
    ensures
        c == popcount(x),
{
    let mut c: u32 = 0;
    let mut v = x;
    let mut i: u32 = 0;
    proof {
        vstd::arithmetic::power2::lemma2_to64();
    }
    while i < 64
        invariant
            i <= 64,
            c <= i,
            c + popcount(v) == popcount(x),
            (v as int) < vstd::arithmetic::power2::pow2((64 - i) as nat),
        decreases 64 - i,
    {
        proof {
            vstd::arithmetic::power2::lemma_pow2_unfold((64 - i) as nat);
            assert(v & 1 == v % 2 && v >> 1 == v / 2) by (bit_vector);
        }
        c = c + (v & 1) as u32;
        v = v >> 1;
        i = i + 1;
    }
    proof {
        vstd::arithmetic::power2::lemma2_to64();
    }
    c
}

/// Check if `a` overlaps `b`.
fn overlaps(a: Range, b: Range) -> (r: bool)
    ensures
        r == spec_overlaps(a, b),
{
    a.start <= b.end && b.start <= a.end
}

/// Check if `a` contains `b`.
fn contains(a: Range, b: Range) -> (r: bool)
    ensures
        r == spec_contains(a, b),
{
    b.start >= a.start && b.end <= a.end
}

proof fn lemma_covers_remove(s: Seq<Range>, i: int)
    requires
        0 <= i < s.len(),
    ensures
        forall|a: u64| #[trigger] covers(s, a) <==> (covers(s.remove(i), a) || s[i].has(a)),
{
    s.remove_ensures(i);
    assert forall|a: u64| #[trigger] covers(s, a) <==> (covers(s.remove(i), a) || s[i].has(a)) by {
        if covers(s, a) {
            let k = choose|k: int| 0 <= k < s.len() && #[trigger] s[k].has(a);
            if k < i {
                assert(s.remove(i)[k].has(a));
            } else if k > i {
                assert(s.remove(i)[k - 1].has(a));
            }
        }
        if covers(s.remove(i), a) {
            let k = choose|k: int| 0 <= k < s.remove(i).len() && #[trigger] s.remove(i)[k].has(a);
            if k < i {
                assert(s[k].has(a));
            } else {
                assert(s[k + 1].has(a));
            }
        }
    }
}

proof fn lemma_covers_push(s: Seq<Range>, r: Range)
    ensures
        forall|a: u64| #[trigger] covers(s.push(r), a) <==> (covers(s, a) || r.has(a)),
{
    assert forall|a: u64| #[trigger] covers(s.push(r), a) <==> (covers(s, a) || r.has(a)) by {
        if covers(s, a) {
            let k = choose|k: int| 0 <= k < s.len() && #[trigger] s[k].has(a);
            assert(s.push(r)[k].has(a));
        }
        if r.has(a) {
            assert(s.push(r)[s.len() as int].has(a));
        }
        if covers(s.push(r), a) {
            let k = choose|k: int| 0 <= k < s.push(r).len() && #[trigger] s.push(r)[k].has(a);
            if k < s.len() {
                assert(s[k].has(a));
            }
        }
    }
}

proof fn lemma_covers_update(s: Seq<Range>, i: int, r: Range)
    requires
        0 <= i < s.len(),
    ensures
        forall|a: u64|
            #[trigger] covers(s.update(i, r), a) <==> (covers(s.remove(i), a) || r.has(a)),
{
    let t = s.update(i, r);
    lemma_covers_remove(t, i);
    assert(t.remove(i) =~= s.remove(i));
}

proof fn lemma_covers_trim(s: Seq<Range>, i: int, r: Range, cut: Range)
    requires
        0 <= i < s.len(),
        forall|a: u64| r.has(a) ==> s[i].has(a),
        forall|a: u64| s[i].has(a) && !cut.has(a) ==> r.has(a),
    ensures
        forall|a: u64| #[trigger] covers(s.update(i, r), a) ==> covers(s, a),
        forall|a: u64| !cut.has(a) ==> (#[trigger] covers(s.update(i, r), a) <==> covers(s, a)),
{
    lemma_covers_update(s, i, r);
    lemma_covers_remove(s, i);
}

proof fn lemma_canonical_remove(s: Seq<Range>, i: int)
    requires
        0 <= i < s.len(),
        canonical(s),
    ensures
        canonical(s.remove(i)),
{
    s.remove_ensures(i);
    let t = s.remove(i);
    assert forall|p: int, q: int| 0 <= p < t.len() && 0 <= q < t.len() && p != q implies !touches(
        #[trigger] t[p],
        #[trigger] t[q],
    ) by {
        let pp = if p < i { p } else { p + 1 };
        let qq = if q < i { q } else { q + 1 };
        assert(t[p] == s[pp]);
        assert(t[q] == s[qq]);
    }
    assert forall|p: int| 0 <= p < t.len() implies #[trigger] t[p].start <= t[p].end by {
        if p < i {
            assert(t[p] == s[p]);
        } else {
            assert(t[p] == s[p + 1]);
        }
    }
}

/// Set of unique, inclusive ranges.
#[derive(Clone)]
pub struct RangeSet {
    /// All used ranges, at most `MAX_RANGES` of them.
    ranges: Vec<Range>,
}

impl View for RangeSet {
    type V = Set<u64>;

    open spec fn view(&self) -> Set<u64> {
        seq_addrs(self.entry_seq())
    }
}

impl RangeSet {
    /// The used ranges, in the order `entries` returns them.
    pub closed spec fn entry_seq(&self) -> Seq<Range> {
        self.ranges@
    }

    /// The set holds at most `MAX_RANGES` ranges, each well shaped, and no two of them
    /// overlap or are adjacent.
    pub open spec fn wf(&self) -> bool {
        &&& self.entry_seq().len() <= MAX_RANGES
        &&& canonical(self.entry_seq())
    }

    /// Two range sets that hold the same addresses have the same entries, in some order:
    /// whatever was inserted and removed to get there.
    pub proof fn lemma_entries_fixed(a: &Self, b: &Self)
        requires
            a.wf(),
            b.wf(),
            a@ == b@,
        ensures
            forall|i: int|
                0 <= i < a.entry_seq().len() ==> has_range(b.entry_seq(), #[trigger] a.entry_seq()[i]),
            forall|i: int|
                0 <= i < b.entry_seq().len() ==> has_range(a.entry_seq(), #[trigger] b.entry_seq()[i]),
    {
        lemma_canonical_unique(a.entry_seq(), b.entry_seq());
        lemma_canonical_unique(b.entry_seq(), a.entry_seq());
    }

    /// Create a new, empty `RangeSet`.
    pub fn new() -> (rs: Self)
        ensures
            rs.wf(),
            rs.entry_seq().len() == 0,
            rs@ == Set::<u64>::empty(),
    {
        let rs = Self { ranges: Vec::new() };
        assert(rs@ =~= Set::<u64>::empty());
        rs
    }

    /// Get all used ranges in this `RangeSet`.
    pub fn entries(&self) -> (e: &[Range])
        ensures
            e@ == self.entry_seq(),
    {
        self.ranges.as_slice()
    }

    /// Insert inclusive range to `RangeSet`. This function will handle possible merges:
    /// every entry that overlaps or touches `range` is folded into one entry.
    pub fn insert(&mut self, range: Range)
        requires
            old(self).wf(),
            range.start <= range.end,
            old(self).entry_seq().len() < MAX_RANGES || exists|i: int|
                0 <= i < old(self).entry_seq().len() && touches(
                    range,
                    #[trigger] old(self).entry_seq()[i],
                ),
        ensures
            final(self).wf(),
            final(self)@ == old(self)@.union(range.addrs()),
            final(self).entry_seq().len() >= 1,
            spec_contains(final(self).entry_seq().last(), range),
            final(self).entry_seq().len() <= old(self).entry_seq().len() + 1,
            final(self).entry_seq() == old(self).entry_seq().filter(
                outside(final(self).entry_seq().last()),
            ).push(final(self).entry_seq().last()),
    {
        let ghost old_s = self.ranges@;
        let ghost orig = range;
        let mut range = range;

        loop
            invariant
                canonical(self.ranges@),
                self.ranges@.len() <= old_s.len(),
                old_s.len() <= MAX_RANGES,
                range.start <= range.end,
                spec_contains(range, orig),
                forall|a: u64|
                    (#[trigger] covers(self.ranges@, a) || range.has(a)) <==> (covers(old_s, a)
                        || orig.has(a)),
                self.ranges@.len() == old_s.len() ==> (self.ranges@ == old_s && range == orig),
                old_s.len() < MAX_RANGES || exists|i: int|
                    0 <= i < old_s.len() && touches(orig, #[trigger] old_s[i]),
                old_s.filter(outside(range)) == self.ranges@.filter(outside(range)),
            ensures
                forall|j: int| 0 <= j < self.ranges@.len() ==> !touches(range, #[trigger] self.ranges@[j]),
                old_s.filter(outside(range)) == self.ranges@.filter(outside(range)),
            decreases self.ranges@.len(),
        {
            let mut idx: usize = 0;
            let mut found = false;
            while idx < self.ranges.len()
                invariant_except_break
                    !found,
                    forall|j: int| 0 <= j < idx ==> !touches(range, #[trigger] self.ranges@[j]),
                invariant
                    idx <= self.ranges@.len(),
                ensures
                    found ==> idx < self.ranges@.len() && touches(range, self.ranges@[idx as int]),
                    !found ==> forall|j: int|
                        0 <= j < self.ranges@.len() ==> !touches(range, #[trigger] self.ranges@[j]),
                decreases self.ranges@.len() - idx,
            {
                let current = self.ranges[idx];

                // If this entry doesn't overlap or touch the range to insert then we
                // can't do anything.
                if overlaps(
                    Range { start: range.start, end: range.end.saturating_add(1) },
                    Range { start: current.start, end: current.end.saturating_add(1) },
                ) {
                    found = true;
                    break;
                }
                idx += 1;
            }

            // Stop if we haven't found any more merges in the whole set.
            if !found {
                break;
            }

            let current = self.ranges[idx];
            let ghost prev_s = self.ranges@;
            let ghost prev_range = range;

            // Make this range a combination of 2 overlapping entries.
            range.start = if range.start < current.start { range.start } else { current.start };
            range.end = if range.end > current.end { range.end } else { current.end };

            // This entry can be deleted, because `range` fully contains it now.
            self.delete_entry(idx);

            proof {
                lemma_covers_remove(prev_s, idx as int);
                lemma_canonical_remove(prev_s, idx as int);
                assert forall|a: u64|
                    (#[trigger] covers(self.ranges@, a) || range.has(a)) <==> (covers(old_s, a)
                        || orig.has(a)) by {
                    assert(covers(prev_s, a) <==> (covers(self.ranges@, a) || current.has(a)));
                    assert(range.has(a) <==> (prev_range.has(a) || current.has(a)));
                }
                lemma_filter_outside_twice(old_s, prev_range, range);
                lemma_filter_outside_twice(prev_s, prev_range, range);
                lemma_filter_remove(prev_s, idx as int, outside(range));
            }
        }

        let ghost before_add = self.ranges@;
        proof {
            assert forall|j: int| 0 <= j < before_add.len() implies outside(range)(#[trigger] before_add[j]) by {
                assert(!touches(range, before_add[j]));
                assert(before_add[j].start <= before_add[j].end);
            }
            lemma_filter_all(before_add, outside(range));
            if self.ranges@.len() == old_s.len() {
                if !(old_s.len() < MAX_RANGES) {
                    let i = choose|i: int| 0 <= i < old_s.len() && touches(orig, #[trigger] old_s[i]);
                    assert(!touches(range, self.ranges@[i]));
                }
            }
        }
        self.add_entry(range);
        proof {
            lemma_covers_push(before_add, range);
            let s = self.ranges@;
            assert forall|p: int, q: int| 0 <= p < s.len() && 0 <= q < s.len() && p != q implies !touches(
                #[trigger] s[p],
                #[trigger] s[q],
            ) by {
                if p == before_add.len() {
                    assert(!touches(range, before_add[q]));
                } else if q == before_add.len() {
                    assert(!touches(range, before_add[p]));
                } else {
                    assert(s[p] == before_add[p]);
                    assert(s[q] == before_add[q]);
                }
            }
            assert forall|p: int| 0 <= p < s.len() implies #[trigger] s[p].start <= s[p].end by {
                if p < before_add.len() {
                    assert(s[p] == before_add[p]);
                }
            }
            assert(self@ =~= seq_addrs(old_s).union(orig.addrs()));
        }
    }

    /// Remove inclusive range from `RangeSet`. This function will handle possible cutoffs and
    /// splits.
    pub fn remove(&mut self, range: Range)
        requires
            old(self).wf(),
            range.start <= range.end,
            old(self).entry_seq().len() < MAX_RANGES || forall|i: int|
                0 <= i < old(self).entry_seq().len() ==> !splits(
                    range,
                    #[trigger] old(self).entry_seq()[i],
                ),
        ensures
            final(self).wf(),
            final(self)@ == old(self)@.difference(range.addrs()),
            final(self).entry_seq().len() <= old(self).entry_seq().len() + 1,
            final(self).entry_seq() == old(self).entry_seq().filter_map(trimmed(range)) + split_piece(
                old(self).entry_seq(),
                range,
            ),
    {
        let ghost old_s = self.ranges@;
        let mut idx: usize = 0;
        let ghost mut k: int = 0;
        proof {
            assert(self.ranges@.take(0) =~= Seq::<Range>::empty());
            assert(old_s.take(0) =~= Seq::<Range>::empty());
            assert(self.ranges@.skip(0) =~= self.ranges@);
            assert(old_s.skip(0) =~= old_s);
            if self.ranges@.len() == 0 {
                lemma_remove_done(old_s, self.ranges@, 0, 0, range);
            }
        }

        while idx < self.ranges.len()
            invariant_except_break
                self.ranges@.len() <= old_s.len(),
                forall|j: int| 0 <= j < idx ==> !spec_overlaps(range, #[trigger] self.ranges@[j]),
                forall|j: int| idx <= j < self.ranges@.len() ==> old_s.contains(#[trigger] self.ranges@[j]),
                0 <= k <= old_s.len(),
                self.ranges@.take(idx as int) == old_s.take(k).filter_map(trimmed(range)),
                self.ranges@.skip(idx as int) == old_s.skip(k),
                forall|i: int| 0 <= i < k ==> !#[trigger] splits(range, old_s[i]),
                canonical(old_s),
                idx == self.ranges@.len() ==> self.ranges@ == old_s.filter_map(trimmed(range))
                    + split_piece(old_s, range),
            invariant
                idx <= self.ranges@.len(),
                self.ranges@.len() <= old_s.len() + 1,
                self.ranges@.len() <= MAX_RANGES,
                old_s.len() <= MAX_RANGES,
                canonical(self.ranges@),
                range.start <= range.end,
                forall|a: u64| #[trigger] covers(self.ranges@, a) ==> covers(old_s, a),
                forall|a: u64| !range.has(a) ==> (#[trigger] covers(self.ranges@, a) <==> covers(old_s, a)),
                old_s.len() < MAX_RANGES || forall|i: int|
                    0 <= i < old_s.len() ==> !splits(range, #[trigger] old_s[i]),
            ensures
                forall|j: int| 0 <= j < self.ranges@.len() ==> !spec_overlaps(range, #[trigger] self.ranges@[j]),
                self.ranges@ == old_s.filter_map(trimmed(range)) + split_piece(old_s, range),
            decreases self.ranges@.len() - idx,
        {
            let current = self.ranges[idx];
            let ghost prev_s = self.ranges@;

            // If this entry doesn't overlap the range to remove then we can't do anything.
            if !overlaps(range, current) {
                proof {
                    assert(prev_s.update(idx as int, current) =~= prev_s);
                    lemma_remove_step(old_s, prev_s, self.ranges@, idx as int, k, range);
                    k = k + 1;
                }
                idx += 1;
                proof {
                    if idx == self.ranges@.len() {
                        lemma_remove_done(old_s, self.ranges@, idx as int, k, range);
                    }
                }
            } else if contains(range, current) {
                // If this entry is entirely contained by the range to remove, then we
                // can just delete it.
                self.delete_entry(idx);
                proof {
                    lemma_remove_step(old_s, prev_s, self.ranges@, idx as int, k, range);
                    k = k + 1;
                    if idx == self.ranges@.len() {
                        lemma_remove_done(old_s, self.ranges@, idx as int, k, range);
                    }
                    lemma_covers_remove(prev_s, idx as int);
                    lemma_canonical_remove(prev_s, idx as int);
                    prev_s.remove_ensures(idx as int);
                    assert forall|a: u64| #[trigger] covers(self.ranges@, a) implies covers(prev_s, a) by {}
                    assert forall|a: u64| !range.has(a) implies (#[trigger] covers(self.ranges@, a) <==> covers(prev_s, a)) by {}
                    assert forall|j: int| idx <= j < self.ranges@.len() implies old_s.contains(
                        #[trigger] self.ranges@[j],
                    ) by {
                        assert(self.ranges@[j] == prev_s[j + 1]);
                    }
                }
            } else if range.start <= current.start {
                // There is only partial overlap.
                // current:     XXXXXXX
                // range:    YYYYYY
                self.ranges.set(idx, Range { start: range.end.saturating_add(1), end: current.end });
                proof {
                    lemma_remove_step(old_s, prev_s, self.ranges@, idx as int, k, range);
                    k = k + 1;
                    lemma_covers_trim(prev_s, idx as int, self.ranges@[idx as int], range);
                    self.lemma_update_canonical(prev_s, idx as int);
                    assert forall|a: u64| #[trigger] covers(self.ranges@, a) implies covers(prev_s, a) by {}
                    assert forall|a: u64| !range.has(a) implies (#[trigger] covers(self.ranges@, a) <==> covers(prev_s, a)) by {}
                }
                idx += 1;
                proof {
                    if idx == self.ranges@.len() {
                        lemma_remove_done(old_s, self.ranges@, idx as int, k, range);
                    }
                }
            } else if range.end >= current.end {
                // current:  XXXXXXX
                // range:       YYYYYYY
                self.ranges.set(idx, Range { start: current.start, end: range.start.saturating_sub(1) });
                proof {
                    lemma_remove_step(old_s, prev_s, self.ranges@, idx as int, k, range);
                    k = k + 1;
                    lemma_covers_trim(prev_s, idx as int, self.ranges@[idx as int], range);
                    self.lemma_update_canonical(prev_s, idx as int);
                    assert forall|a: u64| #[trigger] covers(self.ranges@, a) implies covers(prev_s, a) by {}
                    assert forall|a: u64| !range.has(a) implies (#[trigger] covers(self.ranges@, a) <==> covers(prev_s, a)) by {}
                }
                idx += 1;
                proof {
                    if idx == self.ranges@.len() {
                        lemma_remove_done(old_s, self.ranges@, idx as int, k, range);
                    }
                }
            } else {
                // current:  XXXXXXXXXXXXXXX
                // range:        YYYYYY

                // Create right split entry.
                self.ranges.set(idx, Range { start: range.end.saturating_add(1), end: current.end });
                let ghost mid_s = self.ranges@;
                proof {
                    lemma_covers_update(prev_s, idx as int, self.ranges@[idx as int]);
                    lemma_covers_remove(prev_s, idx as int);
                    self.lemma_update_canonical(prev_s, idx as int);
                    if !(old_s.len() < MAX_RANGES) {
                        let k = choose|k: int| 0 <= k < old_s.len() && old_s[k] == current;
                        assert(splits(range, old_s[k]));
                    }
                }

                // Create left split entry.
                let left = Range { start: current.start, end: range.start.saturating_sub(1) };
                self.add_entry(left);
                proof {
                    lemma_covers_push(mid_s, left);
                    let s = self.ranges@;
                    assert forall|a: u64| #[trigger] covers(s, a) <==> (covers(prev_s, a) && !range.has(a)) by {
                        assert(covers(s, a) <==> (covers(mid_s, a) || left.has(a)));
                        assert(covers(mid_s, a) <==> (covers(prev_s.remove(idx as int), a) || mid_s[idx as int].has(a)));
                        assert(covers(prev_s, a) <==> (covers(prev_s.remove(idx as int), a) || current.has(a)));
                    }
                    assert forall|p: int, q: int| 0 <= p < s.len() && 0 <= q < s.len() && p != q implies !touches(
                        #[trigger] s[p],
                        #[trigger] s[q],
                    ) by {
                        if p == mid_s.len() {
                            if q != idx {
                                assert(!touches(current, prev_s[q]));
                            }
                        } else if q == mid_s.len() {
                            if p != idx {
                                assert(!touches(current, prev_s[p]));
                            }
                        } else {
                            assert(s[p] == mid_s[p]);
                            assert(s[q] == mid_s[q]);
                        }
                    }
                    assert forall|p: int| 0 <= p < s.len() implies #[trigger] s[p].start <= s[p].end by {
                        if p < mid_s.len() {
                            assert(s[p] == mid_s[p]);
                        }
                    }
                    assert forall|j: int| 0 <= j < s.len() implies !spec_overlaps(range, #[trigger] s[j]) by {
                        if j < idx {
                            assert(s[j] == prev_s[j]);
                        } else if j > idx && j < mid_s.len() {
                            assert(s[j] == prev_s[j]);
                            assert(!touches(current, prev_s[j]));
                        }
                    }
                    lemma_remove_split(old_s, prev_s, s, idx as int, k, range);
                }
                break;
            }
        }
        proof {
            assert(self@ =~= seq_addrs(old_s).difference(range.addrs()));
        }
    }

    /// Allocate `size` bytes aligned to `align` anywhere in the address space.
    pub fn allocate(&mut self, size: u64, align: u64) -> (r: Option<usize>)
        requires
            old(self).wf(),
        ensures
            final(self).wf(),
            allocate_result(old(self).entry_seq(), final(self).entry_seq(), size, align, None, r),
    {
        self.allocate_limited(size, align, None)
    }

    /// Allocate `size` bytes aligned to `align` so that the whole allocation lies at or below
    /// `max_address` (and below the pointer width). The region that wastes the least space on
    /// padding is used, ties going to the smaller start alignment and then to the earlier
    /// entry; the padding in front of the allocation is taken out of the set too.
    pub fn allocate_limited(&mut self, size: u64, align: u64, max_address: Option<u64>) -> (r:
        Option<usize>)
        requires
            old(self).wf(),
        ensures
            final(self).wf(),
            allocate_result(
                old(self).entry_seq(),
                final(self).entry_seq(),
                size,
                align,
                max_address,
                r,
            ),
    {
        let ghost s = self.ranges@;
        let ghost max_opt = max_address;

        // Zero-sized allocations are not allowed.
        if size == 0 {
            return None;
        }

        // Make sure that alignment is power of two.
        if count_ones(align) != 1 {
            return None;
        }

        // Calculate alignment mask, this can be done because alignment is always power of two.
        let align_mask = align - 1;

        let max_address = match max_address {
            Some(m) => m,
            None => usize::MAX as u64,
        };
        let max_address = if max_address < usize::MAX as u64 {
            max_address
        } else {
            usize::MAX as u64
        };

        let mut allocation: Option<(u64, u32, u64, u64)> = None;
        let ghost mut best: int = 0;

        // Try to find the best region for new allocation.
        let mut idx: usize = 0;
        while idx < self.ranges.len()
            invariant
                self.ranges@ == s,
                canonical(s),
                s.len() <= MAX_RANGES,
                idx <= s.len(),
                size != 0,
                popcount(align) == 1,
                align_mask == align - 1,
                max_address == effective_max(max_opt),
                forall|j: int| 0 <= j < idx ==> alloc_end(#[trigger] s[j], size, align) <= u64::MAX,
                allocation is None ==> forall|j: int|
                    0 <= j < idx ==> !fits(#[trigger] s[j], size, align, max_address),
                allocation is Some ==> {
                    &&& 0 <= best < idx
                    &&& is_best_fit(s.take(idx as int), best, size, align, max_address)
                    &&& allocation == Some(
                        (
                            align_padding(s[best].start, align),
                            s[best].start.trailing_zeros(),
                            s[best].start,
                            alloc_end(s[best], size, align) as u64,
                        ),
                    )
                },
            decreases s.len() - idx,
        {
            let current = self.ranges[idx];

            // Calculate the amount of bytes required for front padding to satisfy
            // alignment requirements.
            let cs = current.start;
            proof {
                assert(cs & align_mask <= align_mask) by (bit_vector);
            }
            let padding = (align - (cs & align_mask)) & align_mask;

            // Calculate the actual end of allocation accounting for alignment.
            let actual_end = match current.start.checked_add(size - 1) {
                Some(e) => match e.checked_add(padding) {
                    Some(e) => e,
                    None => return None,
                },
                None => return None,
            };

            // Make sure that the allocation will fit in this region and that this memory can
            // be accessed by the processor in its current state.
            if actual_end <= current.end && actual_end <= max_address {
                // Get the power of 2 of this region alignment.
                let region_align_power = current.start.trailing_zeros();

                // Check if this region is better than current best.
                let replace = match allocation {
                    Some(allocation) => {
                        if allocation.0 == padding {
                            // If both regions waste the same amount of space, pick one with
                            // smaller alignment.
                            allocation.1 > region_align_power
                        } else {
                            // Choose region which wastes less space.
                            allocation.0 > padding
                        }
                    },
                    None => true,
                };

                // Current region is better then the previous best, replace it.
                if replace {
                    allocation = Some((padding, region_align_power, current.start, actual_end));
                    proof {
                        best = idx as int;
                    }
                }
            }
            proof {
                let t = s.take(idx as int + 1);
                assert(t[idx as int] == current);
                assert forall|j: int| 0 <= j < idx implies #[trigger] t[j] == s[j] by {}
                assert forall|j: int| 0 <= j < idx implies #[trigger] s.take(idx as int)[j] == s[j] by {}
            }
            idx += 1;
        }

        proof {
            assert(s.take(s.len() as int) =~= s);
        }

        match allocation {
            Some((padding, _, start, end)) => {
                // We found good region to allocate and it should be removed from the set.
                // Although padding space is not used, we will remove it too to avoid too big
                // fragmentation in the set.
                proof {
                    assert forall|i: int| 0 <= i < s.len() implies !splits(
                        Range { start, end },
                        #[trigger] s[i],
                    ) by {
                        if i != best {
                            assert(!touches(s[i], s[best]));
                        }
                    }
                }
                self.remove(Range { start, end });

                // Align address before returning it.
                Some((start + padding) as usize)
            },
            None => None,
        }
    }

    /// Replacing the entry at `i` by a part of it keeps the ranges canonical.
    proof fn lemma_update_canonical(&self, prev: Seq<Range>, i: int)
        requires
            0 <= i < prev.len(),
            canonical(prev),
            self.ranges@.len() == prev.len(),
            forall|j: int| 0 <= j < prev.len() && j != i ==> self.ranges@[j] == prev[j],
            self.ranges@[i].start <= self.ranges@[i].end,
            spec_contains(prev[i], self.ranges@[i]),
        ensures
            canonical(self.ranges@),
    {
        let s = self.ranges@;
        assert forall|p: int, q: int| 0 <= p < s.len() && 0 <= q < s.len() && p != q implies !touches(
            #[trigger] s[p],
            #[trigger] s[q],
        ) by {
            assert(!touches(prev[p], prev[q]));
        }
        assert forall|p: int| 0 <= p < s.len() implies #[trigger] s[p].start <= s[p].end by {
            if p != i {
                assert(s[p] == prev[p]);
            }
        }
    }

    /// Push an entry to the `RangeSet`.
    fn add_entry(&mut self, range: Range)
        requires
            old(self).entry_seq().len() < MAX_RANGES,
        ensures
            final(self).entry_seq() == old(self).entry_seq().push(range),
    {
        // Insert range to the end of the list.
        self.ranges.push(range);
    }

    /// Delete an entry from the `RangeSet`, keeping the order of the others.
    fn delete_entry(&mut self, to_delete: usize)
        requires
            to_delete < old(self).entry_seq().len(),
        ensures
            final(self).entry_seq() == old(self).entry_seq().remove(to_delete as int),
    {
        self.ranges.remove(to_delete);
    }
}

} // verus!
