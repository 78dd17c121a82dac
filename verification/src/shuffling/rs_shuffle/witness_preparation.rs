//! Witness preparation for the radix-sort shuffle (prover side).
//!
//! A level takes the sorted rows of the previous level and one bit per row.
//! Within each bucket, rows with bit 0 move to the front and rows with bit 1
//! to the back, each group keeping its order; bucket `c` splits into buckets
//! `2c` (zeros) and `2c + 1` (ones).

use vstd::prelude::*;

use super::data_structures::{SortedRow, UnsortedRow, WitnessData};

verus! {

broadcast use vstd::array::group_array_axioms;

// ---------------------------------------------------------------------------
// Specification of one level
// ---------------------------------------------------------------------------

/// Number of rows in `[lo, hi)` that belong to bucket `c` and carry `bit`.
pub open spec fn count_rows(p: Seq<SortedRow>, b: Seq<bool>, c: u16, bit: bool, lo: int, hi: int) -> nat
    decreases hi - lo,
{
    if hi <= lo {
        0
    } else {
        count_rows(p, b, c, bit, lo, hi - 1) + if p[hi - 1].bucket == c && b[hi - 1] == bit {
            1nat
        } else {
            0nat
        }
    }
}

/// First index below `n` whose row belongs to bucket `c`.
pub open spec fn first_occurrence(p: Seq<SortedRow>, c: u16, n: int) -> Option<int>
    decreases n,
{
    if n <= 0 {
        None
    } else {
        match first_occurrence(p, c, n - 1) {
            Some(k) => Some(k),
            None => if p[n - 1].bucket == c {
                Some(n - 1)
            } else {
                None
            },
        }
    }
}

/// Start of the run of equal bucket ids that contains row `i`.
pub open spec fn run_start(p: Seq<SortedRow>, i: int) -> int
    decreases i,
{
    if i <= 0 {
        0
    } else if p[i - 1].bucket != p[i].bucket {
        i
    } else {
        run_start(p, i - 1)
    }
}

/// Number of rows of bucket `c` with bit 0.
pub open spec fn bucket_zeros(p: Seq<SortedRow>, b: Seq<bool>, c: u16) -> nat {
    count_rows(p, b, c, false, 0, p.len() as int)
}

/// Number of rows of bucket `c` with bit 1.
pub open spec fn bucket_ones(p: Seq<SortedRow>, b: Seq<bool>, c: u16) -> nat {
    count_rows(p, b, c, true, 0, p.len() as int)
}

/// Position of the first row of bucket `c` (0 when the bucket is absent).
pub open spec fn bucket_start(p: Seq<SortedRow>, c: u16) -> int {
    match first_occurrence(p, c, p.len() as int) {
        Some(k) => k,
        None => 0,
    }
}

/// Zeros seen before row `i` in its run.
pub open spec fn zeros_before(p: Seq<SortedRow>, b: Seq<bool>, i: int) -> nat {
    count_rows(p, b, p[i].bucket, false, run_start(p, i), i)
}

/// Ones seen before row `i` in its run.
pub open spec fn ones_before(p: Seq<SortedRow>, b: Seq<bool>, i: int) -> nat {
    count_rows(p, b, p[i].bucket, true, run_start(p, i), i)
}

/// Destination slot of row `i`: a zero goes after the zeros before it, a
/// one after all zeros of its bucket and the ones before it.
pub open spec fn destination(p: Seq<SortedRow>, b: Seq<bool>, i: int) -> int {
    bucket_start(p, p[i].bucket) + if !b[i] {
        zeros_before(p, b, i) as int
    } else {
        (bucket_zeros(p, b, p[i].bucket) + ones_before(p, b, i)) as int
    }
}

/// Destination slots of all rows.
pub open spec fn destinations(p: Seq<SortedRow>, b: Seq<bool>) -> Seq<int> {
    Seq::new(p.len(), |i: int| destination(p, b, i))
}

/// Bucket id of the next level for a row of bucket `c` with bit `bit`.
pub open spec fn next_bucket(c: u16, bit: bool) -> int {
    2 * c + if bit {
        1int
    } else {
        0int
    }
}

/// The unsorted row that the level records for row `i`.
pub open spec fn unsorted_row(p: Seq<SortedRow>, b: Seq<bool>, i: int) -> UnsortedRow {
    let c = p[i].bucket;
    UnsortedRow {
        bit: b[i],
        num_zeros: zeros_before(p, b, i) as u16,
        num_ones: ones_before(p, b, i) as u16,
        num_zeros_in_bucket: bucket_zeros(p, b, c) as u16,
        bucket_length: (bucket_zeros(p, b, c) + bucket_ones(p, b, c)) as u16,
        idx: p[i].idx,
        next_pos: destination(p, b, i) as u16,
        bucket_id: c,
    }
}

/// The sorted row that row `i` becomes in the next level.
pub open spec fn moved_row(p: Seq<SortedRow>, b: Seq<bool>, i: int) -> SortedRow {
    let c = p[i].bucket;
    SortedRow {
        idx: p[i].idx,
        length: (if b[i] {
            bucket_ones(p, b, c)
        } else {
            bucket_zeros(p, b, c)
        }) as u16,
        bucket: next_bucket(c, b[i]) as u16,
    }
}

/// Row `k` comes before row `i` in a stable sort by `keys`.
pub open spec fn sorts_before(keys: Seq<int>, k: int, i: int) -> bool {
    keys[k] < keys[i] || (keys[k] == keys[i] && k < i)
}

/// Number of rows below `hi` that come before row `i` in a stable sort.
pub open spec fn rank_prefix(keys: Seq<int>, i: int, hi: int) -> nat
    decreases hi,
{
    if hi <= 0 {
        0
    } else {
        rank_prefix(keys, i, hi - 1) + if sorts_before(keys, hi - 1, i) {
            1nat
        } else {
            0nat
        }
    }
}

/// Position of row `i` after a stable sort by `keys`.
pub open spec fn stable_rank(keys: Seq<int>, i: int) -> nat {
    rank_prefix(keys, i, keys.len() as int)
}

/// The next level's sorted rows: slot `q` holds the moved row whose stable
/// rank by destination is `q`.
pub open spec fn sorted_level(p: Seq<SortedRow>, b: Seq<bool>) -> Seq<SortedRow> {
    Seq::new(
        p.len(),
        |q: int|
            moved_row(
                p,
                b,
                choose|i: int| 0 <= i < p.len() && #[trigger] stable_rank(destinations(p, b), i) == q,
            ),
    )
}

/// The level can be built with 16-bit counters: the positions, the
/// destinations and the next bucket ids all fit.
pub open spec fn level_fits(p: Seq<SortedRow>, b: Seq<bool>) -> bool {
    &&& p.len() <= u16::MAX
    &&& b.len() == p.len()
    &&& forall|i: int|
        0 <= i < p.len() ==> #[trigger] destination(p, b, i) <= u16::MAX && next_bucket(
            p[i].bucket,
            b[i],
        ) <= u16::MAX
}

/// Each bucket id occupies one contiguous run of rows.
pub open spec fn buckets_contiguous(p: Seq<SortedRow>) -> bool {
    forall|i: int, j: int, k: int|
        0 <= i < j < k < p.len() && #[trigger] p[i].bucket == #[trigger] p[k].bucket ==> #[trigger] p[j].bucket
            == p[i].bucket
}

// ---------------------------------------------------------------------------
// Lemmas
// ---------------------------------------------------------------------------

proof fn lemma_count_bound(p: Seq<SortedRow>, b: Seq<bool>, c: u16, lo: int, hi: int)
    requires
        lo <= hi,
    ensures
        count_rows(p, b, c, false, lo, hi) + count_rows(p, b, c, true, lo, hi) <= hi - lo,
    decreases hi - lo,
{
    if hi > lo {
        lemma_count_bound(p, b, c, lo, hi - 1);
    }
}

proof fn lemma_run_start_bound(p: Seq<SortedRow>, i: int)
    requires
        0 <= i,
    ensures
        0 <= run_start(p, i) <= i,
    decreases i,
{
    if i > 0 && p[i - 1].bucket == p[i].bucket {
        lemma_run_start_bound(p, i - 1);
    }
}

proof fn lemma_first_occurrence(p: Seq<SortedRow>, c: u16, n: int)
    requires
        0 <= n <= p.len(),
    ensures
        match first_occurrence(p, c, n) {
            Some(k) => 0 <= k < n && p[k].bucket == c && forall|m: int|
                0 <= m < k ==> #[trigger] p[m].bucket != c,
            None => forall|m: int| 0 <= m < n ==> #[trigger] p[m].bucket != c,
        },
    decreases n,
{
    if n > 0 {
        lemma_first_occurrence(p, c, n - 1);
    }
}

proof fn lemma_rank_order(keys: Seq<int>, i: int, j: int, hi: int)
    requires
        sorts_before(keys, i, j),
    ensures
        rank_prefix(keys, j, hi) >= rank_prefix(keys, i, hi) + if 0 <= i < hi {
            1int
        } else {
            0int
        },
    decreases hi,
{
    if hi > 0 {
        lemma_rank_order(keys, i, j, hi - 1);
    }
}

proof fn lemma_rank_bound(keys: Seq<int>, i: int, hi: int)
    requires
        0 <= hi,
    ensures
        rank_prefix(keys, i, hi) + (if 0 <= i < hi {
            1int
        } else {
            0int
        }) <= hi,
    decreases hi,
{
    if hi > 0 {
        lemma_rank_bound(keys, i, hi - 1);
    }
}

/// Stable ranks are distinct and lie in `[0, keys.len())`.
pub proof fn lemma_stable_rank_injective(keys: Seq<int>, i: int, j: int)
    requires
        0 <= i < keys.len(),
        0 <= j < keys.len(),
        i != j,
    ensures
        stable_rank(keys, i) != stable_rank(keys, j),
        stable_rank(keys, i) < keys.len(),
{
    lemma_rank_bound(keys, i, keys.len() as int);
    if sorts_before(keys, i, j) {
        lemma_rank_order(keys, i, j, keys.len() as int);
    } else {
        lemma_rank_order(keys, j, i, keys.len() as int);
    }
}

/// An injective map of `[0, n)` into itself reaches every slot.
proof fn lemma_injective_onto(f: spec_fn(int) -> int, n: int, q: int)
    requires
        0 <= q < n,
        forall|i: int| 0 <= i < n ==> 0 <= #[trigger] f(i) < n,
        forall|i: int, j: int| 0 <= i < n && 0 <= j < n && i != j ==> #[trigger] f(i) != #[trigger] f(j),
    ensures
        exists|i: int| 0 <= i < n && #[trigger] f(i) == q,
{
    let s = vstd::set_lib::set_int_range(0, n);
    vstd::set_lib::lemma_int_range(0, n);
    let t = s.map(f);
    assert(vstd::relations::injective_on(f, s));
    vstd::set_lib::lemma_map_size(s, t, f);
    assert(t.subset_of(s));
    vstd::set_lib::lemma_subset_equality(t, s);
    assert(s.contains(q));
    assert(t.contains(q));
}

/// Every slot of `[0, keys.len())` is the stable rank of some row.
pub proof fn lemma_stable_rank_onto(keys: Seq<int>, q: int)
    requires
        0 <= q < keys.len(),
    ensures
        exists|i: int| 0 <= i < keys.len() && stable_rank(keys, i) == q,
{
    let f = |i: int| stable_rank(keys, i) as int;
    assert forall|i: int| 0 <= i < keys.len() implies 0 <= #[trigger] f(i) < keys.len() by {
        lemma_rank_bound(keys, i, keys.len() as int);
    }
    assert forall|i: int, j: int|
        0 <= i < keys.len() && 0 <= j < keys.len() && i != j implies #[trigger] f(i)
        != #[trigger] f(j) by {
        lemma_stable_rank_injective(keys, i, j);
    }
    lemma_injective_onto(f, keys.len() as int, q);
}

proof fn lemma_increasing_lower(f: spec_fn(int) -> int, n: int, v: int)
    requires
        0 <= v < n,
        forall|i: int| 0 <= i < n ==> 0 <= #[trigger] f(i) < n,
        forall|i: int, j: int| 0 <= i < j < n ==> #[trigger] f(i) < #[trigger] f(j),
    ensures
        f(v) >= v,
    decreases v,
{
    if v > 0 {
        lemma_increasing_lower(f, n, v - 1);
        assert(f(v - 1) < f(v));
    }
}

proof fn lemma_increasing_upper(f: spec_fn(int) -> int, n: int, v: int)
    requires
        0 <= v < n,
        forall|i: int| 0 <= i < n ==> 0 <= #[trigger] f(i) < n,
        forall|i: int, j: int| 0 <= i < j < n ==> #[trigger] f(i) < #[trigger] f(j),
    ensures
        f(v) <= v,
    decreases n - v,
{
    if v < n - 1 {
        lemma_increasing_upper(f, n, v + 1);
        assert(f(v) < f(v + 1));
    }
}

/// When the keys are distinct slots of `[0, keys.len())`, the stable rank of
/// each row is its key.
proof fn lemma_rank_of_permutation(keys: Seq<int>, i: int)
    requires
        0 <= i < keys.len(),
        forall|k: int| 0 <= k < keys.len() ==> 0 <= #[trigger] keys[k] < keys.len(),
        forall|k: int, m: int|
            0 <= k < keys.len() && 0 <= m < keys.len() && k != m ==> #[trigger] keys[k] != #[trigger] keys[m],
    ensures
        stable_rank(keys, i) == keys[i],
{
    let n = keys.len() as int;
    let kf = |k: int| keys[k];
    assert forall|k: int| 0 <= k < n implies 0 <= #[trigger] kf(k) < n by {}
    assert forall|k: int, m: int| 0 <= k < n && 0 <= m < n && k != m implies #[trigger] kf(k)
        != #[trigger] kf(m) by {}
    let g = |v: int| choose|k: int| 0 <= k < n && #[trigger] kf(k) == v;
    assert forall|v: int| 0 <= v < n implies 0 <= #[trigger] g(v) < n && keys[g(v)] == v by {
        lemma_injective_onto(kf, n, v);
    }
    let f = |v: int| stable_rank(keys, g(v)) as int;
    assert forall|v: int| 0 <= v < n implies 0 <= #[trigger] f(v) < n by {
        lemma_rank_bound(keys, g(v), n);
    }
    assert forall|v: int, w: int| 0 <= v < w < n implies #[trigger] f(v) < #[trigger] f(w) by {
        lemma_rank_order(keys, g(v), g(w), n);
    }
    let v = keys[i];
    assert(g(v) == i);
    lemma_increasing_lower(f, n, v);
    lemma_increasing_upper(f, n, v);
}

proof fn lemma_count_split(p: Seq<SortedRow>, b: Seq<bool>, c: u16, bit: bool, lo: int, mid: int, hi: int)
    requires
        lo <= mid <= hi,
    ensures
        count_rows(p, b, c, bit, lo, hi) == count_rows(p, b, c, bit, lo, mid) + count_rows(
            p,
            b,
            c,
            bit,
            mid,
            hi,
        ),
    decreases hi - mid,
{
    if hi > mid {
        lemma_count_split(p, b, c, bit, lo, mid, hi - 1);
    }
}

proof fn lemma_count_absent(p: Seq<SortedRow>, b: Seq<bool>, c: u16, bit: bool, lo: int, hi: int)
    requires
        forall|m: int| lo <= m < hi ==> #[trigger] p[m].bucket != c,
    ensures
        count_rows(p, b, c, bit, lo, hi) == 0,
    decreases hi - lo,
{
    if hi > lo {
        lemma_count_absent(p, b, c, bit, lo, hi - 1);
    }
}

/// Under contiguous buckets, the run of row `i` starts at its bucket's first
/// row, and no earlier row belongs to that bucket.
proof fn lemma_run_is_bucket(p: Seq<SortedRow>, i: int)
    requires
        buckets_contiguous(p),
        0 <= i < p.len(),
    ensures
        run_start(p, i) == bucket_start(p, p[i].bucket),
        0 <= run_start(p, i) <= i,
        forall|m: int| 0 <= m < run_start(p, i) ==> #[trigger] p[m].bucket != p[i].bucket,
    decreases i,
{
    let c = p[i].bucket;
    lemma_first_occurrence(p, c, p.len() as int);
    if i > 0 {
        if p[i - 1].bucket != c {
            assert forall|m: int| 0 <= m < i implies #[trigger] p[m].bucket != c by {
                if m < i - 1 && p[m].bucket == c {
                    assert(p[i - 1].bucket == p[m].bucket);
                }
            }
        } else {
            lemma_run_is_bucket(p, i - 1);
        }
    }
}

/// Facts about the destination of row `i` under contiguous buckets: its
/// running counts and where it falls inside its bucket's slots.
proof fn lemma_destination_in_bucket(p: Seq<SortedRow>, b: Seq<bool>, i: int)
    requires
        buckets_contiguous(p),
        b.len() == p.len(),
        0 <= i < p.len(),
    ensures
        ({
            let c = p[i].bucket;
            let s = bucket_start(p, c);
            &&& 0 <= s <= i
            &&& p[s].bucket == c
            &&& forall|m: int| 0 <= m < s ==> #[trigger] p[m].bucket != c
            &&& zeros_before(p, b, i) == count_rows(p, b, c, false, s, i)
            &&& ones_before(p, b, i) == count_rows(p, b, c, true, s, i)
            &&& s + bucket_zeros(p, b, c) + bucket_ones(p, b, c) <= p.len()
            &&& !b[i] ==> s <= destination(p, b, i) < s + bucket_zeros(p, b, c)
            &&& b[i] ==> s + bucket_zeros(p, b, c) <= destination(p, b, i) < s + bucket_zeros(
                p,
                b,
                c,
            ) + bucket_ones(p, b, c)
        }),
{
    let c = p[i].bucket;
    let n = p.len() as int;
    lemma_run_is_bucket(p, i);
    lemma_first_occurrence(p, c, n);
    let s = bucket_start(p, c);
    lemma_count_absent(p, b, c, false, 0, s);
    lemma_count_absent(p, b, c, true, 0, s);
    lemma_count_split(p, b, c, false, 0, s, n);
    lemma_count_split(p, b, c, true, 0, s, n);
    lemma_count_split(p, b, c, false, s, i, n);
    lemma_count_split(p, b, c, true, s, i, n);
    lemma_count_split(p, b, c, false, i, i + 1, n);
    lemma_count_split(p, b, c, true, i, i + 1, n);
    lemma_count_bound(p, b, c, s, n);
    lemma_count_bound(p, b, c, i + 1, n);
}

/// Under contiguous buckets, all rows of bucket `p[i].bucket` lie before
/// the first row of any bucket that starts after it.
proof fn lemma_bucket_before(p: Seq<SortedRow>, b: Seq<bool>, i: int, j: int)
    requires
        buckets_contiguous(p),
        b.len() == p.len(),
        0 <= i < p.len(),
        0 <= j < p.len(),
        p[i].bucket != p[j].bucket,
        bucket_start(p, p[i].bucket) < bucket_start(p, p[j].bucket),
    ensures
        bucket_start(p, p[i].bucket) + bucket_zeros(p, b, p[i].bucket) + bucket_ones(
            p,
            b,
            p[i].bucket,
        ) <= bucket_start(p, p[j].bucket),
{
    let c = p[i].bucket;
    let n = p.len() as int;
    lemma_destination_in_bucket(p, b, i);
    lemma_destination_in_bucket(p, b, j);
    let s = bucket_start(p, c);
    let t = bucket_start(p, p[j].bucket);
    assert forall|m: int| t <= m < n implies #[trigger] p[m].bucket != c by {
        if m > t && p[m].bucket == c {
            assert(p[t].bucket == p[s].bucket);
        }
    }
    lemma_count_absent(p, b, c, false, t, n);
    lemma_count_absent(p, b, c, true, t, n);
    lemma_count_absent(p, b, c, false, 0, s);
    lemma_count_absent(p, b, c, true, 0, s);
    lemma_count_split(p, b, c, false, 0, s, n);
    lemma_count_split(p, b, c, true, 0, s, n);
    lemma_count_split(p, b, c, false, s, t, n);
    lemma_count_split(p, b, c, true, s, t, n);
    lemma_count_bound(p, b, c, s, t);
}

/// Under contiguous buckets, rows keep their order within their bucket's
/// zeros and within its ones, and the zeros come first.
proof fn lemma_destination_order(p: Seq<SortedRow>, b: Seq<bool>, i: int, j: int)
    requires
        buckets_contiguous(p),
        b.len() == p.len(),
        0 <= i < j < p.len(),
        p[i].bucket == p[j].bucket,
    ensures
        b[i] == b[j] ==> destination(p, b, i) < destination(p, b, j),
        !b[i] && b[j] ==> destination(p, b, i) < destination(p, b, j),
        b[i] && !b[j] ==> destination(p, b, j) < destination(p, b, i),
{
    let c = p[i].bucket;
    lemma_destination_in_bucket(p, b, i);
    lemma_destination_in_bucket(p, b, j);
    let s = bucket_start(p, c);
    lemma_count_split(p, b, c, false, s, i, j);
    lemma_count_split(p, b, c, true, s, i, j);
    lemma_count_split(p, b, c, false, i, i + 1, j);
    lemma_count_split(p, b, c, true, i, i + 1, j);
}

/// When every bucket occupies one contiguous run of rows, a level is a
/// permutation: the destinations are distinct slots of `[0, N)`, the next
/// level holds the moved row `i` exactly at `destination(i)`, zeros of a
/// bucket precede its ones, and each group keeps its relative order.
pub proof fn lemma_contiguous_level_is_permutation(p: Seq<SortedRow>, b: Seq<bool>)
    requires
        b.len() == p.len(),
        buckets_contiguous(p),
    ensures
        forall|i: int| 0 <= i < p.len() ==> 0 <= #[trigger] destination(p, b, i) < p.len(),
        forall|i: int, j: int|
            0 <= i < p.len() && 0 <= j < p.len() && i != j ==> #[trigger] destination(p, b, i)
                != #[trigger] destination(p, b, j),
        forall|i: int| 0 <= i < p.len() ==> #[trigger] stable_rank(destinations(p, b), i) == destination(p, b, i),
        forall|i: int, j: int|
            0 <= i < j < p.len() && p[i].bucket == p[j].bucket && b[i] == b[j] ==> #[trigger] destination(
                p,
                b,
                i,
            ) < #[trigger] destination(p, b, j),
        forall|i: int, j: int|
            0 <= i < p.len() && 0 <= j < p.len() && p[i].bucket == p[j].bucket && !b[i] && b[j]
                ==> #[trigger] destination(p, b, i) < #[trigger] destination(p, b, j),
{
    let n = p.len() as int;
    let keys = destinations(p, b);
    assert forall|i: int| 0 <= i < n implies 0 <= #[trigger] destination(p, b, i) < n by {
        lemma_destination_in_bucket(p, b, i);
    }
    assert forall|i: int, j: int|
        0 <= i < n && 0 <= j < n && i != j implies #[trigger] destination(p, b, i)
        != #[trigger] destination(p, b, j) by {
        if p[i].bucket == p[j].bucket {
            if i < j {
                lemma_destination_order(p, b, i, j);
            } else {
                lemma_destination_order(p, b, j, i);
            }
        } else {
            lemma_destination_in_bucket(p, b, i);
            lemma_destination_in_bucket(p, b, j);
            if bucket_start(p, p[i].bucket) < bucket_start(p, p[j].bucket) {
                lemma_bucket_before(p, b, i, j);
            } else {
                lemma_bucket_before(p, b, j, i);
            }
        }
    }
    assert forall|i: int| 0 <= i < n implies #[trigger] stable_rank(keys, i) == destination(p, b, i) by {
        assert forall|k: int| 0 <= k < n implies 0 <= #[trigger] keys[k] < n by {
            assert(keys[k] == destination(p, b, k));
        }
        assert forall|k: int, m: int| 0 <= k < n && 0 <= m < n && k != m implies #[trigger] keys[k]
            != #[trigger] keys[m] by {
            assert(keys[k] == destination(p, b, k));
            assert(keys[m] == destination(p, b, m));
        }
        lemma_rank_of_permutation(keys, i);
    }
    assert forall|i: int, j: int|
        0 <= i < j < n && p[i].bucket == p[j].bucket && b[i] == b[j] implies #[trigger] destination(
            p,
            b,
            i,
        ) < #[trigger] destination(p, b, j) by {
        lemma_destination_order(p, b, i, j);
    }
    assert forall|i: int, j: int|
        0 <= i < n && 0 <= j < n && p[i].bucket == p[j].bucket && !b[i] && b[j] implies #[trigger] destination(
            p,
            b,
            i,
        ) < #[trigger] destination(p, b, j) by {
        lemma_destination_in_bucket(p, b, i);
        lemma_destination_in_bucket(p, b, j);
    }
}

/// A sequence that holds each moved row at its stable rank is the sorted
/// level.
proof fn lemma_sorted_level(p: Seq<SortedRow>, b: Seq<bool>, out: Seq<SortedRow>)
    requires
        out.len() == p.len(),
        forall|i: int|
            0 <= i < p.len() ==> out[stable_rank(destinations(p, b), i) as int] == #[trigger] moved_row(
                p,
                b,
                i,
            ),
    ensures
        out == sorted_level(p, b),
{
    let ks = destinations(p, b);
    assert forall|q: int| 0 <= q < p.len() implies out[q] == #[trigger] sorted_level(p, b)[q] by {
        lemma_stable_rank_onto(ks, q);
        let i = choose|i: int| 0 <= i < p.len() && #[trigger] stable_rank(ks, i) == q;
        assert(out[q] == moved_row(p, b, i));
    }
    assert(out =~= sorted_level(p, b));
}

// ---------------------------------------------------------------------------
// Implementation
// ---------------------------------------------------------------------------

/// Totals of bucket `c`: zeros, ones and the position of its first row.
fn bucket_stats<const N: usize>(prev_rows: &[SortedRow; N], bits_lvl: &[bool; N], c: u16) -> (r: (
    u16,
    u16,
    u16,
))
    requires
        N <= u16::MAX,
    ensures
        r.0 == bucket_zeros(prev_rows@, bits_lvl@, c),
        r.1 == bucket_ones(prev_rows@, bits_lvl@, c),
        r.2 == bucket_start(prev_rows@, c),
{
    let ghost p = prev_rows@;
    let ghost b = bits_lvl@;
    let mut zeros: u16 = 0;
    let mut ones: u16 = 0;
    let mut start: Option<u16> = None;
    let mut k: usize = 0;
    while k < N
        invariant
            k <= N,
            N <= u16::MAX,
            p == prev_rows@,
            b == bits_lvl@,
            p.len() == N,
            b.len() == N,
            zeros == count_rows(p, b, c, false, 0, k as int),
            ones == count_rows(p, b, c, true, 0, k as int),
            start is Some <==> first_occurrence(p, c, k as int) is Some,
            start is Some ==> first_occurrence(p, c, k as int) == Some(start->0 as int),
        decreases N - k,
    {
        proof {
            lemma_count_bound(p, b, c, 0, k as int);
        }
        if prev_rows[k].bucket == c {
            if !bits_lvl[k] {
                zeros = zeros + 1;
            } else {
                ones = ones + 1;
            }
            if start.is_none() {
                start = Some(k as u16);
            }
        }
        k = k + 1;
    }
    let s: u16 = match start {
        Some(s) => s,
        None => 0,
    };
    (zeros, ones, s)
}

/// Inside a run of one bucket, the counters of a row are those of the row
/// before it plus that row's bit: zeros count the earlier zeros of the run,
/// ones the earlier ones.  The first row of a run starts both at zero.
pub proof fn lemma_run_counters(p: Seq<SortedRow>, b: Seq<bool>, i: int)
    requires
        b.len() == p.len(),
        0 <= i < p.len(),
    ensures
        (i == 0 || p[i - 1].bucket != p[i].bucket) ==> zeros_before(p, b, i) == 0 && ones_before(p, b, i)
            == 0,
        i > 0 && p[i - 1].bucket == p[i].bucket ==> {
            &&& zeros_before(p, b, i) == zeros_before(p, b, i - 1) + if b[i - 1] {
                0int
            } else {
                1int
            }
            &&& ones_before(p, b, i) == ones_before(p, b, i - 1) + if b[i - 1] {
                1int
            } else {
                0int
            }
        },
        zeros_before(p, b, i) + ones_before(p, b, i) <= i,
{
    lemma_run_start_bound(p, i);
    lemma_count_bound(p, b, p[i].bucket, run_start(p, i), i);
    if i > 0 && p[i - 1].bucket == p[i].bucket {
        lemma_run_start_bound(p, i - 1);
        assert(run_start(p, i) == run_start(p, i - 1));
    }
}

/// The unsorted row of row `i` records that row's card index, split bit and
/// bucket; under contiguous buckets its destination is the slot of the next
/// level that holds the same card, in bucket `2c + bit`, and no two rows
/// share a destination.
pub proof fn lemma_unsorted_row_links(p: Seq<SortedRow>, b: Seq<bool>, i: int)
    requires
        level_fits(p, b),
        0 <= i < p.len(),
    ensures
        unsorted_row(p, b, i).idx == p[i].idx,
        unsorted_row(p, b, i).bit == b[i],
        unsorted_row(p, b, i).bucket_id == p[i].bucket,
        buckets_contiguous(p) ==> {
            let q = unsorted_row(p, b, i).next_pos as int;
            &&& 0 <= q < p.len()
            &&& sorted_level(p, b)[q].idx == p[i].idx
            &&& sorted_level(p, b)[q].bucket == 2 * p[i].bucket + if b[i] {
                1int
            } else {
                0int
            }
            &&& forall|j: int|
                0 <= j < p.len() && j != i ==> #[trigger] unsorted_row(p, b, j).next_pos as int != q
        },
{
    if buckets_contiguous(p) {
        lemma_contiguous_level_is_permutation(p, b);
        lemma_sorted_level_at_destination(p, b, i);
        assert(destination(p, b, i) <= u16::MAX && next_bucket(p[i].bucket, b[i]) <= u16::MAX);
        assert forall|j: int| 0 <= j < p.len() && j != i implies #[trigger] unsorted_row(p, b, j).next_pos as int
            != unsorted_row(p, b, i).next_pos as int by {
            assert(destination(p, b, j) <= u16::MAX);
        }
    }
}

/// Zeros and ones of bucket `c` in `[lo, hi)` together are its rows there.
proof fn lemma_zeros_ones_are_rows(p: Seq<SortedRow>, b: Seq<bool>, c: u16, lo: int, hi: int)
    ensures
        count_rows(p, b, c, false, lo, hi) + count_rows(p, b, c, true, lo, hi) == count_bucket(p, c, lo, hi),
    decreases hi - lo,
{
    if hi > lo {
        lemma_zeros_ones_are_rows(p, b, c, lo, hi - 1);
    }
}

/// The unsorted row of row `i` records the size of its bucket, and under
/// contiguous buckets the last row of a bucket's run closes its counters:
/// its zeros and ones, with its own bit, are the bucket's zeros and ones.
pub proof fn lemma_unsorted_row_totals(p: Seq<SortedRow>, b: Seq<bool>, i: int)
    requires
        level_fits(p, b),
        0 <= i < p.len(),
    ensures
        unsorted_row(p, b, i).bucket_length == bucket_size(p, p[i].bucket),
        unsorted_row(p, b, i).num_zeros_in_bucket <= unsorted_row(p, b, i).bucket_length,
        buckets_contiguous(p) && (i == p.len() - 1 || p[i + 1].bucket != p[i].bucket) ==> {
            let u = unsorted_row(p, b, i);
            &&& u.num_zeros + (if b[i] {
                0int
            } else {
                1int
            }) == u.num_zeros_in_bucket
            &&& u.num_ones + (if b[i] {
                1int
            } else {
                0int
            }) == u.bucket_length - u.num_zeros_in_bucket
        },
{
    let n = p.len() as int;
    let c = p[i].bucket;
    lemma_zeros_ones_are_rows(p, b, c, 0, n);
    lemma_count_bound(p, b, c, 0, n);
    if buckets_contiguous(p) && (i == n - 1 || p[i + 1].bucket != c) {
        lemma_destination_in_bucket(p, b, i);
        let s0 = bucket_start(p, c);
        assert forall|m: int| i + 1 <= m < n implies #[trigger] p[m].bucket != c by {
            if p[m].bucket == c && m > i + 1 {
                assert(p[i + 1].bucket == p[i].bucket);
            }
        }
        lemma_count_absent(p, b, c, false, i + 1, n);
        lemma_count_absent(p, b, c, true, i + 1, n);
        lemma_count_absent(p, b, c, false, 0, s0);
        lemma_count_absent(p, b, c, true, 0, s0);
        lemma_count_split(p, b, c, false, 0, s0, n);
        lemma_count_split(p, b, c, true, 0, s0, n);
        lemma_count_split(p, b, c, false, s0, i, n);
        lemma_count_split(p, b, c, true, s0, i, n);
        lemma_count_split(p, b, c, false, i, i + 1, n);
        lemma_count_split(p, b, c, true, i, i + 1, n);
        lemma_run_counters(p, b, i);
        assert(count_rows(p, b, c, false, i, i) == 0);
        assert(count_rows(p, b, c, true, i, i) == 0);
        assert(count_rows(p, b, c, false, i, i + 1) == if b[i] { 0int } else { 1int });
        assert(count_rows(p, b, c, true, i, i + 1) == if b[i] { 1int } else { 0int });
        assert(zeros_before(p, b, i) + (if b[i] { 0int } else { 1int }) == bucket_zeros(p, b, c));
        assert(ones_before(p, b, i) + (if b[i] { 1int } else { 0int }) == bucket_ones(p, b, c));
    }
}

/// Builds the witness tables of one level: the unsorted rows with their
/// counters and destinations, and the next level's sorted rows, which are the
/// moved rows stably sorted by destination.
pub fn build_level<const N: usize>(prev_rows: &[SortedRow; N], bits_lvl: &[bool; N]) -> (r: (
    [UnsortedRow; N],
    [SortedRow; N],
))
    requires
        level_fits(prev_rows@, bits_lvl@),
    ensures
        forall|i: int| 0 <= i < N ==> #[trigger] r.0@[i] == unsorted_row(prev_rows@, bits_lvl@, i),
        forall|i: int|
            0 <= i < N ==> r.1@[stable_rank(destinations(prev_rows@, bits_lvl@), i) as int]
                == #[trigger] moved_row(prev_rows@, bits_lvl@, i),
        r.1@ == sorted_level(prev_rows@, bits_lvl@),
        forall|i: int|
            0 <= i < N ==> (#[trigger] r.0@[i]).idx == prev_rows@[i].idx && r.0@[i].bit == bits_lvl@[i]
                && r.0@[i].bucket_id == prev_rows@[i].bucket,
        forall|i: int|
            0 <= i < N && (i == 0 || prev_rows@[i - 1].bucket != prev_rows@[i].bucket) ==> (
            #[trigger] r.0@[i]).num_zeros == 0 && r.0@[i].num_ones == 0,
        forall|i: int|
            0 < i < N && prev_rows@[i - 1].bucket == prev_rows@[i].bucket ==> (#[trigger] r.0@[i]).num_zeros
                == r.0@[i - 1].num_zeros + (if bits_lvl@[i - 1] {
                0int
            } else {
                1int
            }) && r.0@[i].num_ones == r.0@[i - 1].num_ones + (if bits_lvl@[i - 1] {
                1int
            } else {
                0int
            }),
        buckets_contiguous(prev_rows@) ==> forall|i: int|
            0 <= i < N ==> (#[trigger] r.0@[i]).next_pos < N && r.1@[r.0@[i].next_pos as int].idx
                == prev_rows@[i].idx && r.1@[r.0@[i].next_pos as int].bucket == 2 * prev_rows@[i].bucket
                + (if bits_lvl@[i] {
                1int
            } else {
                0int
            }),
        buckets_contiguous(prev_rows@) ==> forall|i: int, j: int|
            0 <= i < N && 0 <= j < N && i != j ==> #[trigger] r.0@[i].next_pos != #[trigger] r.0@[j].next_pos,
        forall|i: int|
            0 <= i < N ==> (#[trigger] r.0@[i]).bucket_length == bucket_size(prev_rows@, prev_rows@[i].bucket)
                && r.0@[i].num_zeros_in_bucket <= r.0@[i].bucket_length,
        buckets_contiguous(prev_rows@) ==> forall|i: int|
            0 <= i < N && (i == N - 1 || prev_rows@[i + 1].bucket != prev_rows@[i].bucket) ==> (
            #[trigger] r.0@[i]).num_zeros + (if bits_lvl@[i] {
                0int
            } else {
                1int
            }) == r.0@[i].num_zeros_in_bucket && r.0@[i].num_ones + (if bits_lvl@[i] {
                1int
            } else {
                0int
            }) == r.0@[i].bucket_length - r.0@[i].num_zeros_in_bucket,
        buckets_contiguous(prev_rows@) ==> forall|q: int|
            0 <= q < N ==> (#[trigger] r.1@[q]).length == bucket_size(r.1@, r.1@[q].bucket),
{
    let ghost p = prev_rows@;
    let ghost b = bits_lvl@;
    let mut uns: [UnsortedRow; N] = [UnsortedRow::new(false, 0, 0, 0, 0, 0, 0, 0); N];
    let mut keys: Vec<u16> = Vec::new();
    let mut current_bucket: Option<u16> = None;
    let mut num_zeros: u16 = 0;
    let mut num_ones: u16 = 0;
    let mut i: usize = 0;
    while i < N
        invariant
            level_fits(p, b),
            p == prev_rows@,
            b == bits_lvl@,
            p.len() == N,
            i <= N,
            keys@.len() == i,
            uns@.len() == N,
            forall|j: int| 0 <= j < i ==> #[trigger] uns@[j] == unsorted_row(p, b, j),
            forall|j: int| 0 <= j < i ==> #[trigger] keys@[j] as int == destination(p, b, j),
            i == 0 ==> current_bucket is None,
            i > 0 ==> current_bucket == Some(p[i - 1].bucket),
            i > 0 ==> num_zeros == count_rows(
                p,
                b,
                p[i - 1].bucket,
                false,
                run_start(p, i - 1),
                i as int,
            ),
            i > 0 ==> num_ones == count_rows(p, b, p[i - 1].bucket, true, run_start(p, i - 1), i as int),
        decreases N - i,
    {
        let row = prev_rows[i];
        let bit = bits_lvl[i];
        let bucket = row.bucket;
        let same = match current_bucket {
            Some(cb) => cb == bucket,
            None => false,
        };
        if !same {
            num_zeros = 0;
            num_ones = 0;
            current_bucket = Some(bucket);
        }
        proof {
            lemma_run_start_bound(p, i as int);
            lemma_count_bound(p, b, bucket, run_start(p, i as int), i as int + 1);
            lemma_count_bound(p, b, bucket, 0, N as int);
            assert(num_zeros == zeros_before(p, b, i as int));
            assert(num_ones == ones_before(p, b, i as int));
            assert(destination(p, b, i as int) <= u16::MAX);
            lemma_first_occurrence(p, bucket, N as int);
        }
        let (z_total, o_total, start) = bucket_stats(prev_rows, bits_lvl, bucket);
        let bucket_length: u16 = z_total + o_total;
        let offset: u16 = if !bit {
            num_zeros
        } else {
            z_total + num_ones
        };
        let next_pos: u16 = start + offset;
        uns[i] = UnsortedRow::new(
            bit,
            num_zeros,
            num_ones,
            z_total,
            bucket_length,
            row.idx,
            next_pos,
            bucket,
        );
        keys.push(next_pos);
        if !bit {
            num_zeros = num_zeros + 1;
        } else {
            num_ones = num_ones + 1;
        }
        i = i + 1;
    }
    let ghost ks = destinations(p, b);
    assert(ks.len() == N);
    let mut nxt: [SortedRow; N] = [SortedRow::new_with_bucket(0, 0, 0); N];
    let mut i: usize = 0;
    while i < N
        invariant
            level_fits(p, b),
            p == prev_rows@,
            b == bits_lvl@,
            p.len() == N,
            ks == destinations(p, b),
            ks.len() == N,
            i <= N,
            keys@.len() == N,
            nxt@.len() == N,
            forall|j: int| 0 <= j < N ==> #[trigger] uns@[j] == unsorted_row(p, b, j),
            forall|j: int| 0 <= j < N ==> #[trigger] keys@[j] as int == ks[j],
            forall|j: int|
                0 <= j < i ==> nxt@[stable_rank(ks, j) as int] == #[trigger] moved_row(p, b, j),
        decreases N - i,
    {
        let key_i = keys[i];
        let mut rank: usize = 0;
        let mut k: usize = 0;
        while k < N
            invariant
                k <= N,
                i < N,
                keys@.len() == N,
                ks.len() == N,
                key_i as int == ks[i as int],
                forall|j: int| 0 <= j < N ==> #[trigger] keys@[j] as int == ks[j],
                rank == rank_prefix(ks, i as int, k as int),
                rank <= k,
            decreases N - k,
        {
            if keys[k] < key_i || (keys[k] == key_i && k < i) {
                rank = rank + 1;
            }
            k = k + 1;
        }
        let u = uns[i];
        proof {
            lemma_count_bound(p, b, u.bucket_id, 0, N as int);
            lemma_rank_bound(ks, i as int, N as int);
            assert(rank == stable_rank(ks, i as int));
        }
        let length: u16 = if !u.bit {
            u.num_zeros_in_bucket
        } else {
            u.bucket_length - u.num_zeros_in_bucket
        };
        let nb: u16 = if !u.bit {
            u.bucket_id * 2
        } else {
            u.bucket_id * 2 + 1
        };
        let ghost before = nxt@;
        nxt[rank] = SortedRow::new_with_bucket(u.idx, length, nb);
        proof {
            assert(nxt@[rank as int] == moved_row(p, b, i as int));
            assert forall|j: int| 0 <= j < i + 1 implies nxt@[stable_rank(ks, j) as int]
                == #[trigger] moved_row(p, b, j) by {
                if j < i {
                    lemma_stable_rank_injective(ks, i as int, j);
                    lemma_stable_rank_injective(ks, j, i as int);
                    assert(before[stable_rank(ks, j) as int] == moved_row(p, b, j));
                }
            }
        }
        i = i + 1;
    }
    proof {
        lemma_sorted_level(p, b, nxt@);
        assert forall|i: int| 0 <= i < N implies (#[trigger] uns@[i]).idx == p[i].idx && uns@[i].bit == b[i]
            && uns@[i].bucket_id == p[i].bucket by {
            lemma_unsorted_row_links(p, b, i);
        }
        assert forall|i: int|
            0 <= i < N && (i == 0 || p[i - 1].bucket != p[i].bucket) implies (#[trigger] uns@[i]).num_zeros == 0
            && uns@[i].num_ones == 0 by {
            lemma_run_counters(p, b, i);
        }
        assert forall|i: int| 0 < i < N && p[i - 1].bucket == p[i].bucket implies (#[trigger] uns@[i]).num_zeros
            == uns@[i - 1].num_zeros + (if b[i - 1] {
            0int
        } else {
            1int
        }) && uns@[i].num_ones == uns@[i - 1].num_ones + (if b[i - 1] {
            1int
        } else {
            0int
        }) by {
            lemma_run_counters(p, b, i);
            lemma_run_counters(p, b, i - 1);
        }
        assert forall|i: int| 0 <= i < N implies (#[trigger] uns@[i]).bucket_length == bucket_size(p, p[i].bucket)
            && uns@[i].num_zeros_in_bucket <= uns@[i].bucket_length by {
            lemma_unsorted_row_totals(p, b, i);
        }
        if buckets_contiguous(p) {
            lemma_next_lengths_are_bucket_sizes(p, b);
            assert forall|i: int|
                0 <= i < N && (i == N - 1 || p[i + 1].bucket != p[i].bucket) implies (#[trigger] uns@[i]).num_zeros
                + (if b[i] {
                0int
            } else {
                1int
            }) == uns@[i].num_zeros_in_bucket && uns@[i].num_ones + (if b[i] {
                1int
            } else {
                0int
            }) == uns@[i].bucket_length - uns@[i].num_zeros_in_bucket by {
                lemma_unsorted_row_totals(p, b, i);
            }
            assert forall|i: int| 0 <= i < N implies (#[trigger] uns@[i]).next_pos < N && nxt@[uns@[i].next_pos as int].idx
                == p[i].idx && nxt@[uns@[i].next_pos as int].bucket == 2 * p[i].bucket + (if b[i] {
                1int
            } else {
                0int
            }) by {
                lemma_unsorted_row_links(p, b, i);
            }
            assert forall|i: int, j: int| 0 <= i < N && 0 <= j < N && i != j implies #[trigger] uns@[i].next_pos
                != #[trigger] uns@[j].next_pos by {
                lemma_unsorted_row_links(p, b, i);
            }
        }
    }
    (uns, nxt)
}


// ---------------------------------------------------------------------------
// Levels of a whole shuffle
// ---------------------------------------------------------------------------

/// The level-0 rows of a deck of `n` cards: one bucket holding every card in
/// order.
pub open spec fn initial_rows(n: nat) -> Seq<SortedRow> {
    Seq::new(n, |i: int| SortedRow { idx: i as u16, length: n as u16, bucket: 0u16 })
}

/// The sorted rows that enter level `l` when the levels split by `bits`.
pub open spec fn level_input(n: nat, bits: Seq<Seq<bool>>, l: int) -> Seq<SortedRow>
    decreases l,
{
    if l <= 0 {
        initial_rows(n)
    } else {
        sorted_level(level_input(n, bits, l - 1), bits[l - 1])
    }
}

/// The split bits of every level as sequences.
pub open spec fn bits_rows<const N: usize, const LEVELS: usize>(bits_mat: [[bool; N]; LEVELS]) -> Seq<
    Seq<bool>,
> {
    Seq::new(LEVELS as nat, |l: int| bits_mat@[l]@)
}

/// Runs every level of the shuffle from the initial deck order: level `l`
/// splits the rows that level `l - 1` produced by the bits of row `l` of
/// `bits_mat`.
pub fn prepare_witness_levels<const N: usize, const LEVELS: usize>(bits_mat: &[[bool; N]; LEVELS]) -> (w:
    WitnessData<N, LEVELS>)
    requires
        forall|l: int|
            0 <= l < LEVELS ==> #[trigger] level_fits(
                level_input(N as nat, bits_rows(*bits_mat), l),
                bits_mat@[l]@,
            ),
    ensures
        w.bits_mat == *bits_mat,
        forall|l: int, i: int|
            0 <= l < LEVELS && 0 <= i < N ==> #[trigger] w.uns_levels@[l]@[i] == unsorted_row(
                level_input(N as nat, bits_rows(*bits_mat), l),
                bits_mat@[l]@,
                i,
            ),
        forall|l: int|
            0 <= l < LEVELS ==> #[trigger] w.next_levels@[l]@ == level_input(
                N as nat,
                bits_rows(*bits_mat),
                l + 1,
            ),
        LEVELS > 0 ==> w.next_levels@[0]@ == sorted_level(initial_rows(N as nat), bits_mat@[0]@),
        LEVELS > 0 ==> forall|i: int|
            0 <= i < N ==> #[trigger] w.uns_levels@[0]@[i] == unsorted_row(
                initial_rows(N as nat),
                bits_mat@[0]@,
                i,
            ),
        forall|l: int|
            0 < l < LEVELS ==> #[trigger] w.next_levels@[l]@ == sorted_level(
                w.next_levels@[l - 1]@,
                bits_mat@[l]@,
            ),
        forall|l: int, i: int|
            0 < l < LEVELS && 0 <= i < N ==> #[trigger] w.uns_levels@[l]@[i] == unsorted_row(
                w.next_levels@[l - 1]@,
                bits_mat@[l]@,
                i,
            ),
        forall|l: int, i: int|
            0 <= l < LEVELS && 0 <= i < N ==> (#[trigger] w.uns_levels@[l]@[i]).bit == bits_mat@[l]@[i],
        forall|i: int| 0 <= i < N && LEVELS > 0 ==> (#[trigger] w.uns_levels@[0]@[i]).idx == i,
        forall|l: int, i: int|
            0 < l < LEVELS && 0 <= i < N ==> (#[trigger] w.uns_levels@[l]@[i]).idx == w.next_levels@[l
                - 1]@[i].idx,
        forall|l: int, i: int|
            0 <= l < LEVELS && 0 <= i < N ==> (#[trigger] w.uns_levels@[l]@[i]).next_pos < N
                && w.next_levels@[l]@[w.uns_levels@[l]@[i].next_pos as int].idx == w.uns_levels@[l]@[i].idx,
{
    let ghost bits = bits_rows(*bits_mat);
    let mut prev: [SortedRow; N] = [SortedRow::new_with_bucket(0, 0, 0); N];
    let mut i: usize = 0;
    while i < N
        invariant
            i <= N,
            prev@.len() == N,
            forall|j: int| 0 <= j < i ==> #[trigger] prev@[j] == initial_rows(N as nat)[j],
        decreases N - i,
    {
        prev[i] = SortedRow::new_with_bucket(i as u16, N as u16, 0);
        i = i + 1;
    }
    assert(prev@ =~= initial_rows(N as nat));
    let mut uns_levels: [[UnsortedRow; N]; LEVELS] = [[UnsortedRow::new(false, 0, 0, 0, 0, 0, 0, 0); N]; LEVELS];
    let mut next_levels: [[SortedRow; N]; LEVELS] = [[SortedRow::new_with_bucket(0, 0, 0); N]; LEVELS];
    let mut level: usize = 0;
    while level < LEVELS
        invariant
            level <= LEVELS,
            bits == bits_rows(*bits_mat),
            forall|l: int|
                0 <= l < LEVELS ==> #[trigger] level_fits(level_input(N as nat, bits, l), bits_mat@[l]@),
            prev@ == level_input(N as nat, bits, level as int),
            uns_levels@.len() == LEVELS,
            next_levels@.len() == LEVELS,
            forall|l: int, i: int|
                0 <= l < level && 0 <= i < N ==> #[trigger] uns_levels@[l]@[i] == unsorted_row(
                    level_input(N as nat, bits, l),
                    bits_mat@[l]@,
                    i,
                ),
            forall|l: int|
                0 <= l < level ==> #[trigger] next_levels@[l]@ == level_input(N as nat, bits, l + 1),
        decreases LEVELS - level,
    {
        assert(bits[level as int] == bits_mat@[level as int]@);
        let (uns, nxt) = build_level(&prev, &bits_mat[level]);
        uns_levels[level] = uns;
        next_levels[level] = nxt;
        prev = nxt;
        level = level + 1;
    }
    proof {
        assert forall|l: int| 0 <= l < LEVELS implies #[trigger] level_input(N as nat, bits, l + 1)
            == sorted_level(level_input(N as nat, bits, l), bits_mat@[l]@) by {
            assert(bits[l] == bits_mat@[l]@);
        }
        assert forall|l: int| 0 < l < LEVELS implies #[trigger] next_levels@[l]@ == sorted_level(
            next_levels@[l - 1]@,
            bits_mat@[l]@,
        ) by {
            assert(next_levels@[l - 1]@ == level_input(N as nat, bits, l - 1 + 1));
            assert(level_input(N as nat, bits, l + 1) == sorted_level(level_input(N as nat, bits, l), bits_mat@[l]@));
        }
        assert forall|l: int, i: int| 0 < l < LEVELS && 0 <= i < N implies #[trigger] uns_levels@[l]@[i]
            == unsorted_row(next_levels@[l - 1]@, bits_mat@[l]@, i) by {
            assert(next_levels@[l - 1]@ == level_input(N as nat, bits, l - 1 + 1));
        }
        assert forall|l: int, i: int| 0 <= l < LEVELS && 0 <= i < N implies (#[trigger] uns_levels@[l]@[i]).bit
            == bits_mat@[l]@[i] && uns_levels@[l]@[i].idx == level_input(N as nat, bits, l)[i].idx
            && uns_levels@[l]@[i].next_pos < N && next_levels@[l]@[uns_levels@[l]@[i].next_pos as int].idx
            == uns_levels@[l]@[i].idx by {
            assert(bits[l] == bits_mat@[l]@);
            assert forall|k: int| 0 <= k < bits.len() implies (#[trigger] bits[k]).len() == N by {
                assert(bits[k] == bits_mat@[k]@);
            }
            lemma_shuffle_levels_contiguous(N as nat, bits, l);
            lemma_unsorted_row_links(level_input(N as nat, bits, l), bits_mat@[l]@, i);
            assert(level_input(N as nat, bits, l + 1) == sorted_level(level_input(N as nat, bits, l), bits_mat@[l]@));
        }
        assert forall|l: int, i: int| 0 < l < LEVELS && 0 <= i < N implies (#[trigger] uns_levels@[l]@[i]).idx
            == next_levels@[l - 1]@[i].idx by {
            assert(next_levels@[l - 1]@ == level_input(N as nat, bits, l - 1 + 1));
        }
        if LEVELS > 0 {
            assert(level_input(N as nat, bits, 0int) == initial_rows(N as nat));
            assert(level_fits(level_input(N as nat, bits, 0int), bits_mat@[0]@));
            assert(N <= u16::MAX);
            assert forall|i: int| 0 <= i < N implies (#[trigger] uns_levels@[0]@[i]).idx == i by {
                assert(uns_levels@[0]@[i].idx == level_input(N as nat, bits, 0int)[i].idx);
                assert(initial_rows(N as nat)[i].idx == i as u16);
            }
            assert(level_input(N as nat, bits, 1int) == sorted_level(level_input(N as nat, bits, 0int), bits_mat@[0]@));
        }
    }
    WitnessData { bits_mat: *bits_mat, uns_levels, next_levels }
}


/// Every row of `p` belongs to a bucket below `m`.
pub open spec fn buckets_below(p: Seq<SortedRow>, m: int) -> bool {
    forall|i: int| 0 <= i < p.len() ==> #[trigger] p[i].bucket < m
}

/// A destination never exceeds `2 * (N - 1)`: the first row of a bucket is
/// at most at `N - 1`, and the rows counted before a row are other rows.
proof fn lemma_destination_bound(p: Seq<SortedRow>, b: Seq<bool>, i: int)
    requires
        b.len() == p.len(),
        0 <= i < p.len(),
    ensures
        0 <= destination(p, b, i) <= 2 * p.len() - 2,
{
    let c = p[i].bucket;
    let n = p.len() as int;
    lemma_first_occurrence(p, c, n);
    lemma_run_start_bound(p, i);
    let rs = run_start(p, i);
    lemma_count_bound(p, b, c, rs, i);
    lemma_count_bound(p, b, c, 0, n);
    lemma_count_split(p, b, c, true, 0, rs, i);
    lemma_count_split(p, b, c, true, 0, i, n);
    lemma_count_split(p, b, c, true, i, i + 1, n);
    lemma_count_split(p, b, c, false, 0, rs, i);
    lemma_count_split(p, b, c, false, 0, i, n);
    lemma_count_split(p, b, c, false, i, i + 1, n);
}

/// The next level's rows have the same number of rows, and their buckets
/// stay below `2 * m` when the current buckets stay below `m`.
proof fn lemma_sorted_level_buckets(p: Seq<SortedRow>, b: Seq<bool>, m: int)
    requires
        b.len() == p.len(),
        buckets_below(p, m),
        2 * m <= 65536,
    ensures
        sorted_level(p, b).len() == p.len(),
        buckets_below(sorted_level(p, b), 2 * m),
{
    let ks = destinations(p, b);
    assert forall|q: int| 0 <= q < p.len() implies #[trigger] sorted_level(p, b)[q].bucket < 2 * m by {
        lemma_stable_rank_onto(ks, q);
        let i = choose|i: int| 0 <= i < p.len() && #[trigger] stable_rank(ks, i) == q;
        assert(p[i].bucket < m);
    }
}

/// Decks of at most 32768 cards split by at most 16 levels never overflow
/// the 16-bit counters: every level fits.
pub proof fn lemma_small_shuffles_fit(n: nat, bits: Seq<Seq<bool>>)
    requires
        n <= 32768,
        bits.len() <= 16,
        forall|l: int| 0 <= l < bits.len() ==> (#[trigger] bits[l]).len() == n,
    ensures
        forall|l: int| 0 <= l < bits.len() ==> #[trigger] level_fits(level_input(n, bits, l), bits[l]),
{
    assert forall|l: int| 0 <= l < bits.len() implies #[trigger] level_fits(level_input(n, bits, l), bits[l]) by {
        lemma_level_shape(n, bits, l);
        let p = level_input(n, bits, l);
        vstd::arithmetic::power2::lemma_pow2_unfold((l + 1) as nat);
        lemma_pow2_at_most_16((l + 1) as nat);
        assert forall|i: int| 0 <= i < p.len() implies #[trigger] destination(p, bits[l], i) <= u16::MAX
            && next_bucket(p[i].bucket, bits[l][i]) <= u16::MAX by {
            lemma_destination_bound(p, bits[l], i);
        }
    }
}

proof fn lemma_pow2_at_most_16(e: nat)
    requires
        e <= 16,
    ensures
        vstd::arithmetic::power2::pow2(e) <= 65536,
{
    if e < 16 {
        vstd::arithmetic::power2::lemma_pow2_strictly_increases(e, 16);
    }
    vstd::arithmetic::power2::lemma2_to64();
}

/// Level `l` has `n` rows whose buckets stay below `2^l`.
proof fn lemma_level_shape(n: nat, bits: Seq<Seq<bool>>, l: int)
    requires
        0 <= l <= bits.len(),
        bits.len() <= 16,
        forall|k: int| 0 <= k < bits.len() ==> (#[trigger] bits[k]).len() == n,
    ensures
        level_input(n, bits, l).len() == n,
        buckets_below(level_input(n, bits, l), vstd::arithmetic::power2::pow2(l as nat) as int),
    decreases l,
{
    if l == 0 {
        vstd::arithmetic::power2::lemma2_to64();
    } else {
        lemma_level_shape(n, bits, l - 1);
        vstd::arithmetic::power2::lemma_pow2_unfold(l as nat);
        lemma_pow2_at_most_16(l as nat);
        lemma_sorted_level_buckets(
            level_input(n, bits, l - 1),
            bits[l - 1],
            vstd::arithmetic::power2::pow2((l - 1) as nat) as int,
        );
    }
}


/// Under contiguous buckets, the sorted level holds moved row `i` at slot
/// `destination(i)`.
proof fn lemma_sorted_level_at_destination(p: Seq<SortedRow>, b: Seq<bool>, i: int)
    requires
        b.len() == p.len(),
        buckets_contiguous(p),
        0 <= i < p.len(),
    ensures
        0 <= destination(p, b, i) < p.len(),
        sorted_level(p, b)[destination(p, b, i)] == moved_row(p, b, i),
{
    let ks = destinations(p, b);
    lemma_contiguous_level_is_permutation(p, b);
    let q = destination(p, b, i);
    assert(stable_rank(ks, i) == q);
    let j = choose|j: int| 0 <= j < p.len() && #[trigger] stable_rank(ks, j) == q;
    if j != i {
        lemma_stable_rank_injective(ks, i, j);
    }
}

/// When every bucket of a level occupies one contiguous run of rows and the
/// next bucket ids fit, every bucket of the next level does too.
pub proof fn lemma_contiguous_level_stays_contiguous(p: Seq<SortedRow>, b: Seq<bool>)
    requires
        b.len() == p.len(),
        buckets_contiguous(p),
        forall|i: int| 0 <= i < p.len() ==> #[trigger] next_bucket(p[i].bucket, b[i]) <= u16::MAX,
    ensures
        buckets_contiguous(sorted_level(p, b)),
{
    let out = sorted_level(p, b);
    let n = p.len() as int;
    lemma_contiguous_level_is_permutation(p, b);
    let df = |k: int| destination(p, b, k);
    assert forall|k: int| 0 <= k < n implies 0 <= #[trigger] df(k) < n by {}
    assert forall|k: int, m: int| 0 <= k < n && 0 <= m < n && k != m implies #[trigger] df(k) != #[trigger] df(m) by {}
    assert forall|q1: int, q2: int, q3: int|
        0 <= q1 < q2 < q3 < out.len() && #[trigger] out[q1].bucket == #[trigger] out[q3].bucket implies #[trigger] out[q2].bucket
        == out[q1].bucket by {
        lemma_injective_onto(df, n, q1);
        lemma_injective_onto(df, n, q2);
        lemma_injective_onto(df, n, q3);
        let i1 = choose|k: int| 0 <= k < n && #[trigger] df(k) == q1;
        let i2 = choose|k: int| 0 <= k < n && #[trigger] df(k) == q2;
        let i3 = choose|k: int| 0 <= k < n && #[trigger] df(k) == q3;
        lemma_sorted_level_at_destination(p, b, i1);
        lemma_sorted_level_at_destination(p, b, i2);
        lemma_sorted_level_at_destination(p, b, i3);
        lemma_destination_in_bucket(p, b, i1);
        lemma_destination_in_bucket(p, b, i2);
        lemma_destination_in_bucket(p, b, i3);
        assert(p[i1].bucket == p[i3].bucket && b[i1] == b[i3]);
        if p[i2].bucket != p[i1].bucket {
            if bucket_start(p, p[i1].bucket) < bucket_start(p, p[i2].bucket) {
                lemma_bucket_before(p, b, i1, i2);
            } else {
                lemma_bucket_before(p, b, i2, i1);
            }
        }
    }
}

/// Number of rows in `[lo, hi)` of `s` whose bucket is `d`.
pub open spec fn count_bucket(s: Seq<SortedRow>, d: u16, lo: int, hi: int) -> nat
    decreases hi - lo,
{
    if hi <= lo {
        0
    } else {
        count_bucket(s, d, lo, hi - 1) + if s[hi - 1].bucket == d {
            1nat
        } else {
            0nat
        }
    }
}

/// Number of rows of `s` in bucket `d`.
pub open spec fn bucket_size(s: Seq<SortedRow>, d: u16) -> nat {
    count_bucket(s, d, 0, s.len() as int)
}

/// When the rows of bucket `d` among the first `m` are exactly those in
/// `[lo, hi)`, the first `m` rows hold as many of them as `[lo, hi)` meets.
proof fn lemma_count_bucket_range(s: Seq<SortedRow>, d: u16, lo: int, hi: int, m: int)
    requires
        0 <= lo <= hi,
        0 <= m <= s.len(),
        forall|q: int| 0 <= q < m ==> (#[trigger] s[q].bucket == d <==> lo <= q < hi),
    ensures
        count_bucket(s, d, 0, m) == if m <= lo {
            0
        } else if m <= hi {
            m - lo
        } else {
            hi - lo
        },
    decreases m,
{
    if m > 0 {
        lemma_count_bucket_range(s, d, lo, hi, m - 1);
    }
}

/// In a level whose buckets are contiguous and which fits, the rows of the
/// next level that share the bucket of the row moved from `i0` are exactly
/// the slots that `i0`'s bucket gives to rows with `i0`'s bit.
proof fn lemma_next_bucket_slots(p: Seq<SortedRow>, b: Seq<bool>, i0: int, q: int)
    requires
        level_fits(p, b),
        buckets_contiguous(p),
        0 <= i0 < p.len(),
        0 <= q < p.len(),
    ensures
        ({
            let c = p[i0].bucket;
            let lo = bucket_start(p, c) + if b[i0] { bucket_zeros(p, b, c) as int } else { 0int };
            let len = if b[i0] { bucket_ones(p, b, c) } else { bucket_zeros(p, b, c) };
            let out = sorted_level(p, b);
            &&& out[q].bucket == out[destination(p, b, i0)].bucket <==> lo <= q < lo + len
            &&& out[destination(p, b, i0)] == moved_row(p, b, i0)
        }),
{
    let n = p.len() as int;
    let c = p[i0].bucket;
    lemma_contiguous_level_is_permutation(p, b);
    let df = |k: int| destination(p, b, k);
    assert forall|k: int| 0 <= k < n implies 0 <= #[trigger] df(k) < n by {}
    assert forall|k: int, m: int| 0 <= k < n && 0 <= m < n && k != m implies #[trigger] df(k) != #[trigger] df(m) by {}
    lemma_injective_onto(df, n, q);
    let i = choose|k: int| 0 <= k < n && #[trigger] df(k) == q;
    lemma_sorted_level_at_destination(p, b, i);
    lemma_sorted_level_at_destination(p, b, i0);
    lemma_destination_in_bucket(p, b, i);
    lemma_destination_in_bucket(p, b, i0);
    assert(destination(p, b, i) <= u16::MAX && next_bucket(p[i].bucket, b[i]) <= u16::MAX);
    assert(destination(p, b, i0) <= u16::MAX && next_bucket(p[i0].bucket, b[i0]) <= u16::MAX);
    if p[i].bucket != c {
        if bucket_start(p, p[i].bucket) < bucket_start(p, c) {
            lemma_bucket_before(p, b, i, i0);
        } else {
            lemma_bucket_before(p, b, i0, i);
        }
    }
}

/// In a level whose buckets are contiguous and which fits, every row of the
/// next level records as its length the number of rows of its bucket, so
/// the next level is again a valid input of a level.
pub proof fn lemma_next_lengths_are_bucket_sizes(p: Seq<SortedRow>, b: Seq<bool>)
    requires
        level_fits(p, b),
        buckets_contiguous(p),
    ensures
        forall|q: int|
            0 <= q < p.len() ==> (#[trigger] sorted_level(p, b)[q]).length == bucket_size(
                sorted_level(p, b),
                sorted_level(p, b)[q].bucket,
            ),
{
    let n = p.len() as int;
    let out = sorted_level(p, b);
    lemma_contiguous_level_is_permutation(p, b);
    let df = |k: int| destination(p, b, k);
    assert forall|k: int| 0 <= k < n implies 0 <= #[trigger] df(k) < n by {}
    assert forall|k: int, m: int| 0 <= k < n && 0 <= m < n && k != m implies #[trigger] df(k) != #[trigger] df(m) by {}
    assert forall|q0: int| 0 <= q0 < n implies (#[trigger] out[q0]).length == bucket_size(out, out[q0].bucket) by {
        lemma_injective_onto(df, n, q0);
        let i0 = choose|k: int| 0 <= k < n && #[trigger] df(k) == q0;
        let c = p[i0].bucket;
        let lo = bucket_start(p, c) + if b[i0] { bucket_zeros(p, b, c) as int } else { 0int };
        let len = if b[i0] { bucket_ones(p, b, c) } else { bucket_zeros(p, b, c) };
        lemma_destination_in_bucket(p, b, i0);
        assert forall|q: int| 0 <= q < n implies (#[trigger] out[q].bucket == out[q0].bucket <==> lo <= q < lo + len) by {
            lemma_next_bucket_slots(p, b, i0, q);
        }
        lemma_next_bucket_slots(p, b, i0, q0);
        lemma_count_bucket_range(out, out[q0].bucket, lo, lo + len, n);
        assert(out.len() == n);
    }
}

/// In a shuffle whose levels all fit, every level's input has contiguous
/// buckets, so every level is a stable permutation.
pub proof fn lemma_shuffle_levels_contiguous(n: nat, bits: Seq<Seq<bool>>, l: int)
    requires
        0 <= l <= bits.len(),
        forall|k: int| 0 <= k < bits.len() ==> (#[trigger] bits[k]).len() == n,
        forall|k: int| 0 <= k < bits.len() ==> #[trigger] level_fits(level_input(n, bits, k), bits[k]),
    ensures
        level_input(n, bits, l).len() == n,
        buckets_contiguous(level_input(n, bits, l)),
    decreases l,
{
    if l > 0 {
        lemma_shuffle_levels_contiguous(n, bits, l - 1);
        let p = level_input(n, bits, l - 1);
        assert(level_fits(p, bits[l - 1]));
        assert forall|i: int| 0 <= i < p.len() implies #[trigger] next_bucket(p[i].bucket, bits[l - 1][i])
            <= u16::MAX by {
            assert(destination(p, bits[l - 1], i) <= u16::MAX);
        }
        lemma_contiguous_level_stays_contiguous(p, bits[l - 1]);
    }
}

// ---------------------------------------------------------------------------
// Split bits
// ---------------------------------------------------------------------------

/// The bits of `bytes`, least significant bit of each byte first.
pub open spec fn byte_bits(bytes: Seq<u8>) -> Seq<bool> {
    Seq::new(8 * bytes.len(), |k: int| (bytes[k / 8] >> ((k % 8) as u8)) & 1u8 == 1u8)
}

/// Index of the highest set bit (0 when no bit is set).
pub open spec fn msb_position(bits: Seq<bool>) -> int
    decreases bits.len(),
{
    if bits.len() == 0 {
        0
    } else if bits.last() {
        bits.len() - 1
    } else {
        msb_position(bits.drop_last())
    }
}

/// `bits` with the bit at index `m` left out (nothing to leave out when
/// `bits` is empty).
pub open spec fn without_index(bits: Seq<bool>, m: int) -> Seq<bool> {
    if bits.len() == 0 {
        bits
    } else {
        bits.take(m) + bits.skip(m + 1)
    }
}

/// Converts bytes to bits, least significant bit of each byte first.
pub fn bytes_to_bits(bytes: &[u8]) -> (bits: Vec<bool>)
    ensures
        bits@ == byte_bits(bytes@),
{
    let mut bits: Vec<bool> = Vec::new();
    let mut k: usize = 0;
    while k < bytes.len()
        invariant
            k <= bytes.len(),
            bits@.len() == 8 * k,
            forall|j: int|
                0 <= j < bits@.len() ==> #[trigger] bits@[j] == ((bytes@[j / 8] >> ((j % 8) as u8))
                    & 1u8 == 1u8),
        decreases bytes.len() - k,
    {
        let byte = bytes[k];
        let mut i: u8 = 0;
        while i < 8
            invariant
                k < bytes.len(),
                byte == bytes@[k as int],
                i <= 8,
                bits@.len() == 8 * k + i,
                forall|j: int|
                    0 <= j < bits@.len() ==> #[trigger] bits@[j] == ((bytes@[j / 8] >> ((j % 8) as u8))
                        & 1u8 == 1u8),
            decreases 8 - i,
        {
            assert((8 * k + i) / 8 == k && (8 * k + i) % 8 == i as int) by (nonlinear_arith)
                requires
                    i < 8,
            ;
            bits.push((byte >> i) & 1 == 1);
            i = i + 1;
        }
        k = k + 1;
    }
    assert(bits@ =~= byte_bits(bytes@));
    bits
}

/// Position of the most significant (highest set) bit; 0 when no bit is set.
pub fn find_msb_position(bits: &[bool]) -> (pos: usize)
    ensures
        pos == msb_position(bits@),
        bits@.len() > 0 ==> pos < bits@.len(),
        forall|j: int| pos < j < bits@.len() ==> !#[trigger] bits@[j],
        (exists|j: int| 0 <= j < bits@.len() && #[trigger] bits@[j]) ==> bits@[pos as int],
        (forall|j: int| 0 <= j < bits@.len() ==> !#[trigger] bits@[j]) ==> pos == 0,
{
    proof {
        lemma_msb_position_is_highest_set_bit(bits@);
    }
    let mut i: usize = bits.len();
    assert(bits@.take(i as int) =~= bits@);
    while i > 0
        invariant
            i <= bits.len(),
            msb_position(bits@) == msb_position(bits@.take(i as int)),
        decreases i,
    {
        assert(bits@.take(i as int).drop_last() =~= bits@.take(i - 1));
        if bits[i - 1] {
            proof {
                lemma_msb_position_is_highest_set_bit(bits@);
            }
            return i - 1;
        }
        i = i - 1;
    }
    0
}

/// Appends to `level_bits` the bits of `value_bits` except its most
/// significant set bit, stopping once `level_bits` holds `n` bits.
pub fn push_bits_except_msb(level_bits: &mut Vec<bool>, value_bits: &[bool], n: usize)
    ensures
        final(level_bits)@ == if old(level_bits)@.len() >= n {
            old(level_bits)@
        } else {
            old(level_bits)@ + without_index(value_bits@, msb_position(value_bits@)).take(
                vstd::math::min(
                    without_index(value_bits@, msb_position(value_bits@)).len() as int,
                    n - old(level_bits)@.len(),
                ),
            )
        },
        final(level_bits)@.len() == if old(level_bits)@.len() >= n {
            old(level_bits)@.len() as int
        } else {
            vstd::math::min(
                n as int,
                old(level_bits)@.len() + if value_bits@.len() == 0 {
                    0int
                } else {
                    value_bits@.len() - 1
                },
            )
        },
        forall|k: int| 0 <= k < old(level_bits)@.len() ==> #[trigger] final(level_bits)@[k] == old(level_bits)@[k],
        forall|k: int|
            old(level_bits)@.len() <= k < final(level_bits)@.len() ==> #[trigger] final(level_bits)@[k]
                == value_bits@[if k - old(level_bits)@.len() < msb_position(value_bits@) {
                k - old(level_bits)@.len()
            } else {
                k - old(level_bits)@.len() + 1
            }],
{
    let ghost start = level_bits@;
    let ghost kept = without_index(value_bits@, msb_position(value_bits@));
    let msb = find_msb_position(value_bits);
    proof {
        lemma_msb_position_bound(value_bits@);
    }
    let mut i: usize = 0;
    while i < value_bits.len()
        invariant
            i <= value_bits.len(),
            msb == msb_position(value_bits@),
            value_bits@.len() > 0 ==> msb < value_bits@.len(),
            kept == without_index(value_bits@, msb as int),
            level_bits@ == if start.len() >= n {
                start
            } else {
                start + kept.take(
                    vstd::math::min(
                        (if i <= msb {
                            i as int
                        } else {
                            i - 1
                        }),
                        n - start.len(),
                    ),
                )
            },
        decreases value_bits.len() - i,
    {
        if i != msb && level_bits.len() < n {
            level_bits.push(value_bits[i]);
        }
        i = i + 1;
    }
    assert(kept.len() == if value_bits@.len() == 0 { 0 } else { value_bits@.len() - 1 });
    assert forall|k: int| start.len() <= k < level_bits@.len() implies #[trigger] level_bits@[k]
        == value_bits@[if k - start.len() < msb {
        k - start.len()
    } else {
        k - start.len() + 1
    }] by {
        assert(level_bits@[k] == kept[k - start.len()]);
    }
}

/// The most significant set bit: no set bit lies above it, it is set when
/// any bit is, and it is 0 when none is.
pub proof fn lemma_msb_position_is_highest_set_bit(bits: Seq<bool>)
    ensures
        bits.len() > 0 ==> 0 <= msb_position(bits) < bits.len(),
        forall|j: int| msb_position(bits) < j < bits.len() ==> !#[trigger] bits[j],
        (exists|j: int| 0 <= j < bits.len() && #[trigger] bits[j]) ==> bits[msb_position(bits)],
        (forall|j: int| 0 <= j < bits.len() ==> !#[trigger] bits[j]) ==> msb_position(bits) == 0,
    decreases bits.len(),
{
    lemma_msb_position_bound(bits);
    if bits.len() > 0 && !bits.last() {
        let d = bits.drop_last();
        lemma_msb_position_is_highest_set_bit(d);
        assert forall|j: int| msb_position(bits) < j < bits.len() implies !#[trigger] bits[j] by {
            if j < bits.len() - 1 {
                assert(bits[j] == d[j]);
            }
        }
        if exists|j: int| 0 <= j < bits.len() && #[trigger] bits[j] {
            let j = choose|j: int| 0 <= j < bits.len() && #[trigger] bits[j];
            assert(d[j]);
            assert(bits[msb_position(bits)] == d[msb_position(d)]);
        }
        if forall|j: int| 0 <= j < bits.len() ==> !#[trigger] bits[j] {
            assert forall|j: int| 0 <= j < d.len() implies !#[trigger] d[j] by {
                assert(d[j] == bits[j]);
            }
        }
    }
}

proof fn lemma_msb_position_bound(bits: Seq<bool>)
    ensures
        bits.len() > 0 ==> 0 <= msb_position(bits) < bits.len(),
        bits.len() == 0 ==> msb_position(bits) == 0,
    decreases bits.len(),
{
    if bits.len() > 0 && !bits.last() {
        lemma_msb_position_bound(bits.drop_last());
    }
}

} // verus!
