//! The rank-counting primitive: given one ascending block of reference
//! values and a query value `x`, split the block into the values strictly
//! below `x`, the values equal to `x`, and the values strictly above `x`.
//!
//! Two strategies compute the same triple: a linear scan, and a binary
//! search whose hit is widened to the full run of equal values. Both carry
//! the same contract, so every caller may pick either.

use vstd::prelude::*;

verus! {

use vstd::slice::slice_index_get;

/// An ascending (non-decreasing) sequence of order keys.
pub open spec fn is_ascending(s: Seq<i64>) -> bool {
    forall|i: int, j: int| 0 <= i <= j < s.len() ==> s[i] <= s[j]
}

/// The triple `(lt, eq, gt)` partitions `s` around `x` positionally:
/// the first `lt` values lie strictly below `x`, the next `eq` values
/// equal `x`, and everything after lies strictly above `x`.
pub open spec fn is_partition(s: Seq<i64>, x: i64, lt: int, eq: int) -> bool {
    &&& 0 <= lt
    &&& 0 <= eq
    &&& lt + eq <= s.len()
    &&& forall|i: int| 0 <= i < lt ==> s[i] < x
    &&& forall|i: int| lt <= i < lt + eq ==> s[i] == x
    &&& forall|i: int| lt + eq <= i < s.len() ==> s[i] > x
}

/// How many values of `s` lie strictly below `x`.
pub open spec fn count_lt(s: Seq<i64>, x: i64) -> int
    decreases s.len(),
{
    if s.len() == 0 {
        0
    } else {
        count_lt(s.drop_last(), x) + if s.last() < x {
            1int
        } else {
            0int
        }
    }
}

/// How many values of `s` equal `x`.
pub open spec fn count_eq(s: Seq<i64>, x: i64) -> int
    decreases s.len(),
{
    if s.len() == 0 {
        0
    } else {
        count_eq(s.drop_last(), x) + if s.last() == x {
            1int
        } else {
            0int
        }
    }
}

/// How many values of `s` lie strictly above `x`.
pub open spec fn count_gt(s: Seq<i64>, x: i64) -> int
    decreases s.len(),
{
    if s.len() == 0 {
        0
    } else {
        count_gt(s.drop_last(), x) + if s.last() > x {
            1int
        } else {
            0int
        }
    }
}

/// The three counts are non-negative and sum to the length of `s`.
pub proof fn lemma_counts_sum(s: Seq<i64>, x: i64)
    ensures
        count_lt(s, x) + count_eq(s, x) + count_gt(s, x) == s.len(),
        0 <= count_lt(s, x),
        0 <= count_eq(s, x),
        0 <= count_gt(s, x),
    decreases s.len(),
{
    if s.len() > 0 {
        lemma_counts_sum(s.drop_last(), x);
    }
}

/// A positional partition triple consists exactly of the three counts:
/// `lt` values below, `eq` values equal, and the rest above.
pub proof fn lemma_partition_counts(s: Seq<i64>, x: i64, lt: int, eq: int)
    requires
        is_partition(s, x, lt, eq),
    ensures
        count_lt(s, x) == lt,
        count_eq(s, x) == eq,
        count_gt(s, x) == s.len() - lt - eq,
    decreases s.len(),
{
    if s.len() == 0 {
        // lt == 0 and eq == 0 are forced by lt + eq <= 0.
    } else {
        let prev = s.drop_last();
        if lt + eq < s.len() {
            assert(is_partition(prev, x, lt, eq));
            lemma_partition_counts(prev, x, lt, eq);
        } else if eq > 0 {
            assert(s.last() == x);
            assert(is_partition(prev, x, lt, eq - 1));
            lemma_partition_counts(prev, x, lt, eq - 1);
        } else {
            assert(s.last() < x);
            assert(is_partition(prev, x, lt - 1, 0));
            lemma_partition_counts(prev, x, lt - 1, 0);
        }
    }
}

/// Both rank-counting strategies land on the same triple: a sequence admits
/// at most one positional partition around a given value, whether or not it
/// is sorted.
pub proof fn lemma_partition_unique(s: Seq<i64>, x: i64, lt1: int, eq1: int, lt2: int, eq2: int)
    requires
        is_partition(s, x, lt1, eq1),
        is_partition(s, x, lt2, eq2),
    ensures
        lt1 == lt2,
        eq1 == eq2,
{
    lemma_partition_counts(s, x, lt1, eq1);
    lemma_partition_counts(s, x, lt2, eq2);
}

/// Scan-based strategy: find the first index at or above `x`, then the
/// first index strictly above `x`; the gaps give the three counts.
pub fn partition_scan(sorted_ys: &[i64], x: i64) -> (r: (usize, usize, usize))
    requires
        is_ascending(sorted_ys@),
    ensures
        ({
            let (lt, eq, gt) = r;
            &&& is_partition(sorted_ys@, x, lt as int, eq as int)
            &&& lt + eq + gt == sorted_ys@.len()
            &&& lt == count_lt(sorted_ys@, x)
            &&& eq == count_eq(sorted_ys@, x)
            &&& gt == count_gt(sorted_ys@, x)
        }),
{
    let n = sorted_ys.len();
    let mut lt: usize = 0;
    while lt < n && *slice_index_get(sorted_ys, lt) < x
        invariant
            n == sorted_ys@.len(),
            lt <= n,
            forall|i: int| 0 <= i < lt ==> sorted_ys@[i] < x,
        decreases n - lt,
    {
        lt += 1;
    }
    let mut end: usize = lt;
    while end < n && *slice_index_get(sorted_ys, end) == x
        invariant
            n == sorted_ys@.len(),
            lt <= end <= n,
            forall|i: int| lt <= i < end ==> sorted_ys@[i] == x,
        decreases n - end,
    {
        end += 1;
    }
    proof {
        assert forall|i: int| end <= i < sorted_ys@.len() implies sorted_ys@[i] > x by {
            assert(sorted_ys@[end as int] <= sorted_ys@[i]);
            assert(sorted_ys@[end as int] >= x);
        }
        assert(is_partition(sorted_ys@, x, lt as int, (end - lt) as int));
        lemma_partition_counts(sorted_ys@, x, lt as int, (end - lt) as int);
    }
    (lt, end - lt, n - end)
}

/// Binary search for `x` in the ascending slice `s`: a hit returns some
/// index holding `x`; a miss returns the insertion point, with everything
/// before it below `x` and everything from it on above `x`.
fn binary_search_value(s: &[i64], x: i64) -> (r: Result<usize, usize>)
    requires
        is_ascending(s@),
    ensures
        match r {
            Ok(i) => i < s@.len() && s@[i as int] == x,
            Err(i) => {
                &&& i <= s@.len()
                &&& forall|j: int| 0 <= j < i ==> s@[j] < x
                &&& forall|j: int| i <= j < s@.len() ==> s@[j] > x
            },
        },
{
    let mut lo: usize = 0;
    let mut hi: usize = s.len();
    while lo < hi
        invariant
            is_ascending(s@),
            lo <= hi <= s@.len(),
            forall|j: int| 0 <= j < lo ==> s@[j] < x,
            forall|j: int| hi <= j < s@.len() ==> s@[j] > x,
        decreases hi - lo,
    {
        let mid = lo + (hi - lo) / 2;
        let v = *slice_index_get(s, mid);
        if v < x {
            lo = mid + 1;
        } else if v > x {
            hi = mid;
        } else {
            return Ok(mid);
        }
    }
    Err(lo)
}

/// Widen a known hit: starting from an index `i` holding `x`, walk left and
/// right to the bounds of the whole run of values equal to `x`. Returns
/// `(lower, upper)` with the run at `lower..upper`.
pub fn extents(sorted: &[i64], x: i64, i: usize) -> (r: (usize, usize))
    requires
        is_ascending(sorted@),
        i < sorted@.len(),
        sorted@[i as int] == x,
    ensures
        ({
            let (lower, upper) = r;
            &&& lower <= i < upper <= sorted@.len()
            &&& forall|j: int| lower <= j < upper ==> sorted@[j] == x
            &&& (lower > 0 ==> sorted@[lower - 1] < x)
            &&& (upper < sorted@.len() ==> sorted@[upper as int] > x)
        }),
{
    let n = sorted.len();
    let mut lower = i;
    while lower > 0 && *slice_index_get(sorted, lower - 1) == x
        invariant
            i < sorted@.len(),
            lower <= i,
            forall|j: int| lower <= j <= i ==> sorted@[j] == x,
        decreases lower,
    {
        lower -= 1;
    }
    let mut upper = i + 1;
    while upper < n && *slice_index_get(sorted, upper) == x
        invariant
            is_ascending(sorted@),
            n == sorted@.len(),
            i < upper <= sorted@.len(),
            forall|j: int| i < j < upper ==> sorted@[j] == x,
        decreases sorted@.len() - upper,
    {
        upper += 1;
    }
    proof {
        if lower > 0 {
            assert(sorted@[lower - 1] <= sorted@[i as int]);
        }
        if upper < sorted@.len() {
            assert(sorted@[i as int] <= sorted@[upper as int]);
        }
    }
    (lower, upper)
}

/// Search-then-expand strategy: binary-search for `x`, widen a hit to the
/// full equal run, and read the three counts off the run bounds.
pub fn partition(sorted_ys: &[i64], x: i64) -> (r: (usize, usize, usize))
    requires
        is_ascending(sorted_ys@),
    ensures
        ({
            let (lt, eq, gt) = r;
            &&& is_partition(sorted_ys@, x, lt as int, eq as int)
            &&& lt + eq + gt == sorted_ys@.len()
            &&& lt == count_lt(sorted_ys@, x)
            &&& eq == count_eq(sorted_ys@, x)
            &&& gt == count_gt(sorted_ys@, x)
        }),
{
    match binary_search_value(sorted_ys, x) {
        Result::Err(i) => {
            proof {
                assert(is_partition(sorted_ys@, x, i as int, 0));
                lemma_partition_counts(sorted_ys@, x, i as int, 0);
            }
            (i, 0, sorted_ys.len() - i)
        },
        Result::Ok(i) => {
            let (lower, upper) = extents(sorted_ys, x, i);
            proof {
                assert forall|j: int| 0 <= j < lower implies sorted_ys@[j] < x by {
                    assert(sorted_ys@[j] <= sorted_ys@[lower - 1]);
                }
                assert forall|j: int|
                    upper <= j < sorted_ys@.len() implies sorted_ys@[j] > x by {
                    assert(sorted_ys@[upper as int] <= sorted_ys@[j]);
                }
                assert(is_partition(sorted_ys@, x, lower as int, (upper - lower) as int));
                lemma_partition_counts(sorted_ys@, x, lower as int, (upper - lower) as int);
            }
            (lower, upper - lower, sorted_ys.len() - upper)
        },
    }
}

} // verus!
