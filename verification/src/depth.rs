//! The Depth Index and the query engine.
//!
//! The index stores, for each timepoint `t`, the `N` reference values at
//! `t` in ascending order, as one flat column-major vector of `T`
//! contiguous blocks of `N` values. A query walks the blocks, splits each
//! around the query value with the rank-counting primitive, counts the
//! reference pairs that enclose or tie with the value there, and returns
//! the total as an exact fraction of the maximum `T * C(N, 2)`.

use vstd::prelude::*;

verus! {

use crate::combinatorics::choose2_u128;
use crate::combinatorics::lemma_choose2_double;
use crate::combinatorics::lemma_choose2_nonneg;
use crate::combinatorics::lemma_choose2_split;
use crate::combinatorics::spec_choose2;
use crate::rank::count_eq;
use crate::rank::count_gt;
use crate::rank::count_lt;
use crate::rank::is_ascending;
use crate::rank::is_partition;
use crate::rank::lemma_counts_sum;
use crate::rank::lemma_partition_counts;
use crate::rank::partition;
use crate::sorting::insert_sorted;
use vstd::relations::sorted_by;
use vstd::relations::total_ordering;
use vstd::seq_lib::lemma_sorted_unique;
use vstd::seq_lib::to_multiset_build;
use vstd::slice::slice_index_get;
use vstd::slice::slice_subrange;

/// Why a construction or a query was rejected.
#[derive(Debug, Clone, Copy, PartialEq, Eq, Structural)]
pub enum DepthError {
    /// A buffer or query curve length does not match the expected `T` or `N * T`.
    DimensionMismatch,
    /// An empty ensemble, zero timepoints, or inconsistent curve lengths.
    InvalidInput,
    /// Fewer than two reference curves: the normalization is undefined.
    DegenerateReferenceSet,
}

/// A depth value as an exact fraction: `numerator / denominator` lies in
/// `[0, 1]`, with `denominator == T * C(N, 2) > 0`.
#[derive(Debug, Clone, Copy, PartialEq, Eq, Structural)]
pub struct DepthScore {
    pub numerator: u128,
    pub denominator: u128,
}

/// The contiguous block of `n` values at block index `t` in a flat sequence.
pub open spec fn block_of(s: Seq<i64>, n: int, t: int) -> Seq<i64> {
    s.subrange(t * n, t * n + n)
}

/// Column `t` of a row-major `rows x timepoints` matrix, in row order.
pub open spec fn matrix_column(data: Seq<i64>, rows: int, timepoints: int, t: int) -> Seq<i64> {
    Seq::new(rows as nat, |i: int| data[i * timepoints + t])
}

/// The values that the curves of a curve list take at timepoint `t`, in
/// curve order.
pub open spec fn curves_column(curves: Seq<Vec<i64>>, t: int) -> Seq<i64> {
    Seq::new(curves.len(), |i: int| curves[i]@[t])
}

/// How many unordered pairs of reference values at one timepoint enclose or
/// tie with the query value `x`: pairs straddling `x`, pairs with one side
/// tied, and pairs tied on both sides.
pub open spec fn spec_term(block: Seq<i64>, x: i64) -> int {
    count_lt(block, x) * count_eq(block, x) + count_eq(block, x) * count_gt(block, x) + count_lt(
        block,
        x,
    ) * count_gt(block, x) + spec_choose2(count_eq(block, x))
}

/// The enclosure term of one timepoint lies between 0 and the total number
/// of reference pairs.
pub proof fn lemma_term_in_range(block: Seq<i64>, x: i64)
    ensures
        0 <= spec_term(block, x) <= spec_choose2(block.len() as int),
{
    lemma_counts_sum(block, x);
    let a = count_lt(block, x);
    let b = count_eq(block, x);
    let c = count_gt(block, x);
    lemma_choose2_split(a, b, c);
    lemma_choose2_nonneg(a);
    lemma_choose2_nonneg(b);
    lemma_choose2_nonneg(c);
    assert(0 <= a * b && 0 <= b * c && 0 <= a * c) by (nonlinear_arith)
        requires
            0 <= a,
            0 <= b,
            0 <= c,
    ;
}

/// The Depth Index: an immutable, per-timepoint sorted snapshot of the
/// reference ensemble, built once and queried many times.
#[derive(Debug, PartialEq)]
pub struct ModifiedBandDepth {
    num_samples: usize,
    num_timepoints: usize,
    sorted_matrix: Vec<i64>,  // column major
}

impl ModifiedBandDepth {
    /// N: how many reference curves the index was built from.
    pub closed spec fn spec_num_samples(self) -> int {
        self.num_samples as int
    }

    /// T: how many timepoints each curve has.
    pub closed spec fn spec_num_timepoints(self) -> int {
        self.num_timepoints as int
    }

    /// The flat column-major contents: `T` blocks of `N` values each.
    pub closed spec fn spec_values(self) -> Seq<i64> {
        self.sorted_matrix@
    }

    /// The sorted block of reference values at timepoint `t`.
    pub open spec fn block(self, t: int) -> Seq<i64> {
        block_of(self.spec_values(), self.spec_num_samples(), t)
    }

    /// The structural invariant: at least one curve and one timepoint, a
    /// flat vector of exactly `N * T` values, and every block ascending.
    pub open spec fn well_formed(self) -> bool {
        &&& 1 <= self.spec_num_samples()
        &&& 1 <= self.spec_num_timepoints()
        &&& self.spec_values().len() == self.spec_num_samples() * self.spec_num_timepoints()
        &&& forall|t: int|
            0 <= t < self.spec_num_timepoints() ==> is_ascending(#[trigger] self.block(t))
    }

    /// The raw enclosure count accumulated over the first `t` timepoints.
    pub open spec fn numerator_up_to(self, sample: Seq<i64>, t: int) -> int
        decreases t,
    {
        if t <= 0 {
            0
        } else {
            self.numerator_up_to(sample, t - 1) + spec_term(self.block(t - 1), sample[t - 1])
        }
    }

    /// The raw enclosure count of a query curve over all timepoints.
    pub open spec fn spec_numerator(self, sample: Seq<i64>) -> int {
        self.numerator_up_to(sample, self.spec_num_timepoints())
    }

    /// The maximum possible enclosure count: every pair at every timepoint.
    pub open spec fn spec_denominator(self) -> int {
        self.spec_num_timepoints() * spec_choose2(self.spec_num_samples())
    }

    /// N: how many reference curves the index was built from.
    pub fn num_samples(&self) -> (r: usize)
        ensures
            r == self.spec_num_samples(),
    {
        self.num_samples
    }

    /// T: how many timepoints each curve has.
    pub fn num_timepoints(&self) -> (r: usize)
        ensures
            r == self.spec_num_timepoints(),
    {
        self.num_timepoints
    }

    /// The flat column-major contents: `T` blocks of `N` values each.
    pub fn sorted_values(&self) -> (r: &Vec<i64>)
        ensures
            r@ == self.spec_values(),
    {
        &self.sorted_matrix
    }
}

/// The accumulated count over the first `t` timepoints lies between 0 and
/// `t * C(N, 2)`.
pub proof fn lemma_numerator_up_to_range(m: ModifiedBandDepth, sample: Seq<i64>, t: int)
    requires
        m.well_formed(),
        sample.len() == m.spec_num_timepoints(),
        0 <= t <= m.spec_num_timepoints(),
    ensures
        0 <= m.numerator_up_to(sample, t) <= t * spec_choose2(m.spec_num_samples()),
    decreases t,
{
    let n = m.spec_num_samples();
    let tp = m.spec_num_timepoints();
    lemma_choose2_nonneg(n);
    if t > 0 {
        lemma_numerator_up_to_range(m, sample, t - 1);
        assert(0 <= (t - 1) * n && (t - 1) * n + n == t * n && t * n <= n * tp) by (nonlinear_arith)
            requires
                1 <= t <= tp,
                1 <= n,
        ;
        assert(m.block(t - 1).len() == n);
        lemma_term_in_range(m.block(t - 1), sample[t - 1]);
        assert((t - 1) * spec_choose2(n) + spec_choose2(n) == t * spec_choose2(n))
            by (nonlinear_arith);
    }
}

/// The query's raw count never exceeds its normalizer: the depth fraction
/// lies in `[0, 1]` for every well-formed index and matching query curve.
pub proof fn lemma_depth_in_range(m: ModifiedBandDepth, sample: Seq<i64>)
    requires
        m.well_formed(),
        sample.len() == m.spec_num_timepoints(),
    ensures
        0 <= m.spec_numerator(sample) <= m.spec_denominator(),
{
    lemma_numerator_up_to_range(m, sample, m.spec_num_timepoints());
}

/// Products of values bounded by `u64::MAX` stay strictly below `u128::MAX`.
proof fn lemma_u64_mul_fits(a: int, b: int)
    requires
        0 <= a <= u64::MAX as int,
        0 <= b <= u64::MAX as int,
    ensures
        0 <= a * b,
        a * b < u128::MAX as int,
{
    assert(0 <= a * b && a * b <= (u64::MAX as int) * (u64::MAX as int)) by (nonlinear_arith)
        requires
            0 <= a <= u64::MAX as int,
            0 <= b <= u64::MAX as int,
    ;
}

/// The normalizer `T * C(N, 2)` of a well-formed index fits in `u128`.
proof fn lemma_denominator_fits(n: int, tp: int)
    requires
        2 <= n,
        1 <= tp,
        n * tp <= usize::MAX as int,
    ensures
        1 <= tp * spec_choose2(n),
        tp * spec_choose2(n) < u128::MAX as int,
{
    lemma_choose2_double(n);
    lemma_choose2_nonneg(n);
    let c = spec_choose2(n);
    assert(n <= n * tp) by (nonlinear_arith)
        requires
            1 <= tp,
            0 <= n,
    ;
    assert(2 <= n * (n - 1)) by (nonlinear_arith)
        requires
            2 <= n,
    ;
    assert(1 <= c);
    assert(1 <= tp * c) by (nonlinear_arith)
        requires
            1 <= tp,
            1 <= c,
    ;
    assert(tp * (2 * c) == 2 * (tp * c)) by (nonlinear_arith);
    assert(tp * (n * (n - 1)) == (n * tp) * (n - 1)) by (nonlinear_arith);
    assert((n * tp) * (n - 1) <= (usize::MAX as int) * (usize::MAX as int)) by (nonlinear_arith)
        requires
            0 <= n * tp <= usize::MAX as int,
            0 <= n - 1 <= usize::MAX as int,
    ;
    assert((usize::MAX as int) * (usize::MAX as int) <= (u64::MAX as int) * (u64::MAX as int))
        by (nonlinear_arith)
        requires
            0 <= usize::MAX as int <= u64::MAX as int,
    ;
    assert((u64::MAX as int) * (u64::MAX as int) < 2 * (u128::MAX as int));
}

impl ModifiedBandDepth {
    /// Build the index from a row-major matrix: `rows` curves as the rows,
    /// `timepoints` values per curve, flattened row by row into
    /// `data_matrix`. Each block of the result holds the matrix column of
    /// its timepoint, sorted ascending.
    pub fn from_data_matrix(rows: usize, timepoints: usize, data_matrix: &[i64]) -> (r: Result<
        ModifiedBandDepth,
        DepthError,
    >)
        ensures
            r is Ok <==> (1 <= rows && 1 <= timepoints && data_matrix@.len() == rows * timepoints),
            match r {
                Result::Ok(d) => {
                    &&& d.well_formed()
                    &&& d.spec_num_samples() == rows
                    &&& d.spec_num_timepoints() == timepoints
                    &&& forall|t: int|
                        0 <= t < timepoints ==> (#[trigger] d.block(t)).to_multiset()
                            == matrix_column(
                            data_matrix@,
                            rows as int,
                            timepoints as int,
                            t,
                        ).to_multiset()
                },
                Result::Err(e) => {
                    &&& (e == DepthError::InvalidInput <==> (rows == 0 || timepoints == 0))
                    &&& (e == DepthError::DimensionMismatch <==> (1 <= rows && 1 <= timepoints
                        && data_matrix@.len() != rows * timepoints))
                },
            },
    {
        let dlen = data_matrix.len();
        if rows == 0 || timepoints == 0 {
            return Result::Err(DepthError::InvalidInput);
        }
        let total = match rows.checked_mul(timepoints) {
            Option::Some(p) => p,
            Option::None => {
                proof {
                    assert(dlen < rows * timepoints);
                }
                return Result::Err(DepthError::DimensionMismatch);
            },
        };
        if dlen != total {
            return Result::Err(DepthError::DimensionMismatch);
        }
        let mut sorted_matrix: Vec<i64> = Vec::new();
        let mut t: usize = 0;
        while t < timepoints
            invariant
                1 <= rows,
                1 <= timepoints,
                dlen == data_matrix@.len(),
                data_matrix@.len() == rows * timepoints,
                t <= timepoints,
                sorted_matrix@.len() == t * rows,
                forall|u: int|
                    0 <= u < t ==> is_ascending(
                        #[trigger] block_of(sorted_matrix@, rows as int, u),
                    ),
                forall|u: int|
                    0 <= u < t ==> (#[trigger] block_of(sorted_matrix@, rows as int, u)).to_multiset()
                        == matrix_column(
                        data_matrix@,
                        rows as int,
                        timepoints as int,
                        u,
                    ).to_multiset(),
            decreases timepoints - t,
        {
            let ghost col_spec = matrix_column(data_matrix@, rows as int, timepoints as int, t as int);
            let mut col: Vec<i64> = Vec::new();
            proof {
                assert(col@ =~= col_spec.take(0));
            }
            let mut i: usize = 0;
            while i < rows
                invariant
                    1 <= rows,
                    1 <= timepoints,
                    t < timepoints,
                    dlen == data_matrix@.len(),
                    data_matrix@.len() == rows * timepoints,
                    col_spec == matrix_column(data_matrix@, rows as int, timepoints as int, t as int),
                    i <= rows,
                    col@.len() == i,
                    is_ascending(col@),
                    col@.to_multiset() == col_spec.take(i as int).to_multiset(),
                decreases rows - i,
            {
                proof {
                    assert(0 <= i * timepoints + t < rows * timepoints) by (nonlinear_arith)
                        requires
                            i < rows,
                            t < timepoints,
                            0 <= i,
                            0 <= t,
                            1 <= timepoints,
                    ;
                }
                let idx = i * timepoints + t;
                let value = *slice_index_get(data_matrix, idx);
                let ghost col_pre = col@;
                insert_sorted(&mut col, value);
                proof {
                    assert(col_spec[i as int] == value);
                    assert(col_spec.take(i as int + 1) =~= col_spec.take(i as int).push(value));
                    to_multiset_build(col_spec.take(i as int), value);
                }
                i += 1;
            }
            let ghost pre = sorted_matrix@;
            let ghost colv = col@;
            sorted_matrix.append(&mut col);
            proof {
                assert(col_spec.take(rows as int) =~= col_spec);
                assert forall|u: int| 0 <= u < t + 1 implies is_ascending(
                    #[trigger] block_of(sorted_matrix@, rows as int, u),
                ) && block_of(sorted_matrix@, rows as int, u).to_multiset() == matrix_column(
                    data_matrix@,
                    rows as int,
                    timepoints as int,
                    u,
                ).to_multiset() by {
                    if u < t {
                        assert(0 <= u * rows && u * rows + rows <= t * rows) by (nonlinear_arith)
                            requires
                                0 <= u,
                                u + 1 <= t,
                                1 <= rows,
                        ;
                        assert(block_of(sorted_matrix@, rows as int, u) =~= block_of(
                            pre,
                            rows as int,
                            u,
                        ));
                    } else {
                        assert(block_of(sorted_matrix@, rows as int, u) =~= colv);
                    }
                }
                assert(sorted_matrix@.len() == (t + 1) * rows) by (nonlinear_arith)
                    requires
                        sorted_matrix@.len() == t * rows + rows,
                ;
            }
            t += 1;
        }
        let result = ModifiedBandDepth { num_samples: rows, num_timepoints: timepoints, sorted_matrix };
        proof {
            assert(result.spec_values().len() == rows * timepoints) by (nonlinear_arith)
                requires
                    result.spec_values().len() == timepoints * rows,
            ;
            assert forall|u: int| 0 <= u < timepoints implies is_ascending(#[trigger] result.block(u))
                && result.block(u).to_multiset() == matrix_column(
                data_matrix@,
                rows as int,
                timepoints as int,
                u,
            ).to_multiset() by {
                assert(result.block(u) == block_of(result.spec_values(), rows as int, u));
            }
        }
        Result::Ok(result)
    }

    /// Build the index from an explicit curve list: each entry one curve of
    /// `T` values. Produces exactly the index that the row-major constructor
    /// produces for the same data.
    pub fn from_samples(rows: &Vec<Vec<i64>>) -> (r: Result<ModifiedBandDepth, DepthError>)
        ensures
            r is Ok <==> (1 <= rows@.len() && 1 <= rows@[0]@.len() && (forall|i: int|
                0 <= i < rows@.len() ==> (#[trigger] rows@[i]@).len() == rows@[0]@.len())),
            match r {
                Result::Ok(d) => {
                    &&& d.well_formed()
                    &&& d.spec_num_samples() == rows@.len()
                    &&& d.spec_num_timepoints() == rows@[0]@.len()
                    &&& forall|t: int|
                        0 <= t < rows@[0]@.len() ==> (#[trigger] d.block(t)).to_multiset()
                            == curves_column(rows@, t).to_multiset()
                },
                Result::Err(e) => e == DepthError::InvalidInput,
            },
    {
        let num_samples = rows.len();
        if num_samples == 0 {
            return Result::Err(DepthError::InvalidInput);
        }
        let num_timepoints = rows[0].len();
        if num_timepoints == 0 {
            return Result::Err(DepthError::InvalidInput);
        }
        let mut k: usize = 1;
        while k < num_samples
            invariant
                num_samples == rows@.len(),
                num_timepoints == rows@[0]@.len(),
                1 <= k <= num_samples,
                forall|i: int| 0 <= i < k ==> (#[trigger] rows@[i]@).len() == num_timepoints,
            decreases num_samples - k,
        {
            if rows[k].len() != num_timepoints {
                return Result::Err(DepthError::InvalidInput);
            }
            k += 1;
        }
        let mut sorted_matrix: Vec<i64> = Vec::new();
        let mut t: usize = 0;
        while t < num_timepoints
            invariant
                1 <= num_samples,
                1 <= num_timepoints,
                num_samples == rows@.len(),
                num_timepoints == rows@[0]@.len(),
                forall|i: int|
                    0 <= i < num_samples ==> (#[trigger] rows@[i]@).len() == num_timepoints,
                t <= num_timepoints,
                sorted_matrix@.len() == t * num_samples,
                forall|u: int|
                    0 <= u < t ==> is_ascending(
                        #[trigger] block_of(sorted_matrix@, num_samples as int, u),
                    ),
                forall|u: int|
                    0 <= u < t ==> (#[trigger] block_of(
                        sorted_matrix@,
                        num_samples as int,
                        u,
                    )).to_multiset() == curves_column(rows@, u).to_multiset(),
            decreases num_timepoints - t,
        {
            let ghost col_spec = curves_column(rows@, t as int);
            let mut col: Vec<i64> = Vec::new();
            proof {
                assert(col@ =~= col_spec.take(0));
            }
            let mut i: usize = 0;
            while i < num_samples
                invariant
                    1 <= num_samples,
                    num_samples == rows@.len(),
                    num_timepoints == rows@[0]@.len(),
                    t < num_timepoints,
                    forall|q: int|
                        0 <= q < num_samples ==> (#[trigger] rows@[q]@).len() == num_timepoints,
                    col_spec == curves_column(rows@, t as int),
                    i <= num_samples,
                    col@.len() == i,
                    is_ascending(col@),
                    col@.to_multiset() == col_spec.take(i as int).to_multiset(),
                decreases num_samples - i,
            {
                let row: &Vec<i64> = &rows[i];
                let value = row[t];
                insert_sorted(&mut col, value);
                proof {
                    assert(col_spec[i as int] == value);
                    assert(col_spec.take(i as int + 1) =~= col_spec.take(i as int).push(value));
                    to_multiset_build(col_spec.take(i as int), value);
                }
                i += 1;
            }
            let ghost pre = sorted_matrix@;
            let ghost colv = col@;
            sorted_matrix.append(&mut col);
            proof {
                assert(col_spec.take(num_samples as int) =~= col_spec);
                assert forall|u: int| 0 <= u < t + 1 implies is_ascending(
                    #[trigger] block_of(sorted_matrix@, num_samples as int, u),
                ) && block_of(sorted_matrix@, num_samples as int, u).to_multiset()
                    == curves_column(rows@, u).to_multiset() by {
                    if u < t {
                        assert(0 <= u * num_samples && u * num_samples + num_samples <= t
                            * num_samples) by (nonlinear_arith)
                            requires
                                0 <= u,
                                u + 1 <= t,
                                1 <= num_samples,
                        ;
                        assert(block_of(sorted_matrix@, num_samples as int, u) =~= block_of(
                            pre,
                            num_samples as int,
                            u,
                        ));
                    } else {
                        assert(block_of(sorted_matrix@, num_samples as int, u) =~= colv);
                    }
                }
                assert(sorted_matrix@.len() == (t + 1) * num_samples) by (nonlinear_arith)
                    requires
                        sorted_matrix@.len() == t * num_samples + num_samples,
                ;
            }
            t += 1;
        }
        let result = ModifiedBandDepth { num_samples, num_timepoints, sorted_matrix };
        proof {
            assert(result.spec_values().len() == num_samples * num_timepoints)
                by (nonlinear_arith)
                requires
                    result.spec_values().len() == num_timepoints * num_samples,
            ;
            assert forall|u: int| 0 <= u < num_timepoints implies is_ascending(
                #[trigger] result.block(u),
            ) && result.block(u).to_multiset() == curves_column(rows@, u).to_multiset() by {
                assert(result.block(u) == block_of(result.spec_values(), num_samples as int, u));
            }
        }
        Result::Ok(result)
    }

    /// Compute the depth of a query curve against the index: at every
    /// timepoint, count the reference pairs that enclose or tie with the
    /// query value, and return the total over the maximum `T * C(N, 2)` as
    /// an exact fraction in `[0, 1]`. The counts run in `u128`, wide enough
    /// for every index whose flat matrix fits in a vector, so no ensemble
    /// size needs restricting.
    pub fn query(&self, sample: &[i64]) -> (r: Result<DepthScore, DepthError>)
        requires
            self.well_formed(),
        ensures
            r is Ok <==> (sample@.len() == self.spec_num_timepoints() && 2
                <= self.spec_num_samples()),
            match r {
                Result::Ok(score) => {
                    &&& score.numerator == self.spec_numerator(sample@)
                    &&& score.denominator == self.spec_denominator()
                    &&& 0 < score.denominator
                    &&& score.numerator <= score.denominator
                },
                Result::Err(e) => {
                    &&& (e == DepthError::DimensionMismatch <==> sample@.len()
                        != self.spec_num_timepoints())
                    &&& (e == DepthError::DegenerateReferenceSet <==> (sample@.len()
                        == self.spec_num_timepoints() && self.spec_num_samples() < 2))
                },
            },
    {
        if sample.len() != self.num_timepoints {
            return Result::Err(DepthError::DimensionMismatch);
        }
        if self.num_samples < 2 {
            return Result::Err(DepthError::DegenerateReferenceSet);
        }
        let n = self.num_samples;
        let tps = self.num_timepoints;
        let mlen = self.sorted_matrix.len();
        let ghost c2n = spec_choose2(n as int);
        proof {
            lemma_choose2_nonneg(n as int);
            lemma_denominator_fits(n as int, tps as int);
        }
        let mut count: u128 = 0;
        let mut t: usize = 0;
        while t < tps
            invariant
                self.well_formed(),
                n == self.spec_num_samples(),
                tps == self.spec_num_timepoints(),
                2 <= n,
                sample@.len() == tps,
                mlen == self.spec_values().len(),
                c2n == spec_choose2(n as int),
                0 <= c2n,
                tps as int * c2n < u128::MAX as int,
                t <= tps,
                count == self.numerator_up_to(sample@, t as int),
            decreases tps - t,
        {
            proof {
                assert(0 <= t * n && t * n + n == (t + 1) * n && (t + 1) * n <= tps * n && tps * n
                    == n * tps) by (nonlinear_arith)
                    requires
                        0 <= t,
                        t + 1 <= tps,
                        1 <= n,
                ;
            }
            let start = t * n;
            let end = start + n;
            let block_slice = slice_subrange(self.sorted_matrix.as_slice(), start, end);
            proof {
                assert(block_slice@ == self.block(t as int));
            }
            let v = *slice_index_get(sample, t);
            let (lt, eq, gt) = partition(block_slice, v);
            proof {
                lemma_u64_mul_fits(lt as int, eq as int);
                lemma_u64_mul_fits(eq as int, gt as int);
                lemma_u64_mul_fits(lt as int, gt as int);
                lemma_u64_mul_fits(eq as int, eq as int);
                lemma_term_in_range(block_slice@, v);
                assert(block_slice@.len() == n);
            }
            let lt_w = lt as u128;
            let eq_w = eq as u128;
            let gt_w = gt as u128;
            let pairs_eq = choose2_u128(eq_w);
            proof {
                lemma_choose2_nonneg(eq as int);
                assert(spec_term(block_slice@, v) == lt_w * eq_w + eq_w * gt_w + lt_w * gt_w
                    + pairs_eq);
                assert(self.numerator_up_to(sample@, t as int + 1) == self.numerator_up_to(
                    sample@,
                    t as int,
                ) + spec_term(self.block(t as int), sample@[t as int]));
                lemma_numerator_up_to_range(*self, sample@, t as int + 1);
                assert((t as int + 1) * c2n <= tps as int * c2n) by (nonlinear_arith)
                    requires
                        t as int + 1 <= tps as int,
                        0 <= c2n,
                ;
            }
            let term = lt_w * eq_w + eq_w * gt_w + lt_w * gt_w + pairs_eq;
            count = count + term;
            t += 1;
        }
        proof {
            lemma_u64_mul_fits(n as int, n as int);
        }
        let pairs = choose2_u128(n as u128);
        let denominator = (tps as u128) * pairs;
        proof {
            lemma_numerator_up_to_range(*self, sample@, tps as int);
        }
        Result::Ok(DepthScore { numerator: count, denominator })
    }
}

/// Matching prefixes of two indexes whose blocks agree: the first `t`
/// blocks of both flat vectors coincide.
proof fn lemma_values_prefix_eq(m1: ModifiedBandDepth, m2: ModifiedBandDepth, t: int)
    requires
        m1.well_formed(),
        m2.well_formed(),
        m1.spec_num_samples() == m2.spec_num_samples(),
        m1.spec_num_timepoints() == m2.spec_num_timepoints(),
        0 <= t <= m1.spec_num_timepoints(),
        forall|u: int| 0 <= u < t ==> #[trigger] m1.block(u) == m2.block(u),
    ensures
        m1.spec_values().subrange(0, t * m1.spec_num_samples()) == m2.spec_values().subrange(
            0,
            t * m1.spec_num_samples(),
        ),
    decreases t,
{
    let n = m1.spec_num_samples();
    let tp = m1.spec_num_timepoints();
    assert(0 <= t * n && t * n <= n * tp && (t - 1) * n + n == t * n && (t >= 1 ==> 0 <= (t - 1)
        * n)) by (nonlinear_arith)
        requires
            0 <= t <= tp,
            1 <= n,
    ;
    if t == 0 {
        assert(t * n == 0) by (nonlinear_arith)
            requires
                t == 0,
        ;
        assert(m1.spec_values().subrange(0, t * n) =~= m2.spec_values().subrange(0, t * n));
    } else {
        lemma_values_prefix_eq(m1, m2, t - 1);
        assert(m1.block(t - 1) == m2.block(t - 1));
        assert(m1.spec_values().subrange(0, t * n) =~= m1.spec_values().subrange(0, (t - 1) * n)
            + m1.block(t - 1));
        assert(m2.spec_values().subrange(0, t * n) =~= m2.spec_values().subrange(0, (t - 1) * n)
            + m2.block(t - 1));
        assert(m1.spec_values().subrange(0, t * n) == m2.spec_values().subrange(0, t * n));
    }
}

/// Construction equivalence: an index is fully determined by its dimensions
/// and by the multiset of reference values at each timepoint. Both
/// constructors pin exactly those, so row-major and curve-list input of the
/// same ensemble give identical indexes.
pub proof fn lemma_construction_equivalence(m1: ModifiedBandDepth, m2: ModifiedBandDepth)
    requires
        m1.well_formed(),
        m2.well_formed(),
        m1.spec_num_samples() == m2.spec_num_samples(),
        m1.spec_num_timepoints() == m2.spec_num_timepoints(),
        forall|t: int|
            0 <= t < m1.spec_num_timepoints() ==> (#[trigger] m1.block(t)).to_multiset()
                == m2.block(t).to_multiset(),
    ensures
        m1.spec_values() == m2.spec_values(),
        forall|t: int|
            0 <= t < m1.spec_num_timepoints() ==> #[trigger] m1.block(t) == m2.block(t),
{
    let n = m1.spec_num_samples();
    let tp = m1.spec_num_timepoints();
    let leq = |a: i64, b: i64| a <= b;
    assert forall|t: int| 0 <= t < tp implies #[trigger] m1.block(t) == m2.block(t) by {
        assert(sorted_by(m1.block(t), leq));
        assert(sorted_by(m2.block(t), leq));
        assert(total_ordering(leq));
        lemma_sorted_unique(m1.block(t), m2.block(t), leq);
    }
    lemma_values_prefix_eq(m1, m2, tp);
    assert(tp * n == n * tp) by (nonlinear_arith);
    assert(m1.spec_values().subrange(0, tp * n) =~= m1.spec_values());
    assert(m2.spec_values().subrange(0, tp * n) =~= m2.spec_values());
}

/// A query value at or between the two reference values of a two-curve
/// block is enclosed by their one pair: the block's term is exactly 1.
proof fn lemma_term_two(s: Seq<i64>, x: i64)
    requires
        s.len() == 2,
        s[0] <= x,
        x <= s[1],
    ensures
        spec_term(s, x) == 1,
{
    reveal_with_fuel(count_lt, 3);
    reveal_with_fuel(count_eq, 3);
    reveal_with_fuel(count_gt, 3);
    assert(s.drop_last().last() == s[0]);
    assert(s.drop_last().drop_last().len() == 0);
    if s[0] < x {
        if x < s[1] {
            assert(count_lt(s, x) == 1 && count_eq(s, x) == 0 && count_gt(s, x) == 1);
        } else {
            assert(count_lt(s, x) == 1 && count_eq(s, x) == 1 && count_gt(s, x) == 0);
        }
    } else {
        if x < s[1] {
            assert(count_lt(s, x) == 0 && count_eq(s, x) == 1 && count_gt(s, x) == 1);
        } else {
            assert(count_lt(s, x) == 0 && count_eq(s, x) == 2 && count_gt(s, x) == 0);
            assert(spec_choose2(2) == 1);
        }
    }
}

/// The first `t` terms of a query curve that lies outside every reference
/// value on the same side sum to zero.
proof fn lemma_numerator_zero_up_to(m: ModifiedBandDepth, sample: Seq<i64>, t: int, below: bool)
    requires
        m.well_formed(),
        sample.len() == m.spec_num_timepoints(),
        0 <= t <= m.spec_num_timepoints(),
        below ==> forall|u: int, i: int|
            0 <= u < m.spec_num_timepoints() && 0 <= i < m.spec_num_samples() ==> sample[u]
                < #[trigger] m.block(u)[i],
        !below ==> forall|u: int, i: int|
            0 <= u < m.spec_num_timepoints() && 0 <= i < m.spec_num_samples() ==> sample[u]
                > #[trigger] m.block(u)[i],
    ensures
        m.numerator_up_to(sample, t) == 0,
    decreases t,
{
    let n = m.spec_num_samples();
    let tp = m.spec_num_timepoints();
    if t > 0 {
        lemma_numerator_zero_up_to(m, sample, t - 1, below);
        assert(0 <= (t - 1) * n && (t - 1) * n + n == t * n && t * n <= n * tp)
            by (nonlinear_arith)
            requires
                1 <= t <= tp,
                1 <= n,
        ;
        let b = m.block(t - 1);
        assert(b.len() == n);
        let x = sample[t - 1];
        if below {
            assert(is_partition(b, x, 0, 0));
            lemma_partition_counts(b, x, 0, 0);
        } else {
            assert(is_partition(b, x, n, 0));
            lemma_partition_counts(b, x, n, 0);
        }
        assert(spec_term(b, x) == 0);
    }
}

/// A query curve strictly below every reference value at every timepoint is
/// enclosed by no pair anywhere: its raw count, and so its depth, is zero.
pub proof fn lemma_depth_zero_strictly_below(m: ModifiedBandDepth, sample: Seq<i64>)
    requires
        m.well_formed(),
        sample.len() == m.spec_num_timepoints(),
        forall|t: int, i: int|
            0 <= t < m.spec_num_timepoints() && 0 <= i < m.spec_num_samples() ==> sample[t]
                < #[trigger] m.block(t)[i],
    ensures
        m.spec_numerator(sample) == 0,
{
    lemma_numerator_zero_up_to(m, sample, m.spec_num_timepoints(), true);
}

/// A query curve strictly above every reference value at every timepoint is
/// enclosed by no pair anywhere: its raw count, and so its depth, is zero.
pub proof fn lemma_depth_zero_strictly_above(m: ModifiedBandDepth, sample: Seq<i64>)
    requires
        m.well_formed(),
        sample.len() == m.spec_num_timepoints(),
        forall|t: int, i: int|
            0 <= t < m.spec_num_timepoints() && 0 <= i < m.spec_num_samples() ==> sample[t]
                > #[trigger] m.block(t)[i],
    ensures
        m.spec_numerator(sample) == 0,
{
    lemma_numerator_zero_up_to(m, sample, m.spec_num_timepoints(), false);
}

/// The first `t` terms of a query curve enclosed by a two-curve ensemble at
/// every timepoint sum to `t`.
proof fn lemma_numerator_enclosed_up_to(m: ModifiedBandDepth, sample: Seq<i64>, t: int)
    requires
        m.well_formed(),
        m.spec_num_samples() == 2,
        sample.len() == m.spec_num_timepoints(),
        0 <= t <= m.spec_num_timepoints(),
        forall|u: int|
            0 <= u < m.spec_num_timepoints() ==> (#[trigger] m.block(u))[0] <= sample[u]
                && sample[u] <= m.block(u)[1],
    ensures
        m.numerator_up_to(sample, t) == t,
    decreases t,
{
    let tp = m.spec_num_timepoints();
    if t > 0 {
        lemma_numerator_enclosed_up_to(m, sample, t - 1);
        assert(0 <= (t - 1) * 2 && (t - 1) * 2 + 2 == t * 2 && t * 2 <= 2 * tp)
            by (nonlinear_arith)
            requires
                1 <= t <= tp,
        ;
        assert(m.block(t - 1).len() == 2);
        lemma_term_two(m.block(t - 1), sample[t - 1]);
    }
}

/// A query curve that lies at or between the two curves of a two-curve
/// reference ensemble at every timepoint is enclosed by the one reference
/// pair everywhere: its depth is exactly 1.
pub proof fn lemma_depth_one_enclosed_by_pair(m: ModifiedBandDepth, sample: Seq<i64>)
    requires
        m.well_formed(),
        m.spec_num_samples() == 2,
        sample.len() == m.spec_num_timepoints(),
        forall|t: int|
            0 <= t < m.spec_num_timepoints() ==> (#[trigger] m.block(t))[0] <= sample[t]
                && sample[t] <= m.block(t)[1],
    ensures
        m.spec_numerator(sample) == m.spec_denominator(),
        m.spec_denominator() == m.spec_num_timepoints(),
{
    lemma_numerator_enclosed_up_to(m, sample, m.spec_num_timepoints());
    assert(spec_choose2(2) == 1);
}

} // verus!
