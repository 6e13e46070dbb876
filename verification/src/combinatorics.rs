//! The pair-counting helper: how many unordered pairs can be drawn from a
//! set of a given size. The depth computation normalizes by this count and
//! uses it to count tied reference pairs.

use vstd::prelude::*;

verus! {

use vstd::arithmetic::div_mod::lemma_fundamental_div_mod_converse;

/// Number of unordered pairs among `n` items: `n * (n - 1) / 2` for
/// `n >= 2`, and `0` for smaller `n`, so empty and singleton reference
/// sets need no special-casing by callers.
pub open spec fn spec_choose2(n: int) -> int {
    if n >= 2 {
        (n * (n - 1)) / 2
    } else {
        0
    }
}

/// Doubling the pair count gives `n * (n - 1)` exactly: the product of two
/// adjacent integers is even, so halving it loses nothing.
pub proof fn lemma_choose2_double(n: int)
    requires
        0 <= n,
    ensures
        2 * spec_choose2(n) == n * (n - 1),
    decreases n,
{
    if n < 2 {
        assert(n * (n - 1) == 0) by (nonlinear_arith)
            requires
                0 <= n < 2,
        ;
    } else {
        lemma_choose2_double(n - 1);
        assert(n * (n - 1) == (n - 1) * (n - 2) + 2 * (n - 1)) by (nonlinear_arith);
        let k = spec_choose2(n - 1) + (n - 1);
        assert(n * (n - 1) == k * 2 + 0);
        lemma_fundamental_div_mod_converse(n * (n - 1), 2, k, 0);
    }
}

/// The pair count is never negative.
pub proof fn lemma_choose2_nonneg(n: int)
    requires
        0 <= n,
    ensures
        0 <= spec_choose2(n),
{
    lemma_choose2_double(n);
    if n >= 2 {
        assert(0 <= n * (n - 1)) by (nonlinear_arith)
            requires
                2 <= n,
        ;
    }
}

/// Splitting `a + b + c` items into three classes splits their unordered
/// pairs into the pairs within each class plus the pairs across two classes.
pub proof fn lemma_choose2_split(a: int, b: int, c: int)
    requires
        0 <= a,
        0 <= b,
        0 <= c,
    ensures
        spec_choose2(a + b + c) == spec_choose2(a) + spec_choose2(b) + spec_choose2(c) + a * b + b
            * c + a * c,
{
    lemma_choose2_double(a + b + c);
    lemma_choose2_double(a);
    lemma_choose2_double(b);
    lemma_choose2_double(c);
    assert((a + b + c) * ((a + b + c) - 1) == a * (a - 1) + b * (b - 1) + c * (c - 1) + 2 * (a * b
        + b * c + a * c)) by (nonlinear_arith);
}

/// Number of unordered pairs among `from` items, computed in `usize`.
/// The caller keeps `from * from` within `usize::MAX`; on a 64-bit target
/// every `from` up to `2^32` is in range.
pub fn binomial_choose_2(from: usize) -> (r: usize)
    requires
        from * from <= usize::MAX,
    ensures
        r == spec_choose2(from as int),
{
    match from >= 2 {
        true => {
            proof {
                assert(from * from >= from) by (nonlinear_arith)
                    requires
                        from >= 2,
                ;
                assert(from * from - from == from * (from - 1)) by (nonlinear_arith);
            }
            ((from * from) - from) / 2
        },
        false => 0,
    }
}

/// Number of unordered pairs among `from` items, computed in `u128`: wide
/// enough for any ensemble whose flat value matrix fits in memory.
pub(crate) fn choose2_u128(from: u128) -> (r: u128)
    requires
        from * from <= u128::MAX,
    ensures
        r == spec_choose2(from as int),
{
    match from >= 2 {
        true => {
            proof {
                assert(from * from >= from) by (nonlinear_arith)
                    requires
                        from >= 2,
                ;
                assert(from * from - from == from * (from - 1)) by (nonlinear_arith);
            }
            ((from * from) - from) / 2
        },
        false => 0,
    }
}

} // verus!
