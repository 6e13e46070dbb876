//! Building the ascending per-timepoint blocks: values are inserted one by
//! one at their sorted position, so a block is ascending at every step and
//! its contents grow by exactly the inserted value.

use vstd::prelude::*;

verus! {

use crate::rank::is_ascending;
use vstd::seq_lib::to_multiset_insert;

/// Insert `value` at its sorted position in the ascending vector `v`.
/// The vector stays ascending and gains exactly one occurrence of `value`.
pub fn insert_sorted(v: &mut Vec<i64>, value: i64)
    requires
        is_ascending(old(v)@),
        old(v)@.len() < usize::MAX,
    ensures
        is_ascending(final(v)@),
        final(v)@.len() == old(v)@.len() + 1,
        final(v)@.to_multiset() == old(v)@.to_multiset().insert(value),
{
    let n = v.len();
    let mut i: usize = 0;
    while i < n && v[i] <= value
        invariant
            v@ == old(v)@,
            n == v@.len(),
            i <= n,
            forall|j: int| 0 <= j < i ==> v@[j] <= value,
        decreases n - i,
    {
        i += 1;
    }
    proof {
        assert forall|j: int| i <= j < v@.len() implies v@[j] >= value by {
            assert(v@[i as int] <= v@[j]);
        }
    }
    let ghost pre = v@;
    v.insert(i, value);
    proof {
        to_multiset_insert(pre, i as int, value);
        assert forall|p: int, q: int|
            0 <= p <= q < v@.len() implies v@[p] <= v@[q] by {
            if p < i && q < i {
                assert(pre[p] <= pre[q]);
            } else if p >= i + 1 && q >= i + 1 {
                assert(pre[p - 1] <= pre[q - 1]);
            }
        }
    }
}

} // verus!
