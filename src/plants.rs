//! Pots of plants in a row, numbered from a given first index.

use vstd::prelude::*;

verus! {

/// Sum of the numbers of the pots that hold a plant, the first pot of
/// `state` having number `first`.
pub open spec fn pot_sum(state: Seq<bool>, first: int) -> int
    decreases state.len(),
{
    if state.len() == 0 {
        0
    } else {
        pot_sum(state.drop_last(), first) + if state.last() {
            first + state.len() - 1
        } else {
            0
        }
    }
}

/// The largest magnitude that any partial sum of `pot_sum` takes.
pub open spec fn pot_sums_fit(state: Seq<bool>, first: int) -> bool {
    forall|n: int| 0 <= n <= state.len() ==> i64::MIN <= #[trigger] pot_sum(state.subrange(0, n), first) <= i64::MAX
}

/// Sum of the numbers of the pots holding a plant; defined where every
/// partial sum fits in an `i64`.
pub fn sum_pots(state: &[bool], first: i64) -> (r: i64)
    requires
        state.len() <= i64::MAX,
        first + state.len() <= i64::MAX,
        pot_sums_fit(state@, first as int),
    ensures
        r == pot_sum(state@, first as int),
{
    let mut sum: i64 = 0;
    let mut i: usize = 0;
    while i < state.len()
        invariant
            i <= state.len(),
            state.len() <= i64::MAX,
            first + state.len() <= i64::MAX,
            pot_sums_fit(state@, first as int),
            sum == pot_sum(state@.subrange(0, i as int), first as int),
        decreases state.len() - i,
    {
        assert(state@.subrange(0, i + 1).drop_last() == state@.subrange(0, i as int));
        assert(i64::MIN <= pot_sum(state@.subrange(0, i + 1), first as int) <= i64::MAX);
        assert(state@.subrange(0, i + 1).last() == state[i as int]);
        if state[i] {
            assert(pot_sum(state@.subrange(0, i + 1), first as int) == sum + first + i);
            sum = sum + (first + i as i64);
        }
        i = i + 1;
    }
    assert(state@.subrange(0, state.len() as int) == state@);
    sum
}

} // verus!
