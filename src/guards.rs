//! How often a guard was asleep in each minute of the midnight hour.

use vstd::prelude::*;

verus! {

/// Sum of the first `n` counts.
pub open spec fn sum_prefix(counts: Seq<u32>, n: int) -> int
    decreases n,
{
    if n <= 0 {
        0
    } else {
        sum_prefix(counts, n - 1) + counts[n - 1]
    }
}

/// For each minute from 00:00 to 00:59, on how many days the guard slept
/// through it.
pub struct SleepMinutes(pub [u32; 60]);

impl SleepMinutes {
    /// The minute slept most often, with its count; of several such minutes,
    /// the last.
    pub fn max_minute(&self) -> (r: (u32, u32))
        ensures
            r.0 < 60,
            r.1 == self.0[r.0 as int],
            forall|i: int| 0 <= i < 60 ==> #[trigger] self.0[i] <= r.1,
            forall|i: int| r.0 < i < 60 ==> #[trigger] self.0[i] < r.1,
    {
        let mut best: usize = 0;
        let mut i: usize = 1;
        while i < 60
            invariant
                1 <= i <= 60,
                best < i,
                forall|j: int| 0 <= j < i ==> #[trigger] self.0[j] <= self.0[best as int],
                forall|j: int| best < j < i ==> #[trigger] self.0[j] < self.0[best as int],
            decreases 60 - i,
        {
            if self.0[i] >= self.0[best] {
                best = i;
            }
            i = i + 1;
        }
        (best as u32, self.0[best])
    }

    /// The number of minutes slept in all; defined where it fits in a `u32`.
    pub fn total(&self) -> (r: u32)
        requires
            sum_prefix(self.0@, 60) <= u32::MAX,
        ensures
            r == sum_prefix(self.0@, 60),
    {
        let mut sum: u32 = 0;
        let mut i: usize = 0;
        while i < 60
            invariant
                0 <= i <= 60,
                sum == sum_prefix(self.0@, i as int),
                sum_prefix(self.0@, 60) <= u32::MAX,
            decreases 60 - i,
        {
            proof {
                lemma_sum_prefix_mono(self.0@, i + 1, 60);
            }
            sum = sum + self.0[i];
            i = i + 1;
        }
        sum
    }
}

proof fn lemma_sum_prefix_mono(counts: Seq<u32>, a: int, b: int)
    requires
        0 <= a <= b <= counts.len(),
    ensures
        sum_prefix(counts, a) <= sum_prefix(counts, b),
    decreases b - a,
{
    if a < b {
        lemma_sum_prefix_mono(counts, a, b - 1);
    }
}

} // verus!
