use vstd::prelude::*;

use crate::signal::{clamp_ternary, clamp_value};

verus! {

/// `c` lies within a tenth of a third of `total`: `|c - total/3| < (total/3) / 10`,
/// written without division as `10 * |3c - total| < total`.
pub open spec fn within_tenth_of_third(c: int, total: int) -> bool {
    let d = 3 * c - total;
    10 * (if d < 0 {
        -d
    } else {
        d
    }) < total
}

/// A count is within a tenth of a third of the total exactly when it lies
/// strictly between 9/30 and 11/30 of the total.
pub proof fn lemma_within_tenth_bounds(c: int, total: int)
    ensures
        within_tenth_of_third(c, total) <==> (9 * total < 30 * c && 30 * c < 11 * total),
{
}

/// Detects the frequency of specific ternary values in a stream.
#[derive(Debug, Clone)]
pub struct FrequencyDetector {
    /// Counts for -1, 0 and +1, at indices 0, 1 and 2.
    pub counts: [u64; 3],
    /// Total values observed.
    pub total: u64,
}

impl FrequencyDetector {
    /// The counts add up to the total, as `observe` keeps them.
    pub open spec fn well_formed(&self) -> bool {
        self.counts@[0] + self.counts@[1] + self.counts@[2] == self.total
    }

    /// A detector that has seen nothing.
    pub fn new() -> (d: Self)
        ensures
            d.counts@ == seq![0u64, 0u64, 0u64],
            d.total == 0,
            d.well_formed(),
    {
        FrequencyDetector { counts: [0, 0, 0], total: 0 }
    }

    /// The index of the count kept for the ternary value `v`.
    pub fn idx(v: i8) -> (i: usize)
        requires
            -1 <= v <= 1,
        ensures
            i == v + 1,
    {
        (v + 1) as usize
    }

    /// Observe one value, clamped into {-1, 0, +1}.
    pub fn observe(&mut self, value: i8)
        requires
            old(self).counts@[clamp_ternary(value) + 1] < u64::MAX,
            old(self).total < u64::MAX,
        ensures
            final(self).counts@ == old(self).counts@.update(
                clamp_ternary(value) + 1,
                (old(self).counts@[clamp_ternary(value) + 1] + 1) as u64,
            ),
            final(self).total == old(self).total + 1,
            old(self).well_formed() ==> final(self).well_formed(),
    {
        let v = clamp_value(value);
        let i = Self::idx(v);
        self.counts[i] = self.counts[i] + 1;
        self.total = self.total + 1;
    }

    /// The dominant value: the one with the greatest count, and of several
    /// with the greatest count, the largest.
    pub fn dominant(&self) -> (r: i8)
        ensures
            -1 <= r <= 1,
            forall|j: int| 0 <= j < 3 ==> #[trigger] self.counts@[j] <= self.counts@[r + 1],
            forall|j: int| r + 1 < j < 3 ==> #[trigger] self.counts@[j] < self.counts@[r + 1],
    {
        let c = &self.counts;
        let mut best: usize = 0;
        let mut j: usize = 1;
        while j < 3
            invariant
                c@ == self.counts@,
                c@.len() == 3,
                1 <= j <= 3,
                best < j,
                forall|t: int| 0 <= t < j ==> #[trigger] c@[t] <= c@[best as int],
                forall|t: int| best < t < j ==> #[trigger] c@[t] < c@[best as int],
            decreases 3 - j,
        {
            if c[j] >= c[best] {
                best = j;
            }
            j = j + 1;
        }
        best as i8 - 1
    }

    /// Whether the distribution is uniform: every count lies within 10% of a
    /// third of the total. An empty detector is uniform.
    pub fn is_uniform(&self) -> (b: bool)
        ensures
            b == (self.total == 0 || forall|j: int|
                0 <= j < 3 ==> within_tenth_of_third(#[trigger] self.counts@[j] as int, self.total as int)),
    {
        if self.total == 0 {
            return true;
        }
        let t = self.total as u128;
        let mut j: usize = 0;
        while j < 3
            invariant
                t == self.total,
                t > 0,
                self.counts@.len() == 3,
                j <= 3,
                forall|i: int|
                    0 <= i < j ==> within_tenth_of_third(#[trigger] self.counts@[i] as int, t as int),
            decreases 3 - j,
        {
            let c3 = 3 * (self.counts[j] as u128);
            let d = if c3 >= t {
                c3 - t
            } else {
                t - c3
            };
            if !(10 * d < t) {
                assert(!within_tenth_of_third(self.counts@[j as int] as int, t as int));
                return false;
            }
            j = j + 1;
        }
        true
    }
}

} // verus!
