use vstd::prelude::*;

verus! {

/// The number of recorded predictions at which training counts as mature.
pub const MATURITY_THRESHOLD: u64 = 20;

/// Hit and miss counts of recognition over time.
#[derive(Debug, Clone)]
pub struct EarTraining {
    /// Correct predictions.
    pub hits: u64,
    /// Incorrect predictions.
    pub misses: u64,
}

impl EarTraining {
    /// No predictions recorded.
    pub fn new() -> (t: Self)
        ensures
            t.hits == 0,
            t.misses == 0,
    {
        EarTraining { hits: 0, misses: 0 }
    }

    /// Record a prediction result: a hit when `correct`, else a miss.
    pub fn record(&mut self, correct: bool)
        requires
            old(self).hits + old(self).misses < u64::MAX,
        ensures
            final(self).hits == old(self).hits + if correct {
                1int
            } else {
                0int
            },
            final(self).misses == old(self).misses + if correct {
                0int
            } else {
                1int
            },
            final(self).hits + final(self).misses == old(self).hits + old(self).misses + 1,
    {
        if correct {
            self.hits = self.hits + 1;
        } else {
            self.misses = self.misses + 1;
        }
    }

    /// Total predictions made.
    pub fn total(&self) -> (n: u64)
        requires
            self.hits + self.misses <= u64::MAX,
        ensures
            n == self.hits + self.misses,
    {
        self.hits + self.misses
    }

    /// Whether at least twenty predictions were made.
    pub fn is_mature(&self) -> (b: bool)
        requires
            self.hits + self.misses <= u64::MAX,
        ensures
            b == (self.hits + self.misses >= MATURITY_THRESHOLD),
    {
        self.total() >= MATURITY_THRESHOLD
    }
}

} // verus!
