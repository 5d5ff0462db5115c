use vstd::prelude::*;

verus! {

/// The mathematical content of a [`Pattern`].
pub ghost struct PatternView {
    pub values: Seq<i8>,
    pub observations: nat,
    pub last_seen: nat,
}

/// A recognized pattern in a ternary signal stream.
#[derive(Debug, Clone, PartialEq, Eq)]
pub struct Pattern {
    /// The ternary values that form this pattern.
    pub values: Vec<i8>,
    /// How many times this pattern was observed.
    pub observations: u32,
    /// Last tick when this pattern was seen.
    pub last_seen: u64,
}

impl View for Pattern {
    type V = PatternView;

    open spec fn view(&self) -> PatternView {
        PatternView {
            values: self.values@,
            observations: self.observations as nat,
            last_seen: self.last_seen as nat,
        }
    }
}

impl Pattern {
    /// A pattern that has not been observed yet.
    pub fn new(values: Vec<i8>) -> (p: Self)
        ensures
            p.values@ == values@,
            p.observations == 0,
            p.last_seen == 0,
    {
        Pattern { values, observations: 0, last_seen: 0 }
    }

    /// Record an observation at the given tick.
    pub fn observe(&mut self, tick: u64)
        requires
            old(self).observations < u32::MAX,
        ensures
            final(self).values@ == old(self).values@,
            final(self).observations == old(self).observations + 1,
            final(self).last_seen == tick,
    {
        self.observations = self.observations + 1;
        self.last_seen = tick;
    }

    /// Length of the pattern.
    pub fn len(&self) -> (n: usize)
        ensures
            n == self.values@.len(),
    {
        self.values.len()
    }

    /// Whether the pattern holds no values.
    pub fn is_empty(&self) -> (b: bool)
        ensures
            b == (self.values@.len() == 0),
    {
        self.values.len() == 0
    }
}

} // verus!
