use vstd::prelude::*;

use crate::pattern::Pattern;
use crate::signal::same_values;

verus! {

/// The memories after storing `entry`. Memories are kept from least to most
/// recently used: when `capacity` is reached, the least recently used one, at
/// the front, is evicted, and the new one is appended as the most recent.
pub open spec fn stored(mems: Seq<(Pattern, u64)>, capacity: usize, entry: (Pattern, u64)) -> Seq<
    (Pattern, u64),
> {
    if mems.len() >= capacity {
        mems.drop_first().push(entry)
    } else {
        mems.push(entry)
    }
}

/// Some memory holds a pattern with the values `v`.
pub open spec fn remembers(mems: Seq<(Pattern, u64)>, v: Seq<i8>) -> bool {
    exists|i: int| 0 <= i < mems.len() && (#[trigger] mems[i]).0.values@ == v
}

/// The memory at `i` is the first one whose pattern has the values `v`.
pub open spec fn first_match(mems: Seq<(Pattern, u64)>, v: Seq<i8>, i: int) -> bool {
    &&& 0 <= i < mems.len()
    &&& mems[i].0.values@ == v
    &&& forall|j: int| 0 <= j < i ==> (#[trigger] mems[j]).0.values@ != v
}

/// The memories after the one at `i` was used: it moves to the back, as the
/// most recently used, and the others keep their order.
pub open spec fn refreshed(mems: Seq<(Pattern, u64)>, i: int) -> Seq<(Pattern, u64)> {
    mems.remove(i).push(mems[i])
}

/// The patterns of `mems`, in order, that were observed at least `min` times.
pub open spec fn frequent_patterns(mems: Seq<(Pattern, u64)>, min: u32) -> Seq<Pattern>
    decreases mems.len(),
{
    if mems.len() == 0 {
        Seq::empty()
    } else {
        let prev = frequent_patterns(mems.drop_last(), min);
        if mems.last().0.observations >= min {
            prev.push(mems.last().0)
        } else {
            prev
        }
    }
}

/// Storing into a full memory evicts exactly the front (least recently used)
/// memory: the others survive in order and the new one comes last. Below the
/// capacity nothing is evicted.
pub proof fn lemma_stored_order(mems: Seq<(Pattern, u64)>, capacity: usize, entry: (Pattern, u64))
    ensures
        mems.len() >= capacity && mems.len() > 0 ==> {
            &&& stored(mems, capacity, entry).len() == mems.len()
            &&& forall|j: int|
                0 <= j < mems.len() - 1 ==> #[trigger] stored(mems, capacity, entry)[j] == mems[j
                    + 1]
            &&& stored(mems, capacity, entry)[mems.len() - 1] == entry
        },
        mems.len() < capacity ==> {
            &&& stored(mems, capacity, entry).len() == mems.len() + 1
            &&& forall|j: int| 0 <= j < mems.len() ==> #[trigger] stored(mems, capacity, entry)[j] == mems[j]
            &&& stored(mems, capacity, entry)[mems.len() as int] == entry
        },
{
}

/// Using the memory at `i` moves it to the back and keeps the relative order
/// of all the others: those before `i` stay, those after move up by one.
pub proof fn lemma_refreshed_order(mems: Seq<(Pattern, u64)>, i: int)
    requires
        0 <= i < mems.len(),
    ensures
        refreshed(mems, i).len() == mems.len(),
        forall|j: int| 0 <= j < i ==> #[trigger] refreshed(mems, i)[j] == mems[j],
        forall|j: int| i <= j < mems.len() - 1 ==> #[trigger] refreshed(mems, i)[j] == mems[j + 1],
        refreshed(mems, i)[mems.len() - 1] == mems[i],
{
}

/// The frequent patterns are collected in order: none from no memories, and
/// each further memory adds its pattern exactly when it was observed at
/// least `min` times.
pub proof fn lemma_frequent_patterns_push(mems: Seq<(Pattern, u64)>, entry: (Pattern, u64), min: u32)
    ensures
        frequent_patterns(Seq::empty(), min) == Seq::<Pattern>::empty(),
        frequent_patterns(mems.push(entry), min) == if entry.0.observations >= min {
            frequent_patterns(mems, min).push(entry.0)
        } else {
            frequent_patterns(mems, min)
        },
{
    assert(mems.push(entry).drop_last() =~= mems);
}

/// A pattern just stored can be retrieved by its values.
pub proof fn lemma_store_then_remember(mems: Seq<(Pattern, u64)>, capacity: usize, entry: (Pattern, u64))
    ensures
        remembers(stored(mems, capacity, entry), entry.0.values@),
{
    let s = stored(mems, capacity, entry);
    assert(s[s.len() - 1] == entry);
}

/// Least-recently-used eviction: a memory that was just used survives the
/// next store whenever the capacity holds at least two memories.
pub proof fn lemma_used_memory_survives_store(
    mems: Seq<(Pattern, u64)>,
    capacity: usize,
    i: int,
    entry: (Pattern, u64),
)
    requires
        capacity >= 2,
        mems.len() <= capacity,
        0 <= i < mems.len(),
    ensures
        remembers(stored(refreshed(mems, i), capacity, entry), mems[i].0.values@),
        stored(refreshed(mems, i), capacity, entry)[stored(refreshed(mems, i), capacity, entry).len()
            - 2] == mems[i],
{
    let r = refreshed(mems, i);
    let s = stored(r, capacity, entry);
    assert(r[r.len() - 1] == mems[i]);
    assert(s[s.len() - 2] == mems[i]);
}

/// Storing never lets the memories outgrow a nonzero capacity.
pub proof fn lemma_store_within_capacity(mems: Seq<(Pattern, u64)>, capacity: usize, entry: (Pattern, u64))
    requires
        capacity > 0,
        mems.len() <= capacity,
    ensures
        stored(mems, capacity, entry).len() <= capacity,
{
}

/// Stores recognized patterns for later retrieval.
#[derive(Debug, Clone)]
pub struct EarMemory {
    /// Stored patterns with the tick at which each was stored.
    pub memories: Vec<(Pattern, u64)>,
    /// Maximum memories to retain.
    pub capacity: usize,
}

impl EarMemory {
    /// An empty memory of the given capacity.
    pub fn new(capacity: usize) -> (m: Self)
        ensures
            m.memories@.len() == 0,
            m.capacity == capacity,
    {
        EarMemory { memories: Vec::new(), capacity }
    }

    /// Store a pattern as the most recently used memory, evicting the least
    /// recently used one when the capacity is reached.
    pub fn store(&mut self, pattern: Pattern, tick: u64)
        requires
            old(self).memories@.len() > 0 || old(self).capacity > 0,
        ensures
            final(self).memories@ == stored(old(self).memories@, old(self).capacity, (pattern, tick)),
            final(self).capacity == old(self).capacity,
            old(self).capacity > 0 && old(self).memories@.len() <= old(self).capacity
                ==> final(self).memories@.len() <= final(self).capacity,
    {
        if self.memories.len() >= self.capacity {
            let _oldest = self.memories.remove(0);
        }
        self.memories.push((pattern, tick));
        assert(self.memories@ =~= stored(old(self).memories@, old(self).capacity, (pattern, tick)));
    }

    /// The first stored pattern with exactly the values `values`, if any.
    /// Retrieving uses the memory: it becomes the most recently used one.
    pub fn retrieve(&mut self, values: &[i8]) -> (r: Option<&Pattern>)
        ensures
            final(self).capacity == old(self).capacity,
            r is Some <==> remembers(old(self).memories@, values@),
            r is None ==> final(self).memories@ == old(self).memories@,
            r matches Some(p) ==> exists|i: int|
                first_match(old(self).memories@, values@, i) && final(self).memories@ == refreshed(
                    old(self).memories@,
                    i,
                ) && *p == old(self).memories@[i].0,
    {
        let n = self.memories.len();
        let mut i: usize = 0;
        while i < n
            invariant
                n == self.memories@.len(),
                self.memories@ == old(self).memories@,
                self.capacity == old(self).capacity,
                i <= n,
                forall|j: int| 0 <= j < i ==> (#[trigger] self.memories@[j]).0.values@ != values@,
            decreases n - i,
        {
            if same_values(self.memories[i].0.values.as_slice(), values) {
                let ghost old_mems = self.memories@;
                let entry = self.memories.remove(i);
                self.memories.push(entry);
                assert(self.memories@ =~= refreshed(old_mems, i as int));
                assert(first_match(old_mems, values@, i as int));
                let last = self.memories.len() - 1;
                return Some(&self.memories[last].0);
            }
            i = i + 1;
        }
        None
    }

    /// The stored patterns observed at least `min_observations` times, oldest first.
    pub fn find_frequent(&self, min_observations: u32) -> (r: Vec<&Pattern>)
        ensures
            r@.len() == frequent_patterns(self.memories@, min_observations).len(),
            forall|i: int|
                0 <= i < r@.len() ==> *(#[trigger] r@[i]) == frequent_patterns(
                    self.memories@,
                    min_observations,
                )[i],
    {
        let n = self.memories.len();
        let mut out: Vec<&Pattern> = Vec::new();
        let mut i: usize = 0;
        assert(self.memories@.take(0) =~= Seq::<(Pattern, u64)>::empty());
        while i < n
            invariant
                n == self.memories@.len(),
                i <= n,
                out@.len() == frequent_patterns(self.memories@.take(i as int), min_observations).len(),
                forall|k: int|
                    0 <= k < out@.len() ==> *(#[trigger] out@[k]) == frequent_patterns(
                        self.memories@.take(i as int),
                        min_observations,
                    )[k],
            decreases n - i,
        {
            assert(self.memories@.take(i + 1).drop_last() =~= self.memories@.take(i as int));
            let p = &self.memories[i].0;
            if p.observations >= min_observations {
                out.push(p);
            }
            i = i + 1;
        }
        assert(self.memories@.take(n as int) =~= self.memories@);
        out
    }

    /// Number of stored memories.
    pub fn len(&self) -> (n: usize)
        ensures
            n == self.memories@.len(),
    {
        self.memories.len()
    }

    /// Whether nothing is stored.
    pub fn is_empty(&self) -> (b: bool)
        ensures
            b == (self.memories@.len() == 0),
    {
        self.memories.len() == 0
    }
}

} // verus!
