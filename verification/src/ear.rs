use vstd::prelude::*;

use crate::pattern::{Pattern, PatternView};
use crate::signal::{
    clamp_ternary, clamp_value, count_subsequence, ends_with, occurrences, occurs_at,
    occurs_at_exec, same_values,
};

verus! {

/// The mathematical content of an [`Ear`].
pub ghost struct EarView {
    pub patterns: Seq<PatternView>,
    pub buffer: Seq<i8>,
    pub max_pattern_len: nat,
    pub tick: nat,
}

/// `p` after the buffer has become `buf` at tick `t`: observed once more,
/// at `t`, exactly when `buf` ends with its values.
pub open spec fn after_tick(p: PatternView, buf: Seq<i8>, t: nat) -> PatternView {
    if ends_with(buf, p.values) {
        PatternView { values: p.values, observations: p.observations + 1, last_seen: t }
    } else {
        p
    }
}

/// The state after listening to `value`: the clamped value is appended,
/// the tick advances, and every watched pattern that now ends the buffer
/// is observed at the new tick.
pub open spec fn listen_step(e: EarView, value: i8) -> EarView {
    let buf = e.buffer.push(clamp_ternary(value));
    let t = e.tick + 1;
    EarView {
        patterns: e.patterns.map_values(|p: PatternView| after_tick(p, buf, t)),
        buffer: buf,
        max_pattern_len: e.max_pattern_len,
        tick: t,
    }
}

/// What one listen does to each watched pattern, whatever its length: the
/// value is appended clamped, the tick advances by one, and a pattern is
/// observed once more, at the new tick, exactly when the new buffer ends with
/// its values; any other pattern is left as it was.
pub proof fn lemma_listen_step_observes(e: EarView, value: i8, k: int)
    requires
        0 <= k < e.patterns.len(),
    ensures
        listen_step(e, value).buffer == e.buffer.push(clamp_ternary(value)),
        listen_step(e, value).tick == e.tick + 1,
        listen_step(e, value).max_pattern_len == e.max_pattern_len,
        listen_step(e, value).patterns.len() == e.patterns.len(),
        listen_step(e, value).patterns[k].values == e.patterns[k].values,
        ends_with(e.buffer.push(clamp_ternary(value)), e.patterns[k].values) ==> {
            &&& listen_step(e, value).patterns[k].observations == e.patterns[k].observations + 1
            &&& listen_step(e, value).patterns[k].last_seen == e.tick + 1
        },
        !ends_with(e.buffer.push(clamp_ternary(value)), e.patterns[k].values) ==> listen_step(
            e,
            value,
        ).patterns[k] == e.patterns[k],
{
}

/// Listening to a sequence and then to one more value is listening to the
/// longer sequence.
pub proof fn lemma_listen_run_push(e: EarView, values: Seq<i8>, value: i8)
    ensures
        listen_run(e, values.push(value)) == listen_step(listen_run(e, values), value),
        listen_run(e, Seq::empty()) == e,
{
    assert(values.push(value).drop_last() =~= values);
}

/// Listening to `value` keeps every counter within its machine type.
pub open spec fn can_listen(e: EarView, value: i8) -> bool {
    let buf = e.buffer.push(clamp_ternary(value));
    &&& e.tick < u64::MAX
    &&& forall|k: int|
        0 <= k < e.patterns.len() && ends_with(buf, #[trigger] e.patterns[k].values)
            ==> e.patterns[k].observations < u32::MAX
}

/// The state after listening to each of `values` in turn.
pub open spec fn listen_run(e: EarView, values: Seq<i8>) -> EarView
    decreases values.len(),
{
    if values.len() == 0 {
        e
    } else {
        listen_step(listen_run(e, values.drop_last()), values.last())
    }
}

/// Every step of listening to `values` in turn keeps the counters in range.
pub open spec fn can_listen_all(e: EarView, values: Seq<i8>) -> bool
    decreases values.len(),
{
    if values.len() == 0 {
        true
    } else {
        can_listen_all(e, values.drop_last()) && can_listen(
            listen_run(e, values.drop_last()),
            values.last(),
        )
    }
}

/// Listening to a sequence of values appends them clamped, advances the tick
/// once per value, and keeps the watched patterns' values and the maximum
/// pattern length.
pub proof fn lemma_listen_run_shape(e: EarView, values: Seq<i8>)
    ensures
        listen_run(e, values).buffer == e.buffer + values.map_values(|v: i8| clamp_ternary(v)),
        listen_run(e, values).tick == e.tick + values.len(),
        listen_run(e, values).max_pattern_len == e.max_pattern_len,
        listen_run(e, values).patterns.len() == e.patterns.len(),
        forall|k: int|
            0 <= k < e.patterns.len() ==> (#[trigger] listen_run(e, values).patterns[k]).values
                == e.patterns[k].values,
    decreases values.len(),
{
    if values.len() > 0 {
        lemma_listen_run_shape(e, values.drop_last());
        assert(values.map_values(|v: i8| clamp_ternary(v)) =~= values.drop_last().map_values(
            |v: i8| clamp_ternary(v),
        ).push(clamp_ternary(values.last())));
    } else {
        assert(e.buffer + values.map_values(|v: i8| clamp_ternary(v)) =~= e.buffer);
    }
}

/// Each step of a run that `can_listen_all` admits keeps the counters in range.
proof fn lemma_can_listen_step(e: EarView, values: Seq<i8>, k: int)
    requires
        can_listen_all(e, values),
        0 <= k < values.len(),
    ensures
        can_listen(listen_run(e, values.take(k)), values[k]),
    decreases values.len(),
{
    if k == values.len() - 1 {
        assert(values.take(k) =~= values.drop_last());
    } else {
        lemma_can_listen_step(e, values.drop_last(), k);
        assert(values.drop_last().take(k) =~= values.take(k));
    }
}

/// The window of `len` values of `buf` that starts at `i`.
pub open spec fn window(buf: Seq<i8>, i: int, len: int) -> Seq<i8> {
    buf.subrange(i, i + len)
}

/// A window holds `len` consecutive values of `buf`, starting at `i`.
pub proof fn lemma_window_values(buf: Seq<i8>, i: int, len: int)
    requires
        0 <= i,
        0 <= len,
        i + len <= buf.len(),
    ensures
        window(buf, i, len).len() == len,
        forall|t: int| 0 <= t < len ==> #[trigger] window(buf, i, len)[t] == buf[i + t],
        occurs_at(buf, window(buf, i, len), i),
{
}

/// Every window of length `2 ..= max_len` occurs at most `u32::MAX` times.
pub open spec fn windows_fit_counter(buf: Seq<i8>, max_len: int) -> bool {
    forall|len: int, i: int|
        2 <= len <= max_len && 0 <= i && i + len <= buf.len() ==> occurrences(
            buf,
            #[trigger] window(buf, i, len),
        ) <= u32::MAX
}

/// `p` reports a window of length `2 ..= max_len` of `buf` that occurs at least
/// `min_obs` times, with its number of occurrences, seen at `tick`.
pub open spec fn recurring_entry(buf: Seq<i8>, max_len: int, min_obs: int, tick: int, p: Pattern) -> bool {
    &&& 2 <= p.values@.len() <= max_len
    &&& exists|i: int| #[trigger] occurs_at(buf, p.values@, i)
    &&& p.observations == occurrences(buf, p.values@)
    &&& p.observations >= min_obs
    &&& p.last_seen == tick
}

/// `a` occurs in `buf` before the first occurrence of `b`.
pub open spec fn first_seen_before(buf: Seq<i8>, a: Seq<i8>, b: Seq<i8>) -> bool {
    forall|j: int|
        #[trigger] occurs_at(buf, b, j) ==> exists|i: int| i < j && #[trigger] occurs_at(buf, a, i)
}

/// The order of a recurrence report: shorter windows first, and among windows
/// of one length, the one that occurs first.
pub open spec fn reported_before(buf: Seq<i8>, a: Seq<i8>, b: Seq<i8>) -> bool {
    ||| a.len() < b.len()
    ||| a.len() == b.len() && first_seen_before(buf, a, b)
}

/// Some pattern of `ps` has the values `v`.
pub open spec fn has_values(ps: Seq<Pattern>, v: Seq<i8>) -> bool {
    exists|k: int| 0 <= k < ps.len() && (#[trigger] ps[k]).values@ == v
}

/// `r` reports, once each and in report order, exactly the windows of length
/// `2 ..= max_len` of `buf` that occur at least `min_obs` times.
pub open spec fn recurring_report(
    buf: Seq<i8>,
    max_len: int,
    min_obs: int,
    tick: int,
    r: Seq<Pattern>,
) -> bool {
    &&& forall|k: int| 0 <= k < r.len() ==> recurring_entry(buf, max_len, min_obs, tick, #[trigger] r[k])
    &&& forall|k1: int, k2: int|
        0 <= k1 < r.len() && 0 <= k2 < r.len() && k1 != k2 ==> (#[trigger] r[k1]).values@ != (
        #[trigger] r[k2]).values@
    &&& forall|k1: int, k2: int|
        0 <= k1 < k2 < r.len() ==> reported_before(buf, (#[trigger] r[k1]).values@, (
        #[trigger] r[k2]).values@)
    &&& forall|len: int, i: int|
        2 <= len <= max_len && 0 <= i && i + len <= buf.len() && occurrences(
            buf,
            #[trigger] window(buf, i, len),
        ) >= min_obs ==> has_values(r, window(buf, i, len))
}

/// What a recurrence report promises, spelled out: every reported pattern is
/// a window of `buf` of length `2 ..= max_len` that occurs at least `min_obs`
/// times, with that count and the given tick; no values are reported twice;
/// shorter windows come first, and of two windows of one length the one that
/// occurs first; and every window that occurs often enough is reported.
pub proof fn lemma_recurring_report_meaning(
    buf: Seq<i8>,
    max_len: int,
    min_obs: int,
    tick: int,
    r: Seq<Pattern>,
)
    requires
        recurring_report(buf, max_len, min_obs, tick, r),
    ensures
        forall|k: int|
            0 <= k < r.len() ==> {
                &&& 2 <= (#[trigger] r[k]).values@.len() <= max_len
                &&& exists|i: int|
                    0 <= i && i + r[k].values@.len() <= buf.len() && #[trigger] buf.subrange(
                        i,
                        i + r[k].values@.len(),
                    ) == r[k].values@
                &&& r[k].observations == occurrences(buf, r[k].values@)
                &&& r[k].observations >= min_obs
                &&& r[k].last_seen == tick
            },
        forall|k1: int, k2: int|
            0 <= k1 < k2 < r.len() ==> (#[trigger] r[k1]).values@ != (#[trigger] r[k2]).values@
                && (r[k1].values@.len() < r[k2].values@.len() || (r[k1].values@.len()
                == r[k2].values@.len() && forall|j: int|
                occurs_at(buf, r[k2].values@, j) ==> exists|i: int|
                    i < j && #[trigger] occurs_at(buf, r[k1].values@, i))),
        forall|len: int, i: int|
            2 <= len <= max_len && 0 <= i && i + len <= buf.len() && occurrences(
                buf,
                #[trigger] buf.subrange(i, i + len),
            ) >= min_obs ==> exists|k: int|
                0 <= k < r.len() && (#[trigger] r[k]).values@ == buf.subrange(i, i + len),
{
    assert forall|k: int| 0 <= k < r.len() implies exists|i: int|
        0 <= i && i + (#[trigger] r[k]).values@.len() <= buf.len() && #[trigger] buf.subrange(
            i,
            i + r[k].values@.len(),
        ) == r[k].values@ by {
        assert(recurring_entry(buf, max_len, min_obs, tick, r[k]));
        let i = choose|i: int| #[trigger] occurs_at(buf, r[k].values@, i);
        assert(buf.subrange(i, i + r[k].values@.len()) == r[k].values@);
    }
    assert forall|len: int, i: int|
        2 <= len <= max_len && 0 <= i && i + len <= buf.len() && occurrences(
            buf,
            #[trigger] buf.subrange(i, i + len),
        ) >= min_obs implies exists|k: int|
        0 <= k < r.len() && (#[trigger] r[k]).values@ == buf.subrange(i, i + len) by {
        assert(window(buf, i, len) == buf.subrange(i, i + len));
        assert(has_values(r, window(buf, i, len)));
    }
}

/// Every window of `buf` of length below `len`, or of length `len` starting
/// below `i`, that occurs at least `min_obs` times has a pattern in `found`.
pub open spec fn reported_through(buf: Seq<i8>, min_obs: int, found: Seq<Pattern>, len: int, i: int) -> bool {
    forall|len2: int, i2: int|
        2 <= len2 && 0 <= i2 && i2 + len2 <= buf.len() && (len2 < len || (len2 == len && i2 < i))
            && occurrences(buf, #[trigger] window(buf, i2, len2)) >= min_obs ==> has_values(
            found,
            window(buf, i2, len2),
        )
}

/// Whether some pattern of `found` has the values `values`.
fn contains_values(found: &Vec<Pattern>, values: &Vec<i8>) -> (r: bool)
    ensures
        r == has_values(found@, values@),
{
    let count = found.len();
    let mut k: usize = 0;
    while k < count
        invariant
            count == found@.len(),
            k <= count,
            forall|j: int| 0 <= j < k ==> (#[trigger] found@[j]).values@ != values@,
        decreases count - k,
    {
        if same_values(found[k].values.as_slice(), values.as_slice()) {
            return true;
        }
        k = k + 1;
    }
    false
}

/// The ear: a pattern recognizer for ternary signal streams.
#[derive(Debug, Clone)]
pub struct Ear {
    /// Patterns recognized so far.
    pub patterns: Vec<Pattern>,
    /// Incoming signal buffer.
    pub buffer: Vec<i8>,
    /// Maximum pattern length to detect.
    pub max_pattern_len: usize,
    /// Current tick counter.
    pub tick: u64,
}

impl View for Ear {
    type V = EarView;

    open spec fn view(&self) -> EarView {
        EarView {
            patterns: self.patterns@.map_values(|p: Pattern| p@),
            buffer: self.buffer@,
            max_pattern_len: self.max_pattern_len as nat,
            tick: self.tick as nat,
        }
    }
}

impl Ear {
    /// An ear with no patterns, an empty buffer and tick 0.
    pub fn new(max_pattern_len: usize) -> (e: Self)
        ensures
            e.patterns@.len() == 0,
            e.buffer@.len() == 0,
            e.max_pattern_len == max_pattern_len,
            e.tick == 0,
    {
        Ear { patterns: Vec::new(), buffer: Vec::new(), max_pattern_len, tick: 0 }
    }

    /// Listen to one value: it is clamped into {-1, 0, +1} and appended, the
    /// tick advances, and every watched pattern that the buffer now ends with
    /// is observed at the new tick.
    pub fn listen(&mut self, value: i8)
        requires
            can_listen(old(self)@, value),
        ensures
            final(self)@ == listen_step(old(self)@, value),
            final(self).buffer@ == old(self).buffer@.push(clamp_ternary(value)),
            final(self).tick == old(self).tick + 1,
            final(self).patterns@.len() == old(self).patterns@.len(),
            forall|k: int|
                0 <= k < old(self).patterns@.len() ==> {
                    let before = #[trigger] old(self).patterns@[k];
                    let after = final(self).patterns@[k];
                    &&& after.values@ == before.values@
                    &&& ends_with(final(self).buffer@, before.values@) ==> after.observations
                        == before.observations + 1 && after.last_seen == final(self).tick
                    &&& !ends_with(final(self).buffer@, before.values@) ==> after.observations
                        == before.observations && after.last_seen == before.last_seen
                },
    {
        let ghost old_pats = self.patterns@;
        let v = clamp_value(value);
        self.buffer.push(v);
        self.tick = self.tick + 1;
        let ghost buf = self.buffer@;
        let ghost t = self.tick as nat;
        let count = self.patterns.len();
        let mut k: usize = 0;
        while k < count
            invariant
                count == old_pats.len(),
                self.patterns@.len() == count,
                self.buffer@ == buf,
                self.tick == t,
                buf == old(self).buffer@.push(clamp_ternary(value)),
                t == old(self).tick + 1,
                self.max_pattern_len == old(self).max_pattern_len,
                old_pats == old(self).patterns@,
                can_listen(old(self)@, value),
                k <= count,
                forall|j: int| 0 <= j < k ==> (#[trigger] self.patterns@[j])@ == after_tick(old_pats[j]@, buf, t),
                forall|j: int| k <= j < count ==> #[trigger] self.patterns@[j] == old_pats[j],
            decreases count - k,
        {
            let plen = self.patterns[k].values.len();
            let n = self.buffer.len();
            if plen <= n {
                let start = n - plen;
                let hit = occurs_at_exec(self.buffer.as_slice(), self.patterns[k].values.as_slice(), start);
                if hit {
                    assert(old(self)@.patterns[k as int] == old_pats[k as int]@);
                    assert(ends_with(buf, old(self)@.patterns[k as int].values));
                    let tick = self.tick;
                    self.patterns[k].observe(tick);
                }
            }
            k = k + 1;
        }
        assert(self@.patterns =~= listen_step(old(self)@, value).patterns);
        assert forall|j: int| 0 <= j < old(self).patterns@.len() implies {
            let before = #[trigger] old(self).patterns@[j];
            let after = self.patterns@[j];
            &&& after.values@ == before.values@
            &&& ends_with(self.buffer@, before.values@) ==> after.observations
                == before.observations + 1 && after.last_seen == self.tick
            &&& !ends_with(self.buffer@, before.values@) ==> after.observations
                == before.observations && after.last_seen == before.last_seen
        } by {
            assert(self@.patterns[j] == self.patterns@[j]@);
            assert(old(self)@.patterns[j] == old(self).patterns@[j]@);
        }
    }

    /// Listen to each of `values` in turn.
    pub fn listen_all(&mut self, values: &[i8])
        requires
            can_listen_all(old(self)@, values@),
        ensures
            final(self)@ == listen_run(old(self)@, values@),
            final(self).buffer@ == old(self).buffer@ + values@.map_values(|v: i8| clamp_ternary(v)),
            final(self).tick == old(self).tick + values@.len(),
    {
        let n = values.len();
        let mut i: usize = 0;
        assert(values@.take(0) =~= Seq::<i8>::empty());
        while i < n
            invariant
                n == values@.len(),
                i <= n,
                can_listen_all(old(self)@, values@),
                self@ == listen_run(old(self)@, values@.take(i as int)),
            decreases n - i,
        {
            proof {
                lemma_can_listen_step(old(self)@, values@, i as int);
                assert(values@.take(i + 1).drop_last() =~= values@.take(i as int));
            }
            self.listen(values[i]);
            i = i + 1;
        }
        assert(values@.take(n as int) =~= values@);
        proof {
            lemma_listen_run_shape(old(self)@, values@);
        }
    }

    /// Detect all recurring subsequences of lengths `2 ..= max_pattern_len`.
    ///
    /// Each window of the buffer that occurs at least `min_observations` times
    /// is reported once, with its number of occurrences and the current tick;
    /// shorter windows come first, and windows of one length in the order in
    /// which they first occur.
    pub fn detect_recurring(&mut self, min_observations: u32) -> (found: Vec<Pattern>)
        requires
            windows_fit_counter(old(self).buffer@, old(self).max_pattern_len as int),
        ensures
            final(self)@ == old(self)@,
            recurring_report(
                old(self).buffer@,
                old(self).max_pattern_len as int,
                min_observations as int,
                old(self).tick as int,
                found@,
            ),
    {
        let ghost buf = self.buffer@;
        let ghost min = min_observations as int;
        let ghost tick = self.tick as int;
        let ghost mpl = self.max_pattern_len as int;
        let n = self.buffer.len();
        let lmax = if self.max_pattern_len < n {
            self.max_pattern_len
        } else {
            n
        };
        let mut found: Vec<Pattern> = Vec::new();
        let mut done: usize = 1;
        while done < lmax
            invariant
                buf == self.buffer@,
                self@ == old(self)@,
                n == buf.len(),
                min == min_observations,
                tick == self.tick,
                mpl == self.max_pattern_len,
                lmax <= n,
                lmax <= mpl,
                lmax == n || lmax == mpl,
                1 <= done,
                done < 2 || done <= lmax,
                windows_fit_counter(buf, mpl),
                forall|k: int|
                    0 <= k < found@.len() ==> recurring_entry(buf, mpl, min, tick, #[trigger] found@[k])
                        && found@[k].values@.len() <= done,
                forall|k1: int, k2: int|
                    0 <= k1 < found@.len() && 0 <= k2 < found@.len() && k1 != k2 ==> (
                    #[trigger] found@[k1]).values@ != (#[trigger] found@[k2]).values@,
                forall|k1: int, k2: int|
                    0 <= k1 < k2 < found@.len() ==> reported_before(
                        buf,
                        (#[trigger] found@[k1]).values@,
                        (#[trigger] found@[k2]).values@,
                    ),
                reported_through(buf, min, found@, done + 1, 0),
            decreases lmax - done,
        {
            let len = done + 1;
            let mut i: usize = 0;
            while i <= n - len
                invariant
                    buf == self.buffer@,
                    self@ == old(self)@,
                    n == buf.len(),
                    min == min_observations,
                    tick == self.tick,
                    mpl == self.max_pattern_len,
                    2 <= len <= lmax,
                    lmax <= n,
                    lmax <= mpl,
                    i <= n - len + 1,
                    windows_fit_counter(buf, mpl),
                    forall|k: int|
                        0 <= k < found@.len() ==> recurring_entry(buf, mpl, min, tick, #[trigger] found@[k])
                            && found@[k].values@.len() <= len && (found@[k].values@.len() == len
                            ==> exists|i0: int| 0 <= i0 < i && occurs_at(buf, found@[k].values@, i0)),
                    forall|k1: int, k2: int|
                        0 <= k1 < found@.len() && 0 <= k2 < found@.len() && k1 != k2 ==> (
                        #[trigger] found@[k1]).values@ != (#[trigger] found@[k2]).values@,
                    forall|k1: int, k2: int|
                        0 <= k1 < k2 < found@.len() ==> reported_before(
                            buf,
                            (#[trigger] found@[k1]).values@,
                            (#[trigger] found@[k2]).values@,
                        ),
                    reported_through(buf, min, found@, len as int, i as int),
                decreases n - len + 1 - i,
            {
                let candidate = vstd::slice::slice_to_vec(
                    vstd::slice::slice_subrange(self.buffer.as_slice(), i, i + len),
                );
                let ghost w = window(buf, i as int, len as int);
                assert(candidate@ == w);
                assert(occurs_at(buf, w, i as int));
                assert(occurrences(buf, w) <= u32::MAX);
                let count = count_subsequence(self.buffer.as_slice(), candidate.as_slice());
                if count >= min_observations {
                    if !contains_values(&found, &candidate) {
                        let ghost old_found = found@;
                        proof {
                            assert forall|k: int|
                                0 <= k < old_found.len() && old_found[k].values@.len() == len
                                implies first_seen_before(buf, old_found[k].values@, w) by {
                                let i0 = choose|i0: int|
                                    0 <= i0 < i && occurs_at(buf, old_found[k].values@, i0);
                                assert forall|j: int| #[trigger] occurs_at(buf, w, j) implies exists|
                                    i1: int,
                                | i1 < j && #[trigger] occurs_at(buf, old_found[k].values@, i1) by {
                                    if j < i {
                                        assert(window(buf, j, len as int) =~= w);
                                        assert(has_values(old_found, window(buf, j, len as int)));
                                    }
                                    assert(occurs_at(buf, old_found[k].values@, i0));
                                }
                            }
                        }
                        let tick_now = self.tick;
                        found.push(Pattern { values: candidate, observations: count, last_seen: tick_now });
                        proof {
                            let p = found@[found@.len() - 1];
                            assert(p.values@ == w);
                            assert(recurring_entry(buf, mpl, min, tick, p));
                            assert forall|len2: int, i2: int|
                                2 <= len2 && 0 <= i2 && i2 + len2 <= buf.len() && (len2 < len || (
                                len2 == len && i2 < i + 1)) && occurrences(
                                    buf,
                                    #[trigger] window(buf, i2, len2),
                                ) >= min implies has_values(found@, window(buf, i2, len2)) by {
                                if len2 == len && i2 == i {
                                    assert(found@[found@.len() - 1].values@ == window(buf, i2, len2));
                                } else {
                                    assert(has_values(old_found, window(buf, i2, len2)));
                                    let k = choose|k: int|
                                        0 <= k < old_found.len() && (#[trigger] old_found[k]).values@
                                            == window(buf, i2, len2);
                                    assert(found@[k] == old_found[k]);
                                }
                            }
                        }
                    }
                }
                i = i + 1;
            }
            done = len;
        }
        found
    }

    /// Register a pattern to watch for.
    pub fn watch(&mut self, pattern: Pattern)
        ensures
            final(self).patterns@ == old(self).patterns@.push(pattern),
            final(self).buffer@ == old(self).buffer@,
            final(self).max_pattern_len == old(self).max_pattern_len,
            final(self).tick == old(self).tick,
    {
        self.patterns.push(pattern);
    }

    /// Clear the buffer, keeping patterns.
    pub fn clear_buffer(&mut self)
        ensures
            final(self).buffer@.len() == 0,
            final(self).patterns@ == old(self).patterns@,
            final(self).max_pattern_len == old(self).max_pattern_len,
            final(self).tick == old(self).tick,
    {
        self.buffer.clear();
    }

    /// Total ticks observed.
    pub fn total_ticks(&self) -> (t: u64)
        ensures
            t == self.tick,
    {
        self.tick
    }
}

} // verus!
