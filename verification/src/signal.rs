use vstd::prelude::*;

verus! {

/// A value of the ternary alphabet {-1, 0, +1}.
pub open spec fn is_ternary(v: i8) -> bool {
    -1 <= v <= 1
}

/// Every value of `s` is ternary.
pub open spec fn all_ternary(s: Seq<i8>) -> bool {
    forall|i: int| 0 <= i < s.len() ==> is_ternary(#[trigger] s[i])
}

/// The ternary value nearest to `v`.
pub open spec fn clamp_ternary(v: i8) -> i8 {
    if v < -1 {
        -1i8
    } else if v > 1 {
        1i8
    } else {
        v
    }
}

/// Clamps a raw value into {-1, 0, +1}.
pub fn clamp_value(v: i8) -> (r: i8)
    ensures
        r == clamp_ternary(v),
        is_ternary(r),
{
    if v < -1 {
        -1
    } else if v > 1 {
        1
    } else {
        v
    }
}

/// `sub` occurs in `buf` starting at index `i`.
pub open spec fn occurs_at(buf: Seq<i8>, sub: Seq<i8>, i: int) -> bool {
    &&& 0 <= i
    &&& i + sub.len() <= buf.len()
    &&& buf.subrange(i, i + sub.len()) == sub
}

/// `buf` ends with `suffix`.
pub open spec fn ends_with(buf: Seq<i8>, suffix: Seq<i8>) -> bool {
    occurs_at(buf, suffix, buf.len() - suffix.len())
}

/// Number of start indices below `k` at which `sub` occurs in `buf`.
pub open spec fn occurrences_before(buf: Seq<i8>, sub: Seq<i8>, k: int) -> nat
    decreases k,
{
    if k <= 0 {
        0
    } else {
        occurrences_before(buf, sub, k - 1) + if occurs_at(buf, sub, k - 1) {
            1nat
        } else {
            0nat
        }
    }
}

/// Number of (possibly overlapping) occurrences of `sub` in `buf`:
/// the size of `{ i : buf[i .. i + |sub|] == sub }`.
pub open spec fn occurrences(buf: Seq<i8>, sub: Seq<i8>) -> nat {
    occurrences_before(buf, sub, buf.len() - sub.len() + 1)
}

/// What `count_subsequence` returns: the occurrences of a nonempty `sub`,
/// and zero for an empty one.
pub open spec fn subsequence_count(buf: Seq<i8>, sub: Seq<i8>) -> nat {
    if sub.len() == 0 {
        0
    } else {
        occurrences(buf, sub)
    }
}

/// Clamping keeps ternary values, sends everything above +1 to +1 and
/// everything below -1 to -1.
pub proof fn lemma_clamp_ternary(v: i8)
    ensures
        is_ternary(clamp_ternary(v)),
        is_ternary(v) ==> clamp_ternary(v) == v,
        v > 1 ==> clamp_ternary(v) == 1,
        v < -1 ==> clamp_ternary(v) == -1,
{
}

/// `sub` occurs at `i` exactly when it fits there and matches value by value.
pub proof fn lemma_occurs_at_elementwise(buf: Seq<i8>, sub: Seq<i8>, i: int)
    ensures
        occurs_at(buf, sub, i) <==> (0 <= i && i + sub.len() <= buf.len() && forall|t: int|
            0 <= t < sub.len() ==> #[trigger] buf[i + t] == sub[t]),
{
    if 0 <= i && i + sub.len() <= buf.len() {
        if forall|t: int| 0 <= t < sub.len() ==> #[trigger] buf[i + t] == sub[t] {
            assert forall|t: int| 0 <= t < sub.len() implies buf.subrange(i, i + sub.len())[t]
                == sub[t] by {
                assert(buf[i + t] == sub[t]);
            }
            assert(buf.subrange(i, i + sub.len()) =~= sub);
        }
        if occurs_at(buf, sub, i) {
            assert forall|t: int| 0 <= t < sub.len() implies #[trigger] buf[i + t] == sub[t] by {
                assert(buf.subrange(i, i + sub.len())[t] == buf[i + t]);
            }
        }
    }
}

/// `buf` ends with `suffix` exactly when its last `|suffix|` values are those
/// of `suffix`, in order.
pub proof fn lemma_ends_with_elementwise(buf: Seq<i8>, suffix: Seq<i8>)
    ensures
        ends_with(buf, suffix) <==> (suffix.len() <= buf.len() && forall|t: int|
            0 <= t < suffix.len() ==> #[trigger] buf[buf.len() - suffix.len() + t] == suffix[t]),
{
    lemma_occurs_at_elementwise(buf, suffix, buf.len() - suffix.len());
}

/// Counting occurrences: none among no start indices, and each further start
/// index adds one exactly when `sub` occurs there.
pub proof fn lemma_occurrences_step(buf: Seq<i8>, sub: Seq<i8>, k: int)
    requires
        k >= 0,
    ensures
        occurrences_before(buf, sub, 0) == 0,
        occurrences_before(buf, sub, k + 1) == occurrences_before(buf, sub, k) + if occurs_at(
            buf,
            sub,
            k,
        ) {
            1int
        } else {
            0int
        },
{
}

/// Counting over a longer prefix of start indices never finds fewer occurrences.
pub proof fn lemma_occurrences_before_monotone(buf: Seq<i8>, sub: Seq<i8>, j: int, k: int)
    requires
        j <= k,
    ensures
        occurrences_before(buf, sub, j) <= occurrences_before(buf, sub, k),
    decreases k - j,
{
    if j < k {
        lemma_occurrences_before_monotone(buf, sub, j, k - 1);
    }
}

/// No start index at or beyond `buf.len() - sub.len() + 1` is an occurrence.
pub proof fn lemma_occurrences_before_saturates(buf: Seq<i8>, sub: Seq<i8>, k: int)
    requires
        k >= buf.len() - sub.len() + 1,
    ensures
        occurrences_before(buf, sub, k) == occurrences(buf, sub),
    decreases k - (buf.len() - sub.len() + 1),
{
    if k > buf.len() - sub.len() + 1 {
        lemma_occurrences_before_saturates(buf, sub, k - 1);
    }
}

/// Whether `sub` occurs in `buf` at index `i` (which must leave room for it).
pub fn occurs_at_exec(buf: &[i8], sub: &[i8], i: usize) -> (b: bool)
    requires
        i + sub@.len() <= buf@.len(),
    ensures
        b == occurs_at(buf@, sub@, i as int),
{
    let m = sub.len();
    let n = buf.len();
    let mut j: usize = 0;
    while j < m
        invariant
            m == sub@.len(),
            n == buf@.len(),
            i + m <= buf@.len(),
            j <= m,
            forall|t: int| 0 <= t < j ==> buf@[i + t] == sub@[t],
        decreases m - j,
    {
        if buf[i + j] != sub[j] {
            assert(buf@.subrange(i as int, i + m)[j as int] != sub@[j as int]);
            return false;
        }
        j = j + 1;
    }
    assert(buf@.subrange(i as int, i + m) =~= sub@);
    true
}

/// Whether two value sequences are equal.
pub fn same_values(a: &[i8], b: &[i8]) -> (r: bool)
    ensures
        r == (a@ == b@),
{
    if a.len() != b.len() {
        return false;
    }
    let r = occurs_at_exec(a, b, 0);
    assert(a@.subrange(0, b@.len() as int) =~= a@);
    r
}

/// Count how many times a subsequence appears in a buffer (overlapping allowed).
pub(crate) fn count_subsequence(buffer: &[i8], sub: &[i8]) -> (count: u32)
    requires
        subsequence_count(buffer@, sub@) <= u32::MAX,
    ensures
        count == subsequence_count(buffer@, sub@),
{
    if sub.len() == 0 || sub.len() > buffer.len() {
        proof {
            if sub.len() > buffer.len() {
                assert(occurrences_before(buffer@, sub@, buffer@.len() - sub@.len() + 1) == 0);
            }
        }
        return 0;
    }
    let n = buffer.len();
    let last = n - sub.len();
    let mut count: u32 = 0;
    let mut i: usize = 0;
    while i <= last
        invariant
            n == buffer@.len(),
            last == buffer@.len() - sub@.len(),
            sub@.len() > 0,
            i <= last + 1,
            count == occurrences_before(buffer@, sub@, i as int),
            occurrences(buffer@, sub@) <= u32::MAX,
        decreases last + 1 - i,
    {
        proof {
            lemma_occurrences_before_monotone(buffer@, sub@, i + 1, last + 1);
        }
        if occurs_at_exec(buffer, sub, i) {
            count = count + 1;
        }
        i = i + 1;
    }
    count
}

} // verus!
