use vstd::prelude::*;

use crate::signal::{all_ternary, clamp_ternary, clamp_value, is_ternary};

verus! {

/// Sum of `s[i] * s[i + p]` over the first `k` start indices.
pub open spec fn lag_sum_before(s: Seq<i8>, p: int, k: int) -> int
    decreases k,
{
    if k <= 0 {
        0
    } else {
        lag_sum_before(s, p, k - 1) + s[k - 1] * s[k - 1 + p]
    }
}

/// The autocorrelation numerator at lag `p`: `sum_{i < n - p} s[i] * s[i + p]`.
/// The autocorrelation itself is this sum divided by `n - p`.
pub open spec fn lag_sum(s: Seq<i8>, p: int) -> int {
    lag_sum_before(s, p, s.len() - p)
}

/// The autocorrelation at lag `p` exceeds one half.
pub open spec fn strongly_correlated(s: Seq<i8>, p: int) -> bool {
    2 * lag_sum(s, p) > s.len() - p
}

/// The autocorrelation numerator is the full signed sum of the lagged
/// products: it starts at 0 and each index `k` adds `s[k] * s[k + p]`,
/// negative products included.
pub proof fn lemma_lag_sum_step(s: Seq<i8>, p: int, k: int)
    requires
        k >= 0,
    ensures
        lag_sum_before(s, p, 0) == 0,
        lag_sum_before(s, p, k + 1) == lag_sum_before(s, p, k) + s[k] * s[k + p],
        lag_sum(s, p) == lag_sum_before(s, p, s.len() - p),
{
}

/// Negating every value of a signal leaves each lagged product, and so the
/// autocorrelation, unchanged; negating only the lagged copy negates it.
pub proof fn lemma_lag_sum_negation(s: Seq<i8>, t: Seq<i8>, p: int, k: int)
    requires
        s.len() == t.len(),
        forall|i: int| 0 <= i < s.len() ==> #[trigger] t[i] == -s[i],
        0 <= p,
        0 <= k,
        k + p <= s.len(),
    ensures
        lag_sum_before(t, p, k) == lag_sum_before(s, p, k),
    decreases k,
{
    if k > 0 {
        lemma_lag_sum_negation(s, t, p, k - 1);
        let x = s[k - 1];
        let y = s[k - 1 + p];
        assert(t[k - 1] == -x);
        assert(t[k - 1 + p] == -y);
        assert((-x) * (-y) == x * y) by (nonlinear_arith);
    }
}

/// Every product `s[i] * s[i + p]` that period detection computes, for the
/// lags `2 ..= n / 2`, fits in an `i8`. Ternary signals always satisfy this.
pub open spec fn lag_products_in_range(s: Seq<i8>) -> bool {
    forall|p: int, i: int|
        2 <= p <= s.len() / 2 && 0 <= i < s.len() - p ==> i8::MIN <= #[trigger] (s[i] * s[i + p])
            <= i8::MAX
}

/// The products of a ternary signal are ternary, so every tracker that only
/// `observe` filled can detect its period.
pub proof fn lemma_ternary_products_in_range(s: Seq<i8>)
    requires
        all_ternary(s),
    ensures
        lag_products_in_range(s),
{
    assert forall|p: int, i: int| 2 <= p <= s.len() / 2 && 0 <= i < s.len() - p implies i8::MIN
        <= #[trigger] (s[i] * s[i + p]) <= i8::MAX by {
        let x = s[i];
        let y = s[i + p];
        assert(is_ternary(x) && is_ternary(y));
        assert(-1 <= x * y <= 1) by (nonlinear_arith)
            requires
                -1 <= x <= 1,
                -1 <= y <= 1,
        ;
    }
}

/// `r` is the first lag in `2 ..= n / 2` at which the autocorrelation is maximal.
pub open spec fn is_best_lag(s: Seq<i8>, r: int) -> bool {
    let n = s.len() as int;
    &&& 2 <= r <= n / 2
    &&& forall|p: int| 2 <= p <= n / 2 ==> #[trigger] lag_sum(s, p) * (n - r) <= lag_sum(s, r) * (n - p)
    &&& forall|p: int| 2 <= p < r ==> #[trigger] lag_sum(s, p) * (n - r) < lag_sum(s, r) * (n - p)
}

/// There is at most one best lag: two lags that are each the first with the
/// greatest autocorrelation are the same lag.
pub proof fn lemma_best_lag_unique(s: Seq<i8>, r1: int, r2: int)
    requires
        is_best_lag(s, r1),
        is_best_lag(s, r2),
    ensures
        r1 == r2,
{
    let n = s.len() as int;
    if r1 < r2 {
        assert(lag_sum(s, r1) * (n - r2) < lag_sum(s, r2) * (n - r1));
        assert(lag_sum(s, r1) * (n - r2) <= lag_sum(s, r2) * (n - r1));
        assert(lag_sum(s, r2) * (n - r1) <= lag_sum(s, r1) * (n - r2));
    } else if r2 < r1 {
        assert(lag_sum(s, r2) * (n - r1) < lag_sum(s, r1) * (n - r2));
        assert(lag_sum(s, r1) * (n - r2) <= lag_sum(s, r2) * (n - r1));
    }
}

/// A lag is strongly correlated when its autocorrelation, the lag sum over
/// the `n - p` overlapping pairs, exceeds one half.
pub proof fn lemma_strongly_correlated_meaning(s: Seq<i8>, p: int)
    requires
        p < s.len(),
    ensures
        strongly_correlated(s, p) <==> lag_sum_before(s, p, s.len() - p) * 2 > s.len() - p,
{
}

/// Over a ternary signal the autocorrelation at any lag lies in [-1, +1]:
/// `-(n - p) <= lag_sum(s, p) <= n - p`.
pub proof fn lemma_lag_sum_bounded(s: Seq<i8>, p: int, k: int)
    requires
        all_ternary(s),
        0 <= p,
        0 <= k,
        k + p <= s.len(),
    ensures
        -k <= lag_sum_before(s, p, k) <= k,
    decreases k,
{
    if k > 0 {
        lemma_lag_sum_bounded(s, p, k - 1);
        let x = s[k - 1];
        let y = s[k - 1 + p];
        assert(is_ternary(x) && is_ternary(y));
        assert(-1 <= x * y <= 1) by (nonlinear_arith)
            requires
                -1 <= x <= 1,
                -1 <= y <= 1,
        ;
    }
}

/// `a/b <= c/d < e/f` with positive denominators gives `a/b < e/f`.
proof fn lemma_ratio_below(a: int, b: int, c: int, d: int, e: int, f: int)
    requires
        b > 0,
        d > 0,
        f > 0,
        a * d <= c * b,
        c * f < e * d,
    ensures
        a * f < e * b,
{
    assert(a * d * f <= c * b * f) by (nonlinear_arith)
        requires
            a * d <= c * b,
            f > 0,
    ;
    assert(c * f * b < e * d * b) by (nonlinear_arith)
        requires
            c * f < e * d,
            b > 0,
    ;
    assert(c * b * f == c * f * b) by (nonlinear_arith);
    assert(a * f * d < e * b * d) by (nonlinear_arith)
        requires
            a * d * f < e * d * b,
    ;
    assert(a * f < e * b) by (nonlinear_arith)
        requires
            a * f * d < e * b * d,
            d > 0,
    ;
}

/// `a/b <= c/d <= 1/2` with positive denominators gives `a/b <= 1/2`.
proof fn lemma_ratio_at_most_half(a: int, b: int, c: int, d: int)
    requires
        b > 0,
        d > 0,
        a * d <= c * b,
        2 * c <= d,
    ensures
        2 * a <= b,
{
    assert(2 * a * d <= 2 * c * b) by (nonlinear_arith)
        requires
            a * d <= c * b,
    ;
    assert(2 * c * b <= d * b) by (nonlinear_arith)
        requires
            2 * c <= d,
            b > 0,
    ;
    assert(2 * a <= b) by (nonlinear_arith)
        requires
            2 * a * d <= d * b,
            d > 0,
    ;
}

/// Two nonnegative ratios compare as their integer parts do, and on equal
/// integer parts as their remainders do:
/// `s1/l1 > s2/l2` exactly when `q1 > q2`, or `q1 == q2` and `r1/l1 > r2/l2`.
proof fn lemma_ratio_by_quotient(s1: int, l1: int, s2: int, l2: int)
    requires
        s1 >= 0,
        s2 >= 0,
        l1 > 0,
        l2 > 0,
    ensures
        (s1 * l2 > s2 * l1) == (s1 / l1 > s2 / l2 || (s1 / l1 == s2 / l2 && (s1 % l1) * l2 > (s2
            % l2) * l1)),
{
    let q1 = s1 / l1;
    let r1 = s1 % l1;
    let q2 = s2 / l2;
    let r2 = s2 % l2;
    vstd::arithmetic::div_mod::lemma_fundamental_div_mod(s1, l1);
    vstd::arithmetic::div_mod::lemma_fundamental_div_mod(s2, l2);
    vstd::arithmetic::div_mod::lemma_mod_pos_bound(s1, l1);
    vstd::arithmetic::div_mod::lemma_mod_pos_bound(s2, l2);
    assert(s1 * l2 - s2 * l1 == (q1 - q2) * (l1 * l2) + r1 * l2 - r2 * l1) by (nonlinear_arith)
        requires
            s1 == l1 * q1 + r1,
            s2 == l2 * q2 + r2,
    ;
    if q1 > q2 {
        assert((q1 - q2) * (l1 * l2) >= l1 * l2) by (nonlinear_arith)
            requires
                q1 - q2 >= 1,
                l1 > 0,
                l2 > 0,
        ;
        assert(r2 * l1 < l2 * l1) by (nonlinear_arith)
            requires
                r2 < l2,
                l1 > 0,
        ;
        assert(r1 * l2 >= 0) by (nonlinear_arith)
            requires
                r1 >= 0,
                l2 > 0,
        ;
        assert(l1 * l2 == l2 * l1) by (nonlinear_arith);
    } else if q1 < q2 {
        assert((q1 - q2) * (l1 * l2) <= -(l1 * l2)) by (nonlinear_arith)
            requires
                q2 - q1 >= 1,
                l1 > 0,
                l2 > 0,
        ;
        assert(r1 * l2 < l1 * l2) by (nonlinear_arith)
            requires
                r1 < l1,
                l2 > 0,
        ;
        assert(r2 * l1 >= 0) by (nonlinear_arith)
            requires
                r2 >= 0,
                l1 > 0,
        ;
    } else {
        assert((q1 - q2) * (l1 * l2) == 0) by (nonlinear_arith)
            requires
                q1 == q2,
        ;
    }
}

/// Detects temporal patterns (rhythms) in ternary streams.
#[derive(Debug, Clone)]
pub struct RhythmTracker {
    /// Buffer of observed values.
    pub buffer: Vec<i8>,
    /// Detected period (0 means none detected).
    pub period: usize,
}

impl RhythmTracker {
    /// The buffer holds ternary values only, as `observe` keeps it.
    pub open spec fn well_formed(&self) -> bool {
        all_ternary(self.buffer@)
    }

    /// An empty tracker with no period.
    pub fn new() -> (t: Self)
        ensures
            t.buffer@.len() == 0,
            t.period == 0,
            t.well_formed(),
    {
        RhythmTracker { buffer: Vec::new(), period: 0 }
    }

    /// Observe a value, clamped into {-1, 0, +1}.
    pub fn observe(&mut self, value: i8)
        ensures
            final(self).buffer@ == old(self).buffer@.push(clamp_ternary(value)),
            final(self).period == old(self).period,
            old(self).well_formed() ==> final(self).well_formed(),
    {
        let v = clamp_value(value);
        self.buffer.push(v);
    }

    /// The sums of the positive products `buffer[i] * buffer[i + p]` and of
    /// the magnitudes of the negative ones, over `i < n - p`.
    fn lag_parts(&self, p: usize) -> (r: (u128, u128))
        requires
            1 <= p <= self.buffer@.len(),
            forall|i: int|
                0 <= i < self.buffer@.len() - p ==> i8::MIN <= #[trigger] (self.buffer@[i]
                    * self.buffer@[i + p]) <= i8::MAX,
        ensures
            r.0 - r.1 == lag_sum(self.buffer@, p as int),
            r.0 <= 127 * (self.buffer@.len() - p),
            r.1 <= 128 * (self.buffer@.len() - p),
    {
        let n = self.buffer.len();
        let m = n - p;
        let mut pos: u128 = 0;
        let mut neg: u128 = 0;
        let mut i: usize = 0;
        while i < m
            invariant
                n == self.buffer@.len(),
                m == n - p,
                1 <= p,
                forall|t: int|
                    0 <= t < m ==> i8::MIN <= #[trigger] (self.buffer@[t] * self.buffer@[t + p])
                        <= i8::MAX,
                i <= m,
                pos <= 127 * i,
                neg <= 128 * i,
                pos - neg == lag_sum_before(self.buffer@, p as int, i as int),
            decreases m - i,
        {
            let x = self.buffer[i];
            let y = self.buffer[i + p];
            assert(i8::MIN <= self.buffer@[i as int] * self.buffer@[i + p] <= i8::MAX);
            let prod = x * y;
            if prod > 0 {
                pos = pos + prod as u128;
            } else if prod < 0 {
                neg = neg + (-(prod as i16)) as u128;
            }
            i = i + 1;
        }
        (pos, neg)
    }

    /// Attempt to detect the period using autocorrelation.
    ///
    /// Among the lags `2 ..= n / 2` the first one with the greatest
    /// autocorrelation is taken, and only if that correlation exceeds one half;
    /// otherwise, and for fewer than four observations, the period is 0.
    pub fn detect_period(&mut self) -> (r: usize)
        requires
            lag_products_in_range(old(self).buffer@),
        ensures
            final(self).buffer@ == old(self).buffer@,
            final(self).period == r,
            ({
                let s = old(self).buffer@;
                let n = s.len() as int;
                &&& r == 0 <==> (n < 4 || forall|p: int|
                    2 <= p <= n / 2 ==> !#[trigger] strongly_correlated(s, p))
                &&& r != 0 ==> is_best_lag(s, r as int) && strongly_correlated(s, r as int)
            }),
    {
        let n = self.buffer.len();
        if n < 4 {
            self.period = 0;
            return 0;
        }
        let ghost s = self.buffer@;
        let max_period = n / 2;
        let mut best_period: usize = 0;
        let mut best_sum: u128 = 0;
        let mut best_len: usize = 1;
        let mut p: usize = 2;
        while p <= max_period
            invariant
                s == self.buffer@,
                lag_products_in_range(s),
                n == s.len(),
                n >= 4,
                max_period == n / 2,
                2 <= p <= max_period + 1,
                best_len > 0,
                best_sum <= 127 * n,
                forall|q: int|
                    2 <= q < p ==> #[trigger] lag_sum(s, q) * best_len <= best_sum * (n - q),
                best_period == 0 ==> best_sum == 0 && best_len == 1,
                best_period != 0 ==> {
                    &&& 2 <= best_period < p
                    &&& best_sum == lag_sum(s, best_period as int)
                    &&& best_len == n - best_period
                    &&& best_sum > 0
                    &&& forall|q: int|
                        2 <= q < best_period ==> #[trigger] lag_sum(s, q) * best_len < best_sum * (n
                            - q)
                },
            decreases max_period + 1 - p,
        {
            let len = n - p;
            assert(forall|i: int|
                0 <= i < n - p ==> i8::MIN <= #[trigger] (s[i] * s[i + p]) <= i8::MAX);
            let (pos, neg) = self.lag_parts(p);
            if pos > neg {
                let sum = pos - neg;
                let q_new = sum / (len as u128);
                let r_new = sum % (len as u128);
                let q_best = best_sum / (best_len as u128);
                let r_best = best_sum % (best_len as u128);
                assert((r_new as int) * (best_len as int) <= 0xffff_ffff_ffff_ffff * 0xffff_ffff_ffff_ffffint)
                    by (nonlinear_arith)
                    requires
                        r_new < len,
                        len <= 0xffff_ffff_ffff_ffffint,
                        best_len <= 0xffff_ffff_ffff_ffffint,
                ;
                assert((r_best as int) * (len as int) <= 0xffff_ffff_ffff_ffff * 0xffff_ffff_ffff_ffffint)
                    by (nonlinear_arith)
                    requires
                        r_best < best_len,
                        best_len <= 0xffff_ffff_ffff_ffffint,
                        len <= 0xffff_ffff_ffff_ffffint,
                ;
                proof {
                    lemma_ratio_by_quotient(sum as int, len as int, best_sum as int, best_len as int);
                }
                let better = q_new > q_best || (q_new == q_best && r_new * (best_len as u128) > r_best
                    * (len as u128));
                if better {
                    proof {
                        assert forall|q: int| 2 <= q < p implies #[trigger] lag_sum(s, q) * len
                            < sum * (n - q) by {
                            lemma_ratio_below(
                                lag_sum(s, q),
                                n - q,
                                best_sum as int,
                                best_len as int,
                                sum as int,
                                len as int,
                            );
                        }
                    }
                    best_period = p;
                    best_sum = sum;
                    best_len = len;
                }
            } else {
                assert(lag_sum(s, p as int) * best_len <= 0) by (nonlinear_arith)
                    requires
                        lag_sum(s, p as int) <= 0,
                        best_len > 0,
                ;
                assert(0 <= best_sum * (n - p)) by (nonlinear_arith)
                    requires
                        n - p >= 0,
                ;
            }
            p = p + 1;
        }
        let accept = best_period != 0 && 2 * best_sum > (best_len as u128);
        if accept {
            assert(strongly_correlated(s, best_period as int));
            assert(is_best_lag(s, best_period as int));
            self.period = best_period;
        } else {
            proof {
                assert forall|q: int| 2 <= q <= n / 2 implies !#[trigger] strongly_correlated(s, q) by {
                    assert(lag_sum(s, q) * best_len <= best_sum * (n - q));
                    lemma_ratio_at_most_half(lag_sum(s, q), n - q, best_sum as int, best_len as int);
                }
            }
            self.period = 0;
        }
        self.period
    }

    /// Predict the next value from the detected period.
    pub fn predict_next(&self) -> (r: Option<i8>)
        ensures
            r == if self.period == 0 || self.buffer@.len() < self.period {
                None
            } else {
                Some(self.buffer@[(self.buffer@.len() as int) % (self.period as int)])
            },
    {
        if self.period == 0 || self.buffer.len() < self.period {
            return None;
        }
        let idx = self.buffer.len() % self.period;
        Some(self.buffer[idx])
    }

    /// Number of observations.
    pub fn len(&self) -> (n: usize)
        ensures
            n == self.buffer@.len(),
    {
        self.buffer.len()
    }

    /// Whether nothing has been observed.
    pub fn is_empty(&self) -> (b: bool)
        ensures
            b == (self.buffer@.len() == 0),
    {
        self.buffer.len() == 0
    }
}

} // verus!
