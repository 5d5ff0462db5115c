use vstd::prelude::*;

use crate::signal::{all_ternary, is_ternary};

verus! {

/// `a[j] == -b[j]` for every `j < k`.
pub open spec fn inverse_prefix(a: Seq<i8>, b: Seq<i8>, k: int) -> bool {
    forall|j: int| 0 <= j < k ==> a[j] == -b[j]
}

/// `a` and `b` are inverses of each other: equal lengths and `a[i] == -b[i]`.
pub open spec fn inverse(a: Seq<i8>, b: Seq<i8>) -> bool {
    a.len() == b.len() && inverse_prefix(a, b, a.len() as int)
}

/// The element-wise check of `are_inverse` never negates `i8::MIN`: it stops
/// at the first mismatch, so only a `b[i] == i8::MIN` after a matching prefix
/// would overflow.
pub open spec fn inverse_check_in_range(a: Seq<i8>, b: Seq<i8>) -> bool {
    a.len() == b.len() ==> forall|i: int|
        0 <= i < a.len() && #[trigger] inverse_prefix(a, b, i) ==> b[i] != i8::MIN
}

/// `b` is the nonempty `a` cyclically rotated by `shift`:
/// `a[i] == b[(i + shift) % n]` for every `i`.
pub open spec fn shifted(a: Seq<i8>, b: Seq<i8>, shift: int) -> bool {
    &&& a.len() == b.len()
    &&& a.len() > 0
    &&& forall|i: int| 0 <= i < a.len() ==> #[trigger] a[i] == b[(i + shift) % (a.len() as int)]
}

/// `sum_{i < k} a[i] * b[i]`.
pub open spec fn product_sum(a: Seq<i8>, b: Seq<i8>, k: int) -> int
    decreases k,
{
    if k <= 0 {
        0
    } else {
        product_sum(a, b, k - 1) + a[k - 1] * b[k - 1]
    }
}

/// For sequences of one length, every product `a[i] * b[i]` fits in an `i8`,
/// as the element products are computed.
pub open spec fn products_in_range(a: Seq<i8>, b: Seq<i8>) -> bool {
    a.len() == b.len() ==> forall|i: int|
        0 <= i < a.len() ==> i8::MIN <= #[trigger] (a[i] * b[i]) <= i8::MAX
}

/// The partners of `idx` in `rels`, in order: for each relationship that
/// names `idx`, the other index (the second one when both are `idx`).
pub open spec fn correlated_with(rels: Seq<(usize, usize, i8)>, idx: usize) -> Seq<usize>
    decreases rels.len(),
{
    if rels.len() == 0 {
        Seq::empty()
    } else {
        let prev = correlated_with(rels.drop_last(), idx);
        let (a, b, _) = rels.last();
        if a == idx {
            prev.push(b)
        } else if b == idx {
            prev.push(a)
        } else {
            prev
        }
    }
}

/// Being inverses is symmetric.
pub proof fn lemma_inverse_symmetric(a: Seq<i8>, b: Seq<i8>)
    ensures
        inverse(a, b) == inverse(b, a),
{
    if inverse(a, b) {
        assert forall|j: int| 0 <= j < b.len() implies b[j] == -a[j] by {
            assert(a[j] == -b[j]);
        }
    }
    if inverse(b, a) {
        assert forall|j: int| 0 <= j < a.len() implies a[j] == -b[j] by {
            assert(b[j] == -a[j]);
        }
    }
}

/// A sequence is its own rotation by zero, and rotation by zero is equality.
pub proof fn lemma_shift_zero_is_equality(a: Seq<i8>, b: Seq<i8>)
    requires
        a.len() > 0,
    ensures
        shifted(a, b, 0) == (a == b),
{
    if shifted(a, b, 0) {
        assert forall|i: int| 0 <= i < a.len() implies a[i] == b[i] by {
            vstd::arithmetic::div_mod::lemma_small_mod(i as nat, a.len());
            assert(a[i] == b[(i + 0) % (a.len() as int)]);
        }
        assert(a =~= b);
    }
    if a == b {
        assert forall|i: int| 0 <= i < a.len() implies #[trigger] a[i] == b[(i + 0) % (a.len() as int)] by {
            vstd::arithmetic::div_mod::lemma_small_mod(i as nat, a.len());
        }
    }
}

/// Rotation is cyclic: shifting by `shift` is shifting by `shift % n`, so in
/// particular a whole turn (`shift == n`) leaves a sequence as it was.
pub proof fn lemma_shift_is_cyclic(a: Seq<i8>, b: Seq<i8>, shift: int)
    requires
        a.len() > 0,
        shift >= 0,
    ensures
        shifted(a, b, shift) == shifted(a, b, shift % (a.len() as int)),
{
    let n = a.len() as int;
    if shifted(a, b, shift) {
        assert forall|i: int| 0 <= i < n implies #[trigger] a[i] == b[(i + shift % n) % n] by {
            vstd::arithmetic::div_mod::lemma_add_mod_noop_right(i, shift, n);
            assert(a[i] == b[(i + shift) % n]);
        }
    }
    if shifted(a, b, shift % n) {
        assert forall|i: int| 0 <= i < n implies #[trigger] a[i] == b[(i + shift) % n] by {
            vstd::arithmetic::div_mod::lemma_add_mod_noop_right(i, shift, n);
            assert(a[i] == b[(i + shift % n) % n]);
        }
    }
}

/// Where an index `i` lands after a rotation by `shift` over `n` positions.
proof fn lemma_rotated_index(i: int, shift: int, n: int)
    requires
        0 <= i < n,
        shift >= 0,
    ensures
        (i + shift) % n == if i + shift % n < n {
            i + shift % n
        } else {
            i + shift % n - n
        },
{
    let k = shift % n;
    vstd::arithmetic::div_mod::lemma_mod_pos_bound(shift, n);
    vstd::arithmetic::div_mod::lemma_add_mod_noop_right(i, shift, n);
    if i + k < n {
        vstd::arithmetic::div_mod::lemma_small_mod((i + k) as nat, n as nat);
    } else {
        vstd::arithmetic::div_mod::lemma_mod_sub_multiples_vanish(i + k, n);
        vstd::arithmetic::div_mod::lemma_small_mod((i + k - n) as nat, n as nat);
    }
}

/// `b` is a shifted version of `a` exactly when `b` is `a` rotated: its first
/// `k = shift % n` values are the last `k` of `a`, followed by the rest of `a`.
/// So every position, wrapped around or not, is compared, and `b` holds the
/// same values as `a`.
pub proof fn lemma_shifted_is_rotation(a: Seq<i8>, b: Seq<i8>, shift: int)
    requires
        shift >= 0,
    ensures
        shifted(a, b, shift) <==> (a.len() == b.len() && a.len() > 0 && b == a.subrange(
            a.len() - shift % (a.len() as int),
            a.len() as int,
        ) + a.subrange(0, a.len() - shift % (a.len() as int))),
{
    if a.len() == b.len() && a.len() > 0 {
        let n = a.len() as int;
        let k = shift % n;
        vstd::arithmetic::div_mod::lemma_mod_pos_bound(shift, n);
        let r = a.subrange(n - k, n) + a.subrange(0, n - k);
        assert(r.len() == n);
        assert forall|j: int| 0 <= j < n implies #[trigger] r[j] == if j < k {
            a[n - k + j]
        } else {
            a[j - k]
        } by {}
        if shifted(a, b, shift) {
            assert forall|j: int| 0 <= j < n implies b[j] == #[trigger] r[j] by {
                let i = if j >= k {
                    j - k
                } else {
                    j + n - k
                };
                lemma_rotated_index(i, shift, n);
                assert(a[i] == b[(i + shift) % n]);
            }
            assert(b =~= r);
        }
        if b == r {
            assert forall|i: int| 0 <= i < n implies #[trigger] a[i] == b[(i + shift) % n] by {
                lemma_rotated_index(i, shift, n);
                let j = (i + shift) % n;
                assert(b[j] == r[j]);
            }
        }
    }
}

/// `a` and `b` are inverses exactly when they have one length and each pair
/// of values sums to zero.
pub proof fn lemma_inverse_sums_to_zero(a: Seq<i8>, b: Seq<i8>)
    ensures
        inverse(a, b) <==> (a.len() == b.len() && forall|i: int|
            0 <= i < a.len() ==> #[trigger] (a[i] + b[i]) == 0),
{
    if a.len() == b.len() && forall|i: int| 0 <= i < a.len() ==> #[trigger] (a[i] + b[i]) == 0 {
        assert forall|j: int| 0 <= j < a.len() implies a[j] == -b[j] by {
            assert(a[j] + b[j] == 0);
        }
    }
    if inverse(a, b) {
        assert forall|i: int| 0 <= i < a.len() implies #[trigger] (a[i] + b[i]) == 0 by {
            assert(a[i] == -b[i]);
        }
    }
}

/// The correlation numerator is the full signed sum of the products: it
/// starts at 0 and each index `k` adds `a[k] * b[k]`.
pub proof fn lemma_product_sum_step(a: Seq<i8>, b: Seq<i8>, k: int)
    requires
        k >= 0,
    ensures
        product_sum(a, b, 0) == 0,
        product_sum(a, b, k + 1) == product_sum(a, b, k) + a[k] * b[k],
{
}

/// A relationship that does not name `idx` adds no partner of `idx`, and no
/// relationships give no partners.
pub proof fn lemma_unrelated_relationship_ignored(
    rels: Seq<(usize, usize, i8)>,
    a: usize,
    b: usize,
    rel: i8,
    idx: usize,
)
    requires
        idx != a,
        idx != b,
    ensures
        correlated_with(rels.push((a, b, rel)), idx) == correlated_with(rels, idx),
        correlated_with(Seq::empty(), idx) == Seq::<usize>::empty(),
{
    assert(rels.push((a, b, rel)).drop_last() =~= rels);
}

/// Over ternary sequences the correlation lies in [-1, +1]:
/// `-k <= sum_{i < k} a[i] * b[i] <= k`.
pub proof fn lemma_correlation_bounded(a: Seq<i8>, b: Seq<i8>, k: int)
    requires
        all_ternary(a),
        all_ternary(b),
        0 <= k <= a.len(),
        k <= b.len(),
    ensures
        -k <= product_sum(a, b, k) <= k,
    decreases k,
{
    if k > 0 {
        lemma_correlation_bounded(a, b, k - 1);
        let x = a[k - 1];
        let y = b[k - 1];
        assert(is_ternary(x) && is_ternary(y));
        assert(-1 <= x * y <= 1) by (nonlinear_arith)
            requires
                -1 <= x <= 1,
                -1 <= y <= 1,
        ;
    }
}

/// A sequence of nonzero ternary values is perfectly correlated with itself:
/// `sum_{i < k} a[i] * a[i] == k`.
pub proof fn lemma_self_correlation(a: Seq<i8>, k: int)
    requires
        forall|i: int| 0 <= i < a.len() ==> #[trigger] a[i] == 1 || a[i] == -1,
        0 <= k <= a.len(),
    ensures
        product_sum(a, a, k) == k,
    decreases k,
{
    if k > 0 {
        lemma_self_correlation(a, k - 1);
        assert(a[k - 1] == 1 || a[k - 1] == -1);
    }
}

/// Inverse sequences are perfectly anti-correlated: the correlation of `a`
/// with its inverse `b` is the negation of that of `a` with itself.
pub proof fn lemma_inverse_anticorrelated(a: Seq<i8>, b: Seq<i8>, k: int)
    requires
        inverse(a, b),
        0 <= k <= a.len(),
    ensures
        product_sum(a, b, k) == -product_sum(a, a, k),
    decreases k,
{
    if k > 0 {
        lemma_inverse_anticorrelated(a, b, k - 1);
        let x = a[k - 1];
        let y = b[k - 1];
        assert(x == -y);
        assert(x * y == -(x * x)) by (nonlinear_arith)
            requires
                x == -y,
        ;
    }
}

/// Recording a relationship between `a` and `b` makes `b` the latest partner of `a`.
pub proof fn lemma_added_relationship_found(rels: Seq<(usize, usize, i8)>, a: usize, b: usize, rel: i8)
    ensures
        correlated_with(rels.push((a, b, rel)), a) == correlated_with(rels, a).push(b),
        correlated_with(rels.push((a, b, rel)), b) == correlated_with(rels, b).push(a),
{
    assert(rels.push((a, b, rel)).drop_last() =~= rels);
}

/// Analyzes relationships between multiple ternary signal patterns.
#[derive(Debug, Clone)]
pub struct HarmonicAnalyzer {
    /// Pairs of pattern indices with their relationship (-1, 0 or +1).
    pub relationships: Vec<(usize, usize, i8)>,
}

impl HarmonicAnalyzer {
    /// An analyzer with no relationships.
    pub fn new() -> (h: Self)
        ensures
            h.relationships@.len() == 0,
    {
        HarmonicAnalyzer { relationships: Vec::new() }
    }

    /// Check if two sequences are inverses of each other.
    pub fn are_inverse(a: &[i8], b: &[i8]) -> (r: bool)
        requires
            inverse_check_in_range(a@, b@),
        ensures
            r == inverse(a@, b@),
    {
        if a.len() != b.len() {
            return false;
        }
        let n = a.len();
        let mut i: usize = 0;
        while i < n
            invariant
                n == a@.len(),
                n == b@.len(),
                i <= n,
                inverse_check_in_range(a@, b@),
                inverse_prefix(a@, b@, i as int),
            decreases n - i,
        {
            assert(b@[i as int] != i8::MIN);
            if a[i] != -b[i] {
                return false;
            }
            i = i + 1;
        }
        true
    }

    /// Check if `b` is `a` cyclically rotated by `shift` positions:
    /// `a[i] == b[(i + shift) % n]` for every `i`, where any shift is taken
    /// modulo the length. Sequences of different lengths, and empty ones, are
    /// not shifted versions of each other.
    pub fn are_shifted(a: &[i8], b: &[i8], shift: usize) -> (r: bool)
        ensures
            r == shifted(a@, b@, shift as int),
    {
        let n = a.len();
        if n != b.len() || n == 0 {
            return false;
        }
        let ghost full = shift as int;
        let k = shift % n;
        let mut i: usize = 0;
        while i < n
            invariant
                n == a@.len(),
                n == b@.len(),
                n > 0,
                full == shift,
                k == full % (n as int),
                k < n,
                i <= n,
                forall|t: int| 0 <= t < i ==> #[trigger] a@[t] == b@[(t + full) % (n as int)],
            decreases n - i,
        {
            let j = if i < n - k {
                i + k
            } else {
                i - (n - k)
            };
            assert(j == (i + full) % (n as int)) by {
                vstd::arithmetic::div_mod::lemma_add_mod_noop_right(i as int, full, n as int);
                if i < n - k {
                    vstd::arithmetic::div_mod::lemma_small_mod((i + k) as nat, n as nat);
                } else {
                    vstd::arithmetic::div_mod::lemma_mod_sub_multiples_vanish((i + k) as int, n as int);
                    vstd::arithmetic::div_mod::lemma_small_mod((i + k - n) as nat, n as nat);
                }
            }
            if a[i] != b[j] {
                assert(a@[i as int] != b@[(i + full) % (n as int)]);
                return false;
            }
            i = i + 1;
        }
        true
    }

    /// The terms of the correlation of `a` and `b`: `None` where the lengths
    /// differ or the sequences are empty (correlation 0), and otherwise the
    /// sum of the products `a[i] * b[i]` with the length `n` that divides it.
    pub fn correlation_terms(a: &[i8], b: &[i8]) -> (r: Option<(i128, usize)>)
        requires
            products_in_range(a@, b@),
        ensures
            r == if a@.len() != b@.len() || a@.len() == 0 {
                None
            } else {
                Some((product_sum(a@, b@, a@.len() as int) as i128, a@.len() as usize))
            },
    {
        if a.len() != b.len() || a.len() == 0 {
            return None;
        }
        let n = a.len();
        let mut sum: i128 = 0;
        let mut i: usize = 0;
        while i < n
            invariant
                n == a@.len(),
                n == b@.len(),
                i <= n,
                products_in_range(a@, b@),
                sum == product_sum(a@, b@, i as int),
                -128 * i <= sum <= 127 * i,
            decreases n - i,
        {
            assert(i8::MIN <= a@[i as int] * b@[i as int] <= i8::MAX);
            let prod: i8 = a[i] * b[i];
            sum = sum + prod as i128;
            i = i + 1;
        }
        Some((sum, n))
    }

    /// Add a discovered relationship.
    pub fn add_relationship(&mut self, a: usize, b: usize, rel: i8)
        ensures
            final(self).relationships@ == old(self).relationships@.push((a, b, rel)),
    {
        self.relationships.push((a, b, rel));
    }

    /// The partners of `idx` among the recorded relationships.
    pub fn find_correlated(&self, idx: usize) -> (r: Vec<usize>)
        ensures
            r@ == correlated_with(self.relationships@, idx),
    {
        let rels = &self.relationships;
        let n = rels.len();
        let mut out: Vec<usize> = Vec::new();
        let mut i: usize = 0;
        assert(rels@.take(0) =~= Seq::<(usize, usize, i8)>::empty());
        while i < n
            invariant
                n == rels@.len(),
                i <= n,
                out@ == correlated_with(rels@.take(i as int), idx),
            decreases n - i,
        {
            let (a, b, _) = rels[i];
            assert(rels@.take(i + 1).drop_last() =~= rels@.take(i as int));
            if a == idx {
                out.push(b);
            } else if b == idx {
                out.push(a);
            }
            i = i + 1;
        }
        assert(rels@.take(n as int) =~= rels@);
        out
    }
}

} // verus!
