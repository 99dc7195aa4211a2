use vstd::prelude::*;
use crate::dataset::DataSet;

verus! {

/// Largest number of rows a split search accepts; it keeps every gain exact
/// in 128-bit arithmetic.
pub const MAX_ROWS: usize = 32768;

/// Largest label magnitude a split search accepts, for the same reason.
pub const MAX_LABEL: i32 = 65536;

/// Row `i` counts: every row when `whole`, else only those whose value in
/// `column` is at most `threshold`.
pub open spec fn selected(d: DataSet, column: int, threshold: int, whole: bool, i: int) -> bool {
    whole || d.value(i, column) <= threshold
}

/// Number of selected rows among the first `m`.
pub open spec fn count_of(d: DataSet, column: int, threshold: int, whole: bool, m: int) -> int
    decreases m,
{
    if m <= 0 {
        0
    } else {
        count_of(d, column, threshold, whole, m - 1) + if selected(d, column, threshold, whole, m - 1) {
            1int
        } else {
            0int
        }
    }
}

/// Sum of the labels of the selected rows among the first `m`.
pub open spec fn label_sum_of(d: DataSet, column: int, threshold: int, whole: bool, m: int) -> int
    decreases m,
{
    if m <= 0 {
        0
    } else {
        label_sum_of(d, column, threshold, whole, m - 1) + if selected(d, column, threshold, whole, m - 1) {
            d.labels@[m - 1] as int
        } else {
            0int
        }
    }
}

/// Number of selected rows of class `k` among the first `m`.
pub open spec fn class_count_of(d: DataSet, column: int, threshold: int, whole: bool, k: int, m: int) -> int
    decreases m,
{
    if m <= 0 {
        0
    } else {
        class_count_of(d, column, threshold, whole, k, m - 1) + if selected(d, column, threshold, whole, m - 1)
            && d.labels@[m - 1] == k {
            1int
        } else {
            0int
        }
    }
}

/// Rows sent to the true (left) branch by splitting `column` at `threshold`.
pub open spec fn left_count(d: DataSet, column: int, threshold: int) -> int {
    count_of(d, column, threshold, false, d.row_count() as int)
}

/// Splitting `column` at `threshold` leaves both branches non-empty.
pub open spec fn is_proper_split(d: DataSet, column: int, threshold: int) -> bool {
    0 < left_count(d, column, threshold) < d.row_count()
}

/// Product of the two branch sizes.
pub open spec fn split_weight(d: DataSet, column: int, threshold: int) -> int {
    left_count(d, column, threshold) * (d.row_count() - left_count(d, column, threshold))
}

/// Sum over classes below `k` of (n * left count of the class - left size * count of the class)^2.
pub open spec fn gini_terms(d: DataSet, column: int, threshold: int, k: int) -> int
    decreases k,
{
    if k <= 0 {
        0
    } else {
        let n = d.row_count() as int;
        let t = n * class_count_of(d, column, threshold, false, k - 1, n) - left_count(d, column, threshold)
            * class_count_of(d, column, threshold, true, k - 1, n);
        gini_terms(d, column, threshold, k - 1) + t * t
    }
}

/// The Gini gain of the split is this value over n^2 * split_weight:
/// it equals impurity(parent) - sum over branches of (size / n) * impurity(branch),
/// with impurity(g) = 1 - sum over classes of p_class^2.
pub open spec fn gini_numerator(d: DataSet, column: int, threshold: int, classes: int) -> int {
    gini_terms(d, column, threshold, classes)
}

/// The variance gain of the split is this value over n^2 * split_weight:
/// it equals the parent's mean squared deviation from its mean minus the
/// size-weighted mean squared deviations of the two branches.
pub open spec fn variance_numerator(d: DataSet, column: int, threshold: int) -> int {
    let n = d.row_count() as int;
    let t = n * label_sum_of(d, column, threshold, false, n) - left_count(d, column, threshold)
        * label_sum_of(d, column, threshold, true, n);
    t * t
}

/// Every label lies within `MAX_LABEL` of zero.
pub open spec fn labels_bounded(d: DataSet) -> bool {
    forall|i: int| 0 <= i < d.labels@.len() ==> -MAX_LABEL <= #[trigger] d.labels@[i] <= MAX_LABEL
}

/// Every label is a class index below `classes`.
pub open spec fn labels_are_classes(d: DataSet, classes: int) -> bool {
    forall|i: int| 0 <= i < d.labels@.len() ==> 0 <= #[trigger] d.labels@[i] < classes
}

/// An exact, non-negative gain `numerator / denominator`.
#[derive(Clone, Copy, Debug, PartialEq, Eq, Structural)]
pub struct Gain {
    pub numerator: u128,
    pub denominator: u128,
}

impl Gain {
    /// The gain is positive: the split is useful.
    pub open spec fn spec_is_positive(&self) -> bool {
        self.numerator > 0 && self.denominator > 0
    }

    pub fn is_positive(&self) -> (r: bool)
        ensures
            r == self.spec_is_positive(),
    {
        self.numerator > 0 && self.denominator > 0
    }
}

/// Sum of the squares of the first `k` entries of `s`.
pub open spec fn seq_sq_sum(s: Seq<u64>, k: int) -> int
    decreases k,
{
    if k <= 0 {
        0
    } else {
        seq_sq_sum(s, k - 1) + s[k - 1] * s[k - 1]
    }
}

/// Sum of the products of the first `k` entries of `s` and `t`.
pub open spec fn seq_dot(s: Seq<u64>, t: Seq<u64>, k: int) -> int
    decreases k,
{
    if k <= 0 {
        0
    } else {
        seq_dot(s, t, k - 1) + s[k - 1] * t[k - 1]
    }
}

/// With left counts `left` and totals `totals` per class, the Gini numerator
/// expands into three sums that can be kept up to date one row at a time.
pub proof fn lemma_gini_expand(d: DataSet, column: int, threshold: int, k: int, left: Seq<u64>, totals: Seq<u64>)
    requires
        0 <= k <= left.len(),
        k <= totals.len(),
        forall|j: int|
            0 <= j < k ==> #[trigger] left[j] == class_count_of(d, column, threshold, false, j, d.row_count() as int),
        forall|j: int|
            0 <= j < k ==> #[trigger] totals[j] == class_count_of(d, column, threshold, true, j, d.row_count() as int),
    ensures
        gini_terms(d, column, threshold, k) == {
            let n = d.row_count() as int;
            let nl = left_count(d, column, threshold);
            n * n * seq_sq_sum(left, k) - 2 * n * nl * seq_dot(left, totals, k) + nl * nl * seq_sq_sum(totals, k)
        },
    decreases k,
{
    if k > 0 {
        lemma_gini_expand(d, column, threshold, k - 1, left, totals);
        let n = d.row_count() as int;
        let nl = left_count(d, column, threshold);
        let cl = left[k - 1] as int;
        let ct = totals[k - 1] as int;
        let a = seq_sq_sum(left, k - 1);
        let b = seq_dot(left, totals, k - 1);
        let c = seq_sq_sum(totals, k - 1);
        lemma_square_expand(n, nl, cl, ct);
        lemma_distribute(n * n, a, cl * cl);
        lemma_distribute(2 * n * nl, b, cl * ct);
        lemma_distribute(nl * nl, c, ct * ct);
    }
}

proof fn lemma_square_expand(n: int, nl: int, cl: int, ct: int)
    ensures
        (n * cl - nl * ct) * (n * cl - nl * ct) == n * n * (cl * cl) - 2 * n * nl * (cl * ct) + nl * nl * (ct * ct),
{
    let x = n * cl;
    let y = nl * ct;
    assert((x - y) * (x - y) == x * x - 2 * (x * y) + y * y) by (nonlinear_arith);
    assert(x * x == n * n * (cl * cl)) by (nonlinear_arith)
        requires
            x == n * cl,
    ;
    assert(y * y == nl * nl * (ct * ct)) by (nonlinear_arith)
        requires
            y == nl * ct,
    ;
    assert(2 * (x * y) == 2 * n * nl * (cl * ct)) by (nonlinear_arith)
        requires
            x == n * cl,
            y == nl * ct,
    ;
}

proof fn lemma_distribute(f: int, a: int, b: int)
    ensures
        f * (a + b) == f * a + f * b,
{
    assert(f * (a + b) == f * a + f * b) by (nonlinear_arith);
}

proof fn lemma_sums_prefix_unchanged(s: Seq<u64>, s2: Seq<u64>, t: Seq<u64>, k: int)
    requires
        0 <= k <= s.len(),
        k <= s2.len(),
        forall|j: int| 0 <= j < k ==> #[trigger] s2[j] == s[j],
    ensures
        seq_sq_sum(s2, k) == seq_sq_sum(s, k),
        seq_dot(s2, t, k) == seq_dot(s, t, k),
    decreases k,
{
    if k > 0 {
        lemma_sums_prefix_unchanged(s, s2, t, k - 1);
    }
}

/// Adding one to entry `l` adds 2 * s[l] + 1 to the sum of squares and t[l]
/// to the product sum.
pub proof fn lemma_sums_increment(s: Seq<u64>, t: Seq<u64>, l: int, v: u64, k: int)
    requires
        0 <= l < k <= s.len(),
        v == s[l] + 1,
    ensures
        seq_sq_sum(s.update(l, v), k) == seq_sq_sum(s, k) + 2 * s[l] + 1,
        seq_dot(s.update(l, v), t, k) == seq_dot(s, t, k) + t[l],
    decreases k,
{
    let s2 = s.update(l, v);
    if k - 1 == l {
        lemma_sums_prefix_unchanged(s, s2, t, l);
        assert(s2[l] * s2[l] == s[l] * s[l] + 2 * s[l] + 1) by (nonlinear_arith)
            requires
                s2[l] == s[l] + 1,
        ;
        assert(s2[l] * t[l] == s[l] * t[l] + t[l]) by (nonlinear_arith)
            requires
                s2[l] == s[l] + 1,
        ;
    } else {
        lemma_sums_increment(s, t, l, v, k - 1);
    }
}

/// Each entry at most `m` bounds the sums.
pub proof fn lemma_sums_bounded(s: Seq<u64>, t: Seq<u64>, m: int, k: int)
    requires
        0 <= k <= s.len(),
        k <= t.len(),
        forall|j: int| 0 <= j < k ==> #[trigger] s[j] <= m,
        forall|j: int| 0 <= j < k ==> #[trigger] t[j] <= m,
    ensures
        0 <= seq_sq_sum(s, k) <= k * (m * m),
        0 <= seq_dot(s, t, k) <= k * (m * m),
    decreases k,
{
    if k > 0 {
        lemma_sums_bounded(s, t, m, k - 1);
        let x = s[k - 1] as int;
        let y = t[k - 1] as int;
        assert(0 <= x * x <= m * m && 0 <= x * y <= m * m) by (nonlinear_arith)
            requires
                0 <= x <= m,
                0 <= y <= m,
        ;
        assert((k - 1) * (m * m) + m * m == k * (m * m)) by (nonlinear_arith);
    }
}

/// Sums over entries that are all zero are zero.
pub proof fn lemma_sums_zero(s: Seq<u64>, t: Seq<u64>, k: int)
    requires
        0 <= k <= s.len(),
        forall|j: int| 0 <= j < k ==> #[trigger] s[j] == 0,
    ensures
        seq_sq_sum(s, k) == 0,
        seq_dot(s, t, k) == 0,
    decreases k,
{
    if k > 0 {
        lemma_sums_zero(s, t, k - 1);
    }
}

/// The Gini numerator is a sum of squares.
pub proof fn lemma_gini_terms_nonneg(d: DataSet, column: int, threshold: int, k: int)
    ensures
        gini_terms(d, column, threshold, k) >= 0,
    decreases k,
{
    if k > 0 {
        lemma_gini_terms_nonneg(d, column, threshold, k - 1);
        let n = d.row_count() as int;
        let t = n * class_count_of(d, column, threshold, false, k - 1, n) - left_count(d, column, threshold)
            * class_count_of(d, column, threshold, true, k - 1, n);
        assert(t * t >= 0) by (nonlinear_arith);
    }
}

} // verus!
