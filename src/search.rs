use vstd::prelude::*;
use crate::dataset::DataSet;
use crate::gain::{
    lemma_gini_expand, lemma_gini_terms_nonneg, lemma_sums_bounded, lemma_sums_increment, lemma_sums_zero, seq_dot,
    seq_sq_sum,
    Gain, MAX_LABEL, MAX_ROWS, class_count_of, count_of, gini_numerator, gini_terms, label_sum_of,
    labels_are_classes, labels_bounded, left_count, is_proper_split, split_weight, variance_numerator,
};
use crate::question::Question;
use crate::scan::{class_fn, label_fn, lemma_boundary_stats, sum_over, view_indices};
use crate::split_finder::{is_sorted_view, lists_row, pair_lt, sorted_view};

verus! {

/// How a split search scores a candidate split.
#[derive(Clone, Copy, Debug, PartialEq, Eq, Structural)]
pub enum SplitMetric {
    /// Labels are class indices; the score is the decrease of Gini impurity.
    Gini,
    /// Labels are numbers; the score is the decrease of variance.
    Variance,
}

/// The winner of a split search: its exact gain and its question.
#[derive(Clone, Copy, Debug, PartialEq, Eq, Structural)]
pub struct BestSplitResult {
    pub gain: Gain,
    pub question: Question,
}

/// Largest number of classes a Gini search accepts.
pub const MAX_CLASSES: u32 = 65536;

/// The inputs that a search under `metric` accepts.
pub open spec fn search_accepts(d: DataSet, metric: SplitMetric, classes: int) -> bool {
    &&& d.well_formed()
    &&& d.row_count() <= MAX_ROWS
    &&& labels_fit(d, metric, classes)
}

/// The labels suit `metric`: class indices below `classes` (at most
/// `MAX_CLASSES`) for Gini, numbers within `MAX_LABEL` of zero for variance.
pub open spec fn labels_fit(d: DataSet, metric: SplitMetric, classes: int) -> bool {
    match metric {
        SplitMetric::Gini => labels_are_classes(d, classes) && classes <= MAX_CLASSES,
        SplitMetric::Variance => labels_bounded(d),
    }
}

/// Gain numerator of splitting `column` at `threshold` under `metric`.
pub open spec fn numerator(d: DataSet, metric: SplitMetric, classes: int, column: int, threshold: int) -> int {
    match metric {
        SplitMetric::Gini => gini_numerator(d, column, threshold, classes),
        SplitMetric::Variance => variance_numerator(d, column, threshold),
    }
}

/// The split of `column` at the value of row `row` is a candidate.
pub open spec fn is_candidate(d: DataSet, column: int, row: int) -> bool {
    &&& 0 <= column < d.width()
    &&& 0 <= row < d.row_count()
    &&& is_proper_split(d, column, d.value(row, column) as int)
}

/// The gain of splitting (c1, t1) is at most that of (c2, t2).
pub open spec fn gain_le(d: DataSet, metric: SplitMetric, classes: int, c1: int, t1: int, c2: int, t2: int) -> bool {
    numerator(d, metric, classes, c1, t1) * split_weight(d, c2, t2) <= numerator(d, metric, classes, c2, t2)
        * split_weight(d, c1, t1)
}

/// `r` is the split of greatest gain over all candidates; among equal gains it
/// has the lowest column, then the lowest threshold.
pub open spec fn is_best_split(d: DataSet, metric: SplitMetric, classes: int, r: BestSplitResult) -> bool {
    let c = r.question.feature_index as int;
    let t = r.question.threshold as int;
    let n = d.row_count() as int;
    &&& 0 <= c < d.width()
    &&& exists|j: int| 0 <= j < n && #[trigger] d.value(j, c) == t
    &&& is_proper_split(d, c, t)
    &&& r.gain.numerator == numerator(d, metric, classes, c, t)
    &&& r.gain.denominator == n * n * split_weight(d, c, t)
    &&& forall|c2: int, j2: int| #[trigger]
        is_candidate(d, c2, j2) ==> gain_le(d, metric, classes, c2, d.value(j2, c2) as int, c, t)
    &&& forall|c2: int, j2: int| #[trigger]
        is_candidate(d, c2, j2) && gain_le(d, metric, classes, c, t, c2, d.value(j2, c2) as int) ==> (c < c2 || (
        c == c2 && t <= d.value(j2, c2)))
}

/// What a search returns: the best split, or a zero gain when no split
/// leaves both branches non-empty.
pub open spec fn search_result(d: DataSet, metric: SplitMetric, classes: int, r: BestSplitResult) -> bool {
    if exists|c: int, j: int| #[trigger] is_candidate(d, c, j) {
        is_best_split(d, metric, classes, r)
    } else {
        r == (BestSplitResult {
            gain: Gain { numerator: 0, denominator: 1 },
            question: Question { feature_index: 0, threshold: 0 },
        })
    }
}

/// A search has one possible result: `search_result` pins it down.
pub proof fn lemma_search_result_unique(
    d: DataSet,
    metric: SplitMetric,
    classes: int,
    r1: BestSplitResult,
    r2: BestSplitResult,
)
    requires
        search_result(d, metric, classes, r1),
        search_result(d, metric, classes, r2),
    ensures
        r1 == r2,
{
    if exists|c: int, j: int| #[trigger] is_candidate(d, c, j) {
        let c1 = r1.question.feature_index as int;
        let t1 = r1.question.threshold as int;
        let c2 = r2.question.feature_index as int;
        let t2 = r2.question.threshold as int;
        let j1 = choose|j: int| 0 <= j < d.row_count() && #[trigger] d.value(j, c1) == t1;
        let j2 = choose|j: int| 0 <= j < d.row_count() && #[trigger] d.value(j, c2) == t2;
        assert(is_candidate(d, c1, j1));
        assert(is_candidate(d, c2, j2));
        assert(c1 == c2 && t1 == t2);
    }
}

proof fn lemma_ratio_le_trans(a1: int, b1: int, a2: int, b2: int, a3: int, b3: int)
    requires
        b1 > 0,
        b2 > 0,
        b3 > 0,
        a1 * b2 <= a2 * b1,
        a2 * b3 <= a3 * b2,
    ensures
        a1 * b3 <= a3 * b1,
{
    assert(a1 * b2 * b3 <= a2 * b1 * b3) by (nonlinear_arith)
        requires
            a1 * b2 <= a2 * b1,
            b3 > 0,
    ;
    assert(a2 * b3 * b1 <= a3 * b2 * b1) by (nonlinear_arith)
        requires
            a2 * b3 <= a3 * b2,
            b1 > 0,
    ;
    assert(a1 * b3 * b2 <= a3 * b1 * b2) by (nonlinear_arith)
        requires
            a1 * b2 * b3 <= a2 * b1 * b3,
            a2 * b3 * b1 <= a3 * b2 * b1,
    ;
    assert(a1 * b3 <= a3 * b1) by (nonlinear_arith)
        requires
            a1 * b3 * b2 <= a3 * b1 * b2,
            b2 > 0,
    ;
}

proof fn lemma_ratio_lt_trans(a1: int, b1: int, a2: int, b2: int, a3: int, b3: int)
    requires
        b1 > 0,
        b2 > 0,
        b3 > 0,
        a1 * b2 <= a2 * b1,
        a2 * b3 < a3 * b2,
    ensures
        a1 * b3 < a3 * b1,
{
    assert(a1 * b2 * b3 <= a2 * b1 * b3) by (nonlinear_arith)
        requires
            a1 * b2 <= a2 * b1,
            b3 > 0,
    ;
    assert(a2 * b3 * b1 < a3 * b2 * b1) by (nonlinear_arith)
        requires
            a2 * b3 < a3 * b2,
            b1 > 0,
    ;
    assert(a1 * b3 * b2 < a3 * b1 * b2) by (nonlinear_arith)
        requires
            a1 * b2 * b3 <= a2 * b1 * b3,
            a2 * b3 * b1 < a3 * b2 * b1,
    ;
    assert(a1 * b3 < a3 * b1) by (nonlinear_arith)
        requires
            a1 * b3 * b2 < a3 * b1 * b2,
            b2 > 0,
    ;
}

/// Count and label sum of the selected rows.
fn selected_stats(data: &DataSet, column: usize, threshold: i32, whole: bool) -> (r: (usize, i64))
    requires
        data.well_formed(),
        whole || data.has_column(column as int),
        data.row_count() <= MAX_ROWS,
        labels_bounded(*data),
    ensures
        r.0 == count_of(*data, column as int, threshold as int, whole, data.row_count() as int),
        r.1 == label_sum_of(*data, column as int, threshold as int, whole, data.row_count() as int),
        r.0 <= data.row_count(),
        -(data.row_count() * MAX_LABEL) <= r.1 <= data.row_count() * MAX_LABEL,
{
    let mut count: usize = 0;
    let mut sum: i64 = 0;
    let mut i: usize = 0;
    while i < data.labels.len()
        invariant
            data.well_formed(),
            whole || data.has_column(column as int),
            data.row_count() <= MAX_ROWS,
            labels_bounded(*data),
            i <= data.row_count(),
            count == count_of(*data, column as int, threshold as int, whole, i as int),
            sum == label_sum_of(*data, column as int, threshold as int, whole, i as int),
            count <= i,
            -(i * MAX_LABEL) <= sum <= i * MAX_LABEL,
        decreases data.labels@.len() - i,
    {
        if whole || data.features[i][column] <= threshold {
            count = count + 1;
            sum = sum + data.labels[i] as i64;
        }
        i = i + 1;
    }
    (count, sum)
}

/// Per-class counts of the selected rows.
fn class_counts(data: &DataSet, column: usize, threshold: i32, whole: bool, classes: u32) -> (r: Vec<u64>)
    requires
        data.well_formed(),
        whole || data.has_column(column as int),
        data.row_count() <= MAX_ROWS,
        labels_are_classes(*data, classes as int),
    ensures
        r@.len() == classes,
        forall|k: int|
            0 <= k < classes ==> #[trigger] r@[k] == class_count_of(
                *data,
                column as int,
                threshold as int,
                whole,
                k,
                data.row_count() as int,
            ) && r@[k] <= data.row_count(),
{
    let mut r: Vec<u64> = Vec::new();
    let mut k: u32 = 0;
    while k < classes
        invariant
            k <= classes,
            r@.len() == k,
            forall|j: int| 0 <= j < k ==> #[trigger] r@[j] == 0,
        decreases classes - k,
    {
        r.push(0);
        k = k + 1;
    }
    let mut i: usize = 0;
    while i < data.labels.len()
        invariant
            data.well_formed(),
            whole || data.has_column(column as int),
            data.row_count() <= MAX_ROWS,
            labels_are_classes(*data, classes as int),
            i <= data.row_count(),
            r@.len() == classes,
            forall|k: int|
                0 <= k < classes ==> #[trigger] r@[k] == class_count_of(
                    *data,
                    column as int,
                    threshold as int,
                    whole,
                    k,
                    i as int,
                ) && r@[k] <= i,
        decreases data.labels@.len() - i,
    {
        if whole || data.features[i][column] <= threshold {
            let label = data.labels[i] as usize;
            let c = r[label];
            r.set(label, c + 1);
        }
        proof {
            assert forall|k: int| 0 <= k < classes implies #[trigger] r@[k] == class_count_of(
                *data,
                column as int,
                threshold as int,
                whole,
                k,
                i + 1,
            ) && r@[k] <= i + 1 by {
                assert(class_count_of(*data, column as int, threshold as int, whole, k, i + 1)
                    == class_count_of(*data, column as int, threshold as int, whole, k, i as int) + if (whole
                    || data.value(i as int, column as int) <= threshold) && data.labels@[i as int] == k {
                    1int
                } else {
                    0int
                });
            }
        }
        i = i + 1;
    }
    r
}

/// Labels that are class indices below `MAX_CLASSES` are bounded.
proof fn lemma_classes_bounded(d: DataSet, classes: int)
    requires
        labels_are_classes(d, classes),
        classes <= MAX_CLASSES,
    ensures
        labels_bounded(d),
{
    assert forall|i: int| 0 <= i < d.labels@.len() implies -MAX_LABEL <= #[trigger] d.labels@[i] <= MAX_LABEL by {
        assert(0 <= d.labels@[i] < classes);
    }
}

/// In a well-formed dataset every column below the width is present in every row.
proof fn lemma_column_present(d: DataSet, column: int)
    requires
        d.well_formed(),
        0 <= column < d.width(),
    ensures
        d.has_column(column),
{
    assert forall|i: int| 0 <= i < d.features@.len() implies 0 <= column < (#[trigger] d.features@[i])@.len() by {
        assert(d.features@[i]@.len() == d.features@[0]@.len());
    }
}

/// n^2 * sll - 2 * n * nl * slc + nl^2 * scc, the expanded Gini numerator.
fn gini_from_sums(n: usize, nl: usize, sll: u128, slc: u128, scc: u128) -> (r: i128)
    requires
        nl <= n <= MAX_ROWS,
        sll <= 0x4000_0000_0000,
        slc <= 0x4000_0000_0000,
        scc <= 0x4000_0000_0000,
    ensures
        r == n * n * sll - 2 * n * nl * slc + nl * nl * scc,
        r <= 0x1_0000_0000_0000_0000_0000,
{
    let n = n as i128;
    let nl = nl as i128;
    let sll = sll as i128;
    let slc = slc as i128;
    let scc = scc as i128;
    assert(0 <= n * n <= 0x4000_0000 && 0 <= nl * nl <= 0x4000_0000 && 0 <= n * nl <= 0x4000_0000)
        by (nonlinear_arith)
        requires
            0 <= nl <= n <= 32768,
    ;
    let nn = n * n;
    let nnl = n * nl;
    let nlnl = nl * nl;
    assert(0 <= nn * sll <= 0x1000_0000_0000_0000_0000) by (nonlinear_arith)
        requires
            0 <= nn <= 0x4000_0000,
            0 <= sll <= 0x4000_0000_0000,
    ;
    assert(0 <= nnl * slc <= 0x1000_0000_0000_0000_0000) by (nonlinear_arith)
        requires
            0 <= nnl <= 0x4000_0000,
            0 <= slc <= 0x4000_0000_0000,
    ;
    assert(0 <= nlnl * scc <= 0x1000_0000_0000_0000_0000) by (nonlinear_arith)
        requires
            0 <= nlnl <= 0x4000_0000,
            0 <= scc <= 0x4000_0000_0000,
    ;
    assert(2 * n * nl * slc == 2 * (nnl * slc)) by (nonlinear_arith)
        requires
            nnl == n * nl,
    ;
    nn * sll - 2 * (nnl * slc) + nlnl * scc
}

proof fn lemma_whole_ignores_split(d: DataSet, column: int, threshold: int, k: int, m: int)
    ensures
        class_count_of(d, column, threshold, true, k, m) == class_count_of(d, 0, 0, true, k, m),
        label_sum_of(d, column, threshold, true, m) == label_sum_of(d, 0, 0, true, m),
    decreases m,
{
    if m > 0 {
        lemma_whole_ignores_split(d, column, threshold, k, m - 1);
    }
}

fn variance_value(n: usize, n_left: usize, sum_left: i64, total: i64) -> (r: u128)
    requires
        n_left <= n <= MAX_ROWS,
        -(n * MAX_LABEL) <= sum_left <= n * MAX_LABEL,
        -(n * MAX_LABEL) <= total <= n * MAX_LABEL,
    ensures
        r == (n * sum_left - n_left * total) * (n * sum_left - n_left * total),
        r <= 0x4000_0000_0000_0000_0000_0000,
{
    let n = n as i128;
    let nl = n_left as i128;
    let sl = sum_left as i128;
    let st = total as i128;
    assert(-0x4000_0000_0000 <= n * sl <= 0x4000_0000_0000) by (nonlinear_arith)
        requires
            0 <= n <= 32768,
            -(n * 65536) <= sl <= n * 65536,
    ;
    assert(-0x4000_0000_0000 <= nl * st <= 0x4000_0000_0000) by (nonlinear_arith)
        requires
            0 <= nl <= n <= 32768,
            -(n * 65536) <= st <= n * 65536,
    ;
    let t = n * sl - nl * st;
    assert(0 <= t * t <= 0x4000_0000_0000_0000_0000_0000) by (nonlinear_arith)
        requires
            -0x8000_0000_0000 <= t <= 0x8000_0000_0000,
    ;
    (t * t) as u128
}

/// Candidate (c2, j2) is scanned before column `c` reaches thresholds of
/// `bound` and above.
pub open spec fn scanned_before(d: DataSet, c2: int, j2: int, c: int, bound: int) -> bool {
    c2 < c || (c2 == c && d.value(j2, c2) < bound)
}

/// The running best (`bc`, `bt`) dominates every candidate scanned before
/// column `c` reaches `bound`.
pub open spec fn dominates_scanned(
    d: DataSet,
    metric: SplitMetric,
    classes: int,
    found: bool,
    bc: int,
    bt: int,
    c: int,
    bound: int,
) -> bool {
    forall|c2: int, j2: int| #[trigger]
        is_candidate(d, c2, j2) && scanned_before(d, c2, j2, c, bound) ==> found && gain_le(
            d,
            metric,
            classes,
            c2,
            d.value(j2, c2) as int,
            bc,
            bt,
        ) && (gain_le(d, metric, classes, bc, bt, c2, d.value(j2, c2) as int) ==> (bc < c2 || (bc == c2
            && bt <= d.value(j2, c2))))
}

/// Facts held of the running best split once one is found.
pub open spec fn best_facts(
    d: DataSet,
    metric: SplitMetric,
    classes: int,
    bc: int,
    bj: int,
    bt: int,
    bn: int,
    bw: int,
) -> bool {
    &&& 0 <= bc < d.width()
    &&& 0 <= bj < d.row_count()
    &&& d.value(bj, bc) == bt
    &&& is_proper_split(d, bc, bt)
    &&& bn == numerator(d, metric, classes, bc, bt)
    &&& bn <= 0x4000_0000_0000_0000_0000_0000
    &&& bw == split_weight(d, bc, bt)
    &&& 0 < bw <= 0x4000_0000
}

/// Where a row's value stands in a sorted view of its column.
proof fn lemma_value_in_view(d: DataSet, c: int, sv: Seq<(i32, i32)>, j2: int, p: int)
    requires
        is_sorted_view(sv, d.features@, c),
        0 <= j2 < d.features@.len(),
        0 <= p < sv.len(),
    ensures
        sv[0].0 <= d.value(j2, c) <= sv[sv.len() - 1].0,
        p + 1 < sv.len() && sv[p].0 <= d.value(j2, c) < sv[p + 1].0 ==> d.value(j2, c) == sv[p].0,
{
    assert(lists_row(sv, j2));
    let q = choose|q: int| 0 <= q < sv.len() && (#[trigger] sv[q]).1 == j2;
    assert(sv[q].0 == d.value(j2, c));
    if q > 0 {
        assert(pair_lt(sv[0], sv[q]));
    }
    if q < sv.len() - 1 {
        assert(pair_lt(sv[q], sv[sv.len() - 1]));
    }
    if q < p {
        assert(pair_lt(sv[q], sv[p]));
    }
    if q > p + 1 && p + 1 < sv.len() {
        assert(pair_lt(sv[p + 1], sv[q]));
    }
}

fn zeros(len: u32) -> (r: Vec<u64>)
    ensures
        r@.len() == len,
        forall|k: int| 0 <= k < len ==> #[trigger] r@[k] == 0,
{
    let mut r: Vec<u64> = Vec::new();
    let mut k: u32 = 0;
    while k < len
        invariant
            k <= len,
            r@.len() == k,
            forall|j: int| 0 <= j < k ==> #[trigger] r@[j] == 0,
        decreases len - k,
    {
        r.push(0);
        k = k + 1;
    }
    r
}

/// Scans each column once along its sorted view, keeping running sums of the
/// rows below the threshold (label sum; class counts with their sum of squares
/// and their products with the class totals), so each threshold costs O(1),
/// and returns the split of greatest gain under `metric` (see `search_result`).
#[verifier::rlimit(40)]
pub fn find_best_split_by(data: &DataSet, metric: SplitMetric, number_of_classes: u32) -> (r: BestSplitResult)
    requires
        search_accepts(*data, metric, number_of_classes as int),
    ensures
        search_result(*data, metric, number_of_classes as int, r),
{
    let ghost d = *data;
    let ghost classes = number_of_classes as int;
    let n = data.labels.len();
    let width = if n == 0 {
        0
    } else {
        data.features[0].len()
    };
    proof {
        if metric == SplitMetric::Gini {
            lemma_classes_bounded(d, classes);
        }
    }
    let (_, total_sum) = selected_stats(data, 0, 0, true);
    let totals = match metric {
        SplitMetric::Gini => class_counts(data, 0, 0, true, number_of_classes),
        SplitMetric::Variance => Vec::new(),
    };
    let mut scc: u128 = 0;
    if metric == SplitMetric::Gini {
        let mut k: u32 = 0;
        while k < number_of_classes
            invariant
                metric == SplitMetric::Gini,
                k <= number_of_classes <= MAX_CLASSES,
                n <= MAX_ROWS,
                totals@.len() == number_of_classes,
                forall|j: int| 0 <= j < number_of_classes ==> #[trigger] totals@[j] <= n,
                scc == seq_sq_sum(totals@, k as int),
            decreases number_of_classes - k,
        {
            proof {
                lemma_sums_bounded(totals@, totals@, n as int, k as int);
                assert(k * (n * n) <= 0x4000_0000_0000) by (nonlinear_arith)
                    requires
                        k <= 65536,
                        n <= 32768,
                ;
                let x = totals@[k as int] as int;
                assert(x * x <= 0x4000_0000) by (nonlinear_arith)
                    requires
                        0 <= x <= n,
                        n <= 32768,
                ;
            }
            let x = totals[k as usize] as u128;
            scc = scc + x * x;
            k = k + 1;
        }
    }
    proof {
        if metric == SplitMetric::Gini {
            lemma_sums_bounded(totals@, totals@, n as int, classes);
            assert(classes * (n * n) <= 0x4000_0000_0000) by (nonlinear_arith)
                requires
                    classes <= 65536,
                    n <= 32768,
            ;
        }
    }
    let mut found = false;
    let mut best_c: usize = 0;
    let mut best_t: i32 = 0;
    let mut best_num: u128 = 0;
    let mut best_w: u128 = 1;
    let ghost mut best_j: int = 0;
    let mut c: usize = 0;
    while c < width
        invariant
            search_accepts(d, metric, classes),
            labels_bounded(d),
            d == *data,
            classes == number_of_classes,
            n == d.row_count(),
            width == d.width(),
            c <= width,
            total_sum == label_sum_of(d, 0, 0, true, n as int),
            -(n * MAX_LABEL) <= total_sum <= n * MAX_LABEL,
            metric == SplitMetric::Gini ==> totals@.len() == classes && forall|k: int|
                0 <= k < classes ==> #[trigger] totals@[k] == class_count_of(d, 0, 0, true, k, n as int)
                    && totals@[k] <= n,
            metric == SplitMetric::Gini ==> scc == seq_sq_sum(totals@, classes) && scc <= 0x4000_0000_0000,
            found ==> best_c <= c && best_facts(
                d,
                metric,
                classes,
                best_c as int,
                best_j,
                best_t as int,
                best_num as int,
                best_w as int,
            ),
            dominates_scanned(d, metric, classes, found, best_c as int, best_t as int, c as int, i32::MIN as int),
            best_num <= 0x4000_0000_0000_0000_0000_0000,
            0 < best_w <= 0x4000_0000,
        decreases width - c,
    {
        proof {
            lemma_column_present(d, c as int);
        }
        let sv = sorted_view(&data.features, c);
        let ghost idx = view_indices(sv@);
        let mut left_sum: i64 = 0;
        let mut left_classes = match metric {
            SplitMetric::Gini => zeros(number_of_classes),
            SplitMetric::Variance => Vec::new(),
        };
        let mut sll: u128 = 0;
        let mut slc: u128 = 0;
        proof {
            if metric == SplitMetric::Gini {
                lemma_sums_zero(left_classes@, totals@, classes);
            }
            assert(idx.subrange(0, 0) =~= Seq::<int>::empty());
            assert forall|c2: int, j2: int| #[trigger]
                is_candidate(d, c2, j2) && scanned_before(d, c2, j2, c as int, sv@[0].0 as int) implies scanned_before(
                d,
                c2,
                j2,
                c as int,
                i32::MIN as int,
            ) by {
                if c2 == c {
                    lemma_value_in_view(d, c as int, sv@, j2, 0);
                }
            }
        }
        let mut p: usize = 0;
        while p + 1 < n
            invariant
                search_accepts(d, metric, classes),
                labels_bounded(d),
                d.has_column(c as int),
                d == *data,
                classes == number_of_classes,
                n == d.row_count(),
                width == d.width(),
                c < width,
                is_sorted_view(sv@, d.features@, c as int),
                idx == view_indices(sv@),
                p < n,
                total_sum == label_sum_of(d, 0, 0, true, n as int),
                -(n * MAX_LABEL) <= total_sum <= n * MAX_LABEL,
                metric == SplitMetric::Gini ==> totals@.len() == classes && forall|k: int|
                    0 <= k < classes ==> #[trigger] totals@[k] == class_count_of(d, 0, 0, true, k, n as int)
                        && totals@[k] <= n,
                metric == SplitMetric::Gini ==> scc == seq_sq_sum(totals@, classes) && scc <= 0x4000_0000_0000,
                metric == SplitMetric::Gini ==> sll == seq_sq_sum(left_classes@, classes),
                metric == SplitMetric::Gini ==> slc == seq_dot(left_classes@, totals@, classes),
                left_sum == sum_over(idx.subrange(0, p as int), label_fn(d)),
                -(p * MAX_LABEL) <= left_sum <= p * MAX_LABEL,
                metric == SplitMetric::Gini ==> left_classes@.len() == classes && forall|k: int|
                    0 <= k < classes ==> #[trigger] left_classes@[k] == sum_over(
                        idx.subrange(0, p as int),
                        class_fn(d, k),
                    ) && left_classes@[k] <= p,
                found ==> best_c <= c && best_facts(
                    d,
                    metric,
                    classes,
                    best_c as int,
                    best_j,
                    best_t as int,
                    best_num as int,
                    best_w as int,
                ),
                dominates_scanned(d, metric, classes, found, best_c as int, best_t as int, c as int, sv@[p as int].0 as int),
                best_num <= 0x4000_0000_0000_0000_0000_0000,
                0 < best_w <= 0x4000_0000,
            decreases n - p,
        {
            let row = sv[p].1 as usize;
            let label = data.labels[row];
            proof {
                assert(idx[p as int] == row);
                assert(idx.subrange(0, p + 1).drop_last() =~= idx.subrange(0, p as int));
                assert(idx.subrange(0, p + 1).last() == row);
            }
            left_sum = left_sum + label as i64;
            if metric == SplitMetric::Gini {
                let l = label as usize;
                let before = left_classes[l];
                let tl = totals[l];
                let ghost old_left = left_classes@;
                proof {
                    lemma_sums_bounded(left_classes@, totals@, n as int, classes);
                    assert(classes * (n * n) <= 0x4000_0000_0000) by (nonlinear_arith)
                        requires
                            classes <= 65536,
                            n <= 32768,
                    ;
                }
                sll = sll + 2 * (before as u128) + 1;
                slc = slc + tl as u128;
                left_classes.set(l, before + 1);
                proof {
                    lemma_sums_increment(old_left, totals@, l as int, (before + 1) as u64, classes);
                }
                proof {
                    assert forall|k: int| 0 <= k < classes implies #[trigger] left_classes@[k] == sum_over(
                        idx.subrange(0, p + 1),
                        class_fn(d, k),
                    ) && left_classes@[k] <= p + 1 by {}
                }
            }
            let t = sv[p].0;
            let ghost bound_next = sv@[p + 1].0 as int;
            if t < sv[p + 1].0 {
                let nl = p + 1;
                proof {
                    lemma_boundary_stats(d, c as int, sv@, p + 1, 0);
                    assert(sv@[p as int].0 == d.value(row as int, c as int));
                    assert(is_candidate(d, c as int, row as int));
                }
                let num = match metric {
                    SplitMetric::Gini => {
                        proof {
                            assert forall|k: int| 0 <= k < classes implies #[trigger] left_classes@[k]
                                == class_count_of(d, c as int, t as int, false, k, n as int) && left_classes@[k]
                                <= n by {
                                lemma_boundary_stats(d, c as int, sv@, p + 1, k);
                            }
                        }
                        proof {
                            lemma_sums_bounded(left_classes@, totals@, n as int, classes);
                            assert(classes * (n * n) <= 0x4000_0000_0000) by (nonlinear_arith)
                                requires
                                    classes <= 65536,
                                    n <= 32768,
                            ;
                            assert forall|k: int| 0 <= k < classes implies #[trigger] totals@[k]
                                == class_count_of(d, c as int, t as int, true, k, n as int) by {
                                lemma_whole_ignores_split(d, c as int, t as int, k, n as int);
                            }
                            lemma_gini_expand(d, c as int, t as int, classes, left_classes@, totals@);
                            lemma_gini_terms_nonneg(d, c as int, t as int, classes);
                        }
                        let g = gini_from_sums(n, nl, sll, slc, scc);
                        g as u128
                    },
                    SplitMetric::Variance => {
                        proof {
                            lemma_whole_ignores_split(d, c as int, t as int, 0, n as int);
                        }
                        variance_value(n, nl, left_sum, total_sum)
                    },
                };
                let nr = n - nl;
                assert(0 < nl * nr <= 0x4000_0000) by (nonlinear_arith)
                    requires
                        0 < nl <= 32768,
                        0 < nr <= 32768,
                ;
                let w = (nl as u128) * (nr as u128);
                assert(num * best_w <= 0x1000_0000_0000_0000_0000_0000_0000_0000) by (nonlinear_arith)
                    requires
                        num <= 0x4000_0000_0000_0000_0000_0000,
                        best_w <= 0x4000_0000,
                ;
                assert(best_num * w <= 0x1000_0000_0000_0000_0000_0000_0000_0000) by (nonlinear_arith)
                    requires
                        best_num <= 0x4000_0000_0000_0000_0000_0000,
                        w <= 0x4000_0000,
                ;
                let lhs = num * best_w;
                let rhs = best_num * w;
                let better = !found || lhs > rhs || (lhs == rhs && c == best_c && t < best_t);
                proof {
                    let gn = num as int;
                    let gw = w as int;
                    assert forall|c2: int, j2: int| #[trigger]
                        is_candidate(d, c2, j2) && scanned_before(d, c2, j2, c as int, bound_next) implies (found
                        || better) && gain_le(
                        d,
                        metric,
                        classes,
                        c2,
                        d.value(j2, c2) as int,
                        if better { c as int } else { best_c as int },
                        if better { t as int } else { best_t as int },
                    ) && (gain_le(
                        d,
                        metric,
                        classes,
                        if better { c as int } else { best_c as int },
                        if better { t as int } else { best_t as int },
                        c2,
                        d.value(j2, c2) as int,
                    ) ==> ((if better { c as int } else { best_c as int }) < c2 || ((if better { c as int } else { best_c as int }) == c2
                        && (if better { t as int } else { best_t as int }) <= d.value(j2, c2)))) by {
                        let v2 = d.value(j2, c2) as int;
                        let n2 = numerator(d, metric, classes, c2, v2);
                        let w2 = split_weight(d, c2, v2);
                        assert(w2 > 0) by (nonlinear_arith)
                            requires
                                w2 == left_count(d, c2, v2) * (d.row_count() - left_count(d, c2, v2)),
                                0 < left_count(d, c2, v2) < d.row_count(),
                        ;
                        let fresh = c2 == c && v2 >= t;
                        if fresh {
                            lemma_value_in_view(d, c as int, sv@, j2, p as int);
                            assert(v2 == t);
                            if !better {
                                if gn * (best_w as int) >= (best_num as int) * gw {
                                    assert(best_c < c || best_t <= t);
                                }
                            }
                        } else if better && found {
                            lemma_ratio_le_trans(n2, w2, best_num as int, best_w as int, gn, gw);
                            if gn * (best_w as int) > (best_num as int) * gw {
                                if gn * w2 <= n2 * gw {
                                    lemma_ratio_lt_trans(n2, w2, best_num as int, best_w as int, gn, gw);
                                }
                            } else if gn * w2 <= n2 * gw {
                                lemma_ratio_le_trans(best_num as int, best_w as int, gn, gw, n2, w2);
                            }
                        }
                    }
                }
                if better {
                    found = true;
                    best_c = c;
                    best_t = t;
                    best_num = num;
                    best_w = w;
                    proof {
                        best_j = row as int;
                    }
                }
            } else {
                proof {
                    assert forall|c2: int, j2: int| #[trigger]
                        is_candidate(d, c2, j2) && scanned_before(d, c2, j2, c as int, bound_next) implies scanned_before(
                        d,
                        c2,
                        j2,
                        c as int,
                        sv@[p as int].0 as int,
                    ) by {
                        if c2 == c {
                            lemma_value_in_view(d, c as int, sv@, j2, p as int);
                        }
                    }
                }
            }
            p = p + 1;
        }
        proof {
            lemma_boundary_stats(d, c as int, sv@, n as int, 0);
            assert forall|c2: int, j2: int| #[trigger]
                is_candidate(d, c2, j2) && scanned_before(d, c2, j2, c + 1, i32::MIN as int) implies scanned_before(
                d,
                c2,
                j2,
                c as int,
                sv@[p as int].0 as int,
            ) by {
                if c2 == c {
                    lemma_value_in_view(d, c as int, sv@, j2, p as int);
                    if d.value(j2, c2) == sv@[p as int].0 {
                        assert(!is_proper_split(d, c2, d.value(j2, c2) as int));
                    }
                }
            }
        }
        c = c + 1;
    }
    if !found {
        proof {
            assert forall|c2: int, j2: int| !#[trigger] is_candidate(d, c2, j2) by {
                if is_candidate(d, c2, j2) {
                    assert(scanned_before(d, c2, j2, width as int, i32::MIN as int));
                }
            }
        }
        BestSplitResult {
            gain: Gain { numerator: 0, denominator: 1 },
            question: Question { feature_index: 0, threshold: 0 },
        }
    } else {
        let nn = n as u128;
        assert(nn * nn <= 0x4000_0000) by (nonlinear_arith)
            requires
                nn <= 32768,
        ;
        assert(nn * nn * best_w <= 0x1000_0000_0000_0000_0000) by (nonlinear_arith)
            requires
                nn <= 32768,
                best_w <= 0x4000_0000,
        ;
        let r = BestSplitResult {
            gain: Gain { numerator: best_num, denominator: nn * nn * best_w },
            question: Question { feature_index: best_c, threshold: best_t },
        };
        proof {
            assert(is_candidate(d, best_c as int, best_j));
            assert forall|c2: int, j2: int| #[trigger] is_candidate(d, c2, j2) implies scanned_before(
                d,
                c2,
                j2,
                width as int,
                i32::MIN as int,
            ) by {}
        }
        r
    }
}

proof fn lemma_pure_class_counts(d: DataSet, column: int, threshold: int, class: int, k: int, m: int)
    requires
        0 <= m <= d.labels@.len(),
        forall|i: int| 0 <= i < d.labels@.len() ==> #[trigger] d.labels@[i] == class,
    ensures
        class_count_of(d, column, threshold, false, k, m) == if k == class {
            count_of(d, column, threshold, false, m)
        } else {
            0
        },
        class_count_of(d, column, threshold, true, k, m) == if k == class {
            m
        } else {
            0
        },
    decreases m,
{
    if m > 0 {
        lemma_pure_class_counts(d, column, threshold, class, k, m - 1);
    }
}

proof fn lemma_pure_gini_terms(d: DataSet, column: int, threshold: int, class: int, k: int)
    requires
        forall|i: int| 0 <= i < d.labels@.len() ==> #[trigger] d.labels@[i] == class,
    ensures
        gini_terms(d, column, threshold, k) == 0,
    decreases k,
{
    if k > 0 {
        lemma_pure_gini_terms(d, column, threshold, class, k - 1);
        let n = d.row_count() as int;
        lemma_pure_class_counts(d, column, threshold, class, k - 1, n);
        let nl = left_count(d, column, threshold);
        let t = n * class_count_of(d, column, threshold, false, k - 1, n) - nl * class_count_of(
            d,
            column,
            threshold,
            true,
            k - 1,
            n,
        );
        assert(n * nl - nl * n == 0) by (nonlinear_arith);
        assert(t == 0);
        assert(t * t == 0);
    }
}

/// Gini gain of a pure subset is zero: when every row has the same class,
/// no split of any column at any threshold has a positive gain, and a Gini
/// search reports gain zero.
pub proof fn lemma_gini_gain_pure_is_zero(d: DataSet, classes: int, class: int, column: int, threshold: int)
    requires
        forall|i: int| 0 <= i < d.labels@.len() ==> #[trigger] d.labels@[i] == class,
    ensures
        gini_numerator(d, column, threshold, classes) == 0,
        forall|r: BestSplitResult| #[trigger]
            search_result(d, SplitMetric::Gini, classes, r) ==> r.gain.numerator == 0,
{
    lemma_pure_gini_terms(d, column, threshold, class, classes);
    assert forall|r: BestSplitResult| #[trigger]
        search_result(d, SplitMetric::Gini, classes, r) implies r.gain.numerator == 0 by {
        if exists|c: int, j: int| #[trigger] is_candidate(d, c, j) {
            lemma_pure_gini_terms(
                d,
                r.question.feature_index as int,
                r.question.threshold as int,
                class,
                classes,
            );
        }
    }
}

proof fn lemma_constant_label_sums(d: DataSet, column: int, threshold: int, y: int, m: int)
    requires
        0 <= m <= d.labels@.len(),
        forall|i: int| 0 <= i < d.labels@.len() ==> #[trigger] d.labels@[i] == y,
    ensures
        label_sum_of(d, column, threshold, false, m) == y * count_of(d, column, threshold, false, m),
        label_sum_of(d, column, threshold, true, m) == y * m,
    decreases m,
{
    if m > 0 {
        lemma_constant_label_sums(d, column, threshold, y, m - 1);
        assert(y * count_of(d, column, threshold, false, m - 1) + y == y * (count_of(
            d,
            column,
            threshold,
            false,
            m - 1,
        ) + 1)) by (nonlinear_arith);
        assert(y * (m - 1) + y == y * m) by (nonlinear_arith);
    }
}

/// Variance gain of a constant-label subset is zero: when every row has the
/// same label, no split of any column at any threshold has a positive gain,
/// and a variance search reports gain zero.
pub proof fn lemma_variance_gain_constant_is_zero(d: DataSet, classes: int, y: int, column: int, threshold: int)
    requires
        forall|i: int| 0 <= i < d.labels@.len() ==> #[trigger] d.labels@[i] == y,
    ensures
        variance_numerator(d, column, threshold) == 0,
        forall|r: BestSplitResult| #[trigger]
            search_result(d, SplitMetric::Variance, classes, r) ==> r.gain.numerator == 0,
{
    let n = d.row_count() as int;
    lemma_constant_label_sums(d, column, threshold, y, n);
    let nl = left_count(d, column, threshold);
    assert(n * (y * nl) - nl * (y * n) == 0) by (nonlinear_arith);
    assert forall|r: BestSplitResult| #[trigger]
        search_result(d, SplitMetric::Variance, classes, r) implies r.gain.numerator == 0 by {
        if exists|c: int, j: int| #[trigger] is_candidate(d, c, j) {
            let c = r.question.feature_index as int;
            let t = r.question.threshold as int;
            lemma_constant_label_sums(d, c, t, y, n);
            let nl2 = left_count(d, c, t);
            assert(n * (y * nl2) - nl2 * (y * n) == 0) by (nonlinear_arith);
        }
    }
}

} // verus!
