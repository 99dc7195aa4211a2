use vstd::prelude::*;
use crate::dataset::DataSet;
use crate::gain::{MAX_LABEL, MAX_ROWS};
use crate::search::{BestSplitResult, MAX_CLASSES, SplitMetric, labels_fit, search_accepts, search_result};
use crate::use_gini;
use crate::use_variance;

verus! {

/// `a` comes before `b` when ordered by value, then by row index.
pub open spec fn pair_lt(a: (i32, i32), b: (i32, i32)) -> bool {
    a.0 < b.0 || (a.0 == b.0 && a.1 < b.1)
}

/// Some entry of `r` carries row index `i`.
pub open spec fn lists_row(r: Seq<(i32, i32)>, i: int) -> bool {
    exists|j: int| 0 <= j < r.len() && (#[trigger] r[j]).1 == i
}

/// `r` lists every row of `features` once, as (value in `column`, row index),
/// ascending by value; rows of equal value keep their dataset order.
pub open spec fn is_sorted_view(r: Seq<(i32, i32)>, features: Seq<Vec<i32>>, column: int) -> bool {
    &&& r.len() == features.len()
    &&& forall|j: int|
        0 <= j < r.len() ==> 0 <= (#[trigger] r[j]).1 < features.len() && r[j].0
            == features[r[j].1 as int]@[column]
    &&& forall|a: int, b: int| 0 <= a < b < r.len() ==> pair_lt(#[trigger] r[a], #[trigger] r[b])
    &&& forall|i: int| 0 <= i < features.len() ==> #[trigger] lists_row(r, i)
    &&& forall|a: int, b: int| 0 <= a < r.len() && 0 <= b < r.len() && a != b ==> (#[trigger] r[a]).1 != (#[trigger] r[b]).1
}

/// Pairs each row's value in `column` with the row's index and sorts the pairs
/// by value, keeping dataset row order among equal values.
pub fn get_sorted_feature_tuple_vector(features: &Vec<Vec<i32>>, column: u32) -> (r: Vec<(i32, i32)>)
    requires
        features@.len() <= i32::MAX,
        forall|i: int| 0 <= i < features@.len() ==> column < (#[trigger] features@[i])@.len(),
    ensures
        is_sorted_view(r@, features@, column as int),
{
    sorted_view(features, column as usize)
}

/// `get_sorted_feature_tuple_vector` for a column given as `usize`.
pub fn sorted_view(features: &Vec<Vec<i32>>, column: usize) -> (r: Vec<(i32, i32)>)
    requires
        features@.len() <= i32::MAX,
        forall|i: int| 0 <= i < features@.len() ==> column < (#[trigger] features@[i])@.len(),
    ensures
        is_sorted_view(r@, features@, column as int),
{
    let r = sort_rows(features, column, 0, features.len());
    proof {
        assert forall|a: int, b: int| 0 <= a < r@.len() && 0 <= b < r@.len() && a != b implies (#[trigger] r@[a]).1
            != (#[trigger] r@[b]).1 by {
            if a < b {
                assert(pair_lt(r@[a], r@[b]));
            } else {
                assert(pair_lt(r@[b], r@[a]));
            }
        }
    }
    r
}

/// Entries of `r` are (value in `column`, row index) for rows in `lo..hi`.
pub open spec fn pairs_of_rows(r: Seq<(i32, i32)>, features: Seq<Vec<i32>>, column: int, lo: int, hi: int) -> bool {
    forall|j: int|
        0 <= j < r.len() ==> lo <= (#[trigger] r[j]).1 < hi && r[j].0 == features[r[j].1 as int]@[column]
}

/// `r` is strictly ascending by value, then row index.
pub open spec fn strictly_sorted(r: Seq<(i32, i32)>) -> bool {
    forall|a: int, b: int| 0 <= a < b < r.len() ==> pair_lt(#[trigger] r[a], #[trigger] r[b])
}

/// Merge sort of the (value, index) pairs of rows `lo..hi`.
fn sort_rows(features: &Vec<Vec<i32>>, column: usize, lo: usize, hi: usize) -> (r: Vec<(i32, i32)>)
    requires
        lo <= hi <= features@.len() <= i32::MAX,
        forall|i: int| 0 <= i < features@.len() ==> column < (#[trigger] features@[i])@.len(),
    ensures
        r@.len() == hi - lo,
        pairs_of_rows(r@, features@, column as int, lo as int, hi as int),
        strictly_sorted(r@),
        forall|i: int| lo <= i < hi ==> #[trigger] lists_row(r@, i),
    decreases hi - lo,
{
    if hi - lo <= 1 {
        let mut r: Vec<(i32, i32)> = Vec::new();
        if hi - lo == 1 {
            r.push((features[lo][column], lo as i32));
            assert(r@[0].1 == lo);
        }
        return r;
    }
    let mid = lo + (hi - lo) / 2;
    let a = sort_rows(features, column, lo, mid);
    let b = sort_rows(features, column, mid, hi);
    let mut r: Vec<(i32, i32)> = Vec::new();
    let mut i: usize = 0;
    let mut j: usize = 0;
    while i < a.len() || j < b.len()
        invariant
            lo < mid < hi <= features@.len() <= i32::MAX,
            a@.len() == mid - lo,
            b@.len() == hi - mid,
            pairs_of_rows(a@, features@, column as int, lo as int, mid as int),
            pairs_of_rows(b@, features@, column as int, mid as int, hi as int),
            strictly_sorted(a@),
            strictly_sorted(b@),
            i <= a@.len(),
            j <= b@.len(),
            r@.len() == i + j,
            pairs_of_rows(r@, features@, column as int, lo as int, hi as int),
            strictly_sorted(r@),
            forall|k: int| 0 <= k < i ==> #[trigger] lists_row(r@, a@[k].1 as int),
            forall|k: int| 0 <= k < j ==> #[trigger] lists_row(r@, b@[k].1 as int),
            r@.len() > 0 && i < a@.len() ==> pair_lt(r@.last(), a@[i as int]),
            r@.len() > 0 && j < b@.len() ==> pair_lt(r@.last(), b@[j as int]),
        decreases a@.len() + b@.len() - i - j,
    {
        let take_a = j >= b.len() || (i < a.len() && (a[i].0 < b[j].0 || (a[i].0 == b[j].0 && a[i].1 < b[j].1)));
        let ghost prev = r@;
        let x = if take_a {
            a[i]
        } else {
            b[j]
        };
        r.push(x);
        proof {
            if take_a {
                if j < b@.len() {
                    assert(pair_lt(x, b@[j as int]));
                }
                if i + 1 < a@.len() {
                    assert(pair_lt(a@[i as int], a@[i + 1]));
                }
            } else {
                assert(a@[i as int].1 < mid && b@[j as int].1 >= mid || i >= a@.len());
                if i < a@.len() {
                    assert(pair_lt(x, a@[i as int]));
                }
                if j + 1 < b@.len() {
                    assert(pair_lt(b@[j as int], b@[j + 1]));
                }
            }
            assert forall|p: int, q: int| 0 <= p < q < r@.len() implies pair_lt(#[trigger] r@[p], #[trigger] r@[q]) by {
                if q == r@.len() - 1 && p < prev.len() - 1 {
                    assert(pair_lt(prev[p], prev.last()));
                }
            }
            assert forall|k: int| 0 <= k < (if take_a { i + 1 } else { i as int }) implies #[trigger] lists_row(
                r@,
                a@[k].1 as int,
            ) by {
                if take_a && k == i {
                    assert(r@[prev.len() as int] == a@[k]);
                } else {
                    assert(lists_row(prev, a@[k].1 as int));
                    let w = choose|w: int| 0 <= w < prev.len() && (#[trigger] prev[w]).1 == a@[k].1;
                    assert(r@[w] == prev[w]);
                }
            }
            assert forall|k: int| 0 <= k < (if take_a { j as int } else { j + 1 }) implies #[trigger] lists_row(
                r@,
                b@[k].1 as int,
            ) by {
                if !take_a && k == j {
                    assert(r@[prev.len() as int] == b@[k]);
                } else {
                    assert(lists_row(prev, b@[k].1 as int));
                    let w = choose|w: int| 0 <= w < prev.len() && (#[trigger] prev[w]).1 == b@[k].1;
                    assert(r@[w] == prev[w]);
                }
            }
        }
        if take_a {
            i = i + 1;
        } else {
            j = j + 1;
        }
    }
    proof {
        assert forall|row: int| lo <= row < hi implies #[trigger] lists_row(r@, row) by {
            if row < mid {
                assert(lists_row(a@, row));
                let k = choose|k: int| 0 <= k < a@.len() && (#[trigger] a@[k]).1 == row;
                assert(lists_row(r@, a@[k].1 as int));
            } else {
                assert(lists_row(b@, row));
                let k = choose|k: int| 0 <= k < b@.len() && (#[trigger] b@[k]).1 == row;
                assert(lists_row(r@, b@[k].1 as int));
            }
        }
    }
    r
}

/// A split search whose metric is chosen once, when it is made.
pub struct SplitFinder {
    pub split_metric: SplitMetric,
}

impl SplitFinder {
    pub fn new(metric: SplitMetric) -> (r: Self)
        ensures
            r.split_metric == metric,
    {
        SplitFinder { split_metric: metric }
    }

    /// The best split of `data` under this finder's metric.
    pub fn find_best_split(&self, data: &DataSet, number_of_classes: u32) -> (r: BestSplitResult)
        requires
            search_accepts(*data, self.split_metric, number_of_classes as int),
        ensures
            search_result(*data, self.split_metric, number_of_classes as int, r),
    {
        match self.split_metric {
            SplitMetric::Gini => use_gini::find_best_split(data, number_of_classes),
            SplitMetric::Variance => use_variance::find_best_split(data, number_of_classes),
        }
    }
}

/// Why a split search refused its input.
#[derive(Clone, Copy, Debug, PartialEq, Eq, Structural)]
pub enum SplitError {
    /// Rows of different widths, or not one label per row.
    ShapeMismatch,
    /// More rows than `MAX_ROWS`.
    TooManyRows,
    /// A label that does not suit the metric (see `labels_fit`).
    LabelOutOfRange,
}

/// Checks that the dataset has one label per row and rows of one width.
pub fn check_shape(data: &DataSet) -> (r: bool)
    ensures
        r == data.well_formed(),
{
    if data.features.len() != data.labels.len() {
        return false;
    }
    if data.features.len() == 0 {
        return true;
    }
    let width = data.features[0].len();
    let mut i: usize = 0;
    while i < data.features.len()
        invariant
            data.features@.len() == data.labels@.len(),
            data.features@.len() > 0,
            width == data.features@[0]@.len(),
            i <= data.features@.len(),
            forall|k: int| 0 <= k < i ==> (#[trigger] data.features@[k])@.len() == width,
        decreases data.features@.len() - i,
    {
        if data.features[i].len() != width {
            return false;
        }
        i = i + 1;
    }
    proof {
        assert forall|a: int, b: int|
            0 <= a < data.features@.len() && 0 <= b < data.features@.len() implies #[trigger] data.features@[a]@.len()
            == #[trigger] data.features@[b]@.len() by {
            assert(data.features@[a]@.len() == width);
            assert(data.features@[b]@.len() == width);
        }
    }
    true
}

/// Checks that the labels suit `metric`.
pub fn check_labels(data: &DataSet, metric: SplitMetric, number_of_classes: u32) -> (r: bool)
    ensures
        r == labels_fit(*data, metric, number_of_classes as int),
{
    if metric == SplitMetric::Gini && number_of_classes > MAX_CLASSES {
        return false;
    }
    let mut i: usize = 0;
    while i < data.labels.len()
        invariant
            i <= data.labels@.len(),
            metric == SplitMetric::Gini ==> number_of_classes <= MAX_CLASSES,
            forall|k: int|
                0 <= k < i ==> match metric {
                    SplitMetric::Gini => 0 <= #[trigger] data.labels@[k] < number_of_classes,
                    SplitMetric::Variance => -MAX_LABEL <= data.labels@[k] <= MAX_LABEL,
                },
        decreases data.labels@.len() - i,
    {
        let label = data.labels[i];
        let fits = match metric {
            SplitMetric::Gini => 0 <= label && (label as i64) < (number_of_classes as i64),
            SplitMetric::Variance => -MAX_LABEL <= label && label <= MAX_LABEL,
        };
        if !fits {
            return false;
        }
        i = i + 1;
    }
    true
}

impl SplitFinder {
    /// The best split of `data` under this finder's metric, or why the input
    /// was refused: a shape mismatch first, then too many rows, then a label
    /// that does not suit the metric.
    pub fn checked_find_best_split(&self, data: &DataSet, number_of_classes: u32) -> (r: Result<
        BestSplitResult,
        SplitError,
    >)
        ensures
            r == Err::<BestSplitResult, SplitError>(SplitError::ShapeMismatch) <==> !data.well_formed(),
            r == Err::<BestSplitResult, SplitError>(SplitError::TooManyRows) <==> data.well_formed()
                && data.row_count() > MAX_ROWS,
            r == Err::<BestSplitResult, SplitError>(SplitError::LabelOutOfRange) <==> data.well_formed()
                && data.row_count() <= MAX_ROWS && !labels_fit(*data, self.split_metric, number_of_classes as int),
            r is Ok <==> search_accepts(*data, self.split_metric, number_of_classes as int),
            r matches Ok(best) ==> search_result(*data, self.split_metric, number_of_classes as int, best),
    {
        if !check_shape(data) {
            return Err(SplitError::ShapeMismatch);
        }
        if data.labels.len() > MAX_ROWS {
            return Err(SplitError::TooManyRows);
        }
        if !check_labels(data, self.split_metric, number_of_classes) {
            return Err(SplitError::LabelOutOfRange);
        }
        Ok(self.find_best_split(data, number_of_classes))
    }
}

} // verus!
