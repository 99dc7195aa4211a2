use vstd::prelude::*;
use crate::dataset::DataSet;
use crate::gain::{count_of, labels_are_classes, labels_bounded};
use crate::leaf::RegressionLeaf;
use crate::node::TreeNode;
use crate::question::Question;
use crate::search::{BestSplitResult, SplitMetric, search_accepts, search_result};
use crate::split_finder::SplitFinder;

verus! {

/// Stopping rules of tree growth.
#[derive(Clone, Copy, Debug, PartialEq, Eq, Structural)]
pub struct TreeConfig {
    /// Longest path of questions from the root to a leaf.
    pub max_depth: usize,
    /// A node with fewer rows than this becomes a leaf.
    pub min_samples_split: usize,
}

/// The rows of `d` as (features, label) pairs.
pub open spec fn rows_of(d: DataSet) -> Seq<(Seq<i32>, i32)> {
    Seq::new(d.labels@.len(), |i: int| (d.features@[i]@, d.labels@[i]))
}

/// `x` is one of the rows of `d`.
pub open spec fn is_row_of(d: DataSet, x: (Seq<i32>, i32)) -> bool {
    rows_of(d).contains(x)
}

/// The rows of `rows` that `question` sends to `side`, in their order.
pub open spec fn filter_rows(rows: Seq<(Seq<i32>, i32)>, question: Question, side: bool) -> Seq<(Seq<i32>, i32)>
    decreases rows.len(),
{
    if rows.len() == 0 {
        Seq::empty()
    } else {
        let prev = filter_rows(rows.drop_last(), question, side);
        if question.spec_answer(rows.last().0) == side {
            prev.push(rows.last())
        } else {
            prev
        }
    }
}

/// `tree` was grown from `rows`: each leaf keeps exactly the rows that the
/// questions above it route there.
pub open spec fn grown_from(tree: TreeNode<RegressionLeaf>, rows: Seq<(Seq<i32>, i32)>) -> bool
    decreases tree,
{
    match tree {
        TreeNode::Leaf(l) => l.data matches Some(d) && rows_of(d) == rows,
        TreeNode::Internal { question, false_branch, true_branch } => {
            &&& grown_from(*false_branch, filter_rows(rows, question, false))
            &&& grown_from(*true_branch, filter_rows(rows, question, true))
        },
    }
}

proof fn lemma_filter_contains(rows: Seq<(Seq<i32>, i32)>, question: Question, side: bool, x: (Seq<i32>, i32))
    requires
        rows.contains(x),
        question.spec_answer(x.0) == side,
    ensures
        filter_rows(rows, question, side).contains(x),
    decreases rows.len(),
{
    let prev = filter_rows(rows.drop_last(), question, side);
    if rows.last() == x {
        assert(filter_rows(rows, question, side).last() == x);
    } else {
        let j = choose|j: int| 0 <= j < rows.len() && rows[j] == x;
        assert(rows.drop_last()[j] == x);
        lemma_filter_contains(rows.drop_last(), question, side, x);
        let k = choose|k: int| 0 <= k < prev.len() && prev[k] == x;
        assert(filter_rows(rows, question, side)[k] == x);
    }
}

proof fn lemma_filter_within(rows: Seq<(Seq<i32>, i32)>, question: Question, side: bool)
    ensures
        forall|k: int|
            0 <= k < filter_rows(rows, question, side).len() ==> rows.contains(
                #[trigger] filter_rows(rows, question, side)[k],
            ),
    decreases rows.len(),
{
    if rows.len() > 0 {
        lemma_filter_within(rows.drop_last(), question, side);
        let prev = filter_rows(rows.drop_last(), question, side);
        let cur = filter_rows(rows, question, side);
        assert forall|k: int| 0 <= k < cur.len() implies rows.contains(#[trigger] cur[k]) by {
            if k < prev.len() {
                assert(cur[k] == prev[k]);
                assert(rows.drop_last().contains(prev[k]));
                let j = choose|j: int| 0 <= j < rows.drop_last().len() && rows.drop_last()[j] == prev[k];
                assert(rows[j] == cur[k]);
            } else {
                assert(cur[k] == rows[rows.len() - 1]);
            }
        }
    }
}

/// Every row of a tree's rows reaches a leaf that keeps it.
pub proof fn lemma_row_reaches_its_leaf(tree: TreeNode<RegressionLeaf>, rows: Seq<(Seq<i32>, i32)>, x: (Seq<i32>, i32))
    requires
        grown_from(tree, rows),
        rows.contains(x),
    ensures
        tree.leaf_for(x.0).data matches Some(d) && rows_of(d).contains(x),
    decreases tree,
{
    match tree {
        TreeNode::Leaf(l) => {},
        TreeNode::Internal { question, false_branch, true_branch } => {
            if question.spec_answer(x.0) {
                lemma_filter_contains(rows, question, true, x);
                lemma_row_reaches_its_leaf(*true_branch, filter_rows(rows, question, true), x);
            } else {
                lemma_filter_contains(rows, question, false, x);
                lemma_row_reaches_its_leaf(*false_branch, filter_rows(rows, question, false), x);
            }
        },
    }
}

fn copy_row(row: &Vec<i32>) -> (r: Vec<i32>)
    ensures
        r@ == row@,
{
    let mut r: Vec<i32> = Vec::new();
    let mut i: usize = 0;
    while i < row.len()
        invariant
            i <= row@.len(),
            r@ == row@.subrange(0, i as int),
        decreases row@.len() - i,
    {
        r.push(row[i]);
        i = i + 1;
    }
    assert(r@ == row@);
    r
}

/// A copy of `data` with the same rows.
pub fn copy_dataset(data: &DataSet) -> (r: DataSet)
    requires
        data.features@.len() == data.labels@.len(),
    ensures
        r.features@.len() == r.labels@.len(),
        rows_of(r) == rows_of(*data),
{
    let mut features: Vec<Vec<i32>> = Vec::new();
    let mut labels: Vec<i32> = Vec::new();
    let mut i: usize = 0;
    while i < data.labels.len()
        invariant
            data.features@.len() == data.labels@.len(),
            i <= data.labels@.len(),
            features@.len() == i,
            labels@.len() == i,
            forall|k: int| 0 <= k < i ==> #[trigger] features@[k]@ == data.features@[k]@,
            forall|k: int| 0 <= k < i ==> #[trigger] labels@[k] == data.labels@[k],
        decreases data.labels@.len() - i,
    {
        features.push(copy_row(&data.features[i]));
        labels.push(data.labels[i]);
        i = i + 1;
    }
    let r = DataSet { features, labels };
    assert(rows_of(r) =~= rows_of(*data));
    r
}

/// The rows of `data` that `question` sends to `side`, in dataset order.
pub fn partition(data: &DataSet, question: Question, side: bool) -> (r: DataSet)
    requires
        data.well_formed(),
        data.has_column(question.feature_index as int),
    ensures
        r.features@.len() == r.labels@.len(),
        rows_of(r) == filter_rows(rows_of(*data), question, side),
{
    let ghost c = question.feature_index as int;
    let ghost t = question.threshold as int;
    let mut features: Vec<Vec<i32>> = Vec::new();
    let mut labels: Vec<i32> = Vec::new();
    let mut i: usize = 0;
    while i < data.labels.len()
        invariant
            data.well_formed(),
            data.has_column(c),
            c == question.feature_index,
            t == question.threshold,
            i <= data.row_count(),
            features@.len() == labels@.len(),
            rows_of(DataSet { features, labels }) == filter_rows(rows_of(*data).take(i as int), question, side),
        decreases data.labels@.len() - i,
    {
        let ghost before = rows_of(DataSet { features, labels });
        proof {
            assert(rows_of(*data).take(i + 1).drop_last() =~= rows_of(*data).take(i as int));
            assert(rows_of(*data).take(i + 1).last() == (data.features@[i as int]@, data.labels@[i as int]));
        }
        if question.answer(&data.features[i]) == side {
            features.push(copy_row(&data.features[i]));
            labels.push(data.labels[i]);
            assert(rows_of(DataSet { features, labels }) =~= before.push(
                (data.features@[i as int]@, data.labels@[i as int]),
            ));
        }
        i = i + 1;
    }
    assert(rows_of(*data).take(data.row_count() as int) =~= rows_of(*data));
    DataSet { features, labels }
}

proof fn lemma_side_count(d: DataSet, question: Question, side: bool, m: int)
    requires
        0 <= m <= d.labels@.len(),
        d.features@.len() == d.labels@.len(),
    ensures
        filter_rows(rows_of(d).take(m), question, side).len() == if side {
            count_of(d, question.feature_index as int, question.threshold as int, false, m)
        } else {
            m - count_of(d, question.feature_index as int, question.threshold as int, false, m)
        },
    decreases m,
{
    if m > 0 {
        lemma_side_count(d, question, side, m - 1);
        assert(rows_of(d).take(m).drop_last() =~= rows_of(d).take(m - 1));
        assert(rows_of(d).take(m).last() == rows_of(d)[m - 1]);
    }
}

/// A dataset whose rows all come from an accepted dataset is accepted too,
/// and has the same width when it has a row.
proof fn lemma_subset_accepted(parent: DataSet, child: DataSet, metric: SplitMetric, classes: int)
    requires
        search_accepts(parent, metric, classes),
        child.features@.len() == child.labels@.len(),
        child.labels@.len() <= parent.labels@.len(),
        forall|k: int| 0 <= k < rows_of(child).len() ==> #[trigger] is_row_of(parent, rows_of(child)[k]),
    ensures
        search_accepts(child, metric, classes),
        child.labels@.len() > 0 ==> child.width() == parent.width(),
{
    assert forall|k: int| 0 <= k < child.labels@.len() implies exists|j: int|
        0 <= j < parent.labels@.len() && (#[trigger] child.features@[k])@ == parent.features@[j]@
            && child.labels@[k] == parent.labels@[j] by {
        assert(rows_of(child)[k] == (child.features@[k]@, child.labels@[k]));
        assert(is_row_of(parent, rows_of(child)[k]));
        let j = choose|j: int| 0 <= j < parent.labels@.len() && rows_of(parent)[j] == rows_of(child)[k];
        assert(rows_of(parent)[j] == (parent.features@[j]@, parent.labels@[j]));
    }
    assert forall|i: int, j: int|
        0 <= i < child.features@.len() && 0 <= j < child.features@.len() implies #[trigger] child.features@[i]@.len()
        == #[trigger] child.features@[j]@.len() by {
        let a = choose|a: int| 0 <= a < parent.labels@.len() && (#[trigger] child.features@[i])@ == parent.features@[a]@
            && child.labels@[i] == parent.labels@[a];
        let b = choose|b: int| 0 <= b < parent.labels@.len() && (#[trigger] child.features@[j])@ == parent.features@[b]@
            && child.labels@[j] == parent.labels@[b];
        assert(parent.features@[a]@.len() == parent.features@[b]@.len());
    }
    if child.labels@.len() > 0 {
        let a = choose|a: int| 0 <= a < parent.labels@.len() && (#[trigger] child.features@[0])@ == parent.features@[a]@
            && child.labels@[0] == parent.labels@[a];
        assert(parent.features@[a]@.len() == parent.features@[0]@.len());
    }
    assert forall|i: int| 0 <= i < child.labels@.len() implies #[trigger] child.labels@[i] == child.labels@[i] && (
    labels_bounded(parent) ==> -crate::gain::MAX_LABEL <= child.labels@[i] <= crate::gain::MAX_LABEL) && (labels_are_classes(
        parent,
        classes,
    ) ==> 0 <= child.labels@[i] < classes) by {
        let a = choose|a: int| 0 <= a < parent.labels@.len() && (#[trigger] child.features@[i])@ == parent.features@[a]@
            && child.labels@[i] == parent.labels@[a];
    }
}

/// Grows a tree over `data`: each node asks the best question that `finder`
/// finds, until a stopping rule fires or no split has a positive gain; each
/// leaf keeps the rows that reach it.
pub fn build(data: &DataSet, finder: &SplitFinder, number_of_classes: u32, config: TreeConfig) -> (r: TreeNode<
    RegressionLeaf,
>)
    requires
        search_accepts(*data, finder.split_metric, number_of_classes as int),
    ensures
        r.depth() <= config.max_depth,
        r.questions_fit(data.width()),
        (data.row_count() == 0 || config.max_depth == 0 || data.row_count() < config.min_samples_split)
            ==> r is Leaf,
        grown_from(r, rows_of(*data)),
        r matches TreeNode::Internal { question, .. } ==> exists|best: BestSplitResult| #[trigger]
            search_result(*data, finder.split_metric, number_of_classes as int, best) && best.question == question
                && best.gain.spec_is_positive(),
        r is Leaf && !(data.row_count() == 0 || config.max_depth == 0 || data.row_count() < config.min_samples_split)
            ==> exists|best: BestSplitResult| #[trigger]
            search_result(*data, finder.split_metric, number_of_classes as int, best)
                && !best.gain.spec_is_positive(),
    decreases config.max_depth,
{
    let n = data.labels.len();
    if n == 0 || config.max_depth == 0 || n < config.min_samples_split {
        return TreeNode::Leaf(RegressionLeaf { data: Some(copy_dataset(data)) });
    }
    let best = finder.find_best_split(data, number_of_classes);
    if !best.gain.is_positive() {
        return TreeNode::Leaf(RegressionLeaf { data: Some(copy_dataset(data)) });
    }
    let ghost metric = finder.split_metric;
    let ghost classes = number_of_classes as int;
    proof {
        if !exists|c: int, j: int| #[trigger] crate::search::is_candidate(*data, c, j) {
            assert(best.gain.numerator == 0);
        }
        assert(data.has_column(best.question.feature_index as int)) by {
            assert forall|i: int| 0 <= i < data.features@.len() implies 0 <= best.question.feature_index
                < (#[trigger] data.features@[i])@.len() by {
                assert(data.features@[i]@.len() == data.features@[0]@.len());
            }
        }
    }
    let q = best.question;
    let true_part = partition(data, q, true);
    let false_part = partition(data, q, false);
    proof {
        assert(rows_of(*data).take(n as int) =~= rows_of(*data));
        lemma_side_count(*data, q, true, n as int);
        lemma_side_count(*data, q, false, n as int);
        lemma_filter_within(rows_of(*data), q, true);
        lemma_filter_within(rows_of(*data), q, false);
        assert(forall|k: int|
            0 <= k < rows_of(true_part).len() ==> #[trigger] is_row_of(*data, rows_of(true_part)[k]));
        assert(forall|k: int|
            0 <= k < rows_of(false_part).len() ==> #[trigger] is_row_of(*data, rows_of(false_part)[k]));
        lemma_subset_accepted(*data, true_part, metric, classes);
        lemma_subset_accepted(*data, false_part, metric, classes);
    }
    if true_part.labels.len() == 0 || false_part.labels.len() == 0 {
        // unreachable: the best split leaves both branches non-empty
        proof {
            assert(rows_of(true_part).len() == true_part.labels@.len());
            assert(rows_of(false_part).len() == false_part.labels@.len());
        }
        return TreeNode::Leaf(RegressionLeaf { data: Some(copy_dataset(data)) });
    }
    let child_config = TreeConfig { max_depth: config.max_depth - 1, min_samples_split: config.min_samples_split };
    let t = build(&true_part, finder, number_of_classes, child_config);
    let f = build(&false_part, finder, number_of_classes, child_config);
    TreeNode::Internal { question: q, false_branch: Box::new(f), true_branch: Box::new(t) }
}

} // verus!
