use multi_target_trees::builder::{build, partition, TreeConfig};
use multi_target_trees::dataset::DataSet;
use multi_target_trees::node::TreeNode;
use multi_target_trees::question::Question;
use multi_target_trees::search::SplitMetric;
use multi_target_trees::split_finder::SplitFinder;

fn sample() -> DataSet {
    DataSet {
        features: vec![vec![1, 0], vec![2, 0], vec![3, 1], vec![4, 1], vec![5, 0], vec![6, 1]],
        labels: vec![0, 0, 1, 1, 2, 2],
    }
}

fn leaf_labels(tree: &TreeNode<multi_target_trees::leaf::RegressionLeaf>, row: &Vec<i32>) -> (Vec<i32>, usize) {
    let (leaf, steps) = tree.find_leaf_node_for_data(row);
    (leaf.data.as_ref().unwrap().labels.clone(), steps)
}

#[test]
fn question_routes_by_threshold() {
    let q = Question { feature_index: 1, threshold: 5 };
    assert!(q.answer(&vec![100, 5]));
    assert!(!q.answer(&vec![0, 6]));
}

#[test]
fn partition_keeps_order() {
    let d = sample();
    let q = Question { feature_index: 0, threshold: 3 };
    let t = partition(&d, q, true);
    let f = partition(&d, q, false);
    assert_eq!(t.labels, vec![0, 0, 1]);
    assert_eq!(f.labels, vec![1, 2, 2]);
    assert_eq!(f.features, vec![vec![4, 1], vec![5, 0], vec![6, 1]]);
}

#[test]
fn build_grows_pure_leaves() {
    let d = sample();
    let finder = SplitFinder::new(SplitMetric::Gini);
    let tree = build(&d, &finder, 3, TreeConfig { max_depth: 5, min_samples_split: 1 });
    for (row, label) in d.features.iter().zip(d.labels.iter()) {
        let (labels, steps) = leaf_labels(&tree, row);
        assert!(steps <= 5);
        assert!(labels.iter().all(|l| l == label));
        assert!(labels.len() >= 1);
    }
}

#[test]
fn depth_zero_gives_single_leaf() {
    let d = sample();
    let finder = SplitFinder::new(SplitMetric::Variance);
    let tree = build(&d, &finder, 0, TreeConfig { max_depth: 0, min_samples_split: 1 });
    let (labels, steps) = leaf_labels(&tree, &vec![3, 1]);
    assert_eq!(steps, 0);
    assert_eq!(labels, d.labels);
}

#[test]
fn traversal_stays_within_max_depth() {
    let d = sample();
    let finder = SplitFinder::new(SplitMetric::Variance);
    let tree = build(&d, &finder, 0, TreeConfig { max_depth: 1, min_samples_split: 1 });
    for row in d.features.iter() {
        let (_, steps) = leaf_labels(&tree, row);
        assert!(steps <= 1);
    }
    // x <= 2 and x <= 4 tie on variance gain; the lower threshold wins
    let (labels, steps) = leaf_labels(&tree, &vec![6, 1]);
    assert_eq!(steps, 1);
    assert_eq!(labels, vec![1, 1, 2, 2]);
}

#[test]
fn same_row_reaches_same_leaf_twice() {
    let d = sample();
    let finder = SplitFinder::new(SplitMetric::Gini);
    let tree = build(&d, &finder, 3, TreeConfig { max_depth: 4, min_samples_split: 2 });
    let row = vec![2, 0];
    assert_eq!(leaf_labels(&tree, &row), leaf_labels(&tree, &row));
}

#[test]
fn too_few_rows_gives_leaf() {
    let d = sample();
    let finder = SplitFinder::new(SplitMetric::Gini);
    let tree = build(&d, &finder, 3, TreeConfig { max_depth: 4, min_samples_split: 7 });
    assert!(matches!(tree, TreeNode::Leaf(_)));
}

#[test]
fn every_row_reaches_a_leaf_that_keeps_it() {
    let d = sample();
    let finder = SplitFinder::new(SplitMetric::Variance);
    let tree = build(&d, &finder, 0, TreeConfig { max_depth: 2, min_samples_split: 2 });
    for (row, label) in d.features.iter().zip(d.labels.iter()) {
        let (leaf, _) = tree.find_leaf_node_for_data(row);
        let kept = leaf.data.as_ref().unwrap();
        assert!(kept.features.iter().zip(kept.labels.iter()).any(|(f, l)| f == row && l == label));
    }
}

#[test]
fn copy_keeps_rows() {
    let d = sample();
    let c = multi_target_trees::builder::copy_dataset(&d);
    assert_eq!(c.features, d.features);
    assert_eq!(c.labels, d.labels);
}
