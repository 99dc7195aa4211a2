use multi_target_trees::dataset::DataSet;
use multi_target_trees::gain::Gain;
use multi_target_trees::question::Question;
use multi_target_trees::search::{BestSplitResult, SplitMetric};
use multi_target_trees::split_finder::{get_sorted_feature_tuple_vector, SplitError, SplitFinder};
use multi_target_trees::{use_gini, use_variance};

#[test]
fn test_get_sorted_feature_tuple_vector() {
    let features = vec![vec![10, 2, 1], vec![6, 2, 2], vec![1, 2, 3]];
    let labels = vec![1, 2, 3];
    let data = DataSet { features, labels };
    let column = 0;
    let sorted_feature_tuple_vector = get_sorted_feature_tuple_vector(&data.features, column);
    println!("{:?}", sorted_feature_tuple_vector);
    assert_eq!(sorted_feature_tuple_vector, vec![(1, 2), (6, 1), (10, 0)])
}

#[test]
fn sorted_view_keeps_row_order_among_equal_values() {
    let features = vec![vec![10, 2, 1], vec![6, 2, 2], vec![1, 2, 3]];
    let sorted = get_sorted_feature_tuple_vector(&features, 1);
    assert_eq!(sorted, vec![(2, 0), (2, 1), (2, 2)]);
}

#[test]
fn sorted_view_of_no_rows_is_empty() {
    let features: Vec<Vec<i32>> = vec![];
    assert_eq!(get_sorted_feature_tuple_vector(&features, 0), vec![]);
}

fn zero_result() -> BestSplitResult {
    BestSplitResult {
        gain: Gain { numerator: 0, denominator: 1 },
        question: Question { feature_index: 0, threshold: 0 },
    }
}

#[test]
fn gini_pure_subset_has_zero_gain() {
    let data = DataSet { features: vec![vec![1, 5], vec![2, 6], vec![3, 7]], labels: vec![1, 1, 1] };
    let r = use_gini::find_best_split(&data, 2);
    assert_eq!(r.gain.numerator, 0);
    assert!(!r.gain.is_positive());
}

#[test]
fn variance_constant_labels_have_zero_gain() {
    let data = DataSet { features: vec![vec![1], vec![2], vec![3], vec![4]], labels: vec![7, 7, 7, 7] };
    let r = use_variance::find_best_split(&data, 0);
    assert_eq!(r.gain.numerator, 0);
}

#[test]
fn gini_separates_two_classes() {
    // rows 0,1 are class 0 with small x; rows 2,3 class 1 with large x
    let data = DataSet { features: vec![vec![1, 9], vec![2, 3], vec![8, 9], vec![9, 3]], labels: vec![0, 0, 1, 1] };
    let r = use_gini::find_best_split(&data, 2);
    assert_eq!(r.question, Question { feature_index: 0, threshold: 2 });
    // gain = (4*2-2*2)^2 + (4*0-2*2)^2 over 16*2*2: 32/64 = 1/2
    assert_eq!(r.gain, Gain { numerator: 32, denominator: 64 });
}

#[test]
fn variance_finds_exact_gain() {
    let data = DataSet { features: vec![vec![1], vec![2], vec![3]], labels: vec![0, 0, 6] };
    let r = use_variance::find_best_split(&data, 0);
    assert_eq!(r.question, Question { feature_index: 0, threshold: 2 });
    // t = 3*0 - 2*6 = -12, numerator 144, denominator 9*2*1 = 18: gain 8
    assert_eq!(r.gain, Gain { numerator: 144, denominator: 18 });
}

#[test]
fn ties_go_to_lowest_column_then_lowest_threshold() {
    let data = DataSet { features: vec![vec![3, 1], vec![1, 2], vec![2, 3]], labels: vec![0, 1, 0] };
    let r = use_variance::find_best_split(&data, 0);
    // column 0: threshold 1 isolates row 1 (label 1); column 1 threshold 1 isolates row 0.
    assert_eq!(r.question, Question { feature_index: 0, threshold: 1 });
    let same = SplitFinder::new(SplitMetric::Variance).find_best_split(&data, 0);
    assert_eq!(same, r);
}

#[test]
fn no_candidate_gives_zero_result() {
    let data = DataSet { features: vec![vec![4], vec![4]], labels: vec![0, 1] };
    assert_eq!(use_gini::find_best_split(&data, 2), zero_result());
    let empty = DataSet { features: vec![], labels: vec![] };
    assert_eq!(use_variance::find_best_split(&empty, 0), zero_result());
}

#[test]
fn finder_uses_chosen_metric() {
    let data = DataSet { features: vec![vec![1], vec![2], vec![3]], labels: vec![0, 0, 1] };
    let gini = SplitFinder::new(SplitMetric::Gini);
    assert_eq!(gini.split_metric, SplitMetric::Gini);
    assert_eq!(gini.find_best_split(&data, 2), use_gini::find_best_split(&data, 2));
    let variance = SplitFinder::new(SplitMetric::Variance);
    assert_eq!(variance.find_best_split(&data, 2), use_variance::find_best_split(&data, 2));
}

#[test]
fn repeated_values_split_only_between_distinct_values() {
    let data = DataSet { features: vec![vec![1], vec![1], vec![2], vec![2]], labels: vec![0, 0, 1, 1] };
    let r = use_gini::find_best_split(&data, 2);
    assert_eq!(r.question, Question { feature_index: 0, threshold: 1 });
    // (4*2-2*2)^2 + (4*0-2*2)^2 = 32 over 16*2*2 = 64
    assert_eq!(r.gain, Gain { numerator: 32, denominator: 64 });
}

#[test]
fn constant_column_is_skipped() {
    let data = DataSet { features: vec![vec![5, 1], vec![5, 2], vec![5, 3]], labels: vec![0, 0, 9] };
    let r = use_variance::find_best_split(&data, 0);
    // threshold 2 on column 1: t = 3*0 - 2*9 = -18, numerator 324, denominator 9*2*1
    assert_eq!(r, BestSplitResult {
        gain: Gain { numerator: 324, denominator: 18 },
        question: Question { feature_index: 1, threshold: 2 },
    });
}

#[test]
fn variance_with_negative_labels() {
    let data = DataSet { features: vec![vec![3], vec![1], vec![2]], labels: vec![-4, 2, 2] };
    let r = use_variance::find_best_split(&data, 0);
    // threshold 2: left labels 2, 2; t = 3*4 - 2*0 = 12, numerator 144, denominator 9*2*1
    assert_eq!(r.question, Question { feature_index: 0, threshold: 2 });
    assert_eq!(r.gain, Gain { numerator: 144, denominator: 18 });
    assert!(r.gain.is_positive());
}

#[test]
fn gini_three_classes_exact_gain() {
    let data = DataSet { features: vec![vec![1], vec![2], vec![3]], labels: vec![0, 1, 2] };
    let r = use_gini::find_best_split(&data, 3);
    // threshold 1: (3*1-1*1)^2 + (0-1)^2 + (0-1)^2 = 6 over 9*1*2 = 18;
    // threshold 2 ties at 6 over 18; the lower threshold wins
    assert_eq!(r.question, Question { feature_index: 0, threshold: 1 });
    assert_eq!(r.gain, Gain { numerator: 6, denominator: 18 });
}

#[test]
fn checked_search_reports_shape_mismatch() {
    let finder = SplitFinder::new(SplitMetric::Variance);
    let ragged = DataSet { features: vec![vec![1, 2], vec![3]], labels: vec![0, 1] };
    assert_eq!(finder.checked_find_best_split(&ragged, 0), Err(SplitError::ShapeMismatch));
    let missing_label = DataSet { features: vec![vec![1], vec![3]], labels: vec![0] };
    assert_eq!(finder.checked_find_best_split(&missing_label, 0), Err(SplitError::ShapeMismatch));
}

#[test]
fn checked_search_reports_too_many_rows() {
    let n = multi_target_trees::gain::MAX_ROWS + 1;
    let data = DataSet { features: vec![vec![0]; n], labels: vec![0; n] };
    let finder = SplitFinder::new(SplitMetric::Gini);
    assert_eq!(finder.checked_find_best_split(&data, 1), Err(SplitError::TooManyRows));
}

#[test]
fn checked_search_reports_bad_labels() {
    let data = DataSet { features: vec![vec![1], vec![2]], labels: vec![0, 2] };
    let gini = SplitFinder::new(SplitMetric::Gini);
    assert_eq!(gini.checked_find_best_split(&data, 2), Err(SplitError::LabelOutOfRange));
    let big = DataSet { features: vec![vec![1], vec![2]], labels: vec![0, 1_000_000] };
    let variance = SplitFinder::new(SplitMetric::Variance);
    assert_eq!(variance.checked_find_best_split(&big, 0), Err(SplitError::LabelOutOfRange));
}

#[test]
fn checked_search_accepts_good_input() {
    let data = DataSet { features: vec![vec![1], vec![2]], labels: vec![0, 1] };
    let gini = SplitFinder::new(SplitMetric::Gini);
    let r = gini.checked_find_best_split(&data, 2).unwrap();
    // (2*1-1*1)^2 + (0-1*1)^2 = 2 over 4*1*1
    assert_eq!(r.gain, Gain { numerator: 2, denominator: 4 });
    assert_eq!(r.question, Question { feature_index: 0, threshold: 1 });
}

#[test]
fn sorted_view_of_many_rows() {
    let values = [5, 3, 9, 3, 0, 7, 5, 5, -2, 8, 3];
    let features: Vec<Vec<i32>> = values.iter().map(|&v| vec![0, v]).collect();
    let sorted = get_sorted_feature_tuple_vector(&features, 1);
    assert_eq!(
        sorted,
        vec![(-2, 8), (0, 4), (3, 1), (3, 3), (3, 10), (5, 0), (5, 6), (5, 7), (7, 5), (8, 9), (9, 2)]
    );
}
