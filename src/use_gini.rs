use vstd::prelude::*;
use crate::dataset::DataSet;
use crate::search::{BestSplitResult, SplitMetric, find_best_split_by, search_accepts, search_result};

verus! {

/// The best split of `data` by Gini impurity: labels are class indices below `number_of_classes`.
pub fn find_best_split(data: &DataSet, number_of_classes: u32) -> (r: BestSplitResult)
    requires
        search_accepts(*data, SplitMetric::Gini, number_of_classes as int),
    ensures
        search_result(*data, SplitMetric::Gini, number_of_classes as int, r),
{
    find_best_split_by(data, SplitMetric::Gini, number_of_classes)
}

} // verus!
