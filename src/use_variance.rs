use vstd::prelude::*;
use crate::dataset::DataSet;
use crate::search::{BestSplitResult, SplitMetric, find_best_split_by, search_accepts, search_result};

verus! {

/// The best split of `data` by variance: labels are numbers; `number_of_classes` is not read.
pub fn find_best_split(data: &DataSet, number_of_classes: u32) -> (r: BestSplitResult)
    requires
        search_accepts(*data, SplitMetric::Variance, number_of_classes as int),
    ensures
        search_result(*data, SplitMetric::Variance, number_of_classes as int, r),
{
    find_best_split_by(data, SplitMetric::Variance, number_of_classes)
}

} // verus!
