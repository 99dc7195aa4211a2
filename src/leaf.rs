use vstd::prelude::*;
use crate::dataset::DataSet;

verus! {

/// A payload that a tree leaf can hold.
pub trait Leaf {
}

/// A plain regression leaf: it keeps the rows that reached it, so that its
/// statistics can be computed later.
pub struct RegressionLeaf {
    pub data: Option<DataSet>,
}

impl Leaf for RegressionLeaf {
}

} // verus!
