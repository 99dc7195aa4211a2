use vstd::prelude::*;

verus! {

/// Rows of integer-coded features with one integer label per row.
pub struct DataSet {
    pub features: Vec<Vec<i32>>,
    pub labels: Vec<i32>,
}

impl DataSet {
    pub open spec fn row_count(&self) -> nat {
        self.labels@.len()
    }

    /// The value of column `c` in row `i`.
    pub open spec fn value(&self, i: int, c: int) -> i32 {
        self.features@[i]@[c]
    }

    /// Every row has `column` among its features.
    pub open spec fn has_column(&self, column: int) -> bool {
        forall|i: int| 0 <= i < self.features@.len() ==> 0 <= column < (#[trigger] self.features@[i])@.len()
    }

    /// One label per row, and every row of the same width.
    pub open spec fn well_formed(&self) -> bool {
        &&& self.features@.len() == self.labels@.len()
        &&& forall|i: int, j: int|
            0 <= i < self.features@.len() && 0 <= j < self.features@.len()
                ==> #[trigger] self.features@[i]@.len() == #[trigger] self.features@[j]@.len()
    }

    /// Number of feature columns (zero for an empty dataset).
    pub open spec fn width(&self) -> nat {
        if self.features@.len() == 0 { 0 } else { self.features@[0]@.len() }
    }
}

} // verus!
