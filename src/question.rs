use vstd::prelude::*;

verus! {

/// A routing rule: a row goes to the true branch iff its value in
/// `feature_index` is at most `threshold`.
#[derive(Clone, Copy, Debug, PartialEq, Eq, Structural)]
pub struct Question {
    pub feature_index: usize,
    pub threshold: i32,
}

impl Question {
    pub open spec fn spec_answer(&self, row: Seq<i32>) -> bool {
        row[self.feature_index as int] <= self.threshold
    }

    /// Whether `row` takes the true branch.
    pub fn answer(&self, row: &Vec<i32>) -> (r: bool)
        requires
            self.feature_index < row@.len(),
        ensures
            r == self.spec_answer(row@),
    {
        row[self.feature_index] <= self.threshold
    }
}

} // verus!
