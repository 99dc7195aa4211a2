use vstd::prelude::*;
use crate::question::Question;

verus! {

/// A binary decision tree: an internal node owns its question and both
/// children; a leaf owns its payload.
pub enum TreeNode<L> {
    Leaf(L),
    Internal { question: Question, false_branch: Box<TreeNode<L>>, true_branch: Box<TreeNode<L>> },
}

impl<L> TreeNode<L> {
    /// Number of questions on the longest path from this node to a leaf.
    pub open spec fn depth(&self) -> nat
        decreases self,
    {
        match self {
            TreeNode::Leaf(_) => 0,
            TreeNode::Internal { false_branch, true_branch, .. } => {
                let f = false_branch.depth();
                let t = true_branch.depth();
                1 + if f >= t { f } else { t }
            },
        }
    }

    /// Every question reads a column below `width`.
    pub open spec fn questions_fit(&self, width: nat) -> bool
        decreases self,
    {
        match self {
            TreeNode::Leaf(_) => true,
            TreeNode::Internal { question, false_branch, true_branch } => {
                &&& question.feature_index < width
                &&& false_branch.questions_fit(width)
                &&& true_branch.questions_fit(width)
            },
        }
    }

    /// The leaf payload that `row` reaches from this node.
    pub open spec fn leaf_for(&self, row: Seq<i32>) -> L
        decreases self,
    {
        match self {
            TreeNode::Leaf(l) => *l,
            TreeNode::Internal { question, false_branch, true_branch } => {
                if question.spec_answer(row) {
                    true_branch.leaf_for(row)
                } else {
                    false_branch.leaf_for(row)
                }
            },
        }
    }

    /// Number of questions answered on the way from this node to `row`'s leaf.
    pub open spec fn steps_for(&self, row: Seq<i32>) -> nat
        decreases self,
    {
        match self {
            TreeNode::Leaf(_) => 0,
            TreeNode::Internal { question, false_branch, true_branch } => {
                1 + if question.spec_answer(row) {
                    true_branch.steps_for(row)
                } else {
                    false_branch.steps_for(row)
                }
            },
        }
    }

    /// Descends from this node, answering each question on `row`, to the
    /// single leaf that `row` reaches; also returns how many questions were
    /// answered, which never exceeds the depth.
    pub fn find_leaf_node_for_data(&self, row: &Vec<i32>) -> (r: (&L, usize))
        requires
            self.questions_fit(row@.len()),
            self.depth() <= usize::MAX,
        ensures
            *r.0 == self.leaf_for(row@),
            r.1 == self.steps_for(row@),
            r.1 <= self.depth(),
        decreases self,
    {
        match self {
            TreeNode::Leaf(l) => (l, 0),
            TreeNode::Internal { question, false_branch, true_branch } => {
                let (l, s) = if question.answer(row) {
                    true_branch.find_leaf_node_for_data(row)
                } else {
                    false_branch.find_leaf_node_for_data(row)
                };
                (l, s + 1)
            },
        }
    }
}

/// Traversal reaches a leaf within the depth: for every row that the tree's
/// questions can read, the number of questions answered is at most the
/// tree's depth.
pub proof fn lemma_steps_within_depth<L>(tree: TreeNode<L>, row: Seq<i32>)
    ensures
        tree.steps_for(row) <= tree.depth(),
    decreases tree,
{
    match tree {
        TreeNode::Leaf(_) => {},
        TreeNode::Internal { question, false_branch, true_branch } => {
            lemma_steps_within_depth(*false_branch, row);
            lemma_steps_within_depth(*true_branch, row);
        },
    }
}

} // verus!
