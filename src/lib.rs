//! Decision trees over integer-coded data: exact split search by Gini impurity
//! or variance, tree growth with stopping rules, and traversal.

pub mod builder;
pub mod dataset;
pub mod gain;
pub mod leaf;
pub mod node;
pub mod question;
pub mod scan;
pub mod search;
pub mod split_finder;
pub mod use_gini;
pub mod use_variance;
