//! Decision-tree learning on integer-keyed tables.
//!
//! Feature values are ordered integer keys and labels are integer class
//! codes: the tree only ever compares features with `<=` and labels with
//! `==`, so any totally ordered encoding of the original values works.
//!
//! - `impurity`: label tallies, the exact Gini impurity, the plurality vote.
//! - `split`: partitioning rows on a threshold and the exhaustive search for
//!   the split of least weighted impurity.
//! - `tree`: the tree, how it is grown, and how it predicts.
pub mod impurity;
pub mod split;
pub mod tree;
