//! An ordered map from `i64` keys to values, kept as a B-tree of a chosen
//! order, with an in-order iterator.
pub mod seqs;
pub mod node;
pub mod tree;
pub mod iter;
pub mod laws;
pub mod text;
pub mod listing;
