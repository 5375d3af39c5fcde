//! Incremental maintenance of a sorted view over mutable data.
//!
//! A lazily-sorted vector keeps its contents beside a permutation of its
//! positions; edits that keep the data in relative order make the next
//! sort cheap. An incremental tree tracks which values and subtrees have
//! changed, and the dump/update pair serializes the tree into such a
//! vector, re-visiting only the changed regions.

pub mod order;
pub mod permuted_vec;
pub mod presorted_vec;
pub mod merge_vec;
pub mod inc_tree;

pub use permuted_vec::{PermutedVec, PermutedIter};
pub use presorted_vec::{PresortedVec, PresortedIter};
pub use merge_vec::{MergeVec, MergeVecIter};
