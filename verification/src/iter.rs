//! The cursor type, under the name that callers import it by.
pub use crate::sorted_vec_iter::SortedVecIter;
