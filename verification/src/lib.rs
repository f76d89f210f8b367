//! A sorted container without duplicates that keeps its elements in a
//! sequence of bounded buckets, so that insertion, lookup and removal touch
//! one bucket only, and every element can be reached by its rank.
use vstd::prelude::*;

pub mod bucket;
pub mod iter;
pub mod order;
pub mod runs;
pub mod sorted_vec;
pub mod sorted_vec_iter;

verus! {

/// Outcome of adding an item to a bucket: the position at which it was placed,
/// or the position of the equal item that was already there.
#[derive(Debug, PartialEq, Eq, Structural)]
pub enum AddResult {
    Added(usize),
    Duplicated(usize),
}

} // verus!
