//! Fraud scoring by nearest neighbours in a vantage-point tree.
use vstd::prelude::*;

pub mod index;
pub mod knn;
pub mod multiset_facts;
pub mod response;
pub mod search;
pub mod timestamp;
pub mod vectorize;
pub mod vp_shape;
pub mod vptree;

verus! {

/// Number of features in a transaction vector.
pub const DIMS: usize = 14;

/// Marks an absent child of a tree node.
pub const NULL_NODE: u32 = 0xffff_ffff;

} // verus!
