//! Closest pair of points: several algorithms over integer points, each
//! proved to return a pair at the least squared Euclidean distance.
use vstd::prelude::*;

pub mod twod;
pub mod nd;
pub mod algorithms;
pub mod bench;

verus! {

} // verus!
