//! A rapidly-exploring random tree grown one node per frame.
//!
//! Positions are integer points of the viewport; the tree is an arena of
//! nodes whose parents are indices of earlier nodes.
use vstd::prelude::*;

pub mod controller;
pub mod geometry;
pub mod node;
pub mod tree;

verus! {

} // verus!
