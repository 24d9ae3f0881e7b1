//! A vertex of the tree.
use vstd::prelude::*;

use crate::geometry::Point;

verus! {

/// A vertex: its position and the index of its parent, if it has one.
#[derive(Clone, Copy, Debug, PartialEq, Eq, Structural)]
pub struct Node {
    pub pos: Point,
    pub parent: Option<usize>,
}

impl Node {
    /// A node at `pos` without a parent.
    pub fn new(pos: Point) -> (r: Node)
        ensures
            r == (Node { pos, parent: None }),
    {
        Node { pos, parent: None }
    }
}

} // verus!
