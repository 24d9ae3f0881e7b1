//! The tree store: an arena of nodes linked to their parents by index.
use vstd::prelude::*;

use rayon::iter::{IndexedParallelIterator, IntoParallelRefIterator, ParallelIterator};

use crate::geometry::{dist2, distance_squared, lemma_step_bound, step, step_toward, Point, MAX_STEP};
use crate::node::Node;

verus! {

/// The node at `i` is a valid member of `nodes`: the root (index 0) has no
/// parent, and every other node points at an earlier one.
pub open spec fn parent_ok(nodes: Seq<Node>, i: int) -> bool {
    if i == 0 {
        nodes[i].parent is None
    } else {
        nodes[i].parent is Some && nodes[i].parent->0 < i
    }
}

/// A tree is never empty, and all of its parent links point backward.
pub open spec fn well_formed(nodes: Seq<Node>) -> bool {
    &&& nodes.len() >= 1
    &&& forall|i: int| 0 <= i < nodes.len() ==> #[trigger] parent_ok(nodes, i)
}

/// The node at `i` is one of those nearest to `target`.
pub open spec fn is_nearest(nodes: Seq<Node>, target: Point, i: int) -> bool {
    &&& 0 <= i < nodes.len()
    &&& forall|j: int|
        0 <= j < nodes.len() ==> dist2(nodes[i].pos, target) <= #[trigger] dist2(
            nodes[j].pos,
            target,
        )
}

/// The node that a growth step from the node at `parent` toward `target` adds.
pub open spec fn grown_node(nodes: Seq<Node>, target: Point, parent: usize) -> Node {
    Node { pos: step_toward(nodes[parent as int].pos, target), parent: Some(parent) }
}

/// `after` is `before` grown by one step toward `target`, from one of the
/// nodes nearest to it.
pub open spec fn grown_from(before: Seq<Node>, target: Point, after: Seq<Node>) -> bool {
    exists|p: usize| #[trigger]
        is_nearest(before, target, p as int) && after == before.push(grown_node(before, target, p))
}

/// Every well-formed tree has a root without a parent at index 0, and each
/// later node has a parent at a smaller index.
pub proof fn lemma_tree_shape(nodes: Seq<Node>)
    requires
        well_formed(nodes),
    ensures
        nodes.len() >= 1,
        nodes[0].parent is None,
        forall|i: int|
            0 < i < nodes.len() ==> (#[trigger] nodes[i]).parent is Some && 0 <= nodes[i].parent->0
                < i,
{
    assert(parent_ok(nodes, 0));
    assert forall|i: int| 0 < i < nodes.len() implies (#[trigger] nodes[i]).parent is Some && 0
        <= nodes[i].parent->0 < i by {
        assert(parent_ok(nodes, i));
    }
}

/// A growth step adds one node, and no node of the tree before the step is
/// strictly closer to the target than the new node's parent.
pub proof fn lemma_growth_nearest(before: Seq<Node>, target: Point, after: Seq<Node>)
    requires
        grown_from(before, target, after),
    ensures
        after.len() == before.len() + 1,
        after.subrange(0, before.len() as int) == before,
        after.last().parent is Some,
        after.last().parent->0 < before.len(),
        forall|j: int|
            0 <= j < before.len() ==> dist2(before[after.last().parent->0 as int].pos, target)
                <= #[trigger] dist2(before[j].pos, target),
{
    let p = choose|p: usize| #[trigger]
        is_nearest(before, target, p as int) && after == before.push(grown_node(before, target, p));
    assert(after.subrange(0, before.len() as int) =~= before);
}

/// A growth step adds an edge of at most `MAX_STEP`, no longer than the way
/// from the parent to the target; an edge of exactly `MAX_STEP` comes only
/// from a target at least that far from the parent.
pub proof fn lemma_growth_step_bound(before: Seq<Node>, target: Point, after: Seq<Node>)
    requires
        grown_from(before, target, after),
    ensures
        after.last().parent is Some,
        after.last().parent->0 < before.len(),
        dist2(after.last().pos, before[after.last().parent->0 as int].pos) <= MAX_STEP * MAX_STEP,
        dist2(after.last().pos, before[after.last().parent->0 as int].pos) <= dist2(
            target,
            before[after.last().parent->0 as int].pos,
        ),
        dist2(after.last().pos, before[after.last().parent->0 as int].pos) == MAX_STEP * MAX_STEP
            ==> dist2(target, before[after.last().parent->0 as int].pos) >= MAX_STEP * MAX_STEP,
{
    let p = choose|p: usize| #[trigger]
        is_nearest(before, target, p as int) && after == before.push(grown_node(before, target, p));
    lemma_step_bound(before[p as int].pos, target);
}

/// A target that lies exactly on a node of the tree adds a node on that very
/// spot, with an edge of length zero from a parent on the same spot.
pub proof fn lemma_zero_distance_sample(
    before: Seq<Node>,
    target: Point,
    after: Seq<Node>,
    k: int,
)
    requires
        0 <= k < before.len(),
        before[k].pos == target,
        grown_from(before, target, after),
    ensures
        after.last().pos == target,
        after.last().parent is Some,
        after.last().parent->0 < before.len(),
        before[after.last().parent->0 as int].pos == target,
{
    let p = choose|p: usize| #[trigger]
        is_nearest(before, target, p as int) && after == before.push(grown_node(before, target, p));
    let q = before[p as int].pos;
    assert(dist2(q, target) <= dist2(before[k].pos, target));
    assert(q.x - target.x == 0 && q.y - target.y == 0) by (nonlinear_arith)
        requires
            (q.x - target.x) * (q.x - target.x) + (q.y - target.y) * (q.y - target.y) <= 0,
    ;
    assert(q == target);
}

/// The nodes of a tree, in the order in which they were added.
pub struct Tree {
    nodes: Vec<Node>,
}

impl View for Tree {
    type V = Seq<Node>;

    closed spec fn view(&self) -> Seq<Node> {
        self.nodes@
    }
}

/// Relies on rayon's `min_by_key` over an enumerated parallel iterator: it
/// yields an item whose key is least, and nothing for an empty slice. The key
/// is the squared distance, computed by `distance_squared`.
#[verifier::external_body]
fn par_nearest(nodes: &Vec<Node>, target: Point) -> (r: Option<usize>)
    ensures
        r is None <==> nodes@.len() == 0,
        r matches Some(i) ==> is_nearest(nodes@, target, i as int),
{
    nodes.par_iter().enumerate().min_by_key(|(_, n)| distance_squared(n.pos, target)).map(
        |(i, _)| i,
    )
}

impl Tree {
    pub open spec fn wf(&self) -> bool {
        well_formed(self@)
    }

    /// A tree of one root node at `root`.
    pub fn new(root: Point) -> (t: Tree)
        ensures
            t@ == seq![Node { pos: root, parent: None }],
            t.wf(),
    {
        let t = Tree { nodes: vec![Node::new(root)] };
        assert(parent_ok(t@, 0));
        t
    }

    /// Adds a node at `pos` whose parent is the node at `parent`.
    pub fn append(&mut self, pos: Point, parent: usize)
        requires
            old(self).wf(),
            parent < old(self)@.len(),
        ensures
            final(self)@ == old(self)@.push(Node { pos, parent: Some(parent) }),
            final(self).wf(),
    {
        self.nodes.push(Node { pos, parent: Some(parent) });
        assert forall|i: int| 0 <= i < self@.len() implies #[trigger] parent_ok(self@, i) by {
            if i < old(self)@.len() {
                assert(parent_ok(old(self)@, i));
            }
        }
    }

    /// Drops every node and starts again from one root at `root`.
    pub fn clear_and_reseed(&mut self, root: Point)
        ensures
            final(self)@ == seq![Node { pos: root, parent: None }],
            final(self).wf(),
    {
        self.nodes.clear();
        self.nodes.push(Node::new(root));
        assert(self@ =~= seq![Node { pos: root, parent: None }]);
        assert(parent_ok(self@, 0));
    }

    /// The number of nodes.
    pub fn len(&self) -> (r: usize)
        ensures
            r == self@.len(),
    {
        self.nodes.len()
    }

    /// The node at index `i`.
    pub fn node_at(&self, i: usize) -> (r: Node)
        requires
            i < self@.len(),
        ensures
            r == self@[i as int],
    {
        self.nodes[i]
    }

    /// The node added last.
    pub fn last(&self) -> (r: Node)
        requires
            self.wf(),
        ensures
            r == self@.last(),
    {
        self.nodes[self.nodes.len() - 1]
    }

    /// Grows the tree by one node toward `target`: from a node nearest to
    /// it, by one bounded step. Returns the index of that parent.
    pub fn grow_toward(&mut self, target: Point) -> (parent: usize)
        requires
            old(self).wf(),
        ensures
            is_nearest(old(self)@, target, parent as int),
            final(self)@ == old(self)@.push(grown_node(old(self)@, target, parent)),
            grown_from(old(self)@, target, final(self)@),
            final(self).wf(),
    {
        match par_nearest(&self.nodes, target) {
            Some(parent) => {
                let pos = step(self.nodes[parent].pos, target);
                self.append(pos, parent);
                assert(is_nearest(old(self)@, target, parent as int));
                parent
            },
            None => {
                assert(false);
                0
            },
        }
    }
}

} // verus!
