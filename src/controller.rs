//! The per-frame controller: reset the tree, or grow it by one node.
use vstd::prelude::*;

use rand::Rng;

use crate::geometry::Point;
use crate::node::Node;
use crate::tree::{grown_from, parent_ok, well_formed, Tree};

verus! {

/// What the host reports for one frame.
#[derive(Clone, Copy, Debug, PartialEq, Eq, Structural)]
pub struct FrameInput {
    /// The window's width in pixels.
    pub width: u32,
    /// The window's height in pixels.
    pub height: u32,
    /// Whether the primary pointer button is held.
    pub left_pressed: bool,
    /// Where the pointer is, in viewport units.
    pub pointer: Point,
}

/// What to draw for the current state.
#[derive(Clone, Copy, Debug, PartialEq, Eq, Structural)]
pub enum Scene {
    /// The tree was reset: clear the surface.
    Clear,
    /// Draw a dot at the newest node, and an edge to it from its parent's
    /// position when it has one.
    Dot { at: Point, edge_from: Option<Point> },
}

/// Half the viewport's width and height, in whole units.
pub open spec fn half_extent(pixels: u32) -> int {
    pixels as int / 2
}

/// `t` lies in the viewport `[-w/2, w/2] x [-h/2, h/2]`.
pub open spec fn in_viewport(t: Point, input: FrameInput) -> bool {
    &&& -half_extent(input.width) <= t.x <= half_extent(input.width)
    &&& -half_extent(input.height) <= t.y <= half_extent(input.height)
}

/// A frame resets a tree of `len` nodes when the primary button is held, or
/// when the tree has more nodes than the viewport has pixels.
pub open spec fn triggers_reset(len: int, input: FrameInput) -> bool {
    input.left_pressed || len > input.width * input.height
}

/// The tree that a reset leaves: one root at the pointer.
pub open spec fn reset_tree(input: FrameInput) -> Seq<Node> {
    seq![Node { pos: input.pointer, parent: None }]
}

/// What the renderer shows for the nodes `nodes` and the reset flag `redraw`.
pub open spec fn scene_of(nodes: Seq<Node>, redraw: bool) -> Scene {
    if redraw {
        Scene::Clear
    } else {
        let last = nodes.last();
        Scene::Dot {
            at: last.pos,
            edge_from: match last.parent {
                Some(p) => Some(nodes[p as int].pos),
                None => None,
            },
        }
    }
}

/// A reset leaves a well-formed tree of exactly one node: a root without a
/// parent, at the pointer's position at the time of the reset.
pub proof fn lemma_reset_leaves_root(input: FrameInput)
    ensures
        well_formed(reset_tree(input)),
        reset_tree(input).len() == 1,
        reset_tree(input)[0].parent is None,
        reset_tree(input)[0].pos == input.pointer,
{
    assert(parent_ok(reset_tree(input), 0));
}

/// A tree with more nodes than the viewport has pixels is reset on the next
/// frame, whatever the pointer does.
pub proof fn lemma_size_bound_resets(len: int, input: FrameInput)
    requires
        len > input.width * input.height,
    ensures
        triggers_reset(len, input),
        triggers_reset(len, FrameInput { left_pressed: false, ..input }),
{
}

/// Relies on rand's `thread_rng().gen_range` over an inclusive range: it
/// returns a value of the range, which panics only when the range is empty.
#[verifier::external_body]
fn random_between(lo: i32, hi: i32) -> (r: i32)
    requires
        lo <= hi,
    ensures
        lo <= r <= hi,
{
    rand::thread_rng().gen_range(lo..=hi)
}

/// A random point of the viewport.
fn sample_target(input: FrameInput) -> (t: Point)
    ensures
        in_viewport(t, input),
{
    let half_w = (input.width / 2) as i32;
    let half_h = (input.height / 2) as i32;
    Point { x: random_between(-half_w, half_w), y: random_between(-half_h, half_h) }
}

/// The state of the sketch: the tree, and whether the last frame reset it.
pub struct Model {
    pub tree: Tree,
    pub redraw: bool,
}

impl Model {
    pub open spec fn wf(&self) -> bool {
        self.tree.wf()
    }

    /// A tree of one root at the origin, not yet drawn.
    pub fn new() -> (m: Model)
        ensures
            m.tree@ == seq![Node { pos: Point { x: 0, y: 0 }, parent: None }],
            !m.redraw,
            m.wf(),
    {
        Model { tree: Tree::new(Point::new(0, 0)), redraw: false }
    }

    /// Whether `input` resets the current tree.
    pub fn must_reset(&self, input: FrameInput) -> (r: bool)
        ensures
            r == triggers_reset(self.tree@.len() as int, input),
    {
        let w = input.width as u64;
        let h = input.height as u64;
        proof {
            assert(w * h <= 0xffff_ffff * 0xffff_ffff) by (nonlinear_arith)
                requires
                    w <= 0xffff_ffff,
                    h <= 0xffff_ffff,
            ;
        }
        input.left_pressed || (self.tree.len() as u128) > (w * h) as u128
    }

    /// One frame with a given sample: a reset when `input` triggers one,
    /// and otherwise one growth step toward `target`.
    pub fn step_with(&mut self, input: FrameInput, target: Point)
        requires
            old(self).wf(),
        ensures
            final(self).wf(),
            triggers_reset(old(self).tree@.len() as int, input) ==> final(self).tree@ == reset_tree(
                input,
            ) && final(self).redraw,
            !triggers_reset(old(self).tree@.len() as int, input) ==> !final(self).redraw
                && grown_from(old(self).tree@, target, final(self).tree@),
    {
        if self.must_reset(input) {
            self.redraw = true;
            self.tree.clear_and_reseed(input.pointer);
        } else {
            self.redraw = false;
            self.tree.grow_toward(target);
        }
    }

    /// One frame: a reset when `input` triggers one, and otherwise one growth
    /// step toward a point of the viewport drawn at random.
    pub fn update(&mut self, input: FrameInput)
        requires
            old(self).wf(),
        ensures
            final(self).wf(),
            triggers_reset(old(self).tree@.len() as int, input) ==> final(self).tree@ == reset_tree(
                input,
            ) && final(self).redraw,
            !triggers_reset(old(self).tree@.len() as int, input) ==> !final(self).redraw && exists|
                t: Point,
            |
                #![trigger in_viewport(t, input)]
                in_viewport(t, input) && grown_from(old(self).tree@, t, final(self).tree@),
    {
        if self.must_reset(input) {
            self.step_with(input, input.pointer);
        } else {
            let target = sample_target(input);
            self.step_with(input, target);
            assert(in_viewport(target, input));
        }
    }

    /// What to draw for the current state.
    pub fn scene(&self) -> (r: Scene)
        requires
            self.wf(),
        ensures
            r == scene_of(self.tree@, self.redraw),
    {
        if self.redraw {
            return Scene::Clear;
        }
        let last = self.tree.last();
        proof {
            assert(parent_ok(self.tree@, self.tree@.len() - 1));
        }
        let edge_from = match last.parent {
            Some(p) => Some(self.tree.node_at(p).pos),
            None => None,
        };
        Scene::Dot { at: last.pos, edge_from }
    }
}

} // verus!
