use rrt::controller::{FrameInput, Model, Scene};
use rrt::geometry::{ceil_sqrt_of, distance_squared, step, Point, MAX_STEP};
use rrt::node::Node;
use rrt::tree::Tree;

fn p(x: i32, y: i32) -> Point {
    Point::new(x, y)
}

fn input(width: u32, height: u32, left_pressed: bool, pointer: Point) -> FrameInput {
    FrameInput { width, height, left_pressed, pointer }
}

fn tree_of(n: usize) -> Tree {
    let mut t = Tree::new(p(0, 0));
    for i in 1..n {
        t.append(p(i as i32, 0), i - 1);
    }
    t
}

#[test]
fn distance_squared_values() {
    assert_eq!(distance_squared(p(-3, 0), p(0, 4)), 25);
    assert_eq!(distance_squared(p(5, 5), p(5, 5)), 0);
    let far = distance_squared(p(i32::MIN, i32::MIN), p(i32::MAX, i32::MAX));
    assert_eq!(far, 2 * (u32::MAX as u128) * (u32::MAX as u128));
}

#[test]
fn ceil_sqrt_values() {
    assert_eq!(ceil_sqrt_of(0), 0);
    assert_eq!(ceil_sqrt_of(1), 1);
    assert_eq!(ceil_sqrt_of(2), 2);
    assert_eq!(ceil_sqrt_of(16), 4);
    assert_eq!(ceil_sqrt_of(17), 5);
    assert_eq!(ceil_sqrt_of(20000), 142);
    let n = 2 * (u32::MAX as u128) * (u32::MAX as u128);
    let c = ceil_sqrt_of(n) as u128;
    assert!(c * c >= n && (c - 1) * (c - 1) < n);
}

#[test]
fn step_within_reach_lands_on_target() {
    assert_eq!(step(p(0, 0), p(3, 4)), p(3, 4));
    assert_eq!(step(p(0, 0), p(10, 10)), p(10, 10));
    assert_eq!(step(p(5, 5), p(25, 5)), p(25, 5));
}

#[test]
fn step_far_target_moves_max_step() {
    assert_eq!(step(p(0, 0), p(100, 0)), p(20, 0));
    assert_eq!(step(p(0, 0), p(30, 40)), p(12, 16));
    assert_eq!(step(p(0, 0), p(-30, -40)), p(-12, -16));
    assert_eq!(step(p(10, 10), p(40, 50)), p(22, 26));
    assert_eq!(step(p(0, 0), p(100, 100)), p(14, 14));
}

#[test]
fn step_never_exceeds_bound() {
    let from = p(7, -3);
    for &(x, y) in &[(1000, 1000), (-500, 20), (21, -3), (7, 30), (i32::MAX, i32::MIN)] {
        let to = p(x, y);
        let s = step(from, to);
        let d = distance_squared(s, from);
        assert!(d <= (MAX_STEP * MAX_STEP) as u128);
        assert!(d <= distance_squared(to, from));
    }
}

#[test]
fn step_zero_distance_stays() {
    assert_eq!(step(p(4, -9), p(4, -9)), p(4, -9));
}

#[test]
fn tree_new_has_one_root() {
    let t = Tree::new(p(3, 4));
    assert_eq!(t.len(), 1);
    assert_eq!(t.node_at(0), Node { pos: p(3, 4), parent: None });
    assert_eq!(t.last(), Node::new(p(3, 4)));
}

#[test]
fn tree_append_and_clear() {
    let mut t = Tree::new(p(0, 0));
    t.append(p(5, 0), 0);
    t.append(p(5, 5), 1);
    assert_eq!(t.len(), 3);
    assert_eq!(t.node_at(2).parent, Some(1));
    assert_eq!(t.last().pos, p(5, 5));
    t.clear_and_reseed(p(-1, -1));
    assert_eq!(t.len(), 1);
    assert_eq!(t.node_at(0), Node { pos: p(-1, -1), parent: None });
}

#[test]
fn grow_picks_nearest_parent() {
    let mut t = Tree::new(p(0, 0));
    t.append(p(100, 0), 0);
    t.append(p(0, 100), 0);
    let parent = t.grow_toward(p(90, 0));
    assert_eq!(parent, 1);
    assert_eq!(t.len(), 4);
    assert_eq!(t.last(), Node { pos: p(90, 0), parent: Some(1) });
    let parent = t.grow_toward(p(0, 200));
    assert_eq!(parent, 2);
    assert_eq!(t.last(), Node { pos: p(0, 120), parent: Some(2) });
}

#[test]
fn grow_in_large_tree_finds_nearest() {
    let mut t = Tree::new(p(0, 0));
    for i in 1..5000usize {
        t.append(p((i % 100) as i32 * 10, (i / 100) as i32 * 10), i - 1);
    }
    let parent = t.grow_toward(p(501, 302));
    let chosen = t.node_at(parent).pos;
    assert_eq!(chosen, p(500, 300));
    assert_eq!(t.last().pos, p(501, 302));
}

#[test]
fn grow_toward_existing_node_adds_zero_length_edge() {
    let mut t = Tree::new(p(0, 0));
    t.append(p(40, 40), 0);
    let parent = t.grow_toward(p(40, 40));
    assert_eq!(parent, 1);
    assert_eq!(t.last(), Node { pos: p(40, 40), parent: Some(1) });
}

#[test]
fn parents_point_backward_after_many_frames() {
    let mut m = Model::new();
    for _ in 0..300 {
        m.update(input(200, 100, false, p(0, 0)));
    }
    assert_eq!(m.tree.len(), 301);
    assert_eq!(m.tree.node_at(0).parent, None);
    for i in 1..m.tree.len() {
        let parent = m.tree.node_at(i).parent.unwrap();
        assert!(parent < i);
        let d = distance_squared(m.tree.node_at(i).pos, m.tree.node_at(parent).pos);
        assert!(d <= (MAX_STEP * MAX_STEP) as u128);
    }
}

#[test]
fn model_starts_at_origin() {
    let m = Model::new();
    assert_eq!(m.tree.len(), 1);
    assert_eq!(m.tree.node_at(0), Node { pos: p(0, 0), parent: None });
    assert!(!m.redraw);
    assert_eq!(m.scene(), Scene::Dot { at: p(0, 0), edge_from: None });
}

#[test]
fn press_resets_to_pointer() {
    let mut m = Model::new();
    m.step_with(input(100, 100, false, p(0, 0)), p(30, 0));
    assert_eq!(m.tree.len(), 2);
    m.update(input(100, 100, true, p(-7, 12)));
    assert_eq!(m.tree.len(), 1);
    assert_eq!(m.tree.node_at(0), Node { pos: p(-7, 12), parent: None });
    assert!(m.redraw);
    assert_eq!(m.scene(), Scene::Clear);
}

#[test]
fn held_press_keeps_resetting() {
    let mut m = Model::new();
    for _ in 0..3 {
        m.update(input(100, 100, true, p(5, 5)));
        assert_eq!(m.tree.len(), 1);
        assert!(m.redraw);
    }
    m.update(input(100, 100, false, p(5, 5)));
    assert_eq!(m.tree.len(), 2);
    assert!(!m.redraw);
}

#[test]
fn size_bound_resets_without_press() {
    let mut m = Model { tree: tree_of(101), redraw: false };
    m.update(input(10, 10, false, p(2, 3)));
    assert_eq!(m.tree.len(), 1);
    assert_eq!(m.tree.node_at(0), Node { pos: p(2, 3), parent: None });
    assert!(m.redraw);
}

#[test]
fn size_at_bound_still_grows() {
    let mut m = Model { tree: tree_of(100), redraw: false };
    m.update(input(10, 10, false, p(2, 3)));
    assert_eq!(m.tree.len(), 101);
    assert!(!m.redraw);
}

#[test]
fn step_with_grows_toward_given_target() {
    let mut m = Model::new();
    m.step_with(input(100, 100, false, p(0, 0)), p(0, -50));
    assert_eq!(m.tree.last(), Node { pos: p(0, -20), parent: Some(0) });
    assert_eq!(m.scene(), Scene::Dot { at: p(0, -20), edge_from: Some(p(0, 0)) });
}

#[test]
fn update_samples_inside_viewport() {
    let mut m = Model::new();
    for _ in 0..50 {
        m.update(input(2, 4, false, p(0, 0)));
        if m.redraw {
            continue;
        }
        let last = m.tree.last();
        assert!(last.pos.x >= -1 && last.pos.x <= 1);
        assert!(last.pos.y >= -2 && last.pos.y <= 2);
    }
}

#[test]
fn zero_sized_viewport_always_resets() {
    let mut m = Model::new();
    m.update(input(0, 0, false, p(1, 1)));
    assert_eq!(m.tree.len(), 1);
    assert!(m.redraw);
}
