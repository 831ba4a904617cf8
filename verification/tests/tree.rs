use nbody_simulation::barnes_hut::quadtree::lattice_bounds;
use nbody_simulation::barnes_hut::quadtree::QuadNode;
use nbody_simulation::barnes_hut::quadtree::ONE;
use nbody_simulation::barnes_hut::quadtree::Quadtree;
use nbody_simulation::physics::body::Body;
use nbody_simulation::physics::body::Point;

fn collect_indices(node: &QuadNode, out: &mut Vec<usize>) {
    match node {
        QuadNode::Leaf { body_indices } => out.extend(body_indices.iter().copied()),
        QuadNode::Internal { upper_left, upper_right, lower_left, lower_right, .. } => {
            collect_indices(upper_left, out);
            collect_indices(upper_right, out);
            collect_indices(lower_left, out);
            collect_indices(lower_right, out);
        }
    }
}

fn leaf_indices(node: &QuadNode) -> Vec<usize> {
    match node {
        QuadNode::Leaf { body_indices } => body_indices.clone(),
        QuadNode::Internal { .. } => panic!("expected a leaf"),
    }
}

fn depth(node: &QuadNode) -> usize {
    match node {
        QuadNode::Leaf { .. } => 0,
        QuadNode::Internal { upper_left, upper_right, lower_left, lower_right, .. } => {
            1 + depth(upper_left).max(depth(upper_right)).max(depth(lower_left)).max(depth(lower_right))
        }
    }
}

fn scattered() -> Vec<Body> {
    vec![
        Body::new(10, 10, 5),
        Body::new(900, 40, 7),
        Body::new(512, 512, 11),
        Body::new(30, 700, 13),
        Body::new(650, 650, 17),
        Body::new(651, 650, 19),
        Body::new(-20, 2000, 23),
        Body::new(10, 10, 29),
        Body::new(333, 334, 0),
    ]
}

fn whole(bounds: (i32, i32, i32, i32)) -> (i64, i64, i64, i64) {
    lattice_bounds(bounds.0, bounds.1, bounds.2, bounds.3)
}

fn build(bodies: &[Body], bounds: (i32, i32, i32, i32), capacity: usize) -> Quadtree {
    let mut tree = Quadtree::new(whole(bounds), capacity);
    tree.build_from_bodies(bodies);
    tree
}

fn child(node: &QuadNode, quadrant: usize) -> &QuadNode {
    match node {
        QuadNode::Internal { upper_left, upper_right, lower_left, lower_right, .. } => {
            [upper_left, upper_right, lower_left, lower_right][quadrant]
        }
        QuadNode::Leaf { .. } => panic!("expected an internal node"),
    }
}

fn aggregate(node: &QuadNode) -> (u128, Point) {
    match node {
        QuadNode::Internal { total_mass, center_of_mass, .. } => (*total_mass, *center_of_mass),
        QuadNode::Leaf { .. } => panic!("expected an internal node"),
    }
}

#[test]
fn body_getters_return_what_was_given() {
    let body = Body::new(-3, 7, 42);
    assert_eq!(body.x(), -3);
    assert_eq!(body.y(), 7);
    assert_eq!(body.mass(), 42);
    assert_eq!(body.pos(), Point::new(-3, 7));
}

#[test]
fn new_tree_is_an_empty_leaf() {
    let tree = Quadtree::new(whole((0, 200, 0, 200)), 1);
    assert!(tree.root().is_leaf());
    assert_eq!(leaf_indices(tree.root()), Vec::<usize>::new());
    assert_eq!(tree.bounds(), (0, 200 * ONE, 0, 200 * ONE));
    assert!(QuadNode::new_leaf().is_leaf());
}

#[test]
fn quadrants_follow_the_convention() {
    let bounds = whole((0, 200, 0, 200));
    assert_eq!(Quadtree::get_quadrant(Point::new(50, 150), bounds), 0);
    assert_eq!(Quadtree::get_quadrant(Point::new(150, 150), bounds), 1);
    assert_eq!(Quadtree::get_quadrant(Point::new(50, 50), bounds), 2);
    assert_eq!(Quadtree::get_quadrant(Point::new(150, 50), bounds), 3);
}

#[test]
fn a_point_on_a_dividing_line_goes_to_the_larger_side() {
    let bounds = whole((0, 200, 0, 200));
    assert_eq!(Quadtree::get_quadrant(Point::new(100, 100), bounds), 1);
    assert_eq!(Quadtree::get_quadrant(Point::new(99, 100), bounds), 0);
    assert_eq!(Quadtree::get_quadrant(Point::new(100, 99), bounds), 3);
    assert_eq!(Quadtree::get_quadrant(Point::new(99, 99), bounds), 2);
}

#[test]
fn child_bounds_split_at_the_midpoint() {
    let bounds = whole((0, 200, 0, 100));
    assert_eq!(Quadtree::get_child_bounds(bounds, 0), whole((0, 100, 50, 100)));
    assert_eq!(Quadtree::get_child_bounds(bounds, 1), whole((100, 200, 50, 100)));
    assert_eq!(Quadtree::get_child_bounds(bounds, 2), whole((0, 100, 0, 50)));
    assert_eq!(Quadtree::get_child_bounds(bounds, 3), whole((100, 200, 0, 50)));
}

#[test]
fn a_rectangle_on_the_lattice_is_halved_exactly() {
    let half = ONE / 2;
    assert_eq!(
        Quadtree::get_child_bounds(whole((-3, 0, -7, -2)), 0),
        (-3 * ONE, -ONE - half, -4 * ONE - half, -2 * ONE)
    );
    assert_eq!(
        Quadtree::get_child_bounds(whole((0, 3, 0, 5)), 3),
        (ONE + half, 3 * ONE, 0, 2 * ONE + half)
    );
    assert_eq!(
        Quadtree::get_child_bounds(whole((i32::MIN, i32::MAX, i32::MIN, i32::MAX)), 1),
        (-half, i32::MAX as i64 * ONE, -half, i32::MAX as i64 * ONE)
    );
    assert_eq!(
        Quadtree::get_child_bounds(whole((0, 1, 0, 1)), 2),
        (0, half, 0, half)
    );
}

#[test]
fn midpoints_of_the_finest_steps_round_down() {
    assert_eq!(Quadtree::get_child_bounds((0, 3, -7, 0), 0), (0, 1, -4, 0));
    assert_eq!(
        Quadtree::get_child_bounds((i64::MIN, i64::MAX, i64::MIN, i64::MAX), 1),
        (-1, i64::MAX, -1, i64::MAX)
    );
}

#[test]
fn a_body_between_two_lattice_lines_is_routed_by_the_true_midpoint() {
    let bounds = whole((0, 3, 0, 3));
    assert_eq!(Quadtree::get_quadrant(Point::new(1, 1), bounds), 2);
    assert_eq!(Quadtree::get_quadrant(Point::new(2, 2), bounds), 1);
    assert_eq!(Quadtree::get_quadrant(Point::new(1, 2), bounds), 0);
    assert_eq!(Quadtree::get_quadrant(Point::new(2, 1), bounds), 3);
}

#[test]
fn a_point_is_routed_into_the_child_whose_bounds_hold_it() {
    let bounds = whole((-64, 63, -64, 63));
    for &(x, y) in &[(-64, -64), (-1, -1), (0, 0), (63, -5), (-17, 40), (12, 12)] {
        let quadrant = Quadtree::get_quadrant(Point::new(x, y), bounds);
        let (min_x, max_x, min_y, max_y) = Quadtree::get_child_bounds(bounds, quadrant);
        let (x, y) = (x as i64 * ONE, y as i64 * ONE);
        assert!(min_x <= x && x <= max_x && min_y <= y && y <= max_y);
    }
}

#[test]
fn one_body_stays_in_the_root_leaf() {
    let bodies = vec![Body::new(5, 5, 3)];
    let tree = build(&bodies, (0, 200, 0, 200), 1);
    assert_eq!(leaf_indices(tree.root()), vec![0]);
}

#[test]
fn no_bodies_give_an_empty_leaf() {
    let bodies: Vec<Body> = Vec::new();
    let tree = build(&bodies, (0, 200, 0, 200), 1);
    assert_eq!(leaf_indices(tree.root()), Vec::<usize>::new());
}

#[test]
fn two_bodies_split_a_leaf_of_capacity_one() {
    let bodies = vec![Body::new(10, 10, 3), Body::new(150, 150, 4)];
    let tree = build(&bodies, (0, 200, 0, 200), 1);
    match tree.root() {
        QuadNode::Internal { upper_left, upper_right, lower_left, lower_right, .. } => {
            assert_eq!(leaf_indices(upper_left), Vec::<usize>::new());
            assert_eq!(leaf_indices(upper_right), vec![1]);
            assert_eq!(leaf_indices(lower_left), vec![0]);
            assert_eq!(leaf_indices(lower_right), Vec::<usize>::new());
        }
        QuadNode::Leaf { .. } => panic!("expected an internal node"),
    }
}

#[test]
fn a_leaf_keeps_as_many_bodies_as_its_capacity() {
    let bodies = vec![Body::new(10, 10, 3), Body::new(150, 150, 4), Body::new(20, 180, 5)];
    let tree = build(&bodies, (0, 200, 0, 200), 3);
    assert_eq!(leaf_indices(tree.root()), vec![0, 1, 2]);
    let tree = build(&bodies, (0, 200, 0, 200), 2);
    assert!(!tree.root().is_leaf());
}

#[test]
fn capacity_zero_still_keeps_a_single_body_in_a_leaf() {
    let bodies = vec![Body::new(10, 10, 3)];
    let tree = build(&bodies, (0, 200, 0, 200), 0);
    assert_eq!(leaf_indices(tree.root()), vec![0]);
}

#[test]
fn insert_body_appends_and_splits() {
    let bodies = vec![Body::new(10, 10, 3), Body::new(150, 150, 4)];
    let mut tree = Quadtree::new(whole((0, 200, 0, 200)), 1);
    tree.insert_body(1, &bodies);
    assert_eq!(leaf_indices(tree.root()), vec![1]);
    tree.insert_body(0, &bodies);
    let mut held = Vec::new();
    collect_indices(tree.root(), &mut held);
    held.sort();
    assert_eq!(held, vec![0, 1]);
    match tree.root() {
        QuadNode::Internal { total_mass, center_of_mass, .. } => {
            assert_eq!(*total_mass, 0);
            assert_eq!(*center_of_mass, Point::new(0, 0));
        }
        QuadNode::Leaf { .. } => panic!("expected an internal node"),
    }
}

#[test]
fn close_bodies_are_separated_by_repeated_splitting() {
    let bodies = vec![Body::new(650, 650, 17), Body::new(651, 650, 19)];
    let tree = build(&bodies, (0, 1024, 0, 1024), 1);
    let mut held = Vec::new();
    collect_indices(tree.root(), &mut held);
    held.sort();
    assert_eq!(held, vec![0, 1]);
    assert_eq!(depth(tree.root()), 10);
}

#[test]
fn every_body_is_held_in_exactly_one_leaf() {
    let bodies = scattered();
    for capacity in 1..4 {
        let tree = build(&bodies, (0, 1024, 0, 1024), capacity);
        let mut held = Vec::new();
        collect_indices(tree.root(), &mut held);
        held.sort();
        assert_eq!(held, (0..bodies.len()).collect::<Vec<usize>>());
    }
}

#[test]
fn root_total_mass_is_the_sum_of_all_masses() {
    let bodies = scattered();
    let tree = build(&bodies, (0, 1024, 0, 1024), 1);
    match tree.root() {
        QuadNode::Internal { total_mass, .. } => assert_eq!(*total_mass, 124),
        QuadNode::Leaf { .. } => panic!("expected an internal node"),
    }
}

#[test]
fn root_center_of_mass_is_the_weighted_mean() {
    let bodies = vec![Body::new(10, 10, 1), Body::new(30, 50, 3)];
    let tree = build(&bodies, (0, 64, 0, 64), 1);
    match tree.root() {
        QuadNode::Internal { center_of_mass, total_mass, .. } => {
            assert_eq!(*total_mass, 4);
            assert_eq!(*center_of_mass, Point::new(25, 40));
        }
        QuadNode::Leaf { .. } => panic!("expected an internal node"),
    }
}

#[test]
fn center_of_mass_rounds_down() {
    let bodies = vec![Body::new(-1, 3, 1), Body::new(0, 4, 1), Body::new(-6, 0, 1)];
    let tree = build(&bodies, (-8, 8, -8, 8), 1);
    match tree.root() {
        QuadNode::Internal { center_of_mass, total_mass, .. } => {
            assert_eq!(*total_mass, 3);
            assert_eq!(*center_of_mass, Point::new(-3, 2));
        }
        QuadNode::Leaf { .. } => panic!("expected an internal node"),
    }
}

#[test]
fn inner_nodes_carry_the_aggregate_of_their_own_bodies() {
    let bodies = vec![
        Body::new(10, 10, 2),
        Body::new(30, 30, 6),
        Body::new(200, 200, 5),
    ];
    let tree = build(&bodies, (0, 256, 0, 256), 1);
    match tree.root() {
        QuadNode::Internal { lower_left, upper_right, total_mass, center_of_mass, .. } => {
            assert_eq!(*total_mass, 13);
            assert_eq!(*center_of_mass, Point::new(92, 92));
            assert_eq!(leaf_indices(upper_right), vec![2]);
            match &**lower_left {
                QuadNode::Internal { total_mass, center_of_mass, .. } => {
                    assert_eq!(*total_mass, 8);
                    assert_eq!(*center_of_mass, Point::new(25, 25));
                }
                QuadNode::Leaf { .. } => panic!("expected an internal node"),
            }
        }
        QuadNode::Leaf { .. } => panic!("expected an internal node"),
    }
}

#[test]
fn a_subtree_without_mass_reports_no_mass() {
    let bodies = vec![Body::new(10, 10, 0), Body::new(150, 150, 0)];
    let tree = build(&bodies, (0, 200, 0, 200), 1);
    match tree.root() {
        QuadNode::Internal { total_mass, .. } => assert_eq!(*total_mass, 0),
        QuadNode::Leaf { .. } => panic!("expected an internal node"),
    }
}

#[test]
fn coincident_bodies_end_the_build_in_one_leaf() {
    let bodies = vec![Body::new(37, 91, 5), Body::new(37, 91, 7)];
    let tree = build(&bodies, (0, 200, 0, 200), 1);
    let mut held = Vec::new();
    collect_indices(tree.root(), &mut held);
    held.sort();
    assert_eq!(held, vec![0, 1]);
    assert!(depth(tree.root()) <= 8);
    match tree.root() {
        QuadNode::Internal { total_mass, center_of_mass, .. } => {
            assert_eq!(*total_mass, 12);
            assert_eq!(*center_of_mass, Point::new(37, 91));
        }
        QuadNode::Leaf { .. } => panic!("expected an internal node"),
    }
}

#[test]
fn a_rectangle_with_a_side_below_one_step_is_never_split() {
    let bodies = vec![Body::new(0, 0, 1), Body::new(1, 1, 1), Body::new(0, 1, 1)];
    for bounds in [
        (0, ONE - 1, 0, ONE),
        (0, 100 * ONE, 0, ONE - 1),
        (0, ONE / 2, 0, ONE / 2),
        (5 * ONE, 5 * ONE, 0, 100 * ONE),
        (ONE, 0, 0, 100 * ONE),
    ] {
        let mut tree = Quadtree::new(bounds, 1);
        tree.build_from_bodies(&bodies);
        assert_eq!(leaf_indices(tree.root()), vec![0, 1, 2]);
    }
}

#[test]
fn a_rectangle_with_sides_of_one_step_is_split() {
    let bodies = vec![Body::new(0, 0, 1), Body::new(1, 1, 1), Body::new(0, 1, 1)];
    let tree = build(&bodies, (0, 1, 0, 1), 1);
    assert_eq!(leaf_indices(child(tree.root(), 0)), vec![2]);
    assert_eq!(leaf_indices(child(tree.root(), 1)), vec![1]);
    assert_eq!(leaf_indices(child(tree.root(), 2)), vec![0]);
    assert_eq!(leaf_indices(child(tree.root(), 3)), Vec::<usize>::new());
    let pair = vec![Body::new(0, 0, 1), Body::new(1, 1, 1)];
    let tree = build(&pair, (0, 1, 0, 1), 1);
    assert_eq!(leaf_indices(child(tree.root(), 1)), vec![1]);
    assert_eq!(leaf_indices(child(tree.root(), 2)), vec![0]);
}

#[test]
fn coincident_bodies_are_split_until_a_side_is_below_one_step() {
    let bodies = vec![Body::new(50, 50, 1), Body::new(50, 50, 1)];
    let tree = build(&bodies, (0, 200, 0, 200), 1);
    let mut node = tree.root();
    for quadrant in [2, 1, 2, 2, 2, 2, 2, 2] {
        assert_eq!(aggregate(node), (2, Point::new(50, 50)));
        for other in 0..4 {
            if other != quadrant {
                assert_eq!(leaf_indices(child(node, other)), Vec::<usize>::new());
            }
        }
        node = child(node, quadrant);
    }
    assert_eq!(leaf_indices(node), vec![0, 1]);
    assert_eq!(depth(tree.root()), 8);
}

#[test]
fn a_body_inserted_below_an_internal_node_goes_down_its_quadrant() {
    let bodies = vec![Body::new(10, 10, 1), Body::new(20, 20, 1)];
    let mut tree = Quadtree::new(whole((0, 200, 0, 200)), 1);
    tree.insert_body(0, &bodies);
    tree.insert_body(1, &bodies);
    let mut node = tree.root();
    for _ in 0..3 {
        assert_eq!(aggregate(node), (0, Point::new(0, 0)));
        assert_eq!(leaf_indices(child(node, 0)), Vec::<usize>::new());
        assert_eq!(leaf_indices(child(node, 1)), Vec::<usize>::new());
        assert_eq!(leaf_indices(child(node, 3)), Vec::<usize>::new());
        node = child(node, 2);
    }
    assert_eq!(leaf_indices(child(node, 0)), Vec::<usize>::new());
    assert_eq!(leaf_indices(child(node, 1)), vec![1]);
    assert_eq!(leaf_indices(child(node, 2)), vec![0]);
    assert_eq!(leaf_indices(child(node, 3)), Vec::<usize>::new());
}

#[test]
fn a_split_hands_the_bodies_on_in_the_order_of_the_leaf() {
    let bodies = vec![
        Body::new(150, 150, 1),
        Body::new(10, 10, 1),
        Body::new(160, 160, 1),
        Body::new(20, 20, 1),
    ];
    let mut tree = Quadtree::new(whole((0, 200, 0, 200)), 3);
    for index in [2, 3, 0, 1] {
        tree.insert_body(index, &bodies);
    }
    assert_eq!(leaf_indices(child(tree.root(), 1)), vec![2, 0]);
    assert_eq!(leaf_indices(child(tree.root(), 2)), vec![3, 1]);
}

#[test]
fn more_bodies_than_a_narrow_total_could_weigh() {
    let bodies = vec![Body::new(1, 1, u32::MAX), Body::new(90, 90, u32::MAX), Body::new(1, 90, 7)];
    let tree = build(&bodies, (0, 100, 0, 100), 1);
    assert_eq!(aggregate(tree.root()).0, 2 * (u32::MAX as u128) + 7);
}

#[test]
fn bodies_outside_the_bounds_are_routed_by_the_midpoint_rule() {
    let bodies = vec![Body::new(-5000, 9000, 1), Body::new(7000, -12, 2), Body::new(50, 50, 3)];
    let tree = build(&bodies, (0, 200, 0, 200), 1);
    match tree.root() {
        QuadNode::Internal { upper_left, lower_right, lower_left, total_mass, .. } => {
            assert_eq!(leaf_indices(upper_left), vec![0]);
            assert_eq!(leaf_indices(lower_right), vec![1]);
            assert_eq!(leaf_indices(lower_left), vec![2]);
            assert_eq!(*total_mass, 6);
        }
        QuadNode::Leaf { .. } => panic!("expected an internal node"),
    }
}

#[test]
fn rebuilding_discards_the_previous_tree() {
    let first = scattered();
    let second = vec![Body::new(1, 1, 1)];
    let mut tree = Quadtree::new(whole((0, 1024, 0, 1024)), 1);
    tree.build_from_bodies(&first);
    tree.build_from_bodies(&second);
    assert_eq!(leaf_indices(tree.root()), vec![0]);
    assert_eq!(tree.bounds(), whole((0, 1024, 0, 1024)));
}

#[test]
fn insertion_order_does_not_change_shape_or_aggregates() {
    let bodies = scattered();
    let mut reversed = bodies.clone();
    reversed.reverse();
    let a = build(&bodies, (0, 1024, 0, 1024), 2);
    let b = build(&reversed, (0, 1024, 0, 1024), 2);
    fn outline(node: &QuadNode, out: &mut Vec<(usize, u128, i32, i32)>) {
        match node {
            QuadNode::Leaf { body_indices } => out.push((body_indices.len(), 0, 0, 0)),
            QuadNode::Internal {
                upper_left,
                upper_right,
                lower_left,
                lower_right,
                center_of_mass,
                total_mass,
            } => {
                out.push((usize::MAX, *total_mass, center_of_mass.x, center_of_mass.y));
                outline(upper_left, out);
                outline(upper_right, out);
                outline(lower_left, out);
                outline(lower_right, out);
            }
        }
    }
    let mut left = Vec::new();
    let mut right = Vec::new();
    outline(a.root(), &mut left);
    outline(b.root(), &mut right);
    assert_eq!(left, right);
}

#[test]
fn a_cloned_node_is_the_same_tree() {
    let bodies = scattered();
    let tree = build(&bodies, (0, 1024, 0, 1024), 1);
    let copy = tree.root().clone();
    let mut held = Vec::new();
    let mut copied = Vec::new();
    collect_indices(tree.root(), &mut held);
    collect_indices(&copy, &mut copied);
    assert_eq!(held, copied);
    assert_eq!(depth(tree.root()), depth(&copy));
    match (tree.root(), &copy) {
        (
            QuadNode::Internal { total_mass, center_of_mass, .. },
            QuadNode::Internal { total_mass: copied_mass, center_of_mass: copied_center, .. },
        ) => {
            assert_eq!(total_mass, copied_mass);
            assert_eq!(center_of_mass, copied_center);
        }
        _ => panic!("expected two internal nodes"),
    }
}

#[test]
fn leaves_hold_their_bodies_in_the_order_of_their_indices() {
    let bodies = vec![
        Body::new(700, 700, 1),
        Body::new(10, 10, 1),
        Body::new(701, 701, 1),
        Body::new(11, 11, 1),
        Body::new(702, 702, 1),
        Body::new(12, 12, 1),
        Body::new(300, 900, 1),
    ];
    let tree = build(&bodies, (0, 1024, 0, 1024), 3);
    match tree.root() {
        QuadNode::Internal { upper_left, upper_right, lower_left, lower_right, .. } => {
            assert_eq!(leaf_indices(upper_left), vec![6]);
            assert_eq!(leaf_indices(upper_right), vec![0, 2, 4]);
            assert_eq!(leaf_indices(lower_left), vec![1, 3, 5]);
            assert_eq!(leaf_indices(lower_right), Vec::<usize>::new());
        }
        QuadNode::Leaf { .. } => panic!("expected an internal node"),
    }
}

#[test]
fn depth_stays_below_the_sum_of_the_sides() {
    let bodies = vec![Body::new(3, 3, 1), Body::new(3, 3, 1), Body::new(3, 3, 1)];
    let tree = build(&bodies, (0, 8, 0, 8), 1);
    assert_eq!(depth(tree.root()), 4);
    let tree = build(&bodies, (0, 8, 0, 2), 1);
    assert_eq!(depth(tree.root()), 2);
    let tree = build(&bodies, (0, 1000, 0, 1), 1);
    assert_eq!(depth(tree.root()), 1);
}

#[test]
fn the_widest_lattice_rectangle_is_halved_thirty_two_times() {
    let bodies = vec![Body::new(5, 5, 1), Body::new(5, 5, 1)];
    let tree = build(&bodies, (i32::MIN, i32::MAX, i32::MIN, i32::MAX), 1);
    assert_eq!(depth(tree.root()), 32);
    let mut held = Vec::new();
    collect_indices(tree.root(), &mut held);
    assert_eq!(held, vec![0, 1]);
}
