use nbody_simulation::barnes_hut::force_calculator::squared_distance;
use nbody_simulation::barnes_hut::force_calculator::BarnesHutForceCalculator;
use nbody_simulation::barnes_hut::force_calculator::Force;
use nbody_simulation::barnes_hut::force_calculator::Ratio;
use nbody_simulation::barnes_hut::quadtree::lattice_bounds;
use nbody_simulation::barnes_hut::quadtree::Quadtree;
use nbody_simulation::barnes_hut::quadtree::ONE;
use nbody_simulation::physics::body::Body;
use nbody_simulation::physics::body::Point;

fn ratio(num: u16, den: u16) -> Ratio {
    Ratio { num, den }
}

fn force(x: i128, y: i128) -> Force {
    Force { x, y }
}

fn cluster() -> Vec<Body> {
    vec![
        Body::new(10, 10, 5),
        Body::new(900, 40, 7),
        Body::new(512, 512, 11),
        Body::new(30, 700, 13),
        Body::new(650, 650, 17),
        Body::new(651, 650, 19),
        Body::new(-20, 2000, 23),
        Body::new(10, 10, 29),
        Body::new(333, 334, 0),
    ]
}

fn tree_of(bodies: &[Body], bounds: (i32, i32, i32, i32), capacity: usize) -> Quadtree {
    let mut tree = Quadtree::new(lattice_bounds(bounds.0, bounds.1, bounds.2, bounds.3), capacity);
    tree.build_from_bodies(bodies);
    tree
}

fn steps(width: i128) -> i128 {
    width * ONE as i128
}

fn direct_sum(calculator: &BarnesHutForceCalculator, bodies: &[Body]) -> Vec<Force> {
    let mut forces = Vec::new();
    for i in 0..bodies.len() {
        let mut total = force(0, 0);
        for j in 0..bodies.len() {
            if j != i {
                let pulled = calculator.calculate_direct_force(i, j, bodies);
                total = force(total.x + pulled.x, total.y + pulled.y);
            }
        }
        forces.push(total);
    }
    forces
}

#[test]
fn calculator_keeps_its_parameters() {
    let calculator = BarnesHutForceCalculator::new(ratio(1, 2), 100, 5);
    assert_eq!(calculator.theta, ratio(1, 2));
    assert_eq!(calculator.g, 100);
    assert_eq!(calculator.eps, 5);
}

#[test]
fn squared_distance_is_exact_at_the_extremes() {
    assert_eq!(squared_distance(Point::new(0, 0), Point::new(3, 4)), 25);
    assert_eq!(squared_distance(Point::new(-3, 4), Point::new(-3, 4)), 0);
    assert_eq!(
        squared_distance(Point::new(i32::MIN, i32::MIN), Point::new(i32::MAX, i32::MAX)),
        2 * 4294967295u128 * 4294967295u128
    );
}

#[test]
fn direct_force_follows_the_law() {
    let bodies = vec![Body::new(0, 0, 26), Body::new(3, 4, 1), Body::new(-3, -4, 1)];
    let calculator = BarnesHutForceCalculator::new(ratio(1, 2), 100, 1);
    assert_eq!(calculator.calculate_direct_force(0, 1, &bodies), force(60, 80));
    assert_eq!(calculator.calculate_direct_force(0, 2, &bodies), force(-60, -80));
    assert_eq!(calculator.calculate_direct_force(1, 0, &bodies), force(-60, -80));
}

#[test]
fn direct_force_rounds_magnitude_and_components_down() {
    let bodies = vec![Body::new(0, 0, 3), Body::new(3, 4, 11), Body::new(100, 0, 1), Body::new(0, 0, 1000)];
    let calculator = BarnesHutForceCalculator::new(ratio(1, 2), 7, 5);
    assert_eq!(calculator.calculate_direct_force(0, 1, &bodies), force(4, 5));
    let calculator = BarnesHutForceCalculator::new(ratio(1, 2), 100, 1);
    assert_eq!(calculator.calculate_direct_force(2, 3, &bodies), force(-9, 0));
}

#[test]
fn direction_is_exact_to_a_fine_part_of_a_step() {
    let bodies = vec![Body::new(0, 0, 1), Body::new(1, 1, 3), Body::new(1, 0, 2)];
    let calculator = BarnesHutForceCalculator::new(ratio(1, 2), 1000, 1);
    assert_eq!(calculator.calculate_direct_force(0, 1, &bodies), force(707, 707));
    assert_eq!(calculator.calculate_direct_force(1, 0, &bodies), force(-707, -707));
    assert_eq!(calculator.calculate_direct_force(0, 2, &bodies), force(1000, 0));
}

#[test]
fn no_force_closer_than_the_softening_length() {
    let bodies = vec![Body::new(0, 0, 3), Body::new(3, 4, 11), Body::new(3, 3, 11)];
    let at_the_length = BarnesHutForceCalculator::new(ratio(1, 2), 7, 5);
    assert_eq!(at_the_length.calculate_direct_force(0, 1, &bodies), force(4, 5));
    assert_eq!(at_the_length.calculate_direct_force(0, 2, &bodies), force(0, 0));
    let beyond = BarnesHutForceCalculator::new(ratio(1, 2), 7, 6);
    assert_eq!(beyond.calculate_direct_force(0, 1, &bodies), force(0, 0));
}

#[test]
fn largest_inputs_do_not_overflow() {
    let bodies = vec![Body::new(i32::MIN, i32::MIN, u32::MAX), Body::new(0, 0, u32::MAX)];
    let calculator = BarnesHutForceCalculator::new(ratio(1, 2), u32::MAX, 1);
    assert_eq!(
        calculator.calculate_force_from_center_of_mass(
            0,
            &bodies,
            Point::new(i32::MAX, i32::MAX),
            u64::MAX
        ),
        force(6521908912666405609, 6521908912666405609)
    );
    assert_eq!(
        calculator.calculate_force_from_center_of_mass(1, &bodies, Point::new(1, 0), u64::MAX),
        force(170141183381241069217422966126635122687, 0)
    );
}

#[test]
fn force_from_center_of_mass_follows_the_same_law() {
    let bodies = vec![Body::new(0, 0, 26), Body::new(3, 4, 1)];
    let calculator = BarnesHutForceCalculator::new(ratio(1, 2), 100, 1);
    assert_eq!(
        calculator.calculate_force_from_center_of_mass(0, &bodies, Point::new(3, 4), 1),
        calculator.calculate_direct_force(0, 1, &bodies)
    );
    assert_eq!(
        calculator.calculate_force_from_center_of_mass(0, &bodies, Point::new(-3, -4), 2),
        force(-120, -160)
    );
}

#[test]
fn approximation_needs_distance_above_width_over_theta() {
    let half = BarnesHutForceCalculator::new(ratio(1, 2), 1, 1);
    assert!(half.should_use_approximation(Point::new(0, 0), Point::new(3, 4), steps(2)));
    assert!(!half.should_use_approximation(Point::new(0, 0), Point::new(3, 4), steps(3)));
    assert!(!half.should_use_approximation(Point::new(0, 0), Point::new(3, 4), steps(5) / 2));
    assert!(half.should_use_approximation(Point::new(0, 0), Point::new(3, 4), steps(5) / 2 - 1));
    let double = BarnesHutForceCalculator::new(ratio(2, 1), 1, 1);
    assert!(double.should_use_approximation(Point::new(0, 0), Point::new(3, 4), steps(9)));
    assert!(!double.should_use_approximation(Point::new(0, 0), Point::new(3, 4), steps(10)));
    assert!(double.should_use_approximation(Point::new(0, 0), Point::new(3, 4), steps(10) - 1));
}

#[test]
fn approximation_is_refused_at_zero_distance() {
    let half = BarnesHutForceCalculator::new(ratio(1, 2), 1, 1);
    assert!(!half.should_use_approximation(Point::new(0, 0), Point::new(0, 0), 0));
    let unbounded = BarnesHutForceCalculator::new(ratio(1, 0), 1, 1);
    assert!(!unbounded.should_use_approximation(Point::new(7, 7), Point::new(7, 7), steps(4)));
    assert!(unbounded.should_use_approximation(
        Point::new(0, 0),
        Point::new(0, 1),
        u64::MAX as i128
    ));
}

#[test]
fn approximation_at_the_edges_of_theta_and_width() {
    let zero = BarnesHutForceCalculator::new(ratio(0, 1), 1, 1);
    assert!(!zero.should_use_approximation(Point::new(0, 0), Point::new(0, 1), 0));
    let one = BarnesHutForceCalculator::new(ratio(1, 1), 1, 1);
    assert!(one.should_use_approximation(Point::new(0, 0), Point::new(0, 1), -5));
    let widest = BarnesHutForceCalculator::new(ratio(u16::MAX, 1), 1, 1);
    assert!(!widest.should_use_approximation(
        Point::new(0, 0),
        Point::new(0, 1),
        u64::MAX as i128
    ));
    let even = BarnesHutForceCalculator::new(ratio(u16::MAX, u16::MAX), 1, 1);
    assert!(even.should_use_approximation(
        Point::new(i32::MIN, i32::MIN),
        Point::new(i32::MAX, i32::MAX),
        u64::MAX as i128
    ));
}

#[test]
fn coincident_bodies_exert_no_force_on_each_other() {
    let bodies = vec![Body::new(37, 91, 5), Body::new(37, 91, 7)];
    let calculator = BarnesHutForceCalculator::new(ratio(1, 2), 1000, 1);
    assert_eq!(calculator.calculate_direct_force(0, 1, &bodies), force(0, 0));
    assert_eq!(calculator.calculate_direct_force(1, 0, &bodies), force(0, 0));
    let tree = tree_of(&bodies, (0, 200, 0, 200), 1);
    assert_eq!(calculator.calculate_forces(&bodies, &tree), vec![force(0, 0), force(0, 0)]);
}

#[test]
fn three_body_scenario_matches_the_direct_sum() {
    let bodies = vec![
        Body::new(0, 0, 1_000_000),
        Body::new(100_000, 0, 1000),
        Body::new(0, 100_000, 1000),
    ];
    let calculator = BarnesHutForceCalculator::new(ratio(1, 2), 100_000, 5);
    let tree = tree_of(&bodies, (0, 200_000, 0, 200_000), 1);
    let forces = calculator.calculate_forces(&bodies, &tree);
    assert_eq!(forces, vec![force(9999, 9999), force(-10001, 2), force(2, -10001)]);
    assert_eq!(forces, direct_sum(&calculator, &bodies));
    let on_second = forces[1];
    assert!(on_second.x < 0);
    assert!(on_second.x.abs() > 1000 * on_second.y.abs());
    assert!((on_second.x.abs() - 10_000).abs() <= 2);
}

#[test]
fn three_body_scenario_in_whole_steps() {
    let bodies = vec![Body::new(0, 0, 1000), Body::new(100, 0, 1), Body::new(0, 100, 1)];
    let calculator = BarnesHutForceCalculator::new(ratio(1, 2), 100, 1);
    let tree = tree_of(&bodies, (0, 200, 0, 200), 1);
    let forces = calculator.calculate_forces(&bodies, &tree);
    assert_eq!(forces, vec![force(9, 9), force(-9, 0), force(0, -9)]);
    assert_eq!(forces, direct_sum(&calculator, &bodies));
}

#[test]
fn small_theta_gives_the_direct_sum() {
    let bodies = cluster();
    let calculator = BarnesHutForceCalculator::new(ratio(1, 3000), 1_000_000, 3);
    let tree = tree_of(&bodies, (0, 1024, 0, 1024), 1);
    let forces = calculator.calculate_forces(&bodies, &tree);
    assert_eq!(forces, direct_sum(&calculator, &bodies));
    assert_eq!(
        forces,
        vec![
            force(276, 394),
            force(-719, 760),
            force(6412, 6915),
            force(1728, -1085),
            force(-4509, -4020),
            force(-5023, -4453),
            force(217, -820),
            force(1618, 2309),
            force(0, 0),
        ]
    );
}

#[test]
fn theta_zero_gives_the_direct_sum() {
    let bodies = cluster();
    let calculator = BarnesHutForceCalculator::new(ratio(0, 1), 1_000_000, 3);
    for capacity in 1..4 {
        let tree = tree_of(&bodies, (0, 1024, 0, 1024), capacity);
        assert_eq!(calculator.calculate_forces(&bodies, &tree), direct_sum(&calculator, &bodies));
    }
}

#[test]
fn larger_theta_approximates_distant_nodes() {
    let bodies = cluster();
    let tree = tree_of(&bodies, (0, 1024, 0, 1024), 1);
    let half = BarnesHutForceCalculator::new(ratio(1, 2), 1_000_000, 3);
    assert_eq!(
        half.calculate_forces(&bodies, &tree),
        vec![
            force(268, 301),
            force(-690, 777),
            force(6820, 6939),
            force(1742, -1038),
            force(-4169, -3812),
            force(-4645, -4220),
            force(217, -824),
            force(1557, 1762),
            force(0, 0),
        ]
    );
    let double = BarnesHutForceCalculator::new(ratio(2, 1), 1_000_000, 3);
    assert_eq!(
        double.calculate_forces(&bodies, &tree),
        vec![
            force(445, 1081),
            force(-758, 795),
            force(15966, 15929),
            force(1722, -536),
            force(-4169, -3812),
            force(-4645, -4220),
            force(353, -1518),
            force(2583, 6278),
            force(0, 0),
        ]
    );
}

#[test]
fn unbounded_theta_takes_the_root_for_everything_apart_from_it() {
    let bodies = cluster();
    let tree = tree_of(&bodies, (0, 1024, 0, 1024), 1);
    let unbounded = BarnesHutForceCalculator::new(ratio(1, 0), 1_000_000, 3);
    let forces = unbounded.calculate_forces(&bodies, &tree);
    assert_eq!(forces[2], force(-13596, 10333));
    assert_eq!(forces[3], force(24245, -1603));
    assert_eq!(forces[8], force(0, 0));
}

#[test]
fn dominant_mass_is_matched_by_the_aggregate() {
    let bodies = vec![Body::new(1000, 1000, 1_000_000), Body::new(9000, 9000, 1)];
    let calculator = BarnesHutForceCalculator::new(ratio(100, 1), 1_000_000, 1);
    let tree = tree_of(&bodies, (0, 16384, 0, 16384), 1);
    let forces = calculator.calculate_forces(&bodies, &tree);
    let direct = calculator.calculate_direct_force(1, 0, &bodies);
    assert_eq!(direct, force(-5523, -5523));
    assert!((forces[1].x - direct.x).abs() <= 1);
    assert!((forces[1].y - direct.y).abs() <= 1);
}

#[test]
fn forces_stand_at_the_index_of_their_body() {
    let bodies = cluster();
    let calculator = BarnesHutForceCalculator::new(ratio(1, 1), 1_000_000, 3);
    let tree = tree_of(&bodies, (0, 1024, 0, 1024), 2);
    let forces = calculator.calculate_forces(&bodies, &tree);
    assert_eq!(forces.len(), bodies.len());
    for i in (0..bodies.len()).rev() {
        assert_eq!(forces[i], calculator.calculate_force(i, &bodies, &tree));
    }
    assert_eq!(forces, calculator.calculate_forces(&bodies, &tree));
}

#[test]
fn traversal_of_a_subtree_counts_only_its_bodies() {
    let bodies = vec![Body::new(10, 10, 26), Body::new(13, 14, 1), Body::new(150, 150, 9)];
    let calculator = BarnesHutForceCalculator::new(ratio(0, 1), 100, 1);
    let tree = tree_of(&bodies, (0, 200, 0, 200), 3);
    assert_eq!(
        calculator.calculate_force_on_body(0, &bodies, tree.root(), tree.bounds()),
        calculator.calculate_force(0, &bodies, &tree)
    );
    let pair = vec![Body::new(10, 10, 26), Body::new(13, 14, 1)];
    let small = tree_of(&pair, (0, 200, 0, 200), 3);
    assert_eq!(
        calculator.calculate_force_on_body(0, &pair, small.root(), small.bounds()),
        force(60, 80)
    );
}

#[test]
fn bodies_without_mass_feel_and_exert_nothing() {
    let bodies = vec![Body::new(10, 10, 0), Body::new(150, 150, 0), Body::new(20, 180, 0)];
    let calculator = BarnesHutForceCalculator::new(ratio(1, 2), 1_000_000, 1);
    let tree = tree_of(&bodies, (0, 200, 0, 200), 1);
    assert_eq!(
        calculator.calculate_forces(&bodies, &tree),
        vec![force(0, 0), force(0, 0), force(0, 0)]
    );
}

#[test]
fn no_bodies_give_no_forces() {
    let bodies: Vec<Body> = Vec::new();
    let calculator = BarnesHutForceCalculator::new(ratio(1, 2), 100, 1);
    let tree = tree_of(&bodies, (0, 200, 0, 200), 1);
    assert_eq!(calculator.calculate_forces(&bodies, &tree), Vec::<Force>::new());
}

#[test]
fn a_lone_mass_is_matched_exactly_by_the_aggregate() {
    let bodies = vec![
        Body::new(900, 900, 0),
        Body::new(100, 100, 50_000),
        Body::new(200, 60, 0),
        Body::new(5000, 5000, 3),
    ];
    let calculator = BarnesHutForceCalculator::new(ratio(100, 1), 1_000_000, 1);
    let tree = tree_of(&bodies[..3], (0, 1024, 0, 1024), 1);
    let on_far = calculator.calculate_force_on_body(3, &bodies, tree.root(), tree.bounds());
    assert_eq!(on_far, calculator.calculate_direct_force(3, 1, &bodies));
    assert!(on_far.x < 0 && on_far.y < 0);
}

#[test]
fn deviation_from_the_direct_sum_is_bounded_in_proportion_to_theta() {
    let bodies = cluster();
    let tree = tree_of(&bodies, (0, 1024, 0, 1024), 1);
    let total: i128 = bodies.iter().map(|body| body.mass() as i128).sum();
    let span: i128 = 2200;
    for (num, den) in [(1u16, 3000u16), (1, 100), (1, 2), (2, 1)] {
        let calculator = BarnesHutForceCalculator::new(ratio(num, den), 1_000_000, 3);
        let gathered = calculator.calculate_forces(&bodies, &tree);
        let direct = direct_sum(&calculator, &bodies);
        for i in 0..bodies.len() {
            let scale = 1_000_000 * bodies[i].mass() as i128 * total * span;
            assert!(((gathered[i].x - direct[i].x) * den as i128).abs() <= scale * num as i128);
            assert!(((gathered[i].y - direct[i].y) * den as i128).abs() <= scale * num as i128);
        }
    }
    let half = BarnesHutForceCalculator::new(ratio(1, 2), 1_000_000, 3);
    let gathered = half.calculate_forces(&bodies, &tree);
    let direct = direct_sum(&half, &bodies);
    let worst = (0..bodies.len()).map(|i| (gathered[i].x - direct[i].x).abs()).max();
    assert_eq!(worst, Some(408));
}

#[test]
fn a_heavy_and_a_light_body_share_an_aggregate_between_them() {
    let bodies = vec![Body::new(1000, 1000, 900), Body::new(9000, 5000, 300)];
    let tree = tree_of(&bodies, (0, 16384, 0, 16384), 1);
    let calculator = BarnesHutForceCalculator::new(ratio(100, 1), 1_000_000, 1);
    let on_light = calculator.calculate_force(1, &bodies, &tree);
    let direct = calculator.calculate_direct_force(1, 0, &bodies);
    assert_eq!(
        on_light,
        calculator.calculate_force_from_center_of_mass(1, &bodies, Point::new(3000, 2000), 1200)
    );
    assert!(on_light.x < 0 && on_light.y < 0);
    assert!(on_light.x.abs() >= direct.x.abs() && on_light.y.abs() >= direct.y.abs());
    assert!(27 * on_light.x.abs() <= 64 * (direct.x.abs() + 2));
    assert!(27 * on_light.y.abs() <= 64 * (direct.y.abs() + 2));
}
