use crate::barnes_hut::arith::floor_sqrt;
use crate::barnes_hut::arith::lemma_floor_sqrt;
use crate::barnes_hut::force_calculator::along;
use crate::barnes_hut::force_calculator::attraction;
use crate::barnes_hut::force_calculator::BarnesHutForceCalculator;
use crate::barnes_hut::force_calculator::DIRECTION_SCALE;
use crate::barnes_hut::force_calculator::distance_squared;
use crate::barnes_hut::force_calculator::node_width;
use crate::barnes_hut::force_calculator::pull_magnitude;
use crate::barnes_hut::quadtree::Bounds;
use crate::barnes_hut::quadtree::can_split;
use crate::barnes_hut::quadtree::child_bounds_of;
use crate::barnes_hut::quadtree::extent;
use crate::barnes_hut::quadtree::height;
use crate::barnes_hut::quadtree::lemma_child_extent;
use crate::barnes_hut::quadtree::lemma_sum_nonneg;
use crate::barnes_hut::quadtree::lemma_sum_vanishes;
use crate::barnes_hut::quadtree::lemma_sum_weighted;
use crate::barnes_hut::quadtree::mass_of;
use crate::barnes_hut::quadtree::midpoint;
use crate::barnes_hut::quadtree::moment_x_of;
use crate::barnes_hut::quadtree::moment_y_of;
use crate::barnes_hut::quadtree::ONE;
use crate::barnes_hut::quadtree::QuadNode;
use crate::barnes_hut::quadtree::quadrant_of;
use crate::barnes_hut::quadtree::Quadtree;
use crate::barnes_hut::quadtree::same_tree;
use crate::barnes_hut::quadtree::width;
use crate::barnes_hut::sums::lemma_seq_sum_supported;
use crate::barnes_hut::sums::range_sum;
use crate::barnes_hut::sums::seq_sum;
use crate::physics::body::Body;
use crate::physics::body::Point;
use vstd::prelude::*;
use vstd::relations::total_ordering;

verus! {

/// The sum of the masses of all bodies.
pub open spec fn total_mass(bodies: Seq<Body>) -> int {
    range_sum(bodies.len(), mass_of(bodies))
}

/// The sum over all bodies of a body's mass times its position.
pub open spec fn total_moment(bodies: Seq<Body>) -> (int, int) {
    (range_sum(bodies.len(), moment_x_of(bodies)), range_sum(bodies.len(), moment_y_of(bodies)))
}

/// Mass is conserved: the bodies below the root of a finished tree weigh
/// what all bodies weigh together, and a root that is an internal node
/// carries that weight as its total mass.
pub proof fn lemma_mass_is_conserved(tree: Quadtree, bodies: Seq<Body>)
    requires
        tree.built_for(bodies),
    ensures
        tree.spec_root().sum(mass_of(bodies)) == total_mass(bodies),
        tree.spec_root() is Internal ==> tree.spec_root()->total_mass == total_mass(bodies),
{
}

/// The center of mass of a finished tree's root is the mass-weighted mean of
/// all body positions, each coordinate rounded down.
pub proof fn lemma_center_of_mass_is_weighted_mean(tree: Quadtree, bodies: Seq<Body>)
    requires
        tree.built_for(bodies),
        tree.spec_root() is Internal,
        total_mass(bodies) > 0,
    ensures
        tree.spec_root()->center_of_mass.x == total_moment(bodies).0 / total_mass(bodies),
        tree.spec_root()->center_of_mass.y == total_moment(bodies).1 / total_mass(bodies),
{
}

/// A finished tree is complete: each body's index is held in exactly one
/// leaf, once, and no leaf holds anything else.
pub proof fn lemma_tree_is_complete(tree: Quadtree, bodies: Seq<Body>, id: usize)
    requires
        tree.built_for(bodies),
    ensures
        id < bodies.len() ==> tree.spec_root().indices().count(id) == 1,
        id >= bodies.len() ==> tree.spec_root().indices().count(id) == 0,
        tree.spec_root().indices().len() == bodies.len(),
{
    assert(tree.spec_root().indices().len() == bodies.len()) by {
        let unit = |id: usize| 1int;
        lemma_sum_counts(tree.spec_root(), unit);
        lemma_range_sum_of_ones(bodies.len(), unit);
    }
}

/// The sum of the constant one over a subtree is the number of indices that
/// it holds.
proof fn lemma_sum_counts(node: QuadNode, unit: spec_fn(usize) -> int)
    requires
        forall|id: usize| #[trigger] unit(id) == 1,
    ensures
        node.sum(unit) == node.indices().len(),
    decreases node,
{
    match node {
        QuadNode::Leaf { body_indices } => {
            lemma_seq_sum_of_ones(body_indices@, unit);
            vstd::seq_lib::to_multiset_len(body_indices@);
        },
        QuadNode::Internal { upper_left, upper_right, lower_left, lower_right, .. } => {
            lemma_sum_counts(*upper_left, unit);
            lemma_sum_counts(*upper_right, unit);
            lemma_sum_counts(*lower_left, unit);
            lemma_sum_counts(*lower_right, unit);
        },
    }
}

/// The sum of the constant one over a list is the list's length.
proof fn lemma_seq_sum_of_ones(ids: Seq<usize>, unit: spec_fn(usize) -> int)
    requires
        forall|id: usize| #[trigger] unit(id) == 1,
    ensures
        seq_sum(ids, unit) == ids.len(),
    decreases ids.len(),
{
    if ids.len() > 0 {
        lemma_seq_sum_of_ones(ids.drop_last(), unit);
    }
}

/// The sum of the constant one over the first `n` indices is `n`.
proof fn lemma_range_sum_of_ones(n: nat, unit: spec_fn(usize) -> int)
    requires
        forall|id: usize| #[trigger] unit(id) == 1,
    ensures
        range_sum(n, unit) == n,
    decreases n,
{
    if n > 0 {
        lemma_range_sum_of_ones((n - 1) as nat, unit);
    }
}

/// Bodies at one and the same place exert no force on each other, whatever
/// their masses.
pub proof fn lemma_no_force_at_zero_distance(g: int, eps: int, target: Body, source_mass: int)
    requires
        eps > 0,
    ensures
        attraction(g, eps, target, source_mass, target.pos) == (0int, 0int),
{
    assert(0 < eps * eps) by (nonlinear_arith)
        requires
            eps > 0,
    ;
}

/// The order in which the bodies are dispatched does not show in the
/// result: where `order` names every body and the force on each body that it
/// names stands at that body's place in `forces`, `forces` holds for every
/// body the force that the traversal for that body gathers.
pub proof fn lemma_dispatch_order_is_irrelevant(
    calculator: BarnesHutForceCalculator,
    tree: Quadtree,
    bodies: Seq<Body>,
    order: Seq<usize>,
    forces: Seq<(int, int)>,
)
    requires
        forces.len() == bodies.len(),
        forall|i: usize| i < bodies.len() ==> order.contains(i),
        forall|k: int|
            0 <= k < order.len() ==> #[trigger] order[k] < bodies.len() && forces[order[k] as int]
                == calculator.force_on(tree, order[k], bodies),
    ensures
        forall|i: usize|
            i < bodies.len() ==> #[trigger] forces[i as int] == calculator.force_on(
                tree,
                i,
                bodies,
            ),
{
    assert forall|i: usize| i < bodies.len() implies #[trigger] forces[i as int]
        == calculator.force_on(tree, i, bodies) by {
        assert(order.contains(i));
        let k = choose|k: int| 0 <= k < order.len() && order[k] == i;
    }
}

/// The sum over all bodies of the forces with which each pulls body
/// `target`: what the evaluation approximates.
pub open spec fn direct_force(
    calculator: BarnesHutForceCalculator,
    bodies: Seq<Body>,
    target: usize,
) -> (int, int) {
    (
        range_sum(bodies.len(), calculator.pair_x(bodies, target)),
        range_sum(bodies.len(), calculator.pair_y(bodies, target)),
    )
}

/// Whether every body lies in the rectangle between the corners `low` and
/// `high`.
pub open spec fn all_within(bodies: Seq<Body>, low: Point, high: Point) -> bool {
    forall|i: int|
        0 <= i < bodies.len() ==> low.x <= (#[trigger] bodies[i]).pos.x <= high.x && low.y
            <= bodies[i].pos.y <= high.y
}

/// With a small enough accuracy ratio the evaluation is exact. Where all
/// bodies lie in a rectangle whose diagonal is `d`, and `theta` is at most
/// `1 / d`, no internal node of a finished tree is far enough from any body
/// to stand for the bodies below it, and the force that the traversal
/// gathers for a body is the sum of the forces from all other bodies.
pub proof fn lemma_small_theta_is_exact(
    calculator: BarnesHutForceCalculator,
    tree: Quadtree,
    bodies: Seq<Body>,
    target: usize,
    low: Point,
    high: Point,
)
    requires
        calculator.eps > 0,
        tree.built_for(bodies),
        target < bodies.len(),
        all_within(bodies, low, high),
        calculator.theta.num * calculator.theta.num * distance_squared(low, high)
            <= calculator.theta.den * calculator.theta.den,
    ensures
        calculator.force_on(tree, target, bodies) == direct_force(calculator, bodies, target),
{
    lemma_small_theta_opens_every_node(
        calculator,
        tree.spec_root(),
        tree.spec_bounds(),
        tree.capacity(),
        bodies,
        target,
        low,
        high,
    );
}

/// A body without mass pulls nothing.
proof fn lemma_massless_source(calculator: BarnesHutForceCalculator, bodies: Seq<Body>, target: usize)
    requires
        calculator.eps > 0,
    ensures
        forall|id: usize|
            mass_of(bodies)(id) == 0 ==> #[trigger] calculator.pair_x(bodies, target)(id) == 0,
        forall|id: usize|
            mass_of(bodies)(id) == 0 ==> #[trigger] calculator.pair_y(bodies, target)(id) == 0,
{
    assert forall|id: usize| mass_of(bodies)(id) == 0 implies #[trigger] calculator.pair_x(
        bodies,
        target,
    )(id) == 0 by {
        lemma_massless_attraction(
            calculator.g as int,
            calculator.eps as int,
            bodies[target as int],
            bodies[id as int].pos,
        );
    }
    assert forall|id: usize| mass_of(bodies)(id) == 0 implies #[trigger] calculator.pair_y(
        bodies,
        target,
    )(id) == 0 by {
        lemma_massless_attraction(
            calculator.g as int,
            calculator.eps as int,
            bodies[target as int],
            bodies[id as int].pos,
        );
    }
}

/// The distance between two places, in parts of a lattice step and rounded
/// down, is positive.
proof fn lemma_scaled_distance_is_positive(r_squared: int)
    requires
        r_squared >= 1,
    ensures
        floor_sqrt(r_squared * (DIRECTION_SCALE * DIRECTION_SCALE)) > 0,
{
    assert(r_squared * (DIRECTION_SCALE * DIRECTION_SCALE) > 0) by (nonlinear_arith)
        requires
            r_squared >= 1,
            DIRECTION_SCALE == 65536,
    ;
    lemma_floor_sqrt(r_squared * (DIRECTION_SCALE * DIRECTION_SCALE));
}

/// A point without mass pulls nothing.
proof fn lemma_massless_attraction(g: int, eps: int, target: Body, source_pos: Point)
    requires
        eps > 0,
    ensures
        attraction(g, eps, target, 0, source_pos) == (0int, 0int),
{
    let r_squared = distance_squared(source_pos, target.pos);
    assert(r_squared >= 0) by (nonlinear_arith)
        requires
            r_squared == distance_squared(source_pos, target.pos),
    ;
    assert(eps * eps >= 1) by (nonlinear_arith)
        requires
            eps >= 1,
    ;
    if r_squared >= eps * eps {
        assert(0int / (r_squared + eps) == 0);
        lemma_scaled_distance_is_positive(r_squared);
        vstd::arithmetic::div_mod::lemma_div_basics(
            floor_sqrt(r_squared * (DIRECTION_SCALE * DIRECTION_SCALE)),
        );
    }
}

/// The induction behind `lemma_small_theta_is_exact`.
proof fn lemma_small_theta_opens_every_node(
    calculator: BarnesHutForceCalculator,
    node: QuadNode,
    bounds: Bounds,
    cap: nat,
    bodies: Seq<Body>,
    target: usize,
    low: Point,
    high: Point,
)
    requires
        calculator.eps > 0,
        node.in_range(bodies.len()),
        node.well_formed(bounds, bodies, cap),
        node.aggregated(bodies),
        target < bodies.len(),
        all_within(bodies, low, high),
        calculator.theta.num * calculator.theta.num * distance_squared(low, high)
            <= calculator.theta.den * calculator.theta.den,
    ensures
        calculator.node_force(node, bounds, target, bodies) == (
            node.sum(calculator.pair_x(bodies, target)),
            node.sum(calculator.pair_y(bodies, target)),
        ),
    decreases node,
{
    match node {
        QuadNode::Leaf { .. } => {},
        QuadNode::Internal {
            upper_left,
            upper_right,
            lower_left,
            lower_right,
            center_of_mass,
            total_mass,
        } => {
            if total_mass == 0 {
                lemma_massless_source(calculator, bodies, target);
                lemma_sum_vanishes(node, calculator.pair_x(bodies, target), mass_of(bodies));
                lemma_sum_vanishes(node, calculator.pair_y(bodies, target), mass_of(bodies));
            } else {
                lemma_center_within(node, bodies, low, high);
                lemma_near_node_is_opened(
                    calculator,
                    bodies[target as int].pos,
                    center_of_mass,
                    node_width(bounds),
                    low,
                    high,
                );
                lemma_small_theta_opens_every_node(
                    calculator,
                    *upper_left,
                    child_bounds_of(bounds, 0),
                    cap,
                    bodies,
                    target,
                    low,
                    high,
                );
                lemma_small_theta_opens_every_node(
                    calculator,
                    *upper_right,
                    child_bounds_of(bounds, 1),
                    cap,
                    bodies,
                    target,
                    low,
                    high,
                );
                lemma_small_theta_opens_every_node(
                    calculator,
                    *lower_left,
                    child_bounds_of(bounds, 2),
                    cap,
                    bodies,
                    target,
                    low,
                    high,
                );
                lemma_small_theta_opens_every_node(
                    calculator,
                    *lower_right,
                    child_bounds_of(bounds, 3),
                    cap,
                    bodies,
                    target,
                    low,
                    high,
                );
            }
        },
    }
}

/// The center of mass of an aggregated internal node with mass lies in every
/// rectangle that holds all bodies.
pub proof fn lemma_center_within(node: QuadNode, bodies: Seq<Body>, low: Point, high: Point)
    requires
        node is Internal,
        node.in_range(bodies.len()),
        node.aggregated(bodies),
        node->total_mass > 0,
        all_within(bodies, low, high),
    ensures
        low.x <= node->center_of_mass.x <= high.x,
        low.y <= node->center_of_mass.y <= high.y,
{
    let mass = node.sum(mass_of(bodies));
    assert forall|id: usize| id < bodies.len() implies low.x * mass_of(bodies)(id)
        <= #[trigger] moment_x_of(bodies)(id) <= high.x * mass_of(bodies)(id) by {
        let m = bodies[id as int].mass as int;
        let x = bodies[id as int].pos.x as int;
        assert(low.x * m <= m * x <= high.x * m) by (nonlinear_arith)
            requires
                0 <= m,
                low.x <= x <= high.x,
        ;
    }
    assert forall|id: usize| id < bodies.len() implies low.y * mass_of(bodies)(id)
        <= #[trigger] moment_y_of(bodies)(id) <= high.y * mass_of(bodies)(id) by {
        let m = bodies[id as int].mass as int;
        let y = bodies[id as int].pos.y as int;
        assert(low.y * m <= m * y <= high.y * m) by (nonlinear_arith)
            requires
                0 <= m,
                low.y <= y <= high.y,
        ;
    }
    lemma_sum_weighted(
        node,
        bodies.len(),
        moment_x_of(bodies),
        mass_of(bodies),
        low.x as int,
        high.x as int,
    );
    lemma_sum_weighted(
        node,
        bodies.len(),
        moment_y_of(bodies),
        mass_of(bodies),
        low.y as int,
        high.y as int,
    );
    lemma_mean_between(node.sum(moment_x_of(bodies)), mass, low.x as int, high.x as int);
    lemma_mean_between(node.sum(moment_y_of(bodies)), mass, low.y as int, high.y as int);
}

/// A weighted mean, rounded down, lies between the bounds of what it
/// averages.
proof fn lemma_mean_between(weighted: int, total: int, lo: int, hi: int)
    requires
        total > 0,
        lo * total <= weighted <= hi * total,
    ensures
        lo <= weighted / total <= hi,
{
    vstd::arithmetic::div_mod::lemma_fundamental_div_mod(weighted, total);
    vstd::arithmetic::div_mod::lemma_mod_bound(weighted, total);
    let q = weighted / total;
    let r = weighted % total;
    assert(lo <= q <= hi) by (nonlinear_arith)
        requires
            total > 0,
            weighted == total * q + r,
            0 <= r < total,
            lo * total <= weighted <= hi * total,
    ;
}

/// A node whose longer side is at least one lattice step is not accepted for
/// a body where both the body and the node's center lie in a rectangle with
/// diagonal `d` and `theta` is at most `1 / d`.
proof fn lemma_near_node_is_opened(
    calculator: BarnesHutForceCalculator,
    body_pos: Point,
    node_center: Point,
    side: int,
    low: Point,
    high: Point,
)
    requires
        side >= ONE,
        low.x <= body_pos.x <= high.x,
        low.y <= body_pos.y <= high.y,
        low.x <= node_center.x <= high.x,
        low.y <= node_center.y <= high.y,
        calculator.theta.num * calculator.theta.num * distance_squared(low, high)
            <= calculator.theta.den * calculator.theta.den,
    ensures
        !calculator.accepts(body_pos, node_center, side),
{
    let num_squared = calculator.theta.num * calculator.theta.num;
    let den_squared = calculator.theta.den * calculator.theta.den;
    let d_squared = distance_squared(body_pos, node_center);
    let diagonal_squared = distance_squared(low, high);
    assert(0 <= d_squared <= diagonal_squared) by (nonlinear_arith)
        requires
            d_squared == (body_pos.x - node_center.x) * (body_pos.x - node_center.x) + (body_pos.y
                - node_center.y) * (body_pos.y - node_center.y),
            diagonal_squared == (low.x - high.x) * (low.x - high.x) + (low.y - high.y) * (low.y
                - high.y),
            low.x <= body_pos.x <= high.x,
            low.y <= body_pos.y <= high.y,
            low.x <= node_center.x <= high.x,
            low.y <= node_center.y <= high.y,
    ;
    let den = calculator.theta.den as int;
    assert(num_squared * d_squared * (ONE * ONE) <= (den * side) * (den * side))
        by (nonlinear_arith)
        requires
            0 <= num_squared,
            den_squared == den * den,
            0 <= d_squared <= diagonal_squared,
            num_squared * diagonal_squared <= den_squared,
            side >= ONE,
            ONE > 0,
    ;
}

/// The finished tree is determined by the bodies, the bounds and the leaf
/// capacity: any two finished trees of the same bodies over the same bounds
/// with the same capacity are the same tree.
pub proof fn lemma_finished_tree_is_unique(a: Quadtree, b: Quadtree, bodies: Seq<Body>)
    requires
        a.built_for(bodies),
        b.built_for(bodies),
        a.spec_bounds() == b.spec_bounds(),
        a.capacity() == b.capacity(),
    ensures
        same_tree(a.spec_root(), b.spec_root()),
{
    let x = a.spec_root();
    let y = b.spec_root();
    assert(x.indices() =~= y.indices()) by {
        assert forall|id: usize| x.indices().count(id) == y.indices().count(id) by {
            assert(x.indices().count(id) == (if id < bodies.len() {
                1nat
            } else {
                0nat
            }));
        }
    }
    lemma_same_content_same_tree(x, y, a.spec_bounds(), bodies, a.capacity());
}

/// Two subtrees that are the same tree sum to the same.
pub proof fn lemma_same_tree_same_sum(a: QuadNode, b: QuadNode, f: spec_fn(usize) -> int)
    requires
        same_tree(a, b),
    ensures
        a.sum(f) == b.sum(f),
    decreases a,
{
    match a {
        QuadNode::Leaf { .. } => {},
        QuadNode::Internal { upper_left, upper_right, lower_left, lower_right, .. } => {
            lemma_same_tree_same_sum(*upper_left, *b->upper_left, f);
            lemma_same_tree_same_sum(*upper_right, *b->upper_right, f);
            lemma_same_tree_same_sum(*lower_left, *b->lower_left, f);
            lemma_same_tree_same_sum(*lower_right, *b->lower_right, f);
        },
    }
}

/// Two internal nodes whose children are the same trees sum to the same.
proof fn lemma_same_children_same_sum(a: QuadNode, b: QuadNode, f: spec_fn(usize) -> int)
    requires
        a is Internal,
        b is Internal,
        same_tree(a.child(0), b.child(0)),
        same_tree(a.child(1), b.child(1)),
        same_tree(a.child(2), b.child(2)),
        same_tree(a.child(3), b.child(3)),
    ensures
        a.sum(f) == b.sum(f),
{
    lemma_same_tree_same_sum(a.child(0), b.child(0), f);
    lemma_same_tree_same_sum(a.child(1), b.child(1), f);
    lemma_same_tree_same_sum(a.child(2), b.child(2), f);
    lemma_same_tree_same_sum(a.child(3), b.child(3), f);
}

/// The order of indices is a total order.
proof fn lemma_index_order_is_total()
    ensures
        total_ordering(|x: usize, y: usize| x <= y),
{
}

/// How often a child of a well-formed internal node holds an index: as
/// often as the node does where the index is routed to the child's quadrant,
/// and never else.
proof fn lemma_child_count(node: QuadNode, bounds: Bounds, bodies: Seq<Body>, cap: nat, id: usize)
    requires
        node is Internal,
        node.children_well_formed(bounds, bodies, cap),
    ensures
        forall|quadrant: int|
            0 <= quadrant < 4 ==> #[trigger] node.child(quadrant).indices().count(id) == (if id
                < bodies.len() && quadrant_of(bodies[id as int].pos, bounds) == quadrant {
                node.indices().count(id)
            } else {
                0nat
            }),
{
    let a = node.child(0).indices();
    let b = node.child(1).indices();
    let c = node.child(2).indices();
    let d = node.child(3).indices();
    assert(!a.contains(id) ==> a.count(id) == 0);
    assert(!b.contains(id) ==> b.count(id) == 0);
    assert(!c.contains(id) ==> c.count(id) == 0);
    assert(!d.contains(id) ==> d.count(id) == 0);
}

/// The induction behind `lemma_finished_tree_is_unique`.
proof fn lemma_same_content_same_tree(
    a: QuadNode,
    b: QuadNode,
    bounds: Bounds,
    bodies: Seq<Body>,
    cap: nat,
)
    requires
        a.well_formed(bounds, bodies, cap),
        b.well_formed(bounds, bodies, cap),
        a.indices() == b.indices(),
        a.leaves_ascending(),
        b.leaves_ascending(),
        a.aggregated(bodies),
        b.aggregated(bodies),
        a.massless_at_origin(),
        b.massless_at_origin(),
    ensures
        same_tree(a, b),
    decreases a,
{
    match a {
        QuadNode::Leaf { body_indices } => {
            vstd::seq_lib::to_multiset_len(body_indices@);
            if b is Leaf {
                lemma_index_order_is_total();
                let leq = |x: usize, y: usize| x <= y;
                vstd::seq_lib::lemma_sorted_unique(body_indices@, b->body_indices@, leq);
            }
        },
        QuadNode::Internal { upper_left, upper_right, lower_left, lower_right, .. } => {
            if b is Leaf {
                vstd::seq_lib::to_multiset_len(b->body_indices@);
            } else {
                assert forall|quadrant: int| 0 <= quadrant < 4 implies #[trigger] a.child(
                    quadrant,
                ).indices() == b.child(quadrant).indices() by {
                    assert forall|id: usize|
                        a.child(quadrant).indices().count(id) == b.child(quadrant).indices().count(
                            id,
                        ) by {
                        lemma_child_count(a, bounds, bodies, cap, id);
                        lemma_child_count(b, bounds, bodies, cap, id);
                    }
                }
                assert(a.child(0).indices() == b.child(0).indices());
                assert(a.child(1).indices() == b.child(1).indices());
                assert(a.child(2).indices() == b.child(2).indices());
                assert(a.child(3).indices() == b.child(3).indices());
                lemma_same_content_same_tree(
                    *upper_left,
                    *b->upper_left,
                    child_bounds_of(bounds, 0),
                    bodies,
                    cap,
                );
                lemma_same_content_same_tree(
                    *upper_right,
                    *b->upper_right,
                    child_bounds_of(bounds, 1),
                    bodies,
                    cap,
                );
                lemma_same_content_same_tree(
                    *lower_left,
                    *b->lower_left,
                    child_bounds_of(bounds, 2),
                    bodies,
                    cap,
                );
                lemma_same_content_same_tree(
                    *lower_right,
                    *b->lower_right,
                    child_bounds_of(bounds, 3),
                    bodies,
                    cap,
                );
                lemma_same_children_same_sum(a, b, mass_of(bodies));
                lemma_same_children_same_sum(a, b, moment_x_of(bodies));
                lemma_same_children_same_sum(a, b, moment_y_of(bodies));
            }
        },
    }
}

/// Two subtrees that are the same tree give the same force.
pub proof fn lemma_same_tree_same_force(
    calculator: BarnesHutForceCalculator,
    a: QuadNode,
    b: QuadNode,
    bounds: Bounds,
    target: usize,
    bodies: Seq<Body>,
)
    requires
        same_tree(a, b),
    ensures
        calculator.node_force(a, bounds, target, bodies) == calculator.node_force(
            b,
            bounds,
            target,
            bodies,
        ),
    decreases a,
{
    match a {
        QuadNode::Leaf { .. } => {},
        QuadNode::Internal { upper_left, upper_right, lower_left, lower_right, .. } => {
            lemma_same_tree_same_force(
                calculator,
                *upper_left,
                *b->upper_left,
                child_bounds_of(bounds, 0),
                target,
                bodies,
            );
            lemma_same_tree_same_force(
                calculator,
                *upper_right,
                *b->upper_right,
                child_bounds_of(bounds, 1),
                target,
                bodies,
            );
            lemma_same_tree_same_force(
                calculator,
                *lower_left,
                *b->lower_left,
                child_bounds_of(bounds, 2),
                target,
                bodies,
            );
            lemma_same_tree_same_force(
                calculator,
                *lower_right,
                *b->lower_right,
                child_bounds_of(bounds, 3),
                target,
                bodies,
            );
        },
    }
}

/// The forces are determined by the bodies, the bounds, the leaf capacity
/// and the calculator: any two finished trees of the same bodies over the
/// same bounds with the same capacity give the same force on every body.
pub proof fn lemma_forces_are_determined(
    calculator: BarnesHutForceCalculator,
    a: Quadtree,
    b: Quadtree,
    bodies: Seq<Body>,
    target: usize,
)
    requires
        a.built_for(bodies),
        b.built_for(bodies),
        a.spec_bounds() == b.spec_bounds(),
        a.capacity() == b.capacity(),
    ensures
        calculator.force_on(a, target, bodies) == calculator.force_on(b, target, bodies),
{
    lemma_finished_tree_is_unique(a, b, bodies);
    lemma_same_tree_same_force(
        calculator,
        a.spec_root(),
        b.spec_root(),
        a.spec_bounds(),
        target,
        bodies,
    );
}

/// Where `f` vanishes on every index that a subtree holds but `source`, the
/// sum of `f` over the subtree is the term of `source` as often as the
/// subtree holds `source`.
pub proof fn lemma_sum_supported(node: QuadNode, f: spec_fn(usize) -> int, source: usize)
    requires
        forall|id: usize| node.indices().contains(id) && id != source ==> #[trigger] f(id) == 0,
    ensures
        node.sum(f) == node.indices().count(source) * f(source),
    decreases node,
{
    match node {
        QuadNode::Leaf { body_indices } => {
            assert forall|k: int|
                0 <= k < body_indices@.len() && body_indices@[k] != source implies #[trigger] f(
                body_indices@[k],
            ) == 0 by {
                vstd::seq_lib::to_multiset_contains(body_indices@, body_indices@[k]);
            }
            lemma_seq_sum_supported(body_indices@, f, source);
        },
        QuadNode::Internal { upper_left, upper_right, lower_left, lower_right, .. } => {
            lemma_sum_supported(*upper_left, f, source);
            lemma_sum_supported(*upper_right, f, source);
            lemma_sum_supported(*lower_left, f, source);
            lemma_sum_supported(*lower_right, f, source);
            let a = upper_left.indices().count(source) as int;
            let b = upper_right.indices().count(source) as int;
            let c = lower_left.indices().count(source) as int;
            let d = lower_right.indices().count(source) as int;
            let v = f(source);
            assert((a + b + c + d) * v == a * v + b * v + c * v + d * v) by (nonlinear_arith);
        },
    }
}

/// An aggregate is exact for a single point mass: where only one of the
/// bodies below an aggregated internal node has mass, the node carries that
/// body's mass at that body's position, and pulls any other body exactly as
/// the bodies below it do together.
pub proof fn lemma_lone_mass_is_matched_by_the_aggregate(
    calculator: BarnesHutForceCalculator,
    node: QuadNode,
    bodies: Seq<Body>,
    target: usize,
    source: usize,
)
    requires
        calculator.eps > 0,
        target < bodies.len(),
        source < bodies.len(),
        node is Internal,
        node.in_range(bodies.len()),
        node.aggregated(bodies),
        node.indices().count(source) == 1,
        forall|id: usize|
            node.indices().contains(id) && id != source ==> (#[trigger] bodies[id as int]).mass
                == 0,
        bodies[source as int].mass > 0,
        target != source,
    ensures
        node->total_mass == bodies[source as int].mass,
        node->center_of_mass == bodies[source as int].pos,
        attraction(
            calculator.g as int,
            calculator.eps as int,
            bodies[target as int],
            node->total_mass as int,
            node->center_of_mass,
        ) == (
            node.sum(calculator.pair_x(bodies, target)),
            node.sum(calculator.pair_y(bodies, target)),
        ),
{
    let mass = bodies[source as int].mass as int;
    let pos = bodies[source as int].pos;
    assert forall|id: usize| node.indices().contains(id) && id != source implies #[trigger] mass_of(
        bodies,
    )(id) == 0 by {
        assert(bodies[id as int].mass == 0);
    }
    assert forall|id: usize|
        node.indices().contains(id) && id != source implies #[trigger] moment_x_of(bodies)(id)
        == 0 by {
        assert(bodies[id as int].mass == 0);
    }
    assert forall|id: usize|
        node.indices().contains(id) && id != source implies #[trigger] moment_y_of(bodies)(id)
        == 0 by {
        assert(bodies[id as int].mass == 0);
    }
    lemma_massless_source(calculator, bodies, target);
    assert forall|id: usize|
        node.indices().contains(id) && id != source implies #[trigger] calculator.pair_x(
        bodies,
        target,
    )(id) == 0 by {
        assert(bodies[id as int].mass == 0);
        assert(mass_of(bodies)(id) == 0);
    }
    assert forall|id: usize|
        node.indices().contains(id) && id != source implies #[trigger] calculator.pair_y(
        bodies,
        target,
    )(id) == 0 by {
        assert(bodies[id as int].mass == 0);
        assert(mass_of(bodies)(id) == 0);
    }
    lemma_sum_supported(node, mass_of(bodies), source);
    lemma_sum_supported(node, moment_x_of(bodies), source);
    lemma_sum_supported(node, moment_y_of(bodies), source);
    lemma_sum_supported(node, calculator.pair_x(bodies, target), source);
    lemma_sum_supported(node, calculator.pair_y(bodies, target), source);
    vstd::arithmetic::div_mod::lemma_div_multiples_vanish(pos.x as int, mass);
    vstd::arithmetic::div_mod::lemma_div_multiples_vanish(pos.y as int, mass);
}

/// A component turns with the separation that it is taken along.
proof fn lemma_along_is_odd(magnitude: int, component: int, dist: int)
    requires
        dist != 0,
    ensures
        along(magnitude, -component, dist) == -along(magnitude, component, dist),
{
    if component == 0 {
        assert(magnitude * 0 == 0);
        vstd::arithmetic::div_mod::lemma_div_basics(dist);
    }
}

/// Two bodies pull each other with opposite forces of the same size.
pub proof fn lemma_attraction_is_mutual(g: int, eps: int, a: Body, b: Body)
    requires
        eps > 0,
    ensures
        attraction(g, eps, a, b.mass as int, b.pos).0 == -attraction(g, eps, b, a.mass as int, a.pos).0,
        attraction(g, eps, a, b.mass as int, b.pos).1 == -attraction(g, eps, b, a.mass as int, a.pos).1,
{
    let r_squared = distance_squared(b.pos, a.pos);
    assert(r_squared == distance_squared(a.pos, b.pos) && r_squared >= 0) by (nonlinear_arith)
        requires
            r_squared == (b.pos.x - a.pos.x) * (b.pos.x - a.pos.x) + (b.pos.y - a.pos.y) * (b.pos.y
                - a.pos.y),
            distance_squared(a.pos, b.pos) == (a.pos.x - b.pos.x) * (a.pos.x - b.pos.x) + (a.pos.y
                - b.pos.y) * (a.pos.y - b.pos.y),
    ;
    assert(g * a.mass * b.mass == g * b.mass * a.mass) by (nonlinear_arith);
    assert(eps * eps >= 1) by (nonlinear_arith)
        requires
            eps >= 1,
    ;
    if r_squared >= eps * eps {
        lemma_scaled_distance_is_positive(r_squared);
        vstd::arithmetic::div_mod::lemma_div_basics(
            floor_sqrt(r_squared * (DIRECTION_SCALE * DIRECTION_SCALE)),
        );
        let dist = floor_sqrt(r_squared * (DIRECTION_SCALE * DIRECTION_SCALE));
        let magnitude = (g * a.mass * b.mass) / (r_squared + eps);
        let across = (b.pos.x - a.pos.x) * DIRECTION_SCALE;
        let upward = (b.pos.y - a.pos.y) * DIRECTION_SCALE;
        assert((a.pos.x - b.pos.x) * DIRECTION_SCALE == -across) by (nonlinear_arith)
            requires
                across == (b.pos.x - a.pos.x) * DIRECTION_SCALE,
        ;
        assert((a.pos.y - b.pos.y) * DIRECTION_SCALE == -upward) by (nonlinear_arith)
            requires
                upward == (b.pos.y - a.pos.y) * DIRECTION_SCALE,
        ;
        lemma_along_is_odd(magnitude, across, dist);
        lemma_along_is_odd(magnitude, upward, dist);
    }
}

/// Whether `pos` lies in the rectangle `bounds`, its edges counted in.
pub open spec fn within(pos: Point, bounds: Bounds) -> bool {
    bounds.0 <= pos.x * ONE <= bounds.1 && bounds.2 <= pos.y * ONE <= bounds.3
}

/// Routing and splitting follow one convention: a point of a rectangle lies
/// in the rectangle of the quadrant that it is routed to.
pub proof fn lemma_quadrant_holds_its_points(pos: Point, bounds: Bounds)
    requires
        within(pos, bounds),
    ensures
        within(pos, child_bounds_of(bounds, quadrant_of(pos, bounds))),
{
}

/// Whether every leaf below `node` lies over a rectangle that holds the
/// positions of all its bodies, where `node` lies over `bounds`.
pub open spec fn leaves_cover_their_bodies(node: QuadNode, bounds: Bounds, bodies: Seq<Body>) -> bool
    decreases node,
{
    match node {
        QuadNode::Leaf { body_indices } => forall|k: int|
            0 <= k < body_indices@.len() ==> within(
                bodies[(#[trigger] body_indices@[k]) as int].pos,
                bounds,
            ),
        QuadNode::Internal { upper_left, upper_right, lower_left, lower_right, .. } => {
            &&& leaves_cover_their_bodies(*upper_left, child_bounds_of(bounds, 0), bodies)
            &&& leaves_cover_their_bodies(*upper_right, child_bounds_of(bounds, 1), bodies)
            &&& leaves_cover_their_bodies(*lower_left, child_bounds_of(bounds, 2), bodies)
            &&& leaves_cover_their_bodies(*lower_right, child_bounds_of(bounds, 3), bodies)
        },
    }
}

/// In a finished tree whose bounds hold all bodies, every body is held by a
/// leaf whose rectangle holds the body's position.
pub proof fn lemma_bodies_within_bounds_are_covered(tree: Quadtree, bodies: Seq<Body>)
    requires
        tree.built_for(bodies),
        forall|i: int| 0 <= i < bodies.len() ==> within((#[trigger] bodies[i]).pos, tree.spec_bounds()),
    ensures
        leaves_cover_their_bodies(tree.spec_root(), tree.spec_bounds(), bodies),
{
    let root = tree.spec_root();
    assert forall|id: usize| #[trigger] root.indices().contains(id) implies id < bodies.len()
        && within(bodies[id as int].pos, tree.spec_bounds()) by {
        assert(root.indices().count(id) == (if id < bodies.len() {
            1nat
        } else {
            0nat
        }));
    }
    lemma_well_formed_subtree_covers(root, tree.spec_bounds(), bodies, tree.capacity());
}

/// The induction behind `lemma_bodies_within_bounds_are_covered`.
proof fn lemma_well_formed_subtree_covers(node: QuadNode, bounds: Bounds, bodies: Seq<Body>, cap: nat)
    requires
        node.well_formed(bounds, bodies, cap),
        forall|id: usize| #[trigger]
            node.indices().contains(id) ==> id < bodies.len() && within(
                bodies[id as int].pos,
                bounds,
            ),
    ensures
        leaves_cover_their_bodies(node, bounds, bodies),
    decreases node,
{
    match node {
        QuadNode::Leaf { body_indices } => {
            assert forall|k: int| 0 <= k < body_indices@.len() implies within(
                bodies[(#[trigger] body_indices@[k]) as int].pos,
                bounds,
            ) by {
                vstd::seq_lib::to_multiset_contains(body_indices@, body_indices@[k]);
                assert(node.indices().contains(body_indices@[k]));
            }
        },
        QuadNode::Internal { upper_left, upper_right, lower_left, lower_right, .. } => {
            assert forall|quadrant: int, id: usize|
                0 <= quadrant < 4 && #[trigger] node.child(quadrant).indices().contains(
                    id,
                ) implies id < bodies.len() && within(
                bodies[id as int].pos,
                child_bounds_of(bounds, quadrant),
            ) by {
                assert(node.indices().contains(id));
                lemma_quadrant_holds_its_points(bodies[id as int].pos, bounds);
            }
            assert(node.child(0) == *upper_left && node.child(1) == *upper_right && node.child(2)
                == *lower_left && node.child(3) == *lower_right);
            lemma_well_formed_subtree_covers(*upper_left, child_bounds_of(bounds, 0), bodies, cap);
            lemma_well_formed_subtree_covers(*upper_right, child_bounds_of(bounds, 1), bodies, cap);
            lemma_well_formed_subtree_covers(*lower_left, child_bounds_of(bounds, 2), bodies, cap);
            lemma_well_formed_subtree_covers(*lower_right, child_bounds_of(bounds, 3), bodies, cap);
        },
    }
}

/// Splitting ends: a subtree of the prescribed shape is no deeper than the
/// sum of the sides of its rectangle, in the steps that rectangles are held
/// in, whatever bodies it holds and however many of them lie at one place.
pub proof fn lemma_depth_is_bounded(node: QuadNode, bounds: Bounds, bodies: Seq<Body>, cap: nat)
    requires
        node.well_formed(bounds, bodies, cap),
    ensures
        node.depth() <= extent(bounds),
    decreases node,
{
    match node {
        QuadNode::Leaf { .. } => {},
        QuadNode::Internal { upper_left, upper_right, lower_left, lower_right, .. } => {
            lemma_child_extent(bounds, 0);
            lemma_child_extent(bounds, 1);
            lemma_child_extent(bounds, 2);
            lemma_child_extent(bounds, 3);
            lemma_depth_is_bounded(*upper_left, child_bounds_of(bounds, 0), bodies, cap);
            lemma_depth_is_bounded(*upper_right, child_bounds_of(bounds, 1), bodies, cap);
            lemma_depth_is_bounded(*lower_left, child_bounds_of(bounds, 2), bodies, cap);
            lemma_depth_is_bounded(*lower_right, child_bounds_of(bounds, 3), bodies, cap);
        },
    }
}

/// The components follow the law closely. Let `v` be the size of the
/// component that is taken along an axis for the magnitude `magnitude`, the
/// separation `c` along that axis and the squared distance `r_squared`, and
/// let `e` be what the law gives, `magnitude * |c| / r`. Then `e` is below
/// `v + 1`, and `v` is at most `e * (1 + 1 / dist)`, where `dist`, the
/// distance in parts of a lattice step, is at least `DIRECTION_SCALE`.
pub proof fn lemma_component_is_near_the_law(magnitude: int, c: int, r_squared: int)
    requires
        0 <= magnitude,
        1 <= r_squared,
        c * c <= r_squared,
    ensures
        ({
            let scale = DIRECTION_SCALE as int;
            let dist = floor_sqrt(r_squared * (DIRECTION_SCALE * DIRECTION_SCALE));
            let v = if c >= 0 {
                along(magnitude, c * DIRECTION_SCALE, dist)
            } else {
                -along(magnitude, c * DIRECTION_SCALE, dist)
            };
            &&& 0 <= v <= magnitude
            &&& dist >= scale
            &&& (magnitude * magnitude) * (c * c) < ((v + 1) * (v + 1)) * r_squared
            &&& (v * dist) * (v * dist) <= (magnitude * magnitude) * (c * c) * (scale * scale)
            &&& r_squared * (scale * scale) < (dist + 1) * (dist + 1)
        }),
{
    let scale = DIRECTION_SCALE as int;
    let n = r_squared * (DIRECTION_SCALE * DIRECTION_SCALE);
    assert(n == r_squared * (scale * scale));
    assert(n >= scale * scale) by (nonlinear_arith)
        requires
            n == r_squared * (scale * scale),
            r_squared >= 1,
    ;
    lemma_floor_sqrt(n);
    let dist = floor_sqrt(n);
    assert(dist >= scale) by (nonlinear_arith)
        requires
            n >= scale * scale,
            n < (dist + 1) * (dist + 1),
            0 <= dist,
            0 < scale,
    ;
    let size = if c >= 0 {
        c
    } else {
        -c
    };
    let part = size * scale;
    assert(part * part <= n && part >= 0) by (nonlinear_arith)
        requires
            part == size * scale,
            size == c || size == -c,
            size >= 0,
            c * c <= r_squared,
            n == r_squared * (scale * scale),
            scale > 0,
    ;
    assert(part <= dist) by (nonlinear_arith)
        requires
            part * part <= n,
            n < (dist + 1) * (dist + 1),
            0 <= part,
            0 <= dist,
    ;
    let whole = magnitude * part;
    let v = whole / dist;
    assert(whole >= 0) by (nonlinear_arith)
        requires
            whole == magnitude * part,
            magnitude >= 0,
            part >= 0,
    ;
    vstd::arithmetic::div_mod::lemma_fundamental_div_mod(whole, dist);
    vstd::arithmetic::div_mod::lemma_mod_bound(whole, dist);
    let rest = whole % dist;
    assert(0 <= v <= magnitude) by (nonlinear_arith)
        requires
            whole == dist * v + rest,
            0 <= rest < dist,
            whole == magnitude * part,
            0 <= part <= dist,
            0 <= magnitude,
    ;
    assert(c >= 0 ==> c * DIRECTION_SCALE == part);
    assert(c < 0 ==> -(c * DIRECTION_SCALE) == part);
    assert((v * dist) * (v * dist) <= whole * whole && whole * whole < ((v + 1) * dist) * ((v + 1)
        * dist)) by (nonlinear_arith)
        requires
            whole == dist * v + rest,
            0 <= rest < dist,
            0 <= v,
    ;
    assert(whole * whole == (magnitude * magnitude) * (c * c) * (scale * scale))
        by (nonlinear_arith)
        requires
            whole == magnitude * part,
            part == size * scale,
            size == c || size == -c,
    ;
    assert((magnitude * magnitude) * (c * c) < ((v + 1) * (v + 1)) * r_squared)
        by (nonlinear_arith)
        requires
            (magnitude * magnitude) * (c * c) * (scale * scale) < ((v + 1) * dist) * ((v + 1)
                * dist),
            dist * dist <= r_squared * (scale * scale),
            0 <= v,
            0 <= dist,
            0 < scale,
    ;
}

/// Two to the power of `level`.
pub open spec fn grain(level: nat) -> int
    decreases level,
{
    if level == 0 {
        1
    } else {
        2 * grain((level - 1) as nat)
    }
}

/// Whether the corners of `bounds` lie on the grid of `grain(level)` steps
/// and its sides are shorter than that many lattice steps: `level` is how
/// often the rectangle can still be halved exactly.
pub open spec fn on_grid(bounds: Bounds, level: nat) -> bool {
    &&& (bounds.0 as int) % grain(level) == 0
    &&& (bounds.1 as int) % grain(level) == 0
    &&& (bounds.2 as int) % grain(level) == 0
    &&& (bounds.3 as int) % grain(level) == 0
    &&& width(bounds) < ONE * grain(level)
    &&& height(bounds) < ONE * grain(level)
}

/// Whether each internal node below and including `node`, where `node` lies
/// over `bounds`, lies over a rectangle whose midpoints are exact.
pub open spec fn halved_exactly(node: QuadNode, bounds: Bounds) -> bool
    decreases node,
{
    match node {
        QuadNode::Leaf { .. } => true,
        QuadNode::Internal { upper_left, upper_right, lower_left, lower_right, .. } => {
            &&& 2 * midpoint(bounds.0, bounds.1) == bounds.0 + bounds.1
            &&& 2 * midpoint(bounds.2, bounds.3) == bounds.2 + bounds.3
            &&& halved_exactly(*upper_left, child_bounds_of(bounds, 0))
            &&& halved_exactly(*upper_right, child_bounds_of(bounds, 1))
            &&& halved_exactly(*lower_left, child_bounds_of(bounds, 2))
            &&& halved_exactly(*lower_right, child_bounds_of(bounds, 3))
        },
    }
}

/// A rectangle on a grid that can be split is halved exactly, and its
/// quadrants lie on the grid of half the grain.
pub proof fn lemma_grid_is_halved(bounds: Bounds, level: nat, quadrant: int)
    requires
        on_grid(bounds, level),
        can_split(bounds),
    ensures
        level >= 1,
        2 * midpoint(bounds.0, bounds.1) == bounds.0 + bounds.1,
        2 * midpoint(bounds.2, bounds.3) == bounds.2 + bounds.3,
        on_grid(child_bounds_of(bounds, quadrant), (level - 1) as nat),
{
    lemma_grain_is_positive(level);
    if level == 0 {
        assert(false);
    }
    let half = grain((level - 1) as nat);
    lemma_grain_is_positive((level - 1) as nat);
    lemma_halved(bounds.0 as int, bounds.1 as int, half);
    lemma_halved(bounds.2 as int, bounds.3 as int, half);
}

/// Two multiples of `2 * half` have a sum that is halved exactly, and their
/// mean is a multiple of `half`, as they are themselves.
proof fn lemma_halved(lo: int, hi: int, half: int)
    requires
        half >= 1,
        lo % (2 * half) == 0,
        hi % (2 * half) == 0,
    ensures
        2 * ((lo + hi) / 2) == lo + hi,
        ((lo + hi) / 2) % half == 0,
        lo % half == 0,
        hi % half == 0,
{
    vstd::arithmetic::div_mod::lemma_fundamental_div_mod(lo, 2 * half);
    vstd::arithmetic::div_mod::lemma_fundamental_div_mod(hi, 2 * half);
    let a = lo / (2 * half);
    let b = hi / (2 * half);
    assert(lo == half * (2 * a) && hi == half * (2 * b) && lo + hi == 2 * (half * (a + b)))
        by (nonlinear_arith)
        requires
            lo == (2 * half) * a,
            hi == (2 * half) * b,
    ;
    assert((lo + hi) / 2 == half * (a + b));
    assert(lo == (2 * a) * half + 0 && hi == (2 * b) * half + 0 && half * (a + b) == (a + b) * half
        + 0) by (nonlinear_arith)
        requires
            lo == half * (2 * a),
            hi == half * (2 * b),
    ;
    vstd::arithmetic::div_mod::lemma_fundamental_div_mod_converse(lo, half, 2 * a, 0);
    vstd::arithmetic::div_mod::lemma_fundamental_div_mod_converse(hi, half, 2 * b, 0);
    vstd::arithmetic::div_mod::lemma_fundamental_div_mod_converse(
        half * (a + b),
        half,
        a + b,
        0,
    );
}

/// A power of two is positive.
proof fn lemma_grain_is_positive(level: nat)
    ensures
        grain(level) >= 1,
    decreases level,
{
    if level > 0 {
        lemma_grain_is_positive((level - 1) as nat);
    }
}

/// A subtree of the prescribed shape over a rectangle on a grid splits every
/// rectangle exactly in the middle and is no deeper than the rectangle can
/// be halved.
pub proof fn lemma_tree_on_grid_is_halved_exactly(
    node: QuadNode,
    bounds: Bounds,
    level: nat,
    bodies: Seq<Body>,
    cap: nat,
)
    requires
        node.well_formed(bounds, bodies, cap),
        on_grid(bounds, level),
    ensures
        halved_exactly(node, bounds),
        node.depth() <= level,
    decreases node,
{
    match node {
        QuadNode::Leaf { .. } => {},
        QuadNode::Internal { upper_left, upper_right, lower_left, lower_right, .. } => {
            lemma_grid_is_halved(bounds, level, 0);
            lemma_grid_is_halved(bounds, level, 1);
            lemma_grid_is_halved(bounds, level, 2);
            lemma_grid_is_halved(bounds, level, 3);
            let below = (level - 1) as nat;
            lemma_tree_on_grid_is_halved_exactly(
                *upper_left,
                child_bounds_of(bounds, 0),
                below,
                bodies,
                cap,
            );
            lemma_tree_on_grid_is_halved_exactly(
                *upper_right,
                child_bounds_of(bounds, 1),
                below,
                bodies,
                cap,
            );
            lemma_tree_on_grid_is_halved_exactly(
                *lower_left,
                child_bounds_of(bounds, 2),
                below,
                bodies,
                cap,
            );
            lemma_tree_on_grid_is_halved_exactly(
                *lower_right,
                child_bounds_of(bounds, 3),
                below,
                bodies,
                cap,
            );
        },
    }
}

/// Over bounds with corners on the lattice, a finished tree splits every
/// rectangle exactly in the middle, down to sides of less than one lattice
/// step, and is at most 32 internal nodes deep.
pub proof fn lemma_lattice_tree_is_halved_exactly(
    tree: Quadtree,
    bodies: Seq<Body>,
    min_x: i32,
    max_x: i32,
    min_y: i32,
    max_y: i32,
)
    requires
        tree.built_for(bodies),
        tree.spec_bounds() == (
            (min_x * ONE) as i64,
            (max_x * ONE) as i64,
            (min_y * ONE) as i64,
            (max_y * ONE) as i64,
        ),
    ensures
        halved_exactly(tree.spec_root(), tree.spec_bounds()),
        tree.spec_root().depth() <= 32,
{
    reveal_with_fuel(grain, 33);
    assert(grain(32) == ONE);
    let bounds = tree.spec_bounds();
    vstd::arithmetic::div_mod::lemma_fundamental_div_mod_converse(
        bounds.0 as int,
        ONE as int,
        min_x as int,
        0,
    );
    vstd::arithmetic::div_mod::lemma_fundamental_div_mod_converse(
        bounds.1 as int,
        ONE as int,
        max_x as int,
        0,
    );
    vstd::arithmetic::div_mod::lemma_fundamental_div_mod_converse(
        bounds.2 as int,
        ONE as int,
        min_y as int,
        0,
    );
    vstd::arithmetic::div_mod::lemma_fundamental_div_mod_converse(
        bounds.3 as int,
        ONE as int,
        max_y as int,
        0,
    );
    lemma_tree_on_grid_is_halved_exactly(tree.spec_root(), bounds, 32, bodies, tree.capacity());
}

/// No component of a pull is larger than half the product of the
/// gravitational constant and the two masses.
pub proof fn lemma_attraction_is_bounded(
    g: int,
    eps: int,
    target: Body,
    source_mass: int,
    source_pos: Point,
)
    requires
        0 <= g,
        0 < eps,
        0 <= source_mass,
    ensures
        -(g * target.mass * source_mass) <= 2 * attraction(g, eps, target, source_mass, source_pos).0
            <= g * target.mass * source_mass,
        -(g * target.mass * source_mass) <= 2 * attraction(g, eps, target, source_mass, source_pos).1
            <= g * target.mass * source_mass,
{
    let weight = g * target.mass * source_mass;
    assert(0 <= weight) by (nonlinear_arith)
        requires
            weight == g * target.mass * source_mass,
            0 <= g,
            0 <= target.mass,
            0 <= source_mass,
    ;
    let r_squared = distance_squared(source_pos, target.pos);
    let dx = source_pos.x - target.pos.x;
    let dy = source_pos.y - target.pos.y;
    assert(r_squared == dx * dx + dy * dy && dx * dx <= r_squared && dy * dy <= r_squared)
        by (nonlinear_arith)
        requires
            r_squared == (source_pos.x - target.pos.x) * (source_pos.x - target.pos.x) + (
            source_pos.y - target.pos.y) * (source_pos.y - target.pos.y),
            dx == source_pos.x - target.pos.x,
            dy == source_pos.y - target.pos.y,
    ;
    assert(eps * eps >= 1) by (nonlinear_arith)
        requires
            eps >= 1,
    ;
    if r_squared >= eps * eps {
        let divisor = r_squared + eps;
        let magnitude = weight / divisor;
        vstd::arithmetic::div_mod::lemma_fundamental_div_mod(weight, divisor);
        vstd::arithmetic::div_mod::lemma_mod_bound(weight, divisor);
        assert(0 <= 2 * magnitude <= weight) by (nonlinear_arith)
            requires
                weight == divisor * magnitude + weight % divisor,
                0 <= weight % divisor < divisor,
                2 <= divisor,
                0 <= weight,
        ;
        lemma_component_is_near_the_law(magnitude, dx, r_squared);
        lemma_component_is_near_the_law(magnitude, dy, r_squared);
    }
}

/// The sum over a list of what each of its bodies pulls on body `target` is
/// bounded by what the list weighs.
proof fn lemma_seq_pull_is_bounded(
    calculator: BarnesHutForceCalculator,
    ids: Seq<usize>,
    bodies: Seq<Body>,
    target: usize,
)
    requires
        calculator.eps > 0,
    ensures
        ({
            let unit = calculator.g * bodies[target as int].mass;
            let weight = unit * seq_sum(ids, mass_of(bodies));
            &&& 0 <= weight
            &&& -weight <= 2 * seq_sum(ids, calculator.pair_x(bodies, target)) <= weight
            &&& -weight <= 2 * seq_sum(ids, calculator.pair_y(bodies, target)) <= weight
        }),
    decreases ids.len(),
{
    let unit = calculator.g * bodies[target as int].mass;
    assert(0 <= unit) by (nonlinear_arith)
        requires
            unit == calculator.g * bodies[target as int].mass,
    ;
    if ids.len() > 0 {
        let front = ids.drop_last();
        let last = ids.last();
        lemma_seq_pull_is_bounded(calculator, front, bodies, target);
        lemma_attraction_is_bounded(
            calculator.g as int,
            calculator.eps as int,
            bodies[target as int],
            bodies[last as int].mass as int,
            bodies[last as int].pos,
        );
        let before = seq_sum(front, mass_of(bodies));
        let m = bodies[last as int].mass as int;
        assert(unit * (before + m) == unit * before + unit * m && unit * m == calculator.g
            * bodies[target as int].mass * m && 0 <= unit * m) by (nonlinear_arith)
            requires
                unit == calculator.g * bodies[target as int].mass,
                0 <= unit,
                0 <= m,
        ;
    } else {
        assert(unit * 0 == 0);
    }
}

/// The sum over the first `n` bodies of what each pulls on body `target` is
/// bounded by what they weigh.
proof fn lemma_range_pull_is_bounded(
    calculator: BarnesHutForceCalculator,
    n: nat,
    bodies: Seq<Body>,
    target: usize,
)
    requires
        calculator.eps > 0,
    ensures
        ({
            let unit = calculator.g * bodies[target as int].mass;
            let weight = unit * range_sum(n, mass_of(bodies));
            &&& 0 <= weight
            &&& -weight <= 2 * range_sum(n, calculator.pair_x(bodies, target)) <= weight
            &&& -weight <= 2 * range_sum(n, calculator.pair_y(bodies, target)) <= weight
        }),
    decreases n,
{
    let unit = calculator.g * bodies[target as int].mass;
    assert(0 <= unit) by (nonlinear_arith)
        requires
            unit == calculator.g * bodies[target as int].mass,
    ;
    if n > 0 {
        let last = (n - 1) as usize;
        lemma_range_pull_is_bounded(calculator, (n - 1) as nat, bodies, target);
        lemma_attraction_is_bounded(
            calculator.g as int,
            calculator.eps as int,
            bodies[target as int],
            bodies[last as int].mass as int,
            bodies[last as int].pos,
        );
        let before = range_sum((n - 1) as nat, mass_of(bodies));
        let m = bodies[last as int].mass as int;
        assert(unit * (before + m) == unit * before + unit * m && unit * m == calculator.g
            * bodies[target as int].mass * m && 0 <= unit * m) by (nonlinear_arith)
            requires
                unit == calculator.g * bodies[target as int].mass,
                0 <= unit,
                0 <= m,
        ;
    } else {
        assert(unit * 0 == 0);
    }
}

/// The force that a traversal gathers below an aggregated node is bounded by
/// what the bodies below the node weigh.
pub proof fn lemma_node_force_is_bounded(
    calculator: BarnesHutForceCalculator,
    node: QuadNode,
    bounds: Bounds,
    target: usize,
    bodies: Seq<Body>,
)
    requires
        calculator.eps > 0,
        node.aggregated(bodies),
    ensures
        0 <= calculator.reach(bodies, target, node),
        -calculator.reach(bodies, target, node) <= 2 * calculator.node_force(
            node,
            bounds,
            target,
            bodies,
        ).0 <= calculator.reach(bodies, target, node),
        -calculator.reach(bodies, target, node) <= 2 * calculator.node_force(
            node,
            bounds,
            target,
            bodies,
        ).1 <= calculator.reach(bodies, target, node),
    decreases node,
{
    let unit = calculator.g * bodies[target as int].mass;
    assert(0 <= unit) by (nonlinear_arith)
        requires
            unit == calculator.g * bodies[target as int].mass,
    ;
    match node {
        QuadNode::Leaf { body_indices } => {
            lemma_seq_pull_is_bounded(calculator, body_indices@, bodies, target);
        },
        QuadNode::Internal {
            upper_left,
            upper_right,
            lower_left,
            lower_right,
            center_of_mass,
            total_mass,
        } => {
            lemma_sum_nonneg(*upper_left, mass_of(bodies));
            lemma_sum_nonneg(*upper_right, mass_of(bodies));
            lemma_sum_nonneg(*lower_left, mass_of(bodies));
            lemma_sum_nonneg(*lower_right, mass_of(bodies));
            let a = upper_left.sum(mass_of(bodies));
            let b = upper_right.sum(mass_of(bodies));
            let c = lower_left.sum(mass_of(bodies));
            let d = lower_right.sum(mass_of(bodies));
            assert(unit * (a + b + c + d) == unit * a + unit * b + unit * c + unit * d && 0 <= unit
                * (a + b + c + d)) by (nonlinear_arith)
                requires
                    0 <= unit,
                    0 <= a,
                    0 <= b,
                    0 <= c,
                    0 <= d,
            ;
            lemma_attraction_is_bounded(
                calculator.g as int,
                calculator.eps as int,
                bodies[target as int],
                total_mass as int,
                center_of_mass,
            );
            lemma_node_force_is_bounded(
                calculator,
                *upper_left,
                child_bounds_of(bounds, 0),
                target,
                bodies,
            );
            lemma_node_force_is_bounded(
                calculator,
                *upper_right,
                child_bounds_of(bounds, 1),
                target,
                bodies,
            );
            lemma_node_force_is_bounded(
                calculator,
                *lower_left,
                child_bounds_of(bounds, 2),
                target,
                bodies,
            );
            lemma_node_force_is_bounded(
                calculator,
                *lower_right,
                child_bounds_of(bounds, 3),
                target,
                bodies,
            );
        },
    }
}

/// The deviation from the direct sum is proportional to the accuracy ratio.
/// Where all bodies lie in a rectangle whose diagonal is at most `span`, no
/// component of the force that the traversal gathers for a body differs from
/// the sum of the forces from all other bodies by more than `theta` times
/// the product of `span`, the gravitational constant, the body's mass and
/// the mass of all bodies: a bound that is fixed by the bodies and the
/// gravitational constant alone.
pub proof fn lemma_deviation_is_proportional_to_theta(
    calculator: BarnesHutForceCalculator,
    tree: Quadtree,
    bodies: Seq<Body>,
    target: usize,
    low: Point,
    high: Point,
    span: int,
)
    requires
        calculator.eps > 0,
        tree.built_for(bodies),
        target < bodies.len(),
        all_within(bodies, low, high),
        0 <= span,
        distance_squared(low, high) <= span * span,
    ensures
        ({
            let scale = calculator.g * bodies[target as int].mass * total_mass(bodies) * span;
            let gathered = calculator.force_on(tree, target, bodies);
            let direct = direct_force(calculator, bodies, target);
            &&& -(scale * calculator.theta.num) <= (gathered.0 - direct.0) * calculator.theta.den
                <= scale * calculator.theta.num
            &&& -(scale * calculator.theta.num) <= (gathered.1 - direct.1) * calculator.theta.den
                <= scale * calculator.theta.num
        }),
{
    let num = calculator.theta.num as int;
    let den = calculator.theta.den as int;
    let weight = calculator.g * bodies[target as int].mass * total_mass(bodies);
    let scale = weight * span;
    let gathered = calculator.force_on(tree, target, bodies);
    let direct = direct_force(calculator, bodies, target);
    let diagonal_squared = distance_squared(low, high);
    lemma_node_force_is_bounded(calculator, tree.spec_root(), tree.spec_bounds(), target, bodies);
    lemma_range_pull_is_bounded(calculator, bodies.len(), bodies, target);
    assert(calculator.reach(bodies, target, tree.spec_root()) == weight);
    assert(0 <= scale * num) by (nonlinear_arith)
        requires
            scale == weight * span,
            0 <= weight,
            0 <= span,
            0 <= num,
    ;
    if num * num * diagonal_squared <= den * den {
        lemma_small_theta_is_exact(calculator, tree, bodies, target, low, high);
    } else {
        assert(den < num * span) by (nonlinear_arith)
            requires
                num * num * diagonal_squared > den * den,
                diagonal_squared <= span * span,
                0 <= num,
                0 <= den,
                0 <= span,
        ;
        let across = gathered.0 - direct.0;
        let upward = gathered.1 - direct.1;
        assert(-(scale * num) <= across * den <= scale * num) by (nonlinear_arith)
            requires
                -weight <= across <= weight,
                0 <= den < num * span,
                scale == weight * span,
                0 <= weight,
        ;
        assert(-(scale * num) <= upward * den <= scale * num) by (nonlinear_arith)
            requires
                -weight <= upward <= weight,
                0 <= den < num * span,
                scale == weight * span,
                0 <= weight,
        ;
    }
}

/// Of two numbers that are not negative, the larger has the larger square.
proof fn lemma_squares_are_ordered(small: int, large: int)
    requires
        0 <= small <= large,
    ensures
        small * small <= large * large,
{
    assert(small * small <= large * large) by (nonlinear_arith)
        requires
            0 <= small <= large,
    ;
}

/// Whether `middle` lies between `one` and `other`, both counted in.
pub open spec fn between(one: int, middle: int, other: int) -> bool {
    (one <= middle <= other) || (other <= middle <= one)
}

/// Two bodies, a light one and a heavy one, in a tree of their own whose
/// root has been split. The root carries the mass of both at a center that
/// lies between them, no farther from the light body than the heavy body
/// is, so that the root, taken for both, pulls the light body at least as
/// hard as the heavy body alone. Where the heavy body lies to the lower left
/// of the light one, so that rounding down moves the center towards the
/// heavy body, the root pulls less than `(1 + m / M)` to the third power
/// times the heavy body's pull, counted one above what it is, for the masses
/// `m` and `M` of the light and the heavy body.
pub proof fn lemma_two_bodies_are_pulled_by_their_aggregate(
    calculator: BarnesHutForceCalculator,
    tree: Quadtree,
    bodies: Seq<Body>,
    light: usize,
    heavy: usize,
)
    requires
        calculator.eps > 0,
        tree.built_for(bodies),
        bodies.len() == 2,
        light < 2,
        heavy < 2,
        light != heavy,
        tree.spec_root() is Internal,
        bodies[heavy as int].mass > 0,
    ensures
        ({
            let root = tree.spec_root();
            let p = bodies[light as int].pos;
            let h = bodies[heavy as int].pos;
            let c = root->center_of_mass;
            let m = bodies[light as int].mass as int;
            let big = bodies[heavy as int].mass as int;
            let total = root->total_mass as int;
            let direct = pull_magnitude(
                calculator.g as int,
                calculator.eps as int,
                m,
                big,
                distance_squared(h, p),
            );
            let joint = pull_magnitude(
                calculator.g as int,
                calculator.eps as int,
                m,
                total,
                distance_squared(c, p),
            );
            &&& total == m + big
            &&& between(p.x as int, c.x as int, h.x as int)
            &&& between(p.y as int, c.y as int, h.y as int)
            &&& distance_squared(c, p) <= distance_squared(h, p)
            &&& 0 <= direct <= joint
            &&& h.x <= p.x && h.y <= p.y ==> joint * (big * big * big) < (direct + 1) * (total
                * total * total)
        }),
{
    let root = tree.spec_root();
    let p = bodies[light as int].pos;
    let h = bodies[heavy as int].pos;
    let c = root->center_of_mass;
    let m = bodies[light as int].mass as int;
    let big = bodies[heavy as int].mass as int;
    let total = root->total_mass as int;
    let g = calculator.g as int;
    let eps = calculator.eps as int;
    reveal_with_fuel(range_sum, 3);
    assert(root.sum(mass_of(bodies)) == range_sum(2, mass_of(bodies)));
    assert(root.sum(moment_x_of(bodies)) == range_sum(2, moment_x_of(bodies)));
    assert(root.sum(moment_y_of(bodies)) == range_sum(2, moment_y_of(bodies)));
    assert(total == m + big);
    let sum_x = big * h.x + m * p.x;
    let sum_y = big * h.y + m * p.y;
    assert(range_sum(2, moment_x_of(bodies)) == sum_x);
    assert(range_sum(2, moment_y_of(bodies)) == sum_y);
    let low = Point {
        x: if p.x <= h.x {
            p.x
        } else {
            h.x
        },
        y: if p.y <= h.y {
            p.y
        } else {
            h.y
        },
    };
    let high = Point {
        x: if p.x <= h.x {
            h.x
        } else {
            p.x
        },
        y: if p.y <= h.y {
            h.y
        } else {
            p.y
        },
    };
    assert(all_within(bodies, low, high)) by {
        assert forall|i: int| 0 <= i < bodies.len() implies low.x <= (#[trigger] bodies[i]).pos.x
            <= high.x && low.y <= bodies[i].pos.y <= high.y by {
            assert(i == light || i == heavy);
        }
    }
    lemma_center_within(root, bodies, low, high);
    let r_squared = distance_squared(h, p);
    let d_squared = distance_squared(c, p);
    let dx = p.x - c.x;
    let dy = p.y - c.y;
    let rx = p.x - h.x;
    let ry = p.y - h.y;
    assert(d_squared == dx * dx + dy * dy && r_squared == rx * rx + ry * ry && dx * dx <= rx * rx
        && dy * dy <= ry * ry && 0 <= d_squared) by (nonlinear_arith)
        requires
            d_squared == (c.x - p.x) * (c.x - p.x) + (c.y - p.y) * (c.y - p.y),
            r_squared == (h.x - p.x) * (h.x - p.x) + (h.y - p.y) * (h.y - p.y),
            dx == p.x - c.x,
            dy == p.y - c.y,
            rx == p.x - h.x,
            ry == p.y - h.y,
            (0 <= dx <= rx) || (rx <= dx <= 0),
            (0 <= dy <= ry) || (ry <= dy <= 0),
    ;
    let unit = g * m;
    assert(0 <= unit && 0 <= unit * big <= unit * total && g * m * big == unit * big && g * m
        * total == unit * total) by (nonlinear_arith)
        requires
            unit == g * m,
            0 <= g,
            0 <= m,
            0 <= big <= total,
    ;
    let direct = pull_magnitude(g, eps, m, big, r_squared);
    let joint = pull_magnitude(g, eps, m, total, d_squared);
    vstd::arithmetic::div_mod::lemma_div_is_ordered(unit * big, unit * total, r_squared + eps);
    vstd::arithmetic::div_mod::lemma_div_is_ordered_by_denominator(
        unit * total,
        d_squared + eps,
        r_squared + eps,
    );
    vstd::arithmetic::div_mod::lemma_div_basics_4(unit * big, r_squared + eps);
    if h.x <= p.x && h.y <= p.y {
        vstd::arithmetic::div_mod::lemma_fundamental_div_mod(sum_x, total);
        vstd::arithmetic::div_mod::lemma_mod_bound(sum_x, total);
        vstd::arithmetic::div_mod::lemma_fundamental_div_mod(sum_y, total);
        vstd::arithmetic::div_mod::lemma_mod_bound(sum_y, total);
        assert(dx * total >= rx * big && dy * total >= ry * big) by (nonlinear_arith)
            requires
                sum_x == total * (c.x as int) + sum_x % total,
                sum_y == total * (c.y as int) + sum_y % total,
                0 <= sum_x % total,
                0 <= sum_y % total,
                sum_x == big * h.x + m * p.x,
                sum_y == big * h.y + m * p.y,
                total == m + big,
                dx == p.x - c.x,
                dy == p.y - c.y,
                rx == p.x - h.x,
                ry == p.y - h.y,
        ;
        let far = r_squared + eps;
        let near = d_squared + eps;
        let tt = total * total;
        let bb = big * big;
        assert(0 <= bb <= tt) by (nonlinear_arith)
            requires
                bb == big * big,
                tt == total * total,
                0 <= big <= total,
        ;
        assert(0 <= rx * big && 0 <= ry * big) by (nonlinear_arith)
            requires
                0 <= rx,
                0 <= ry,
                0 <= big,
        ;
        lemma_squares_are_ordered(rx * big, dx * total);
        lemma_squares_are_ordered(ry * big, dy * total);
        assert((rx * big) * (rx * big) == (rx * rx) * bb && (ry * big) * (ry * big) == (ry * ry)
            * bb) by (nonlinear_arith)
            requires
                bb == big * big,
        ;
        assert((dx * total) * (dx * total) == (dx * dx) * tt && (dy * total) * (dy * total) == (dy
            * dy) * tt) by (nonlinear_arith)
            requires
                tt == total * total,
        ;
        assert(bb * far == (rx * rx) * bb + (ry * ry) * bb + eps * bb && tt * near == (dx * dx)
            * tt + (dy * dy) * tt + eps * tt && eps * bb <= eps * tt) by (nonlinear_arith)
            requires
                far == rx * rx + ry * ry + eps,
                near == dx * dx + dy * dy + eps,
                0 <= bb <= tt,
                0 < eps,
        ;
        assert((big * big) * far <= (total * total) * near);
        let weight = unit * total;
        vstd::arithmetic::div_mod::lemma_fundamental_div_mod(weight, near);
        vstd::arithmetic::div_mod::lemma_mod_bound(weight, near);
        vstd::arithmetic::div_mod::lemma_fundamental_div_mod(unit * big, far);
        vstd::arithmetic::div_mod::lemma_mod_bound(unit * big, far);
        assert(joint * near <= weight && unit * big < (direct + 1) * far && 0 <= joint)
            by (nonlinear_arith)
            requires
                weight == near * joint + weight % near,
                0 <= weight % near < near,
                unit * big == far * direct + (unit * big) % far,
                0 <= (unit * big) % far < far,
                0 <= weight,
        ;
        let cube = total * total * total;
        let small = big * big * big;
        assert(joint * ((big * big) * far) <= (unit * total) * (total * total))
            by (nonlinear_arith)
            requires
                (big * big) * far <= (total * total) * near,
                joint * near <= weight,
                weight == unit * total,
                0 <= joint,
                0 <= total,
        ;
        assert((joint * small) * far < ((direct + 1) * cube) * far) by (nonlinear_arith)
            requires
                joint * ((big * big) * far) <= (unit * total) * (total * total),
                unit * big < (direct + 1) * far,
                small == big * big * big,
                cube == total * total * total,
                0 < big,
                0 < total,
                0 <= unit,
        ;
        assert(joint * small < (direct + 1) * cube) by (nonlinear_arith)
            requires
                (joint * small) * far < ((direct + 1) * cube) * far,
                0 < far,
        ;
    }
}

} // verus!
