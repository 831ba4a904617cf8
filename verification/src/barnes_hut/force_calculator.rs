use crate::barnes_hut::arith::floor_sqrt;
use crate::barnes_hut::arith::is_floor_sqrt;
use crate::barnes_hut::arith::isqrt;
use crate::barnes_hut::arith::lemma_above_quotient;
use crate::barnes_hut::arith::share;
use crate::barnes_hut::arith::square_shifted;
use crate::barnes_hut::quadtree::Bounds;
use crate::barnes_hut::quadtree::child_bounds_of;
use crate::barnes_hut::quadtree::height;
use crate::barnes_hut::quadtree::lemma_sum_nonneg;
use crate::barnes_hut::quadtree::mass_of;
use crate::barnes_hut::quadtree::ONE;
use crate::barnes_hut::quadtree::QuadNode;
use crate::barnes_hut::quadtree::Quadtree;
use crate::barnes_hut::quadtree::width;
use crate::barnes_hut::sums::lemma_seq_sum_prefix_le;
use crate::barnes_hut::sums::lemma_seq_sum_take_succ;
use crate::barnes_hut::sums::range_sum;
use crate::barnes_hut::sums::seq_sum;
use crate::physics::body::Body;
use crate::physics::body::Point;
use rayon::iter::IntoParallelIterator;
use rayon::iter::ParallelIterator;
use vstd::prelude::*;

verus! {

/// A force in the plane.
#[derive(Clone, Copy, Debug, PartialEq, Eq, Structural)]
pub struct Force {
    pub x: i128,
    pub y: i128,
}

impl View for Force {
    type V = (int, int);

    open spec fn view(&self) -> (int, int) {
        (self.x as int, self.y as int)
    }
}

/// The ratio `num / den`. A denominator of zero stands for a ratio above
/// every number.
#[derive(Clone, Copy, Debug, PartialEq, Eq, Structural)]
pub struct Ratio {
    pub num: u16,
    pub den: u16,
}

/// The square of the distance between two points.
pub open spec fn distance_squared(a: Point, b: Point) -> int {
    (a.x - b.x) * (a.x - b.x) + (a.y - b.y) * (a.y - b.y)
}

/// The direction of a force is taken to this many parts of a lattice step.
pub const DIRECTION_SCALE: u64 = 65536;

/// `magnitude * component / dist`, rounded towards zero.
pub open spec fn along(magnitude: int, component: int, dist: int) -> int {
    if component >= 0 {
        (magnitude * component) / dist
    } else {
        -((magnitude * (-component)) / dist)
    }
}

/// The magnitude of the pull between two point masses at the squared
/// distance `r_squared`: `g * target_mass * source_mass / (r * r + eps)`,
/// rounded down.
pub open spec fn pull_magnitude(
    g: int,
    eps: int,
    target_mass: int,
    source_mass: int,
    r_squared: int,
) -> int {
    (g * target_mass * source_mass) / (r_squared + eps)
}

/// The force with which a point mass `source_mass` at `source_pos` pulls the
/// body `target`, for the gravitational constant `g` and the softening
/// length `eps`. Closer than `eps` there is no force. From there on the
/// magnitude is `g * target.mass * source_mass / (r * r + eps)`, rounded
/// down, along the direction from the target to the source. The direction
/// is the separation over the distance, with the distance rounded down to a
/// whole number of parts of which `DIRECTION_SCALE` make one lattice step,
/// and each component is rounded towards zero.
pub open spec fn attraction(g: int, eps: int, target: Body, source_mass: int, source_pos: Point) -> (
    int,
    int,
) {
    let r_squared = distance_squared(source_pos, target.pos);
    if r_squared < eps * eps {
        (0int, 0int)
    } else {
        let magnitude = pull_magnitude(g, eps, target.mass as int, source_mass, r_squared);
        let dist = floor_sqrt(r_squared * (DIRECTION_SCALE * DIRECTION_SCALE));
        (
            along(magnitude, (source_pos.x - target.pos.x) * DIRECTION_SCALE, dist),
            along(magnitude, (source_pos.y - target.pos.y) * DIRECTION_SCALE, dist),
        )
    }
}

/// The square of the distance between two points.
pub fn squared_distance(a: Point, b: Point) -> (d: u128)
    ensures
        d == distance_squared(a, b),
        d <= 2 * (0xffff_ffff * 0xffff_ffff),
{
    let dx: i128 = a.x as i128 - b.x as i128;
    let dy: i128 = a.y as i128 - b.y as i128;
    assert(0 <= dx * dx <= 0xffff_ffff * 0xffff_ffff) by (nonlinear_arith)
        requires
            -0xffff_ffff <= dx <= 0xffff_ffff,
    ;
    assert(0 <= dy * dy <= 0xffff_ffff * 0xffff_ffff) by (nonlinear_arith)
        requires
            -0xffff_ffff <= dy <= 0xffff_ffff,
    ;
    (dx * dx + dy * dy) as u128
}

/// The size of a coordinate difference, in parts of a lattice step, which is
/// at most the distance, in such parts and rounded down, between the two
/// points it was taken from.
fn span(from: i32, to: i32, Ghost(other): Ghost<int>, dist: u64) -> (size: u64)
    requires
        is_floor_sqrt(
            ((to - from) * (to - from) + other * other) * (DIRECTION_SCALE * DIRECTION_SCALE),
            dist as int,
        ),
    ensures
        size == (if to >= from {
            (to - from) * DIRECTION_SCALE
        } else {
            (from - to) * DIRECTION_SCALE
        }),
        size <= dist,
{
    let diff: i64 = to as i64 - from as i64;
    let steps: u64 = if diff >= 0 {
        diff as u64
    } else {
        (-diff) as u64
    };
    let size: u64 = steps * DIRECTION_SCALE;
    assert(size * size <= ((to - from) * (to - from) + other * other) * (65536 * 65536))
        by (nonlinear_arith)
        requires
            size == steps * 65536,
            steps == to - from || steps == from - to,
    ;
    assert(size <= dist) by (nonlinear_arith)
        requires
            size * size < (dist + 1) * (dist + 1),
            0 <= size,
            0 <= dist,
    ;
    size
}

/// The parameters of the evaluation: the accuracy ratio `theta`, the
/// gravitational constant `g` and the softening length `eps`.
pub struct BarnesHutForceCalculator {
    pub theta: Ratio,
    pub g: u32,
    pub eps: u32,
}

impl BarnesHutForceCalculator {
    /// A calculator with the given parameters.
    pub fn new(theta: Ratio, g: u32, eps: u32) -> (calculator: Self)
        ensures
            calculator.theta == theta,
            calculator.g == g,
            calculator.eps == eps,
    {
        Self { theta, g, eps }
    }

    /// The force on body `target` from body `source`: none from itself.
    pub open spec fn pair(self, bodies: Seq<Body>, target: usize, source: usize) -> (int, int) {
        if source == target {
            (0int, 0int)
        } else {
            attraction(
                self.g as int,
                self.eps as int,
                bodies[target as int],
                bodies[source as int].mass as int,
                bodies[source as int].pos,
            )
        }
    }

    /// The `x` component of the force on body `target` from each body.
    pub open spec fn pair_x(self, bodies: Seq<Body>, target: usize) -> spec_fn(usize) -> int {
        |source: usize| self.pair(bodies, target, source).0
    }

    /// The `y` component of the force on body `target` from each body.
    pub open spec fn pair_y(self, bodies: Seq<Body>, target: usize) -> spec_fn(usize) -> int {
        |source: usize| self.pair(bodies, target, source).1
    }

    /// Whether a node of side `node_width`, in the steps that rectangles are
    /// held in, with its center of mass at `node_center` is far enough from
    /// `body_pos` to stand for all the bodies below it: the distance `d`
    /// between the two points is positive and `d > node_width / theta`,
    /// both in lattice steps.
    pub open spec fn accepts(self, body_pos: Point, node_center: Point, node_width: int) -> bool {
        let side = if node_width > 0 { node_width } else { 0 };
        let d_squared = distance_squared(body_pos, node_center);
        &&& d_squared > 0
        &&& self.theta.num * self.theta.num * d_squared * (ONE * ONE) > (self.theta.den * side) * (
        self.theta.den * side)
    }

    /// The force on body `target` that the traversal of the subtree `node`
    /// over `bounds` gathers. A leaf gives the sum of the forces from its
    /// bodies. An internal node without mass gives none; one that is far
    /// enough away pulls as one point mass at its center of mass; any other
    /// gives the sum over its four children.
    pub open spec fn node_force(
        self,
        node: QuadNode,
        bounds: Bounds,
        target: usize,
        bodies: Seq<Body>,
    ) -> (int, int)
        decreases node,
    {
        match node {
            QuadNode::Leaf { body_indices } => (
                seq_sum(body_indices@, self.pair_x(bodies, target)),
                seq_sum(body_indices@, self.pair_y(bodies, target)),
            ),
            QuadNode::Internal {
                upper_left,
                upper_right,
                lower_left,
                lower_right,
                center_of_mass,
                total_mass,
            } => {
                if total_mass == 0 {
                    (0int, 0int)
                } else if self.accepts(bodies[target as int].pos, center_of_mass, node_width(bounds)) {
                    attraction(
                        self.g as int,
                        self.eps as int,
                        bodies[target as int],
                        total_mass as int,
                        center_of_mass,
                    )
                } else {
                    let a = self.node_force(*upper_left, child_bounds_of(bounds, 0), target, bodies);
                    let b = self.node_force(
                        *upper_right,
                        child_bounds_of(bounds, 1),
                        target,
                        bodies,
                    );
                    let c = self.node_force(*lower_left, child_bounds_of(bounds, 2), target, bodies);
                    let d = self.node_force(
                        *lower_right,
                        child_bounds_of(bounds, 3),
                        target,
                        bodies,
                    );
                    (a.0 + b.0 + c.0 + d.0, a.1 + b.1 + c.1 + d.1)
                }
            },
        }
    }

    /// The force on body `target` that the traversal of `tree` gathers.
    pub open spec fn force_on(self, tree: Quadtree, target: usize, bodies: Seq<Body>) -> (int, int) {
        self.node_force(tree.spec_root(), tree.spec_bounds(), target, bodies)
    }

    /// One force for each body, in the order of `bodies`, gathered from a
    /// traversal of `quadtree` for each.
    pub fn calculate_forces(&self, bodies: &[Body], quadtree: &Quadtree) -> (forces: Vec<Force>)
        requires
            self.eps > 0,
            quadtree.built_for(bodies@),
            range_sum(bodies@.len(), mass_of(bodies@)) <= u64::MAX,
        ensures
            forces@.len() == bodies@.len(),
            forall|i: int|
                0 <= i < bodies@.len() ==> (#[trigger] forces@[i])@ == self.force_on(
                    *quadtree,
                    i as usize,
                    bodies@,
                ),
    {
        self.traverse_in_parallel(bodies, quadtree)
    }

    /// Hands the traversals out to rayon's worker threads, one for each body:
    /// `into_par_iter` on the range of indices, `map` with the traversal for
    /// one body, and `collect` into a vector. Trusted of rayon: the vector
    /// holds one result for each index of the range, each at the place of
    /// its index, whichever thread computed it and in whatever order. That
    /// each result is the force that the traversal gathers is what
    /// `calculate_force` ensures, under the conditions required here.
    /// Rayon starts its pool of threads at the first use; nothing is claimed
    /// for a system that lets it start none, where rayon panics.
    #[verifier::external_body]
    fn traverse_in_parallel(&self, bodies: &[Body], quadtree: &Quadtree) -> (forces: Vec<Force>)
        requires
            self.eps > 0,
            quadtree.built_for(bodies@),
            range_sum(bodies@.len(), mass_of(bodies@)) <= u64::MAX,
        ensures
            forces@.len() == bodies@.len(),
            forall|i: int|
                0 <= i < bodies@.len() ==> (#[trigger] forces@[i])@ == self.force_on(
                    *quadtree,
                    i as usize,
                    bodies@,
                ),
    {
        (0..bodies.len()).into_par_iter().map(
            |i| self.calculate_force(i, bodies, quadtree),
        ).collect()
    }

    /// The force on body `body_index` that the traversal of `quadtree`
    /// gathers.
    pub fn calculate_force(&self, body_index: usize, bodies: &[Body], quadtree: &Quadtree) -> (force:
        Force)
        requires
            self.eps > 0,
            quadtree.built_for(bodies@),
            range_sum(bodies@.len(), mass_of(bodies@)) <= u64::MAX,
            body_index < bodies@.len(),
        ensures
            force@ == self.force_on(*quadtree, body_index, bodies@),
    {
        self.calculate_force_on_body(body_index, bodies, quadtree.root(), quadtree.bounds())
    }

    /// The force on body `body_index` that the traversal of the subtree
    /// `node` over `node_bounds` gathers.
    pub fn calculate_force_on_body(
        &self,
        body_index: usize,
        bodies: &[Body],
        node: &QuadNode,
        node_bounds: Bounds,
    ) -> (force: Force)
        requires
            self.eps > 0,
            body_index < bodies@.len(),
            node.in_range(bodies@.len()),
            node.aggregated(bodies@),
            node.sum(mass_of(bodies@)) <= u64::MAX,
        ensures
            force@ == self.node_force(*node, node_bounds, body_index, bodies@),
            -self.reach(bodies@, body_index, *node) <= 2 * force.x <= self.reach(
                bodies@,
                body_index,
                *node,
            ),
            -self.reach(bodies@, body_index, *node) <= 2 * force.y <= self.reach(
                bodies@,
                body_index,
                *node,
            ),
        decreases node,
    {
        let ghost unit = self.g * bodies@[body_index as int].mass;
        proof {
            lemma_sum_nonneg(*node, mass_of(bodies@));
            lemma_reach_fits(
                self.g as int,
                bodies@[body_index as int].mass as int,
                node.sum(mass_of(bodies@)),
            );
        }
        match node {
            QuadNode::Leaf { body_indices } => {
                let mut force = Force { x: 0, y: 0 };
                let mut k: usize = 0;
                while k < body_indices.len()
                    invariant
                        k <= body_indices@.len(),
                        self.eps > 0,
                        body_index < bodies@.len(),
                        unit == self.g * bodies@[body_index as int].mass,
                        0 <= unit * seq_sum(body_indices@, mass_of(bodies@)) <= u128::MAX,
                        forall|j: int|
                            0 <= j < body_indices@.len() ==> #[trigger] body_indices@[j]
                                < bodies@.len(),
                        force.x == seq_sum(
                            body_indices@.take(k as int),
                            self.pair_x(bodies@, body_index),
                        ),
                        force.y == seq_sum(
                            body_indices@.take(k as int),
                            self.pair_y(bodies@, body_index),
                        ),
                        -(unit * seq_sum(body_indices@.take(k as int), mass_of(bodies@))) <= 2
                            * force.x <= unit * seq_sum(
                            body_indices@.take(k as int),
                            mass_of(bodies@),
                        ),
                        -(unit * seq_sum(body_indices@.take(k as int), mass_of(bodies@))) <= 2
                            * force.y <= unit * seq_sum(
                            body_indices@.take(k as int),
                            mass_of(bodies@),
                        ),
                    decreases body_indices@.len() - k,
                {
                    let other_index: usize = body_indices[k];
                    proof {
                        let ids = body_indices@;
                        lemma_seq_sum_take_succ(ids, k as int, self.pair_x(bodies@, body_index));
                        lemma_seq_sum_take_succ(ids, k as int, self.pair_y(bodies@, body_index));
                        lemma_seq_sum_take_succ(ids, k as int, mass_of(bodies@));
                        lemma_seq_sum_prefix_le(ids, k + 1, mass_of(bodies@));
                        let before = seq_sum(ids.take(k as int), mass_of(bodies@));
                        let after = seq_sum(ids.take(k + 1), mass_of(bodies@));
                        let whole = seq_sum(ids, mass_of(bodies@));
                        let m = bodies@[other_index as int].mass as int;
                        assert(unit * after == unit * before + unit * m && unit * after <= unit
                            * whole && 0 <= unit * m) by (nonlinear_arith)
                            requires
                                after == before + m,
                                0 <= after <= whole,
                                0 <= m,
                                0 <= unit,
                        ;
                    }
                    if other_index != body_index {
                        let pulled = self.calculate_direct_force(body_index, other_index, bodies);
                        force = Force { x: force.x + pulled.x, y: force.y + pulled.y };
                    }
                    k += 1;
                }
                assert(body_indices@.take(k as int) =~= body_indices@);
                force
            },
            QuadNode::Internal {
                upper_left,
                upper_right,
                lower_left,
                lower_right,
                center_of_mass,
                total_mass,
            } => {
                if *total_mass == 0 {
                    return Force { x: 0, y: 0 };
                }
                let body_pos = bodies[body_index].pos();
                let (min_x, max_x, min_y, max_y) = node_bounds;
                let across: i128 = max_x as i128 - min_x as i128;
                let upward: i128 = max_y as i128 - min_y as i128;
                let node_width: i128 = if across >= upward {
                    across
                } else {
                    upward
                };
                if self.should_use_approximation(body_pos, *center_of_mass, node_width) {
                    self.calculate_force_from_center_of_mass(
                        body_index,
                        bodies,
                        *center_of_mass,
                        *total_mass as u64,
                    )
                } else {
                    proof {
                        lemma_sum_nonneg(**upper_left, mass_of(bodies@));
                        lemma_sum_nonneg(**upper_right, mass_of(bodies@));
                        lemma_sum_nonneg(**lower_left, mass_of(bodies@));
                        lemma_sum_nonneg(**lower_right, mass_of(bodies@));
                        let a = upper_left.sum(mass_of(bodies@));
                        let b = upper_right.sum(mass_of(bodies@));
                        let c = lower_left.sum(mass_of(bodies@));
                        let d = lower_right.sum(mass_of(bodies@));
                        assert(unit * (a + b + c + d) == unit * a + unit * b + unit * c + unit * d)
                            by (nonlinear_arith);
                        assert(0 <= unit * a && 0 <= unit * b && 0 <= unit * c && 0 <= unit * d)
                            by (nonlinear_arith)
                            requires
                                0 <= unit,
                                0 <= a,
                                0 <= b,
                                0 <= c,
                                0 <= d,
                        ;
                    }
                    let a = self.calculate_force_on_body(
                        body_index,
                        bodies,
                        upper_left,
                        Quadtree::get_child_bounds(node_bounds, 0),
                    );
                    let b = self.calculate_force_on_body(
                        body_index,
                        bodies,
                        upper_right,
                        Quadtree::get_child_bounds(node_bounds, 1),
                    );
                    let c = self.calculate_force_on_body(
                        body_index,
                        bodies,
                        lower_left,
                        Quadtree::get_child_bounds(node_bounds, 2),
                    );
                    let d = self.calculate_force_on_body(
                        body_index,
                        bodies,
                        lower_right,
                        Quadtree::get_child_bounds(node_bounds, 3),
                    );
                    Force { x: a.x + b.x + c.x + d.x, y: a.y + b.y + c.y + d.y }
                }
            },
        }
    }

    /// The largest size, doubled, that a component of the force on body
    /// `target` from the bodies below `node` can have.
    pub open spec fn reach(self, bodies: Seq<Body>, target: usize, node: QuadNode) -> int {
        self.g * bodies[target as int].mass * node.sum(mass_of(bodies))
    }

    /// Whether a node of side `node_width` with its center of mass at
    /// `node_center` may stand for all the bodies below it.
    pub fn should_use_approximation(
        &self,
        body_pos: Point,
        node_center: Point,
        node_width: i128,
    ) -> (accepted: bool)
        requires
            node_width <= u64::MAX,
        ensures
            accepted == self.accepts(body_pos, node_center, node_width as int),
    {
        let d_squared: u128 = squared_distance(body_pos, node_center);
        let side: u128 = if node_width > 0 {
            node_width as u128
        } else {
            0
        };
        let num: u128 = self.theta.num as u128;
        let den: u128 = self.theta.den as u128;
        assert(num * num < 0x1_0000_0000 && den * side < 0x1_0000_0000_0000_0000_0000)
            by (nonlinear_arith)
            requires
                0 <= num < 0x1_0000,
                0 <= den < 0x1_0000,
                0 <= side < 0x1_0000_0000_0000_0000,
        ;
        let num_squared: u128 = num * num;
        assert(d_squared < 0x2_0000_0000_0000_0000);
        assert(num_squared * d_squared < 0x2_0000_0000_0000_0000_0000_0000) by (nonlinear_arith)
            requires
                0 <= num_squared < 0x1_0000_0000,
                0 <= d_squared < 0x2_0000_0000_0000_0000,
        ;
        let near: u128 = num_squared * d_squared;
        let far: u128 = square_shifted(den * side);
        proof {
            lemma_above_quotient(
                near as int,
                (den * side) * (den * side),
                0x1_0000_0000_0000_0000,
            );
            assert(ONE * ONE == 0x1_0000_0000_0000_0000);
        }
        d_squared > 0 && near > far
    }

    /// The force on body `body1_index` from body `body2_index`.
    pub fn calculate_direct_force(
        &self,
        body1_index: usize,
        body2_index: usize,
        bodies: &[Body],
    ) -> (force: Force)
        requires
            self.eps > 0,
            body1_index < bodies@.len(),
            body2_index < bodies@.len(),
        ensures
            force@ == attraction(
                self.g as int,
                self.eps as int,
                bodies@[body1_index as int],
                bodies@[body2_index as int].mass as int,
                bodies@[body2_index as int].pos,
            ),
            -(self.g * bodies@[body1_index as int].mass * bodies@[body2_index as int].mass) <= 2
                * force.x <= self.g * bodies@[body1_index as int].mass
                * bodies@[body2_index as int].mass,
            -(self.g * bodies@[body1_index as int].mass * bodies@[body2_index as int].mass) <= 2
                * force.y <= self.g * bodies@[body1_index as int].mass
                * bodies@[body2_index as int].mass,
    {
        let body1 = &bodies[body1_index];
        let body2 = &bodies[body2_index];
        self.pull(body1, body2.mass() as u64, body2.pos())
    }

    /// The force on body `body_index` from a point mass `total_mass` at
    /// `center_of_mass`.
    pub fn calculate_force_from_center_of_mass(
        &self,
        body_index: usize,
        bodies: &[Body],
        center_of_mass: Point,
        total_mass: u64,
    ) -> (force: Force)
        requires
            self.eps > 0,
            body_index < bodies@.len(),
        ensures
            force@ == attraction(
                self.g as int,
                self.eps as int,
                bodies@[body_index as int],
                total_mass as int,
                center_of_mass,
            ),
            -(self.g * bodies@[body_index as int].mass * total_mass) <= 2 * force.x <= self.g
                * bodies@[body_index as int].mass * total_mass,
            -(self.g * bodies@[body_index as int].mass * total_mass) <= 2 * force.y <= self.g
                * bodies@[body_index as int].mass * total_mass,
    {
        self.pull(&bodies[body_index], total_mass, center_of_mass)
    }

    /// The pull of a point mass on the body `target`.
    fn pull(&self, target: &Body, source_mass: u64, source_pos: Point) -> (force: Force)
        requires
            self.eps > 0,
        ensures
            force@ == attraction(
                self.g as int,
                self.eps as int,
                *target,
                source_mass as int,
                source_pos,
            ),
            -(self.g * target.mass * source_mass) <= 2 * force.x <= self.g * target.mass
                * source_mass,
            -(self.g * target.mass * source_mass) <= 2 * force.y <= self.g * target.mass
                * source_mass,
    {
        let r_squared: u128 = squared_distance(source_pos, target.pos);
        let eps: u128 = self.eps as u128;
        assert(1 <= eps * eps <= 0xffff_ffff * 0xffff_ffff) by (nonlinear_arith)
            requires
                1 <= eps <= 0xffff_ffff,
        ;
        assert(0 <= self.g * target.mass * source_mass) by (nonlinear_arith)
            requires
                0 <= self.g,
                0 <= target.mass,
                0 <= source_mass,
        ;
        if r_squared < eps * eps {
            return Force { x: 0, y: 0 };
        }
        assert(self.g * target.mass <= 0xffff_ffff * 0xffff_ffff && self.g * target.mass
            * source_mass <= 0xffff_ffff * 0xffff_ffff * 0xffff_ffff_ffff_ffff) by (nonlinear_arith)
            requires
                0 <= self.g <= 0xffff_ffff,
                0 <= target.mass <= 0xffff_ffff,
                0 <= source_mass <= 0xffff_ffff_ffff_ffff,
        ;
        let weight: u128 = (self.g as u128) * (target.mass() as u128) * (source_mass as u128);
        let magnitude: u128 = weight / (r_squared + eps);
        proof {
            let divisor = (r_squared + eps) as int;
            let rest = (weight as int) % divisor;
            vstd::arithmetic::div_mod::lemma_fundamental_div_mod(weight as int, divisor);
            vstd::arithmetic::div_mod::lemma_mod_bound(weight as int, divisor);
            assert(2 * magnitude <= weight) by (nonlinear_arith)
                requires
                    weight as int == divisor * (magnitude as int) + rest,
                    0 <= rest,
                    2 <= divisor,
                    0 <= magnitude,
            ;
        }
        let dist: u64 = isqrt(r_squared * 0x1_0000_0000);
        assert(dist > 0) by (nonlinear_arith)
            requires
                r_squared >= 1,
                r_squared * 0x1_0000_0000 < (dist + 1) * (dist + 1),
                0 <= dist,
        ;
        let ghost dx = source_pos.x - target.pos.x;
        let ghost dy = source_pos.y - target.pos.y;
        let size_x: u64 = span(target.pos.x, source_pos.x, Ghost(dy), dist);
        let size_y: u64 = span(target.pos.y, source_pos.y, Ghost(dx), dist);
        let along_x: u128 = share(magnitude, size_x, dist);
        let along_y: u128 = share(magnitude, size_y, dist);
        Force {
            x: if source_pos.x >= target.pos.x {
                along_x as i128
            } else {
                -(along_x as i128)
            },
            y: if source_pos.y >= target.pos.y {
                along_y as i128
            } else {
                -(along_y as i128)
            },
        }
    }
}

/// The longer side of a rectangle.
pub open spec fn node_width(bounds: Bounds) -> int {
    if width(bounds) >= height(bounds) {
        width(bounds)
    } else {
        height(bounds)
    }
}

/// The product of a gravitational constant, a body's mass and a total mass
/// fits into 128 bits.
proof fn lemma_reach_fits(g: int, mass: int, total: int)
    requires
        0 <= g <= u32::MAX,
        0 <= mass <= u32::MAX,
        0 <= total <= u64::MAX,
    ensures
        0 <= g * mass,
        0 <= g * mass * total <= u128::MAX,
{
    assert(0 <= g * mass <= 0xffff_ffff * 0xffff_ffff) by (nonlinear_arith)
        requires
            0 <= g <= 0xffff_ffff,
            0 <= mass <= 0xffff_ffff,
    ;
    assert(0 <= g * mass * total <= 0xffff_ffff * 0xffff_ffff * 0xffff_ffff_ffff_ffff)
        by (nonlinear_arith)
        requires
            0 <= g * mass <= 0xffff_ffff * 0xffff_ffff,
            0 <= total <= 0xffff_ffff_ffff_ffff,
    ;
}

} // verus!
