use crate::barnes_hut::arith::floor_div;
use crate::barnes_hut::sums::lemma_range_sum_bounds;
use crate::barnes_hut::sums::lemma_range_sum_succ;
use crate::barnes_hut::sums::lemma_seq_sum_nonneg;
use crate::barnes_hut::sums::lemma_seq_sum_prefix_le;
use crate::barnes_hut::sums::lemma_seq_sum_push;
use crate::barnes_hut::sums::lemma_seq_sum_take_succ;
use crate::barnes_hut::sums::lemma_seq_sum_vanishes;
use crate::barnes_hut::sums::lemma_seq_sum_weighted;
use crate::barnes_hut::sums::range_sum;
use crate::barnes_hut::sums::seq_sum;
use crate::physics::body::Body;
use crate::physics::body::Point;
use vstd::multiset::Multiset;
use vstd::prelude::*;

verus! {

/// An axis-aligned rectangle: `(min_x, max_x, min_y, max_y)`. Rectangles are
/// held finer than positions: each coordinate counts steps of which `ONE`
/// make one step of the lattice that the bodies lie on, so that a rectangle
/// with corners on the lattice is halved exactly, again and again, until a
/// side is shorter than one lattice step.
pub type Bounds = (i64, i64, i64, i64);

/// The length of one lattice step, in the steps that rectangles are held in.
pub const ONE: i64 = 0x1_0000_0000;

/// A rectangle is split only while both of its sides are at least this long:
/// one lattice step.
pub const MIN_SPLIT_EXTENT: i64 = ONE;

/// The coordinate at which the interval from `lo` to `hi` is halved.
pub open spec fn midpoint(lo: i64, hi: i64) -> int {
    (lo + hi) / 2
}

/// The rectangle with the given corners on the lattice.
pub fn lattice_bounds(min_x: i32, max_x: i32, min_y: i32, max_y: i32) -> (bounds: Bounds)
    ensures
        bounds.0 == min_x * ONE,
        bounds.1 == max_x * ONE,
        bounds.2 == min_y * ONE,
        bounds.3 == max_y * ONE,
{
    (min_x as i64 * ONE, max_x as i64 * ONE, min_y as i64 * ONE, max_y as i64 * ONE)
}

/// The side of a rectangle along `x`.
pub open spec fn width(bounds: Bounds) -> int {
    bounds.1 - bounds.0
}

/// The side of a rectangle along `y`.
pub open spec fn height(bounds: Bounds) -> int {
    bounds.3 - bounds.2
}

/// Whether a leaf over `bounds` may be turned into four quadrants.
pub open spec fn can_split(bounds: Bounds) -> bool {
    width(bounds) >= MIN_SPLIT_EXTENT && height(bounds) >= MIN_SPLIT_EXTENT
}

/// The quadrant of `bounds` that `pos` is routed to: 0 upper left, 1 upper
/// right, 2 lower left, 3 lower right, where "upper" is the half with the
/// larger `y` and a point on a dividing line belongs to the larger side.
pub open spec fn quadrant_of(pos: Point, bounds: Bounds) -> int {
    let right = pos.x * ONE >= midpoint(bounds.0, bounds.1);
    let upper = pos.y * ONE >= midpoint(bounds.2, bounds.3);
    if upper {
        if right { 1 } else { 0 }
    } else {
        if right { 3 } else { 2 }
    }
}

/// The rectangle of quadrant `quadrant` of `parent`.
pub open spec fn child_bounds_of(parent: Bounds, quadrant: int) -> Bounds {
    let mid_x = midpoint(parent.0, parent.1) as i64;
    let mid_y = midpoint(parent.2, parent.3) as i64;
    if quadrant == 0 {
        (parent.0, mid_x, mid_y, parent.3)
    } else if quadrant == 1 {
        (mid_x, parent.1, mid_y, parent.3)
    } else if quadrant == 2 {
        (parent.0, mid_x, parent.2, mid_y)
    } else {
        (mid_x, parent.1, parent.2, mid_y)
    }
}

/// How much room is left to split: the sum of the two sides, none counted
/// below zero.
pub open spec fn extent(bounds: Bounds) -> nat {
    let w = if width(bounds) > 0 { width(bounds) } else { 0 };
    let h = if height(bounds) > 0 { height(bounds) } else { 0 };
    (w + h) as nat
}

/// A quadrant is never larger than its parent, and strictly smaller where the
/// parent can be split.
pub proof fn lemma_child_extent(parent: Bounds, quadrant: int)
    ensures
        extent(child_bounds_of(parent, quadrant)) <= extent(parent),
        can_split(parent) ==> extent(child_bounds_of(parent, quadrant)) < extent(parent),
{
}

/// The midpoint of two coordinates, rounded down.
fn halfway(lo: i64, hi: i64) -> (mid: i64)
    ensures
        mid == midpoint(lo, hi),
{
    let sum: i128 = lo as i128 + hi as i128;
    if sum >= 0 {
        (sum / 2) as i64
    } else {
        (-((1 - sum) / 2)) as i64
    }
}

/// No more than this can all the bodies of one slice weigh together.
pub open spec fn mass_limit() -> int {
    0xffff_ffff_ffff_ffffint * 0xffff_ffffint
}

/// The mass of each body, by index.
pub open spec fn mass_of(bodies: Seq<Body>) -> spec_fn(usize) -> int {
    |id: usize| bodies[id as int].mass as int
}

/// The mass of each body times its `x` coordinate, by index.
pub open spec fn moment_x_of(bodies: Seq<Body>) -> spec_fn(usize) -> int {
    |id: usize| bodies[id as int].mass * bodies[id as int].pos.x
}

/// The mass of each body times its `y` coordinate, by index.
pub open spec fn moment_y_of(bodies: Seq<Body>) -> spec_fn(usize) -> int {
    |id: usize| bodies[id as int].mass * bodies[id as int].pos.y
}

/// Whether each entry is larger than the one before it.
pub open spec fn ascending(ids: Seq<usize>) -> bool {
    forall|j: int, k: int| 0 <= j < k < ids.len() ==> ids[j] < ids[k]
}

/// Whether every entry is less than `limit`.
pub open spec fn all_below(ids: Seq<usize>, limit: nat) -> bool {
    forall|k: int| 0 <= k < ids.len() ==> #[trigger] ids[k] < limit
}

/// A node of the tree: a leaf with the indices of the bodies in its region,
/// or an internal node with one child for each quadrant of its region and the
/// aggregate of all bodies below it.
#[derive(Debug)]
pub enum QuadNode {
    Leaf { body_indices: Vec<usize> },
    Internal {
        upper_left: Box<QuadNode>,
        upper_right: Box<QuadNode>,
        lower_left: Box<QuadNode>,
        lower_right: Box<QuadNode>,
        center_of_mass: Point,
        total_mass: u128,
    },
}

impl QuadNode {
    /// The child for `quadrant` of an internal node.
    pub open spec fn child(self, quadrant: int) -> QuadNode
        recommends
            self is Internal,
    {
        if quadrant == 0 {
            *self->upper_left
        } else if quadrant == 1 {
            *self->upper_right
        } else if quadrant == 2 {
            *self->lower_left
        } else {
            *self->lower_right
        }
    }

    /// The body indices held in the leaves below this node, each as often as
    /// it is held.
    pub open spec fn indices(self) -> Multiset<usize>
        decreases self,
    {
        match self {
            QuadNode::Leaf { body_indices } => body_indices@.to_multiset(),
            QuadNode::Internal { upper_left, upper_right, lower_left, lower_right, .. } => {
                upper_left.indices().add(upper_right.indices()).add(lower_left.indices()).add(
                    lower_right.indices(),
                )
            },
        }
    }

    /// The sum of `f` over the body indices held in the leaves below this
    /// node.
    pub open spec fn sum(self, f: spec_fn(usize) -> int) -> int
        decreases self,
    {
        match self {
            QuadNode::Leaf { body_indices } => seq_sum(body_indices@, f),
            QuadNode::Internal { upper_left, upper_right, lower_left, lower_right, .. } => {
                upper_left.sum(f) + upper_right.sum(f) + lower_left.sum(f) + lower_right.sum(f)
            },
        }
    }

    /// The number of internal nodes on the longest path down from this node.
    pub open spec fn depth(self) -> nat
        decreases self,
    {
        match self {
            QuadNode::Leaf { .. } => 0,
            QuadNode::Internal { upper_left, upper_right, lower_left, lower_right, .. } => {
                let a = upper_left.depth();
                let b = upper_right.depth();
                let c = lower_left.depth();
                let d = lower_right.depth();
                let ab = if a >= b { a } else { b };
                let cd = if c >= d { c } else { d };
                1 + if ab >= cd { ab } else { cd }
            },
        }
    }

    /// Whether every index held below this node is less than `n`.
    pub open spec fn in_range(self, n: nat) -> bool
        decreases self,
    {
        match self {
            QuadNode::Leaf { body_indices } => forall|k: int|
                0 <= k < body_indices@.len() ==> #[trigger] body_indices@[k] < n,
            QuadNode::Internal { upper_left, upper_right, lower_left, lower_right, .. } => {
                &&& upper_left.in_range(n)
                &&& upper_right.in_range(n)
                &&& lower_left.in_range(n)
                &&& lower_right.in_range(n)
            },
        }
    }

    /// Whether every body held below this node lies in quadrant `quadrant`
    /// of `parent_bounds`.
    pub open spec fn routed_to(self, quadrant: int, parent_bounds: Bounds, bodies: Seq<Body>) -> bool {
        forall|id: usize| #[trigger]
            self.indices().contains(id) ==> id < bodies.len() && quadrant_of(
                bodies[id as int].pos,
                parent_bounds,
            ) == quadrant
    }

    /// Whether each child of this internal node is well formed over its
    /// quadrant of `bounds` and holds only bodies of that quadrant.
    pub open spec fn children_well_formed(self, bounds: Bounds, bodies: Seq<Body>, cap: nat) -> bool
        decreases self, 0int,
    {
        match self {
            QuadNode::Leaf { .. } => false,
            QuadNode::Internal { upper_left, upper_right, lower_left, lower_right, .. } => {
                &&& upper_left.well_formed(child_bounds_of(bounds, 0), bodies, cap)
                &&& upper_right.well_formed(child_bounds_of(bounds, 1), bodies, cap)
                &&& lower_left.well_formed(child_bounds_of(bounds, 2), bodies, cap)
                &&& lower_right.well_formed(child_bounds_of(bounds, 3), bodies, cap)
                &&& upper_left.routed_to(0, bounds, bodies)
                &&& upper_right.routed_to(1, bounds, bodies)
                &&& lower_left.routed_to(2, bounds, bodies)
                &&& lower_right.routed_to(3, bounds, bodies)
            },
        }
    }

    /// The shape that geometry and the leaf capacity `cap` prescribe for a
    /// subtree over `bounds`. A leaf holds at most `cap` bodies, or one, or
    /// lies over a rectangle too small to split. An internal node lies over
    /// a rectangle that can be split, holds more bodies than a leaf may, and
    /// has every body in the child of the quadrant that the body's position
    /// is routed to.
    pub open spec fn well_formed(self, bounds: Bounds, bodies: Seq<Body>, cap: nat) -> bool
        decreases self, 1int,
    {
        match self {
            QuadNode::Leaf { body_indices } => {
                ||| body_indices@.len() <= cap
                ||| body_indices@.len() <= 1
                ||| !can_split(bounds)
            },
            QuadNode::Internal { .. } => {
                &&& can_split(bounds)
                &&& self.indices().len() > cap
                &&& self.indices().len() > 1
                &&& self.children_well_formed(bounds, bodies, cap)
            },
        }
    }

    /// Whether every internal node below and including this one carries the
    /// total mass of the bodies below it and, where that mass is positive,
    /// their mass-weighted mean position, each coordinate rounded down.
    pub open spec fn aggregated(self, bodies: Seq<Body>) -> bool
        decreases self,
    {
        match self {
            QuadNode::Leaf { .. } => true,
            QuadNode::Internal {
                upper_left,
                upper_right,
                lower_left,
                lower_right,
                center_of_mass,
                total_mass,
            } => {
                &&& upper_left.aggregated(bodies)
                &&& upper_right.aggregated(bodies)
                &&& lower_left.aggregated(bodies)
                &&& lower_right.aggregated(bodies)
                &&& total_mass == self.sum(mass_of(bodies))
                &&& total_mass > 0 ==> {
                    &&& center_of_mass.x == self.sum(moment_x_of(bodies)) / (total_mass as int)
                    &&& center_of_mass.y == self.sum(moment_y_of(bodies)) / (total_mass as int)
                }
            },
        }
    }

    /// Whether no internal node below and including this one has been given
    /// an aggregate yet: each carries no mass, at the origin.
    pub open spec fn unaggregated(self) -> bool
        decreases self,
    {
        match self {
            QuadNode::Leaf { .. } => true,
            QuadNode::Internal {
                upper_left,
                upper_right,
                lower_left,
                lower_right,
                center_of_mass,
                total_mass,
            } => {
                &&& total_mass == 0
                &&& center_of_mass == (Point { x: 0, y: 0 })
                &&& upper_left.unaggregated()
                &&& upper_right.unaggregated()
                &&& lower_left.unaggregated()
                &&& lower_right.unaggregated()
            },
        }
    }

    /// Whether every internal node without mass below and including this
    /// one has its center at the origin.
    pub open spec fn massless_at_origin(self) -> bool
        decreases self,
    {
        match self {
            QuadNode::Leaf { .. } => true,
            QuadNode::Internal {
                upper_left,
                upper_right,
                lower_left,
                lower_right,
                center_of_mass,
                total_mass,
            } => {
                &&& total_mass == 0 ==> center_of_mass == (Point { x: 0, y: 0 })
                &&& upper_left.massless_at_origin()
                &&& upper_right.massless_at_origin()
                &&& lower_left.massless_at_origin()
                &&& lower_right.massless_at_origin()
            },
        }
    }

    /// Whether every leaf below this node holds its indices in ascending
    /// order.
    pub open spec fn leaves_ascending(self) -> bool
        decreases self,
    {
        match self {
            QuadNode::Leaf { body_indices } => ascending(body_indices@),
            QuadNode::Internal { upper_left, upper_right, lower_left, lower_right, .. } => {
                &&& upper_left.leaves_ascending()
                &&& upper_right.leaves_ascending()
                &&& lower_left.leaves_ascending()
                &&& lower_right.leaves_ascending()
            },
        }
    }

    /// Whether each of the indices `0, .., n - 1` is held in exactly one leaf
    /// below this node, once, and no other index is held at all.
    pub open spec fn holds_each_once(self, n: nat) -> bool {
        forall|id: usize| #[trigger]
            self.indices().count(id) == (if id < n {
                1nat
            } else {
                0nat
            })
    }

    /// A leaf that holds no body.
    pub fn new_leaf() -> (node: Self)
        ensures
            node is Leaf,
            node->body_indices@ == Seq::<usize>::empty(),
    {
        QuadNode::Leaf { body_indices: Vec::new() }
    }

    /// Whether this node is a leaf.
    pub fn is_leaf(&self) -> (leaf: bool)
        ensures
            leaf == (self is Leaf),
    {
        matches!(self, QuadNode::Leaf { .. })
    }
}

/// Whether two subtrees are the same tree: of the same shape, with the same
/// indices in the same order in each leaf, and with the same aggregate in
/// each internal node.
pub open spec fn same_tree(a: QuadNode, b: QuadNode) -> bool
    decreases a,
{
    match a {
        QuadNode::Leaf { body_indices } => b is Leaf && b->body_indices@ == body_indices@,
        QuadNode::Internal {
            upper_left,
            upper_right,
            lower_left,
            lower_right,
            center_of_mass,
            total_mass,
        } => {
            &&& b is Internal
            &&& same_tree(*upper_left, *b->upper_left)
            &&& same_tree(*upper_right, *b->upper_right)
            &&& same_tree(*lower_left, *b->lower_left)
            &&& same_tree(*lower_right, *b->lower_right)
            &&& b->total_mass == total_mass
            &&& b->center_of_mass == center_of_mass
        },
    }
}

impl Clone for QuadNode {
    /// A copy of the whole subtree.
    fn clone(&self) -> (copy: Self)
        ensures
            same_tree(*self, copy),
        decreases self,
    {
        match self {
            QuadNode::Leaf { body_indices } => {
                let copied = body_indices.clone();
                QuadNode::Leaf { body_indices: copied }
            },
            QuadNode::Internal {
                upper_left,
                upper_right,
                lower_left,
                lower_right,
                center_of_mass,
                total_mass,
            } => QuadNode::Internal {
                upper_left: Box::new((&**upper_left).clone()),
                upper_right: Box::new((&**upper_right).clone()),
                lower_left: Box::new((&**lower_left).clone()),
                lower_right: Box::new((&**lower_right).clone()),
                center_of_mass: *center_of_mass,
                total_mass: *total_mass,
            },
        }
    }
}

/// How the subtree `after` over `bounds` comes from the subtree `before` by
/// the insertion of body `id` of `bodies`, for the leaf capacity `cap`.
pub open spec fn inserted(
    before: QuadNode,
    after: QuadNode,
    id: usize,
    bounds: Bounds,
    bodies: Seq<Body>,
    cap: nat,
) -> bool
    decreases extent(bounds), 1nat, before.depth(),
{
    // The subtree holds what it held and `id` once more.
    &&& after.indices() =~= before.indices().insert(id)
    &&& forall|f: spec_fn(usize) -> int| #[trigger] after.sum(f) == before.sum(f) + f(id)
    &&& forall|limit: nat| before.in_range(limit) && id < limit ==> #[trigger] after.in_range(limit)
    // What comes from a leaf has the prescribed shape; what comes from an
    // internal node of that shape has it too.
    &&& before is Leaf || before.well_formed(bounds, bodies, cap) ==> after.well_formed(
        bounds,
        bodies,
        cap,
    )
    // The order within the leaves is kept.
    &&& before.leaves_ascending() && before.in_range(id as nat) ==> after.leaves_ascending()
    // No aggregate is computed.
    &&& before.unaggregated() ==> after.unaggregated()
    &&& match before {
        QuadNode::Leaf { body_indices } => {
            if can_split(bounds) && body_indices@.len() + 1 > cap && body_indices@.len() + 1 > 1 {
                // A leaf that is split becomes an internal node, whose
                // aggregate is still to be computed, and hands its bodies
                // and `id` to its children in the order in which it held
                // them.
                &&& after is Internal
                &&& after->total_mass == 0
                &&& after->center_of_mass == (Point { x: 0, y: 0 })
                &&& exists|start: QuadNode| #[trigger]
                    is_empty_internal(start) && placed_all(
                        start,
                        after,
                        body_indices@.push(id),
                        bounds,
                        bodies,
                        cap,
                    )
            } else {
                // A leaf that need not or cannot be split has `id` appended.
                after is Leaf && after->body_indices@ == body_indices@.push(id)
            }
        },
        QuadNode::Internal {
            upper_left,
            upper_right,
            lower_left,
            lower_right,
            center_of_mass,
            total_mass,
        } => {
            // An internal node keeps its aggregate and hands the body to the
            // child of the quadrant that the body's position is routed to;
            // its other children stay as they are.
            let quadrant = quadrant_of(bodies[id as int].pos, bounds);
            &&& after is Internal
            &&& after->total_mass == total_mass
            &&& after->center_of_mass == center_of_mass
            &&& if quadrant == 0 {
                inserted(*upper_left, *after->upper_left, id, child_bounds_of(bounds, 0), bodies, cap)
            } else {
                *after->upper_left == *upper_left
            }
            &&& if quadrant == 1 {
                inserted(
                    *upper_right,
                    *after->upper_right,
                    id,
                    child_bounds_of(bounds, 1),
                    bodies,
                    cap,
                )
            } else {
                *after->upper_right == *upper_right
            }
            &&& if quadrant == 2 {
                inserted(*lower_left, *after->lower_left, id, child_bounds_of(bounds, 2), bodies, cap)
            } else {
                *after->lower_left == *lower_left
            }
            &&& if quadrant == 3 {
                inserted(
                    *lower_right,
                    *after->lower_right,
                    id,
                    child_bounds_of(bounds, 3),
                    bodies,
                    cap,
                )
            } else {
                *after->lower_right == *lower_right
            }
        },
    }
}

/// Whether `node` is an internal node without bodies: its children are
/// leaves that hold nothing, and its aggregate is still to be computed.
pub open spec fn is_empty_internal(node: QuadNode) -> bool {
    &&& node is Internal
    &&& node.child(0) is Leaf && node.child(0)->body_indices@.len() == 0
    &&& node.child(1) is Leaf && node.child(1)->body_indices@.len() == 0
    &&& node.child(2) is Leaf && node.child(2)->body_indices@.len() == 0
    &&& node.child(3) is Leaf && node.child(3)->body_indices@.len() == 0
    &&& node->total_mass == 0
    &&& node->center_of_mass == (Point { x: 0, y: 0 })
}

/// Whether `before` and `after` are internal nodes with the same aggregate.
pub open spec fn handed_on(before: QuadNode, after: QuadNode) -> bool {
    &&& before is Internal
    &&& after is Internal
    &&& after->total_mass == before->total_mass
    &&& after->center_of_mass == before->center_of_mass
}

/// How the internal node `after` over `bounds`, a rectangle that can be
/// split, comes from the internal node `start` when the bodies `ids` of
/// `bodies` are handed to its children, one after the other in the order of
/// the list, each to the child of the quadrant that its position is routed
/// to.
pub open spec fn placed_all(
    start: QuadNode,
    after: QuadNode,
    ids: Seq<usize>,
    bounds: Bounds,
    bodies: Seq<Body>,
    cap: nat,
) -> bool
    decreases extent(bounds), 0nat, ids.len(),
{
    if !can_split(bounds) {
        false
    } else if ids.len() == 0 {
        after == start
    } else {
        exists|mid: QuadNode|
            #![trigger handed_on(mid, after)]
            {
                let id = ids.last();
                let quadrant = quadrant_of(bodies[id as int].pos, bounds);
                &&& placed_all(start, mid, ids.drop_last(), bounds, bodies, cap)
                &&& handed_on(mid, after)
                &&& if quadrant == 0 {
                    inserted(
                        mid.child(0),
                        after.child(0),
                        id,
                        child_bounds_of(bounds, 0),
                        bodies,
                        cap,
                    )
                } else {
                    after.child(0) == mid.child(0)
                }
                &&& if quadrant == 1 {
                    inserted(
                        mid.child(1),
                        after.child(1),
                        id,
                        child_bounds_of(bounds, 1),
                        bodies,
                        cap,
                    )
                } else {
                    after.child(1) == mid.child(1)
                }
                &&& if quadrant == 2 {
                    inserted(
                        mid.child(2),
                        after.child(2),
                        id,
                        child_bounds_of(bounds, 2),
                        bodies,
                        cap,
                    )
                } else {
                    after.child(2) == mid.child(2)
                }
                &&& if quadrant == 3 {
                    inserted(
                        mid.child(3),
                        after.child(3),
                        id,
                        child_bounds_of(bounds, 3),
                        bodies,
                        cap,
                    )
                } else {
                    after.child(3) == mid.child(3)
                }
            }
    }
}

/// How the subtree `after` comes from the subtree `before` by aggregation:
/// the leaves and the shape are as they were, and each internal node carries
/// the total mass of the bodies below it, with their mass-weighted mean
/// position, each coordinate rounded down, where that mass is positive, and
/// the center that it had where it is not.
pub open spec fn aggregate_of(before: QuadNode, after: QuadNode, bodies: Seq<Body>) -> bool
    decreases before,
{
    match before {
        QuadNode::Leaf { .. } => after == before,
        QuadNode::Internal {
            upper_left,
            upper_right,
            lower_left,
            lower_right,
            center_of_mass,
            ..
        } => {
            &&& after is Internal
            &&& aggregate_of(*upper_left, *after->upper_left, bodies)
            &&& aggregate_of(*upper_right, *after->upper_right, bodies)
            &&& aggregate_of(*lower_left, *after->lower_left, bodies)
            &&& aggregate_of(*lower_right, *after->lower_right, bodies)
            &&& after->total_mass == before.sum(mass_of(bodies))
            &&& after->total_mass > 0 ==> {
                &&& after->center_of_mass.x == before.sum(moment_x_of(bodies)) / (
                after->total_mass as int)
                &&& after->center_of_mass.y == before.sum(moment_y_of(bodies)) / (
                after->total_mass as int)
            }
            &&& after->total_mass == 0 ==> after->center_of_mass == center_of_mass
        },
    }
}

/// The spatial tree over a fixed rectangle. A leaf is split once it holds
/// more than `max_bodies_per_leaf` bodies and more than one.
pub struct Quadtree {
    root: QuadNode,
    bounds: Bounds,
    max_bodies_per_leaf: usize,
}

impl Quadtree {
    /// The root node.
    pub closed spec fn spec_root(self) -> QuadNode {
        self.root
    }

    /// The rectangle that the root lies over.
    pub closed spec fn spec_bounds(self) -> Bounds {
        self.bounds
    }

    /// The number of bodies above which a leaf is split.
    pub closed spec fn capacity(self) -> nat {
        self.max_bodies_per_leaf as nat
    }

    /// An empty tree over `bounds` whose leaves are split once they hold more
    /// than `max_bodies_per_leaf` bodies.
    pub fn new(bounds: Bounds, max_bodies_per_leaf: usize) -> (tree: Self)
        ensures
            tree.spec_root() is Leaf,
            tree.spec_root()->body_indices@ == Seq::<usize>::empty(),
            tree.spec_bounds() == bounds,
            tree.capacity() == max_bodies_per_leaf,
    {
        Self { root: QuadNode::new_leaf(), bounds, max_bodies_per_leaf }
    }

    /// The quadrant of `bounds` that `pos` is routed to.
    pub fn get_quadrant(pos: Point, bounds: Bounds) -> (quadrant: usize)
        ensures
            quadrant == quadrant_of(pos, bounds),
            quadrant < 4,
    {
        let mid_x: i64 = halfway(bounds.0, bounds.1);
        let mid_y: i64 = halfway(bounds.2, bounds.3);
        let x: i64 = pos.x as i64 * ONE;
        let y: i64 = pos.y as i64 * ONE;
        if y >= mid_y {
            if x >= mid_x { 1 } else { 0 }
        } else {
            if x >= mid_x { 3 } else { 2 }
        }
    }

    /// The rectangle of quadrant `quadrant` of `parent_bounds`.
    pub fn get_child_bounds(parent_bounds: Bounds, quadrant: usize) -> (child: Bounds)
        requires
            quadrant < 4,
        ensures
            child == child_bounds_of(parent_bounds, quadrant as int),
    {
        let (min_x, max_x, min_y, max_y) = parent_bounds;
        let mid_x: i64 = halfway(min_x, max_x);
        let mid_y: i64 = halfway(min_y, max_y);
        if quadrant == 0 {
            (min_x, mid_x, mid_y, max_y)
        } else if quadrant == 1 {
            (mid_x, max_x, mid_y, max_y)
        } else if quadrant == 2 {
            (min_x, mid_x, min_y, mid_y)
        } else {
            (mid_x, max_x, min_y, mid_y)
        }
    }

    /// Adds body `body_index` of `bodies` to the leaf that its position is
    /// routed to, splitting that leaf where it then holds too many bodies.
    /// The aggregates of the internal nodes are left as they were.
    pub fn insert_body(&mut self, body_index: usize, bodies: &[Body])
        requires
            body_index < bodies@.len(),
            old(self).spec_root().in_range(bodies@.len()),
        ensures
            final(self).spec_bounds() == old(self).spec_bounds(),
            final(self).capacity() == old(self).capacity(),
            inserted(
                old(self).spec_root(),
                final(self).spec_root(),
                body_index,
                old(self).spec_bounds(),
                bodies@,
                old(self).capacity(),
            ),
    {
        let bounds = self.bounds;
        let max_bodies = self.max_bodies_per_leaf;
        Self::insert_body_recursive(&mut self.root, body_index, bounds, bodies, max_bodies);
    }

    fn insert_body_recursive(
        node: &mut QuadNode,
        body_index: usize,
        node_bounds: Bounds,
        bodies: &[Body],
        max_bodies_per_leaf: usize,
    )
        requires
            body_index < bodies@.len(),
            old(node).in_range(bodies@.len()),
        ensures
            inserted(
                *old(node),
                *final(node),
                body_index,
                node_bounds,
                bodies@,
                max_bodies_per_leaf as nat,
            ),
        decreases extent(node_bounds), old(node).depth(), 1int,
    {
        match node {
            QuadNode::Leaf { body_indices } => {
                proof {
                    vstd::seq_lib::to_multiset_build(body_indices@, body_index);
                    assert forall|f: spec_fn(usize) -> int| #[trigger]
                        seq_sum(body_indices@.push(body_index), f) == seq_sum(body_indices@, f)
                            + f(body_index) by {
                        lemma_seq_sum_push(body_indices@, body_index, f);
                    }
                }
                body_indices.push(body_index);
                if body_indices.len() > max_bodies_per_leaf && body_indices.len() > 1 {
                    Self::subdivide_node(node, node_bounds, bodies, max_bodies_per_leaf);
                }
            },
            QuadNode::Internal { upper_left, upper_right, lower_left, lower_right, .. } => {
                let quadrant: usize = Self::get_quadrant(bodies[body_index].pos(), node_bounds);
                let child_bounds: Bounds = Self::get_child_bounds(node_bounds, quadrant);
                proof {
                    lemma_child_extent(node_bounds, quadrant as int);
                }
                let child: &mut QuadNode = if quadrant == 0 {
                    upper_left
                } else if quadrant == 1 {
                    upper_right
                } else if quadrant == 2 {
                    lower_left
                } else {
                    lower_right
                };
                let ghost before = *child;
                Self::insert_body_recursive(
                    child,
                    body_index,
                    child_bounds,
                    bodies,
                    max_bodies_per_leaf,
                );
                assert forall|f: spec_fn(usize) -> int| #[trigger]
                    node.sum(f) == old(node).sum(f) + f(body_index) by {
                    assert(child.sum(f) == before.sum(f) + f(body_index));
                }
                assert forall|limit: nat|
                    old(node).in_range(limit) && body_index < limit implies #[trigger] node.in_range(
                    limit,
                ) by {
                    assert(child.in_range(limit));
                }
                proof {
                    if old(node).well_formed(node_bounds, bodies@, max_bodies_per_leaf as nat) {
                        lemma_routed_after_insert(
                            before,
                            *child,
                            body_index,
                            quadrant as int,
                            node_bounds,
                            bodies@,
                        );
                        assert(node.children_well_formed(
                            node_bounds,
                            bodies@,
                            max_bodies_per_leaf as nat,
                        ));
                    }
                    if old(node).leaves_ascending() && old(node).in_range(body_index as nat) {
                        assert(before.leaves_ascending());
                        assert(before.in_range(body_index as nat));
                    }
                }
            },
        }
    }

    /// Turns a leaf that holds more than one body, over a rectangle that can
    /// be split, into an internal node, and hands each of its bodies to the
    /// child of the quadrant that the body's position is routed to, in the
    /// order in which the leaf held them. Any other node is left as it is.
    fn subdivide_node(
        node: &mut QuadNode,
        node_bounds: Bounds,
        bodies: &[Body],
        max_bodies_per_leaf: usize,
    )
        requires
            old(node).in_range(bodies@.len()),
        ensures
            final(node).indices() == old(node).indices(),
            forall|f: spec_fn(usize) -> int| #[trigger] final(node).sum(f) == old(node).sum(f),
            forall|limit: nat| old(node).in_range(limit) ==> #[trigger] final(node).in_range(limit),
            old(node).leaves_ascending() ==> final(node).leaves_ascending(),
            old(node).unaggregated() ==> final(node).unaggregated(),
            !can_split(node_bounds) || *old(node) is Internal || old(node)->body_indices@.len() <= 1
                ==> *final(node) == *old(node),
            can_split(node_bounds) && *old(node) is Leaf && old(node)->body_indices@.len() > 1 ==> {
                &&& *final(node) is Internal
                &&& final(node)->center_of_mass == (Point { x: 0, y: 0 })
                &&& final(node)->total_mass == 0
                &&& exists|start: QuadNode| #[trigger]
                    is_empty_internal(start) && placed_all(
                        start,
                        *final(node),
                        old(node)->body_indices@,
                        node_bounds,
                        bodies@,
                        max_bodies_per_leaf as nat,
                    )
            },
            *old(node) is Leaf && old(node)->body_indices@.len() > max_bodies_per_leaf
                && old(node)->body_indices@.len() > 1 ==> final(node).well_formed(
                node_bounds,
                bodies@,
                max_bodies_per_leaf as nat,
            ),
        decreases extent(node_bounds), old(node).depth(), 0int,
    {
        let (min_x, max_x, min_y, max_y) = node_bounds;
        let width: i128 = max_x as i128 - min_x as i128;
        let height: i128 = max_y as i128 - min_y as i128;
        if width < MIN_SPLIT_EXTENT as i128 || height < MIN_SPLIT_EXTENT as i128 {
            return ;
        }
        if let QuadNode::Leaf { body_indices } = node {
            if body_indices.len() <= 1 {
                return ;
            }
            let old_indices = body_indices.clone();
            *node = QuadNode::Internal {
                upper_left: Box::new(QuadNode::new_leaf()),
                upper_right: Box::new(QuadNode::new_leaf()),
                lower_left: Box::new(QuadNode::new_leaf()),
                lower_right: Box::new(QuadNode::new_leaf()),
                center_of_mass: Point::new(0, 0),
                total_mass: 0,
            };
            proof {
                reveal_with_fuel(QuadNode::indices, 2);
                reveal_with_fuel(QuadNode::in_range, 2);
                reveal_with_fuel(QuadNode::sum, 2);
                reveal_with_fuel(QuadNode::leaves_ascending, 2);
                reveal_with_fuel(QuadNode::unaggregated, 2);
                lemma_empty_indices();
                assert(old_indices@.take(0) =~= Seq::<usize>::empty());
            }
            let ghost start = *node;
            let mut k: usize = 0;
            while k < old_indices.len()
                invariant
                    k <= old_indices@.len(),
                    *node is Internal,
                    node.unaggregated(),
                    is_empty_internal(start),
                    placed_all(
                        start,
                        *node,
                        old_indices@.take(k as int),
                        node_bounds,
                        bodies@,
                        max_bodies_per_leaf as nat,
                    ),
                    node->center_of_mass == (Point { x: 0, y: 0 }),
                    node->total_mass == 0,
                    forall|j: int|
                        0 <= j < old_indices@.len() ==> #[trigger] old_indices@[j] < bodies@.len(),
                    forall|limit: nat|
                        all_below(old_indices@, limit) ==> #[trigger] node.in_range(limit),
                    node.indices() == old_indices@.take(k as int).to_multiset(),
                    forall|f: spec_fn(usize) -> int| #[trigger]
                        node.sum(f) == seq_sum(old_indices@.take(k as int), f),
                    can_split(node_bounds),
                    node.children_well_formed(node_bounds, bodies@, max_bodies_per_leaf as nat),
                    ascending(old_indices@) ==> node.leaves_ascending() && node.in_range(
                        if k == 0 {
                            0nat
                        } else {
                            (old_indices@[k - 1] + 1) as nat
                        },
                    ),
                decreases old_indices@.len() - k,
            {
                let body_index: usize = old_indices[k];
                let quadrant: usize = Self::get_quadrant(bodies[body_index].pos(), node_bounds);
                let child_bounds: Bounds = Self::get_child_bounds(node_bounds, quadrant);
                let ghost parent = *node;
                proof {
                    lemma_child_extent(node_bounds, quadrant as int);
                    assert(old_indices@.take(k + 1) =~= old_indices@.take(k as int).push(
                        body_index,
                    ));
                    vstd::seq_lib::to_multiset_build(old_indices@.take(k as int), body_index);
                    assert(parent.in_range(bodies@.len()));
                    if ascending(old_indices@) {
                        let reached = if k == 0 {
                            0nat
                        } else {
                            (old_indices@[k - 1] + 1) as nat
                        };
                        lemma_in_range_grows(parent, reached, body_index as nat);
                        lemma_in_range_grows(parent, reached, (body_index + 1) as nat);
                    }
                }
                if let QuadNode::Internal { upper_left, upper_right, lower_left, lower_right, .. } =
                    node {
                    let child: &mut QuadNode = if quadrant == 0 {
                        upper_left
                    } else if quadrant == 1 {
                        upper_right
                    } else if quadrant == 2 {
                        lower_left
                    } else {
                        lower_right
                    };
                    let ghost before = *child;
                    Self::insert_body_recursive(
                        child,
                        body_index,
                        child_bounds,
                        bodies,
                        max_bodies_per_leaf,
                    );
                    assert forall|f: spec_fn(usize) -> int| #[trigger]
                        node.sum(f) == seq_sum(old_indices@.take(k + 1), f) by {
                        assert(child.sum(f) == before.sum(f) + f(body_index));
                        assert(parent.sum(f) == seq_sum(old_indices@.take(k as int), f));
                        lemma_seq_sum_take_succ(old_indices@, k as int, f);
                    }
                    assert forall|limit: nat| all_below(old_indices@, limit) implies #[trigger]
                        node.in_range(limit) by {
                        assert(parent.in_range(limit));
                        assert(child.in_range(limit));
                    }
                    proof {
                        lemma_routed_after_insert(
                            before,
                            *child,
                            body_index,
                            quadrant as int,
                            node_bounds,
                            bodies@,
                        );
                        if ascending(old_indices@) {
                            assert(child.in_range((body_index + 1) as nat));
                        }
                    }
                    proof {
                        lemma_placed_all_push(
                            start,
                            parent,
                            *node,
                            old_indices@.take(k as int),
                            body_index,
                            node_bounds,
                            bodies@,
                            max_bodies_per_leaf as nat,
                        );
                    }
                }
                k += 1;
            }
            proof {
                assert(old_indices@.take(k as int) =~= old_indices@);
                vstd::seq_lib::to_multiset_len(old_indices@);
            }
        }
    }

    /// Builds the tree of `bodies` from nothing: every body is inserted, in
    /// the order of its index, and then every internal node is given its
    /// aggregate.
    pub fn build_from_bodies(&mut self, bodies: &[Body])
        ensures
            final(self).spec_bounds() == old(self).spec_bounds(),
            final(self).capacity() == old(self).capacity(),
            final(self).built_for(bodies@),
    {
        self.root = QuadNode::new_leaf();
        proof {
            lemma_empty_indices();
        }
        let n: usize = bodies.len();
        let mut i: usize = 0;
        while i < n
            invariant
                i <= n,
                n == bodies@.len(),
                self.bounds == old(self).bounds,
                self.max_bodies_per_leaf == old(self).max_bodies_per_leaf,
                self.root.in_range(bodies@.len()),
                self.root.well_formed(self.bounds, bodies@, self.max_bodies_per_leaf as nat),
                self.root.holds_each_once(i as nat),
                self.root.leaves_ascending(),
                self.root.unaggregated(),
                self.root.in_range(i as nat),
                forall|f: spec_fn(usize) -> int| #[trigger]
                    self.root.sum(f) == range_sum(i as nat, f),
            decreases n - i,
        {
            let ghost before = self.root;
            proof {
                lemma_in_range_grows(before, i as nat, (i + 1) as nat);
            }
            self.insert_body(i, bodies);
            proof {
                assert forall|id: usize| #[trigger]
                    self.root.indices().count(id) == (if id < i + 1 {
                        1nat
                    } else {
                        0nat
                    }) by {
                    vstd::multiset::lemma_insert_increases_count_by_1(before.indices(), i);
                    vstd::multiset::lemma_insert_other_elements_unchanged(
                        before.indices(),
                        i,
                        id,
                    );
                }
                assert forall|f: spec_fn(usize) -> int| #[trigger]
                    self.root.sum(f) == range_sum((i + 1) as nat, f) by {
                    lemma_range_sum_succ(i as nat, f);
                }
            }
            i += 1;
        }
        proof {
            lemma_range_sum_bounds(n as nat, mass_of(bodies@), 0, u32::MAX as int);
            assert(n * (u32::MAX as int) <= mass_limit()) by (nonlinear_arith)
                requires
                    0 <= n <= 0xffff_ffff_ffff_ffff,
                    mass_limit() == 0xffff_ffff_ffff_ffff * 0xffff_ffff,
            ;
        }
        let ghost inserted = self.root;
        Self::calculate_center_of_mass(&mut self.root, bodies);
        proof {
            lemma_aggregation_keeps_massless_centers(inserted, self.root, bodies@);
            assert forall|f: spec_fn(usize) -> int| #[trigger]
                self.root.sum(f) == range_sum(n as nat, f) by {
                assert(inserted.sum(f) == range_sum(n as nat, f));
            }
        }
    }

    /// Gives every internal node below and including `node` its aggregate,
    /// children before parents, and returns the total mass of the bodies
    /// below `node` with the sums of their masses times their coordinates.
    fn calculate_center_of_mass(node: &mut QuadNode, bodies: &[Body]) -> (totals: (u128, i128, i128))
        requires
            old(node).in_range(bodies@.len()),
            old(node).sum(mass_of(bodies@)) <= mass_limit(),
        ensures
            final(node).aggregated(bodies@),
            final(node).in_range(bodies@.len()),
            final(node).indices() == old(node).indices(),
            forall|f: spec_fn(usize) -> int| #[trigger] final(node).sum(f) == old(node).sum(f),
            forall|bounds: Bounds, cap: nat| #[trigger]
                final(node).well_formed(bounds, bodies@, cap) == old(node).well_formed(
                    bounds,
                    bodies@,
                    cap,
                ),
            final(node).leaves_ascending() == old(node).leaves_ascending(),
            aggregate_of(*old(node), *final(node), bodies@),
            totals.0 == old(node).sum(mass_of(bodies@)),
            totals.1 == old(node).sum(moment_x_of(bodies@)),
            totals.2 == old(node).sum(moment_y_of(bodies@)),
        decreases *old(node),
    {
        proof {
            lemma_moment_bounds(*node, bodies@);
        }
        match node {
            QuadNode::Leaf { body_indices } => {
                let mut total: u128 = 0;
                let mut weighted_x: i128 = 0;
                let mut weighted_y: i128 = 0;
                let mut k: usize = 0;
                while k < body_indices.len()
                    invariant
                        k <= body_indices@.len(),
                        forall|j: int|
                            0 <= j < body_indices@.len() ==> #[trigger] body_indices@[j]
                                < bodies@.len(),
                        seq_sum(body_indices@, mass_of(bodies@)) <= mass_limit(),
                        total == seq_sum(body_indices@.take(k as int), mass_of(bodies@)),
                        weighted_x == seq_sum(body_indices@.take(k as int), moment_x_of(bodies@)),
                        weighted_y == seq_sum(body_indices@.take(k as int), moment_y_of(bodies@)),
                    decreases body_indices@.len() - k,
                {
                    let body = &bodies[body_indices[k]];
                    proof {
                        let ids = body_indices@;
                        lemma_seq_sum_take_succ(ids, k as int, mass_of(bodies@));
                        lemma_seq_sum_take_succ(ids, k as int, moment_x_of(bodies@));
                        lemma_seq_sum_take_succ(ids, k as int, moment_y_of(bodies@));
                        lemma_seq_sum_prefix_le(ids, k + 1, mass_of(bodies@));
                        lemma_seq_moment_bounds(ids.take(k + 1), bodies@);
                        lemma_product_bounds(body.mass as int, body.pos.x as int);
                        lemma_product_bounds(body.mass as int, body.pos.y as int);
                    }
                    total = total + body.mass() as u128;
                    weighted_x = weighted_x + body.mass() as i128 * body.x() as i128;
                    weighted_y = weighted_y + body.mass() as i128 * body.y() as i128;
                    k += 1;
                }
                assert(body_indices@.take(k as int) =~= body_indices@);
                (total, weighted_x, weighted_y)
            },
            QuadNode::Internal {
                upper_left,
                upper_right,
                lower_left,
                lower_right,
                center_of_mass,
                total_mass,
            } => {
                proof {
                    lemma_sum_nonneg(**upper_left, mass_of(bodies@));
                    lemma_sum_nonneg(**upper_right, mass_of(bodies@));
                    lemma_sum_nonneg(**lower_left, mass_of(bodies@));
                    lemma_sum_nonneg(**lower_right, mass_of(bodies@));
                    lemma_moment_bounds(**upper_left, bodies@);
                    lemma_moment_bounds(**upper_right, bodies@);
                    lemma_moment_bounds(**lower_left, bodies@);
                    lemma_moment_bounds(**lower_right, bodies@);
                }
                let ghost ul = **upper_left;
                let ghost ur = **upper_right;
                let ghost ll = **lower_left;
                let ghost lr = **lower_right;
                let a = Self::calculate_center_of_mass(upper_left, bodies);
                let b = Self::calculate_center_of_mass(upper_right, bodies);
                let c = Self::calculate_center_of_mass(lower_left, bodies);
                let d = Self::calculate_center_of_mass(lower_right, bodies);
                let total: u128 = a.0 + b.0 + c.0 + d.0;
                let weighted_x: i128 = a.1 + b.1 + c.1 + d.1;
                let weighted_y: i128 = a.2 + b.2 + c.2 + d.2;
                if total > 0 {
                    proof {
                        lemma_mean_in_range(weighted_x as int, total as int);
                        lemma_mean_in_range(weighted_y as int, total as int);
                    }
                    *center_of_mass = Point::new(
                        floor_div(weighted_x, total) as i32,
                        floor_div(weighted_y, total) as i32,
                    );
                }
                *total_mass = total;
                proof {
                    assert forall|f: spec_fn(usize) -> int| #[trigger]
                        node.sum(f) == old(node).sum(f) by {
                        assert(upper_left.sum(f) == ul.sum(f));
                        assert(upper_right.sum(f) == ur.sum(f));
                        assert(lower_left.sum(f) == ll.sum(f));
                        assert(lower_right.sum(f) == lr.sum(f));
                    }
                    assert forall|bounds: Bounds, cap: nat| #[trigger]
                        node.well_formed(bounds, bodies@, cap) == old(node).well_formed(
                            bounds,
                            bodies@,
                            cap,
                        ) by {
                        assert(upper_left.well_formed(child_bounds_of(bounds, 0), bodies@, cap)
                            == ul.well_formed(child_bounds_of(bounds, 0), bodies@, cap));
                        assert(upper_right.well_formed(child_bounds_of(bounds, 1), bodies@, cap)
                            == ur.well_formed(child_bounds_of(bounds, 1), bodies@, cap));
                        assert(lower_left.well_formed(child_bounds_of(bounds, 2), bodies@, cap)
                            == ll.well_formed(child_bounds_of(bounds, 2), bodies@, cap));
                        assert(lower_right.well_formed(child_bounds_of(bounds, 3), bodies@, cap)
                            == lr.well_formed(child_bounds_of(bounds, 3), bodies@, cap));
                        assert(node.children_well_formed(bounds, bodies@, cap) == old(
                            node,
                        ).children_well_formed(bounds, bodies@, cap));
                    }
                }
                (total, weighted_x, weighted_y)
            },
        }
    }

    /// The root node.
    pub fn root(&self) -> (root: &QuadNode)
        ensures
            *root == self.spec_root(),
    {
        &self.root
    }

    /// The rectangle that the root lies over.
    pub fn bounds(&self) -> (bounds: Bounds)
        ensures
            bounds == self.spec_bounds(),
    {
        self.bounds
    }

    /// Whether this tree is the finished tree of `bodies`: it has the shape
    /// that geometry and the leaf capacity prescribe, it holds each body in
    /// exactly one leaf, once, each leaf holds its bodies in the order of
    /// their indices, and its internal nodes carry their aggregates, those
    /// without mass at the origin.
    pub open spec fn built_for(self, bodies: Seq<Body>) -> bool {
        let root = self.spec_root();
        &&& root.in_range(bodies.len())
        &&& root.well_formed(self.spec_bounds(), bodies, self.capacity())
        &&& root.holds_each_once(bodies.len())
        &&& root.leaves_ascending()
        &&& forall|f: spec_fn(usize) -> int| #[trigger] root.sum(f) == range_sum(bodies.len(), f)
        &&& root.aggregated(bodies)
        &&& root.massless_at_origin()
    }
}

/// The sums of mass times coordinate over a list of bodies are bounded by the
/// list's mass times the bounds of a coordinate.
pub proof fn lemma_seq_moment_bounds(ids: Seq<usize>, bodies: Seq<Body>)
    ensures
        i32::MIN * seq_sum(ids, mass_of(bodies)) <= seq_sum(ids, moment_x_of(bodies)) <= i32::MAX
            * seq_sum(ids, mass_of(bodies)),
        i32::MIN * seq_sum(ids, mass_of(bodies)) <= seq_sum(ids, moment_y_of(bodies)) <= i32::MAX
            * seq_sum(ids, mass_of(bodies)),
{
    lemma_body_moment_bounds(bodies);
    lemma_seq_sum_weighted(
        ids,
        moment_x_of(bodies),
        mass_of(bodies),
        i32::MIN as int,
        i32::MAX as int,
    );
    lemma_seq_sum_weighted(
        ids,
        moment_y_of(bodies),
        mass_of(bodies),
        i32::MIN as int,
        i32::MAX as int,
    );
}

/// The sums of mass times coordinate over a subtree are bounded by the
/// subtree's mass times the bounds of a coordinate.
pub proof fn lemma_moment_bounds(node: QuadNode, bodies: Seq<Body>)
    ensures
        i32::MIN * node.sum(mass_of(bodies)) <= node.sum(moment_x_of(bodies)) <= i32::MAX
            * node.sum(mass_of(bodies)),
        i32::MIN * node.sum(mass_of(bodies)) <= node.sum(moment_y_of(bodies)) <= i32::MAX
            * node.sum(mass_of(bodies)),
    decreases node,
{
    match node {
        QuadNode::Leaf { body_indices } => {
            lemma_seq_moment_bounds(body_indices@, bodies);
        },
        QuadNode::Internal { upper_left, upper_right, lower_left, lower_right, .. } => {
            lemma_moment_bounds(*upper_left, bodies);
            lemma_moment_bounds(*upper_right, bodies);
            lemma_moment_bounds(*lower_left, bodies);
            lemma_moment_bounds(*lower_right, bodies);
        },
    }
}

/// Each body's mass times a coordinate lies between the mass times the
/// bounds of a coordinate.
proof fn lemma_body_moment_bounds(bodies: Seq<Body>)
    ensures
        forall|id: usize|
            i32::MIN * mass_of(bodies)(id) <= #[trigger] moment_x_of(bodies)(id) <= i32::MAX
                * mass_of(bodies)(id),
        forall|id: usize|
            i32::MIN * mass_of(bodies)(id) <= #[trigger] moment_y_of(bodies)(id) <= i32::MAX
                * mass_of(bodies)(id),
{
    assert forall|id: usize|
        i32::MIN * mass_of(bodies)(id) <= #[trigger] moment_x_of(bodies)(id) <= i32::MAX * mass_of(
            bodies,
        )(id) by {
        lemma_product_bounds(bodies[id as int].mass as int, bodies[id as int].pos.x as int);
    }
    assert forall|id: usize|
        i32::MIN * mass_of(bodies)(id) <= #[trigger] moment_y_of(bodies)(id) <= i32::MAX * mass_of(
            bodies,
        )(id) by {
        lemma_product_bounds(bodies[id as int].mass as int, bodies[id as int].pos.y as int);
    }
}

/// A mass times a coordinate lies between the mass times the bounds of a
/// coordinate.
proof fn lemma_product_bounds(m: int, x: int)
    requires
        0 <= m,
        i32::MIN <= x <= i32::MAX,
    ensures
        i32::MIN * m <= m * x <= i32::MAX * m,
{
    assert(i32::MIN * m <= m * x <= i32::MAX * m) by (nonlinear_arith)
        requires
            0 <= m,
            i32::MIN <= x <= i32::MAX,
    ;
}

/// A weighted mean of coordinates, rounded down, is a coordinate.
proof fn lemma_mean_in_range(weighted: int, total: int)
    requires
        total > 0,
        i32::MIN * total <= weighted <= i32::MAX * total,
    ensures
        i32::MIN <= weighted / total <= i32::MAX,
{
    vstd::arithmetic::div_mod::lemma_fundamental_div_mod(weighted, total);
    let q = weighted / total;
    let r = weighted % total;
    assert(0 <= r < total) by {
        vstd::arithmetic::div_mod::lemma_mod_bound(weighted, total);
    }
    assert(i32::MIN <= q <= i32::MAX) by (nonlinear_arith)
        requires
            total > 0,
            weighted == total * q + r,
            0 <= r < total,
            i32::MIN * total <= weighted <= i32::MAX * total,
    ;
}

/// A sum over a subtree has no negative value where `f` has none.
pub proof fn lemma_sum_nonneg(node: QuadNode, f: spec_fn(usize) -> int)
    requires
        forall|id: usize| 0 <= #[trigger] f(id),
    ensures
        0 <= node.sum(f),
    decreases node,
{
    match node {
        QuadNode::Leaf { body_indices } => {
            lemma_seq_sum_nonneg(body_indices@, f);
        },
        QuadNode::Internal { upper_left, upper_right, lower_left, lower_right, .. } => {
            lemma_sum_nonneg(*upper_left, f);
            lemma_sum_nonneg(*upper_right, f);
            lemma_sum_nonneg(*lower_left, f);
            lemma_sum_nonneg(*lower_right, f);
        },
    }
}

/// Where, for each of the first `n` bodies, the term of `f` lies between `lo`
/// and `hi` times the term of a weight `g`, the sum of `f` over a subtree of
/// such bodies lies between `lo` and `hi` times the sum of `g`.
pub proof fn lemma_sum_weighted(
    node: QuadNode,
    n: nat,
    f: spec_fn(usize) -> int,
    g: spec_fn(usize) -> int,
    lo: int,
    hi: int,
)
    requires
        node.in_range(n),
        forall|id: usize| id < n ==> lo * g(id) <= #[trigger] f(id) <= hi * g(id),
    ensures
        lo * node.sum(g) <= node.sum(f) <= hi * node.sum(g),
    decreases node,
{
    match node {
        QuadNode::Leaf { body_indices } => {
            lemma_seq_sum_weighted(body_indices@, f, g, lo, hi);
        },
        QuadNode::Internal { upper_left, upper_right, lower_left, lower_right, .. } => {
            lemma_sum_weighted(*upper_left, n, f, g, lo, hi);
            lemma_sum_weighted(*upper_right, n, f, g, lo, hi);
            lemma_sum_weighted(*lower_left, n, f, g, lo, hi);
            lemma_sum_weighted(*lower_right, n, f, g, lo, hi);
            let a = upper_left.sum(g);
            let b = upper_right.sum(g);
            let c = lower_left.sum(g);
            let d = lower_right.sum(g);
            assert(lo * (a + b + c + d) == lo * a + lo * b + lo * c + lo * d) by (nonlinear_arith);
            assert(hi * (a + b + c + d) == hi * a + hi * b + hi * c + hi * d) by (nonlinear_arith);
        },
    }
}

/// Where `f` vanishes wherever a weight `g` without negative values does, the
/// sum of `f` over a subtree vanishes if the sum of `g` over it does.
pub proof fn lemma_sum_vanishes(node: QuadNode, f: spec_fn(usize) -> int, g: spec_fn(usize) -> int)
    requires
        forall|id: usize| 0 <= #[trigger] g(id),
        forall|id: usize| g(id) == 0 ==> #[trigger] f(id) == 0,
        node.sum(g) == 0,
    ensures
        node.sum(f) == 0,
    decreases node,
{
    match node {
        QuadNode::Leaf { body_indices } => {
            lemma_seq_sum_vanishes(body_indices@, f, g);
        },
        QuadNode::Internal { upper_left, upper_right, lower_left, lower_right, .. } => {
            lemma_sum_nonneg(*upper_left, g);
            lemma_sum_nonneg(*upper_right, g);
            lemma_sum_nonneg(*lower_left, g);
            lemma_sum_nonneg(*lower_right, g);
            lemma_sum_vanishes(*upper_left, f, g);
            lemma_sum_vanishes(*upper_right, f, g);
            lemma_sum_vanishes(*lower_left, f, g);
            lemma_sum_vanishes(*lower_right, f, g);
        },
    }
}

/// A subtree that holds only bodies of one quadrant still does so once it
/// holds one more body of that quadrant.
proof fn lemma_routed_after_insert(
    before: QuadNode,
    after: QuadNode,
    id: usize,
    quadrant: int,
    parent_bounds: Bounds,
    bodies: Seq<Body>,
)
    requires
        before.routed_to(quadrant, parent_bounds, bodies),
        after.indices() == before.indices().insert(id),
        id < bodies.len(),
        quadrant_of(bodies[id as int].pos, parent_bounds) == quadrant,
    ensures
        after.routed_to(quadrant, parent_bounds, bodies),
{
    assert forall|other: usize| #[trigger] after.indices().contains(other) implies other
        < bodies.len() && quadrant_of(bodies[other as int].pos, parent_bounds) == quadrant by {
        vstd::multiset::lemma_insert_containment(before.indices(), id, other);
        if other != id {
            assert(before.indices().contains(other));
        }
    }
}

/// A subtree whose indices are all less than `small` has them all less than
/// anything larger.
pub proof fn lemma_in_range_grows(node: QuadNode, small: nat, large: nat)
    requires
        node.in_range(small),
        small <= large,
    ensures
        node.in_range(large),
    decreases node,
{
    match node {
        QuadNode::Leaf { .. } => {},
        QuadNode::Internal { upper_left, upper_right, lower_left, lower_right, .. } => {
            lemma_in_range_grows(*upper_left, small, large);
            lemma_in_range_grows(*upper_right, small, large);
            lemma_in_range_grows(*lower_left, small, large);
            lemma_in_range_grows(*lower_right, small, large);
        },
    }
}

/// Aggregation leaves the center of a node without mass where it was: at
/// the origin, in a tree that had no aggregates before.
pub proof fn lemma_aggregation_keeps_massless_centers(
    before: QuadNode,
    after: QuadNode,
    bodies: Seq<Body>,
)
    requires
        before.unaggregated(),
        aggregate_of(before, after, bodies),
    ensures
        after.massless_at_origin(),
    decreases before,
{
    match before {
        QuadNode::Leaf { .. } => {},
        QuadNode::Internal { upper_left, upper_right, lower_left, lower_right, .. } => {
            lemma_aggregation_keeps_massless_centers(*upper_left, *after->upper_left, bodies);
            lemma_aggregation_keeps_massless_centers(*upper_right, *after->upper_right, bodies);
            lemma_aggregation_keeps_massless_centers(*lower_left, *after->lower_left, bodies);
            lemma_aggregation_keeps_massless_centers(*lower_right, *after->lower_right, bodies);
        },
    }
}

/// One more body handed down extends a run of bodies handed down.
proof fn lemma_placed_all_push(
    start: QuadNode,
    mid: QuadNode,
    after: QuadNode,
    ids: Seq<usize>,
    id: usize,
    bounds: Bounds,
    bodies: Seq<Body>,
    cap: nat,
)
    requires
        can_split(bounds),
        placed_all(start, mid, ids, bounds, bodies, cap),
        handed_on(mid, after),
        ({
            let quadrant = quadrant_of(bodies[id as int].pos, bounds);
            &&& inserted(
                mid.child(quadrant),
                after.child(quadrant),
                id,
                child_bounds_of(bounds, quadrant),
                bodies,
                cap,
            )
            &&& forall|other: int|
                0 <= other < 4 && other != quadrant ==> after.child(other) == mid.child(other)
        }),
    ensures
        placed_all(start, after, ids.push(id), bounds, bodies, cap),
{
    let longer = ids.push(id);
    assert(longer.drop_last() =~= ids);
    assert(longer.last() == id);
    assert(longer.len() != 0);
    assert(placed_all(start, mid, longer.drop_last(), bounds, bodies, cap));
    let quadrant = quadrant_of(bodies[id as int].pos, bounds);
    assert(0 <= quadrant < 4);
    assert(quadrant != 0 ==> after.child(0) == mid.child(0));
    assert(quadrant != 1 ==> after.child(1) == mid.child(1));
    assert(quadrant != 2 ==> after.child(2) == mid.child(2));
    assert(quadrant != 3 ==> after.child(3) == mid.child(3));
}

/// A sequence without entries holds no index.
proof fn lemma_empty_indices()
    ensures
        Seq::<usize>::empty().to_multiset() == Multiset::<usize>::empty(),
{
    vstd::seq_lib::to_multiset_len(Seq::<usize>::empty());
}

} // verus!
