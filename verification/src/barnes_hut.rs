//! The spatial tree and the traversal that evaluates forces against it.

pub mod arith;
pub mod force_calculator;
pub mod laws;
pub mod quadtree;
pub mod sums;

pub use quadtree::QuadNode;
pub use quadtree::Quadtree;
pub use force_calculator::BarnesHutForceCalculator;
