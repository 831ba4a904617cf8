//! Barnes-Hut approximation of pairwise gravity on an integer lattice.
//!
//! Positions, masses and forces are integers in units that the caller
//! chooses, so every decision the tree and the traversal take is exact and
//! every aggregate is an exact sum. The rectangles of the tree are held
//! finer than the positions, so that a rectangle is halved exactly until a
//! side is shorter than one step of the lattice. A step of a simulation builds the tree
//! of the bodies with [`barnes_hut::Quadtree::build_from_bodies`] and then
//! gathers one force for each body with
//! [`barnes_hut::BarnesHutForceCalculator::calculate_forces`].

pub mod barnes_hut;
pub mod physics;
