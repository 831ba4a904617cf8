//! Point masses as the spatial tree and the force evaluator read them.

pub mod body;
