use vstd::prelude::*;

verus! {

/// A lattice point of the plane.
#[derive(Clone, Copy, Debug, PartialEq, Eq, Structural)]
pub struct Point {
    pub x: i32,
    pub y: i32,
}

impl Point {
    /// The point with the given coordinates.
    pub fn new(x: i32, y: i32) -> (p: Self)
        ensures
            p == (Point { x, y }),
    {
        Point { x, y }
    }
}

/// A point mass: where it is and how heavy it is.
#[derive(Clone, Copy, Debug, PartialEq, Eq, Structural)]
pub struct Body {
    pub pos: Point,
    pub mass: u32,
}

impl Body {
    /// A body of the given mass at `(x, y)`.
    pub fn new(x: i32, y: i32, mass: u32) -> (b: Self)
        ensures
            b == (Body { pos: Point { x, y }, mass }),
    {
        Body { pos: Point { x, y }, mass }
    }

    /// Where the body is.
    pub fn pos(&self) -> (p: Point)
        ensures
            p == self.pos,
    {
        self.pos
    }

    /// The body's `x` coordinate.
    pub fn x(&self) -> (x: i32)
        ensures
            x == self.pos.x,
    {
        self.pos.x
    }

    /// The body's `y` coordinate.
    pub fn y(&self) -> (y: i32)
        ensures
            y == self.pos.y,
    {
        self.pos.y
    }

    /// The body's mass.
    pub fn mass(&self) -> (m: u32)
        ensures
            m == self.mass,
    {
        self.mass
    }
}

} // verus!
