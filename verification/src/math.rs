//! Small geometric helpers shared by the grid-based modules.

use vstd::prelude::*;

verus! {

/// A grid position.
#[derive(PartialEq, Eq, Structural, Clone, Copy, Debug, Hash)]
pub struct Point {
    pub x: i32,
    pub y: i32,
}

impl Point {
    /// The point with the given coordinates.
    pub fn new(x: i32, y: i32) -> (p: Point)
        ensures
            p.x == x,
            p.y == y,
    {
        Point { x, y }
    }
}

} // verus!
