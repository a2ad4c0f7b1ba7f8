//! Coordinates: a pair of signed integers addressing a pixel in buffer
//! space. No invariant is enforced on construction; bounds are checked
//! only when a pixel is written.

use vstd::prelude::*;

verus! {

/// A pixel coordinate. May be negative or out of bounds.
#[derive(Debug, Clone, Copy, PartialEq, Eq, Structural)]
pub struct Point {
    pub x: i32,
    pub y: i32,
}

impl Point {
    pub fn new(x: i32, y: i32) -> (p: Point)
        ensures
            p == (Point { x, y }),
    {
        Point { x, y }
    }
}

} // verus!
