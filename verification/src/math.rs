//! Integer vectors.

use vstd::prelude::*;

verus! {

/// A pair of integer coordinates: a grid cell, or a size in pixels.
#[derive(PartialEq, Eq, Structural, Copy, Clone, Debug)]
pub struct Vec2i {
    pub x: i32,
    pub y: i32,
}

impl Vec2i {
    /// The vector with the given coordinates.
    pub fn new(x: i32, y: i32) -> (v: Vec2i)
        ensures
            v == (Vec2i { x, y }),
    {
        Vec2i { x, y }
    }

    /// The vector whose coordinates are zero.
    pub fn zero() -> (v: Vec2i)
        ensures
            v == (Vec2i { x: 0, y: 0 }),
    {
        Vec2i::new(0, 0)
    }

    /// The coordinates as a pair.
    pub fn to_tuple(self) -> (t: (i32, i32))
        ensures
            t == (self.x, self.y),
    {
        (self.x, self.y)
    }
}

} // verus!
