use vstd::prelude::*;

verus! {

/// A point or offset on the integer grid of the ground plane.
#[derive(Clone, Copy, Debug)]
pub struct Vector2i {
    pub x: i32,
    pub y: i32,
}

/// A point or offset on the integer block grid.
#[derive(Clone, Copy, Debug)]
pub struct Vector3i {
    pub x: i32,
    pub y: i32,
    pub z: i32,
}

impl Vector2i {
    pub fn new(x: i32, y: i32) -> (v: Self)
        ensures
            v.x == x,
            v.y == y,
    {
        Self { x, y }
    }
}

impl Vector3i {
    pub fn new(x: i32, y: i32, z: i32) -> (v: Self)
        ensures
            v.x == x,
            v.y == y,
            v.z == z,
    {
        Self { x, y, z }
    }
}

} // verus!
