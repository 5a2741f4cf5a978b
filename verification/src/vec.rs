//! Two- and three-component fixed-point vectors, with ghost models over
//! unbounded integers for use in contracts.

use crate::fx::in_range;
use vstd::prelude::*;

verus! {

/// Ghost model of a two-component vector: unbounded integer coordinates.
pub struct V2 {
    pub x: int,
    pub y: int,
}

/// A two-component fixed-point vector.
#[derive(Clone, Copy, PartialEq, Eq, Structural, Debug)]
pub struct Vec2Fx {
    pub x: i64,
    pub y: i64,
}

impl View for Vec2Fx {
    type V = V2;

    open spec fn view(&self) -> V2 {
        V2 { x: self.x as int, y: self.y as int }
    }
}

/// Both coordinates lie in the representable range.
pub open spec fn v2_in_range(v: V2) -> bool {
    in_range(v.x) && in_range(v.y)
}

impl Vec2Fx {
    pub fn new(x: i64, y: i64) -> (r: Vec2Fx)
        ensures
            r@ == (V2 { x: x as int, y: y as int }),
    {
        Vec2Fx { x, y }
    }
}

/// A three-component fixed-point vector.
#[derive(Clone, Copy, PartialEq, Eq, Structural, Debug)]
pub struct Vec3Fx {
    pub x: i64,
    pub y: i64,
    pub z: i64,
}

impl Vec3Fx {
    pub fn new(x: i64, y: i64, z: i64) -> (r: Vec3Fx)
        ensures
            r.x == x,
            r.y == y,
            r.z == z,
    {
        Vec3Fx { x, y, z }
    }
}

} // verus!
