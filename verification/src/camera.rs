#![allow(non_snake_case)]
//! Camera walk directions, shared by the drivers that move a viewpoint
//! around the world. Only the direction-to-vector mapping lives here; the
//! projection math belongs to the rendering side.

use crate::fx::SCALE;
use crate::vec::Vec3Fx;
use vstd::prelude::*;

verus! {

/// A direction a camera can walk in, in its own coordinate frame.
#[derive(Clone, Copy, PartialEq, Eq, Structural, Debug)]
pub enum Direction {
    Up,
    Down,
    Left,
    Right,
    Forward,
    Backward,
}

impl Direction {
    /// The fixed-point unit vector of this direction: up is `+y`, right is
    /// `+x`, forward is `+z`.
    pub fn unitVec(&self) -> (r: Vec3Fx)
        ensures
            *self == Direction::Up ==> r == (Vec3Fx { x: 0, y: SCALE as i64, z: 0 }),
            *self == Direction::Down ==> r == (Vec3Fx { x: 0, y: (-SCALE) as i64, z: 0 }),
            *self == Direction::Left ==> r == (Vec3Fx { x: (-SCALE) as i64, y: 0, z: 0 }),
            *self == Direction::Right ==> r == (Vec3Fx { x: SCALE as i64, y: 0, z: 0 }),
            *self == Direction::Forward ==> r == (Vec3Fx { x: 0, y: 0, z: SCALE as i64 }),
            *self == Direction::Backward ==> r == (Vec3Fx { x: 0, y: 0, z: (-SCALE) as i64 }),
    {
        match self {
            Direction::Up => Vec3Fx { x: 0, y: SCALE, z: 0 },
            Direction::Down => Vec3Fx { x: 0, y: (-SCALE) as i64, z: 0 },
            Direction::Left => Vec3Fx { x: -SCALE, y: 0, z: 0 },
            Direction::Right => Vec3Fx { x: SCALE, y: 0, z: 0 },
            Direction::Forward => Vec3Fx { x: 0, y: 0, z: SCALE },
            Direction::Backward => Vec3Fx { x: 0, y: 0, z: -SCALE },
        }
    }
}

} // verus!
