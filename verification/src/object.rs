#![allow(non_snake_case)]
//! A single circular body and its Verlet integration rule.
//!
//! Velocity is never stored: it is derived as `position - positionLast`
//! divided by the step size, so positional corrections made by the collision
//! resolver consistently alter the derived velocity of the next step.

use crate::fx::{fx_add, fx_div, fx_mul, fx_sub, in_range, spec_add, spec_div, spec_mul, spec_sub,
    MAX_ABS, SCALE};
use crate::vec::{v2_in_range, Vec2Fx, V2};
use vstd::prelude::*;

verus! {

/// Ghost model of a particle: the physical state the solver reads and writes.
pub struct Particle {
    pub position: V2,
    pub positionLast: V2,
    pub acceleration: V2,
    pub radius: int,
    pub elasticity: int,
    pub fixed: bool,
    pub visible: bool,
    pub color: int,
}

/// A circular body. `color` and `visible` are render-only attributes,
/// opaque to the solver; `fixed` bodies are never moved by it.
#[derive(Clone, Copy, PartialEq, Eq, Structural, Debug)]
pub struct VerletObject {
    pub position: Vec2Fx,
    pub positionLast: Vec2Fx,
    pub acceleration: Vec2Fx,
    pub radius: i64,
    pub elasticity: i64,
    pub fixed: bool,
    pub visible: bool,
    pub color: u32,
}

impl View for VerletObject {
    type V = Particle;

    open spec fn view(&self) -> Particle {
        Particle {
            position: self.position@,
            positionLast: self.positionLast@,
            acceleration: self.acceleration@,
            radius: self.radius as int,
            elasticity: self.elasticity as int,
            fixed: self.fixed,
            visible: self.visible,
            color: self.color as int,
        }
    }
}

/// A physically valid particle: coordinates representable, radius positive.
pub open spec fn particle_wf(p: Particle) -> bool {
    &&& v2_in_range(p.position)
    &&& v2_in_range(p.positionLast)
    &&& v2_in_range(p.acceleration)
    &&& 0 < p.radius <= MAX_ABS
    &&& -MAX_ABS <= p.elasticity <= MAX_ABS
}

/// One Verlet integration step: advance by the previous displacement plus
/// `acceleration * dt^2`, remember the old position, reset the accumulator.
/// Fixed particles are left untouched.
pub open spec fn integrate(p: Particle, dt: int) -> Particle {
    if p.fixed {
        p
    } else {
        let dx = spec_sub(p.position.x, p.positionLast.x);
        let dy = spec_sub(p.position.y, p.positionLast.y);
        let ax = spec_mul(spec_mul(p.acceleration.x, dt), dt);
        let ay = spec_mul(spec_mul(p.acceleration.y, dt), dt);
        Particle {
            position: V2 {
                x: spec_add(p.position.x, spec_add(dx, ax)),
                y: spec_add(p.position.y, spec_add(dy, ay)),
            },
            positionLast: p.position,
            acceleration: V2 { x: 0, y: 0 },
            ..p
        }
    }
}

/// Add a force contribution to the accumulator; suppressed when fixed.
pub open spec fn accelerated(p: Particle, a: V2) -> Particle {
    if p.fixed {
        p
    } else {
        Particle {
            acceleration: V2 {
                x: spec_add(p.acceleration.x, a.x),
                y: spec_add(p.acceleration.y, a.y),
            },
            ..p
        }
    }
}

/// Reconstruct `positionLast` so the derived velocity equals `v` at step `dt`.
pub open spec fn with_velocity(p: Particle, v: V2, dt: int) -> Particle {
    if p.fixed {
        p
    } else {
        Particle {
            positionLast: V2 {
                x: spec_sub(p.position.x, spec_mul(v.x, dt)),
                y: spec_sub(p.position.y, spec_mul(v.y, dt)),
            },
            ..p
        }
    }
}

/// Shift `positionLast` back by `v * dt`, adding to the derived velocity.
pub open spec fn with_added_velocity(p: Particle, v: V2, dt: int) -> Particle {
    if p.fixed {
        p
    } else {
        Particle {
            positionLast: V2 {
                x: spec_sub(p.positionLast.x, spec_mul(v.x, dt)),
                y: spec_sub(p.positionLast.y, spec_mul(v.y, dt)),
            },
            ..p
        }
    }
}

/// The derived velocity at step size `dt`.
pub open spec fn velocity_of(p: Particle, dt: int) -> V2 {
    V2 {
        x: spec_div(spec_sub(p.position.x, p.positionLast.x), dt),
        y: spec_div(spec_sub(p.position.y, p.positionLast.y), dt),
    }
}

impl VerletObject {
    pub open spec fn wf(&self) -> bool {
        particle_wf(self@)
    }

    pub fn update(&mut self, dt: i64)
        requires
            old(self).wf(),
            in_range(dt as int),
        ensures
            final(self)@ == integrate(old(self)@, dt as int),
            final(self).wf(),
    {
        if self.fixed {
            return ;
        }
        let dx = fx_sub(self.position.x, self.positionLast.x);
        let dy = fx_sub(self.position.y, self.positionLast.y);
        let ax = fx_mul(fx_mul(self.acceleration.x, dt), dt);
        let ay = fx_mul(fx_mul(self.acceleration.y, dt), dt);
        self.positionLast = self.position;
        self.position = Vec2Fx {
            x: fx_add(self.position.x, fx_add(dx, ax)),
            y: fx_add(self.position.y, fx_add(dy, ay)),
        };
        self.acceleration = Vec2Fx { x: 0, y: 0 };
    }

    pub fn accelerate(&mut self, acceleration: Vec2Fx)
        requires
            old(self).wf(),
            v2_in_range(acceleration@),
        ensures
            final(self)@ == accelerated(old(self)@, acceleration@),
            final(self).wf(),
    {
        if self.fixed {
            return ;
        }
        self.acceleration = Vec2Fx {
            x: fx_add(self.acceleration.x, acceleration.x),
            y: fx_add(self.acceleration.y, acceleration.y),
        };
    }

    pub fn setVelocity(&mut self, velocity: Vec2Fx, dt: i64)
        requires
            old(self).wf(),
            v2_in_range(velocity@),
            in_range(dt as int),
        ensures
            final(self)@ == with_velocity(old(self)@, velocity@, dt as int),
            final(self).wf(),
    {
        if self.fixed {
            return ;
        }
        self.positionLast = Vec2Fx {
            x: fx_sub(self.position.x, fx_mul(velocity.x, dt)),
            y: fx_sub(self.position.y, fx_mul(velocity.y, dt)),
        };
    }

    pub fn addVelocity(&mut self, velocity: Vec2Fx, dt: i64)
        requires
            old(self).wf(),
            v2_in_range(velocity@),
            in_range(dt as int),
        ensures
            final(self)@ == with_added_velocity(old(self)@, velocity@, dt as int),
            final(self).wf(),
    {
        if self.fixed {
            return ;
        }
        self.positionLast = Vec2Fx {
            x: fx_sub(self.positionLast.x, fx_mul(velocity.x, dt)),
            y: fx_sub(self.positionLast.y, fx_mul(velocity.y, dt)),
        };
    }

    pub fn getVelocity(&self, dt: i64) -> (v: Vec2Fx)
        requires
            self.wf(),
            dt != 0,
            in_range(dt as int),
        ensures
            v@ == velocity_of(self@, dt as int),
    {
        Vec2Fx {
            x: fx_div(fx_sub(self.position.x, self.positionLast.x), dt),
            y: fx_div(fx_sub(self.position.y, self.positionLast.y), dt),
        }
    }
}

impl Default for VerletObject {
    /// A unit body at the origin: radius ten world units, elasticity one,
    /// at rest, movable, visible, white.
    fn default() -> (d: Self)
        ensures
            d@ == (Particle {
                position: V2 { x: 0, y: 0 },
                positionLast: V2 { x: 0, y: 0 },
                acceleration: V2 { x: 0, y: 0 },
                radius: 10 * SCALE,
                elasticity: SCALE as int,
                fixed: false,
                visible: true,
                color: 0xffffff,
            }),
            d.wf(),
    {
        VerletObject {
            position: Vec2Fx { x: 0, y: 0 },
            positionLast: Vec2Fx { x: 0, y: 0 },
            acceleration: Vec2Fx { x: 0, y: 0 },
            radius: 10 * SCALE,
            elasticity: SCALE,
            fixed: false,
            visible: true,
            color: 0xffffff,
        }
    }
}

} // verus!
