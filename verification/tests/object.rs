//! Particle-level behavior: integration, velocity accessors, the fixed
//! flag, defaults, directions, and the saturating scalar arithmetic.

use catbox::camera::Direction;
use catbox::fx::{fx_add, fx_div, fx_mul, fx_sub, isqrt, MAX_ABS, SCALE};
use catbox::object::VerletObject;
use catbox::vec::{Vec2Fx, Vec3Fx};

/// With zero acceleration, each integration advances the position by
/// exactly the displacement — velocity times the step — for any step size.
#[test]
fn integration_advances_by_velocity_times_dt() {
    let mut o = VerletObject::default();
    // Velocity (3, 4) units per second, set at a one-second step: exact.
    o.setVelocity(Vec2Fx::new(3 * SCALE, 4 * SCALE), SCALE);
    for tick in 1..=5i64 {
        o.update(SCALE);
        assert_eq!(o.position.x, 3 * SCALE * tick);
        assert_eq!(o.position.y, 4 * SCALE * tick);
    }
    // The step size does not matter while no force acts.
    let mut p = VerletObject::default();
    p.setVelocity(Vec2Fx::new(7, -9), 5 * SCALE);
    let dx = p.position.x - p.positionLast.x;
    let x0 = p.position.x;
    p.update(1);
    assert_eq!(p.position.x - x0, dx);
}

/// setVelocity and getVelocity agree at the same step size.
#[test]
fn velocity_round_trip() {
    let mut o = VerletObject::default();
    o.setVelocity(Vec2Fx::new(3 * SCALE, -4 * SCALE), SCALE);
    let v = o.getVelocity(SCALE);
    assert_eq!(v, Vec2Fx::new(3 * SCALE, -4 * SCALE));
    // A mismatched step scales the reading.
    let v2 = o.getVelocity(2 * SCALE);
    assert_eq!(v2, Vec2Fx::new(3 * SCALE / 2, -2 * SCALE));
}

/// addVelocity composes with the velocity already present.
#[test]
fn add_velocity_accumulates() {
    let mut o = VerletObject::default();
    o.setVelocity(Vec2Fx::new(SCALE, 0), SCALE);
    o.addVelocity(Vec2Fx::new(SCALE, 2 * SCALE), SCALE);
    assert_eq!(o.getVelocity(SCALE), Vec2Fx::new(2 * SCALE, 2 * SCALE));
}

/// Forces accumulate additively and are consumed by one integration.
#[test]
fn acceleration_accumulates_and_resets() {
    let mut o = VerletObject::default();
    o.accelerate(Vec2Fx::new(0, -2 * SCALE));
    o.accelerate(Vec2Fx::new(SCALE, 0));
    assert_eq!(o.acceleration, Vec2Fx::new(SCALE, -2 * SCALE));
    o.update(SCALE);
    assert_eq!(o.acceleration, Vec2Fx::new(0, 0));
    // One second at acceleration (1, -2) from rest: moves (1, -2) exactly.
    assert_eq!(o.position, Vec2Fx::new(SCALE, -2 * SCALE));
}

/// Every mutator is a no-op on a fixed particle.
#[test]
fn fixed_particle_ignores_mutators() {
    let mut o = VerletObject::default();
    o.fixed = true;
    o.position = Vec2Fx::new(5, 6);
    o.positionLast = Vec2Fx::new(1, 2);
    let snapshot = o;
    o.accelerate(Vec2Fx::new(SCALE, SCALE));
    o.setVelocity(Vec2Fx::new(SCALE, SCALE), SCALE);
    o.addVelocity(Vec2Fx::new(SCALE, SCALE), SCALE);
    o.update(SCALE);
    assert_eq!(o, snapshot);
}

/// The default body: at rest at the origin, radius ten, elasticity one,
/// movable, visible, white.
#[test]
fn default_object_fields() {
    let o = VerletObject::default();
    assert_eq!(o.position, Vec2Fx::new(0, 0));
    assert_eq!(o.positionLast, Vec2Fx::new(0, 0));
    assert_eq!(o.acceleration, Vec2Fx::new(0, 0));
    assert_eq!(o.radius, 10 * SCALE);
    assert_eq!(o.elasticity, SCALE);
    assert!(!o.fixed);
    assert!(o.visible);
    assert_eq!(o.color, 0xffffff);
}

/// Walk directions map to the fixed-point unit vectors.
#[test]
fn direction_unit_vectors() {
    assert_eq!(Direction::Up.unitVec(), Vec3Fx::new(0, SCALE, 0));
    assert_eq!(Direction::Down.unitVec(), Vec3Fx::new(0, -SCALE, 0));
    assert_eq!(Direction::Left.unitVec(), Vec3Fx::new(-SCALE, 0, 0));
    assert_eq!(Direction::Right.unitVec(), Vec3Fx::new(SCALE, 0, 0));
    assert_eq!(Direction::Forward.unitVec(), Vec3Fx::new(0, 0, SCALE));
    assert_eq!(Direction::Backward.unitVec(), Vec3Fx::new(0, 0, -SCALE));
}

/// The scalar layer: products rescale, quotients rescale, truncation is
/// toward zero, and out-of-range results saturate at the coordinate bound.
#[test]
fn fixed_point_scalars() {
    assert_eq!(fx_add(3 * SCALE, 4 * SCALE), 7 * SCALE);
    assert_eq!(fx_sub(3 * SCALE, 4 * SCALE), -SCALE);
    assert_eq!(fx_mul(3 * SCALE, 4 * SCALE), 12 * SCALE);
    assert_eq!(fx_mul(-3 * SCALE, 4 * SCALE), -12 * SCALE);
    assert_eq!(fx_div(3 * SCALE, 2 * SCALE), 3 * SCALE / 2);
    assert_eq!(fx_div(-3 * SCALE, 2 * SCALE), -(3 * SCALE / 2));
    // Truncation toward zero, in both signs.
    assert_eq!(fx_div(1, 3 * SCALE), 0);
    assert_eq!(fx_div(-1, 3 * SCALE), 0);
    assert_eq!(fx_mul(1, 1), 0);
    // Saturation at the representable bound.
    assert_eq!(fx_add(MAX_ABS, MAX_ABS), MAX_ABS);
    assert_eq!(fx_sub(-MAX_ABS, MAX_ABS), -MAX_ABS);
    assert_eq!(fx_mul(MAX_ABS, 2 * SCALE), MAX_ABS);
    assert_eq!(fx_mul(MAX_ABS, -2 * SCALE), -MAX_ABS);
    // Integer square root.
    assert_eq!(isqrt(0), 0);
    assert_eq!(isqrt(1), 1);
    assert_eq!(isqrt(2), 1);
    assert_eq!(isqrt(144), 12);
    assert_eq!(isqrt((1u128 << 124) - 1), (1u64 << 62) - 1);
}
