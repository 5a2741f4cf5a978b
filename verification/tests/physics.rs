//! End-to-end physics behavior: the golden scenario, the conservation and
//! convergence properties on concrete values, and the broad phase against a
//! brute-force pair scan.

use catbox::fx::{MAX_ABS, SCALE};
use catbox::object::VerletObject;
use catbox::solver::{SimpleSolver, SolverError};
use catbox::vec::Vec2Fx;

fn units(v: f64) -> i64 {
    (v * SCALE as f64).round() as i64
}

fn to_f64(raw: i64) -> f64 {
    raw as f64 / SCALE as f64
}

fn world(w: f64, h: f64, sub_steps: u32) -> SimpleSolver {
    let mut s = SimpleSolver::new(Vec2Fx::new(units(w), units(h)), sub_steps).unwrap();
    s.resume();
    s
}

fn ball(x: f64, y: f64, radius: f64, elasticity: f64, fixed: bool) -> VerletObject {
    let mut o = VerletObject::default();
    o.position = Vec2Fx::new(units(x), units(y));
    o.positionLast = o.position;
    o.radius = units(radius);
    o.elasticity = units(elasticity);
    o.fixed = fixed;
    o
}

/// The golden regression scenario: a 1000 x 1000 world, 8 sub-steps, one
/// ball at (0, 250) with elasticity 1, radius 10, velocity (100, 50) set at
/// the frame step, gravity (0, -400). One update of 1/60 s must land within
/// 1e-4 of the Verlet prediction accumulated over the 8 sub-steps.
#[test]
fn golden_scenario() {
    let dt: i64 = SCALE / 60;
    let mut s = world(1000.0, 1000.0, 8);
    s.gravity = Vec2Fx::new(0, units(-400.0));
    let mut o = ball(0.0, 250.0, 10.0, 1.0, false);
    o.setVelocity(Vec2Fx::new(units(100.0), units(50.0)), dt);
    let h = s.addObject(o);
    s.update(dt);

    let dtf = to_f64(dt);
    let sdtf = to_f64(dt / 8);
    // Per sub-step the displacement set at the frame step advances the ball
    // once more, and gravity adds (0, g * sdt^2) to the displacement first.
    let expect_x = 8.0 * 100.0 * dtf;
    let expect_y = 250.0 + 8.0 * 50.0 * dtf + 36.0 * (-400.0) * sdtf * sdtf;

    let got = s.getObject(h);
    assert!((to_f64(got.position.x) - expect_x).abs() < 1e-4);
    assert!((to_f64(got.position.y) - expect_y).abs() < 1e-4);
    assert_eq!(s.getTotalSteps(), 1);
    assert_eq!(s.getTotalTimeElapsed(), dt);
}

/// A fixed particle keeps bit-identical position and history across many
/// updates, despite gravity, an overlapping neighbor, and boundary contact.
#[test]
fn fixed_particle_is_invariant() {
    let dt: i64 = SCALE / 60;
    let mut s = world(200.0, 200.0, 4);
    s.gravity = Vec2Fx::new(0, units(-400.0));
    // Fixed ball overlapping the right wall and a movable neighbor.
    let anchor = ball(95.0, 0.0, 10.0, 1.0, true);
    let pos = anchor.position;
    let pos_last = anchor.positionLast;
    let h = s.addObject(anchor);
    let mut intruder = ball(88.0, 2.0, 10.0, 1.0, false);
    intruder.setVelocity(Vec2Fx::new(units(5.0), units(1.0)), dt);
    s.addObject(intruder);
    for _ in 0..60 {
        s.update(dt);
    }
    let got = s.getObject(h);
    assert_eq!(got.position, pos);
    assert_eq!(got.positionLast, pos_last);
}

/// Bouncing off one wall with elasticity exactly one reflects the derived
/// velocity on that axis with no loss: the formula output, exactly.
#[test]
fn boundary_reflection_is_exact_at_unit_elasticity() {
    // World 100 wide: half extent 50, minus radius 10 leaves 40.
    let s = world(100.0, 100.0, 1);
    let mut o = ball(45.0, 0.0, 10.0, 1.0, false);
    o.positionLast = Vec2Fx::new(units(43.0), 0);
    s.worldCollision(&mut o);
    assert_eq!(o.position.x, units(40.0));
    assert_eq!(o.positionLast.x, units(42.0));
    // Incoming displacement +2, outgoing -2: same speed.
    assert_eq!(o.position.x - o.positionLast.x, units(-2.0));
}

/// A bounce with elasticity below one loses speed; above one, it gains.
#[test]
fn boundary_reflection_scales_with_elasticity() {
    let s = world(100.0, 100.0, 1);
    let mut o = ball(45.0, 0.0, 10.0, 0.5, false);
    o.positionLast = Vec2Fx::new(units(43.0), 0);
    s.worldCollision(&mut o);
    assert_eq!(o.positionLast.x - o.position.x, units(1.0));

    let mut o = ball(0.0, -45.0, 10.0, 2.0, false);
    o.positionLast = Vec2Fx::new(0, units(-43.0));
    s.worldCollision(&mut o);
    assert_eq!(o.position.y, units(-40.0));
    assert_eq!(o.positionLast.y - o.position.y, units(-4.0));
}

/// Both axes clamp independently in a corner.
#[test]
fn corner_clamps_both_axes() {
    let s = world(100.0, 100.0, 1);
    let mut o = ball(41.0, -44.0, 10.0, 1.0, false);
    o.positionLast = o.position;
    s.worldCollision(&mut o);
    assert_eq!(o.position.x, units(40.0));
    assert_eq!(o.position.y, units(-40.0));
}

/// Narrow phase, exact formula check: radii 10 + 10, centers 15 apart on
/// the x axis, elasticity 1 on both. Penetration is 5, the force halves it
/// scaled by the mean elasticity, and each ball takes half the push.
#[test]
fn pair_resolution_exact_values() {
    let s = world(1000.0, 1000.0, 1);
    let mut o1 = ball(0.0, 0.0, 10.0, 1.0, false);
    let mut o2 = ball(15.0, 0.0, 10.0, 1.0, false);
    s.solveObjectObjectCollision(&mut o1, &mut o2);
    assert_eq!(o1.position.x, units(-1.25));
    assert_eq!(o2.position.x, units(16.25));
    assert_eq!(o1.position.y, 0);
    assert_eq!(o2.position.y, 0);
}

/// A fixed partner absorbs no correction; the movable one takes only its
/// own share.
#[test]
fn pair_resolution_respects_fixed() {
    let s = world(1000.0, 1000.0, 1);
    let mut o1 = ball(0.0, 0.0, 10.0, 1.0, true);
    let mut o2 = ball(15.0, 0.0, 10.0, 1.0, false);
    s.solveObjectObjectCollision(&mut o1, &mut o2);
    assert_eq!(o1.position.x, 0);
    assert_eq!(o2.position.x, units(16.25));
}

/// Coincident centers take the unit-x fallback direction instead of
/// dividing by a zero distance.
#[test]
fn coincident_centers_separate_along_x() {
    let s = world(1000.0, 1000.0, 1);
    let mut o1 = ball(7.0, 3.0, 10.0, 1.0, false);
    let mut o2 = ball(7.0, 3.0, 10.0, 1.0, false);
    s.solveObjectObjectCollision(&mut o1, &mut o2);
    assert!(o1.position.x > units(7.0));
    assert!(o2.position.x < units(7.0));
    assert_eq!(o1.position.y, units(3.0));
    assert_eq!(o2.position.y, units(3.0));
}

fn dist_sq(a: &VerletObject, b: &VerletObject) -> i128 {
    let dx = (a.position.x - b.position.x) as i128;
    let dy = (a.position.y - b.position.y) as i128;
    dx * dx + dy * dy
}

/// Repeated narrow-phase resolution converges the distance toward contact
/// monotonically: the overlap never grows, and it shrinks to (nearly)
/// nothing.
#[test]
fn repeated_resolution_converges_monotonically() {
    let s = world(1000.0, 1000.0, 1);
    let mut o1 = ball(-3.0, 1.0, 10.0, 0.9, false);
    let mut o2 = ball(4.0, -2.0, 10.0, 0.6, false);
    let md = (o1.radius + o2.radius) as i128;
    let mut last = dist_sq(&o1, &o2);
    assert!(last < md * md);
    for _ in 0..200 {
        s.solveObjectObjectCollision(&mut o1, &mut o2);
        let now = dist_sq(&o1, &o2);
        assert!(now >= last);
        assert!(now <= md * md + md);
        last = now;
    }
    // After many passes the gap to contact is a tiny fraction of a unit.
    let dist = (last as f64).sqrt() / SCALE as f64;
    assert!(dist > 19.9999);
}

/// The sort-and-sweep candidate set is a superset of the truly overlapping
/// pairs: on a scattered configuration, every overlapping pair found by the
/// brute-force quadratic scan satisfies the sweep condition under the
/// returned ordering, which itself is a sorted, stable permutation.
#[test]
fn broad_phase_covers_brute_force_pairs() {
    let mut s = world(4000.0, 4000.0, 1);
    let coords: [(f64, f64, f64); 12] = [
        (0.0, 0.0, 10.0),
        (15.0, 3.0, 10.0),
        (14.0, -4.0, 6.0),
        (-300.0, 5.0, 12.0),
        (-290.0, -2.0, 8.0),
        (700.0, 100.0, 20.0),
        (700.0, 130.0, 15.0),
        (42.0, 0.0, 10.0),
        (-300.0, 5.0, 3.0),
        (120.0, 50.0, 30.0),
        (160.0, 50.0, 30.0),
        (1500.0, -800.0, 10.0),
    ];
    for &(x, y, r) in coords.iter() {
        s.addObject(ball(x, y, r, 1.0, false));
    }
    let order = s.sortObjects();
    let n = s.getObjectCount();
    assert_eq!(order.len(), n);
    // A permutation ...
    let mut seen = vec![false; n];
    for &i in order.iter() {
        assert!(!seen[i]);
        seen[i] = true;
    }
    // ... sorted by left edge, ties in arena order.
    let left = |i: usize| {
        let o = s.getObject(i);
        o.position.x - o.radius
    };
    for w in order.windows(2) {
        assert!(left(w[0]) <= left(w[1]));
        if left(w[0]) == left(w[1]) {
            assert!(w[0] < w[1]);
        }
    }
    // Every truly overlapping pair is a sweep candidate.
    let slot_of = |i: usize| order.iter().position(|&v| v == i).unwrap();
    for i in 0..n {
        for j in (i + 1)..n {
            let a = s.getObject(i);
            let b = s.getObject(j);
            let md = (a.radius + b.radius) as i128;
            if dist_sq(&a, &b) < md * md {
                let (first, second) = if slot_of(i) < slot_of(j) { (i, j) } else { (j, i) };
                let f = s.getObject(first);
                let sec = s.getObject(second);
                assert!(sec.position.x - sec.radius <= f.position.x + f.radius);
            }
        }
    }
}

/// The same superset comparison on pseudo-random configurations: for every
/// pair the quadratic scan finds overlapping, the sweep condition holds
/// under the sorted ordering.
#[test]
fn broad_phase_covers_random_configurations() {
    let mut seed: u64 = 0x3c6ef372fe94f82a;
    let mut next = move || {
        seed = seed.wrapping_mul(6364136223846793005).wrapping_add(1442695040888963407);
        (seed >> 33) as i64
    };
    for _round in 0..5 {
        let mut s = world(4000.0, 4000.0, 1);
        for _ in 0..40 {
            let x = (next() % 1500 - 750) as f64;
            let y = (next() % 1500 - 750) as f64;
            let r = (next() % 40 + 1) as f64;
            s.addObject(ball(x, y, r, 1.0, false));
        }
        let order = s.sortObjects();
        let slot_of = |i: usize| order.iter().position(|&v| v == i).unwrap();
        let n = s.getObjectCount();
        for i in 0..n {
            for j in (i + 1)..n {
                let a = s.getObject(i);
                let b = s.getObject(j);
                let md = (a.radius + b.radius) as i128;
                if dist_sq(&a, &b) < md * md {
                    let (first, second) = if slot_of(i) < slot_of(j) { (i, j) } else { (j, i) };
                    let f = s.getObject(first);
                    let sec = s.getObject(second);
                    assert!(sec.position.x - sec.radius <= f.position.x + f.radius);
                }
            }
        }
    }
}

/// One update with no gravity separates an overlapping pair even with a
/// decoy between them in arena order.
#[test]
fn update_resolves_overlaps() {
    let dt: i64 = SCALE / 60;
    let mut s = world(4000.0, 4000.0, 1);
    let h1 = s.addObject(ball(0.0, 0.0, 10.0, 1.0, false));
    let decoy = s.addObject(ball(500.0, 0.0, 10.0, 1.0, false));
    let h2 = s.addObject(ball(12.0, 0.0, 10.0, 1.0, false));
    let before = dist_sq(&s.getObject(h1), &s.getObject(h2));
    s.update(dt);
    let after = dist_sq(&s.getObject(h1), &s.getObject(h2));
    assert!(after > before);
    let d = s.getObject(decoy);
    assert_eq!(d.position.x, units(500.0));
}

/// Construction rejects degenerate inputs eagerly, with the world size
/// checked first.
#[test]
fn construction_rejects_degenerate_inputs() {
    assert!(matches!(
        SimpleSolver::new(Vec2Fx::new(0, units(10.0)), 1),
        Err(SolverError::InvalidWorldSize)
    ));
    assert!(matches!(
        SimpleSolver::new(Vec2Fx::new(units(10.0), -5), 1),
        Err(SolverError::InvalidWorldSize)
    ));
    assert!(matches!(
        SimpleSolver::new(Vec2Fx::new(MAX_ABS, MAX_ABS + 1), 1),
        Err(SolverError::InvalidWorldSize)
    ));
    assert!(matches!(
        SimpleSolver::new(Vec2Fx::new(0, 0), 0),
        Err(SolverError::InvalidWorldSize)
    ));
    assert!(matches!(
        SimpleSolver::new(Vec2Fx::new(units(10.0), units(10.0)), 0),
        Err(SolverError::InvalidSubSteps)
    ));
    let s = SimpleSolver::new(Vec2Fx::new(units(10.0), units(10.0)), 8).unwrap();
    assert_eq!(s.getObjectCount(), 0);
    assert_eq!(s.getSubSteps(), 8);
    assert_eq!(s.getTotalSteps(), 0);
    assert_eq!(s.getTotalTimeElapsed(), 0);
    assert!(s.pause);
    assert!(!s.btnStep);
}

/// While paused, updates do nothing; a single-step request runs exactly one
/// update and is consumed.
#[test]
fn pause_and_single_step() {
    let dt: i64 = SCALE / 60;
    let mut s = SimpleSolver::new(Vec2Fx::new(units(100.0), units(100.0)), 2).unwrap();
    s.gravity = Vec2Fx::new(0, units(-400.0));
    let h = s.addObject(ball(0.0, 0.0, 10.0, 1.0, false));
    assert!(s.pause);
    s.update(dt);
    assert_eq!(s.getTotalSteps(), 0);
    assert_eq!(s.getTotalTimeElapsed(), 0);
    assert_eq!(s.getObject(h).position, Vec2Fx::new(0, 0));

    s.singleStep();
    s.update(dt);
    assert_eq!(s.getTotalSteps(), 1);
    assert!(!s.btnStep);
    assert!(s.getObject(h).position.y < 0);

    s.update(dt);
    assert_eq!(s.getTotalSteps(), 1);

    s.resume();
    s.update(dt);
    assert_eq!(s.getTotalSteps(), 2);
    s.pause();
    s.update(dt);
    assert_eq!(s.getTotalSteps(), 2);
}

/// Counters accumulate across updates and are never reset.
#[test]
fn counters_accumulate() {
    let dt: i64 = SCALE / 60;
    let mut s = world(100.0, 100.0, 3);
    for _ in 0..5 {
        s.update(dt);
    }
    assert_eq!(s.getTotalSteps(), 5);
    assert_eq!(s.getTotalTimeElapsed(), 5 * dt);
}

/// destroy is idempotent and releases nothing the arena still needs.
#[test]
fn destroy_is_idempotent() {
    let mut s = world(100.0, 100.0, 1);
    let h = s.addObject(ball(1.0, 2.0, 3.0, 1.0, false));
    s.destroy();
    s.destroy();
    assert!(s.destroyed);
    assert_eq!(s.getObject(h).position, Vec2Fx::new(units(1.0), units(2.0)));
}

/// Handles are dense, stable indices in insertion order.
#[test]
fn handles_are_stable_indices() {
    let mut s = world(100.0, 100.0, 1);
    assert_eq!(s.addObject(ball(1.0, 0.0, 1.0, 1.0, false)), 0);
    assert_eq!(s.addObject(ball(2.0, 0.0, 1.0, 1.0, false)), 1);
    assert_eq!(s.addObject(ball(3.0, 0.0, 1.0, 1.0, false)), 2);
    assert_eq!(s.getObjectCount(), 3);
    assert_eq!(s.getObject(1).position.x, units(2.0));
}
