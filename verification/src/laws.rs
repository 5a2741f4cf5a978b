#![allow(non_snake_case)]
//! The solver's laws: properties of the physics pipeline, stated over the
//! ghost models and proved from the spec functions the contracts use.

use crate::fx::{in_range, lemma_clamp_monotone, lemma_div_one, lemma_mul_one, lemma_spec_div_sign,
    lemma_spec_mul_sign, lemma_sqrt_floor, spec_add, spec_div, spec_mul, spec_sub, sqrt_floor,
    HALF, MAX_ABS, SCALE};
use crate::object::{accelerated, integrate, particle_wf, Particle};
use crate::solver::{dist_sq, index_perm, integrate_all, left_edge, min_dist, overlapping,
    resolve_pair, right_edge, scan_inner, scan_outer, step_rel, steps_rel, valid_order,
    world_collide};
use vstd::math::abs;
use crate::vec::V2;
use vstd::prelude::*;

verus! {

/// With a zero force accumulator, one integration step advances a movable
/// particle by exactly its current displacement — the derived velocity times
/// the step — for every step size, as long as neither the displacement nor
/// the advanced position saturates.
pub proof fn lemma_integrate_zero_force(p: Particle, dt: int)
    requires
        particle_wf(p),
        !p.fixed,
        p.acceleration == (V2 { x: 0, y: 0 }),
        in_range(p.position.x - p.positionLast.x),
        in_range(p.position.y - p.positionLast.y),
        in_range(2 * p.position.x - p.positionLast.x),
        in_range(2 * p.position.y - p.positionLast.y),
    ensures
        integrate(p, dt).position.x - p.position.x == p.position.x - p.positionLast.x,
        integrate(p, dt).position.y - p.position.y == p.position.y - p.positionLast.y,
        integrate(p, dt).positionLast == p.position,
{
    assert(spec_mul(0, dt) == 0);
    assert(spec_mul(spec_mul(0, dt), dt) == 0);
}

/// A particle whose velocity was set to `v` at step `dt` advances by exactly
/// `v * dt` (in fixed point) on the next zero-force integration at any step
/// size: `setVelocity` and the integrator agree about what velocity means.
pub proof fn lemma_set_velocity_advance(p: Particle, v: V2, dt: int, step: int)
    requires
        particle_wf(p),
        !p.fixed,
        p.acceleration == (V2 { x: 0, y: 0 }),
        in_range(p.position.x + spec_mul(v.x, dt)),
        in_range(p.position.y + spec_mul(v.y, dt)),
        in_range(p.position.x - spec_mul(v.x, dt)),
        in_range(p.position.y - spec_mul(v.y, dt)),
    ensures
        integrate(crate::object::with_velocity(p, v, dt), step).position.x == spec_add(
            p.position.x,
            spec_mul(v.x, dt),
        ),
        integrate(crate::object::with_velocity(p, v, dt), step).position.y == spec_add(
            p.position.y,
            spec_mul(v.y, dt),
        ),
{
    let q = crate::object::with_velocity(p, v, dt);
    assert(q.positionLast.x == spec_sub(p.position.x, spec_mul(v.x, dt)));
    assert(in_range(spec_mul(v.x, dt)) && in_range(spec_mul(v.y, dt)));
    assert(spec_mul(0, step) == 0);
    assert(spec_mul(spec_mul(0, step), step) == 0);
}

/// Bouncing off a wall with elasticity one reflects the derived velocity on
/// that axis exactly: the rebound speed equals the incoming speed, so the
/// boundary creates no energy. Stated here for either wall of the x axis
/// and, symmetrically, of the y axis.
pub proof fn lemma_boundary_elastic_reflection(p: Particle, ws: V2)
    requires
        particle_wf(p),
        !p.fixed,
        p.elasticity == SCALE,
        abs(p.position.x - p.positionLast.x) + abs(
            spec_sub(spec_mul(ws.x, HALF as int), p.radius),
        ) <= MAX_ABS,
        abs(p.position.y - p.positionLast.y) + abs(
            spec_sub(spec_mul(ws.y, HALF as int), p.radius),
        ) <= MAX_ABS,
    ensures
        (p.position.x < -spec_sub(spec_mul(ws.x, HALF as int), p.radius) || p.position.x
            > spec_sub(spec_mul(ws.x, HALF as int), p.radius)) ==> world_collide(
            p,
            ws,
        ).position.x - world_collide(p, ws).positionLast.x == -(p.position.x
            - p.positionLast.x),
        (p.position.y < -spec_sub(spec_mul(ws.y, HALF as int), p.radius) || p.position.y
            > spec_sub(spec_mul(ws.y, HALF as int), p.radius)) ==> world_collide(
            p,
            ws,
        ).position.y - world_collide(p, ws).positionLast.y == -(p.position.y
            - p.positionLast.y),
{
    let dx = p.position.x - p.positionLast.x;
    let dy = p.position.y - p.positionLast.y;
    assert(in_range(dx) && in_range(dy));
    lemma_div_one(dx);
    lemma_mul_one(dx);
    lemma_div_one(dy);
    lemma_mul_one(dy);
    assert(spec_mul(spec_div(spec_sub(p.position.x, p.positionLast.x), SCALE as int),
        p.elasticity) == dx);
    assert(spec_mul(spec_div(spec_sub(p.position.y, p.positionLast.y), SCALE as int),
        p.elasticity) == dy);
}

/// `v` occurs somewhere in `order`.
spec fn appears_in(order: Seq<usize>, v: int) -> bool {
    exists|c: int| 0 <= c < order.len() && (#[trigger] order[c]) == v
}

/// An index permutation covers every index below its length: the pigeonhole
/// principle over `[0, n)`.
proof fn lemma_index_perm_onto(order: Seq<usize>, n: int)
    requires
        index_perm(n, order),
        n >= 0,
    ensures
        forall|v: int| 0 <= v < n ==> #[trigger] appears_in(order, v),
{
    let ints = order.map(|_t: int, u: usize| u as int);
    assert forall|s: int, t: int| 0 <= s < ints.len() && 0 <= t < ints.len() && s != t implies
        ints[s] != ints[t] by {
        assert(order[s] != order[t]);
    }
    assert(ints.no_duplicates());
    ints.unique_seq_to_set();
    assert forall|v: int| ints.to_set().contains(v) implies vstd::set_lib::set_int_range(
        0,
        n,
    ).contains(v) by {
        let c = choose|c: int| 0 <= c < ints.len() && ints[c] == v;
        assert(order[c] < n);
    }
    vstd::set_lib::lemma_int_range(0, n);
    vstd::set_lib::lemma_len_subset(ints.to_set(), vstd::set_lib::set_int_range(0, n));
    vstd::set_lib::lemma_subset_equality(ints.to_set(), vstd::set_lib::set_int_range(0, n));
    assert forall|v: int| 0 <= v < n implies #[trigger] appears_in(order, v) by {
        assert(vstd::set_lib::set_int_range(0, n).contains(v));
        assert(ints.to_set().contains(v));
        assert(ints.contains(v));
        let c = choose|c: int| 0 <= c < ints.len() && ints[c] == v;
        assert(order[c] == v);
    }
}

/// Two sorted, stable index permutations of the same arena agree on their
/// first `c` slots.
proof fn lemma_orders_agree_up_to(bodies: Seq<Particle>, o1: Seq<usize>, o2: Seq<usize>, c: int)
    requires
        valid_order(bodies, o1),
        valid_order(bodies, o2),
        0 <= c <= bodies.len(),
    ensures
        forall|t: int| 0 <= t < c ==> o1[t] == o2[t],
    decreases c,
{
    let n = bodies.len() as int;
    if c > 0 {
        lemma_orders_agree_up_to(bodies, o1, o2, c - 1);
        lemma_index_perm_onto(o1, n);
        lemma_index_perm_onto(o2, n);
        let s = c - 1;
        let v1 = o1[s];
        let v2 = o2[s];
        if v1 != v2 {
            // v2 sits somewhere in o1; by injectivity of o2 and the equal
            // prefix, not before slot s, and not at s either.
            assert(appears_in(o1, v2 as int));
            let d = choose|d: int| 0 <= d < o1.len() && (#[trigger] o1[d]) == v2;
            assert(d > s) by {
                if d < s {
                    assert(o1[d] == o2[d]);
                    assert(o2[d] != o2[s]);
                }
            }
            assert(left_edge(bodies[v1 as int]) <= left_edge(bodies[v2 as int]));
            assert(left_edge(bodies[v1 as int]) == left_edge(bodies[v2 as int]) ==> v1 < v2);
            // And symmetrically v1 sits after slot s in o2.
            assert(appears_in(o2, v1 as int));
            let e = choose|e: int| 0 <= e < o2.len() && (#[trigger] o2[e]) == v1;
            assert(e > s) by {
                if e < s {
                    assert(o2[e] == o1[e]);
                    assert(o1[e] != o1[s]);
                }
            }
            assert(left_edge(bodies[v2 as int]) <= left_edge(bodies[v1 as int]));
            assert(left_edge(bodies[v2 as int]) == left_edge(bodies[v1 as int]) ==> v2 < v1);
            assert(false);
        }
    }
}

/// The broad-phase ordering is unique: there is exactly one sorted, stable
/// index permutation of a given arena. The sub-step relation therefore
/// determines its successor state exactly.
pub proof fn lemma_valid_order_unique(bodies: Seq<Particle>, o1: Seq<usize>, o2: Seq<usize>)
    requires
        valid_order(bodies, o1),
        valid_order(bodies, o2),
    ensures
        o1 == o2,
{
    lemma_orders_agree_up_to(bodies, o1, o2, bodies.len() as int);
    assert(o1 =~= o2);
}

/// One sub-step is deterministic: the sub-step relation admits exactly one
/// successor state, because the broad-phase ordering it quantifies over is
/// unique.
pub proof fn lemma_step_deterministic(
    pre: Seq<Particle>,
    post1: Seq<Particle>,
    post2: Seq<Particle>,
    ws: V2,
    g: V2,
    dt: int,
)
    requires
        step_rel(pre, post1, ws, g, dt),
        step_rel(pre, post2, ws, g, dt),
    ensures
        post1 == post2,
{
    let o1 = choose|order: Seq<usize>|
        valid_order(pre, order) && post1 == integrate_all(
            #[trigger] scan_outer(pre, ws, order, 0),
            g,
            dt,
        );
    let o2 = choose|order: Seq<usize>|
        valid_order(pre, order) && post2 == integrate_all(
            #[trigger] scan_outer(pre, ws, order, 0),
            g,
            dt,
        );
    lemma_valid_order_unique(pre, o1, o2);
}

/// Any number of sub-steps is deterministic: the whole update pipeline is a
/// function of the previous state.
pub proof fn lemma_steps_deterministic(
    pre: Seq<Particle>,
    post1: Seq<Particle>,
    post2: Seq<Particle>,
    ws: V2,
    g: V2,
    dt: int,
    k: nat,
)
    requires
        steps_rel(pre, post1, ws, g, dt, k),
        steps_rel(pre, post2, ws, g, dt, k),
    ensures
        post1 == post2,
    decreases k,
{
    if k > 0 {
        let mid1 = choose|mid: Seq<Particle>|
            steps_rel(pre, mid, ws, g, dt, (k - 1) as nat) && #[trigger] step_rel(
                mid,
                post1,
                ws,
                g,
                dt,
            );
        let mid2 = choose|mid: Seq<Particle>|
            steps_rel(pre, mid, ws, g, dt, (k - 1) as nat) && #[trigger] step_rel(
                mid,
                post2,
                ws,
                g,
                dt,
            );
        lemma_steps_deterministic(pre, mid1, mid2, ws, g, dt, (k - 1) as nat);
        lemma_step_deterministic(mid1, post1, post2, ws, g, dt);
    }
}

/// Pair resolution moves no fixed particle and never touches any field but
/// `position`.
pub proof fn lemma_resolve_pair_fixed(p1: Particle, p2: Particle)
    ensures
        p1.fixed ==> resolve_pair(p1, p2).0 == p1,
        p2.fixed ==> resolve_pair(p1, p2).1 == p2,
        resolve_pair(p1, p2).0 == (Particle { position: resolve_pair(p1, p2).0.position, ..p1 }),
        resolve_pair(p1, p2).1 == (Particle { position: resolve_pair(p1, p2).1.position, ..p2 }),
{
}

/// The boundary moves no fixed particle.
pub proof fn lemma_world_collide_fixed(p: Particle, ws: V2)
    ensures
        p.fixed ==> world_collide(p, ws) == p,
{
}

/// The inner pairwise scan preserves the arena's length and every fixed
/// particle.
pub proof fn lemma_scan_inner_fixed(bodies: Seq<Particle>, order: Seq<usize>, a: int, b: int)
    requires
        forall|t: int| 0 <= t < order.len() ==> (#[trigger] order[t]) < bodies.len(),
    ensures
        scan_inner(bodies, order, a, b).len() == bodies.len(),
        forall|t: int|
            0 <= t < bodies.len() && bodies[t].fixed ==> #[trigger] scan_inner(
                bodies,
                order,
                a,
                b,
            )[t] == bodies[t],
    decreases order.len() - b,
{
    if 0 <= b < order.len() && 0 <= a < order.len() {
        let i = order[a] as int;
        let j = order[b] as int;
        if !(left_edge(bodies[j]) > right_edge(bodies[i])) {
            let r = resolve_pair(bodies[i], bodies[j]);
            lemma_resolve_pair_fixed(bodies[i], bodies[j]);
            let nb = bodies.update(i, r.0).update(j, r.1);
            lemma_scan_inner_fixed(nb, order, a, b + 1);
            assert forall|t: int| 0 <= t < bodies.len() && bodies[t].fixed implies #[trigger] scan_inner(
                bodies,
                order,
                a,
                b,
            )[t] == bodies[t] by {
                assert(nb[t].fixed && nb[t] == bodies[t]);
            }
        }
    }
}

/// The full collision pass preserves the arena's length and every fixed
/// particle.
pub proof fn lemma_scan_outer_fixed(bodies: Seq<Particle>, ws: V2, order: Seq<usize>, a: int)
    requires
        forall|t: int| 0 <= t < order.len() ==> (#[trigger] order[t]) < bodies.len(),
    ensures
        scan_outer(bodies, ws, order, a).len() == bodies.len(),
        forall|t: int|
            0 <= t < bodies.len() && bodies[t].fixed ==> #[trigger] scan_outer(
                bodies,
                ws,
                order,
                a,
            )[t] == bodies[t],
    decreases order.len() - a,
{
    if 0 <= a < order.len() {
        let inner = scan_inner(bodies, order, a, a + 1);
        lemma_scan_inner_fixed(bodies, order, a, a + 1);
        let i = order[a] as int;
        lemma_world_collide_fixed(inner[i], ws);
        let world = inner.update(i, world_collide(inner[i], ws));
        lemma_scan_outer_fixed(world, ws, order, a + 1);
        assert forall|t: int| 0 <= t < bodies.len() && bodies[t].fixed implies #[trigger] scan_outer(
            bodies,
            ws,
            order,
            a,
        )[t] == bodies[t] by {
            assert(world[t].fixed && world[t] == bodies[t]);
        }
    }
}

/// The integration pass preserves the arena's length and every fixed
/// particle.
pub proof fn lemma_integrate_all_fixed(bodies: Seq<Particle>, g: V2, dt: int)
    ensures
        integrate_all(bodies, g, dt).len() == bodies.len(),
        forall|t: int|
            0 <= t < bodies.len() && bodies[t].fixed ==> #[trigger] integrate_all(
                bodies,
                g,
                dt,
            )[t] == bodies[t],
{
    assert forall|t: int| 0 <= t < bodies.len() && bodies[t].fixed implies #[trigger] integrate_all(
        bodies,
        g,
        dt,
    )[t] == bodies[t] by {
        assert(accelerated(bodies[t], g) == bodies[t]);
        assert(integrate(bodies[t], dt) == bodies[t]);
    }
}

/// Fixed particles are invariant: across any number of sub-steps — and so
/// across any number of updates — a particle with `fixed` set keeps its
/// exact position and history, whatever gravity, collisions, or boundary
/// contact occur around it.
pub proof fn lemma_fixed_particles_invariant(
    pre: Seq<Particle>,
    post: Seq<Particle>,
    ws: V2,
    g: V2,
    dt: int,
    k: nat,
)
    requires
        steps_rel(pre, post, ws, g, dt, k),
    ensures
        post.len() == pre.len(),
        forall|t: int| 0 <= t < pre.len() && pre[t].fixed ==> #[trigger] post[t] == pre[t],
    decreases k,
{
    if k > 0 {
        let mid = choose|mid: Seq<Particle>|
            steps_rel(pre, mid, ws, g, dt, (k - 1) as nat) && #[trigger] step_rel(
                mid,
                post,
                ws,
                g,
                dt,
            );
        lemma_fixed_particles_invariant(pre, mid, ws, g, dt, (k - 1) as nat);
        let order = choose|order: Seq<usize>|
            valid_order(mid, order) && post == integrate_all(
                #[trigger] scan_outer(mid, ws, order, 0),
                g,
                dt,
            );
        lemma_scan_outer_fixed(mid, ws, order, 0);
        lemma_integrate_all_fixed(scan_outer(mid, ws, order, 0), g, dt);
    }
}

/// One axis of pair resolution: when the push direction agrees in sign with
/// the center difference, the share ratios are nonnegative and the force is
/// nonpositive, the centers move apart (or stay) on that axis — saturation
/// included, since clamping is monotone and never moves an in-range value.
proof fn lemma_component_separates(
    px1: int,
    px2: int,
    n: int,
    mr1: int,
    mr2: int,
    force: int,
    f1: bool,
    f2: bool,
)
    requires
        in_range(px1),
        in_range(px2),
        mr1 >= 0,
        mr2 >= 0,
        force <= 0,
        px1 - px2 > 0 ==> n >= 0,
        px1 - px2 < 0 ==> n <= 0,
    ensures
        ({
            let q1 = if f1 {
                px1
            } else {
                spec_sub(px1, spec_mul(spec_mul(n, mr2), force))
            };
            let q2 = if f2 {
                px2
            } else {
                spec_add(px2, spec_mul(spec_mul(n, mr1), force))
            };
            (q1 - q2) * (q1 - q2) >= (px1 - px2) * (px1 - px2)
        }),
{
    let d1 = spec_mul(spec_mul(n, mr2), force);
    let d2 = spec_mul(spec_mul(n, mr1), force);
    let q1 = if f1 { px1 } else { spec_sub(px1, d1) };
    let q2 = if f2 { px2 } else { spec_add(px2, d2) };
    lemma_spec_mul_sign(n, mr2);
    lemma_spec_mul_sign(spec_mul(n, mr2), force);
    lemma_spec_mul_sign(n, mr1);
    lemma_spec_mul_sign(spec_mul(n, mr1), force);
    if n >= 0 && px1 - px2 >= 0 {
        assert(d1 <= 0 && d2 <= 0);
        lemma_clamp_monotone(px1, px1 - d1);
        lemma_clamp_monotone(px2 + d2, px2);
        assert(q1 >= px1 && q2 <= px2);
        assert((q1 - q2) * (q1 - q2) >= (px1 - px2) * (px1 - px2)) by (nonlinear_arith)
            requires
                q1 - q2 >= px1 - px2 >= 0,
        ;
    } else if n <= 0 && px1 - px2 <= 0 {
        assert(d1 >= 0 && d2 >= 0);
        lemma_clamp_monotone(px1 - d1, px1);
        lemma_clamp_monotone(px2, px2 + d2);
        assert(q1 <= px1 && q2 >= px2);
        assert((q1 - q2) * (q1 - q2) >= (px1 - px2) * (px1 - px2)) by (nonlinear_arith)
            requires
                q1 - q2 <= px1 - px2 <= 0,
        ;
    } else if n > 0 {
        assert(px1 - px2 == 0);
        assert(d1 <= 0 && d2 <= 0);
        lemma_clamp_monotone(px1, px1 - d1);
        lemma_clamp_monotone(px2 + d2, px2);
        assert(q1 >= px1 && q2 <= px2);
        assert((q1 - q2) * (q1 - q2) >= (px1 - px2) * (px1 - px2)) by (nonlinear_arith)
            requires
                q1 - q2 >= px1 - px2 >= 0,
        ;
    } else {
        assert(px1 - px2 == 0 && n < 0);
        assert(d1 >= 0 && d2 >= 0);
        lemma_clamp_monotone(px1 - d1, px1);
        lemma_clamp_monotone(px2, px2 + d2);
        assert(q1 <= px1 && q2 >= px2);
        assert((q1 - q2) * (q1 - q2) >= (px1 - px2) * (px1 - px2)) by (nonlinear_arith)
            requires
                q1 - q2 <= px1 - px2 <= 0,
        ;
    }
}

/// Non-penetration convergence: one narrow-phase resolution of an
/// overlapping pair whose elasticities sum to a nonnegative value never
/// increases the overlap — the squared center distance does not decrease,
/// while the radii are untouched. Repeated resolution therefore drives the
/// distance toward the contact distance monotonically. (Truncation may
/// round a tiny correction to zero, so strict progress is not guaranteed on
/// every call; overlap growth is impossible.)
pub proof fn lemma_resolution_never_increases_overlap(p1: Particle, p2: Particle)
    requires
        particle_wf(p1),
        particle_wf(p2),
        overlapping(p1, p2),
        p1.elasticity + p2.elasticity >= 0,
    ensures
        dist_sq(resolve_pair(p1, p2).0, resolve_pair(p1, p2).1) >= dist_sq(p1, p2),
        min_dist(resolve_pair(p1, p2).0, resolve_pair(p1, p2).1) == min_dist(p1, p2),
{
    let dx = p1.position.x - p2.position.x;
    let dy = p1.position.y - p2.position.y;
    let dsq = dist_sq(p1, p2);
    let md = min_dist(p1, p2);
    let dist = sqrt_floor(dsq as nat) as int;
    assert(dx * dx >= 0 && dy * dy >= 0) by (nonlinear_arith);
    lemma_sqrt_floor(dsq as nat);
    assert(dist < md) by (nonlinear_arith)
        requires
            dist * dist <= dsq,
            dsq < md * md,
            dist >= 0,
            md > 0,
    ;
    let esum = p1.elasticity + p2.elasticity;
    let avg = spec_mul(esum, HALF as int);
    lemma_spec_mul_sign(esum, HALF as int);
    let h = spec_mul(HALF as int, avg);
    lemma_spec_mul_sign(HALF as int, avg);
    let force = spec_mul(h, dist - md);
    lemma_spec_mul_sign(h, dist - md);
    assert(force <= 0);
    let mr1 = spec_div(p1.radius, md);
    let mr2 = spec_div(p2.radius, md);
    lemma_spec_div_sign(p1.radius, md);
    lemma_spec_div_sign(p2.radius, md);
    let nx = if dist == 0 { SCALE as int } else { spec_div(dx, dist) };
    let ny = if dist == 0 { 0int } else { spec_div(dy, dist) };
    if dist == 0 {
        assert(dsq == 0) by (nonlinear_arith)
            requires
                0 <= dsq,
                dsq < (0 + 1) * (0 + 1),
        ;
        assert(dx == 0 && dy == 0) by (nonlinear_arith)
            requires
                dx * dx + dy * dy == 0,
        ;
    } else {
        lemma_spec_div_sign(dx, dist);
        lemma_spec_div_sign(dy, dist);
    }
    lemma_component_separates(
        p1.position.x,
        p2.position.x,
        nx,
        mr1,
        mr2,
        force,
        p1.fixed,
        p2.fixed,
    );
    lemma_component_separates(
        p1.position.y,
        p2.position.y,
        ny,
        mr1,
        mr2,
        force,
        p1.fixed,
        p2.fixed,
    );
}

/// The broad phase misses no overlap: under the sorted ordering, if the
/// particles at sorted slots `a < b` truly overlap, then every slot the
/// inner scan visits on its way from `a` to `b` — `b` included — still has
/// its left edge inside the `a` particle's right edge, so the early exit
/// cannot fire before the pair is examined. The candidate set is therefore
/// a superset of the truly overlapping pairs.
pub proof fn lemma_broad_phase_superset(bodies: Seq<Particle>, order: Seq<usize>, a: int, b: int)
    requires
        valid_order(bodies, order),
        0 <= a < b < order.len(),
        particle_wf(bodies[order[a] as int]),
        particle_wf(bodies[order[b] as int]),
        overlapping(bodies[order[a] as int], bodies[order[b] as int]),
    ensures
        forall|c: int|
            a < c <= b ==> left_edge(bodies[#[trigger] order[c] as int]) <= right_edge(
                bodies[order[a] as int],
            ),
{
    let pa = bodies[order[a] as int];
    let pb = bodies[order[b] as int];
    let dx = pa.position.x - pb.position.x;
    let dy = pa.position.y - pb.position.y;
    let md = min_dist(pa, pb);
    assert(dy * dy >= 0) by (nonlinear_arith);
    assert(dx * dx < md * md);
    assert(-md < dx < md) by (nonlinear_arith)
        requires
            dx * dx < md * md,
            md > 0,
    ;
    assert(left_edge(pb) < right_edge(pa));
    assert forall|c: int| a < c <= b implies left_edge(bodies[#[trigger] order[c] as int])
        <= right_edge(bodies[order[a] as int]) by {
        assert(left_edge(bodies[order[c] as int]) <= left_edge(bodies[order[b] as int]));
    }
}

} // verus!
