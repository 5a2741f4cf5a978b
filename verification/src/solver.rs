#![allow(non_snake_case)]
//! The solver: owns the particle arena, drives fixed-count sub-stepping, and
//! runs the collision pipeline (broad-phase sort, pairwise narrow phase,
//! world boundary) followed by integration, each sub-step.
//!
//! Particles live in an arena and are addressed by the stable index that
//! [`SimpleSolver::addObject`] returns; the broad phase sorts indices, never
//! the arena itself.

use crate::fx::{fx_add, fx_div, fx_mul, fx_sub, in_range, isqrt, lemma_sqrt_floor, spec_add,
    spec_div, spec_mul, spec_sub, sqrt_floor, HALF, MAX_ABS, SCALE};
use crate::object::{accelerated, integrate, particle_wf, Particle, VerletObject};
use crate::vec::{v2_in_range, Vec2Fx, V2};
use vstd::prelude::*;

verus! {

/// Why construction of a solver was rejected.
#[derive(Clone, Copy, PartialEq, Eq, Structural, Debug)]
pub enum SolverError {
    /// A world extent was zero, negative, or beyond the representable range.
    InvalidWorldSize,
    /// The sub-step count was zero.
    InvalidSubSteps,
}

/// Squared distance between two particle centers.
pub open spec fn dist_sq(p1: Particle, p2: Particle) -> int {
    let dx = p1.position.x - p2.position.x;
    let dy = p1.position.y - p2.position.y;
    dx * dx + dy * dy
}

/// Distance below which two particles overlap: the sum of their radii.
pub open spec fn min_dist(p1: Particle, p2: Particle) -> int {
    p1.radius + p2.radius
}

/// The two circles interpenetrate.
pub open spec fn overlapping(p1: Particle, p2: Particle) -> bool {
    dist_sq(p1, p2) < min_dist(p1, p2) * min_dist(p1, p2)
}

/// Narrow-phase resolution of one candidate pair: push both centers apart
/// along their separating direction, each by a share proportional to the
/// other's radius, scaled by the mean elasticity and half the penetration.
/// Coincident centers fall back to the unit direction along the x axis.
/// Fixed particles do not move.
pub open spec fn resolve_pair(p1: Particle, p2: Particle) -> (Particle, Particle) {
    if !overlapping(p1, p2) {
        (p1, p2)
    } else {
        let dx = p1.position.x - p2.position.x;
        let dy = p1.position.y - p2.position.y;
        let dist = sqrt_floor(dist_sq(p1, p2) as nat) as int;
        let nx = if dist == 0 { SCALE as int } else { spec_div(dx, dist) };
        let ny = if dist == 0 { 0int } else { spec_div(dy, dist) };
        let md = min_dist(p1, p2);
        let mr1 = spec_div(p1.radius, md);
        let mr2 = spec_div(p2.radius, md);
        let avg = spec_mul(p1.elasticity + p2.elasticity, HALF as int);
        let force = spec_mul(spec_mul(HALF as int, avg), dist - md);
        let q1 = if p1.fixed {
            p1
        } else {
            Particle {
                position: V2 {
                    x: spec_sub(p1.position.x, spec_mul(spec_mul(nx, mr2), force)),
                    y: spec_sub(p1.position.y, spec_mul(spec_mul(ny, mr2), force)),
                },
                ..p1
            }
        };
        let q2 = if p2.fixed {
            p2
        } else {
            Particle {
                position: V2 {
                    x: spec_add(p2.position.x, spec_mul(spec_mul(nx, mr1), force)),
                    y: spec_add(p2.position.y, spec_mul(spec_mul(ny, mr1), force)),
                },
                ..p2
            }
        };
        (q1, q2)
    }
}

/// World-boundary handling for one particle: on each axis independently,
/// clamp the position to the half-extent (shrunk by the radius) and rebuild
/// `positionLast` so the derived velocity is reflected and scaled by the
/// particle's elasticity. The velocity used is the one derived before any
/// clamping. Fixed particles do not move.
pub open spec fn world_collide(p: Particle, ws: V2) -> Particle {
    if p.fixed {
        p
    } else {
        let hx = spec_sub(spec_mul(ws.x, HALF as int), p.radius);
        let hy = spec_sub(spec_mul(ws.y, HALF as int), p.radius);
        let vx = spec_mul(spec_div(spec_sub(p.position.x, p.positionLast.x), SCALE as int),
            p.elasticity);
        let vy = spec_mul(spec_div(spec_sub(p.position.y, p.positionLast.y), SCALE as int),
            p.elasticity);
        let px = if p.position.x < -hx { -hx } else if p.position.x > hx { hx } else { p.position.x };
        let plx = if p.position.x < -hx || p.position.x > hx {
            spec_add(px, vx)
        } else {
            p.positionLast.x
        };
        let py = if p.position.y < -hy { -hy } else if p.position.y > hy { hy } else { p.position.y };
        let ply = if p.position.y < -hy || p.position.y > hy {
            spec_add(py, vy)
        } else {
            p.positionLast.y
        };
        Particle {
            position: V2 { x: px, y: py },
            positionLast: V2 { x: plx, y: ply },
            ..p
        }
    }
}

/// Left end of a particle's bounding interval on the x axis.
pub open spec fn left_edge(p: Particle) -> int {
    p.position.x - p.radius
}

/// Right end of a particle's bounding interval on the x axis.
pub open spec fn right_edge(p: Particle) -> int {
    p.position.x + p.radius
}

/// `order` lists indices into `bodies` with left edges ascending.
pub open spec fn sorted_by_left(bodies: Seq<Particle>, order: Seq<usize>) -> bool {
    forall|a: int, b: int|
        0 <= a <= b < order.len() ==> left_edge(bodies[#[trigger] order[a] as int]) <= left_edge(
            bodies[#[trigger] order[b] as int])
}

/// `order` holds `n` pairwise distinct indices below `n`.
pub open spec fn index_perm(n: int, order: Seq<usize>) -> bool {
    &&& order.len() == n
    &&& forall|a: int| 0 <= a < order.len() ==> (#[trigger] order[a]) < n
    &&& forall|a: int, b: int| 0 <= a < b < order.len() ==> order[a] != order[b]
}

/// Particles with equal left edges keep their arena order.
pub open spec fn stable_order(bodies: Seq<Particle>, order: Seq<usize>) -> bool {
    forall|a: int, b: int|
        0 <= a < b < order.len() && left_edge(bodies[#[trigger] order[a] as int]) == left_edge(
            bodies[#[trigger] order[b] as int]) ==> order[a] < order[b]
}

/// The broad-phase ordering: a sorted, stable permutation of the arena
/// indices. There is exactly one such ordering for a given arena.
pub open spec fn valid_order(bodies: Seq<Particle>, order: Seq<usize>) -> bool {
    &&& index_perm(bodies.len() as int, order)
    &&& sorted_by_left(bodies, order)
    &&& stable_order(bodies, order)
}

/// Inner broad-phase scan for the particle at sorted slot `a`: walk the
/// following slots, resolving each candidate pair, and stop at the first
/// slot whose left edge lies beyond the current particle's right edge —
/// sortedness guarantees nothing past it can overlap on the x axis.
pub open spec fn scan_inner(bodies: Seq<Particle>, order: Seq<usize>, a: int, b: int) -> Seq<
    Particle>
    decreases order.len() - b,
{
    if b < 0 || b >= order.len() || !(0 <= a < order.len()) {
        bodies
    } else {
        let i = order[a] as int;
        let j = order[b] as int;
        if left_edge(bodies[j]) > right_edge(bodies[i]) {
            bodies
        } else {
            let r = resolve_pair(bodies[i], bodies[j]);
            scan_inner(bodies.update(i, r.0).update(j, r.1), order, a, b + 1)
        }
    }
}

/// Full collision pass in sorted order: for each slot, the inner pairwise
/// scan, then the world boundary for that slot's particle.
pub open spec fn scan_outer(bodies: Seq<Particle>, ws: V2, order: Seq<usize>, a: int) -> Seq<
    Particle>
    decreases order.len() - a,
{
    if a < 0 || a >= order.len() {
        bodies
    } else {
        let inner = scan_inner(bodies, order, a, a + 1);
        let i = order[a] as int;
        let world = inner.update(i, world_collide(inner[i], ws));
        scan_outer(world, ws, order, a + 1)
    }
}

/// Integration pass: accumulate gravity, then integrate, each particle.
pub open spec fn integrate_all(bodies: Seq<Particle>, g: V2, dt: int) -> Seq<Particle> {
    bodies.map(|i: int, p: Particle| integrate(accelerated(p, g), dt))
}

/// One sub-step relates `pre` to `post` when the collision pass over the
/// (unique) sorted stable ordering of `pre`, followed by the integration
/// pass, yields `post`.
pub open spec fn step_rel(pre: Seq<Particle>, post: Seq<Particle>, ws: V2, g: V2, dt: int) -> bool {
    exists|order: Seq<usize>|
        valid_order(pre, order) && post == integrate_all(
            #[trigger] scan_outer(pre, ws, order, 0),
            g,
            dt,
        )
}

/// `k` sub-steps in sequence.
pub open spec fn steps_rel(
    pre: Seq<Particle>,
    post: Seq<Particle>,
    ws: V2,
    g: V2,
    dt: int,
    k: nat,
) -> bool
    decreases k,
{
    if k == 0 {
        post == pre
    } else {
        exists|mid: Seq<Particle>|
            steps_rel(pre, mid, ws, g, dt, (k - 1) as nat) && #[trigger] step_rel(
                mid,
                post,
                ws,
                g,
                dt,
            )
    }
}

/// The sub-step size: the update delta divided evenly.
pub open spec fn step_dt(dt: int, subSteps: int) -> int {
    dt / subSteps
}

/// The arena's model is the pointwise model of its elements.
pub proof fn lemma_bodies(s: &SimpleSolver)
    ensures
        s.bodies().len() == s.objects@.len(),
        forall|i: int| 0 <= i < s.objects@.len() ==> #[trigger] s.bodies()[i] == s.objects@[i]@,
{
}

/// Updating one arena slot updates exactly that slot of the model.
proof fn lemma_bodies_update(pre: SimpleSolver, post: SimpleSolver, j: int, o: VerletObject)
    requires
        0 <= j < pre.objects@.len(),
        post.objects@ == pre.objects@.update(j, o),
    ensures
        post.bodies() == pre.bodies().update(j, o@),
{
    lemma_bodies(&pre);
    lemma_bodies(&post);
    assert(post.bodies() =~= pre.bodies().update(j, o@));
}

/// Left edge of one body, executably.
fn exec_left_edge(o: &VerletObject) -> (r: i64)
    requires
        o.wf(),
    ensures
        r == left_edge(o@),
{
    o.position.x - o.radius
}

/// Right edge of one body, executably.
fn exec_right_edge(o: &VerletObject) -> (r: i64)
    requires
        o.wf(),
    ensures
        r == right_edge(o@),
{
    o.position.x + o.radius
}

/// The 2D particle solver: gravity, a bounded world centered at the origin,
/// an arena of particles, and a fixed sub-step count per update.
pub struct SimpleSolver {
    pub gravity: Vec2Fx,
    pub worldSize: Vec2Fx,
    pub objects: Vec<VerletObject>,
    pub subSteps: u32,
    pub totalSteps: u32,
    pub pause: bool,
    pub btnStep: bool,
    pub totalTimeElapsed: i64,
    pub destroyed: bool,
}

impl SimpleSolver {
    /// The particle arena as a sequence of models, in handle order.
    pub open spec fn bodies(&self) -> Seq<Particle> {
        self.objects@.map(|i: int, o: VerletObject| o@)
    }

    /// A valid solver: extents positive and representable, at least one
    /// sub-step, every particle physically valid.
    pub open spec fn wf(&self) -> bool {
        &&& v2_in_range(self.gravity@)
        &&& 0 < self.worldSize@.x <= MAX_ABS
        &&& 0 < self.worldSize@.y <= MAX_ABS
        &&& self.subSteps >= 1
        &&& in_range(self.totalTimeElapsed as int)
        &&& forall|i: int| 0 <= i < self.bodies().len() ==> particle_wf(#[trigger] self.bodies()[i])
    }

    /// Build a solver with the given world extents and sub-step count, at
    /// rest, paused, with zero gravity and an empty arena. Degenerate inputs
    /// are rejected eagerly.
    pub fn new(worldSize: Vec2Fx, subSteps: u32) -> (r: Result<SimpleSolver, SolverError>)
        ensures
            r is Ok <==> (0 < worldSize@.x <= MAX_ABS && 0 < worldSize@.y <= MAX_ABS && subSteps
                >= 1),
            r == Result::<SimpleSolver, SolverError>::Err(SolverError::InvalidWorldSize) <==> !(0
                < worldSize@.x <= MAX_ABS && 0 < worldSize@.y <= MAX_ABS),
            r == Result::<SimpleSolver, SolverError>::Err(SolverError::InvalidSubSteps) <==> ((0
                < worldSize@.x <= MAX_ABS && 0 < worldSize@.y <= MAX_ABS) && subSteps == 0),
            r matches Ok(s) ==> {
                &&& s.wf()
                &&& s.gravity@ == (V2 { x: 0, y: 0 })
                &&& s.worldSize == worldSize
                &&& s.bodies() =~= Seq::<Particle>::empty()
                &&& s.subSteps == subSteps
                &&& s.totalSteps == 0
                &&& s.pause == true
                &&& s.btnStep == false
                &&& s.totalTimeElapsed == 0
                &&& !s.destroyed
            },
    {
        if worldSize.x <= 0 || worldSize.x > MAX_ABS || worldSize.y <= 0 || worldSize.y > MAX_ABS {
            return Err(SolverError::InvalidWorldSize);
        }
        if subSteps == 0 {
            return Err(SolverError::InvalidSubSteps);
        }
        Ok(
            SimpleSolver {
                gravity: Vec2Fx { x: 0, y: 0 },
                worldSize,
                objects: Vec::new(),
                subSteps,
                totalSteps: 0,
                pause: true,
                btnStep: false,
                totalTimeElapsed: 0,
                destroyed: false,
            },
        )
    }

    /// Insert a particle into the arena and return its stable handle.
    pub fn addObject(&mut self, object: VerletObject) -> (handle: usize)
        requires
            old(self).wf(),
            object.wf(),
        ensures
            final(self).bodies() == old(self).bodies().push(object@),
            handle == old(self).bodies().len(),
            final(self).wf(),
            final(self).gravity == old(self).gravity,
            final(self).worldSize == old(self).worldSize,
            final(self).subSteps == old(self).subSteps,
            final(self).totalSteps == old(self).totalSteps,
            final(self).pause == old(self).pause,
            final(self).btnStep == old(self).btnStep,
            final(self).totalTimeElapsed == old(self).totalTimeElapsed,
            final(self).destroyed == old(self).destroyed,
    {
        let handle = self.objects.len();
        self.objects.push(object);
        proof {
            assert(self.bodies() =~= old(self).bodies().push(object@));
        }
        handle
    }

    /// Read one particle by handle.
    pub fn getObject(&self, handle: usize) -> (o: VerletObject)
        requires
            handle < self.bodies().len(),
        ensures
            o@ == self.bodies()[handle as int],
    {
        self.objects[handle]
    }

    pub fn getObjectCount(&self) -> (n: usize)
        ensures
            n == self.bodies().len(),
    {
        self.objects.len()
    }

    pub fn getTotalSteps(&self) -> (n: u32)
        ensures
            n == self.totalSteps,
    {
        self.totalSteps
    }

    pub fn getTotalTimeElapsed(&self) -> (t: i64)
        ensures
            t == self.totalTimeElapsed,
    {
        self.totalTimeElapsed
    }

    pub fn getSubSteps(&self) -> (n: u32)
        ensures
            n == self.subSteps,
    {
        self.subSteps
    }

    /// Halt updates until resumed.
    pub fn pause(&mut self)
        ensures
            *final(self) == (SimpleSolver { pause: true, ..*old(self) }),
    {
        self.pause = true;
    }

    /// Let updates run again.
    pub fn resume(&mut self)
        ensures
            *final(self) == (SimpleSolver { pause: false, ..*old(self) }),
    {
        self.pause = false;
    }

    /// While paused, request exactly one update; the request is consumed by
    /// the next `update` call.
    pub fn singleStep(&mut self)
        ensures
            *final(self) == (SimpleSolver { btnStep: true, ..*old(self) }),
    {
        self.btnStep = true;
    }

    /// Release the solver's resources; idempotent. The arena itself lives
    /// until the solver is dropped.
    pub fn destroy(&mut self)
        ensures
            final(self).destroyed,
            *final(self) == (SimpleSolver { destroyed: true, ..*old(self) }),
    {
        self.destroyed = true;
    }

    /// Broad phase: compute the arena indices ordered by ascending left
    /// edge, ties kept in arena order. The arena itself is not reordered,
    /// so handles stay stable.
    pub fn sortObjects(&self) -> (order: Vec<usize>)
        requires
            self.wf(),
        ensures
            valid_order(self.bodies(), order@),
    {
        let n = self.objects.len();
        proof {
            lemma_bodies(self);
        }
        let mut order: Vec<usize> = Vec::new();
        let mut k: usize = 0;
        while k < n
            invariant
                k <= n == self.objects.len(),
                self.wf(),
                forall|i: int| 0 <= i < n ==> (#[trigger] self.objects@[i])@ == self.bodies()[i],
                order@.len() == k,
                forall|a: int| 0 <= a < k ==> (#[trigger] order@[a]) < k,
                forall|a: int, b: int| 0 <= a < b < k ==> order@[a] != order@[b],
                sorted_by_left(self.bodies(), order@),
                stable_order(self.bodies(), order@),
            decreases n - k,
        {
            let key = exec_left_edge(&self.objects[k]);
            let mut pos: usize = k;
            while pos > 0 && exec_left_edge(&self.objects[order[pos - 1]]) > key
                invariant
                    pos <= k <= n == self.objects.len(),
                    self.wf(),
                    forall|i: int|
                        0 <= i < n ==> (#[trigger] self.objects@[i])@ == self.bodies()[i],
                    order@.len() == k,
                    k < n,
                    key == left_edge(self.bodies()[k as int]),
                    forall|a: int| 0 <= a < k ==> (#[trigger] order@[a]) < k,
                    forall|j: int|
                        pos <= j < k ==> left_edge(self.bodies()[#[trigger] order@[j] as int])
                            > key,
                decreases pos,
            {
                pos = pos - 1;
            }
            proof {
                let bodies = self.bodies();
                let pre = order@;
                if pos > 0 {
                    assert(left_edge(bodies[pre[pos - 1] as int]) <= key);
                    assert forall|j: int| 0 <= j < pos implies left_edge(
                        bodies[#[trigger] pre[j] as int]) <= key by {
                        assert(left_edge(bodies[pre[j] as int]) <= left_edge(
                            bodies[pre[pos - 1] as int]));
                    }
                }
            }
            let ghost pre = order@;
            order.insert(pos, k);
            proof {
                let bodies = self.bodies();
                let now = order@;
                assert(now == pre.insert(pos as int, k as usize));
                assert(now.len() == k + 1);
                assert forall|a: int, b: int| 0 <= a <= b < now.len() implies left_edge(
                    bodies[#[trigger] now[a] as int]) <= left_edge(
                    bodies[#[trigger] now[b] as int]) by {
                    let av = if a < pos { pre[a] } else if a == pos { k as usize } else {
                        pre[a - 1]
                    };
                    let bv = if b < pos { pre[b] } else if b == pos { k as usize } else {
                        pre[b - 1]
                    };
                    assert(now[a] == av);
                    assert(now[b] == bv);
                }
                assert forall|a: int, b: int|
                    0 <= a < b < now.len() && left_edge(bodies[#[trigger] now[a] as int])
                        == left_edge(bodies[#[trigger] now[b] as int]) implies now[a] < now[b] by {
                    let av = if a < pos { pre[a] } else if a == pos { k as usize } else {
                        pre[a - 1]
                    };
                    let bv = if b < pos { pre[b] } else if b == pos { k as usize } else {
                        pre[b - 1]
                    };
                    assert(now[a] == av);
                    assert(now[b] == bv);
                }
                assert forall|a: int, b: int| 0 <= a < b < now.len() implies now[a] != now[b] by {
                    let av = if a < pos { pre[a] } else if a == pos { k as usize } else {
                        pre[a - 1]
                    };
                    let bv = if b < pos { pre[b] } else if b == pos { k as usize } else {
                        pre[b - 1]
                    };
                    assert(now[a] == av);
                    assert(now[b] == bv);
                }
            }
            k = k + 1;
        }
        order
    }

    /// Resolve one candidate pair in place; see [`resolve_pair`].
    pub fn solveObjectObjectCollision(&self, obj1: &mut VerletObject, obj2: &mut VerletObject)
        requires
            old(obj1).wf(),
            old(obj2).wf(),
        ensures
            (final(obj1)@, final(obj2)@) == resolve_pair(old(obj1)@, old(obj2)@),
            final(obj1).wf(),
            final(obj2).wf(),
    {
        let dx: i64 = obj1.position.x - obj2.position.x;
        let dy: i64 = obj1.position.y - obj2.position.y;
        let wdx: i128 = dx as i128;
        let wdy: i128 = dy as i128;
        assert(0 <= wdx * wdx <= 21267647932558653966460912964485513216 && 0 <= wdy * wdy
            <= 21267647932558653966460912964485513216) by (nonlinear_arith)
            requires
                -4611686018427387904 <= wdx <= 4611686018427387904,
                -4611686018427387904 <= wdy <= 4611686018427387904,
        ;
        let dsq: u128 = ((wdx * wdx) as u128) + ((wdy * wdy) as u128);
        let md: i64 = obj1.radius + obj2.radius;
        let wmd: u128 = md as u128;
        assert(wmd * wmd <= 21267647932558653966460912964485513216) by (nonlinear_arith)
            requires
                0 <= wmd <= 4611686018427387904,
        ;
        let mdsq: u128 = wmd * wmd;
        if dsq < mdsq {
            let distw: u64 = isqrt(dsq);
            proof {
                lemma_sqrt_floor(dsq as nat);
                assert((distw as int) < md) by (nonlinear_arith)
                    requires
                        (distw as int) * (distw as int) <= dsq,
                        dsq < (md as int) * (md as int),
                        0 <= distw,
                        0 < md,
                ;
            }
            let dist: i64 = distw as i64;
            let nx: i64;
            let ny: i64;
            if dist == 0 {
                nx = SCALE;
                ny = 0;
            } else {
                nx = fx_div(dx, dist);
                ny = fx_div(dy, dist);
            }
            let mr1 = fx_div(obj1.radius, md);
            let mr2 = fx_div(obj2.radius, md);
            let avg = fx_mul(obj1.elasticity + obj2.elasticity, HALF);
            let force = fx_mul(fx_mul(HALF, avg), dist - md);
            if !obj1.fixed {
                obj1.position = Vec2Fx {
                    x: fx_sub(obj1.position.x, fx_mul(fx_mul(nx, mr2), force)),
                    y: fx_sub(obj1.position.y, fx_mul(fx_mul(ny, mr2), force)),
                };
            }
            if !obj2.fixed {
                obj2.position = Vec2Fx {
                    x: fx_add(obj2.position.x, fx_mul(fx_mul(nx, mr1), force)),
                    y: fx_add(obj2.position.y, fx_mul(fx_mul(ny, mr1), force)),
                };
            }
        }
    }

    /// Clamp one particle to the world box and reflect its derived velocity;
    /// see [`world_collide`].
    pub fn worldCollision(&self, obj: &mut VerletObject)
        requires
            old(obj).wf(),
            0 < self.worldSize@.x <= MAX_ABS,
            0 < self.worldSize@.y <= MAX_ABS,
        ensures
            final(obj)@ == world_collide(old(obj)@, self.worldSize@),
            final(obj).wf(),
    {
        if obj.fixed {
            return ;
        }
        let hx = fx_sub(fx_mul(self.worldSize.x, HALF), obj.radius);
        let hy = fx_sub(fx_mul(self.worldSize.y, HALF), obj.radius);
        let vx = fx_mul(fx_div(fx_sub(obj.position.x, obj.positionLast.x), SCALE), obj.elasticity);
        let vy = fx_mul(fx_div(fx_sub(obj.position.y, obj.positionLast.y), SCALE), obj.elasticity);
        if obj.position.x < -hx {
            obj.position.x = -hx;
            obj.positionLast.x = fx_add(obj.position.x, vx);
        } else if obj.position.x > hx {
            obj.position.x = hx;
            obj.positionLast.x = fx_add(obj.position.x, vx);
        }
        if obj.position.y < -hy {
            obj.position.y = -hy;
            obj.positionLast.y = fx_add(obj.position.y, vy);
        } else if obj.position.y > hy {
            obj.position.y = hy;
            obj.positionLast.y = fx_add(obj.position.y, vy);
        }
    }

    /// One full collision pass over the given broad-phase ordering:
    /// pairwise narrow phase with the sorted early exit, then the world
    /// boundary, for each particle in turn.
    fn handleCollision(&mut self, order: &Vec<usize>)
        requires
            old(self).wf(),
            valid_order(old(self).bodies(), order@),
        ensures
            final(self).bodies() == scan_outer(
                old(self).bodies(),
                old(self).worldSize@,
                order@,
                0,
            ),
            final(self).wf(),
            final(self).objects@.len() == old(self).objects@.len(),
            final(self).gravity == old(self).gravity,
            final(self).worldSize == old(self).worldSize,
            final(self).subSteps == old(self).subSteps,
            final(self).totalSteps == old(self).totalSteps,
            final(self).pause == old(self).pause,
            final(self).btnStep == old(self).btnStep,
            final(self).totalTimeElapsed == old(self).totalTimeElapsed,
            final(self).destroyed == old(self).destroyed,
    {
        let n = self.objects.len();
        let ghost orig = self.bodies();
        let ghost ws = self.worldSize@;
        proof {
            lemma_bodies(self);
        }
        let mut a: usize = 0;
        while a < n
            invariant
                a <= n,
                self.objects@.len() == n,
                order@.len() == n,
                forall|t: int| 0 <= t < n ==> (#[trigger] order@[t]) < n,
                forall|t: int, u: int| 0 <= t < u < n ==> order@[t] != order@[u],
                forall|t: int| 0 <= t < n ==> particle_wf(#[trigger] self.bodies()[t]),
                self.gravity == old(self).gravity,
                self.worldSize == old(self).worldSize,
                self.subSteps == old(self).subSteps,
                self.totalSteps == old(self).totalSteps,
                self.pause == old(self).pause,
                self.btnStep == old(self).btnStep,
                self.totalTimeElapsed == old(self).totalTimeElapsed,
                self.destroyed == old(self).destroyed,
                0 < self.worldSize@.x <= MAX_ABS,
                0 < self.worldSize@.y <= MAX_ABS,
                ws == self.worldSize@,
                scan_outer(self.bodies(), ws, order@, a as int) == scan_outer(orig, ws, order@, 0),
            decreases n - a,
        {
            proof {
                lemma_bodies(self);
            }
            let i = order[a];
            let mut oi = self.objects[i];
            let ghost s_a = self.bodies();
            proof {
                assert(s_a.update(i as int, oi@) =~= s_a);
            }
            let mut b = a + 1;
            let mut past_right_edge = false;
            while b < n && !past_right_edge
                invariant
                    a < b <= n,
                    a < n,
                    i == order@[a as int],
                    (i as int) < n,
                    self.objects@.len() == n,
                    order@.len() == n,
                    forall|t: int| 0 <= t < n ==> (#[trigger] order@[t]) < n,
                    forall|t: int, u: int| 0 <= t < u < n ==> order@[t] != order@[u],
                    forall|t: int| 0 <= t < n ==> particle_wf(#[trigger] self.bodies()[t]),
                    oi.wf(),
                    self.gravity == old(self).gravity,
                    self.worldSize == old(self).worldSize,
                    self.subSteps == old(self).subSteps,
                    self.totalSteps == old(self).totalSteps,
                    self.pause == old(self).pause,
                    self.btnStep == old(self).btnStep,
                    self.totalTimeElapsed == old(self).totalTimeElapsed,
                    self.destroyed == old(self).destroyed,
                    0 < self.worldSize@.x <= MAX_ABS,
                    0 < self.worldSize@.y <= MAX_ABS,
                    ws == self.worldSize@,
                    !past_right_edge ==> scan_inner(
                        self.bodies().update(i as int, oi@),
                        order@,
                        a as int,
                        b as int,
                    ) == scan_inner(s_a, order@, a as int, a as int + 1),
                    past_right_edge ==> self.bodies().update(i as int, oi@) == scan_inner(
                        s_a,
                        order@,
                        a as int,
                        a as int + 1,
                    ),
                decreases n - b,
            {
                proof {
                    lemma_bodies(self);
                }
                let j = order[b];
                proof {
                    assert(j != i);
                }
                let ghost eff = self.bodies().update(i as int, oi@);
                let le = exec_left_edge(&self.objects[j]);
                let re = exec_right_edge(&oi);
                proof {
                    assert(eff[j as int] == self.bodies()[j as int]);
                    assert(eff[i as int] == oi@);
                }
                if le > re {
                    proof {
                        assert(scan_inner(eff, order@, a as int, b as int) == eff);
                    }
                    past_right_edge = true;
                    b = n;
                } else {
                    let mut oj = self.objects[j];
                    let ghost oi0 = oi@;
                    let ghost oj0 = oj@;
                    self.solveObjectObjectCollision(&mut oi, &mut oj);
                    let ghost prev = *self;
                    self.objects[j] = oj;
                    proof {
                        lemma_bodies_update(prev, *self, j as int, oj);
                        let r = resolve_pair(eff[i as int], eff[j as int]);
                        assert(r == (oi@, oj@));
                        assert(self.bodies().update(i as int, oi@) =~= eff.update(
                            i as int,
                            r.0,
                        ).update(j as int, r.1));
                        assert(scan_inner(eff, order@, a as int, b as int) == scan_inner(
                            self.bodies().update(i as int, oi@),
                            order@,
                            a as int,
                            b as int + 1,
                        ));
                    }
                    b = b + 1;
                }
            }
            proof {
                let eff = self.bodies().update(i as int, oi@);
                if !past_right_edge {
                    assert(scan_inner(eff, order@, a as int, b as int) == eff);
                }
                assert(eff == scan_inner(s_a, order@, a as int, a as int + 1));
            }
            let ghost inner_res = scan_inner(s_a, order@, a as int, a as int + 1);
            let ghost oi_before_world = oi@;
            self.worldCollision(&mut oi);
            proof {
                assert(inner_res[i as int] == oi_before_world);
                assert(oi@ == world_collide(inner_res[i as int], ws));
            }
            let ghost prev = *self;
            self.objects[i] = oi;
            proof {
                lemma_bodies_update(prev, *self, i as int, oi);
                assert(self.bodies() =~= inner_res.update(
                    i as int,
                    world_collide(inner_res[i as int], ws),
                ));
                assert(scan_outer(s_a, ws, order@, a as int) == scan_outer(
                    self.bodies(),
                    ws,
                    order@,
                    a as int + 1,
                ));
            }
            a = a + 1;
        }
        proof {
            assert(scan_outer(self.bodies(), ws, order@, n as int) == self.bodies());
        }
    }

    /// Integration pass: apply gravity to and integrate every particle.
    fn updateObjects(&mut self, dt: i64)
        requires
            old(self).wf(),
            in_range(dt as int),
        ensures
            final(self).bodies() == integrate_all(old(self).bodies(), old(self).gravity@, dt as int),
            final(self).wf(),
            final(self).objects@.len() == old(self).objects@.len(),
            final(self).gravity == old(self).gravity,
            final(self).worldSize == old(self).worldSize,
            final(self).subSteps == old(self).subSteps,
            final(self).totalSteps == old(self).totalSteps,
            final(self).pause == old(self).pause,
            final(self).btnStep == old(self).btnStep,
            final(self).totalTimeElapsed == old(self).totalTimeElapsed,
            final(self).destroyed == old(self).destroyed,
    {
        let n = self.objects.len();
        let gravity = self.gravity;
        let ghost orig = self.bodies();
        proof {
            lemma_bodies(self);
        }
        let mut idx: usize = 0;
        while idx < n
            invariant
                idx <= n,
                self.objects@.len() == n,
                in_range(dt as int),
                v2_in_range(gravity@),
                forall|t: int| 0 <= t < n ==> particle_wf(#[trigger] self.bodies()[t]),
                forall|t: int|
                    0 <= t < idx ==> #[trigger] self.bodies()[t] == integrate(
                        accelerated(orig[t], gravity@),
                        dt as int,
                    ),
                forall|t: int| idx <= t < n ==> #[trigger] self.bodies()[t] == orig[t],
                self.gravity == old(self).gravity,
                self.worldSize == old(self).worldSize,
                self.subSteps == old(self).subSteps,
                self.totalSteps == old(self).totalSteps,
                self.pause == old(self).pause,
                self.btnStep == old(self).btnStep,
                self.totalTimeElapsed == old(self).totalTimeElapsed,
                self.destroyed == old(self).destroyed,
            decreases n - idx,
        {
            proof {
                lemma_bodies(self);
            }
            let mut o = self.objects[idx];
            proof {
                assert(o@ == self.bodies()[idx as int]);
            }
            o.accelerate(gravity);
            o.update(dt);
            let ghost prev = *self;
            self.objects[idx] = o;
            proof {
                lemma_bodies_update(prev, *self, idx as int, o);
            }
            idx = idx + 1;
        }
        proof {
            assert(self.bodies() =~= integrate_all(orig, gravity@, dt as int));
        }
    }

    /// One sub-step: broad-phase sort, collision pass, integration pass.
    fn step(&mut self, dt: i64)
        requires
            old(self).wf(),
            in_range(dt as int),
        ensures
            step_rel(
                old(self).bodies(),
                final(self).bodies(),
                old(self).worldSize@,
                old(self).gravity@,
                dt as int,
            ),
            final(self).wf(),
            final(self).objects@.len() == old(self).objects@.len(),
            final(self).gravity == old(self).gravity,
            final(self).worldSize == old(self).worldSize,
            final(self).subSteps == old(self).subSteps,
            final(self).totalSteps == old(self).totalSteps,
            final(self).pause == old(self).pause,
            final(self).btnStep == old(self).btnStep,
            final(self).totalTimeElapsed == old(self).totalTimeElapsed,
            final(self).destroyed == old(self).destroyed,
    {
        let order = self.sortObjects();
        let ghost pre = self.bodies();
        self.handleCollision(&order);
        self.updateObjects(dt);
        proof {
            assert(valid_order(pre, order@) && self.bodies() == integrate_all(
                scan_outer(pre, self.worldSize@, order@, 0),
                self.gravity@,
                dt as int,
            ));
        }
    }

    /// Advance the simulation by `dt`, in `subSteps` equal sub-steps. Does
    /// nothing while paused, unless a single step was requested; a step
    /// request is consumed. The elapsed-time and step counters advance,
    /// saturating at the top of their ranges.
    pub fn update(&mut self, dt: i64)
        requires
            old(self).wf(),
            0 < dt <= MAX_ABS,
        ensures
            final(self).wf(),
            old(self).pause && !old(self).btnStep ==> *final(self) == *old(self),
            !(old(self).pause && !old(self).btnStep) ==> {
                &&& steps_rel(
                    old(self).bodies(),
                    final(self).bodies(),
                    old(self).worldSize@,
                    old(self).gravity@,
                    step_dt(dt as int, old(self).subSteps as int),
                    old(self).subSteps as nat,
                )
                &&& final(self).totalTimeElapsed == spec_add(
                    old(self).totalTimeElapsed as int,
                    dt as int,
                )
                &&& final(self).totalSteps == (if old(self).totalSteps < u32::MAX {
                    old(self).totalSteps + 1
                } else {
                    old(self).totalSteps as int
                })
                &&& final(self).btnStep == false
                &&& final(self).pause == old(self).pause
                &&& final(self).gravity == old(self).gravity
                &&& final(self).worldSize == old(self).worldSize
                &&& final(self).subSteps == old(self).subSteps
                &&& final(self).destroyed == old(self).destroyed
                &&& final(self).objects@.len() == old(self).objects@.len()
            },
            forall|t: int|
                0 <= t < old(self).bodies().len() && old(self).bodies()[t].fixed
                    ==> #[trigger] final(self).bodies()[t] == old(self).bodies()[t],
    {
        if !self.pause || self.btnStep {
            self.totalTimeElapsed = fx_add(self.totalTimeElapsed, dt);
            let q: u64 = (dt as u64) / (self.subSteps as u64);
            proof {
                vstd::arithmetic::div_mod::lemma_div_nonincreasing(
                    dt as int,
                    self.subSteps as int,
                );
                vstd::arithmetic::div_mod::lemma_div_pos_is_pos(dt as int, self.subSteps as int);
            }
            let stepDt: i64 = q as i64;
            assert(stepDt == step_dt(dt as int, self.subSteps as int));
            proof {
                assert(self.bodies() == old(self).bodies());
            }
            let ghost pre = self.bodies();
            let ghost ws = self.worldSize@;
            let ghost g = self.gravity@;
            let count = self.subSteps;
            let mut s: u32 = 0;
            while s < count
                invariant
                    s <= count,
                    self.wf(),
                    in_range(stepDt as int),
                    steps_rel(pre, self.bodies(), ws, g, stepDt as int, s as nat),
                    ws == self.worldSize@,
                    g == self.gravity@,
                    self.gravity == old(self).gravity,
                    self.worldSize == old(self).worldSize,
                    self.subSteps == old(self).subSteps,
                    self.totalSteps == old(self).totalSteps,
                    self.pause == old(self).pause,
                    self.btnStep == old(self).btnStep,
                    self.totalTimeElapsed == spec_add(
                        old(self).totalTimeElapsed as int,
                        dt as int,
                    ),
                    self.destroyed == old(self).destroyed,
                    self.objects@.len() == old(self).objects@.len(),
                decreases count - s,
            {
                let ghost mid = self.bodies();
                self.step(stepDt);
                proof {
                    assert(steps_rel(pre, self.bodies(), ws, g, stepDt as int, (s + 1) as nat));
                }
                s = s + 1;
            }
            proof {
                crate::laws::lemma_fixed_particles_invariant(
                    pre,
                    self.bodies(),
                    ws,
                    g,
                    stepDt as int,
                    count as nat,
                );
            }
            if self.totalSteps < u32::MAX {
                self.totalSteps = self.totalSteps + 1;
            }
            self.btnStep = false;
        }
    }
}

} // verus!
