//! The flock: dense per-agent state arrays indexed by stable handles,
//! and the four per-tick phases — integrate, reindex, resolve neighbors,
//! compute flocking forces — run in a fixed sequence by `simulate`.
//!
//! Steering follows the classic boid rules: alignment toward the average
//! neighbor velocity, cohesion toward the average neighbor position, and
//! separation away from close neighbors.  Each rule's steering vector is
//! clamped to `max_force`; the three contributions are summed before
//! they are applied to the agent's acceleration.

use vstd::prelude::*;
use crate::kinematics::{integrate_step, spec_wrap_coord, Boid, Kinematic, KinematicConstraint,
    DT_LIMIT, VEL_LIMIT};
use crate::spatial::{in_block, SparseSpatialHash};
use crate::steer_map::{steer_contents, steer_map_get, steer_map_insert, steer_map_new};
use crate::vec2::{spec_clamp, spec_isqrt, spec_scaled, stdiv, div_trunc, div_trunc_wide, Vec2,
    COORD_LIMIT, SCALE};
use crate::world::BoidWorld;

verus! {

/// Neighbors closer than this many subunits repel (50 world units).
pub const SEPARATION_RADIUS: i64 = 50 * SCALE;

/// Largest magnitude of one separation contribution component.
pub const SEP_BOUND: i64 = SCALE * SCALE;

/// The running sums a steering pass accumulates over one agent's
/// neighbors: velocity, position and separation sums, and the number of
/// live, non-self neighbors seen.
pub ghost struct SteerSums {
    pub svx: int,
    pub svy: int,
    pub spx: int,
    pub spy: int,
    pub ssx: int,
    pub ssy: int,
    pub count: int,
}

/// The separation contribution one neighbor at `other` makes against an
/// agent at `me`: the unit vector from the neighbor toward the agent,
/// divided by their distance — closer neighbors push harder.  Zero at
/// distance zero (guarding the division) and at or beyond the radius.
pub open spec fn spec_sep_contrib(me: Vec2, other: Vec2) -> (int, int) {
    let dx = me.x - other.x;
    let dy = me.y - other.y;
    let dist = spec_isqrt((dx * dx + dy * dy) as nat) as int;
    if 0 < dist < SEPARATION_RADIUS {
        let n = spec_scaled(dx, dy, SCALE as int);
        (stdiv(n.0 * SCALE, dist), stdiv(n.1 * SCALE, dist))
    } else {
        (0, 0)
    }
}

/// The sums over the neighbor list `ids` for agent `me`: identifiers
/// equal to `me` or out of range are skipped.
pub open spec fn spec_sums(ps: Seq<Vec2>, ks: Seq<Kinematic>, me: int, ids: Seq<usize>) -> SteerSums
    decreases ids.len(),
{
    if ids.len() == 0 {
        SteerSums { svx: 0, svy: 0, spx: 0, spy: 0, ssx: 0, ssy: 0, count: 0 }
    } else {
        let prev = spec_sums(ps, ks, me, ids.drop_last());
        let id = ids.last() as int;
        if id == me || id >= ps.len() {
            prev
        } else {
            let c = spec_sep_contrib(ps[me], ps[id]);
            SteerSums {
                svx: prev.svx + ks[id].velocity.x,
                svy: prev.svy + ks[id].velocity.y,
                spx: prev.spx + ps[id].x,
                spy: prev.spy + ps[id].y,
                ssx: prev.ssx + c.0,
                ssy: prev.ssy + c.1,
                count: prev.count + 1,
            }
        }
    }
}

/// The steering vector agent `me` accumulates this tick: alignment,
/// cohesion and separation, each clamped to `max_force`, summed.  With
/// no live neighbors, alignment and cohesion vanish; a zero average in
/// any rule (a degenerate normalization input) yields a neutral
/// contribution rather than an error.
pub open spec fn spec_steer(
    ps: Seq<Vec2>,
    ks: Seq<Kinematic>,
    cs: Seq<KinematicConstraint>,
    ids: Seq<usize>,
    me: int,
) -> (int, int) {
    let s = spec_sums(ps, ks, me, ids);
    let kin = ks[me];
    let con = cs[me];
    let mp = ps[me];
    let align = if s.count > 0 {
        let ax = stdiv(s.svx, s.count);
        let ay = stdiv(s.svy, s.count);
        if !(ax == 0 && ay == 0) {
            let t = spec_scaled(ax, ay, con.max_speed as int);
            spec_clamp(t.0 - kin.velocity.x, t.1 - kin.velocity.y, con.max_force as int)
        } else {
            (0int, 0int)
        }
    } else {
        (0int, 0int)
    };
    let coh = if s.count > 0 {
        let px = stdiv(s.spx, s.count) - mp.x;
        let py = stdiv(s.spy, s.count) - mp.y;
        if !(px == 0 && py == 0) {
            let u = spec_scaled(px, py, SCALE as int);
            let tx = u.0 - kin.last_position.x;
            let ty = u.1 - kin.last_position.y;
            if !(tx == 0 && ty == 0) {
                let t = spec_scaled(tx, ty, con.max_speed as int);
                spec_clamp(t.0 - kin.velocity.x, t.1 - kin.velocity.y, con.max_force as int)
            } else {
                (0int, 0int)
            }
        } else {
            (0int, 0int)
        }
    } else {
        (0int, 0int)
    };
    let sep = {
        let sx = if s.count > 0 {
            stdiv(s.ssx, s.count)
        } else {
            s.ssx
        };
        let sy = if s.count > 0 {
            stdiv(s.ssy, s.count)
        } else {
            s.ssy
        };
        if !(sx == 0 && sy == 0) {
            let t = spec_scaled(sx, sy, con.max_speed as int);
            spec_clamp(t.0 - kin.velocity.x, t.1 - kin.velocity.y, con.max_force as int)
        } else {
            (0int, 0int)
        }
    };
    (align.0 + coh.0 + sep.0, align.1 + coh.1 + sep.1)
}

/// Steering clamp: a clamped steering vector's squared magnitude never
/// exceeds `m * m`, whatever the input.
pub proof fn lemma_steering_clamp(x: int, y: int, m: int)
    requires
        m >= 0,
    ensures
        spec_clamp(x, y, m).0 * spec_clamp(x, y, m).0 + spec_clamp(x, y, m).1 * spec_clamp(
            x,
            y,
            m,
        ).1 <= m * m,
        -m <= spec_clamp(x, y, m).0 <= m,
        -m <= spec_clamp(x, y, m).1 <= m,
{
    crate::vec2::lemma_scaled_bounds(x, y, m);
    if x * x + y * y <= m * m {
        assert(x * x >= 0 && y * y >= 0) by (nonlinear_arith);
        assert(-m <= x <= m && -m <= y <= m) by (nonlinear_arith)
            requires
                x * x + y * y <= m * m,
                x * x >= 0,
                y * y >= 0,
                m >= 0,
        ;
    }
}

/// Every separation contribution component is at most `SEP_BOUND` in
/// magnitude.
pub proof fn lemma_sep_contrib_bounds(me: Vec2, other: Vec2)
    requires
        me.in_range(COORD_LIMIT as int),
        other.in_range(COORD_LIMIT as int),
    ensures
        -(SEP_BOUND as int) <= spec_sep_contrib(me, other).0 <= SEP_BOUND as int,
        -(SEP_BOUND as int) <= spec_sep_contrib(me, other).1 <= SEP_BOUND as int,
{
    let dx = me.x - other.x;
    let dy = me.y - other.y;
    let dist = spec_isqrt((dx * dx + dy * dy) as nat) as int;
    if 0 < dist < SEPARATION_RADIUS {
        crate::vec2::lemma_scaled_bounds(dx, dy, SCALE as int);
        let n = spec_scaled(dx, dy, SCALE as int);
        assert(-(SEP_BOUND as int) <= n.0 * SCALE <= SEP_BOUND as int && -(SEP_BOUND as int) <= n.1
            * SCALE <= SEP_BOUND as int) by (nonlinear_arith)
            requires
                -SCALE <= n.0 <= SCALE,
                -SCALE <= n.1 <= SCALE,
        ;
        crate::vec2::lemma_stdiv_bound(n.0 * SCALE, dist, SEP_BOUND as int);
        crate::vec2::lemma_stdiv_bound(n.1 * SCALE, dist, SEP_BOUND as int);
        assert(dist * SEP_BOUND >= SEP_BOUND) by (nonlinear_arith)
            requires
                dist >= 1,
        ;
    }
}

/// Separation boundary: two agents at or beyond the separation radius
/// (or collocated, guarding the division) contribute no separation
/// force; strictly inside the radius the contribution is nonzero and
/// each component pushes the agent away from the neighbor.
pub proof fn lemma_separation_threshold(me: Vec2, other: Vec2)
    requires
        me.in_range(COORD_LIMIT as int),
        other.in_range(COORD_LIMIT as int),
    ensures
        ({
            let dx = me.x - other.x;
            let dy = me.y - other.y;
            let dist = spec_isqrt((dx * dx + dy * dy) as nat) as int;
            let c = spec_sep_contrib(me, other);
            &&& (dist >= SEPARATION_RADIUS ==> c == (0int, 0int))
            &&& (dist == 0 ==> c == (0int, 0int))
            &&& (0 < dist < SEPARATION_RADIUS ==> {
                &&& !(c.0 == 0 && c.1 == 0)
                &&& (dx > 0 ==> c.0 >= 0)
                &&& (dx < 0 ==> c.0 <= 0)
                &&& (dx == 0 ==> c.0 == 0)
                &&& (dy > 0 ==> c.1 >= 0)
                &&& (dy < 0 ==> c.1 <= 0)
                &&& (dy == 0 ==> c.1 == 0)
            })
        }),
{
    let dx = me.x - other.x;
    let dy = me.y - other.y;
    let s = dx * dx + dy * dy;
    assert(dx * dx >= 0 && dy * dy >= 0) by (nonlinear_arith);
    crate::vec2::lemma_isqrt(s as nat);
    let l = spec_isqrt(s as nat) as int;
    if 0 < l < SEPARATION_RADIUS {
        crate::vec2::lemma_scaled_bounds(dx, dy, SCALE as int);
        let n = spec_scaled(dx, dy, SCALE as int);
        let c = spec_sep_contrib(me, other);
        crate::vec2::lemma_stdiv_mag(n.0 * SCALE, l);
        crate::vec2::lemma_stdiv_mag(n.1 * SCALE, l);
        assert(n.0 > 0 ==> n.0 * SCALE > 0) by (nonlinear_arith);
        assert(n.0 < 0 ==> n.0 * SCALE < 0) by (nonlinear_arith);
        assert(n.0 == 0 ==> n.0 * SCALE == 0) by (nonlinear_arith);
        assert(n.1 > 0 ==> n.1 * SCALE > 0) by (nonlinear_arith);
        assert(n.1 < 0 ==> n.1 * SCALE < 0) by (nonlinear_arith);
        assert(n.1 == 0 ==> n.1 * SCALE == 0) by (nonlinear_arith);
        if dx * dx >= dy * dy {
            assert(2 * (dx * dx) >= s);
            let adx = if dx >= 0 {
                dx as int
            } else {
                -(dx as int)
            };
            assert(dx != 0) by {
                if dx == 0 {
                    assert(s == 0) by (nonlinear_arith)
                        requires
                            dx == 0,
                            dy * dy <= dx * dx,
                            s == dx * dx + dy * dy,
                    ;
                    assert(l == 0);
                }
            }
            assert(adx * adx == dx * dx) by (nonlinear_arith)
                requires
                    adx == dx || adx == -dx,
            ;
            assert(2 * adx >= l) by (nonlinear_arith)
                requires
                    2 * (adx * adx) >= s,
                    l * l <= s,
                    adx >= 0,
                    l >= 0,
            ;
            let a = adx * SCALE;
            let q = a / (l + 1);
            vstd::arithmetic::div_mod::lemma_fundamental_div_mod(a, l + 1);
            vstd::arithmetic::div_mod::lemma_mod_bound(a, l + 1);
            assert(q >= 200) by (nonlinear_arith)
                requires
                    a == (l + 1) * q + a % (l + 1),
                    0 <= a % (l + 1) < l + 1,
                    a == adx * 1000,
                    2 * adx >= l,
                    l >= 1,
            ;
            assert(n.0 == if dx >= 0 {
                q
            } else {
                -q
            }) by {
                if dx < 0 {
                    assert(-(dx * SCALE) == adx * SCALE) by (nonlinear_arith)
                        requires
                            adx == -dx,
                    ;
                }
            }
            let b = q * SCALE;
            let q2 = b / l;
            vstd::arithmetic::div_mod::lemma_fundamental_div_mod(b, l);
            vstd::arithmetic::div_mod::lemma_mod_bound(b, l);
            assert(q2 >= 1) by (nonlinear_arith)
                requires
                    b == l * q2 + b % l,
                    0 <= b % l < l,
                    b == q * 1000,
                    q >= 200,
                    1 <= l < 50000,
            ;
            assert(c.0 == if dx >= 0 {
                q2
            } else {
                -q2
            }) by {
                if dx < 0 {
                    assert(-((-q) * SCALE) == q * SCALE) by (nonlinear_arith);
                }
            }
        } else {
            assert(2 * (dy * dy) >= s);
            let ady = if dy >= 0 {
                dy as int
            } else {
                -(dy as int)
            };
            assert(dy != 0) by {
                if dy == 0 {
                    assert(s == 0) by (nonlinear_arith)
                        requires
                            dy == 0,
                            dx * dx < dy * dy,
                            s == dx * dx + dy * dy,
                    ;
                    assert(l == 0);
                }
            }
            assert(ady * ady == dy * dy) by (nonlinear_arith)
                requires
                    ady == dy || ady == -dy,
            ;
            assert(2 * ady >= l) by (nonlinear_arith)
                requires
                    2 * (ady * ady) >= s,
                    l * l <= s,
                    ady >= 0,
                    l >= 0,
            ;
            let a = ady * SCALE;
            let q = a / (l + 1);
            vstd::arithmetic::div_mod::lemma_fundamental_div_mod(a, l + 1);
            vstd::arithmetic::div_mod::lemma_mod_bound(a, l + 1);
            assert(q >= 200) by (nonlinear_arith)
                requires
                    a == (l + 1) * q + a % (l + 1),
                    0 <= a % (l + 1) < l + 1,
                    a == ady * 1000,
                    2 * ady >= l,
                    l >= 1,
            ;
            assert(n.1 == if dy >= 0 {
                q
            } else {
                -q
            }) by {
                if dy < 0 {
                    assert(-(dy * SCALE) == ady * SCALE) by (nonlinear_arith)
                        requires
                            ady == -dy,
                    ;
                }
            }
            let b = q * SCALE;
            let q2 = b / l;
            vstd::arithmetic::div_mod::lemma_fundamental_div_mod(b, l);
            vstd::arithmetic::div_mod::lemma_mod_bound(b, l);
            assert(q2 >= 1) by (nonlinear_arith)
                requires
                    b == l * q2 + b % l,
                    0 <= b % l < l,
                    b == q * 1000,
                    q >= 200,
                    1 <= l < 50000,
            ;
            assert(c.1 == if dy >= 0 {
                q2
            } else {
                -q2
            }) by {
                if dy < 0 {
                    assert(-((-q) * SCALE) == q * SCALE) by (nonlinear_arith);
                }
            }
        }
    }
}

/// The sums over a neighbor list stay within `count` times the per-item
/// bounds, and `count` never exceeds the list length.
pub proof fn lemma_sums_bounds(ps: Seq<Vec2>, ks: Seq<Kinematic>, me: int, ids: Seq<usize>)
    requires
        ps.len() == ks.len(),
        0 <= me < ps.len(),
        forall|j: int| 0 <= j < ps.len() ==> (#[trigger] ps[j]).in_range(COORD_LIMIT as int),
        forall|j: int|
            0 <= j < ks.len() ==> (#[trigger] ks[j]).velocity.in_range(VEL_LIMIT as int),
    ensures
        ({
            let s = spec_sums(ps, ks, me, ids);
            &&& 0 <= s.count <= ids.len()
            &&& -(s.count * VEL_LIMIT) <= s.svx <= s.count * VEL_LIMIT
            &&& -(s.count * VEL_LIMIT) <= s.svy <= s.count * VEL_LIMIT
            &&& -(s.count * COORD_LIMIT) <= s.spx <= s.count * COORD_LIMIT
            &&& -(s.count * COORD_LIMIT) <= s.spy <= s.count * COORD_LIMIT
            &&& -(s.count * SEP_BOUND) <= s.ssx <= s.count * SEP_BOUND
            &&& -(s.count * SEP_BOUND) <= s.ssy <= s.count * SEP_BOUND
        }),
    decreases ids.len(),
{
    if ids.len() > 0 {
        lemma_sums_bounds(ps, ks, me, ids.drop_last());
        let id = ids.last() as int;
        if !(id == me || id >= ps.len()) {
            lemma_sep_contrib_bounds(ps[me], ps[id]);
        }
    }
}

/// A pushed sequence contains exactly the old elements and the pushed one.
proof fn lemma_push_contains(s: Seq<usize>, x: usize, e: usize)
    ensures
        s.push(x).contains(e) <==> (s.contains(e) || e == x),
{
    if s.contains(e) {
        let t = choose|t: int| 0 <= t < s.len() && s[t] == e;
        assert(s.push(x)[t] == e);
    }
    if e == x {
        assert(s.push(x)[s.len() as int] == e);
    }
    if s.push(x).contains(e) && e != x {
        let t = choose|t: int| 0 <= t < s.push(x).len() && s.push(x)[t] == e;
        assert(t < s.len() && s[t] == e);
    }
}

/// The whole simulation: dense per-agent state arrays indexed by stable
/// handles, the spatial index over them, and the world bounds.  The host
/// owns agent creation; the flock only reads and writes per-agent state.
pub struct Flock {
    pub positions: Vec<Vec2>,
    pub kinematics: Vec<Kinematic>,
    pub constraints: Vec<KinematicConstraint>,
    pub boids: Vec<Boid>,
    pub hash: SparseSpatialHash,
    pub world: BoidWorld,
}

impl Flock {
    /// The number of agents.
    pub open spec fn spec_len(self) -> int {
        self.positions@.len() as int
    }

    /// Well-formed: the state arrays run in step, the index and world
    /// are sound, and positions and constraints are in range.
    pub open spec fn wf(self) -> bool {
        &&& self.kinematics@.len() == self.positions@.len()
        &&& self.constraints@.len() == self.positions@.len()
        &&& self.boids@.len() == self.positions@.len()
        &&& self.hash.wf()
        &&& self.world.wf()
        &&& forall|i: int|
            0 <= i < self.spec_len() ==> (#[trigger] self.positions@[i]).in_range(
                COORD_LIMIT as int,
            )
        &&& forall|i: int|
            0 <= i < self.spec_len() ==> 0 <= (#[trigger] self.constraints@[i]).max_speed
                <= COORD_LIMIT && 0 <= self.constraints@[i].max_force <= COORD_LIMIT
    }

    /// Velocities and position snapshots are in range.
    pub open spec fn vel_ok(self) -> bool {
        forall|i: int|
            0 <= i < self.kinematics@.len() ==> (#[trigger] self.kinematics@[i]).velocity.in_range(
                VEL_LIMIT as int,
            ) && self.kinematics@[i].last_position.in_range(COORD_LIMIT as int)
    }

    /// Accumulated accelerations are small enough to integrate: adding
    /// them to the velocities stays within the velocity range.
    pub open spec fn acc_ok(self) -> bool {
        forall|i: int|
            0 <= i < self.kinematics@.len() ==> {
                let k = #[trigger] self.kinematics@[i];
                &&& k.acceleration.in_range(VEL_LIMIT as int)
                &&& -VEL_LIMIT <= k.velocity.x + k.acceleration.x <= VEL_LIMIT
                &&& -VEL_LIMIT <= k.velocity.y + k.acceleration.y <= VEL_LIMIT
            }
    }

    /// An empty flock over the given index and world.
    pub fn new(hash: SparseSpatialHash, world: BoidWorld) -> (r: Self)
        requires
            hash.wf(),
            world.wf(),
        ensures
            r.wf(),
            r.spec_len() == 0,
            r.hash == hash,
            r.world == world,
    {
        Flock {
            positions: Vec::new(),
            kinematics: Vec::new(),
            constraints: Vec::new(),
            boids: Vec::new(),
            hash,
            world,
        }
    }

    /// Adds one agent to the state arrays (not yet to the index) and
    /// returns its handle.
    pub fn push_agent(
        &mut self,
        position: Vec2,
        kinematic: Kinematic,
        constraint: KinematicConstraint,
    ) -> (r: usize)
        requires
            old(self).wf(),
            position.in_range(COORD_LIMIT as int),
            0 <= constraint.max_speed <= COORD_LIMIT,
            0 <= constraint.max_force <= COORD_LIMIT,
        ensures
            final(self).wf(),
            r as int == old(self).spec_len(),
            final(self).spec_len() == old(self).spec_len() + 1,
            final(self).positions@ == old(self).positions@.push(position),
            final(self).kinematics@ == old(self).kinematics@.push(kinematic),
            final(self).constraints@ == old(self).constraints@.push(constraint),
            final(self).boids@.len() == old(self).boids@.len() + 1,
            final(self).hash == old(self).hash,
            final(self).world == old(self).world,
    {
        let r = self.positions.len();
        self.positions.push(position);
        self.kinematics.push(kinematic);
        self.constraints.push(constraint);
        self.boids.push(Boid { neighbours: Vec::new() });
        r
    }

    /// The steering force for agent `i` this tick, straight from its
    /// current neighbor list: the sum of the clamped alignment, cohesion
    /// and separation vectors.  Each component is bounded by three times
    /// the agent's `max_force`.
    #[verifier::rlimit(50)]
    pub fn steer_for(&self, i: usize) -> (r: Vec2)
        requires
            self.wf(),
            self.vel_ok(),
            (i as int) < self.spec_len(),
        ensures
            (r.x as int, r.y as int) == spec_steer(
                self.positions@,
                self.kinematics@,
                self.constraints@,
                self.boids@[i as int].neighbours@,
                i as int,
            ),
            r.in_range(3 * self.constraints@[i as int].max_force as int),
    {
        let mp = self.positions[i];
        let kin = self.kinematics[i];
        let con = self.constraints[i];
        let boid = &self.boids[i];
        let n = self.positions.len();
        let ghost ps = self.positions@;
        let ghost ks = self.kinematics@;
        let ghost ids = boid.neighbours@;
        let mut svx: i128 = 0;
        let mut svy: i128 = 0;
        let mut spx: i128 = 0;
        let mut spy: i128 = 0;
        let mut ssx: i128 = 0;
        let mut ssy: i128 = 0;
        let mut count: u64 = 0;
        let mut j: usize = 0;
        proof {
            assert(ids.take(0) =~= Seq::<usize>::empty());
        }
        while j < boid.neighbours.len()
            invariant
                self.wf(),
                self.vel_ok(),
                (i as int) < self.spec_len(),
                ps == self.positions@,
                ks == self.kinematics@,
                ids == boid.neighbours@,
                mp == ps[i as int],
                n == ps.len(),
                0 <= j <= ids.len(),
                ({
                    let s = spec_sums(ps, ks, i as int, ids.take(j as int));
                    &&& svx as int == s.svx
                    &&& svy as int == s.svy
                    &&& spx as int == s.spx
                    &&& spy as int == s.spy
                    &&& ssx as int == s.ssx
                    &&& ssy as int == s.ssy
                    &&& count as int == s.count
                }),
                count <= j,
            decreases ids.len() - j,
        {
            let ghost prefix = ids.take(j as int);
            proof {
                lemma_sums_bounds(ps, ks, i as int, prefix);
            }
            let id = boid.neighbours[j];
            if id != i && id < n {
                let np = self.positions[id];
                let nv = self.kinematics[id].velocity;
                let diff = mp.minus(np);
                let dist = diff.length();
                let mut cx: i64 = 0;
                let mut cy: i64 = 0;
                if dist > 0 && dist < SEPARATION_RADIUS {
                    let nvec = diff.scaled_to(SCALE);
                    proof {
                        assert(-SEP_BOUND <= nvec.x * SCALE <= SEP_BOUND && -SEP_BOUND <= nvec.y
                            * SCALE <= SEP_BOUND) by (nonlinear_arith)
                            requires
                                -SCALE <= nvec.x <= SCALE,
                                -SCALE <= nvec.y <= SCALE,
                                SEP_BOUND == SCALE * SCALE,
                        ;
                    }
                    cx = div_trunc(nvec.x * SCALE, dist);
                    cy = div_trunc(nvec.y * SCALE, dist);
                }
                proof {
                    assert((cx as int, cy as int) == spec_sep_contrib(mp, np));
                }
                svx = svx + (nv.x as i128);
                svy = svy + (nv.y as i128);
                spx = spx + (np.x as i128);
                spy = spy + (np.y as i128);
                ssx = ssx + (cx as i128);
                ssy = ssy + (cy as i128);
                count = count + 1;
            }
            j = j + 1;
            proof {
                assert(ids.take(j as int) =~= prefix.push(ids[j - 1]));
                assert(ids.take(j as int).drop_last() =~= prefix);
            }
        }
        proof {
            assert(ids.take(ids.len() as int) =~= ids);
            lemma_sums_bounds(ps, ks, i as int, ids);
        }
        let ghost s = spec_sums(ps, ks, i as int, ids);
        let mut align = Vec2 { x: 0, y: 0 };
        let mut coh = Vec2 { x: 0, y: 0 };
        if count > 0 {
            let ci = count as i128;
            let avx = div_trunc_wide(svx, ci) as i64;
            let avy = div_trunc_wide(svy, ci) as i64;
            proof {
                crate::vec2::lemma_stdiv_bound(s.svx, s.count, VEL_LIMIT as int);
                crate::vec2::lemma_stdiv_bound(s.svy, s.count, VEL_LIMIT as int);
            }
            if !(avx == 0 && avy == 0) {
                let target = (Vec2 { x: avx, y: avy }).scaled_to(con.max_speed);
                align = target.minus(kin.velocity).clamp_len(con.max_force);
            }
            let apx = div_trunc_wide(spx, ci) as i64;
            let apy = div_trunc_wide(spy, ci) as i64;
            proof {
                crate::vec2::lemma_stdiv_bound(s.spx, s.count, COORD_LIMIT as int);
                crate::vec2::lemma_stdiv_bound(s.spy, s.count, COORD_LIMIT as int);
            }
            let px = apx - mp.x;
            let py = apy - mp.y;
            if !(px == 0 && py == 0) {
                let u = (Vec2 { x: px, y: py }).scaled_to(SCALE);
                let tx = u.x - kin.last_position.x;
                let ty = u.y - kin.last_position.y;
                if !(tx == 0 && ty == 0) {
                    let target = (Vec2 { x: tx, y: ty }).scaled_to(con.max_speed);
                    coh = target.minus(kin.velocity).clamp_len(con.max_force);
                }
            }
        }
        let sx: i64;
        let sy: i64;
        if count > 0 {
            let ci = count as i128;
            proof {
                crate::vec2::lemma_stdiv_bound(s.ssx, s.count, SEP_BOUND as int);
                crate::vec2::lemma_stdiv_bound(s.ssy, s.count, SEP_BOUND as int);
            }
            sx = div_trunc_wide(ssx, ci) as i64;
            sy = div_trunc_wide(ssy, ci) as i64;
        } else {
            sx = ssx as i64;
            sy = ssy as i64;
        }
        let mut sep = Vec2 { x: 0, y: 0 };
        if !(sx == 0 && sy == 0) {
            let target = (Vec2 { x: sx, y: sy }).scaled_to(con.max_speed);
            sep = target.minus(kin.velocity).clamp_len(con.max_force);
        }
        Vec2 { x: align.x + coh.x + sep.x, y: align.y + coh.y + sep.y }
    }

    /// Phase one, the motion integrator: every agent's acceleration is
    /// folded into its velocity, its position advances and wraps at the
    /// world edge, its previous position is snapshotted, and its
    /// acceleration is reset to zero — exactly once per tick, before any
    /// force computer runs.
    pub fn kinematic_simulation(&mut self, dt_ms: i64)
        requires
            old(self).wf(),
            old(self).vel_ok(),
            old(self).acc_ok(),
            0 <= dt_ms <= DT_LIMIT,
        ensures
            final(self).wf(),
            final(self).vel_ok(),
            final(self).spec_len() == old(self).spec_len(),
            final(self).constraints == old(self).constraints,
            final(self).boids == old(self).boids,
            final(self).hash == old(self).hash,
            final(self).world == old(self).world,
            forall|i: int|
                0 <= i < old(self).spec_len() ==> Self::integrated(
                    *old(self),
                    *final(self),
                    dt_ms as int,
                    i,
                ),
    {
        let n = self.positions.len();
        let mut i: usize = 0;
        while i < n
            invariant
                old(self).wf(),
                old(self).vel_ok(),
                old(self).acc_ok(),
                self.wf(),
                self.vel_ok(),
                n == self.positions@.len(),
                0 <= i <= n,
                self.spec_len() == old(self).spec_len(),
                self.constraints == old(self).constraints,
                self.boids == old(self).boids,
                self.hash == old(self).hash,
                self.world == old(self).world,
                0 <= dt_ms <= DT_LIMIT,
                forall|k: int|
                    0 <= k < i ==> Self::integrated(*old(self), *self, dt_ms as int, k),
                forall|k: int|
                    i <= k < n ==> self.positions@[k] == old(self).positions@[k]
                        && self.kinematics@[k] == old(self).kinematics@[k],
            decreases n - i,
        {
            let kin = self.kinematics[i];
            let pos = self.positions[i];
            let ghost pre = *self;
            let stepped = integrate_step(kin, pos, dt_ms, &self.world);
            self.kinematics[i] = stepped.0;
            self.positions[i] = stepped.1;
            proof {
                assert(self.kinematics@[i as int] == stepped.0);
                assert(self.positions@[i as int] == stepped.1);
                assert(Self::integrated(*old(self), *self, dt_ms as int, i as int));
                assert forall|k: int| 0 <= k < i implies Self::integrated(
                    *old(self),
                    *self,
                    dt_ms as int,
                    k,
                ) by {
                    assert(Self::integrated(*old(self), pre, dt_ms as int, k));
                    assert(self.kinematics@[k] == pre.kinematics@[k]);
                    assert(self.positions@[k] == pre.positions@[k]);
                }
            }
            i = i + 1;
        }
    }

    /// How one integration step relates an agent's state before the tick
    /// to its state after it.
    pub open spec fn integrated(f1: Flock, f2: Flock, dt: int, i: int) -> bool {
        let k1 = f1.kinematics@[i];
        let k2 = f2.kinematics@[i];
        let p1 = f1.positions@[i];
        let p2 = f2.positions@[i];
        &&& k2.velocity.x == k1.velocity.x + k1.acceleration.x
        &&& k2.velocity.y == k1.velocity.y + k1.acceleration.y
        &&& k2.acceleration == (Vec2 { x: 0, y: 0 })
        &&& k2.last_position == p1
        &&& p2.x as int == spec_wrap_coord(
            p1.x + stdiv(k2.velocity.x * dt, 1000),
            f1.world.spec_half_width(),
        )
        &&& p2.y as int == spec_wrap_coord(
            p1.y + stdiv(k2.velocity.y * dt, 1000),
            f1.world.spec_half_height(),
        )
    }

    /// Registers every agent into the (so far empty) spatial index under
    /// its current position; afterwards each agent is tracked there.
    pub fn register_boids(&mut self)
        requires
            old(self).wf(),
            forall|e: usize| old(self).hash.untracked(e),
        ensures
            final(self).wf(),
            final(self).positions == old(self).positions,
            final(self).kinematics == old(self).kinematics,
            final(self).constraints == old(self).constraints,
            final(self).boids == old(self).boids,
            final(self).world == old(self).world,
            final(self).hash.cell_size == old(self).hash.cell_size,
            forall|i: int|
                0 <= i < final(self).spec_len() ==> final(self).hash.tracks(
                    i as usize,
                    final(self).positions@[i],
                ),
    {
        let n = self.positions.len();
        let mut i: usize = 0;
        while i < n
            invariant
                self.wf(),
                n == self.positions@.len(),
                0 <= i <= n,
                self.positions == old(self).positions,
                self.kinematics == old(self).kinematics,
                self.constraints == old(self).constraints,
                self.boids == old(self).boids,
                self.world == old(self).world,
                self.hash.cell_size == old(self).hash.cell_size,
                forall|k: int|
                    0 <= k < i ==> self.hash.tracks(k as usize, self.positions@[k]),
                forall|e: usize| (e as int) >= i ==> self.hash.untracked(e),
            decreases n - i,
        {
            let ghost h1 = self.hash;
            let pos = self.positions[i];
            self.hash.insert(i, pos);
            proof {
                crate::spatial::lemma_insert_fresh_tracks(h1, self.hash, i, pos);
                assert forall|k: int| 0 <= k < i implies self.hash.tracks(
                    k as usize,
                    self.positions@[k],
                ) by {
                    crate::spatial::lemma_insert_preserves_tracks(
                        h1,
                        self.hash,
                        i,
                        pos,
                        k as usize,
                        self.positions@[k],
                    );
                }
                assert forall|e: usize| (e as int) >= i + 1 implies self.hash.untracked(e) by {
                    crate::spatial::lemma_insert_preserves_untracked(h1, self.hash, i, pos, e);
                }
            }
            i = i + 1;
        }
    }

    /// Phase two, reindexing: moves every agent's index entry from its
    /// snapshotted previous position to its current one.
    pub fn update_spatial_hash(&mut self)
        requires
            old(self).wf(),
            old(self).vel_ok(),
            forall|i: int|
                0 <= i < old(self).spec_len() ==> old(self).hash.tracks(
                    i as usize,
                    old(self).kinematics@[i].last_position,
                ),
        ensures
            final(self).wf(),
            final(self).positions == old(self).positions,
            final(self).kinematics == old(self).kinematics,
            final(self).constraints == old(self).constraints,
            final(self).boids == old(self).boids,
            final(self).world == old(self).world,
            final(self).hash.cell_size == old(self).hash.cell_size,
            forall|i: int|
                0 <= i < final(self).spec_len() ==> final(self).hash.tracks(
                    i as usize,
                    final(self).positions@[i],
                ),
    {
        let n = self.positions.len();
        let mut i: usize = 0;
        while i < n
            invariant
                self.wf(),
                self.vel_ok(),
                n == self.positions@.len(),
                0 <= i <= n,
                self.positions == old(self).positions,
                self.kinematics == old(self).kinematics,
                self.constraints == old(self).constraints,
                self.boids == old(self).boids,
                self.world == old(self).world,
                self.hash.cell_size == old(self).hash.cell_size,
                forall|k: int|
                    0 <= k < i ==> self.hash.tracks(k as usize, self.positions@[k]),
                forall|k: int|
                    i <= k < n ==> self.hash.tracks(k as usize, self.kinematics@[k].last_position),
            decreases n - i,
        {
            let ghost h1 = self.hash;
            let last = self.kinematics[i].last_position;
            let pos = self.positions[i];
            self.hash.update(i, last, pos);
            proof {
                crate::spatial::lemma_update_tracks(h1, self.hash, i, last, pos);
                assert forall|k: int| 0 <= k < i implies self.hash.tracks(
                    k as usize,
                    self.positions@[k],
                ) by {
                    crate::spatial::lemma_update_preserves_tracks(
                        h1,
                        self.hash,
                        i,
                        last,
                        pos,
                        k as usize,
                        self.positions@[k],
                    );
                }
                assert forall|k: int| i + 1 <= k < n implies self.hash.tracks(
                    k as usize,
                    self.kinematics@[k].last_position,
                ) by {
                    crate::spatial::lemma_update_preserves_tracks(
                        h1,
                        self.hash,
                        i,
                        last,
                        pos,
                        k as usize,
                        self.kinematics@[k].last_position,
                    );
                }
            }
            i = i + 1;
        }
    }

    /// Phase three, neighbor resolution: every agent's neighbor list is
    /// recomputed from scratch as the flattened contents of the 3-by-3
    /// cell block around its position.  The agent's own identifier is not
    /// filtered out here; consumers skip it.
    pub fn boid_get_neighbors(&mut self)
        requires
            old(self).wf(),
        ensures
            final(self).wf(),
            final(self).positions == old(self).positions,
            final(self).kinematics == old(self).kinematics,
            final(self).constraints == old(self).constraints,
            final(self).hash == old(self).hash,
            final(self).world == old(self).world,
            final(self).boids@.len() == old(self).boids@.len(),
            forall|i: int|
                #![trigger final(self).boids@[i]]
                0 <= i < final(self).spec_len() ==> ({
                    let kx = final(self).hash.spec_coord(final(self).positions@[i].x as int);
                    let ky = final(self).hash.spec_coord(final(self).positions@[i].y as int);
                    forall|e: usize|
                        #[trigger] final(self).boids@[i].neighbours@.contains(e) <==> in_block(
                            final(self).hash,
                            kx,
                            ky,
                            e,
                        )
                }),
    {
        broadcast use vstd::seq_lib::group_to_multiset_ensures;

        let n = self.positions.len();
        let mut i: usize = 0;
        while i < n
            invariant
                self.wf(),
                n == self.positions@.len(),
                0 <= i <= n,
                self.positions == old(self).positions,
                self.kinematics == old(self).kinematics,
                self.constraints == old(self).constraints,
                self.hash == old(self).hash,
                self.world == old(self).world,
                self.boids@.len() == old(self).boids@.len(),
                forall|k: int|
                    #![trigger self.boids@[k]]
                    0 <= k < i ==> ({
                        let kx = self.hash.spec_coord(self.positions@[k].x as int);
                        let ky = self.hash.spec_coord(self.positions@[k].y as int);
                        forall|e: usize|
                            #[trigger] self.boids@[k].neighbours@.contains(e) <==> in_block(
                                self.hash,
                                kx,
                                ky,
                                e,
                            )
                    }),
            decreases n - i,
        {
            let pos = self.positions[i];
            let cells = self.hash.get_neighbors(pos);
            let ghost kx = self.hash.spec_coord(pos.x as int);
            let ghost ky = self.hash.spec_coord(pos.y as int);
            let mut ns: Vec<usize> = Vec::new();
            let mut c: usize = 0;
            while c < cells.len()
                invariant
                    0 <= c <= cells@.len(),
                    forall|e: usize|
                        #[trigger] ns@.contains(e) <==> exists|q: int|
                            0 <= q < c && #[trigger] cells@[q]@.contains(e),
                decreases cells@.len() - c,
            {
                let cell = &cells[c];
                let mut k: usize = 0;
                while k < cell.len()
                    invariant
                        0 <= k <= cell@.len(),
                        cell@ == cells@[c as int]@,
                        0 <= c < cells@.len(),
                        forall|e: usize|
                            #[trigger] ns@.contains(e) <==> (exists|q: int|
                                0 <= q < c && #[trigger] cells@[q]@.contains(e)) || cell@.take(
                                k as int,
                            ).contains(e),
                    decreases cell@.len() - k,
                {
                    let ghost prev = ns@;
                    ns.push(cell[k]);
                    k = k + 1;
                    proof {
                        assert(cell@.take(k as int) =~= cell@.take(k - 1).push(cell@[k - 1]));
                        assert(ns@ =~= prev.push(cell@[k - 1]));
                        assert forall|e: usize|
                            #![trigger ns@.contains(e)]
                            ns@.contains(e) <==> ((exists|q: int|
                                0 <= q < c && #[trigger] cells@[q]@.contains(e)) || cell@.take(
                                k as int,
                            ).contains(e)) by {
                            lemma_push_contains(prev, cell@[k - 1], e);
                            lemma_push_contains(cell@.take(k - 1), cell@[k - 1], e);
                        }
                    }
                }
                c = c + 1;
                proof {
                    assert(cell@.take(cell@.len() as int) =~= cell@);
                    assert forall|e: usize| #[trigger] ns@.contains(e) implies exists|q: int|
                        0 <= q < c && #[trigger] cells@[q]@.contains(e) by {
                        if !(exists|q: int| 0 <= q < c - 1 && #[trigger] cells@[q]@.contains(e)) {
                            assert(cells@[c - 1]@.contains(e));
                        }
                    }
                }
            }
            self.boids[i] = Boid { neighbours: ns };
            i = i + 1;
        }
    }

    /// Phase four, the flocking force computer: every agent's clamped
    /// alignment, cohesion and separation steering vectors are summed —
    /// the combining policy chosen here; see `spec_steer` — written into
    /// the shared accumulator, and finally drained once into the agents'
    /// accelerations.
    pub fn boid_flock(&mut self)
        requires
            old(self).wf(),
            old(self).vel_ok(),
            forall|i: int|
                0 <= i < old(self).spec_len() ==> (#[trigger] old(self).kinematics@[i]).acceleration.in_range(
                    VEL_LIMIT as int,
                ),
        ensures
            final(self).wf(),
            final(self).vel_ok(),
            final(self).positions == old(self).positions,
            final(self).constraints == old(self).constraints,
            final(self).boids == old(self).boids,
            final(self).hash == old(self).hash,
            final(self).world == old(self).world,
            final(self).kinematics@.len() == old(self).kinematics@.len(),
            forall|i: int|
                0 <= i < old(self).spec_len() ==> ({
                    let k1 = old(self).kinematics@[i];
                    let k2 = #[trigger] final(self).kinematics@[i];
                    let st = spec_steer(
                        old(self).positions@,
                        old(self).kinematics@,
                        old(self).constraints@,
                        old(self).boids@[i].neighbours@,
                        i,
                    );
                    &&& k2.velocity == k1.velocity
                    &&& k2.last_position == k1.last_position
                    &&& k2.acceleration.x == k1.acceleration.x + st.0
                    &&& k2.acceleration.y == k1.acceleration.y + st.1
                }),
    {
        let n = self.positions.len();
        let mut forces = steer_map_new();
        let mut i: usize = 0;
        while i < n
            invariant
                self.wf(),
                self.vel_ok(),
                *self == *old(self),
                n == self.positions@.len(),
                0 <= i <= n,
                forall|k: usize|
                    (k as int) >= i ==> !steer_contents(forces).dom().contains(k),
                forall|k: usize|
                    (k as int) < i ==> ({
                        let st = spec_steer(
                            self.positions@,
                            self.kinematics@,
                            self.constraints@,
                            self.boids@[k as int].neighbours@,
                            k as int,
                        );
                        &&& (#[trigger] steer_contents(forces).dom().contains(k) <==> st != (
                        0int,
                        0int,
                        ))
                        &&& (steer_contents(forces).dom().contains(k) ==> (
                        steer_contents(forces)[k].0 as int,
                        steer_contents(forces)[k].1 as int,
                        ) == st && steer_contents(forces)[k].0 as int + 3 * COORD_LIMIT >= 0
                            && steer_contents(forces)[k].0 as int <= 3 * COORD_LIMIT
                            && steer_contents(forces)[k].1 as int + 3 * COORD_LIMIT >= 0
                            && steer_contents(forces)[k].1 as int <= 3 * COORD_LIMIT)
                    }),
            decreases n - i,
        {
            let s = self.steer_for(i);
            if !(s.x == 0 && s.y == 0) {
                steer_map_insert(&mut forces, i, (s.x, s.y));
            }
            i = i + 1;
        }
        let mut i: usize = 0;
        while i < n
            invariant
                self.wf(),
                self.vel_ok(),
                n == self.positions@.len(),
                0 <= i <= n,
                self.positions == old(self).positions,
                self.constraints == old(self).constraints,
                self.boids == old(self).boids,
                self.hash == old(self).hash,
                self.world == old(self).world,
                self.kinematics@.len() == old(self).kinematics@.len(),
                forall|k: usize|
                    (k as int) < n ==> ({
                        let st = spec_steer(
                            old(self).positions@,
                            old(self).kinematics@,
                            old(self).constraints@,
                            old(self).boids@[k as int].neighbours@,
                            k as int,
                        );
                        &&& (#[trigger] steer_contents(forces).dom().contains(k) <==> st != (
                        0int,
                        0int,
                        ))
                        &&& (steer_contents(forces).dom().contains(k) ==> (
                        steer_contents(forces)[k].0 as int,
                        steer_contents(forces)[k].1 as int,
                        ) == st && steer_contents(forces)[k].0 as int + 3 * COORD_LIMIT >= 0
                            && steer_contents(forces)[k].0 as int <= 3 * COORD_LIMIT
                            && steer_contents(forces)[k].1 as int + 3 * COORD_LIMIT >= 0
                            && steer_contents(forces)[k].1 as int <= 3 * COORD_LIMIT)
                    }),
                forall|k: int|
                    0 <= k < i ==> ({
                        let k1 = old(self).kinematics@[k];
                        let k2 = #[trigger] self.kinematics@[k];
                        let st = spec_steer(
                            old(self).positions@,
                            old(self).kinematics@,
                            old(self).constraints@,
                            old(self).boids@[k].neighbours@,
                            k,
                        );
                        &&& k2.velocity == k1.velocity
                        &&& k2.last_position == k1.last_position
                        &&& k2.acceleration.x == k1.acceleration.x + st.0
                        &&& k2.acceleration.y == k1.acceleration.y + st.1
                    }),
                forall|k: int|
                    i <= k < n ==> self.kinematics@[k] == old(self).kinematics@[k],
                forall|k: int|
                    0 <= k < n ==> (#[trigger] old(self).kinematics@[k]).acceleration.in_range(
                        VEL_LIMIT as int,
                    ),
            decreases n - i,
        {
            match steer_map_get(&forces, i) {
                Some(v) => {
                    let mut kin = self.kinematics[i];
                    kin.acceleration = Vec2 {
                        x: kin.acceleration.x + v.0,
                        y: kin.acceleration.y + v.1,
                    };
                    self.kinematics[i] = kin;
                },
                None => (),
            }
            i = i + 1;
        }
    }

    /// One full simulation tick: integrate, reindex, resolve neighbors,
    /// compute forces — strictly in that order.  Afterwards every agent
    /// has moved by its integrated velocity and wrapped at the world
    /// edge, sits in the index under its new position, carries the
    /// neighbor list of that position, and holds exactly this tick's
    /// steering force as its acceleration — built on the acceleration
    /// that integration reset to zero.
    pub fn simulate(&mut self, dt_ms: i64)
        requires
            old(self).wf(),
            old(self).vel_ok(),
            old(self).acc_ok(),
            0 <= dt_ms <= DT_LIMIT,
            forall|i: int|
                0 <= i < old(self).spec_len() ==> old(self).hash.tracks(
                    i as usize,
                    old(self).positions@[i],
                ),
        ensures
            final(self).wf(),
            final(self).vel_ok(),
            final(self).spec_len() == old(self).spec_len(),
            final(self).constraints == old(self).constraints,
            final(self).world == old(self).world,
            final(self).hash.cell_size == old(self).hash.cell_size,
            forall|i: int|
                #![trigger final(self).kinematics@[i]]
                0 <= i < old(self).spec_len() ==> ({
                    let k1 = old(self).kinematics@[i];
                    let k2 = final(self).kinematics@[i];
                    let p1 = old(self).positions@[i];
                    let p2 = final(self).positions@[i];
                    &&& k2.velocity.x == k1.velocity.x + k1.acceleration.x
                    &&& k2.velocity.y == k1.velocity.y + k1.acceleration.y
                    &&& k2.last_position == p1
                    &&& p2.x as int == spec_wrap_coord(
                        p1.x + stdiv(k2.velocity.x * dt_ms, 1000),
                        old(self).world.spec_half_width(),
                    )
                    &&& p2.y as int == spec_wrap_coord(
                        p1.y + stdiv(k2.velocity.y * dt_ms, 1000),
                        old(self).world.spec_half_height(),
                    )
                }),
            forall|i: int|
                0 <= i < final(self).spec_len() ==> final(self).hash.tracks(
                    i as usize,
                    final(self).positions@[i],
                ),
            forall|i: int|
                #![trigger final(self).boids@[i]]
                0 <= i < final(self).spec_len() ==> ({
                    let kx = final(self).hash.spec_coord(final(self).positions@[i].x as int);
                    let ky = final(self).hash.spec_coord(final(self).positions@[i].y as int);
                    forall|e: usize|
                        #[trigger] final(self).boids@[i].neighbours@.contains(e) <==> in_block(
                            final(self).hash,
                            kx,
                            ky,
                            e,
                        )
                }),
            forall|i: int|
                #![trigger final(self).kinematics@[i].acceleration]
                0 <= i < final(self).spec_len() ==> ({
                    let st = spec_steer(
                        final(self).positions@,
                        final(self).kinematics@,
                        final(self).constraints@,
                        final(self).boids@[i].neighbours@,
                        i,
                    );
                    &&& final(self).kinematics@[i].acceleration.x == st.0
                    &&& final(self).kinematics@[i].acceleration.y == st.1
                }),
    {
        self.kinematic_simulation(dt_ms);
        let ghost after_int = *self;
        proof {
            assert forall|i: int| 0 <= i < self.spec_len() implies self.hash.tracks(
                i as usize,
                self.kinematics@[i].last_position,
            ) by {
                assert(Self::integrated(*old(self), *self, dt_ms as int, i));
                assert(self.kinematics@[i].last_position == old(self).positions@[i]);
            }
        }
        self.update_spatial_hash();
        self.boid_get_neighbors();
        let ghost mid = *self;
        proof {
            assert(mid.kinematics == after_int.kinematics);
            assert forall|i: int| 0 <= i < mid.spec_len() implies (
            #[trigger] mid.kinematics@[i]).acceleration.in_range(VEL_LIMIT as int) by {
                assert(Self::integrated(*old(self), after_int, dt_ms as int, i));
            }
        }
        self.boid_flock();
        proof {
            assert forall|i: int|
                #![trigger self.kinematics@[i]]
                0 <= i < old(self).spec_len() implies ({
                let k1 = old(self).kinematics@[i];
                let k2 = self.kinematics@[i];
                let p1 = old(self).positions@[i];
                let p2 = self.positions@[i];
                &&& k2.velocity.x == k1.velocity.x + k1.acceleration.x
                &&& k2.velocity.y == k1.velocity.y + k1.acceleration.y
                &&& k2.last_position == p1
                &&& p2.x as int == spec_wrap_coord(
                    p1.x + stdiv(k2.velocity.x * dt_ms, 1000),
                    old(self).world.spec_half_width(),
                )
                &&& p2.y as int == spec_wrap_coord(
                    p1.y + stdiv(k2.velocity.y * dt_ms, 1000),
                    old(self).world.spec_half_height(),
                )
            }) by {
                assert(Self::integrated(*old(self), after_int, dt_ms as int, i));
                assert(self.positions@ == after_int.positions@);
                assert(self.kinematics@[i].velocity == after_int.kinematics@[i].velocity);
                assert(self.kinematics@[i].last_position == after_int.kinematics@[i].last_position);
            }
        }
        proof {
            assert forall|i: int|
                #![trigger self.kinematics@[i].acceleration]
                0 <= i < self.spec_len() implies ({
                let st = spec_steer(
                    self.positions@,
                    self.kinematics@,
                    self.constraints@,
                    self.boids@[i].neighbours@,
                    i,
                );
                self.kinematics@[i].acceleration.x == st.0 && self.kinematics@[i].acceleration.y
                    == st.1
            }) by {
                assert(Self::integrated(*old(self), after_int, dt_ms as int, i));
                lemma_steer_same_motion(
                    self.positions@,
                    mid.kinematics@,
                    self.kinematics@,
                    self.constraints@,
                    self.boids@[i].neighbours@,
                    i,
                );
                assert(mid.kinematics@[i].acceleration == (Vec2 { x: 0, y: 0 }));
            }
        }
    }
}

/// Neighbor sums read only positions and velocities, so any two
/// kinematic sequences with equal velocities sum alike.
proof fn lemma_sums_same_velocities(
    ps: Seq<Vec2>,
    ks1: Seq<Kinematic>,
    ks2: Seq<Kinematic>,
    me: int,
    ids: Seq<usize>,
)
    requires
        ks1.len() == ks2.len(),
        ps.len() == ks1.len(),
        forall|j: int| 0 <= j < ks1.len() ==> ks1[j].velocity == (#[trigger] ks2[j]).velocity,
    ensures
        spec_sums(ps, ks1, me, ids) == spec_sums(ps, ks2, me, ids),
    decreases ids.len(),
{
    if ids.len() > 0 {
        lemma_sums_same_velocities(ps, ks1, ks2, me, ids.drop_last());
    }
}

/// Steering reads only positions, velocities and position snapshots, so
/// it is unchanged by anything that only rewrites accelerations.
proof fn lemma_steer_same_motion(
    ps: Seq<Vec2>,
    ks1: Seq<Kinematic>,
    ks2: Seq<Kinematic>,
    cs: Seq<KinematicConstraint>,
    ids: Seq<usize>,
    me: int,
)
    requires
        ks1.len() == ks2.len(),
        ps.len() == ks1.len(),
        0 <= me < ks1.len(),
        forall|j: int|
            0 <= j < ks1.len() ==> ks1[j].velocity == (#[trigger] ks2[j]).velocity
                && ks1[j].last_position == ks2[j].last_position,
    ensures
        spec_steer(ps, ks1, cs, ids, me) == spec_steer(ps, ks2, cs, ids, me),
{
    lemma_sums_same_velocities(ps, ks1, ks2, me, ids);
}

} // verus!
