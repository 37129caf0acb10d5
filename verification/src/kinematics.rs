//! Per-agent kinematic state, its constraints, and the motion
//! integrator: Euler integration of velocity and acceleration followed by
//! toroidal wrap-around at the world edges.

use vstd::prelude::*;
use crate::vec2::{stdiv, div_trunc, Vec2, COORD_LIMIT};
use crate::world::BoidWorld;

verus! {

/// Largest velocity or acceleration component magnitude the integrator
/// accepts, in subunits per second.
pub const VEL_LIMIT: i64 = 1_000_000_000;

/// Longest tick the integrator accepts, in milliseconds.
pub const DT_LIMIT: i64 = 1_000_000;

/// Per-agent kinematic state: velocity, the acceleration accumulated for
/// this tick, and the position snapshot taken before the last move.
#[derive(Clone, Copy, PartialEq, Eq, Structural, Debug)]
pub struct Kinematic {
    pub velocity: Vec2,
    pub acceleration: Vec2,
    pub last_position: Vec2,
}

impl Kinematic {
    /// A fresh state with the given velocity and everything else zero.
    pub fn new(velocity: Vec2) -> (r: Self)
        ensures
            r.velocity == velocity,
            r.acceleration == (Vec2 { x: 0, y: 0 }),
            r.last_position == (Vec2 { x: 0, y: 0 }),
    {
        Kinematic {
            velocity,
            acceleration: Vec2 { x: 0, y: 0 },
            last_position: Vec2 { x: 0, y: 0 },
        }
    }
}

/// Immutable per-agent steering bounds, in subunits per second (speed)
/// and subunits per second per tick (force).
#[derive(Clone, Copy, PartialEq, Eq, Structural, Debug)]
pub struct KinematicConstraint {
    pub max_speed: i64,
    pub max_force: i64,
}

/// An agent's transient neighbor list, fully recomputed every tick.
#[derive(Clone, Debug)]
pub struct Boid {
    pub neighbours: Vec<usize>,
}

impl Default for Boid {
    /// A boid with no neighbors recorded yet.
    fn default() -> (r: Self)
        ensures
            r.neighbours@ == Seq::<usize>::empty(),
    {
        Boid { neighbours: Vec::new() }
    }
}

/// A coordinate after toroidal wrap-around: past `half` on either side
/// it is teleported to the opposite edge; exactly at the edge it stays.
pub open spec fn spec_wrap_coord(x: int, half: int) -> int {
    if x > half {
        -half
    } else if x < -half {
        half
    } else {
        x
    }
}

/// Wrap-around boundary: a coordinate one past half the extent is
/// relocated to the opposite edge; one exactly at half the extent is
/// not relocated.
pub proof fn lemma_wrap_boundary(half: int)
    requires
        half >= 0,
    ensures
        spec_wrap_coord(half + 1, half) == -half,
        spec_wrap_coord(half, half) == half,
        spec_wrap_coord(-half, half) == -half,
        spec_wrap_coord(-half - 1, half) == half,
{
}

/// One integration step for one agent: snapshot the position, add the
/// accumulated acceleration to the velocity, advance the position by
/// `velocity * dt`, clear the acceleration, and wrap at the world edge.
/// The agent's heading is the direction of the returned velocity; the
/// host derives it when it needs an angle.
pub fn integrate_step(kin: Kinematic, pos: Vec2, dt_ms: i64, world: &BoidWorld) -> (r: (
    Kinematic,
    Vec2,
))
    requires
        world.wf(),
        pos.in_range(COORD_LIMIT as int),
        kin.velocity.in_range(VEL_LIMIT as int),
        kin.acceleration.in_range(VEL_LIMIT as int),
        -VEL_LIMIT <= kin.velocity.x + kin.acceleration.x <= VEL_LIMIT,
        -VEL_LIMIT <= kin.velocity.y + kin.acceleration.y <= VEL_LIMIT,
        0 <= dt_ms <= DT_LIMIT,
    ensures
        r.0.velocity.x == kin.velocity.x + kin.acceleration.x,
        r.0.velocity.y == kin.velocity.y + kin.acceleration.y,
        r.0.acceleration == (Vec2 { x: 0, y: 0 }),
        r.0.last_position == pos,
        r.1.x as int == spec_wrap_coord(
            pos.x + stdiv(r.0.velocity.x * dt_ms, 1000),
            world.spec_half_width(),
        ),
        r.1.y as int == spec_wrap_coord(
            pos.y + stdiv(r.0.velocity.y * dt_ms, 1000),
            world.spec_half_height(),
        ),
        -world.spec_half_width() <= r.1.x as int <= world.spec_half_width(),
        -world.spec_half_height() <= r.1.y as int <= world.spec_half_height(),
        r.1.in_range(COORD_LIMIT as int),
{
    let vx = kin.velocity.x + kin.acceleration.x;
    let vy = kin.velocity.y + kin.acceleration.y;
    let hw = world.half_width();
    let hh = world.half_height();
    proof {
        assert(-(VEL_LIMIT * DT_LIMIT) <= vx * dt_ms <= VEL_LIMIT * DT_LIMIT && -(VEL_LIMIT
            * DT_LIMIT) <= vy * dt_ms <= VEL_LIMIT * DT_LIMIT) by (nonlinear_arith)
            requires
                -VEL_LIMIT <= vx <= VEL_LIMIT,
                -VEL_LIMIT <= vy <= VEL_LIMIT,
                0 <= dt_ms <= DT_LIMIT,
        ;
    }
    let raw_x = pos.x + div_trunc(vx * dt_ms, 1000);
    let raw_y = pos.y + div_trunc(vy * dt_ms, 1000);
    let px = if raw_x > hw {
        -hw
    } else if raw_x < -hw {
        hw
    } else {
        raw_x
    };
    let py = if raw_y > hh {
        -hh
    } else if raw_y < -hh {
        hh
    } else {
        raw_y
    };
    (
        Kinematic {
            velocity: Vec2 { x: vx, y: vy },
            acceleration: Vec2 { x: 0, y: 0 },
            last_position: pos,
        },
        Vec2 { x: px, y: py },
    )
}

} // verus!
