use boids::kinematics::{integrate_step, Kinematic};
use boids::vec2::Vec2;
use boids::world::BoidWorld;

fn world_100k() -> BoidWorld {
    // 100000 x 100000 world units, in subunits.
    BoidWorld { width: 100_000_000, height: 100_000_000 }
}

#[test]
fn integrate_wraps_past_half_width() {
    let w = world_100k();
    // One world unit past the half extent: teleported to the opposite edge.
    let kin = Kinematic::new(Vec2 { x: 0, y: 0 });
    let (_, p) = integrate_step(kin, Vec2 { x: 50_001_000, y: 0 }, 0, &w);
    assert_eq!(p, Vec2 { x: -50_000_000, y: 0 });
    let (_, p2) = integrate_step(kin, Vec2 { x: 0, y: -50_000_001 }, 0, &w);
    assert_eq!(p2, Vec2 { x: 0, y: 50_000_000 });
}

#[test]
fn integrate_keeps_edge_position() {
    let w = world_100k();
    // Exactly at the half extent: not relocated.
    let kin = Kinematic::new(Vec2 { x: 0, y: 0 });
    let (_, p) = integrate_step(kin, Vec2 { x: 50_000_000, y: 0 }, 0, &w);
    assert_eq!(p, Vec2 { x: 50_000_000, y: 0 });
    let (_, p2) = integrate_step(kin, Vec2 { x: -50_000_000, y: 0 }, 0, &w);
    assert_eq!(p2, Vec2 { x: -50_000_000, y: 0 });
}

#[test]
fn integrate_resets_acceleration() {
    let w = world_100k();
    let kin = Kinematic {
        velocity: Vec2 { x: 1_000, y: 0 },
        acceleration: Vec2 { x: 500, y: -500 },
        last_position: Vec2 { x: 0, y: 0 },
    };
    let (k2, _) = integrate_step(kin, Vec2 { x: 7_000, y: 8_000 }, 16, &w);
    assert_eq!(k2.acceleration, Vec2 { x: 0, y: 0 });
    assert_eq!(k2.velocity, Vec2 { x: 1_500, y: -500 });
    assert_eq!(k2.last_position, Vec2 { x: 7_000, y: 8_000 });
}

#[test]
fn integrate_moves_by_velocity() {
    let w = world_100k();
    // 2000 subunits per second for half a second moves 1000 subunits.
    let kin = Kinematic::new(Vec2 { x: 2_000, y: -2_000 });
    let (_, p) = integrate_step(kin, Vec2 { x: 0, y: 0 }, 500, &w);
    assert_eq!(p, Vec2 { x: 1_000, y: -1_000 });
}

#[test]
fn kinematic_new_zeroes() {
    let k = Kinematic::new(Vec2 { x: 3, y: 4 });
    assert_eq!(k.velocity, Vec2 { x: 3, y: 4 });
    assert_eq!(k.acceleration, Vec2 { x: 0, y: 0 });
    assert_eq!(k.last_position, Vec2 { x: 0, y: 0 });
}

#[test]
fn world_default_extent() {
    let w = BoidWorld::default();
    assert_eq!(w.width, 1_000_000);
    assert_eq!(w.height, 1_000_000);
}
