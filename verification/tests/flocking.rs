use boids::flock::Flock;
use boids::kinematics::{Kinematic, KinematicConstraint};
use boids::spatial::SparseSpatialHash;
use boids::vec2::Vec2;
use boids::world::BoidWorld;
use rand::Rng;
use rand_distr::{Distribution, UnitCircle};

fn v(x: i64, y: i64) -> Vec2 {
    Vec2 { x, y }
}

fn baseline_constraint() -> KinematicConstraint {
    // 200 units per second, force 2.5 units, in subunits.
    KinematicConstraint { max_speed: 200_000, max_force: 2_500 }
}

fn pair_at(ax: i64, bx: i64) -> Flock {
    let hash = SparseSpatialHash::new(35_000);
    let world = BoidWorld { width: 100_000_000, height: 100_000_000 };
    let mut f = Flock::new(hash, world);
    f.push_agent(v(ax, 0), Kinematic::new(v(0, 0)), baseline_constraint());
    f.push_agent(v(bx, 0), Kinematic::new(v(0, 0)), baseline_constraint());
    f.register_boids();
    f.boid_get_neighbors();
    f
}

#[test]
fn two_boids_share_cell_and_see_each_other() {
    // Agents at 0 and 10 world units, cell size 35: the same cell.
    let f = pair_at(0, 10_000);
    assert_eq!(f.hash.get_index(v(0, 0)), f.hash.get_index(v(10_000, 0)));
    // Mutual neighbor sets, self included.
    assert!(f.boids[0].neighbours.contains(&0) && f.boids[0].neighbours.contains(&1));
    assert!(f.boids[1].neighbours.contains(&0) && f.boids[1].neighbours.contains(&1));
    // Separation pushes the agents apart: agent 0 away from +x, agent 1
    // away from -x.  Cohesion pulls each toward the midpoint with the
    // same clamped magnitude, so the summed steering cancels exactly.
    let s0 = f.steer_for(0);
    let s1 = f.steer_for(1);
    assert_eq!(s0.y, 0);
    assert_eq!(s1.y, 0);
    assert_eq!(s0.x, -s1.x);
}

#[test]
fn separation_zero_at_exact_radius() {
    // Exactly 50 world units apart: no separation, cohesion remains.
    let at_radius = pair_at(0, 50_000);
    let s = at_radius.steer_for(0);
    assert!(s.x > 0);
    assert_eq!(s.y, 0);
}

#[test]
fn separation_repels_inside_radius() {
    // Just inside the radius a repulsive term appears, pushing agent 0
    // toward -x; the steering drops below the pure-cohesion value.
    let at_radius = pair_at(0, 50_000);
    let inside = pair_at(0, 49_999);
    let s_at = at_radius.steer_for(0);
    let s_in = inside.steer_for(0);
    assert!(s_in.x < s_at.x);
}

#[test]
fn flock_applies_forces_to_acceleration() {
    let mut f = pair_at(0, 50_000);
    let expected = f.steer_for(0);
    assert!(expected.x != 0);
    assert_eq!(f.kinematics[0].acceleration, v(0, 0));
    f.boid_flock();
    assert_eq!(f.kinematics[0].acceleration, expected);
}

#[test]
fn simulate_runs_full_tick() {
    let mut f = pair_at(0, 10_000);
    f.boid_flock();
    let acc0 = f.kinematics[0].acceleration;
    f.simulate(16);
    // Velocity absorbed the prior acceleration; the snapshot was taken.
    assert_eq!(f.kinematics[0].velocity, acc0);
    assert_eq!(f.kinematics[0].last_position, v(0, 0));
    // The index follows the agents: both still in the origin cell.
    let cell = f.hash.get_cell(f.hash.get_index(v(0, 0))).unwrap();
    assert!(cell.contains(&0) && cell.contains(&1));
}

#[test]
fn scale_tick_resets_accelerations() {
    // 20000 agents spread over a disk of radius up to 10000 world units.
    let mut rng = rand::thread_rng();
    let hash = SparseSpatialHash::new(35_000);
    let world = BoidWorld { width: 100_000_000, height: 100_000_000 };
    let mut f = Flock::new(hash, world);
    for _ in 0..20_000 {
        let point: [f32; 2] = UnitCircle.sample(&mut rng);
        let radius: f32 = rng.gen_range(-10_000.0..10_000.0);
        let px = (point[0] * radius * 1_000.0) as i64;
        let py = (point[1] * radius * 1_000.0) as i64;
        let vx = (rng.gen_range(-200.0f32..200.0) * 1_000.0) as i64;
        let vy = (rng.gen_range(-200.0f32..200.0) * 1_000.0) as i64;
        f.push_agent(v(px, py), Kinematic::new(v(vx, vy)), baseline_constraint());
    }
    f.register_boids();
    // Give every agent a pending acceleration, then run the phases of
    // one tick in order.
    f.boid_get_neighbors();
    f.boid_flock();
    f.kinematic_simulation(16);
    // Every acceleration is reset before any force computation runs.
    for k in &f.kinematics {
        assert_eq!(k.acceleration, v(0, 0));
    }
    f.update_spatial_hash();
    f.boid_get_neighbors();
    f.boid_flock();
}
