//! Verified core of a large-scale 2-D flocking ("boid") simulation.
//!
//! Agents live on a wrap-around torus, are indexed by a sparse uniform
//! spatial hash, and steer each tick by alignment, cohesion and separation
//! rules.  All coordinates, velocities and forces are fixed-point integers
//! counting milliunits (one thousandth of a world unit), so the whole
//! pipeline — spatial index, neighbor resolution, force computation and
//! integration — is plain integer arithmetic and is verified end to end.
//!
//! The host environment (rendering, input, spawning) lives outside this
//! crate; it owns the agents and calls [`flock::Flock::simulate`] once per
//! tick.

pub mod flock;
pub mod kinematics;
pub mod spatial;
pub mod steer_map;
pub mod vec2;
pub mod world;
