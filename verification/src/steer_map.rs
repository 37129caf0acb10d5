//! The concurrency-safe steering accumulator.  Worker threads computing
//! flocking forces write per-agent steering vectors into a shared map;
//! after a full join, a sequential drain applies them to accelerations.
//! The map is `dashmap::DashMap`, trusted through the wrappers below.

use vstd::prelude::*;

verus! {

/// A steering vector as stored in the accumulator: x and y components
/// in subunits per second.
pub type SteerVec = (i64, i64);

#[verifier::external_type_specification]
#[verifier::external_body]
#[verifier::reject_recursive_types(K)]
#[verifier::reject_recursive_types(V)]
#[verifier::reject_recursive_types(S)]
pub struct ExDashMap<K, V, S>(dashmap::DashMap<K, V, S>);

/// The key-value pairs a steering accumulator holds, as a mathematical
/// map.
pub uninterp spec fn steer_contents(m: dashmap::DashMap<usize, SteerVec>) -> Map<usize, SteerVec>;

/// Relies on dashmap::DashMap::new: creates an empty map.
#[verifier::external_body]
pub fn steer_map_new() -> (r: dashmap::DashMap<usize, SteerVec>)
    ensures
        forall|k: usize| !steer_contents(r).dom().contains(k),
{
    dashmap::DashMap::new()
}

/// Relies on dashmap::DashMap::insert: maps `k` to `v`, replacing any
/// value previously stored under `k`.
#[verifier::external_body]
pub fn steer_map_insert(m: &mut dashmap::DashMap<usize, SteerVec>, k: usize, v: SteerVec)
    ensures
        steer_contents(*final(m)) == steer_contents(*old(m)).insert(k, v),
{
    m.insert(k, v);
}

/// Relies on dashmap::DashMap::get: returns the value stored under `k`,
/// if any.
#[verifier::external_body]
pub fn steer_map_get(m: &dashmap::DashMap<usize, SteerVec>, k: usize) -> (r: Option<SteerVec>)
    ensures
        r == if steer_contents(*m).dom().contains(k) {
            Some(steer_contents(*m)[k])
        } else {
            None::<SteerVec>
        },
{
    m.get(&k).map(|entry| *entry)
}

} // verus!
