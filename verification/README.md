# orbit_collisions

The bookkeeping core of an orbital-debris (Kessler cascade) simulation,
written in Verus and proved against its contracts.

- `src/simulation/cluster.rs` — groups one step's collisions into pileups:
  connected components over shared objects, discovered in slice order, each
  naming its objects in ascending order and seeded by its earliest collision.
- `src/simulation/state.rs` — the catalog: objects with their ids and kinds,
  the id counter that keeps spawned objects and fragments from reusing an id,
  breakups that replace parents with numbered fragments, and the reentry sweep
  with its log.
- `src/simulation/object.rs` — object kinds, catalog entries and id issuing.
- `src/simulation/fragment.rs` — the bounds on a breakup's fragment count.

The catalog is generic over each object's physical state and over the clock's
time stamps, which it carries without reading. The physics — orbital elements,
two-body propagation, closest-approach geometry, the breakup model and random
spawning — is floating point and lives in `app/`, which drives the library one
step at a time.
