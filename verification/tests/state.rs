use orbit_collisions::simulation::{take_id, Object, ObjectKind, Reentry, SimulationState};

/// A catalog whose objects carry a mass in kilograms as their only state, and
/// whose re-entries are stamped with whole seconds.
type Catalog = SimulationState<u64, u64>;

fn sample_object(id: u64) -> Object<u64> {
    Object::new(id, ObjectKind::Intact, 100)
}

fn object_with_mass(id: u64, mass: u64) -> Object<u64> {
    Object::new(id, ObjectKind::Intact, mass)
}

fn ids(state: &Catalog) -> Vec<u64> {
    state.iter().map(|o| o.id).collect()
}

fn total_mass(state: &Catalog) -> u64 {
    state.iter().map(|o| o.body).sum()
}

#[test]
fn new_state_is_empty() {
    let state = Catalog::new();
    assert!(state.is_empty());
    assert_eq!(state.len(), 0);
}

#[test]
fn from_objects_collects() {
    let state = Catalog::from_objects(vec![sample_object(1), sample_object(2)]);
    assert_eq!(state.len(), 2);
}

#[test]
fn push_adds_object() {
    let mut state = Catalog::new();
    state.push(sample_object(1));
    assert_eq!(state.len(), 1);
    assert!(!state.is_empty());
}

#[test]
fn ids_continue_past_objects_supplied_to_from_objects() {
    let state = Catalog::from_objects(vec![sample_object(4), sample_object(9)]);
    assert_eq!(state.next_id(), 10);
}

#[test]
fn ids_continue_past_pushed_objects() {
    let mut state = Catalog::new();
    assert_eq!(state.next_id(), 0);
    state.push(sample_object(41));
    assert_eq!(state.next_id(), 42);
}

#[test]
fn a_lower_id_never_rewinds_the_counter() {
    // Reserving with assignment rather than `max` would drop the counter back
    // to 6 here, and the next fragment created would be issued an id object 41
    // already holds.
    let mut state = Catalog::new();
    state.push(sample_object(41));
    state.push(sample_object(5));
    assert_eq!(state.next_id(), 42);
}

#[test]
fn the_next_id_is_never_one_already_in_the_catalog() {
    let state = Catalog::from_objects(vec![sample_object(7), sample_object(3)]);
    let fresh = state.next_id();
    assert!(
        state.iter().all(|o| o.id != fresh),
        "id {fresh} would collide with an existing object"
    );
}

#[test]
fn reserving_past_the_maximum_id_does_not_overflow() {
    let mut state = Catalog::new();
    state.push(sample_object(u64::MAX));
    assert_ne!(state.next_id(), 0, "the counter must not wrap");
}

#[test]
fn spawning_continues_the_catalogs_ids() {
    // Spawning into a catalog that already holds objects must carry on from
    // its counter, not restart, or the new objects would shadow the old.
    let mut state = Catalog::from_objects(vec![sample_object(7)]);
    state.spawn(vec![10, 20, 30, 40]);

    assert_eq!(ids(&state), vec![7, 8, 9, 10, 11]);
    assert_eq!(state.next_id(), 12);
    assert!(state.iter().all(|o| o.kind == ObjectKind::Intact));
    assert_eq!(state.iter().nth(4).unwrap().body, 40);
}

#[test]
fn breakup_replaces_its_parents_with_numbered_fragments() {
    let mut state = Catalog::from_objects(vec![
        object_with_mass(1, 800),
        object_with_mass(2, 400),
        object_with_mass(3, 50),
    ]);
    let mass_before = total_mass(&state);
    let created = state.replace_with_fragments(&[1, 2], vec![700, 300, 200]);

    assert_eq!(created, 3);
    assert_eq!(ids(&state), vec![3, 4, 5, 6]);
    assert_eq!(state.next_id(), 7);
    assert_eq!(state.iter().next().unwrap().kind, ObjectKind::Intact);
    assert!(state.iter().skip(1).all(|o| o.kind == ObjectKind::Fragment));
    assert_eq!(total_mass(&state), mass_before);
}

#[test]
fn fragment_ids_never_reuse_a_retired_parent_id() {
    let mut state = Catalog::from_objects(vec![sample_object(1), sample_object(2)]);
    state.replace_with_fragments(&[1, 2], vec![60, 60, 80]);
    let ids = ids(&state);
    assert!(ids.iter().all(|&id| id >= 3), "reused a retired parent id");
    let mut unique = ids.clone();
    unique.sort_unstable();
    unique.dedup();
    assert_eq!(unique.len(), ids.len(), "duplicate fragment ids");
    assert_eq!(state.next_id(), ids.iter().max().unwrap() + 1);
}

#[test]
fn a_breakup_without_fragments_leaves_the_counter_alone() {
    let mut state = Catalog::from_objects(vec![sample_object(1), sample_object(2)]);
    let before = state.next_id();
    assert_eq!(state.replace_with_fragments(&[], vec![]), 0);
    assert_eq!(ids(&state), vec![1, 2]);
    assert_eq!(state.next_id(), before);
}

#[test]
fn parents_are_looked_up_by_id_in_the_order_asked() {
    let state = Catalog::from_objects(vec![
        object_with_mass(5, 10),
        object_with_mass(9, 20),
        object_with_mass(5, 30),
    ]);
    let found = state.objects_with_ids(&[9, 5]);
    assert_eq!(found.len(), 2);
    assert_eq!(found[0].body, 20);
    // Two objects carry id 5: the later one is the one found.
    assert_eq!(found[1].body, 30);
}

#[test]
fn flagged_objects_are_removed_and_logged_in_catalog_order() {
    let mut state = Catalog::from_objects(vec![
        object_with_mass(1, 10),
        object_with_mass(2, 20),
        object_with_mass(3, 30),
    ]);
    let swept = state.remove_reentered_objects(&[true, false, true], 30);

    assert_eq!(ids(&state), vec![2]);
    assert_eq!(
        swept,
        vec![
            Reentry { object: object_with_mass(1, 10), elapsed_seconds: 30 },
            Reentry { object: object_with_mass(3, 30), elapsed_seconds: 30 },
        ]
    );
    assert_eq!(state.reentries(), &swept[..]);
    assert_eq!(state.next_id(), 4);
}

#[test]
fn an_unflagged_object_survives_the_sweep() {
    let mut state = Catalog::from_objects(vec![sample_object(1)]);
    let swept = state.remove_reentered_objects(&[false], 30);
    assert_eq!(state.len(), 1, "an object still in orbit was removed");
    assert!(swept.is_empty());
    assert!(state.reentries().is_empty());
}

#[test]
fn mass_leaving_the_catalog_is_preserved_in_the_reentry_log() {
    let mut state = Catalog::from_objects(vec![object_with_mass(1, 500), object_with_mass(2, 700)]);
    let mass_before = total_mass(&state);
    state.remove_reentered_objects(&[true, false], 1);
    let reentered: u64 = state.reentries().iter().map(|r| r.object.body).sum();
    assert_eq!(total_mass(&state) + reentered, mass_before);
}

#[test]
fn the_log_keeps_each_sweeps_stamp() {
    let mut state = Catalog::from_objects(vec![sample_object(1), sample_object(2)]);
    state.remove_reentered_objects(&[false, true], 30);
    state.remove_reentered_objects(&[true], 60);
    let log: Vec<(u64, u64)> = state
        .reentries()
        .iter()
        .map(|r| (r.object.id, r.elapsed_seconds))
        .collect();
    assert_eq!(log, vec![(2, 30), (1, 60)]);
    assert!(state.is_empty());
}

#[test]
fn set_body_keeps_id_and_kind() {
    let mut state = Catalog::from_objects(vec![sample_object(3)]);
    state.set_body(0, 999);
    assert_eq!(*state.iter().next().unwrap(), Object::new(3, ObjectKind::Intact, 999));
    assert_eq!(state.next_id(), 4);
}

#[test]
fn ids_are_taken_one_after_another() {
    let mut counter = 100;
    let first = take_id(&mut counter);
    let second = take_id(&mut counter);
    assert_eq!((first, second), (100, 101));
    assert_eq!(counter, 102);
}
