use orbit_collisions::simulation::clamp_fragment_count;

#[test]
fn count_is_clamped_to_bounds() {
    // The default bounds of the breakup model are 2 and 1000 fragments; a
    // zero-energy impact asks for none, an absurd one for more than usize holds.
    assert_eq!(clamp_fragment_count(0, 2, 1000), 2);
    assert_eq!(clamp_fragment_count(usize::MAX, 2, 1000), 1000);
}

#[test]
fn a_count_within_bounds_is_kept() {
    assert_eq!(clamp_fragment_count(33, 2, 1000), 33);
    assert_eq!(clamp_fragment_count(2, 2, 1000), 2);
    assert_eq!(clamp_fragment_count(1000, 2, 1000), 1000);
    assert_eq!(clamp_fragment_count(7, 5, 5), 5);
}
