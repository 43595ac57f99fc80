use orbit_collisions::simulation::{group_collisions_into_clusters, Cluster, Collision};

/// A collision between `id_a` and `id_b` at step fraction `fraction`.
fn encounter(id_a: u64, id_b: u64, fraction: f64) -> Collision {
    Collision {
        id_a,
        id_b,
        fraction_key: fraction.to_bits(),
    }
}

#[test]
fn no_collisions_yield_no_clusters() {
    assert!(group_collisions_into_clusters(&[]).is_empty());
}

#[test]
fn disjoint_collisions_stay_separate() {
    let clusters = group_collisions_into_clusters(&[encounter(1, 2, 0.5), encounter(3, 4, 0.5)]);
    assert_eq!(clusters.len(), 2);
    assert_eq!(clusters[0].parent_ids, vec![1, 2]);
    assert_eq!(clusters[1].parent_ids, vec![3, 4]);
}

#[test]
fn collisions_sharing_an_object_merge_into_one_cluster() {
    // Object 2 is hit by both 1 and 3 in the same step; all three break up
    // together rather than 2 being destroyed twice.
    let clusters = group_collisions_into_clusters(&[encounter(1, 2, 0.5), encounter(2, 3, 0.7)]);
    assert_eq!(clusters.len(), 1);
    assert_eq!(clusters[0].parent_ids, vec![1, 2, 3]);
}

#[test]
fn a_chain_of_shared_objects_merges_transitively() {
    // 1-2, 2-3, 3-4: no collision names both 1 and 4, but they are still one
    // connected pileup.
    let clusters = group_collisions_into_clusters(&[
        encounter(1, 2, 0.5),
        encounter(2, 3, 0.5),
        encounter(3, 4, 0.5),
    ]);
    assert_eq!(clusters.len(), 1);
    assert_eq!(clusters[0].parent_ids, vec![1, 2, 3, 4]);
}

#[test]
fn the_seed_is_the_earliest_encounter_not_the_first_listed() {
    // The later-listed encounter happens earlier in the step, so it is the
    // one that anchors the breakup.
    let collisions = [encounter(1, 2, 0.9), encounter(2, 3, 0.2)];
    let clusters = group_collisions_into_clusters(&collisions);
    assert_eq!(clusters.len(), 1);
    assert_eq!(collisions[clusters[0].seed].fraction_key, 0.2f64.to_bits());
    assert_eq!(clusters[0].seed, 1);
}

#[test]
fn every_collided_object_lands_in_exactly_one_cluster() {
    let collisions = [
        encounter(10, 11, 0.4),
        encounter(20, 21, 0.6),
        encounter(11, 12, 0.3),
    ];
    let clusters = group_collisions_into_clusters(&collisions);

    let mut seen: Vec<u64> = clusters
        .iter()
        .flat_map(|c| c.parent_ids.iter().copied())
        .collect();
    let total = seen.len();
    seen.sort_unstable();
    seen.dedup();
    assert_eq!(seen.len(), total, "an object appeared in two clusters");
    assert_eq!(seen, vec![10, 11, 12, 20, 21]);
}

#[test]
fn cluster_order_is_stable_across_runs() {
    // Fragment generation draws from the rng cluster by cluster, so an
    // unstable order here would make seeded runs irreproducible.
    let collisions = [
        encounter(7, 8, 0.4),
        encounter(1, 2, 0.6),
        encounter(8, 9, 0.1),
        encounter(3, 4, 0.2),
    ];
    let first = group_collisions_into_clusters(&collisions);
    for _ in 0..20 {
        assert_eq!(group_collisions_into_clusters(&collisions), first);
    }
}

#[test]
fn clusters_come_out_in_the_order_of_their_first_collision() {
    let collisions = [
        encounter(7, 8, 0.4),
        encounter(1, 2, 0.6),
        encounter(8, 9, 0.1),
        encounter(3, 4, 0.2),
    ];
    let clusters = group_collisions_into_clusters(&collisions);
    assert_eq!(
        clusters,
        vec![
            Cluster {
                parent_ids: vec![7, 8, 9],
                seed: 2
            },
            Cluster {
                parent_ids: vec![1, 2],
                seed: 1
            },
            Cluster {
                parent_ids: vec![3, 4],
                seed: 3
            },
        ]
    );
}

#[test]
fn a_pileup_of_three_mutual_hits_is_one_cluster() {
    // Three mutually overlapping objects produce three pairwise collisions.
    let collisions = [
        encounter(1, 2, 0.3),
        encounter(1, 3, 0.2),
        encounter(2, 3, 0.25),
    ];
    let clusters = group_collisions_into_clusters(&collisions);
    assert_eq!(clusters.len(), 1);
    assert_eq!(clusters[0].parent_ids, vec![1, 2, 3]);
    assert_eq!(clusters[0].seed, 1);
}

#[test]
fn a_chain_listed_backwards_still_merges_and_sorts_its_ids() {
    // The link between the first two collisions only appears through the
    // last one.
    let collisions = [
        encounter(50, 40, 0.5),
        encounter(10, 20, 0.5),
        encounter(20, 40, 0.7),
        encounter(60, 70, 0.1),
    ];
    let clusters = group_collisions_into_clusters(&collisions);
    assert_eq!(clusters.len(), 2);
    assert_eq!(clusters[0].parent_ids, vec![10, 20, 40, 50]);
    assert_eq!(clusters[1].parent_ids, vec![60, 70]);
    assert_eq!(clusters[1].seed, 3);
}

#[test]
fn a_repeated_collision_between_the_same_pair_is_one_cluster() {
    let collisions = [encounter(5, 6, 0.8), encounter(6, 5, 0.4)];
    let clusters = group_collisions_into_clusters(&collisions);
    assert_eq!(clusters.len(), 1);
    assert_eq!(clusters[0].parent_ids, vec![5, 6]);
    assert_eq!(clusters[0].seed, 1);
}
