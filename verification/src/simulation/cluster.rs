//! Grouping a step's collisions into the breakups they represent.
//!
//! One step can report several collisions that share an object: a satellite hit
//! from two sides in the same step appears in two encounters. Resolving those
//! pairwise would destroy the shared object twice and duplicate its mass, so
//! instead every collision that shares an object with another is merged into a
//! single breakup covering the whole pileup.
//!
//! That is exactly connected components: the nodes are object ids, the edges are
//! the step's collisions, and each component is one breakup. Pileups are rare
//! and tiny, so a flood fill per component is more than enough.
//!
//! # Determinism
//!
//! The order clusters come out in decides the order fragments are generated in,
//! and therefore the order of draws from the simulation's rng. Components are
//! discovered by walking `collisions` in slice order, and each cluster's ids are
//! kept sorted, so the output depends on nothing but the input slice.
use vstd::prelude::*;
use vstd::set_lib::*;

verus! {

/// One collision of a step, as the grouping reads it: the two objects that
/// collided, and a key that orders collisions by when within the step they
/// happened (a smaller key is earlier, equal keys are simultaneous).
#[derive(Clone, Copy, Debug, PartialEq, Eq, Structural)]
pub struct Collision {
    pub id_a: u64,
    pub id_b: u64,
    pub fraction_key: u64,
}

/// A set of objects that break up together as one event.
#[derive(Clone, Debug, PartialEq)]
pub struct Cluster {
    /// Every object destroyed by this breakup, ascending. Two ids for an
    /// ordinary collision, more for a pileup.
    pub parent_ids: Vec<u64>,
    /// Index, in the grouped slice, of the earliest collision of the cluster.
    /// It anchors both where the breakup happened and when within the step,
    /// since the first contact is what starts it.
    pub seed: usize,
}

/// Collision `e` names object `id`.
pub open spec fn touches(e: Collision, id: u64) -> bool {
    e.id_a == id || e.id_b == id
}

/// Collisions `i` and `j` of `c` name a common object.
pub open spec fn share_object(c: Seq<Collision>, i: int, j: int) -> bool {
    touches(c[j], c[i].id_a) || touches(c[j], c[i].id_b)
}

/// `path` is a non-empty walk through `c` in which consecutive collisions share
/// an object.
pub open spec fn is_chain(c: Seq<Collision>, path: Seq<int>) -> bool {
    &&& path.len() > 0
    &&& forall|k: int| 0 <= k < path.len() ==> 0 <= #[trigger] path[k] < c.len()
    &&& forall|k: int|
        0 <= k < path.len() - 1 ==> #[trigger] share_object(c, path[k], path[k + 1])
}

/// Collision `j` is reachable from collision `i` through shared objects.
pub open spec fn linked(c: Seq<Collision>, i: int, j: int) -> bool {
    exists|path: Seq<int>| #[trigger] is_chain(c, path) && path[0] == i && path.last() == j
}

/// Every id of `s` is smaller than every id after it.
pub open spec fn strictly_ascending(s: Seq<u64>) -> bool {
    forall|a: int, b: int| 0 <= a < b < s.len() ==> s[a] < s[b]
}

/// Cluster `cl` holds both objects of collision `e`.
pub open spec fn holds(cl: Cluster, e: Collision) -> bool {
    cl.parent_ids@.contains(e.id_a) && cl.parent_ids@.contains(e.id_b)
}

/// Some cluster of `clusters` holds both objects of collision `e`.
pub open spec fn in_some_cluster(clusters: Seq<Cluster>, e: Collision) -> bool {
    exists|k: int| 0 <= k < clusters.len() && #[trigger] holds(clusters[k], e)
}

/// Cluster `cl` holds some collision of `c` listed before index `j`.
pub open spec fn holds_one_before(c: Seq<Collision>, cl: Cluster, j: int) -> bool {
    exists|i: int| 0 <= i < j && #[trigger] holds(cl, c[i])
}

/// `clusters` is the grouping of `c` into pileups: one cluster per connected
/// component of the collisions, ordered by the first collision of each
/// component, each naming the ids of its component in ascending order and
/// seeded by one of its earliest collisions.
pub open spec fn is_grouping(c: Seq<Collision>, clusters: Seq<Cluster>) -> bool {
    // Ids ascend within each cluster.
    &&& forall|k: int|
        0 <= k < clusters.len() ==> strictly_ascending(#[trigger] clusters[k].parent_ids@)
    // Every collision lies wholly inside some cluster.
    &&& forall|i: int| 0 <= i < c.len() ==> #[trigger] in_some_cluster(clusters, c[i])
    // No object is named by two clusters.
    &&& forall|k1: int, k2: int, x: u64|
        0 <= k1 < clusters.len() && 0 <= k2 < clusters.len() && k1 != k2
            && #[trigger] clusters[k1].parent_ids@.contains(x)
            ==> !#[trigger] clusters[k2].parent_ids@.contains(x)
    // A cluster names no object that no collision names.
    &&& forall|k: int, x: u64|
        0 <= k < clusters.len() && #[trigger] clusters[k].parent_ids@.contains(x)
            ==> exists|i: int| 0 <= i < c.len() && #[trigger] touches(c[i], x)
    // The collisions of one cluster are all linked through shared objects.
    &&& forall|k: int, i: int, j: int|
        0 <= k < clusters.len() && 0 <= i < c.len() && 0 <= j < c.len()
            && #[trigger] holds(clusters[k], c[i]) && #[trigger] holds(clusters[k], c[j])
            ==> linked(c, i, j)
    // The seed is a collision of the cluster, and none of it is earlier.
    &&& forall|k: int|
        0 <= k < clusters.len() ==> {
            let seed = #[trigger] clusters[k].seed as int;
            &&& seed < c.len()
            &&& holds(clusters[k], c[seed])
            &&& forall|i: int|
                0 <= i < c.len() && #[trigger] holds(clusters[k], c[i])
                    ==> c[seed].fraction_key <= c[i].fraction_key
            // The first-listed collision of the cluster is the seed unless a
            // strictly earlier one exists.
            &&& forall|i: int|
                0 <= i < c.len() && #[trigger] holds(clusters[k], c[i]) && !holds_one_before(
                    c,
                    clusters[k],
                    i,
                ) && c[i].fraction_key == c[seed].fraction_key ==> seed == i
        }
    // Clusters come out in the order of their first collision in `c`.
    &&& forall|k1: int, k2: int, j: int|
        0 <= k1 < k2 < clusters.len() && 0 <= j < c.len() && #[trigger] holds(clusters[k2], c[j])
            ==> #[trigger] holds_one_before(c, clusters[k1], j)
}

proof fn lemma_share_symmetric(c: Seq<Collision>, i: int, j: int)
    requires
        0 <= i < c.len(),
        0 <= j < c.len(),
        share_object(c, i, j),
    ensures
        share_object(c, j, i),
{
}

proof fn lemma_linked_refl(c: Seq<Collision>, i: int)
    requires
        0 <= i < c.len(),
    ensures
        linked(c, i, i),
{
    let path = seq![i];
    assert(is_chain(c, path));
}

proof fn lemma_linked_step(c: Seq<Collision>, i: int, j: int, l: int)
    requires
        linked(c, i, j),
        0 <= l < c.len(),
        share_object(c, j, l),
    ensures
        linked(c, i, l),
{
    let path = choose|path: Seq<int>| #[trigger] is_chain(c, path) && path[0] == i && path.last() == j;
    let longer = path.push(l);
    assert forall|k: int| 0 <= k < longer.len() - 1 implies #[trigger] share_object(
        c,
        longer[k],
        longer[k + 1],
    ) by {
        if k < path.len() - 1 {
            assert(share_object(c, path[k], path[k + 1]));
        }
    }
    assert forall|k: int| 0 <= k < longer.len() implies 0 <= #[trigger] longer[k] < c.len() by {
        if k < path.len() {
            assert(0 <= path[k] < c.len());
        }
    }
    assert(is_chain(c, longer));
}

proof fn lemma_linked_symmetric(c: Seq<Collision>, i: int, j: int)
    requires
        linked(c, i, j),
    ensures
        linked(c, j, i),
{
    let path = choose|path: Seq<int>| #[trigger] is_chain(c, path) && path[0] == i && path.last() == j;
    let back = path.reverse();
    assert forall|k: int| 0 <= k < back.len() implies 0 <= #[trigger] back[k] < c.len() by {
        assert(back[k] == path[path.len() - 1 - k]);
    }
    assert forall|k: int| 0 <= k < back.len() - 1 implies #[trigger] share_object(
        c,
        back[k],
        back[k + 1],
    ) by {
        let m = path.len() - 2 - k;
        assert(share_object(c, path[m], path[m + 1]));
        assert(0 <= path[m] < c.len());
        assert(0 <= path[m + 1] < c.len());
        lemma_share_symmetric(c, path[m], path[m + 1]);
    }
    assert(is_chain(c, back));
}

proof fn lemma_linked_trans(c: Seq<Collision>, i: int, j: int, l: int)
    requires
        linked(c, i, j),
        linked(c, j, l),
    ensures
        linked(c, i, l),
{
    let p1 = choose|path: Seq<int>| #[trigger] is_chain(c, path) && path[0] == i && path.last() == j;
    let p2 = choose|path: Seq<int>| #[trigger] is_chain(c, path) && path[0] == j && path.last() == l;
    let joined = p1 + p2.drop_first();
    assert forall|k: int| 0 <= k < joined.len() implies 0 <= #[trigger] joined[k] < c.len() by {
        if k < p1.len() {
            assert(0 <= p1[k] < c.len());
        } else {
            assert(joined[k] == p2[k - p1.len() + 1]);
            assert(0 <= p2[k - p1.len() + 1] < c.len());
        }
    }
    assert forall|k: int| 0 <= k < joined.len() - 1 implies #[trigger] share_object(
        c,
        joined[k],
        joined[k + 1],
    ) by {
        if k < p1.len() - 1 {
            assert(share_object(c, p1[k], p1[k + 1]));
        } else if k == p1.len() - 1 {
            assert(joined[k] == j);
            assert(joined[k + 1] == p2[1]);
            assert(share_object(c, p2[0], p2[1]));
        } else {
            let m = k - p1.len() + 1;
            assert(joined[k] == p2[m]);
            assert(joined[k + 1] == p2[m + 1]);
            assert(share_object(c, p2[m], p2[m + 1]));
        }
    }
    assert(is_chain(c, joined));
}

/// Insert `x` into the strictly ascending `v`, unless it is already there.
fn insert_sorted(v: &mut Vec<u64>, x: u64)
    requires
        strictly_ascending(old(v)@),
    ensures
        strictly_ascending(final(v)@),
        forall|y: u64| final(v)@.contains(y) <==> (old(v)@.contains(y) || y == x),
{
    let mut i: usize = 0;
    while i < v.len() && v[i] < x
        invariant
            0 <= i <= v.len(),
            v@ == old(v)@,
            strictly_ascending(v@),
            forall|a: int| 0 <= a < i ==> v@[a] < x,
        decreases v.len() - i,
    {
        i += 1;
    }
    if i < v.len() && v[i] == x {
        assert(v@[i as int] == x);
        assert(v@.contains(x));
        return ;
    }
    let ghost before = v@;
    assert(before == old(v)@);
    v.insert(i, x);
    assert forall|y: u64| v@.contains(y) <==> (before.contains(y) || y == x) by {
        if v@.contains(y) {
            let k = choose|k: int| 0 <= k < v@.len() && v@[k] == y;
            if k < i {
                assert(before[k] == y);
            } else if k > i {
                assert(before[k - 1] == y);
            }
        }
        if before.contains(y) {
            let k = choose|k: int| 0 <= k < before.len() && before[k] == y;
            if k < i {
                assert(v@[k] == y);
            } else {
                assert(v@[k + 1] == y);
            }
        }
        if y == x {
            assert(v@[i as int] == x);
        }
    }
    assert(forall|y: u64| v@.contains(y) <==> (old(v)@.contains(y) || y == x));
}

/// Mark every unvisited collision naming object `id` as part of cluster `cur`
/// and queue it, recording `id` among the cluster's objects. Returns what is
/// left of `pending`, the set of still-unvisited collisions.
fn absorb_object(
    collisions: &[Collision],
    id: u64,
    cur: usize,
    comp: &mut Vec<Option<usize>>,
    queue: &mut Vec<usize>,
    parent_ids: &mut Vec<u64>,
    Ghost(pending): Ghost<Set<int>>,
) -> (rest: Ghost<Set<int>>)
    requires
        old(comp)@.len() == collisions@.len(),
        strictly_ascending(old(parent_ids)@),
        pending.finite(),
        forall|j: int|
            #[trigger] pending.contains(j) <==> 0 <= j < collisions@.len() && old(comp)@[j] is None,
    ensures
        final(comp)@.len() == collisions@.len(),
        strictly_ascending(final(parent_ids)@),
        forall|y: u64| final(parent_ids)@.contains(y) <==> (old(parent_ids)@.contains(y) || y == id),
        forall|j: int|
            0 <= j < collisions@.len() ==> #[trigger] final(comp)@[j] == (if old(comp)@[j] is Some {
                old(comp)@[j]
            } else if touches(collisions@[j], id) {
                Some(cur)
            } else {
                None
            }),
        final(queue)@.len() >= old(queue)@.len(),
        forall|k: int| 0 <= k < old(queue)@.len() ==> #[trigger] final(queue)@[k] == old(queue)@[k],
        forall|k: int|
            old(queue)@.len() <= k < final(queue)@.len() ==> {
                let q = #[trigger] final(queue)@[k] as int;
                &&& 0 <= q < collisions@.len()
                &&& old(comp)@[q] is None
                &&& touches(collisions@[q], id)
            },
        forall|k1: int, k2: int|
            old(queue)@.len() <= k1 < k2 < final(queue)@.len() ==> #[trigger] final(queue)@[k1]
                < #[trigger] final(queue)@[k2],
        forall|j: int|
            0 <= j < collisions@.len() && old(comp)@[j] is None && touches(collisions@[j], id)
                ==> exists|k: int|
                old(queue)@.len() <= k < final(queue)@.len() && #[trigger] final(queue)@[k] == j,
        rest@.finite(),
        forall|j: int|
            #[trigger] rest@.contains(j) <==> 0 <= j < collisions@.len() && final(comp)@[j] is None,
        rest@.len() + (final(queue)@.len() - old(queue)@.len()) == pending.len(),
{
    insert_sorted(parent_ids, id);
    let ghost mut rest = pending;
    let ghost comp0 = comp@;
    let ghost queue0 = queue@;
    let n = collisions.len();
    let mut j: usize = 0;
    while j < n
        invariant
            n == collisions@.len(),
            0 <= j <= n,
            comp@.len() == n,
            comp0.len() == n,
            forall|l: int|
                0 <= l < n ==> #[trigger] comp@[l] == (if comp0[l] is Some {
                    comp0[l]
                } else if l < j && touches(collisions@[l], id) {
                    Some(cur)
                } else {
                    None
                }),
            queue@.len() >= queue0.len(),
            forall|k: int| 0 <= k < queue0.len() ==> #[trigger] queue@[k] == queue0[k],
            forall|k: int|
                queue0.len() <= k < queue@.len() ==> {
                    let q = #[trigger] queue@[k] as int;
                    &&& 0 <= q < j
                    &&& comp0[q] is None
                    &&& touches(collisions@[q], id)
                },
            forall|k1: int, k2: int|
                queue0.len() <= k1 < k2 < queue@.len() ==> #[trigger] queue@[k1]
                    < #[trigger] queue@[k2],
            forall|l: int|
                0 <= l < j && comp0[l] is None && touches(collisions@[l], id) ==> exists|k: int|
                    queue0.len() <= k < queue@.len() && #[trigger] queue@[k] == l,
            rest.finite(),
            forall|l: int| #[trigger] rest.contains(l) <==> 0 <= l < n && comp@[l] is None,
            rest.len() + (queue@.len() - queue0.len()) == pending.len(),
        decreases n - j,
    {
        let e = collisions[j];
        if (e.id_a == id || e.id_b == id) && comp[j].is_none() {
            let ghost qb = queue@;
            comp.set(j, Some(cur));
            queue.push(j);
            proof {
                assert(rest.contains(j as int));
                rest = rest.remove(j as int);
                assert forall|l: int|
                    0 <= l < j + 1 && comp0[l] is None && touches(
                        collisions@[l],
                        id,
                    ) implies exists|k: int|
                    queue0.len() <= k < queue@.len() && #[trigger] queue@[k] == l by {
                    if l == j {
                        assert(queue@[queue@.len() - 1] == l);
                    } else {
                        let k = choose|k: int|
                            queue0.len() <= k < qb.len() && #[trigger] qb[k] == l;
                        assert(queue@[k] == l);
                    }
                }
            }
        } else {
            proof {
                assert forall|l: int|
                    0 <= l < j + 1 && comp0[l] is None && touches(
                        collisions@[l],
                        id,
                    ) implies exists|k: int|
                    queue0.len() <= k < queue@.len() && #[trigger] queue@[k] == l by {
                    if l == j {
                        assert(comp@[l] == comp0[l]);
                    }
                }
            }
        }
        j += 1;
    }
    Ghost(rest)
}

/// With components closed under shared objects and each cluster naming the ids
/// of its component, a cluster holds exactly the collisions of its component.
proof fn lemma_holds_iff_component(c: Seq<Collision>, clusters: Seq<Cluster>, comp: Seq<Option<usize>>)
    requires
        comp.len() == c.len(),
        forall|j: int, l: int|
            0 <= j < c.len() && 0 <= l < c.len() && #[trigger] comp[j] is Some && share_object(c, j, l)
                ==> #[trigger] comp[l] == comp[j],
        forall|k: int, x: u64|
            0 <= k < clusters.len() ==> (#[trigger] clusters[k].parent_ids@.contains(x)
                <==> exists|j: int|
                0 <= j < c.len() && comp[j] == Some(k as usize) && #[trigger] touches(c[j], x)),
    ensures
        forall|k: int, i: int|
            0 <= k < clusters.len() && 0 <= i < c.len() ==> (#[trigger] holds(clusters[k], c[i])
                <==> comp[i] == Some(k as usize)),
{
    let n = c.len();
    // A cluster holds a collision exactly when the collision is in its component.
    assert forall|k: int, i: int|
        0 <= k < clusters.len() && 0 <= i < n implies (#[trigger] holds(clusters[k], c[i])
        <==> comp[i] == Some(k as usize)) by {
        if comp[i] == Some(k as usize) {
            assert(touches(c[i], c[i].id_a));
            assert(touches(c[i], c[i].id_b));
        }
        if clusters[k].parent_ids@.contains(c[i].id_a) {
            let j = choose|j: int|
                0 <= j < n && comp[j] == Some(k as usize) && #[trigger] touches(c[j], c[i].id_a);
            assert(share_object(c, j, i));
            assert(comp[i] == comp[j]);
        }
    }
}

/// Once every collision has been assigned a component (`comp`), with the
/// properties the flood fill maintains, the clusters are a grouping of `c`.
proof fn lemma_components_group(
    c: Seq<Collision>,
    clusters: Seq<Cluster>,
    comp: Seq<Option<usize>>,
    starts: Seq<int>,
)
    requires
        comp.len() == c.len(),
        starts.len() == clusters.len(),
        clusters.len() <= usize::MAX,
        forall|j: int| 0 <= j < c.len() ==> #[trigger] comp[j] is Some,
        forall|j: int| 0 <= j < c.len() && #[trigger] comp[j] is Some ==> comp[j]->0 < clusters.len(),
        forall|k: int|
            0 <= k < clusters.len() ==> {
                let s = #[trigger] starts[k];
                &&& 0 <= s < c.len()
                &&& comp[s] == Some(k as usize)
            },
        forall|k1: int, k2: int|
            0 <= k1 < k2 < clusters.len() ==> #[trigger] starts[k1] < #[trigger] starts[k2],
        forall|j: int|
            0 <= j < c.len() && #[trigger] comp[j] is Some ==> starts[comp[j]->0 as int] <= j
                && linked(c, starts[comp[j]->0 as int], j),
        forall|j: int, l: int|
            0 <= j < c.len() && 0 <= l < c.len() && #[trigger] comp[j] is Some && share_object(c, j, l)
                ==> #[trigger] comp[l] == comp[j],
        forall|k: int|
            0 <= k < clusters.len() ==> strictly_ascending(#[trigger] clusters[k].parent_ids@),
        forall|k: int, x: u64|
            0 <= k < clusters.len() ==> (#[trigger] clusters[k].parent_ids@.contains(x)
                <==> exists|j: int|
                0 <= j < c.len() && comp[j] == Some(k as usize) && #[trigger] touches(c[j], x)),
        forall|k: int|
            0 <= k < clusters.len() ==> {
                let seed = #[trigger] clusters[k].seed as int;
                &&& seed < c.len()
                &&& comp[seed] == Some(k as usize)
                &&& forall|j: int|
                    0 <= j < c.len() && #[trigger] comp[j] == Some(k as usize)
                        ==> c[seed].fraction_key <= c[j].fraction_key
                &&& seed == starts[k] || c[seed].fraction_key < c[starts[k]].fraction_key
            },
    ensures
        is_grouping(c, clusters),
{
    let n = c.len();
    lemma_holds_iff_component(c, clusters, comp);
    assert forall|k1: int, k2: int, x: u64|
        0 <= k1 < clusters.len() && 0 <= k2 < clusters.len() && k1 != k2
            && #[trigger] clusters[k1].parent_ids@.contains(x)
            implies !#[trigger] clusters[k2].parent_ids@.contains(x) by {
        if clusters[k2].parent_ids@.contains(x) {
            let j1 = choose|j: int|
                0 <= j < n && comp[j] == Some(k1 as usize) && #[trigger] touches(c[j], x);
            let j2 = choose|j: int|
                0 <= j < n && comp[j] == Some(k2 as usize) && #[trigger] touches(c[j], x);
            assert(share_object(c, j1, j2));
            assert(comp[j2] == comp[j1]);
        }
    }
    assert forall|k: int, x: u64|
        0 <= k < clusters.len() && #[trigger] clusters[k].parent_ids@.contains(x) implies exists|i: int|
        0 <= i < n && #[trigger] touches(c[i], x) by {
        let j = choose|j: int|
            0 <= j < n && comp[j] == Some(k as usize) && #[trigger] touches(c[j], x);
    }
    assert forall|k: int, i: int, j: int|
        0 <= k < clusters.len() && 0 <= i < n && 0 <= j < n && #[trigger] holds(clusters[k], c[i])
            && #[trigger] holds(clusters[k], c[j]) implies linked(c, i, j) by {
        assert(comp[i] == Some(k as usize));
        assert(comp[j] == Some(k as usize));
        lemma_linked_symmetric(c, starts[k], i);
        lemma_linked_trans(c, i, starts[k], j);
    }
    assert forall|k: int| 0 <= k < clusters.len() implies {
        let seed = #[trigger] clusters[k].seed as int;
        &&& seed < n
        &&& holds(clusters[k], c[seed])
        &&& forall|i: int|
            0 <= i < n && #[trigger] holds(clusters[k], c[i])
                ==> c[seed].fraction_key <= c[i].fraction_key
        &&& forall|i: int|
            0 <= i < c.len() && #[trigger] holds(clusters[k], c[i]) && !holds_one_before(
                c,
                clusters[k],
                i,
            ) && c[i].fraction_key == c[seed].fraction_key ==> seed == i
    } by {
        let seed = clusters[k].seed as int;
        assert(holds(clusters[k], c[seed]));
        assert forall|i: int|
            0 <= i < n && #[trigger] holds(clusters[k], c[i]) implies c[seed].fraction_key
            <= c[i].fraction_key by {
            assert(comp[i] == Some(k as usize));
        }
        assert forall|i: int|
            0 <= i < c.len() && #[trigger] holds(clusters[k], c[i]) && !holds_one_before(
                c,
                clusters[k],
                i,
            ) && c[i].fraction_key == c[seed].fraction_key implies seed == i by {
            assert(comp[i] == Some(k as usize));
            let s = starts[k];
            assert(holds(clusters[k], c[s]));
            if s < i {
                assert(holds_one_before(c, clusters[k], i));
            }
        }
    }
    assert forall|k1: int, k2: int, j: int|
        0 <= k1 < k2 < clusters.len() && 0 <= j < n && #[trigger] holds(clusters[k2], c[j])
            implies #[trigger] holds_one_before(c, clusters[k1], j) by {
        assert(comp[j] == Some(k2 as usize));
        let s1 = starts[k1];
        assert(starts[k1] < starts[k2]);
        assert(holds(clusters[k1], c[s1]));
    }
    assert forall|i: int| 0 <= i < c.len() implies #[trigger] in_some_cluster(clusters, c[i]) by {
        assert(comp[i] is Some);
        let k = comp[i]->0 as int;
        assert(0 <= k < clusters.len());
        assert(comp[i] == Some(k as usize));
        assert(holds(clusters[k], c[i]));
    }
}

/// Group a step's collisions into one cluster per pileup.
///
/// Every id named by `collisions` appears in exactly one returned cluster.
pub fn group_collisions_into_clusters(collisions: &[Collision]) -> (clusters: Vec<Cluster>)
    ensures
        is_grouping(collisions@, clusters@),
{
    let n = collisions.len();
    // Which cluster each collision has been assigned to, once visited.
    let mut comp: Vec<Option<usize>> = Vec::new();
    let mut i: usize = 0;
    while i < n
        invariant
            0 <= i <= n,
            comp@.len() == i,
            forall|l: int| 0 <= l < i ==> #[trigger] comp@[l] is None,
        decreases n - i,
    {
        comp.push(None);
        i += 1;
    }
    let mut clusters: Vec<Cluster> = Vec::new();
    let ghost c = collisions@;
    let ghost mut starts: Seq<int> = seq![];
    let ghost mut pending: Set<int> = set_int_range(0, n as int);
    proof {
        lemma_int_range(0, n as int);
    }

    // Walking in slice order is what makes the output order reproducible.
    for start in 0..n
        invariant
            n == c.len(),
            c == collisions@,
            comp@.len() == n,
            starts.len() == clusters@.len(),
            pending.finite(),
            forall|j: int| #[trigger] pending.contains(j) <==> 0 <= j < n && comp@[j] is None,
            forall|j: int| 0 <= j < start ==> #[trigger] comp@[j] is Some,
            forall|j: int|
                0 <= j < n && #[trigger] comp@[j] is Some ==> comp@[j]->0 < clusters@.len(),
            forall|k: int|
                0 <= k < clusters@.len() ==> {
                    let s = #[trigger] starts[k];
                    &&& 0 <= s < start
                    &&& comp@[s] == Some(k as usize)
                },
            forall|k1: int, k2: int|
                0 <= k1 < k2 < clusters@.len() ==> #[trigger] starts[k1] < #[trigger] starts[k2],
            forall|j: int|
                0 <= j < n && #[trigger] comp@[j] is Some ==> starts[comp@[j]->0 as int] <= j
                    && linked(c, starts[comp@[j]->0 as int], j),
            forall|j: int, l: int|
                0 <= j < n && 0 <= l < n && #[trigger] comp@[j] is Some && share_object(c, j, l)
                    ==> #[trigger] comp@[l] == comp@[j],
            forall|k: int|
                0 <= k < clusters@.len() ==> strictly_ascending(#[trigger] clusters@[k].parent_ids@),
            forall|k: int, x: u64|
                0 <= k < clusters@.len() ==> (#[trigger] clusters@[k].parent_ids@.contains(x)
                    <==> exists|j: int|
                    0 <= j < n && comp@[j] == Some(k as usize) && #[trigger] touches(c[j], x)),
            forall|k: int|
                0 <= k < clusters@.len() ==> {
                    let seed = #[trigger] clusters@[k].seed as int;
                    &&& seed < n
                    &&& comp@[seed] == Some(k as usize)
                    &&& forall|j: int|
                        0 <= j < n && #[trigger] comp@[j] == Some(k as usize)
                            ==> c[seed].fraction_key <= c[j].fraction_key
                    &&& seed == starts[k] || c[seed].fraction_key < c[starts[k]].fraction_key
                },
    {
        if comp[start].is_none() {
            let cur = clusters.len();
            let ghost comp0 = comp@;
            comp.set(start, Some(cur));
            proof {
                pending = pending.remove(start as int);
                lemma_linked_refl(c, start as int);
            }
            let mut parent_ids: Vec<u64> = Vec::new();
            let mut seed: usize = start;
            let mut queue: Vec<usize> = Vec::new();
            queue.push(start);
            proof {
                assert(queue@[0] == start);
                assert forall|j: int| 0 <= j < n && #[trigger] comp@[j] == Some(cur) implies j
                    == start && queue@.contains(j as usize) by {
                    if j != start {
                        assert(comp0[j] == comp@[j]);
                    }
                }
            }

            // Flood fill from this collision through every collision reachable
            // by a shared object, collecting the ids and the earliest collision.
            while queue.len() > 0
                invariant
                    n == c.len(),
                    c == collisions@,
                    comp@.len() == n,
                    comp0.len() == n,
                    cur == clusters@.len(),
                    starts.len() == cur,
                    0 <= start < n,
                    pending.finite(),
                    forall|j: int| #[trigger] pending.contains(j) <==> 0 <= j < n && comp@[j] is None,
                    forall|j: int|
                        0 <= j < n && #[trigger] comp0[j] is Some ==> comp@[j] == comp0[j],
                    forall|j: int|
                        0 <= j < n && #[trigger] comp0[j] is None ==> comp@[j] is None || comp@[j]
                            == Some(cur),
                    forall|j: int| 0 <= j < start ==> #[trigger] comp0[j] is Some,
                    forall|j: int|
                        0 <= j < n && #[trigger] comp0[j] is Some ==> comp0[j]->0 < cur,
                    forall|j: int, l: int|
                        0 <= j < n && 0 <= l < n && #[trigger] comp0[j] is Some && share_object(
                            c,
                            j,
                            l,
                        ) ==> #[trigger] comp0[l] == comp0[j],
                    comp@[start as int] == Some(cur),
                    // The queue holds distinct collisions of this cluster.
                    forall|a: int|
                        0 <= a < queue@.len() ==> {
                            let q = #[trigger] queue@[a] as int;
                            &&& 0 <= q < n
                            &&& comp@[q] == Some(cur)
                        },
                    forall|a: int, b: int|
                        0 <= a < b < queue@.len() ==> #[trigger] queue@[a] != #[trigger] queue@[b],
                    // Every collision of this cluster is linked to the start,
                    // and none comes before it.
                    forall|j: int|
                        0 <= j < n && #[trigger] comp@[j] == Some(cur) ==> start <= j && linked(
                            c,
                            start as int,
                            j,
                        ),
                    // A collision of this cluster that has left the queue has
                    // had all its neighbours visited and its ids recorded.
                    forall|j: int, l: int|
                        0 <= j < n && 0 <= l < n && #[trigger] comp@[j] == Some(cur)
                            && !queue@.contains(j as usize) && #[trigger] share_object(c, j, l)
                            ==> comp@[l] == Some(cur),
                    strictly_ascending(parent_ids@),
                    forall|x: u64|
                        #[trigger] parent_ids@.contains(x) <==> exists|j: int|
                            0 <= j < n && comp@[j] == Some(cur) && !queue@.contains(j as usize)
                                && #[trigger] touches(c[j], x),
                    seed < n,
                    comp@[seed as int] == Some(cur),
                    seed == start || c[seed as int].fraction_key < c[start as int].fraction_key,
                    forall|j: int|
                        0 <= j < n && #[trigger] comp@[j] == Some(cur) && !queue@.contains(
                            j as usize,
                        ) ==> c[seed as int].fraction_key <= c[j].fraction_key,
                decreases 2 * pending.len() + queue@.len(),
            {
                let ghost qa = queue@;
                let ghost compa = comp@;
                let ghost pa = parent_ids@;
                let ghost pending_a = pending;
                let index = queue.pop().unwrap();
                let ghost qp = queue@;
                assert(qa == qp.push(index));
                let e = collisions[index];
                if e.fraction_key < collisions[seed].fraction_key {
                    seed = index;
                }
                let Ghost(rest_a) = absorb_object(
                    collisions,
                    e.id_a,
                    cur,
                    &mut comp,
                    &mut queue,
                    &mut parent_ids,
                    Ghost(pending),
                );
                let ghost compb = comp@;
                let ghost qb = queue@;
                let Ghost(rest_b) = absorb_object(
                    collisions,
                    e.id_b,
                    cur,
                    &mut comp,
                    &mut queue,
                    &mut parent_ids,
                    Ghost(rest_a),
                );
                proof {
                    pending = rest_b;
                    let p = index as int;
                    assert(compa[p] == Some(cur));
                    assert(!qp.contains(index)) by {
                        if qp.contains(index) {
                            let a = choose|a: int| 0 <= a < qp.len() && qp[a] == index;
                            assert(qa[a] == qa[qa.len() - 1]);
                        }
                    }
                    // Collisions visited by this iteration are exactly the new
                    // queue entries, and each of them shares an object with `p`.
                    assert forall|j: int|
                        0 <= j < n && #[trigger] comp@[j] == Some(cur) && compa[j] is None implies (
                        share_object(c, p, j) && exists|k: int|
                            qp.len() <= k < queue@.len() && #[trigger] queue@[k] == j) by {
                        if compb[j] is Some {
                            let k = choose|k: int|
                                qp.len() <= k < qb.len() && #[trigger] qb[k] == j;
                            assert(queue@[k] == j);
                        } else {
                            let k = choose|k: int|
                                qb.len() <= k < queue@.len() && #[trigger] queue@[k] == j;
                        }
                    }
                    assert forall|a: int| 0 <= a < queue@.len() implies {
                        let q = #[trigger] queue@[a] as int;
                        &&& 0 <= q < n
                        &&& comp@[q] == Some(cur)
                    } by {
                        if a < qp.len() {
                            assert(queue@[a] == qb[a]);
                            assert(qb[a] == qp[a]);
                            assert(qa[a] == qp[a]);
                        } else if a < qb.len() {
                            assert(queue@[a] == qb[a]);
                        }
                    }
                    assert forall|a: int, b: int| 0 <= a < b < queue@.len() implies #[trigger] queue@[a]
                        != #[trigger] queue@[b] by {
                        if b < qp.len() {
                            assert(qa[a] == qp[a] && qa[b] == qp[b]);
                        } else if b < qb.len() {
                            if a < qp.len() {
                                assert(qa[a] == qp[a]);
                                assert(compa[qp[a] as int] == Some(cur));
                            }
                        } else {
                            if a < qp.len() {
                                assert(qa[a] == qp[a]);
                                assert(compa[qp[a] as int] == Some(cur));
                                assert(queue@[a] == qb[a]);
                            } else if a < qb.len() {
                                assert(queue@[a] == qb[a]);
                            }
                        }
                    }
                    assert forall|j: int| 0 <= j < n && #[trigger] comp@[j] == Some(cur) implies start
                        <= j && linked(c, start as int, j) by {
                        if compa[j] is None {
                            assert(comp0[j] is None);
                            lemma_linked_step(c, start as int, p, j);
                        }
                    }
                    // Which collisions are done (visited and off the queue).
                    assert forall|j: int|
                        0 <= j < n && #[trigger] comp@[j] == Some(cur) && !queue@.contains(
                            j as usize,
                        ) && j != p implies compa[j] == Some(cur) && !qa.contains(j as usize) by {
                        if compa[j] is None {
                            let k = choose|k: int|
                                qp.len() <= k < queue@.len() && #[trigger] queue@[k] == j;
                            assert(queue@.contains(j as usize));
                        }
                        if qa.contains(j as usize) {
                            let a = choose|a: int| 0 <= a < qa.len() && qa[a] == j as usize;
                            assert(a < qp.len());
                            assert(queue@[a] == qb[a]);
                            assert(qb[a] == qp[a]);
                        }
                    }
                    assert forall|j: int|
                        0 <= j < n && compa[j] == Some(cur) && !qa.contains(j as usize)
                            implies #[trigger] comp@[j] == Some(cur) && !queue@.contains(j as usize) by {
                        if queue@.contains(j as usize) {
                            let a = choose|a: int| 0 <= a < queue@.len() && queue@[a] == j as usize;
                            if a < qp.len() {
                                assert(queue@[a] == qb[a]);
                                assert(qb[a] == qp[a]);
                                assert(qa[a] == qp[a]);
                            }
                        }
                    }
                    assert(!queue@.contains(index)) by {
                        if queue@.contains(index) {
                            let a = choose|a: int| 0 <= a < queue@.len() && queue@[a] == index;
                            if a < qp.len() {
                                assert(queue@[a] == qb[a]);
                                assert(qb[a] == qp[a]);
                            }
                        }
                    }
                    assert forall|j: int, l: int|
                        0 <= j < n && 0 <= l < n && #[trigger] comp@[j] == Some(cur)
                            && !queue@.contains(j as usize) && #[trigger] share_object(c, j, l)
                            implies comp@[l] == Some(cur) by {
                        if j == p {
                            assert(compb[l] is Some || comp@[l] is Some);
                            if compa[l] is Some && compa[l] != Some(cur) {
                                assert(comp0[l] is Some);
                                lemma_share_symmetric(c, j, l);
                                assert(comp0[p] == comp0[l]);
                            }
                        } else {
                            assert(compa[j] == Some(cur) && !qa.contains(j as usize));
                        }
                    }
                    assert forall|x: u64|
                        #[trigger] parent_ids@.contains(x) <==> exists|j: int|
                            0 <= j < n && comp@[j] == Some(cur) && !queue@.contains(j as usize)
                                && #[trigger] touches(c[j], x) by {
                        if parent_ids@.contains(x) {
                            if pa.contains(x) {
                                let j = choose|j: int|
                                    0 <= j < n && compa[j] == Some(cur) && !qa.contains(j as usize)
                                        && #[trigger] touches(c[j], x);
                                assert(comp@[j] == Some(cur) && !queue@.contains(j as usize));
                            } else {
                                assert(touches(c[p], x));
                            }
                        }
                        if exists|j: int|
                            0 <= j < n && comp@[j] == Some(cur) && !queue@.contains(j as usize)
                                && #[trigger] touches(c[j], x) {
                            let j = choose|j: int|
                                0 <= j < n && comp@[j] == Some(cur) && !queue@.contains(j as usize)
                                    && #[trigger] touches(c[j], x);
                            if j != p {
                                assert(compa[j] == Some(cur) && !qa.contains(j as usize));
                            }
                        }
                    }
                    assert forall|j: int|
                        0 <= j < n && #[trigger] comp@[j] == Some(cur) && !queue@.contains(
                            j as usize,
                        ) implies c[seed as int].fraction_key <= c[j].fraction_key by {
                        if j != p {
                            assert(compa[j] == Some(cur) && !qa.contains(j as usize));
                        }
                    }
                }
            }
            let ghost old_clusters = clusters@;
            let ghost old_starts = starts;
            proof {
                starts = starts.push(start as int);
            }
            clusters.push(Cluster { parent_ids, seed });
            proof {
                assert(queue@.len() == 0);
                assert forall|j: int| 0 <= j < start + 1 implies #[trigger] comp@[j] is Some by {
                    if j < start {
                        assert(comp0[j] is Some);
                    }
                }
                assert forall|j: int|
                    0 <= j < n && #[trigger] comp@[j] is Some implies comp@[j]->0 < clusters@.len() by {
                    if comp0[j] is Some {
                        assert(comp0[j]->0 < cur);
                    } else {
                        assert(comp@[j] == Some(cur));
                    }
                }
                assert forall|j: int| 0 <= j < n && #[trigger] comp@[j] == Some(cur) implies !queue@.contains(
                    j as usize,
                ) by {}
                // Membership of the finished clusters did not change.
                assert forall|j: int|
                    0 <= j < n && #[trigger] comp@[j] is Some && comp@[j]->0 < cur implies comp0[j]
                        == comp@[j] by {
                    if comp0[j] is None {
                        assert(comp@[j] is None || comp@[j] == Some(cur));
                    }
                }
                assert forall|k: int| 0 <= k < clusters@.len() implies {
                    let s = #[trigger] starts[k];
                    &&& 0 <= s < start + 1
                    &&& comp@[s] == Some(k as usize)
                } by {
                    if k < cur {
                        assert(starts[k] == old_starts[k]);
                        assert(comp0[old_starts[k]] == Some(k as usize));
                    }
                }
                assert forall|j: int|
                    0 <= j < n && #[trigger] comp@[j] is Some implies starts[comp@[j]->0 as int] <= j
                        && linked(c, starts[comp@[j]->0 as int], j) by {
                    if comp@[j] != Some(cur) {
                        assert(comp0[j] is Some);
                        assert(starts[comp0[j]->0 as int] == old_starts[comp0[j]->0 as int]);
                    }
                }
                assert forall|j: int, l: int|
                    0 <= j < n && 0 <= l < n && #[trigger] comp@[j] is Some && share_object(c, j, l)
                        implies #[trigger] comp@[l] == comp@[j] by {
                    if comp@[j] != Some(cur) {
                        assert(comp0[j] is Some);
                        assert(comp0[l] == comp0[j]);
                    }
                }
                assert forall|k: int|
                    0 <= k < clusters@.len() implies strictly_ascending(
                    #[trigger] clusters@[k].parent_ids@,
                ) by {
                    if k < cur {
                        assert(clusters@[k] == old_clusters[k]);
                    }
                }
                assert forall|k: int, x: u64|
                    0 <= k < clusters@.len() implies (#[trigger] clusters@[k].parent_ids@.contains(x)
                    <==> exists|j: int|
                    0 <= j < n && comp@[j] == Some(k as usize) && #[trigger] touches(c[j], x)) by {
                    if k < cur {
                        assert(clusters@[k] == old_clusters[k]);
                        if old_clusters[k].parent_ids@.contains(x) {
                            let j = choose|j: int|
                                0 <= j < n && comp0[j] == Some(k as usize) && #[trigger] touches(c[j], x);
                            assert(comp@[j] == Some(k as usize));
                        }
                        if exists|j: int|
                            0 <= j < n && comp@[j] == Some(k as usize) && #[trigger] touches(c[j], x) {
                            let j = choose|j: int|
                                0 <= j < n && comp@[j] == Some(k as usize) && #[trigger] touches(c[j], x);
                            assert(comp0[j] == Some(k as usize));
                        }
                    }
                }
                assert forall|k: int| 0 <= k < clusters@.len() implies {
                    let seed = #[trigger] clusters@[k].seed as int;
                    &&& seed < n
                    &&& comp@[seed] == Some(k as usize)
                    &&& forall|j: int|
                        0 <= j < n && #[trigger] comp@[j] == Some(k as usize)
                            ==> c[seed].fraction_key <= c[j].fraction_key
                    &&& seed == starts[k] || c[seed].fraction_key < c[starts[k]].fraction_key
                } by {
                    if k < cur {
                        assert(clusters@[k] == old_clusters[k]);
                        let seed = old_clusters[k].seed as int;
                        assert(comp0[seed] == Some(k as usize));
                        assert(starts[k] == old_starts[k]);
                        assert forall|j: int|
                            0 <= j < n && #[trigger] comp@[j] == Some(k as usize)
                                implies c[seed].fraction_key <= c[j].fraction_key by {
                            assert(comp0[j] == Some(k as usize));
                        }
                    }
                }
            }
        }
    }
    proof {
        assert(clusters@.len() == clusters.len());
        lemma_components_group(c, clusters@, comp@, starts);
    }
    clusters
}

/// Every object named by a collision appears in exactly one cluster.
pub proof fn every_collided_object_is_in_exactly_one_cluster(
    c: Seq<Collision>,
    clusters: Seq<Cluster>,
    i: int,
    x: u64,
)
    requires
        is_grouping(c, clusters),
        0 <= i < c.len(),
        touches(c[i], x),
    ensures
        exists|k: int|
            0 <= k < clusters.len() && #[trigger] clusters[k].parent_ids@.contains(x) && forall|k2: int|
                0 <= k2 < clusters.len() && #[trigger] clusters[k2].parent_ids@.contains(x) ==> k2 == k,
{
    assert(in_some_cluster(clusters, c[i]));
    let k = choose|k: int| 0 <= k < clusters.len() && #[trigger] holds(clusters[k], c[i]);
    assert(clusters[k].parent_ids@.contains(x));
}

/// Collisions linked through a chain of shared objects end up in the same
/// cluster, however long the chain.
pub proof fn linked_collisions_share_a_cluster(
    c: Seq<Collision>,
    clusters: Seq<Cluster>,
    i: int,
    j: int,
    k: int,
)
    requires
        is_grouping(c, clusters),
        linked(c, i, j),
        0 <= k < clusters.len(),
        holds(clusters[k], c[i]),
    ensures
        holds(clusters[k], c[j]),
{
    let path = choose|path: Seq<int>| #[trigger] is_chain(c, path) && path[0] == i && path.last() == j;
    lemma_chain_stays_in_cluster(c, clusters, path, k);
}

proof fn lemma_chain_stays_in_cluster(c: Seq<Collision>, clusters: Seq<Cluster>, path: Seq<int>, k: int)
    requires
        is_grouping(c, clusters),
        is_chain(c, path),
        0 <= k < clusters.len(),
        holds(clusters[k], c[path[0]]),
    ensures
        holds(clusters[k], c[path.last()]),
    decreases path.len(),
{
    if path.len() > 1 {
        let prefix = path.drop_last();
        assert forall|m: int| 0 <= m < prefix.len() - 1 implies #[trigger] share_object(
            c,
            prefix[m],
            prefix[m + 1],
        ) by {
            assert(share_object(c, path[m], path[m + 1]));
        }
        assert forall|m: int| 0 <= m < prefix.len() implies 0 <= #[trigger] prefix[m] < c.len() by {
            assert(0 <= path[m] < c.len());
        }
        assert(is_chain(c, prefix));
        lemma_chain_stays_in_cluster(c, clusters, prefix, k);
        let m = path.len() - 2;
        let a = path[m];
        let b = path[m + 1];
        assert(0 <= a < c.len() && 0 <= b < c.len());
        assert(share_object(c, path[m], path[m + 1]));
        assert(holds(clusters[k], c[a]));
        // The object shared by `a` and `b` pins `b` to the same cluster.
        let x = if touches(c[b], c[a].id_a) { c[a].id_a } else { c[a].id_b };
        assert(clusters[k].parent_ids@.contains(x));
        assert(in_some_cluster(clusters, c[b]));
        let k2 = choose|k2: int| 0 <= k2 < clusters.len() && #[trigger] holds(clusters[k2], c[b]);
        assert(clusters[k2].parent_ids@.contains(x));
    }
}

/// `i` is the first collision of `c` that cluster `cl` holds.
pub open spec fn is_first_held(c: Seq<Collision>, cl: Cluster, i: int) -> bool {
    0 <= i < c.len() && holds(cl, c[i]) && !holds_one_before(c, cl, i)
}

/// `i` begins a new pileup: no collision listed before it is linked to it.
pub open spec fn starts_component(c: Seq<Collision>, i: int) -> bool {
    0 <= i < c.len() && forall|j: int| 0 <= j < i ==> !#[trigger] linked(c, j, i)
}

proof fn lemma_first_held_exists(c: Seq<Collision>, cl: Cluster, s: int)
    requires
        0 <= s < c.len(),
        holds(cl, c[s]),
    ensures
        exists|i: int| 0 <= i <= s && #[trigger] is_first_held(c, cl, i),
    decreases s,
{
    if holds_one_before(c, cl, s) {
        let i = choose|i: int| 0 <= i < s && #[trigger] holds(cl, c[i]);
        lemma_first_held_exists(c, cl, i);
        let f = choose|f: int| 0 <= f <= i && #[trigger] is_first_held(c, cl, f);
        assert(0 <= f <= s && is_first_held(c, cl, f));
    } else {
        assert(is_first_held(c, cl, s));
    }
}

/// In a grouping, the first collision of each cluster is exactly a collision
/// that begins a pileup.
proof fn lemma_first_held_starts_component(c: Seq<Collision>, clusters: Seq<Cluster>, k: int, i: int)
    requires
        is_grouping(c, clusters),
        0 <= k < clusters.len(),
        0 <= i < c.len(),
        holds(clusters[k], c[i]),
    ensures
        is_first_held(c, clusters[k], i) <==> starts_component(c, i),
{
    if is_first_held(c, clusters[k], i) {
        assert forall|j: int| 0 <= j < i implies !#[trigger] linked(c, j, i) by {
            if linked(c, j, i) {
                lemma_linked_symmetric(c, j, i);
                linked_collisions_share_a_cluster(c, clusters, i, j, k);
                assert(holds_one_before(c, clusters[k], i));
            }
        }
    }
    if starts_component(c, i) && holds_one_before(c, clusters[k], i) {
        let j = choose|j: int| 0 <= j < i && #[trigger] holds(clusters[k], c[j]);
        assert(linked(c, j, i));
        assert(!linked(c, j, i));
    }
}

/// The first collision of each cluster, in cluster order.
pub open spec fn first_collisions(c: Seq<Collision>, clusters: Seq<Cluster>) -> Seq<int> {
    Seq::new(clusters.len(), |k: int| choose|i: int| is_first_held(c, clusters[k], i))
}

proof fn lemma_first_collisions(c: Seq<Collision>, clusters: Seq<Cluster>)
    requires
        is_grouping(c, clusters),
    ensures
        forall|k: int|
            0 <= k < clusters.len() ==> is_first_held(
                c,
                clusters[k],
                #[trigger] first_collisions(c, clusters)[k],
            ),
        forall|a: int, b: int|
            0 <= a < b < clusters.len() ==> #[trigger] first_collisions(c, clusters)[a]
                < #[trigger] first_collisions(c, clusters)[b],
        forall|x: int| #[trigger] first_collisions(c, clusters).contains(x) <==> starts_component(c, x),
{
    let f = first_collisions(c, clusters);
    assert forall|k: int| 0 <= k < clusters.len() implies is_first_held(c, clusters[k], #[trigger] f[k]) by {
        let seed = clusters[k].seed as int;
        assert(holds(clusters[k], c[seed]));
        lemma_first_held_exists(c, clusters[k], seed);
    }
    assert forall|a: int, b: int| 0 <= a < b < clusters.len() implies #[trigger] f[a] < #[trigger] f[b] by {
        assert(is_first_held(c, clusters[a], f[a]));
        assert(is_first_held(c, clusters[b], f[b]));
        assert(holds(clusters[b], c[f[b]]));
        assert(holds_one_before(c, clusters[a], f[b]));
        let i = choose|i: int| 0 <= i < f[b] && #[trigger] holds(clusters[a], c[i]);
        if i < f[a] {
            assert(holds_one_before(c, clusters[a], f[a]));
        }
    }
    assert forall|x: int| #[trigger] f.contains(x) <==> starts_component(c, x) by {
        if f.contains(x) {
            let k = choose|k: int| 0 <= k < f.len() && f[k] == x;
            assert(is_first_held(c, clusters[k], f[k]));
            lemma_first_held_starts_component(c, clusters, k, x);
        }
        if starts_component(c, x) {
            assert(in_some_cluster(clusters, c[x]));
            let k = choose|k: int| 0 <= k < clusters.len() && #[trigger] holds(clusters[k], c[x]);
            lemma_first_held_starts_component(c, clusters, k, x);
            assert(is_first_held(c, clusters[k], f[k]));
            if f[k] < x {
                assert(holds_one_before(c, clusters[k], x));
            } else if f[k] > x {
                assert(holds_one_before(c, clusters[k], f[k]));
            }
            assert(f[k] == x);
        }
    }
}

proof fn lemma_ascending_ints_equal(a: Seq<int>, b: Seq<int>)
    requires
        forall|i: int, j: int| 0 <= i < j < a.len() ==> a[i] < a[j],
        forall|i: int, j: int| 0 <= i < j < b.len() ==> b[i] < b[j],
        forall|x: int| a.contains(x) <==> b.contains(x),
    ensures
        a == b,
    decreases a.len() + b.len(),
{
    if a.len() == 0 {
        if b.len() > 0 {
            assert(b.contains(b[0]));
        }
        assert(a =~= b);
    } else {
        assert(a.contains(a[0]));
        assert(b.contains(a[0]));
        assert(b.contains(b[0]));
        assert(a.contains(b[0]));
        let ia = choose|i: int| 0 <= i < a.len() && a[i] == b[0];
        let ib = choose|i: int| 0 <= i < b.len() && b[i] == a[0];
        assert(a[0] == b[0]) by {
            if ia > 0 {
                assert(a[0] < a[ia]);
            }
            if ib > 0 {
                assert(b[0] < b[ib]);
            }
        }
        let a1 = a.drop_first();
        let b1 = b.drop_first();
        assert forall|x: int| a1.contains(x) <==> b1.contains(x) by {
            if a1.contains(x) {
                let i = choose|i: int| 0 <= i < a1.len() && a1[i] == x;
                assert(a[i + 1] == x && a[0] < a[i + 1]);
                assert(a.contains(x));
                let j = choose|j: int| 0 <= j < b.len() && b[j] == x;
                if j == 0 {
                    assert(false);
                }
                assert(b1[j - 1] == x);
            }
            if b1.contains(x) {
                let i = choose|i: int| 0 <= i < b1.len() && b1[i] == x;
                assert(b[i + 1] == x && b[0] < b[i + 1]);
                assert(b.contains(x));
                let j = choose|j: int| 0 <= j < a.len() && a[j] == x;
                if j == 0 {
                    assert(false);
                }
                assert(a1[j - 1] == x);
            }
        }
        lemma_ascending_ints_equal(a1, b1);
        assert(a =~= b) by {
            assert forall|i: int| 0 <= i < a.len() implies a[i] == b[i] by {
                if i > 0 {
                    assert(a[i] == a1[i - 1]);
                    assert(b[i] == b1[i - 1]);
                }
            }
        }
    }
}

proof fn lemma_ascending_ids_equal(a: Seq<u64>, b: Seq<u64>)
    requires
        strictly_ascending(a),
        strictly_ascending(b),
        forall|x: u64| a.contains(x) <==> b.contains(x),
    ensures
        a == b,
{
    let ai = a.map_values(|x: u64| x as int);
    let bi = b.map_values(|x: u64| x as int);
    assert forall|x: int| ai.contains(x) <==> bi.contains(x) by {
        if ai.contains(x) {
            let i = choose|i: int| 0 <= i < ai.len() && ai[i] == x;
            assert(a.contains(a[i]));
            let j = choose|j: int| 0 <= j < b.len() && b[j] == a[i];
            assert(bi[j] == x);
        }
        if bi.contains(x) {
            let i = choose|i: int| 0 <= i < bi.len() && bi[i] == x;
            assert(b.contains(b[i]));
            let j = choose|j: int| 0 <= j < a.len() && a[j] == b[i];
            assert(ai[j] == x);
        }
    }
    lemma_ascending_ints_equal(ai, bi);
    assert(a =~= b) by {
        assert(ai.len() == bi.len());
        assert forall|i: int| 0 <= i < a.len() implies a[i] == b[i] by {
            assert(ai[i] == a[i] as int);
            assert(bi[i] == b[i] as int);
            assert(ai[i] == bi[i]);
        }
    }
}

/// The grouping is determined by the collisions alone: any two groupings of
/// the same collisions have the same clusters, in the same order, naming the
/// same objects, each seeded by an equally early collision. This is what makes
/// a seeded run reproducible.
pub proof fn grouping_is_determined_by_the_collisions(
    c: Seq<Collision>,
    clusters1: Seq<Cluster>,
    clusters2: Seq<Cluster>,
)
    requires
        is_grouping(c, clusters1),
        is_grouping(c, clusters2),
    ensures
        clusters1.len() == clusters2.len(),
        forall|k: int|
            0 <= k < clusters1.len() ==> #[trigger] clusters1[k].parent_ids@ == clusters2[k].parent_ids@,
        forall|k: int|
            0 <= k < clusters1.len() ==> c[#[trigger] clusters1[k].seed as int].fraction_key
                == c[clusters2[k].seed as int].fraction_key,
{
    lemma_first_collisions(c, clusters1);
    lemma_first_collisions(c, clusters2);
    let f1 = first_collisions(c, clusters1);
    let f2 = first_collisions(c, clusters2);
    assert forall|x: int| f1.contains(x) <==> f2.contains(x) by {
        assert(f1.contains(x) <==> starts_component(c, x));
        assert(f2.contains(x) <==> starts_component(c, x));
    }
    assert forall|i: int, j: int| 0 <= i < j < f1.len() implies f1[i] < f1[j] by {
        assert(f1[i] < f1[j]);
    }
    assert forall|i: int, j: int| 0 <= i < j < f2.len() implies f2[i] < f2[j] by {
        assert(f2[i] < f2[j]);
    }
    lemma_ascending_ints_equal(f1, f2);
    assert(f1.len() == clusters1.len() && f2.len() == clusters2.len());
    assert forall|k: int| 0 <= k < clusters1.len() implies #[trigger] clusters1[k].parent_ids@
        == clusters2[k].parent_ids@ && c[clusters1[k].seed as int].fraction_key
        == c[clusters2[k].seed as int].fraction_key by {
        let f = f1[k];
        assert(is_first_held(c, clusters1[k], f1[k]));
        assert(is_first_held(c, clusters2[k], f2[k]));
        assert(f2[k] == f);
        // Both clusters hold exactly the collisions linked to their first one.
        assert forall|j: int| 0 <= j < c.len() implies (holds(clusters1[k], c[j]) <==> holds(
            clusters2[k],
            c[j],
        )) by {
            if holds(clusters1[k], c[j]) {
                assert(linked(c, f, j));
                linked_collisions_share_a_cluster(c, clusters2, f, j, k);
            }
            if holds(clusters2[k], c[j]) {
                assert(linked(c, f, j));
                linked_collisions_share_a_cluster(c, clusters1, f, j, k);
            }
        }
        assert forall|x: u64| clusters1[k].parent_ids@.contains(x) <==> clusters2[k].parent_ids@.contains(
            x,
        ) by {
            lemma_named_object_held(c, clusters1, k, x);
            lemma_named_object_held(c, clusters2, k, x);
        }
        lemma_ascending_ids_equal(clusters1[k].parent_ids@, clusters2[k].parent_ids@);
        let s1 = clusters1[k].seed as int;
        let s2 = clusters2[k].seed as int;
        assert(holds(clusters1[k], c[s1]) && holds(clusters2[k], c[s2]));
    }
}

/// An object named by cluster `k` of a grouping is named by a collision that
/// the cluster holds, and every object of a collision it holds is named by it.
proof fn lemma_named_object_held(c: Seq<Collision>, clusters: Seq<Cluster>, k: int, x: u64)
    requires
        is_grouping(c, clusters),
        0 <= k < clusters.len(),
    ensures
        clusters[k].parent_ids@.contains(x) <==> exists|i: int|
            0 <= i < c.len() && #[trigger] holds(clusters[k], c[i]) && touches(c[i], x),
{
    if clusters[k].parent_ids@.contains(x) {
        let i = choose|i: int| 0 <= i < c.len() && #[trigger] touches(c[i], x);
        assert(in_some_cluster(clusters, c[i]));
        let k2 = choose|k2: int| 0 <= k2 < clusters.len() && #[trigger] holds(clusters[k2], c[i]);
        assert(clusters[k2].parent_ids@.contains(x));
        assert(holds(clusters[k], c[i]));
    }
}

/// There are clusters exactly when there are collisions.
pub proof fn no_collisions_means_no_clusters(c: Seq<Collision>, clusters: Seq<Cluster>)
    requires
        is_grouping(c, clusters),
    ensures
        clusters.len() == 0 <==> c.len() == 0,
{
    if clusters.len() > 0 {
        assert(clusters[0].seed < c.len());
    }
    if c.len() > 0 {
        assert(in_some_cluster(clusters, c[0]));
    }
}

/// Clusters are exactly the connected components of the objects: two objects
/// named by collisions `i` and `j` share a cluster if and only if a chain of
/// collisions, consecutive ones sharing an object, leads from `i` to `j`.
pub proof fn clusters_are_the_connected_components(
    c: Seq<Collision>,
    clusters: Seq<Cluster>,
    i: int,
    j: int,
    x: u64,
    y: u64,
)
    requires
        is_grouping(c, clusters),
        0 <= i < c.len(),
        0 <= j < c.len(),
        touches(c[i], x),
        touches(c[j], y),
    ensures
        (exists|k: int|
            0 <= k < clusters.len() && #[trigger] clusters[k].parent_ids@.contains(x)
                && clusters[k].parent_ids@.contains(y)) <==> linked(c, i, j),
{
    assert(in_some_cluster(clusters, c[i]));
    let ki = choose|k: int| 0 <= k < clusters.len() && #[trigger] holds(clusters[k], c[i]);
    assert(in_some_cluster(clusters, c[j]));
    let kj = choose|k: int| 0 <= k < clusters.len() && #[trigger] holds(clusters[k], c[j]);
    assert(clusters[ki].parent_ids@.contains(x));
    assert(clusters[kj].parent_ids@.contains(y));
    if exists|k: int|
        0 <= k < clusters.len() && #[trigger] clusters[k].parent_ids@.contains(x)
            && clusters[k].parent_ids@.contains(y) {
        let k = choose|k: int|
            0 <= k < clusters.len() && #[trigger] clusters[k].parent_ids@.contains(x)
                && clusters[k].parent_ids@.contains(y);
        assert(k == ki);
        assert(k == kj);
        assert(holds(clusters[k], c[i]) && holds(clusters[k], c[j]));
    }
    if linked(c, i, j) {
        linked_collisions_share_a_cluster(c, clusters, i, j, ki);
        assert(holds(clusters[ki], c[j]));
        assert(clusters[ki].parent_ids@.contains(y));
    }
}

} // verus!
