//! The catalog of every active object, its id counter, and the log of the
//! objects that re-entered.
use vstd::prelude::*;

use crate::simulation::object::{Object, ObjectKind};

verus! {

/// One object removed after descending below the reentry altitude.
///
/// The whole object is kept, not just its id: its mass is what makes the
/// catalog's mass balance checkable once objects can leave (surviving mass plus
/// re-entered mass is conserved, where surviving mass alone no longer is), and
/// its [`ObjectKind`] records whether what came down was debris or an intact
/// satellite.
#[derive(Clone, Copy, Debug, PartialEq)]
pub struct Reentry<B, T> {
    /// The object as it was when it was removed, at the end of the step.
    pub object: Object<B>,
    /// Elapsed simulation time at the end of that step.
    pub elapsed_seconds: T,
}

/// Holds every active debris object / satellite in the simulation, each with
/// its physical state `B`, and the log of re-entries stamped with times `T`.
///
/// The state also owns the catalog's id counter. Uniqueness is a property of
/// the catalog as a whole, and objects join it from two directions — spawning
/// and fragmentation — so one counter living beside the objects is what keeps
/// those paths from issuing the same id twice.
///
/// Ids are never recycled: an object destroyed in a collision leaves its id
/// retired, so an id names one object for the whole run and the parents
/// recorded in a collision stay unambiguous afterwards.
///
/// Objects leave the catalog two ways: destroyed in a collision, or removed
/// after descending below the reentry altitude. The state keeps a log of the
/// latter for the whole run, so a finished run can be asked what came down and
/// when — and so the mass that left the catalog can still be accounted for.
#[derive(Clone, Debug)]
pub struct SimulationState<B, T> {
    objects: Vec<Object<B>>,
    next_id: u64,
    reentries: Vec<Reentry<B, T>>,
}

/// The abstract state of a catalog.
pub struct CatalogView<B, T> {
    pub objects: Seq<Object<B>>,
    pub next_id: u64,
    pub reentries: Seq<Reentry<B, T>>,
}

impl<B, T> View for SimulationState<B, T> {
    type V = CatalogView<B, T>;

    closed spec fn view(&self) -> CatalogView<B, T> {
        CatalogView { objects: self.objects@, next_id: self.next_id, reentries: self.reentries@ }
    }
}

/// The id that comes after `id`, pinned at the ceiling rather than wrapping.
pub open spec fn next_after(id: u64) -> u64 {
    if id == u64::MAX {
        u64::MAX
    } else {
        (id + 1) as u64
    }
}

/// The larger of `a` and `b`.
pub open spec fn larger(a: u64, b: u64) -> u64 {
    if a >= b {
        a
    } else {
        b
    }
}

/// The counter a catalog reaches by reserving, from 0, the id of each object
/// of `objects` in turn.
pub open spec fn id_ceiling<B>(objects: Seq<Object<B>>) -> u64
    decreases objects.len(),
{
    if objects.len() == 0 {
        0
    } else {
        larger(id_ceiling(objects.drop_last()), next_after(objects.last().id))
    }
}

/// No id is carried by two objects of `objects`.
pub open spec fn unique_ids<B>(objects: Seq<Object<B>>) -> bool {
    forall|i: int, j: int|
        0 <= i < j < objects.len() ==> #[trigger] objects[i].id != #[trigger] objects[j].id
}

/// One new object of `kind` per body of `bodies`, numbered from
/// `first_id` in order.
pub open spec fn numbered<B>(first_id: u64, kind: ObjectKind, bodies: Seq<B>) -> Seq<Object<B>> {
    Seq::new(
        bodies.len(),
        |i: int| Object { id: (first_id + i) as u64, kind, body: bodies[i] },
    )
}

/// The objects of `objects` whose ids are not in `ids`, in order.
pub open spec fn without_ids<B>(objects: Seq<Object<B>>, ids: Seq<u64>) -> Seq<Object<B>>
    decreases objects.len(),
{
    if objects.len() == 0 {
        seq![]
    } else {
        let rest = without_ids(objects.drop_last(), ids);
        if ids.contains(objects.last().id) {
            rest
        } else {
            rest.push(objects.last())
        }
    }
}

/// The objects of `objects` whose flag in `flags` is `keep`, in order.
pub open spec fn select<B>(objects: Seq<Object<B>>, flags: Seq<bool>, keep: bool) -> Seq<Object<B>>
    decreases objects.len(),
{
    if objects.len() == 0 {
        seq![]
    } else {
        let rest = select(objects.drop_last(), flags, keep);
        if flags[objects.len() - 1] == keep {
            rest.push(objects.last())
        } else {
            rest
        }
    }
}

/// Each of `objects` logged as re-entered at `stamp`.
pub open spec fn stamped<B, T>(objects: Seq<Object<B>>, stamp: T) -> Seq<Reentry<B, T>> {
    Seq::new(objects.len(), |i: int| Reentry { object: objects[i], elapsed_seconds: stamp })
}

/// Some object of `objects` carries id `id`.
pub open spec fn has_id<B>(objects: Seq<Object<B>>, id: u64) -> bool {
    exists|j: int| 0 <= j < objects.len() && #[trigger] objects[j].id == id
}

/// The last object of `objects` that carries id `id`.
pub open spec fn last_with_id<B>(objects: Seq<Object<B>>, id: u64) -> Object<B> {
    objects[choose|j: int| is_last_with_id(objects, id, j)]
}

/// `j` is the last position of `objects` that holds id `id`.
pub open spec fn is_last_with_id<B>(objects: Seq<Object<B>>, id: u64, j: int) -> bool {
    &&& 0 <= j < objects.len()
    &&& objects[j].id == id
    &&& forall|l: int| j < l < objects.len() ==> #[trigger] objects[l].id != id
}

proof fn lemma_last_with_id<B>(objects: Seq<Object<B>>, id: u64, j: int)
    requires
        is_last_with_id(objects, id, j),
    ensures
        last_with_id(objects, id) == objects[j],
{
    let l = choose|l: int| is_last_with_id(objects, id, l);
    assert(is_last_with_id(objects, id, l));
    if l < j {
        assert(objects[j].id != id);
    } else if l > j {
        assert(objects[l].id != id);
    }
}

proof fn lemma_without_ids_subrange<B>(objects: Seq<Object<B>>, ids: Seq<u64>, i: int)
    requires
        0 <= i < objects.len(),
    ensures
        without_ids(objects.subrange(0, i + 1), ids) == (if ids.contains(objects[i].id) {
            without_ids(objects.subrange(0, i), ids)
        } else {
            without_ids(objects.subrange(0, i), ids).push(objects[i])
        }),
{
    assert(objects.subrange(0, i + 1).drop_last() =~= objects.subrange(0, i));
}

proof fn lemma_select_subrange<B>(objects: Seq<Object<B>>, flags: Seq<bool>, keep: bool, i: int)
    requires
        0 <= i < objects.len(),
    ensures
        select(objects.subrange(0, i + 1), flags, keep) == (if flags[i] == keep {
            select(objects.subrange(0, i), flags, keep).push(objects[i])
        } else {
            select(objects.subrange(0, i), flags, keep)
        }),
{
    assert(objects.subrange(0, i + 1).drop_last() =~= objects.subrange(0, i));
}

/// Each object kept by `without_ids` is an object of `objects` whose id is
/// not in `ids`; distinct ids stay distinct.
proof fn lemma_without_ids_members<B>(objects: Seq<Object<B>>, ids: Seq<u64>)
    ensures
        forall|a: int|
            0 <= a < without_ids(objects, ids).len() ==> objects.contains(
                #[trigger] without_ids(objects, ids)[a],
            ) && !ids.contains(without_ids(objects, ids)[a].id),
        unique_ids(objects) ==> unique_ids(without_ids(objects, ids)),
    decreases objects.len(),
{
    if objects.len() > 0 {
        let front = objects.drop_last();
        lemma_without_ids_members(front, ids);
        let w = without_ids(objects, ids);
        let wf = without_ids(front, ids);
        assert forall|a: int| 0 <= a < w.len() implies objects.contains(#[trigger] w[a])
            && !ids.contains(w[a].id) by {
            if a < wf.len() {
                assert(w[a] == wf[a]);
                assert(front.contains(wf[a]));
                let b = choose|b: int| 0 <= b < front.len() && front[b] == wf[a];
                assert(objects[b] == front[b]);
            } else {
                assert(w[a] == objects[objects.len() - 1]);
            }
        }
        if unique_ids(objects) {
            assert(unique_ids(front)) by {
                assert forall|i: int, j: int| 0 <= i < j < front.len() implies #[trigger] front[i].id
                    != #[trigger] front[j].id by {
                    assert(objects[i] == front[i] && objects[j] == front[j]);
                }
            }
            assert forall|i: int, j: int| 0 <= i < j < w.len() implies #[trigger] w[i].id
                != #[trigger] w[j].id by {
                if j < wf.len() {
                    assert(w[i] == wf[i] && w[j] == wf[j]);
                } else {
                    assert(w[i] == wf[i]);
                    assert(front.contains(wf[i]));
                    let b = choose|b: int| 0 <= b < front.len() && front[b] == wf[i];
                    assert(objects[b] == front[b]);
                    assert(w[j] == objects[objects.len() - 1]);
                }
            }
        }
    }
}

/// Each object selected by `select` is an object of `objects`; distinct ids
/// stay distinct.
proof fn lemma_select_members<B>(objects: Seq<Object<B>>, flags: Seq<bool>, keep: bool)
    ensures
        forall|a: int|
            0 <= a < select(objects, flags, keep).len() ==> objects.contains(
                #[trigger] select(objects, flags, keep)[a],
            ),
        unique_ids(objects) ==> unique_ids(select(objects, flags, keep)),
    decreases objects.len(),
{
    if objects.len() > 0 {
        let front = objects.drop_last();
        lemma_select_members(front, flags, keep);
        if unique_ids(objects) {
            assert(unique_ids(front)) by {
                assert forall|i: int, j: int| 0 <= i < j < front.len() implies #[trigger] front[i].id
                    != #[trigger] front[j].id by {
                    assert(objects[i] == front[i] && objects[j] == front[j]);
                }
            }
            let s = select(objects, flags, keep);
            let sf = select(front, flags, keep);
            assert forall|i: int, j: int| 0 <= i < j < s.len() implies #[trigger] s[i].id
                != #[trigger] s[j].id by {
                assert(s[i] == sf[i]);
                if j < sf.len() {
                    assert(s[j] == sf[j]);
                } else {
                    assert(front.contains(sf[i]));
                    let b = choose|b: int| 0 <= b < front.len() && front[b] == sf[i];
                    assert(objects[b] == front[b]);
                    assert(s[j] == objects[objects.len() - 1]);
                }
            }
        }
        let s = select(objects, flags, keep);
        let sf = select(front, flags, keep);
        assert forall|a: int| 0 <= a < s.len() implies objects.contains(#[trigger] s[a]) by {
            if a < sf.len() {
                assert(s[a] == sf[a]);
                assert(front.contains(sf[a]));
                let b = choose|b: int| 0 <= b < front.len() && front[b] == sf[a];
                assert(objects[b] == front[b]);
            } else {
                assert(s[a] == objects[objects.len() - 1]);
            }
        }
    }
}

impl<B: Copy, T: Copy> SimulationState<B, T> {
    /// The catalog's internal invariant: the counter is past every id in the
    /// catalog, unless it is pinned at the ceiling.
    pub closed spec fn wf(&self) -> bool {
        forall|i: int|
            0 <= i < self.objects@.len() ==> #[trigger] self.objects@[i].id < self.next_id
                || self.next_id == u64::MAX
    }

    /// An empty catalog whose counter starts at 0.
    pub fn new() -> (state: Self)
        ensures
            state.wf(),
            state@.objects == Seq::<Object<B>>::empty(),
            state@.next_id == 0,
            state@.reentries == Seq::<Reentry<B, T>>::empty(),
    {
        SimulationState { objects: Vec::new(), next_id: 0, reentries: Vec::new() }
    }

    /// Add an object, reserving its id against future allocations.
    pub fn push(&mut self, object: Object<B>)
        requires
            old(self).wf(),
        ensures
            final(self).wf(),
            final(self)@.objects == old(self)@.objects.push(object),
            final(self)@.next_id == larger(old(self)@.next_id, next_after(object.id)),
            final(self)@.next_id >= old(self)@.next_id,
            final(self)@.reentries == old(self)@.reentries,
    {
        // `max`, not assignment: an object carrying a lower id must not rewind
        // the counter, or a later allocation would reissue an id already in use.
        let reserved = object.id.saturating_add(1);
        self.next_id = if self.next_id >= reserved {
            self.next_id
        } else {
            reserved
        };
        self.objects.push(object);
    }

    /// Build a catalog from existing objects, advancing the counter past every
    /// id they already carry so later allocations cannot duplicate one.
    pub fn from_objects(objects: Vec<Object<B>>) -> (state: Self)
        ensures
            state.wf(),
            state@.objects == objects@,
            state@.next_id == id_ceiling(objects@),
            state@.reentries == Seq::<Reentry<B, T>>::empty(),
    {
        let mut state = Self::new();
        let mut i: usize = 0;
        while i < objects.len()
            invariant
                0 <= i <= objects.len(),
                state.wf(),
                state@.objects == objects@.subrange(0, i as int),
                state@.next_id == id_ceiling(objects@.subrange(0, i as int)),
                state@.reentries == Seq::<Reentry<B, T>>::empty(),
            decreases objects.len() - i,
        {
            state.push(objects[i]);
            proof {
                let prefix = objects@.subrange(0, i + 1);
                assert(prefix.drop_last() =~= objects@.subrange(0, i as int));
                assert(state@.objects =~= prefix);
            }
            i += 1;
        }
        proof {
            assert(objects@.subrange(0, objects@.len() as int) =~= objects@);
        }
        state
    }

    /// The id the catalog will assign next.
    pub fn next_id(&self) -> (id: u64)
        ensures
            id == self@.next_id,
    {
        self.next_id
    }

    /// Every object that has re-entered so far, in the order they came down.
    pub fn reentries(&self) -> (log: &[Reentry<B, T>])
        ensures
            log@ == self@.reentries,
    {
        self.reentries.as_slice()
    }

    /// Number of objects in the catalog.
    pub fn len(&self) -> (n: usize)
        ensures
            n == self@.objects.len(),
    {
        self.objects.len()
    }

    /// Whether the catalog holds no object.
    pub fn is_empty(&self) -> (empty: bool)
        ensures
            empty == (self@.objects.len() == 0),
    {
        self.objects.len() == 0
    }

    /// The objects of the catalog, in catalog order.
    pub fn iter(&self) -> (objects: std::slice::Iter<'_, Object<B>>)
        ensures
            vstd::std_specs::iter::IteratorSpec::remaining(&objects) == self@.objects.as_ref(),
    {
        broadcast use vstd::std_specs::slice::axiom_spec_slice_iter;
        self.objects.as_slice().iter()
    }

    /// Replace the physical state of the object at `index`, leaving its id and
    /// kind as they are.
    pub fn set_body(&mut self, index: usize, body: B)
        requires
            old(self).wf(),
            index < old(self)@.objects.len(),
        ensures
            final(self).wf(),
            final(self)@.objects == old(self)@.objects.update(
                index as int,
                Object { body, ..old(self)@.objects[index as int] },
            ),
            final(self)@.next_id == old(self)@.next_id,
            final(self)@.reentries == old(self)@.reentries,
    {
        let current = self.objects[index];
        self.objects.set(index, Object { id: current.id, kind: current.kind, body });
    }

    /// Add freshly spawned objects with the bodies `bodies`, assigning them
    /// the next ids of the catalog's counter, in order.
    ///
    /// The counter is deliberately not exposed for mutation on its own: it is
    /// reachable only through methods that also take ownership of the objects
    /// the ids were issued to, so it cannot be advanced — or rewound — by a
    /// caller that never adds anything.
    pub fn spawn(&mut self, bodies: Vec<B>)
        requires
            old(self).wf(),
            old(self)@.next_id + bodies@.len() <= u64::MAX,
        ensures
            final(self).wf(),
            final(self)@.objects == old(self)@.objects + numbered(
                old(self)@.next_id,
                ObjectKind::Intact,
                bodies@,
            ),
            final(self)@.next_id == old(self)@.next_id + bodies@.len(),
            final(self)@.reentries == old(self)@.reentries,
            unique_ids(old(self)@.objects) ==> unique_ids(final(self)@.objects),
    {
        self.add_numbered(bodies, ObjectKind::Intact);
    }

    /// Append one new object of `kind` per body, numbered from the counter.
    fn add_numbered(&mut self, bodies: Vec<B>, kind: ObjectKind)
        requires
            old(self).wf(),
            old(self)@.next_id + bodies@.len() <= u64::MAX,
        ensures
            final(self).wf(),
            final(self)@.objects == old(self)@.objects + numbered(old(self)@.next_id, kind, bodies@),
            final(self)@.next_id == old(self)@.next_id + bodies@.len(),
            final(self)@.reentries == old(self)@.reentries,
            unique_ids(old(self)@.objects) ==> unique_ids(final(self)@.objects),
    {
        let ghost start = self@;
        let mut i: usize = 0;
        while i < bodies.len()
            invariant
                0 <= i <= bodies.len(),
                start.next_id + bodies@.len() <= u64::MAX,
                self.wf(),
                self@.objects == start.objects + numbered(
                    start.next_id,
                    kind,
                    bodies@.subrange(0, i as int),
                ),
                self@.next_id == start.next_id + i,
                self@.reentries == start.reentries,
                forall|j: int| 0 <= j < start.objects.len() ==> #[trigger] start.objects[j].id < start.next_id
                    || start.next_id == u64::MAX,
                unique_ids(start.objects) ==> unique_ids(self@.objects),
            decreases bodies.len() - i,
        {
            let id = self.next_id;
            let ghost before = self@.objects;
            self.push(Object { id, kind, body: bodies[i] });
            proof {
                let new = numbered(start.next_id, kind, bodies@.subrange(0, i + 1));
                assert(new =~= numbered(start.next_id, kind, bodies@.subrange(0, i as int)).push(
                    Object { id, kind, body: bodies@[i as int] },
                ));
                assert(self@.objects =~= start.objects + new);
                if unique_ids(start.objects) {
                    assert forall|a: int, b: int|
                        0 <= a < b < self@.objects.len() implies #[trigger] self@.objects[a].id
                        != #[trigger] self@.objects[b].id by {
                        if b == self@.objects.len() - 1 {
                            if a < start.objects.len() {
                                assert(start.objects[a].id < start.next_id || start.next_id
                                    == u64::MAX);
                                assert(start.next_id < u64::MAX || bodies@.len() == 0);
                            } else {
                                assert(self@.objects[a] == new[a - start.objects.len()]);
                            }
                        } else {
                            assert(self@.objects[a] == before[a]);
                            assert(self@.objects[b] == before[b]);
                        }
                    }
                }
            }
            i += 1;
        }
        proof {
            assert(bodies@.subrange(0, bodies@.len() as int) =~= bodies@);
        }
    }

    /// The objects carrying the ids `ids`, in the order of `ids`. Where two
    /// objects carry the same id, the later one in the catalog is returned.
    pub fn objects_with_ids(&self, ids: &[u64]) -> (found: Vec<Object<B>>)
        requires
            forall|k: int| 0 <= k < ids@.len() ==> has_id(self@.objects, #[trigger] ids@[k]),
        ensures
            found@.len() == ids@.len(),
            forall|k: int|
                0 <= k < ids@.len() ==> #[trigger] found@[k] == last_with_id(self@.objects, ids@[k]),
            forall|k: int| 0 <= k < ids@.len() ==> #[trigger] found@[k].id == ids@[k],
            forall|k: int| 0 <= k < ids@.len() ==> self@.objects.contains(#[trigger] found@[k]),
    {
        let mut found: Vec<Object<B>> = Vec::new();
        let mut k: usize = 0;
        while k < ids.len()
            invariant
                0 <= k <= ids.len(),
                found@.len() == k,
                forall|m: int| 0 <= m < ids@.len() ==> has_id(self@.objects, #[trigger] ids@[m]),
                forall|m: int|
                    0 <= m < k ==> #[trigger] found@[m] == last_with_id(self@.objects, ids@[m]),
                forall|m: int| 0 <= m < k ==> #[trigger] found@[m].id == ids@[m],
                forall|m: int| 0 <= m < k ==> self@.objects.contains(#[trigger] found@[m]),
            decreases ids.len() - k,
        {
            let id = ids[k];
            assert(has_id(self@.objects, ids@[k as int]));
            let j = self.last_index_with_id(id);
            let ghost prev = found@;
            found.push(self.objects[j]);
            proof {
                lemma_last_with_id(self@.objects, id, j as int);
                assert forall|m: int|
                    0 <= m < k + 1 implies #[trigger] found@[m] == last_with_id(self@.objects, ids@[m]) by {
                    if m < k {
                        assert(found@[m] == prev[m]);
                    }
                }
                assert(found@[k as int] == self@.objects[j as int]);
                assert forall|m: int| 0 <= m < k + 1 implies #[trigger] found@[m].id == ids@[m]
                    && self@.objects.contains(found@[m]) by {
                    if m < k {
                        assert(found@[m] == prev[m]);
                    }
                }
            }
            k += 1;
        }
        found
    }

    /// Position of the last object carrying `id`.
    fn last_index_with_id(&self, id: u64) -> (j: usize)
        requires
            has_id(self@.objects, id),
        ensures
            is_last_with_id(self@.objects, id, j as int),
            j < self@.objects.len(),
            self@.objects[j as int].id == id,
            forall|l: int| j < l < self@.objects.len() ==> self@.objects[l].id != id,
    {
        let mut j = self.objects.len();
        while j > 0
            invariant
                j <= self.objects@.len(),
                self@.objects == self.objects@,
                exists|l: int| 0 <= l < j && #[trigger] self.objects@[l].id == id,
                forall|l: int| j <= l < self.objects@.len() ==> #[trigger] self.objects@[l].id != id,
            decreases j,
        {
            if self.objects[j - 1].id == id {
                return j - 1;
            }
            j -= 1;
        }
        j
    }

    /// Remove every object whose id is in `destroyed`, then add one fragment
    /// per body of `fragments`, numbered in order from the catalog's counter.
    /// Returns how many fragments were added.
    pub fn replace_with_fragments(&mut self, destroyed: &[u64], fragments: Vec<B>) -> (created: usize)
        requires
            old(self).wf(),
            old(self)@.next_id + fragments@.len() <= u64::MAX,
        ensures
            final(self).wf(),
            created == fragments@.len(),
            final(self)@.objects == without_ids(old(self)@.objects, destroyed@) + numbered(
                old(self)@.next_id,
                ObjectKind::Fragment,
                fragments@,
            ),
            final(self)@.next_id == old(self)@.next_id + fragments@.len(),
            final(self)@.reentries == old(self)@.reentries,
            unique_ids(old(self)@.objects) ==> unique_ids(final(self)@.objects),
    {
        let ghost start = self@;
        let mut kept: Vec<Object<B>> = Vec::new();
        let mut i: usize = 0;
        while i < self.objects.len()
            invariant
                0 <= i <= self.objects@.len(),
                self@ == start,
                self.objects@ == start.objects,
                kept@ == without_ids(start.objects.subrange(0, i as int), destroyed@),
            decreases self.objects@.len() - i,
        {
            let object = self.objects[i];
            proof {
                lemma_without_ids_subrange(start.objects, destroyed@, i as int);
            }
            if !contains_id(destroyed, object.id) {
                kept.push(object);
            }
            i += 1;
        }
        proof {
            assert(start.objects.subrange(0, start.objects.len() as int) =~= start.objects);
            lemma_without_ids_members(start.objects, destroyed@);
        }
        self.objects = kept;
        let created = fragments.len();
        self.add_numbered(fragments, ObjectKind::Fragment);
        created
    }

    /// Remove every object flagged in `reentered` (one flag per object, in
    /// catalog order), logging each as having come down at `elapsed_seconds`.
    /// Returns this sweep's reentries, in catalog order.
    pub fn remove_reentered_objects(&mut self, reentered: &[bool], elapsed_seconds: T) -> (swept: Vec<
        Reentry<B, T>,
    >)
        requires
            old(self).wf(),
            reentered@.len() == old(self)@.objects.len(),
        ensures
            final(self).wf(),
            final(self)@.objects == select(old(self)@.objects, reentered@, false),
            swept@ == stamped(select(old(self)@.objects, reentered@, true), elapsed_seconds),
            final(self)@.reentries == old(self)@.reentries + swept@,
            final(self)@.next_id == old(self)@.next_id,
            unique_ids(old(self)@.objects) ==> unique_ids(final(self)@.objects),
    {
        let ghost start = self@;
        let mut kept: Vec<Object<B>> = Vec::new();
        let mut swept: Vec<Reentry<B, T>> = Vec::new();
        let mut i: usize = 0;
        while i < self.objects.len()
            invariant
                0 <= i <= self.objects@.len(),
                reentered@.len() == start.objects.len(),
                self@ == start,
                self.objects@ == start.objects,
                kept@ == select(start.objects.subrange(0, i as int), reentered@, false),
                swept@ == stamped(
                    select(start.objects.subrange(0, i as int), reentered@, true),
                    elapsed_seconds,
                ),
            decreases self.objects@.len() - i,
        {
            let object = self.objects[i];
            proof {
                lemma_select_subrange(start.objects, reentered@, false, i as int);
                lemma_select_subrange(start.objects, reentered@, true, i as int);
            }
            if reentered[i] {
                swept.push(Reentry { object, elapsed_seconds });
            } else {
                kept.push(object);
            }
            proof {
                let sel = select(start.objects.subrange(0, i + 1), reentered@, true);
                assert(swept@ =~= stamped(sel, elapsed_seconds));
            }
            i += 1;
        }
        proof {
            assert(start.objects.subrange(0, start.objects.len() as int) =~= start.objects);
            lemma_select_members(start.objects, reentered@, false);
        }
        self.objects = kept;
        // Append this sweep to the run log, in the order the objects came down.
        let mut k: usize = 0;
        while k < swept.len()
            invariant
                0 <= k <= swept@.len(),
                self.objects@ == kept@,
                self.next_id == start.next_id,
                self.reentries@ == start.reentries + swept@.subrange(0, k as int),
            decreases swept@.len() - k,
        {
            self.reentries.push(swept[k]);
            proof {
                assert(swept@.subrange(0, k + 1) =~= swept@.subrange(0, k as int).push(swept@[k as int]));
            }
            k += 1;
        }
        proof {
            assert(swept@.subrange(0, swept@.len() as int) =~= swept@);
            assert forall|a: int| 0 <= a < kept@.len() implies #[trigger] kept@[a].id < start.next_id
                || start.next_id == u64::MAX by {
                assert(start.objects.contains(kept@[a]));
                let b = choose|b: int| 0 <= b < start.objects.len() && start.objects[b] == kept@[a];
            }
        }
        swept
    }
}

/// Looking up an id that the catalog holds finds an object of the catalog
/// carrying exactly that id, and no later object of the catalog carries it.
pub proof fn lookup_finds_the_last_object_with_the_id<B>(objects: Seq<Object<B>>, id: u64)
    requires
        exists|j: int| 0 <= j < objects.len() && #[trigger] objects[j].id == id,
    ensures
        last_with_id(objects, id).id == id,
        objects.contains(last_with_id(objects, id)),
        exists|j: int|
            0 <= j < objects.len() && objects[j] == last_with_id(objects, id) && forall|l: int|
                j < l < objects.len() ==> #[trigger] objects[l].id != id,
    decreases objects.len(),
{
    let n = objects.len();
    if objects[n - 1].id == id {
        assert(is_last_with_id(objects, id, n - 1));
        lemma_last_with_id(objects, id, n - 1);
    } else {
        let front = objects.drop_last();
        let w = choose|j: int| 0 <= j < n && #[trigger] objects[j].id == id;
        assert(front[w].id == id);
        lookup_finds_the_last_object_with_the_id(front, id);
        let j = choose|j: int|
            0 <= j < front.len() && front[j] == last_with_id(front, id) && forall|l: int|
                j < l < front.len() ==> #[trigger] front[l].id != id;
        assert(front[j].id == id);
        assert forall|l: int| j < l < n implies #[trigger] objects[l].id != id by {
            if l < n - 1 {
                assert(objects[l] == front[l]);
            }
        }
        assert(is_last_with_id(objects, id, j));
        lemma_last_with_id(objects, id, j);
    }
}

/// Ids are never recycled: every id in the catalog is below the id the
/// catalog will issue next, unless the counter is pinned at the largest id. So
/// the next id is never one already in use, and ids issued later (spawned
/// objects, fragments) never reuse one a parent held.
pub proof fn next_id_is_past_every_id_in_the_catalog<B: Copy, T: Copy>(state: SimulationState<B, T>)
    requires
        state.wf(),
    ensures
        forall|i: int|
            0 <= i < state@.objects.len() ==> #[trigger] state@.objects[i].id < state@.next_id
                || state@.next_id == u64::MAX,
{
    assert forall|i: int| 0 <= i < state@.objects.len() implies #[trigger] state@.objects[i].id
        < state@.next_id || state@.next_id == u64::MAX by {
        assert(state.objects@[i].id < state.next_id || state.next_id == u64::MAX);
    }
}

/// The counter `from_objects` reaches is the largest id+1 (saturating) over
/// the objects, or 0 when there are none.
pub proof fn id_ceiling_is_the_largest_reservation<B>(objects: Seq<Object<B>>)
    ensures
        forall|i: int|
            0 <= i < objects.len() ==> next_after(#[trigger] objects[i].id) <= id_ceiling(objects),
        objects.len() == 0 ==> id_ceiling(objects) == 0,
        objects.len() > 0 ==> exists|i: int|
            0 <= i < objects.len() && id_ceiling(objects) == next_after(#[trigger] objects[i].id),
    decreases objects.len(),
{
    if objects.len() > 0 {
        let front = objects.drop_last();
        id_ceiling_is_the_largest_reservation(front);
        let last = objects.len() - 1;
        assert forall|i: int|
            0 <= i < objects.len() implies next_after(#[trigger] objects[i].id) <= id_ceiling(objects) by {
            if i < last {
                assert(objects[i] == front[i]);
            }
        }
        if id_ceiling(objects) == next_after(objects[last].id) {
            assert(id_ceiling(objects) == next_after(objects[last].id));
        } else {
            let i = choose|i: int| 0 <= i < front.len() && id_ceiling(front) == next_after(#[trigger] front[i].id);
            assert(objects[i] == front[i]);
        }
    }
}

/// Reserving never moves the counter backwards, and once an id has been
/// reserved the counter is past it (or pinned at the ceiling).
pub proof fn reserving_an_id_never_rewinds(counter: u64, id: u64)
    ensures
        larger(counter, next_after(id)) >= counter,
        id < larger(counter, next_after(id)) || larger(counter, next_after(id)) == u64::MAX,
        larger(counter, next_after(id)) != 0,
{
}

/// A reentry sweep loses no object: what stays in the catalog and what is
/// logged as re-entered together make up exactly the catalog before the sweep.
pub proof fn reentry_sweep_conserves_objects<B>(objects: Seq<Object<B>>, reentered: Seq<bool>)
    ensures
        select(objects, reentered, false).to_multiset().add(
            select(objects, reentered, true).to_multiset(),
        ) =~= objects.to_multiset(),
    decreases objects.len(),
{
    broadcast use vstd::seq_lib::group_to_multiset_ensures;
    if objects.len() > 0 {
        let front = objects.drop_last();
        reentry_sweep_conserves_objects(front, reentered);
        assert(objects =~= front.push(objects.last()));
    } else {
        assert(select(objects, reentered, false) =~= Seq::<Object<B>>::empty());
        assert(select(objects, reentered, true) =~= Seq::<Object<B>>::empty());
    }
}

/// No object whose id was destroyed in a breakup is left among the survivors.
pub proof fn destroyed_objects_leave_the_catalog<B>(objects: Seq<Object<B>>, destroyed: Seq<u64>)
    ensures
        forall|a: int|
            0 <= a < without_ids(objects, destroyed).len() ==> !destroyed.contains(
                #[trigger] without_ids(objects, destroyed)[a].id,
            ),
{
    lemma_without_ids_members(objects, destroyed);
    assert forall|a: int| 0 <= a < without_ids(objects, destroyed).len() implies !destroyed.contains(
        #[trigger] without_ids(objects, destroyed)[a].id,
    ) by {
        assert(objects.contains(without_ids(objects, destroyed)[a]));
    }
}

/// Whether `ids` holds `id`.
fn contains_id(ids: &[u64], id: u64) -> (found: bool)
    ensures
        found == ids@.contains(id),
{
    let mut i: usize = 0;
    while i < ids.len()
        invariant
            0 <= i <= ids.len(),
            forall|j: int| 0 <= j < i ==> ids@[j] != id,
        decreases ids.len() - i,
    {
        if ids[i] == id {
            assert(ids@[i as int] == id);
            return true;
        }
        i += 1;
    }
    false
}

} // verus!
