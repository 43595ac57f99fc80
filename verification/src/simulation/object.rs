use vstd::prelude::*;

verus! {

/// Whether an object is an intact satellite/body or a fragment produced
/// by a collision.
#[derive(Clone, Copy, Debug, PartialEq, Eq, Structural)]
pub enum ObjectKind {
    Intact,
    Fragment,
}

/// A single object in the catalog: the id and kind that the catalog's
/// bookkeeping reads, and the physical state `B` (position, velocity, size,
/// mass) that it carries along without inspecting.
#[derive(Clone, Copy, Debug, PartialEq)]
pub struct Object<B> {
    pub id: u64,
    pub kind: ObjectKind,
    pub body: B,
}

impl<B> Object<B> {
    pub fn new(id: u64, kind: ObjectKind, body: B) -> (object: Self)
        ensures
            object == (Object { id, kind, body }),
    {
        Object { id, kind, body }
    }
}

/// Issue the id held by `counter` and advance the counter past it, so that
/// objects created one after another carry unique, consecutive ids.
pub fn take_id(counter: &mut u64) -> (id: u64)
    requires
        *old(counter) < u64::MAX,
    ensures
        id == *old(counter),
        *final(counter) == id + 1,
{
    let id = *counter;
    *counter += 1;
    id
}

} // verus!
