//! Bookkeeping core of an orbital-debris cascade simulation: which collisions
//! break up together, and how the object catalog and its id counter evolve as
//! objects are spawned, destroyed, replaced by fragments and re-enter.
pub mod simulation;
