//! The bounds on how many fragments one breakup produces.
use vstd::prelude::*;

verus! {

/// `count` brought within `[min_fragments, max_fragments]`.
pub open spec fn clamped(count: usize, min_fragments: usize, max_fragments: usize) -> usize {
    if count < min_fragments {
        min_fragments
    } else if count > max_fragments {
        max_fragments
    } else {
        count
    }
}

/// Bound the number of fragments the energy power law asked for by the
/// configured minimum and maximum: a breakup always yields at least
/// `min_fragments` (so its parents are always replaced) and never more than
/// `max_fragments` (which keeps the catalog, and the all-pairs scan, bounded).
pub fn clamp_fragment_count(count: usize, min_fragments: usize, max_fragments: usize) -> (n: usize)
    requires
        min_fragments <= max_fragments,
    ensures
        n == clamped(count, min_fragments, max_fragments),
        min_fragments <= n <= max_fragments,
        min_fragments <= count <= max_fragments ==> n == count,
        count < min_fragments ==> n == min_fragments,
        count > max_fragments ==> n == max_fragments,
{
    if count < min_fragments {
        min_fragments
    } else if count > max_fragments {
        max_fragments
    } else {
        count
    }
}

/// Clamping keeps a count that is already within the bounds, and moves a count
/// outside them only to the nearest bound: `min_fragments` for a count below
/// it and `max_fragments` for a count above it.
pub proof fn clamping_moves_only_counts_outside_the_bounds(
    count: usize,
    min_fragments: usize,
    max_fragments: usize,
)
    requires
        min_fragments <= max_fragments,
    ensures
        min_fragments <= count <= max_fragments ==> clamped(count, min_fragments, max_fragments)
            == count,
        count < min_fragments ==> clamped(count, min_fragments, max_fragments) == min_fragments,
        count > max_fragments ==> clamped(count, min_fragments, max_fragments) == max_fragments,
{
}

} // verus!
