//! The arcs that a search must not follow.

use std::collections::BTreeSet;
use vstd::prelude::*;

verus! {

/// Whether the arc from `u` to `v` is among the forbidden ones.
pub fn is_forbidden(forbidden_arcs: &BTreeSet<(usize, usize)>, u: usize, v: usize) -> (yes: bool)
    ensures
        yes == forbidden_arcs@.contains((u, v)),
{
    let arc = (u, v);
    forbidden_arcs.contains(&arc)
}

} // verus!
