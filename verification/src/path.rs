//! Partial paths from the start depot: which of them the search may follow,
//! and the label that sums one up.

use crate::extension::{extend, feasible, initial_label, lemma_extend_sound, sound};
use crate::instance::Instance;
use crate::label::LabelView;
use vstd::prelude::*;

verus! {

/// The label numbered `id` that sums up `path`: the initial label for the
/// start depot alone, and one extension for each further node.
pub open spec fn label_of(inst: Instance, duals: Map<usize, i64>, path: Seq<usize>, id: int) -> LabelView
    decreases path.len(),
{
    if path.len() <= 1 {
        LabelView { id, ..initial_label(inst) }
    } else {
        let before = path.drop_last();
        extend(
            inst,
            label_of(inst, duals, before, 0),
            path.last(),
            duals[before.last()] as int,
            id,
        )
    }
}

/// Whether the search may follow `path`: it starts at the start depot, and
/// each further node is an out-neighbour of the node before it, not entered
/// earlier on the path, reached over an arc that is not forbidden, from a node
/// that has a dual price, with a feasible label.
pub open spec fn valid_path(
    inst: Instance,
    duals: Map<usize, i64>,
    forb: Set<(usize, usize)>,
    path: Seq<usize>,
) -> bool
    decreases path.len(),
{
    if path.len() == 0 {
        false
    } else if path.len() == 1 {
        path[0] == inst.start
    } else {
        let before = path.drop_last();
        let parent = label_of(inst, duals, before, 0);
        let v = path.last();
        &&& valid_path(inst, duals, forb, before)
        &&& inst.out(before.last() as int).contains(v)
        &&& !parent.visited.contains(v as int)
        &&& !forb.contains((before.last(), v))
        &&& duals.contains_key(before.last())
        &&& feasible(inst, extend(inst, parent, v, duals[before.last()] as int, 0))
    }
}

/// The number of a label does not enter into what it sums up.
pub proof fn lemma_label_of_id(inst: Instance, duals: Map<usize, i64>, path: Seq<usize>, id: int)
    ensures
        label_of(inst, duals, path, id) == (LabelView { id, ..label_of(inst, duals, path, 0) }),
{
}

/// An out-neighbour of a node is a node.
pub proof fn lemma_out_is_node(inst: Instance, u: usize, v: usize)
    requires
        inst.wf(),
        u < inst.n(),
        inst.out(u as int).contains(v),
    ensures
        v < inst.n(),
{
    let k = choose|k: int| 0 <= k < inst.out(u as int).len() && inst.out(u as int)[k] == v;
    assert(inst.out(u as int)[k] < inst.n());
}

/// The label of a path that the search may follow is sound and ends where the path ends.
pub proof fn lemma_valid_path_label(
    inst: Instance,
    duals: Map<usize, i64>,
    forb: Set<(usize, usize)>,
    path: Seq<usize>,
    id: int,
)
    requires
        inst.wf(),
        valid_path(inst, duals, forb, path),
    ensures
        sound(inst, label_of(inst, duals, path, id)),
        label_of(inst, duals, path, id).node == path.last(),
        label_of(inst, duals, path, id).id == id,
        label_of(inst, duals, path, id).visited.len() == path.len() - 1,
    decreases path.len(),
{
    if path.len() > 1 {
        let before = path.drop_last();
        lemma_valid_path_label(inst, duals, forb, before, 0);
        lemma_out_is_node(inst, before.last(), path.last());
        lemma_extend_sound(
            inst,
            label_of(inst, duals, before, 0),
            path.last(),
            duals[before.last()],
            id,
        );
    }
}

} // verus!
