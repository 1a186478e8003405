//! Labels: what the search remembers of a partial path.

use crate::visited::{bitset_clone, members};
use bit_set::BitSet;
use vstd::prelude::*;

verus! {

/// The model of a label: a partial path from the start depot, summed up by its
/// endpoint and the resources it has used.
pub struct LabelView {
    /// The label's number in its search.
    pub id: int,
    /// The node at which the partial path ends.
    pub node: usize,
    /// The travel time summed along the path.
    pub cost: int,
    /// The reduced cost of the path, in units of `1 / RCOST_SCALE`.
    pub rcost: int,
    /// The demand summed over the nodes entered.
    pub demand: int,
    /// The earliest start of service at `node`.
    pub etime: int,
    /// The nodes entered so far.
    pub visited: Set<int>,
}

/// A partial path ending at `last_node`, with the resources it has used.
#[derive(Debug)]
pub struct Label {
    pub id: usize,
    pub last_node: usize,
    pub cost: usize,
    pub reduced_cost: i128,
    pub demand: usize,
    pub earliest_time: usize,
    pub visited: BitSet,
}

impl View for Label {
    type V = LabelView;

    open spec fn view(&self) -> LabelView {
        LabelView {
            id: self.id as int,
            node: self.last_node,
            cost: self.cost as int,
            rcost: self.reduced_cost as int,
            demand: self.demand as int,
            etime: self.earliest_time as int,
            visited: members(self.visited),
        }
    }
}

/// The models of a list of labels.
pub open spec fn label_views(labels: Seq<Label>) -> Seq<LabelView> {
    labels.map_values(|label: Label| label@)
}

impl Label {
    /// A label with the given fields.
    pub fn new(
        id: usize,
        last_node: usize,
        cost: usize,
        reduced_cost: i128,
        demand: usize,
        earliest_time: usize,
        visited: BitSet,
    ) -> (label: Label)
        ensures
            label.id == id,
            label.last_node == last_node,
            label.cost == cost,
            label.reduced_cost == reduced_cost,
            label.demand == demand,
            label.earliest_time == earliest_time,
            label.visited == visited,
    {
        Label { id, last_node, cost, reduced_cost, demand, earliest_time, visited }
    }
}

impl Clone for Label {
    /// A second label with the same model.
    fn clone(&self) -> (copy: Label)
        ensures
            copy@ == self@,
    {
        Label {
            id: self.id,
            last_node: self.last_node,
            cost: self.cost,
            reduced_cost: self.reduced_cost,
            demand: self.demand,
            earliest_time: self.earliest_time,
            visited: bitset_clone(&self.visited),
        }
    }
}

} // verus!
