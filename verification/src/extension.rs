//! Resource extension: the label of a path that goes one arc further, and
//! whether that label is feasible.

use crate::error::PricingError;
use crate::instance::{Instance, Pricer, MAX_NODES};
use crate::label::{Label, LabelView};
use crate::visited::{bitset_clone, bitset_insert};
use std::collections::BTreeMap;
use vstd::prelude::*;

verus! {

/// Reduced costs are whole numbers of units; one unit of travel time is this many.
pub const RCOST_SCALE: i128 = 1_000_000_000;

/// A path is priced out only if its reduced cost lies below minus this many
/// units, a millionth of one unit of travel time.
pub const RCOST_EPSILON: i128 = 1_000;

/// No dual price is further from zero than this many units.
pub const DUAL_SPAN: i128 = 0x8000_0000_0000_0000;

/// The later of two times.
pub open spec fn later(a: int, b: int) -> int {
    if a >= b {
        a
    } else {
        b
    }
}

/// The label numbered `id` of the path that follows `parent`'s path and then
/// the arc to `v`, where `dual` is the price of leaving `parent`'s node.
pub open spec fn extend(inst: Instance, parent: LabelView, v: usize, dual: int, id: int) -> LabelView {
    let d = inst.drive[parent.node as int][v as int];
    LabelView {
        id,
        node: v,
        cost: parent.cost + d,
        rcost: parent.rcost + RCOST_SCALE * d - dual,
        demand: parent.demand + inst.demands[v as int],
        etime: later(
            parent.etime + inst.service[parent.node as int] + d,
            inst.windows[v as int].0 as int,
        ),
        visited: parent.visited.insert(v as int),
    }
}

/// Whether service at the label's node can still start inside its window, and
/// the vehicle can carry what the path has loaded.
pub open spec fn feasible(inst: Instance, label: LabelView) -> bool {
    label.etime <= inst.windows[label.node as int].1 && label.demand <= inst.capacity
}

/// Whether a label's numbers fit the machine integers that hold them.
pub open spec fn representable(label: LabelView) -> bool {
    &&& 0 <= label.id <= usize::MAX
    &&& 0 <= label.cost <= usize::MAX
    &&& i128::MIN <= label.rcost <= i128::MAX
    &&& 0 <= label.demand <= usize::MAX
    &&& 0 <= label.etime <= usize::MAX
}

/// The label with which every search starts: the start depot, reached at the
/// opening of its window, with nothing driven, loaded or entered.
pub open spec fn initial_label(inst: Instance) -> LabelView {
    LabelView {
        id: 0,
        node: inst.start,
        cost: 0,
        rcost: 0,
        demand: 0,
        etime: inst.windows[inst.start as int].0 as int,
        visited: Set::empty(),
    }
}

/// What holds of the label of every partial path: it ends at a node, has
/// entered finitely many nodes, has driven no longer than the time that has
/// passed, and its reduced cost is no further from the scaled travel time than
/// one dual for each node entered.
pub open spec fn sound(inst: Instance, label: LabelView) -> bool {
    &&& label.node < inst.n()
    &&& label.visited.finite()
    &&& forall|x: int| label.visited.contains(x) ==> 0 <= x < inst.n()
    &&& 0 <= label.cost <= label.etime
    &&& 0 <= label.demand
    &&& RCOST_SCALE * label.cost - label.visited.len() * DUAL_SPAN <= label.rcost
    &&& label.rcost <= RCOST_SCALE * label.cost + label.visited.len() * DUAL_SPAN
}

/// A sound label has entered at most as many nodes as the instance has.
pub proof fn lemma_visited_count(inst: Instance, label: LabelView)
    requires
        sound(inst, label),
    ensures
        label.visited.len() <= inst.n(),
{
    let all = vstd::set_lib::set_int_range(0, inst.n());
    vstd::set_lib::lemma_int_range(0, inst.n());
    assert(label.visited.subset_of(all));
    vstd::set_lib::lemma_len_subset(label.visited, all);
}

/// Extending a sound label to a node that it has not entered gives a sound label.
pub proof fn lemma_extend_sound(inst: Instance, parent: LabelView, v: usize, dual: i64, id: int)
    requires
        inst.wf(),
        sound(inst, parent),
        v < inst.n(),
        !parent.visited.contains(v as int),
    ensures
        sound(inst, extend(inst, parent, v, dual as int, id)),
        extend(inst, parent, v, dual as int, id).visited.len() == parent.visited.len() + 1,
{
    let child = extend(inst, parent, v, dual as int, id);
    assert(inst.drive[parent.node as int].len() == inst.n());
    assert(child.visited.len() == parent.visited.len() + 1);
    assert(-DUAL_SPAN <= dual < DUAL_SPAN);
    assert(RCOST_SCALE * child.cost == RCOST_SCALE * parent.cost + RCOST_SCALE * (
    inst.drive[parent.node as int][v as int] as int)) by (nonlinear_arith)
        requires
            child.cost == parent.cost + inst.drive[parent.node as int][v as int],
    ;
    assert(child.visited.len() * DUAL_SPAN == parent.visited.len() * DUAL_SPAN + DUAL_SPAN)
        by (nonlinear_arith)
        requires
            child.visited.len() == parent.visited.len() + 1,
    ;
}

impl Pricer {
    /// Extends `label` along the arc to `neighbor` and numbers the child `id`.
    /// The price of leaving `label`'s node is taken from `duals`; where they
    /// hold none, the answer is `MissingDual` of that node.
    pub fn expand_label(
        &self,
        label: &Label,
        neighbor: usize,
        duals: &BTreeMap<usize, i64>,
        id: usize,
    ) -> (expanded: Result<Label, PricingError>)
        requires
            label@.node < self@.n(),
            neighbor < self@.n(),
            duals@.contains_key(label.last_node) ==> representable(
                extend(self@, label@, neighbor, duals@[label.last_node] as int, id as int),
            ),
        ensures
            match expanded {
                Ok(child) => {
                    &&& duals@.contains_key(label.last_node)
                    &&& child@ == extend(
                        self@,
                        label@,
                        neighbor,
                        duals@[label.last_node] as int,
                        id as int,
                    )
                },
                Err(e) => {
                    &&& !duals@.contains_key(label.last_node)
                    &&& e == PricingError::MissingDual(label.last_node)
                },
            },
    {
        let last_node = label.last_node;
        let dual: i64 = match duals.get(&last_node) {
            Some(price) => *price,
            None => {
                return Err(PricingError::MissingDual(last_node));
            },
        };
        let distance = self.drive(last_node, neighbor);
        let arrival = label.earliest_time + self.service(last_node) + distance;
        let opening = self.window(neighbor).0;
        let next_earliest_time = if arrival >= opening {
            arrival
        } else {
            opening
        };
        let cost = label.cost + distance;
        let reduced_cost = label.reduced_cost + (RCOST_SCALE * (distance as i128) - (dual as i128));
        let accumulated_demand = label.demand + self.demand(neighbor);
        proof {
            use_type_invariant(self);
        }
        let mut visited = bitset_clone(&label.visited);
        bitset_insert(&mut visited, neighbor);
        Ok(
            Label::new(
                id,
                neighbor,
                cost,
                reduced_cost,
                accumulated_demand,
                next_earliest_time,
                visited,
            ),
        )
    }

    /// Extends `label` along the arc to `neighbor`, as [`Pricer::expand_label`]
    /// does, and keeps the child only if it is feasible. Sums that leave the
    /// machine integers belong to infeasible children.
    pub fn feasible_extension(
        &self,
        label: &Label,
        neighbor: usize,
        duals: &BTreeMap<usize, i64>,
        id: usize,
    ) -> (extended: Result<Option<Label>, PricingError>)
        requires
            sound(self@, label@),
            neighbor < self@.n(),
        ensures
            match extended {
                Ok(Some(child)) => {
                    &&& duals@.contains_key(label.last_node)
                    &&& child@ == extend(
                        self@,
                        label@,
                        neighbor,
                        duals@[label.last_node] as int,
                        id as int,
                    )
                    &&& feasible(self@, child@)
                },
                Ok(None) => {
                    &&& duals@.contains_key(label.last_node)
                    &&& !feasible(
                        self@,
                        extend(self@, label@, neighbor, duals@[label.last_node] as int, id as int),
                    )
                },
                Err(e) => {
                    &&& !duals@.contains_key(label.last_node)
                    &&& e == PricingError::MissingDual(label.last_node)
                },
            },
    {
        let last_node = label.last_node;
        if !duals.contains_key(&last_node) {
            return Err(PricingError::MissingDual(last_node));
        }
        let distance = self.drive(last_node, neighbor);
        let departure = match label.earliest_time.checked_add(self.service(last_node)) {
            Some(time) => time,
            None => {
                return Ok(None);
            },
        };
        if departure.checked_add(distance).is_none() {
            return Ok(None);
        }
        if label.demand.checked_add(self.demand(neighbor)).is_none() {
            return Ok(None);
        }
        proof {
            use_type_invariant(self);
            lemma_visited_count(self@, label@);
            assert(label@.visited.len() * DUAL_SPAN <= MAX_NODES * DUAL_SPAN) by (nonlinear_arith)
                requires
                    label@.visited.len() <= MAX_NODES,
            ;
        }
        let child = self.expand_label(label, neighbor, duals, id)?;
        if self.is_feasible(&child) {
            Ok(Some(child))
        } else {
            Ok(None)
        }
    }

    /// Whether `label` is feasible at its node.
    pub fn is_feasible(&self, label: &Label) -> (ok: bool)
        requires
            label@.node < self@.n(),
        ensures
            ok == feasible(self@, label@),
    {
        label.earliest_time <= self.window(label.last_node).1 && label.demand <= self.capacity()
    }
}

} // verus!
