//! The label-setting search as a mathematical model: its state, one step of
//! it, and the state after any number of steps.

use crate::dominance::dominates;
use crate::error::PricingError;
use crate::extension::{extend, feasible, initial_label};
use crate::instance::Instance;
use crate::label::LabelView;
use crate::queue::numbered;
use vstd::prelude::*;

verus! {

/// Where a label stands in its life.
#[derive(Debug, Clone, Copy, PartialEq, Eq, Structural)]
pub enum Stage {
    /// In the frontier of its node, waiting to be expanded.
    Queued,
    /// In the frontier of its node, its successors explored.
    Expanded,
    /// Taken out of frontier, queue and predecessor map by a label that dominates it.
    Removed,
}

/// The state of a search. Label `j` is `labels[j]`; it sums up the path
/// `paths[j]`, and `pred[j]` is the label it was extended from, as long as the
/// predecessor map holds an entry for it.
pub struct SearchView {
    pub labels: Seq<LabelView>,
    pub pred: Seq<Option<int>>,
    pub stage: Seq<Stage>,
    pub paths: Seq<Seq<usize>>,
}

impl SearchView {
    /// Whether label `j` waits in the expansion queue.
    pub open spec fn queued(self, j: int) -> bool {
        0 <= j < self.labels.len() && self.stage[j] == Stage::Queued
    }

    /// Whether label `j` is in the frontier of node `v`, unprocessed or processed.
    pub open spec fn live_at(self, v: usize, j: int) -> bool {
        0 <= j < self.labels.len() && self.stage[j] != Stage::Removed && self.labels[j].node == v
    }

    /// Whether every label carries its place among the labels as its number.
    pub open spec fn numbered(self) -> bool {
        numbered(self.labels)
    }

    /// Whether the expansion queue is empty.
    pub open spec fn drained(self) -> bool {
        forall|j: int| !self.queued(j)
    }
}

/// Whether `a` leaves the expansion queue before `b`: it starts service
/// earlier, or at the same time and is the younger label.
pub open spec fn outranks(a: LabelView, b: LabelView) -> bool {
    a.etime < b.etime || (a.etime == b.etime && a.id > b.id)
}

/// Whether label `j` is the one that leaves the expansion queue next.
pub open spec fn next_up(s: SearchView, j: int) -> bool {
    &&& s.queued(j)
    &&& forall|k: int| #[trigger] s.queued(k) && k != j ==> outranks(s.labels[j], s.labels[k])
}

/// The label that leaves the expansion queue next.
pub open spec fn head(s: SearchView) -> int {
    choose|j: int| next_up(s, j)
}

/// The state in which every search starts: the initial label alone, queued.
pub open spec fn start_state(inst: Instance) -> SearchView {
    SearchView {
        labels: seq![initial_label(inst)],
        pred: seq![None],
        stage: seq![Stage::Queued],
        paths: seq![seq![inst.start]],
    }
}

/// The state after label `p` has left the queue for the processed part of its frontier.
pub open spec fn expanded(s: SearchView, p: int) -> SearchView {
    SearchView { stage: s.stage.update(p, Stage::Expanded), ..s }
}

/// Whether the frontier of `cand`'s node holds a label that dominates `cand`.
pub open spec fn dominated_at(inst: Instance, s: SearchView, cand: LabelView) -> bool {
    exists|j: int| #[trigger] s.live_at(cand.node, j) && dominates(inst.elementary, s.labels[j], cand)
}

/// Whether label `j` is in the frontier of `cand`'s node and dominated by `cand`.
pub open spec fn beaten(inst: Instance, s: SearchView, cand: LabelView, j: int) -> bool {
    s.live_at(cand.node, j) && dominates(inst.elementary, cand, s.labels[j])
}

/// The state after every label that `cand` dominates has left the frontier of
/// `cand`'s node, the queue and the predecessor map.
pub open spec fn retired(inst: Instance, s: SearchView, cand: LabelView) -> SearchView {
    SearchView {
        pred: Seq::new(
            s.pred.len(),
            |j: int|
                if beaten(inst, s, cand, j) {
                    None
                } else {
                    s.pred[j]
                },
        ),
        stage: Seq::new(
            s.stage.len(),
            |j: int|
                if beaten(inst, s, cand, j) {
                    Stage::Removed
                } else {
                    s.stage[j]
                },
        ),
        ..s
    }
}

/// The state after `cand`, extended from label `parent`, has been inserted:
/// unless it ends at the end depot, the labels it dominates are retired; then
/// it joins its frontier and the queue, with `parent` as its predecessor.
pub open spec fn admitted(inst: Instance, s: SearchView, cand: LabelView, parent: int) -> SearchView {
    let t = if cand.node == inst.end {
        s
    } else {
        retired(inst, s, cand)
    };
    SearchView {
        labels: t.labels.push(cand),
        pred: t.pred.push(Some(parent)),
        stage: t.stage.push(Stage::Queued),
        paths: t.paths.push(s.paths[parent].push(cand.node)),
    }
}

/// The state after label `p` has tried the arc to `v`. The arc is passed over
/// where `p` has entered `v` before or the arc is forbidden. Else the price of
/// leaving `p`'s node is needed, and the search fails where there is none.
/// Else the child is inserted, unless it is infeasible or dominated.
pub open spec fn relaxed(
    inst: Instance,
    duals: Map<usize, i64>,
    forb: Set<(usize, usize)>,
    s: SearchView,
    p: int,
    v: usize,
) -> Result<SearchView, PricingError> {
    let parent = s.labels[p];
    if parent.visited.contains(v as int) || forb.contains((parent.node, v)) {
        Ok(s)
    } else if !duals.contains_key(parent.node) {
        Err(PricingError::MissingDual(parent.node))
    } else {
        let child = extend(inst, parent, v, duals[parent.node] as int, s.labels.len() as int);
        if !feasible(inst, child) || dominated_at(inst, s, child) {
            Ok(s)
        } else {
            Ok(admitted(inst, s, child, p))
        }
    }
}

/// The state after label `p` has tried the first `k` arcs that leave its node, in their order.
pub open spec fn relaxed_upto(
    inst: Instance,
    duals: Map<usize, i64>,
    forb: Set<(usize, usize)>,
    s: SearchView,
    p: int,
    k: nat,
) -> Result<SearchView, PricingError>
    decreases k,
{
    if k == 0 {
        Ok(s)
    } else {
        match relaxed_upto(inst, duals, forb, s, p, (k - 1) as nat) {
            Ok(t) => relaxed(inst, duals, forb, t, p, inst.out(s.labels[p].node as int)[k - 1]),
            Err(e) => Err(e),
        }
    }
}

/// One step of the search: the next label leaves the queue and tries every
/// arc that leaves its node. A search whose queue is empty stays as it is.
pub open spec fn step(
    inst: Instance,
    duals: Map<usize, i64>,
    forb: Set<(usize, usize)>,
    s: SearchView,
) -> Result<SearchView, PricingError> {
    if s.drained() {
        Ok(s)
    } else {
        let p = head(s);
        relaxed_upto(
            inst,
            duals,
            forb,
            expanded(s, p),
            p,
            inst.out(s.labels[p].node as int).len(),
        )
    }
}

/// The search after `n` steps from the start, or the error that stopped it.
pub open spec fn run(
    inst: Instance,
    duals: Map<usize, i64>,
    forb: Set<(usize, usize)>,
    n: nat,
) -> Result<SearchView, PricingError>
    decreases n,
{
    if n == 0 {
        Ok(start_state(inst))
    } else {
        match run(inst, duals, forb, (n - 1) as nat) {
            Ok(s) => step(inst, duals, forb, s),
            Err(e) => Err(e),
        }
    }
}

} // verus!
