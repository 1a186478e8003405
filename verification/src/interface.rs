//! What every route of a result satisfies, stated over the route alone:
//! its arcs, its service starts, its load, its cost and its reduced cost.

use crate::extension::{later, RCOST_EPSILON, RCOST_SCALE};
use crate::instance::Instance;
use crate::path::{label_of, lemma_valid_path_label, valid_path};
use crate::route::RouteView;
use vstd::prelude::*;

verus! {

/// The travel time summed over the arcs of a node list.
pub open spec fn drive_sum(inst: Instance, nodes: Seq<usize>) -> int
    decreases nodes.len(),
{
    if nodes.len() <= 1 {
        0
    } else {
        drive_sum(inst, nodes.drop_last()) + inst.drive[nodes[nodes.len() - 2] as int][nodes.last() as int]
    }
}

/// The dual prices summed over the nodes that a node list leaves: all but its last.
pub open spec fn dual_sum(duals: Map<usize, i64>, nodes: Seq<usize>) -> int
    decreases nodes.len(),
{
    if nodes.len() <= 1 {
        0
    } else {
        dual_sum(duals, nodes.drop_last()) + duals[nodes[nodes.len() - 2]]
    }
}

/// The demand summed over the nodes that a node list enters: all but its first.
pub open spec fn demand_sum(inst: Instance, nodes: Seq<usize>) -> int
    decreases nodes.len(),
{
    if nodes.len() <= 1 {
        0
    } else {
        demand_sum(inst, nodes.drop_last()) + inst.demands[nodes.last() as int]
    }
}

/// The earliest service start at each node of a path.
pub open spec fn times_of(inst: Instance, duals: Map<usize, i64>, path: Seq<usize>) -> Seq<int> {
    Seq::new(path.len(), |i: int| label_of(inst, duals, path.take(i + 1), 0).etime)
}

/// Whether the arc from place `i` of the route to the next is an arc of the
/// instance that is not forbidden, leaves a node with a dual price, and leads
/// to a service start that is the later of arrival and window opening and
/// not after the window's close.
pub open spec fn arc_kept(
    inst: Instance,
    duals: Map<usize, i64>,
    forb: Set<(usize, usize)>,
    route: RouteView,
    i: int,
) -> bool {
    let u = route.nodes[i];
    let v = route.nodes[i + 1];
    &&& inst.out(u as int).contains(v)
    &&& !forb.contains((u, v))
    &&& duals.contains_key(u)
    &&& route.times[i + 1] == later(
        route.times[i] + inst.service[u as int] + inst.drive[u as int][v as int],
        inst.windows[v as int].0 as int,
    )
    &&& route.times[i + 1] <= inst.windows[v as int].1
}

/// Whether `route` leads from the start depot to the end depot over arcs
/// that are kept, enters no node twice, loads no more than the vehicle
/// carries, and carries as its cost the travel time along it and as its
/// reduced cost the scaled travel time less the duals of the nodes it leaves,
/// which lies below minus `RCOST_EPSILON`.
pub open spec fn well_routed(
    inst: Instance,
    duals: Map<usize, i64>,
    forb: Set<(usize, usize)>,
    route: RouteView,
) -> bool {
    &&& route.nodes.len() >= 1
    &&& route.times.len() == route.nodes.len()
    &&& route.nodes[0] == inst.start
    &&& route.nodes.last() == inst.end
    &&& route.times[0] == inst.windows[inst.start as int].0
    &&& forall|i: int| 0 <= i < route.nodes.len() ==> (#[trigger] route.nodes[i]) < inst.n()
    &&& forall|i: int| 0 <= i < route.nodes.len() - 1 ==> #[trigger] arc_kept(inst, duals, forb, route, i)
    &&& forall|i: int, j: int|
        1 <= i < j < route.nodes.len() ==> #[trigger] route.nodes[i] != #[trigger] route.nodes[j]
    &&& demand_sum(inst, route.nodes) <= inst.capacity
    &&& route.cost == drive_sum(inst, route.nodes)
    &&& route.rcost == RCOST_SCALE * drive_sum(inst, route.nodes) - dual_sum(duals, route.nodes)
    &&& route.rcost < -RCOST_EPSILON
}

/// Every start of a path that the search may follow is such a path.
pub proof fn lemma_valid_prefix(
    inst: Instance,
    duals: Map<usize, i64>,
    forb: Set<(usize, usize)>,
    path: Seq<usize>,
    k: int,
)
    requires
        valid_path(inst, duals, forb, path),
        1 <= k <= path.len(),
    ensures
        valid_path(inst, duals, forb, path.take(k)),
    decreases path.len(),
{
    if k == path.len() {
        assert(path.take(k) == path);
    } else {
        lemma_valid_prefix(inst, duals, forb, path.drop_last(), k);
        assert(path.drop_last().take(k) == path.take(k));
    }
}

/// The label of a path that the search may follow carries the sums along the
/// path, and has entered exactly the nodes of the path after its first.
pub proof fn lemma_path_sums(
    inst: Instance,
    duals: Map<usize, i64>,
    forb: Set<(usize, usize)>,
    path: Seq<usize>,
)
    requires
        inst.wf(),
        valid_path(inst, duals, forb, path),
    ensures
        path[0] == inst.start,
        forall|i: int| 0 <= i < path.len() ==> (#[trigger] path[i]) < inst.n(),
        label_of(inst, duals, path, 0).cost == drive_sum(inst, path),
        label_of(inst, duals, path, 0).rcost == RCOST_SCALE * drive_sum(inst, path) - dual_sum(
            duals,
            path,
        ),
        label_of(inst, duals, path, 0).demand == demand_sum(inst, path),
        demand_sum(inst, path) <= inst.capacity,
        forall|x: int|
            label_of(inst, duals, path, 0).visited.contains(x) <==> exists|i: int|
                1 <= i < path.len() && #[trigger] path[i] == x,
    decreases path.len(),
{
    if path.len() > 1 {
        let before = path.drop_last();
        let parent = label_of(inst, duals, before, 0);
        let here = label_of(inst, duals, path, 0);
        lemma_path_sums(inst, duals, forb, before);
        lemma_valid_path_label(inst, duals, forb, before, 0);
        lemma_valid_path_label(inst, duals, forb, path, 0);
        let d = inst.drive[before.last() as int][path.last() as int] as int;
        assert forall|i: int| 0 <= i < path.len() implies (#[trigger] path[i]) < inst.n() by {
            if i < path.len() - 1 {
                assert(before[i] < inst.n());
            }
        }
        assert(RCOST_SCALE * (drive_sum(inst, before) + d) == RCOST_SCALE * drive_sum(inst, before)
            + RCOST_SCALE * d) by (nonlinear_arith);
        assert forall|x: int| here.visited.contains(x) <==> exists|i: int|
            1 <= i < path.len() && #[trigger] path[i] == x by {
            if here.visited.contains(x) {
                if x == path.last() {
                    assert(path[path.len() - 1] == x);
                } else {
                    assert(parent.visited.contains(x));
                    let i = choose|i: int| 1 <= i < before.len() && #[trigger] before[i] == x;
                    assert(path[i] == x);
                }
            }
            if exists|i: int| 1 <= i < path.len() && #[trigger] path[i] == x {
                let i = choose|i: int| 1 <= i < path.len() && #[trigger] path[i] == x;
                if i < path.len() - 1 {
                    assert(before[i] == x);
                }
            }
        }
    }
}

/// A path that the search may follow, if it ends at the end depot with a
/// reduced cost below minus `RCOST_EPSILON`, is well routed when it carries
/// the service starts, the cost and the reduced cost of its labels.
pub proof fn lemma_valid_path_well_routed(
    inst: Instance,
    duals: Map<usize, i64>,
    forb: Set<(usize, usize)>,
    path: Seq<usize>,
)
    requires
        inst.wf(),
        valid_path(inst, duals, forb, path),
        path.last() == inst.end,
        label_of(inst, duals, path, 0).rcost < -RCOST_EPSILON,
    ensures
        well_routed(
            inst,
            duals,
            forb,
            RouteView {
                nodes: path,
                times: times_of(inst, duals, path),
                cost: label_of(inst, duals, path, 0).cost,
                rcost: label_of(inst, duals, path, 0).rcost,
            },
        ),
{
    let route = RouteView {
        nodes: path,
        times: times_of(inst, duals, path),
        cost: label_of(inst, duals, path, 0).cost,
        rcost: label_of(inst, duals, path, 0).rcost,
    };
    lemma_path_sums(inst, duals, forb, path);
    assert(path.take(1).len() == 1);
    assert forall|i: int| 0 <= i < path.len() - 1 implies #[trigger] arc_kept(
        inst,
        duals,
        forb,
        route,
        i,
    ) by {
        let upto = path.take(i + 2);
        lemma_valid_prefix(inst, duals, forb, path, i + 2);
        assert(upto.drop_last() == path.take(i + 1));
    }
    assert forall|i: int, j: int| 1 <= i < j < path.len() implies #[trigger] path[i]
        != #[trigger] path[j] by {
        let upto = path.take(j + 1);
        lemma_valid_prefix(inst, duals, forb, path, j + 1);
        lemma_valid_prefix(inst, duals, forb, path, j);
        assert(upto.drop_last() == path.take(j));
        lemma_path_sums(inst, duals, forb, path.take(j));
        assert(path.take(j)[i] == path[i]);
    }
}

} // verus!
