//! What holds of pricing as a whole.

use crate::dominance::dominates;
use crate::driver::{prices, settled};
use crate::error::PricingError;
use crate::harvest::{chain, emitted, harvest, lemma_chain_start, result_of, route_of};
use crate::instance::Instance;
use crate::interface::{lemma_valid_path_well_routed, times_of, well_routed};
use crate::path::lemma_label_of_id;
use crate::progress::{backlog, lemma_step_backlog};
use crate::reach::{
    consistent, lemma_expanded_consistent, lemma_head_exists, lemma_relaxed_upto_consistent,
    lemma_run_consistent, tied,
};
use crate::route::{arranged, in_order, lemma_arranged, lemma_arranged_all, RouteView};
use crate::search::{expanded, head, relaxed_upto, run, SearchView};
use vstd::prelude::*;

verus! {

/// Once pricing has come to an outcome, further steps of the search leave it in place.
pub proof fn lemma_settled_stays(
    inst: Instance,
    duals: Map<usize, i64>,
    forb: Set<(usize, usize)>,
    n: nat,
    m: nat,
)
    requires
        n <= m,
        settled(inst, duals, forb, n) is Some,
    ensures
        run(inst, duals, forb, m) == run(inst, duals, forb, n),
    decreases m,
{
    if n < m {
        lemma_settled_stays(inst, duals, forb, n, (m - 1) as nat);
    }
}

/// Pricing is a function of its inputs: the same instance, duals and
/// forbidden arcs come to one outcome only, the same routes in the same
/// order or the same error.
pub proof fn lemma_prices_unique(
    inst: Instance,
    duals: Map<usize, i64>,
    forb: Set<(usize, usize)>,
    a: Result<Seq<RouteView>, PricingError>,
    b: Result<Seq<RouteView>, PricingError>,
)
    requires
        prices(inst, duals, forb, a),
        prices(inst, duals, forb, b),
    ensures
        a == b,
{
    let n = choose|n: nat| settled(inst, duals, forb, n) == Some(a);
    let m = choose|m: nat| settled(inst, duals, forb, m) == Some(b);
    if n <= m {
        lemma_settled_stays(inst, duals, forb, n, m);
    } else {
        lemma_settled_stays(inst, duals, forb, m, n);
    }
}

/// In every state that a search reaches, and at every node but the end
/// depot, no label of the frontier dominates another one. At the end depot
/// labels are kept whether dominated or not.
pub proof fn lemma_frontier_antichain(
    inst: Instance,
    duals: Map<usize, i64>,
    forb: Set<(usize, usize)>,
    n: nat,
    v: usize,
    i: int,
    j: int,
)
    requires
        inst.wf(),
        run(inst, duals, forb, n) is Ok,
        v != inst.end,
        i != j,
        run(inst, duals, forb, n)->Ok_0.live_at(v, i),
        run(inst, duals, forb, n)->Ok_0.live_at(v, j),
    ensures
        !dominates(
            inst.elementary,
            run(inst, duals, forb, n)->Ok_0.labels[i],
            run(inst, duals, forb, n)->Ok_0.labels[j],
        ),
{
    lemma_run_consistent(inst, duals, forb, n);
}

/// In a consistent state, where the predecessor map leads from label `j`
/// back to the initial label, the route that it gives is the path that `j`
/// sums up, with the service starts along that path.
pub proof fn lemma_chain_follows_path(
    inst: Instance,
    duals: Map<usize, i64>,
    forb: Set<(usize, usize)>,
    s: SearchView,
    j: int,
)
    requires
        inst.wf(),
        consistent(inst, duals, forb, s),
        0 <= j < s.labels.len(),
        chain(s, j)[0] == 0,
    ensures
        route_of(s, j).nodes == s.paths[j],
        route_of(s, j).times == times_of(inst, duals, s.paths[j]),
    decreases j,
{
    let path = s.paths[j];
    assert(tied(inst, duals, forb, s, j));
    lemma_label_of_id(inst, duals, path, j);
    match s.pred[j] {
        Some(p) if 0 <= p < j => {
            lemma_chain_start(s, p);
            lemma_chain_follows_path(inst, duals, forb, s, p);
            let before = s.paths[p];
            assert(route_of(s, j).nodes =~= route_of(s, p).nodes.push(s.labels[j].node));
            assert(route_of(s, j).times =~= route_of(s, p).times.push(s.labels[j].etime));
            let want = times_of(inst, duals, before).push(s.labels[j].etime);
            assert forall|i: int| 0 <= i < path.len() implies #[trigger] times_of(
                inst,
                duals,
                path,
            )[i] == want[i] by {
                if i < before.len() {
                    assert(path.take(i + 1) =~= before.take(i + 1));
                } else {
                    assert(path.take(i + 1) == path);
                }
            }
            assert(times_of(inst, duals, path) =~= want);
        },
        _ => {
            assert(path.take(1) == path);
            assert(route_of(s, j).nodes =~= path);
            assert(route_of(s, j).times =~= times_of(inst, duals, path));
        },
    }
}

/// What holds of the route of every label that gives one holds of every route harvested.
pub proof fn lemma_harvest_all(
    inst: Instance,
    s: SearchView,
    k: nat,
    holds: spec_fn(RouteView) -> bool,
)
    requires
        forall|j: int| 0 <= j < k && emitted(inst, s, j) ==> holds(#[trigger] route_of(s, j)),
    ensures
        forall|i: int| 0 <= i < harvest(inst, s, k).len() ==> holds(#[trigger] harvest(inst, s, k)[i]),
    decreases k,
{
    if k > 0 {
        let rest = harvest(inst, s, (k - 1) as nat);
        lemma_harvest_all(inst, s, (k - 1) as nat, holds);
        assert forall|i: int| 0 <= i < harvest(inst, s, k).len() implies holds(
            #[trigger] harvest(inst, s, k)[i],
        ) by {
            if i < rest.len() {
                assert(harvest(inst, s, k)[i] == rest[i]);
            } else {
                assert(emitted(inst, s, k - 1));
                assert(holds(route_of(s, k - 1)));
            }
        }
    }
}

/// The route of every label that gives one is among the routes harvested.
pub proof fn lemma_harvest_holds(inst: Instance, s: SearchView, k: nat, j: int)
    requires
        0 <= j < k,
        emitted(inst, s, j),
    ensures
        harvest(inst, s, k).contains(route_of(s, j)),
    decreases k,
{
    let all = harvest(inst, s, k);
    if j == k - 1 {
        assert(all[all.len() - 1] == route_of(s, j));
    } else {
        lemma_harvest_holds(inst, s, (k - 1) as nat, j);
        let rest = harvest(inst, s, (k - 1) as nat);
        let at = choose|at: int| 0 <= at < rest.len() && rest[at] == route_of(s, j);
        assert(all[at] == route_of(s, j));
    }
}

/// The result of a search leaves out no route: every label in the
/// processed frontier of the end depot whose reduced cost lies below minus
/// `RCOST_EPSILON`, and from which the predecessor map leads back to the
/// initial label, has its route in the result.
pub proof fn lemma_result_complete(inst: Instance, s: SearchView, j: int)
    requires
        0 <= j < s.labels.len(),
        emitted(inst, s, j),
    ensures
        result_of(inst, s).contains(route_of(s, j)),
{
    let all = harvest(inst, s, s.labels.len());
    lemma_harvest_holds(inst, s, s.labels.len(), j);
    lemma_arranged(all);
    all.to_multiset_ensures();
    arranged(all).to_multiset_ensures();
    assert(all.to_multiset().count(route_of(s, j)) > 0);
    assert(arranged(all).to_multiset().count(route_of(s, j)) > 0);
}

/// Every route in the result of a consistent state is well routed, and the
/// routes stand in the lexicographic order of their node lists.
pub proof fn lemma_result_well_routed(
    inst: Instance,
    duals: Map<usize, i64>,
    forb: Set<(usize, usize)>,
    s: SearchView,
)
    requires
        inst.wf(),
        consistent(inst, duals, forb, s),
    ensures
        forall|i: int|
            0 <= i < result_of(inst, s).len() ==> well_routed(
                inst,
                duals,
                forb,
                #[trigger] result_of(inst, s)[i],
            ),
        in_order(result_of(inst, s)),
{
    let holds = |route: RouteView| well_routed(inst, duals, forb, route);
    let all = harvest(inst, s, s.labels.len());
    assert forall|j: int| 0 <= j < s.labels.len() && emitted(inst, s, j) implies holds(
        #[trigger] route_of(s, j),
    ) by {
        let path = s.paths[j];
        assert(tied(inst, duals, forb, s, j));
        lemma_chain_follows_path(inst, duals, forb, s, j);
        lemma_label_of_id(inst, duals, path, j);
        crate::path::lemma_valid_path_label(inst, duals, forb, path, j);
        lemma_valid_path_well_routed(inst, duals, forb, path);
    }
    lemma_harvest_all(inst, s, s.labels.len(), holds);
    lemma_arranged_all(all, holds);
    lemma_arranged(all);
}

/// Every route that pricing hands out is well routed: it leads from the
/// start depot to the end depot over arcs of the instance that are not
/// forbidden, starts each service as early as arrival and window allow and
/// inside the window, enters no node twice, keeps to the vehicle's capacity,
/// and its reduced cost is the scaled travel time less the duals of the nodes
/// it leaves, below minus `RCOST_EPSILON`. The routes stand in the
/// lexicographic order of their node lists.
pub proof fn lemma_priced_routes(
    inst: Instance,
    duals: Map<usize, i64>,
    forb: Set<(usize, usize)>,
    routes: Seq<RouteView>,
)
    requires
        inst.wf(),
        prices(inst, duals, forb, Ok(routes)),
    ensures
        forall|i: int| 0 <= i < routes.len() ==> well_routed(inst, duals, forb, #[trigger] routes[i]),
        in_order(routes),
{
    let n = choose|n: nat| settled(inst, duals, forb, n) == Some(Ok::<_, PricingError>(routes));
    lemma_run_consistent(inst, duals, forb, n);
    lemma_result_well_routed(inst, duals, forb, run(inst, duals, forb, n)->Ok_0);
}

/// In every state that a search reaches, each label but the initial one is
/// feasible: its service starts inside the window of its node, the vehicle
/// can carry its load, and it has entered its own node. Each label carries
/// its place among the labels as its number, so no two share a number.
pub proof fn lemma_labels_feasible(
    inst: Instance,
    duals: Map<usize, i64>,
    forb: Set<(usize, usize)>,
    n: nat,
    j: int,
)
    requires
        inst.wf(),
        run(inst, duals, forb, n) is Ok,
        0 <= j < run(inst, duals, forb, n)->Ok_0.labels.len(),
    ensures
        run(inst, duals, forb, n)->Ok_0.labels[j].id == j,
        j > 0 ==> {
            let label = run(inst, duals, forb, n)->Ok_0.labels[j];
            &&& inst.windows[label.node as int].0 <= label.etime <= inst.windows[label.node as int].1
            &&& label.demand <= inst.capacity
            &&& label.visited.contains(label.node as int)
        },
{
    let s = run(inst, duals, forb, n)->Ok_0;
    lemma_run_consistent(inst, duals, forb, n);
    assert(tied(inst, duals, forb, s, j));
    lemma_label_of_id(inst, duals, s.paths[j], j);
    if j > 0 {
        lemma_initial_is_first(inst, duals, forb, n, j);
    }
}

/// In every state that a search reaches, only the initial label sums up the
/// start depot alone.
proof fn lemma_initial_is_first(
    inst: Instance,
    duals: Map<usize, i64>,
    forb: Set<(usize, usize)>,
    n: nat,
    j: int,
)
    requires
        inst.wf(),
        run(inst, duals, forb, n) is Ok,
        0 < j < run(inst, duals, forb, n)->Ok_0.labels.len(),
    ensures
        run(inst, duals, forb, n)->Ok_0.paths[j].len() > 1,
    decreases n,
{
    let s = run(inst, duals, forb, n)->Ok_0;
    if n > 0 {
        let before = run(inst, duals, forb, (n - 1) as nat)->Ok_0;
        lemma_run_consistent(inst, duals, forb, (n - 1) as nat);
        if !before.drained() {
            lemma_head_exists(inst, duals, forb, before);
            let p = head(before);
            lemma_expanded_consistent(inst, duals, forb, before, p);
            let list = inst.out(before.labels[p].node as int);
            lemma_branches(inst, duals, forb, expanded(before, p), p, list.len(), j);
            if j < before.labels.len() {
                lemma_initial_is_first(inst, duals, forb, (n - 1) as nat, j);
            }
        } else {
            lemma_initial_is_first(inst, duals, forb, (n - 1) as nat, j);
        }
    }
}

/// Trying arcs keeps the paths of the labels that were there, and gives
/// each new label a path of more than one node.
proof fn lemma_branches(
    inst: Instance,
    duals: Map<usize, i64>,
    forb: Set<(usize, usize)>,
    s: SearchView,
    p: int,
    k: nat,
    j: int,
)
    requires
        inst.wf(),
        consistent(inst, duals, forb, s),
        0 <= p < s.labels.len(),
        k <= inst.out(s.labels[p].node as int).len(),
        relaxed_upto(inst, duals, forb, s, p, k) is Ok,
        0 <= j < relaxed_upto(inst, duals, forb, s, p, k)->Ok_0.labels.len(),
    ensures
        j < s.labels.len() ==> relaxed_upto(inst, duals, forb, s, p, k)->Ok_0.paths[j] == s.paths[j],
        j >= s.labels.len() ==> relaxed_upto(inst, duals, forb, s, p, k)->Ok_0.paths[j].len() > 1,
    decreases k,
{
    if k > 0 {
        let t = relaxed_upto(inst, duals, forb, s, p, (k - 1) as nat)->Ok_0;
        lemma_relaxed_upto_consistent(inst, duals, forb, s, p, (k - 1) as nat);
        if j < t.labels.len() {
            lemma_branches(inst, duals, forb, s, p, (k - 1) as nat, j);
        } else {
            assert(tied(inst, duals, forb, t, p));
        }
    }
}

/// Pricing always comes to an outcome: after some number of steps the queue
/// of the search is empty, or a missing dual has stopped it.
pub proof fn lemma_pricing_settles(
    inst: Instance,
    duals: Map<usize, i64>,
    forb: Set<(usize, usize)>,
)
    requires
        inst.wf(),
    ensures
        exists|outcome: Result<Seq<RouteView>, PricingError>| prices(inst, duals, forb, outcome),
{
    let m = lemma_settles_from(inst, duals, forb, 0);
    assert(prices(inst, duals, forb, settled(inst, duals, forb, m)->Some_0));
}

/// From every state that a search reaches, it comes to an outcome after finitely many more steps.
proof fn lemma_settles_from(
    inst: Instance,
    duals: Map<usize, i64>,
    forb: Set<(usize, usize)>,
    n: nat,
) -> (m: nat)
    requires
        inst.wf(),
    ensures
        settled(inst, duals, forb, m) is Some,
    decreases
        (if run(inst, duals, forb, n) is Ok {
            backlog(inst, run(inst, duals, forb, n)->Ok_0) + 1
        } else {
            0
        }),
{
    if settled(inst, duals, forb, n) is Some {
        n
    } else {
        let s = run(inst, duals, forb, n)->Ok_0;
        lemma_run_consistent(inst, duals, forb, n);
        lemma_step_backlog(inst, duals, forb, s);
        lemma_settles_from(inst, duals, forb, n + 1)
    }
}

} // verus!
