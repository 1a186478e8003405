//! Pricing: the search from its start to an empty queue, and the routes it hands out.

use crate::error::PricingError;
use crate::extension::RCOST_EPSILON;
use crate::frontier::Search;
use crate::harvest::{emitted, harvest, result_of, root_of};
use crate::instance::{Instance, Pricer};
use crate::interface::well_routed;
use crate::laws::lemma_result_well_routed;
use crate::progress::{backlog, lemma_step_backlog};
use crate::reach::{
    consistent, lemma_expanded_consistent, lemma_head_exists, lemma_next_up_unique,
    lemma_relaxed_upto_error, lemma_start_consistent, lemma_step_consistent,
};
use crate::route::{arranged, in_order, insert_sorted, views, Route, RouteView};
use crate::search::{expanded, head, run, SearchView, Stage};
use std::collections::{BTreeMap, BTreeSet};
use vstd::prelude::*;

verus! {

/// What pricing has come to after `n` steps of the search: the error that
/// stopped it, or, once the queue is empty, the routes of its result.
/// `None` while the search is still under way.
pub open spec fn settled(
    inst: Instance,
    duals: Map<usize, i64>,
    forb: Set<(usize, usize)>,
    n: nat,
) -> Option<Result<Seq<RouteView>, PricingError>> {
    match run(inst, duals, forb, n) {
        Ok(s) => if s.drained() {
            Some(Ok(result_of(inst, s)))
        } else {
            None
        },
        Err(e) => Some(Err(e)),
    }
}

/// Whether `outcome` is what pricing the instance comes to: the search comes
/// to it after some number of steps.
pub open spec fn prices(
    inst: Instance,
    duals: Map<usize, i64>,
    forb: Set<(usize, usize)>,
    outcome: Result<Seq<RouteView>, PricingError>,
) -> bool {
    exists|n: nat| settled(inst, duals, forb, n) == Some(outcome)
}

/// The models of what `find_path` hands back.
pub open spec fn outcome_view(priced: Result<Vec<Route>, PricingError>) -> Result<
    Seq<RouteView>,
    PricingError,
> {
    match priced {
        Ok(routes) => Ok(views(routes@)),
        Err(e) => Err(e),
    }
}

impl Pricer {
    /// Prices the instance under the given duals, without the arcs in
    /// `deleted_edges`: runs the label-setting search until its queue is
    /// empty, and hands out the route of every label at the end depot whose
    /// reduced cost lies below minus `RCOST_EPSILON`, in the lexicographic
    /// order of the routes' node lists. The search fails with `MissingDual`
    /// where a label has to be extended from a node without a dual price.
    pub fn find_path(
        &self,
        duals: &BTreeMap<usize, i64>,
        deleted_edges: &BTreeSet<(usize, usize)>,
    ) -> (priced: Result<Vec<Route>, PricingError>)
        ensures
            prices(self@, duals@, deleted_edges@, outcome_view(priced)),
            match priced {
                Ok(routes) => {
                    &&& forall|i: int|
                        0 <= i < routes@.len() ==> well_routed(
                            self@,
                            duals@,
                            deleted_edges@,
                            (#[trigger] routes@[i])@,
                        )
                    &&& in_order(views(routes@))
                },
                Err(e) => e matches PricingError::MissingDual(u) && !duals@.contains_key(u),
            },
    {
        let ghost inst = self@;
        let ghost forb = deleted_edges@;
        let mut search = Search::start(self);
        let ghost mut n: nat = 0;
        proof {
            use_type_invariant(self);
            lemma_start_consistent(inst, duals@, forb);
        }
        loop
            invariant
                inst == self@,
                forb == deleted_edges@,
                inst.wf(),
                search.wf(inst),
                consistent(inst, duals@, forb, search@),
                run(inst, duals@, forb, n) == Ok::<SearchView, PricingError>(search@),
            ensures
                search@.drained(),
            decreases backlog(inst, search@),
        {
            let ghost before = search@;
            let p = match search.pop(self) {
                Some(p) => p,
                None => {
                    break ;
                },
            };
            proof {
                assert(!before.drained()) by {
                    assert(before.queued(p as int));
                }
                lemma_head_exists(inst, duals@, forb, before);
                lemma_next_up_unique(before, p as int, head(before));
                lemma_expanded_consistent(inst, duals@, forb, before, p as int);
                lemma_step_backlog(inst, duals@, forb, before);
                lemma_step_consistent(inst, duals@, forb, before);
                n = n + 1;
            }
            match search.expand(self, duals, deleted_edges, p) {
                Ok(_) => {},
                Err(e) => {
                    proof {
                        assert(settled(inst, duals@, forb, n) == Some(
                            Err::<Seq<RouteView>, PricingError>(e),
                        ));
                        lemma_relaxed_upto_error(
                            inst,
                            duals@,
                            forb,
                            expanded(before, p as int),
                            p as int,
                            inst.out(before.labels[p as int].node as int).len(),
                        );
                    }
                    return Err(e);
                },
            }
        }
        let end = self.end_depot();
        let mut routes: Vec<Route> = Vec::new();
        let mut j: usize = 0;
        proof {
            assert(views(routes@) =~= arranged(harvest(inst, search@, 0)));
        }
        while j < search.len()
            invariant
                j <= search@.labels.len(),
                inst == self@,
                end == inst.end,
                consistent(inst, duals@, forb, search@),
                views(routes@) == arranged(harvest(inst, search@, j as nat)),
            decreases search@.labels.len() - j,
        {
            let label = search.label(j);
            if label.last_node == end && search.stage(j) == Stage::Expanded && label.reduced_cost
                < -RCOST_EPSILON && root_of(&search, j) == 0 {
                let (path, start_times) = self.path_from_label(&search, j);
                let route = Route {
                    path,
                    start_times,
                    cost: label.cost,
                    reduced_cost: label.reduced_cost,
                };
                proof {
                    assert(emitted(inst, search@, j as int));
                    assert(harvest(inst, search@, (j + 1) as nat).drop_last() =~= harvest(
                        inst,
                        search@,
                        j as nat,
                    ));
                }
                insert_sorted(&mut routes, route);
            }
            j = j + 1;
        }
        proof {
            assert(settled(inst, duals@, forb, n) == Some(
                Ok::<Seq<RouteView>, PricingError>(views(routes@)),
            ));
            lemma_result_well_routed(inst, duals@, forb, search@);
            assert forall|i: int| 0 <= i < routes@.len() implies well_routed(
                inst,
                duals@,
                forb,
                (#[trigger] routes@[i])@,
            ) by {
                assert(views(routes@)[i] == routes@[i]@);
            }
        }
        Ok(routes)
    }
}

} // verus!
