//! Reading the result off a finished search: the labels at the end depot
//! that price out, and the route of each.

use crate::extension::RCOST_EPSILON;
use crate::frontier::Search;
use crate::instance::{Instance, Pricer};
use crate::route::{arranged, RouteView};
use crate::search::{SearchView, Stage};
use vstd::prelude::*;

verus! {

/// The labels from which label `j` descends, as far as the predecessor map
/// leads back, oldest first and `j` last.
pub open spec fn chain(s: SearchView, j: int) -> Seq<int>
    decreases j,
{
    match s.pred[j] {
        Some(p) if 0 <= p < j => chain(s, p).push(j),
        _ => seq![j],
    }
}

/// The route that the predecessor map gives for label `j`: the nodes and the
/// service starts of the labels it descends from, with its own cost and reduced cost.
pub open spec fn route_of(s: SearchView, j: int) -> RouteView {
    RouteView {
        nodes: chain(s, j).map_values(|i: int| s.labels[i].node),
        times: chain(s, j).map_values(|i: int| s.labels[i].etime),
        cost: s.labels[j].cost,
        rcost: s.labels[j].rcost,
    }
}

/// Whether label `j` gives a route of the result: it is in the processed
/// frontier of the end depot, its reduced cost lies below minus
/// `RCOST_EPSILON`, and the predecessor map leads from it back to the initial label.
pub open spec fn emitted(inst: Instance, s: SearchView, j: int) -> bool {
    &&& s.labels[j].node == inst.end
    &&& s.stage[j] == Stage::Expanded
    &&& s.labels[j].rcost < -RCOST_EPSILON
    &&& chain(s, j)[0] == 0
}

/// The routes that the first `k` labels give, in the order of the labels.
pub open spec fn harvest(inst: Instance, s: SearchView, k: nat) -> Seq<RouteView>
    decreases k,
{
    if k == 0 {
        Seq::empty()
    } else {
        let rest = harvest(inst, s, (k - 1) as nat);
        if emitted(inst, s, k - 1) {
            rest.push(route_of(s, k - 1))
        } else {
            rest
        }
    }
}

/// The result of a finished search: its routes in the lexicographic order of their node lists.
pub open spec fn result_of(inst: Instance, s: SearchView) -> Seq<RouteView> {
    arranged(harvest(inst, s, s.labels.len()))
}

/// The entries of `list` in the opposite order.
pub fn reversed(list: &Vec<usize>) -> (turned: Vec<usize>)
    ensures
        turned@ == list@.reverse(),
{
    let mut turned: Vec<usize> = Vec::new();
    let mut left: usize = list.len();
    while left > 0
        invariant
            left <= list@.len(),
            turned@.len() == list@.len() - left,
            forall|i: int| 0 <= i < turned@.len() ==> turned@[i] == list@[list@.len() - 1 - i],
        decreases left,
    {
        left = left - 1;
        turned.push(list[left]);
    }
    proof {
        assert(turned@ =~= list@.reverse());
    }
    turned
}

/// The oldest label to which the predecessor map leads back from label `id`.
pub fn root_of(search: &Search, id: usize) -> (root: usize)
    requires
        id < search@.labels.len(),
        search@.pred.len() == search@.labels.len(),
    ensures
        root == chain(search@, id as int)[0],
{
    let ghost s = search@;
    let mut current: usize = id;
    loop
        invariant_except_break
            chain(s, id as int)[0] == chain(s, current as int)[0],
        invariant
            s == search@,
            s.pred.len() == s.labels.len(),
            current < s.labels.len(),
        ensures
            chain(s, id as int)[0] == current,
        decreases current,
    {
        match search.pred(current) {
            Some(parent) => {
                if parent < current {
                    proof {
                        lemma_chain_start(s, parent as int);
                    }
                    current = parent;
                } else {
                    break ;
                }
            },
            None => {
                break ;
            },
        }
    }
    current
}

/// A chain is not empty, and ends with the label it was asked for.
pub proof fn lemma_chain_start(s: SearchView, j: int)
    ensures
        chain(s, j).len() >= 1,
        chain(s, j).last() == j,
    decreases j,
{
    match s.pred[j] {
        Some(p) if 0 <= p < j => {
            lemma_chain_start(s, p);
        },
        _ => {},
    }
}

impl Pricer {
    /// The nodes and the service starts along the path of label `id`, as far
    /// as the predecessor map leads back from it, oldest first.
    pub fn path_from_label(&self, search: &Search, id: usize) -> (found: (Vec<usize>, Vec<usize>))
        requires
            id < search@.labels.len(),
            search@.pred.len() == search@.labels.len(),
        ensures
            found.0@ == route_of(search@, id as int).nodes,
            found.1@.map_values(|t: usize| t as int) == route_of(search@, id as int).times,
    {
        let ghost s = search@;
        let mut path: Vec<usize> = Vec::new();
        let mut start_times: Vec<usize> = Vec::new();
        let mut current: usize = id;
        let ghost mut seen: Seq<int> = Seq::empty();
        loop
            invariant_except_break
                current < s.labels.len(),
                chain(s, id as int) == chain(s, current as int) + seen.reverse(),
            invariant
                s == search@,
                s.pred.len() == s.labels.len(),
                path@.len() == seen.len(),
                start_times@.len() == seen.len(),
                forall|i: int| 0 <= i < seen.len() ==> 0 <= #[trigger] seen[i] < s.labels.len(),
                forall|i: int| 0 <= i < seen.len() ==> #[trigger] path@[i] == s.labels[seen[i]].node,
                forall|i: int|
                    0 <= i < seen.len() ==> (#[trigger] start_times@[i]) as int == s.labels[seen[i]].etime,
            ensures
                chain(s, id as int) == seen.reverse(),
            decreases current,
        {
            let label = search.label(current);
            path.push(label.last_node);
            start_times.push(label.earliest_time);
            proof {
                let grown = seen.push(current as int);
                assert(grown.reverse() =~= seq![current as int] + seen.reverse());
                seen = grown;
            }
            match search.pred(current) {
                Some(parent) => {
                    if parent < current {
                        proof {
                            assert(chain(s, current as int) == chain(s, parent as int).push(
                                current as int,
                            ));
                            assert(chain(s, parent as int).push(current as int) + seen.drop_last().reverse()
                                =~= chain(s, parent as int) + seen.reverse());
                        }
                        current = parent;
                    } else {
                        proof {
                            assert(seq![current as int] + seen.drop_last().reverse() =~= seen.reverse());
                        }
                        break ;
                    }
                },
                None => {
                    proof {
                        assert(seq![current as int] + seen.drop_last().reverse() =~= seen.reverse());
                    }
                    break ;
                },
            }
        }
        let nodes = reversed(&path);
        let times = reversed(&start_times);
        proof {
            let want = route_of(s, id as int);
            assert(nodes@ =~= want.nodes);
            assert(times@.map_values(|t: usize| t as int) =~= want.times);
        }
        (nodes, times)
    }
}

} // verus!
