//! Priced routes: what a search hands out for each label at the end depot
//! that it prices out, and how those routes are ordered.

use vstd::prelude::*;

verus! {

/// The model of a priced route.
pub struct RouteView {
    /// The nodes of the route, from the start depot to the end depot.
    pub nodes: Seq<usize>,
    /// The earliest start of service at each node of the route.
    pub times: Seq<int>,
    /// The travel time summed along the route.
    pub cost: int,
    /// The reduced cost of the route, in units of `1 / RCOST_SCALE`.
    pub rcost: int,
}

/// A route from the start depot to the end depot with a negative reduced cost.
#[derive(Debug, PartialEq, Eq)]
pub struct Route {
    pub path: Vec<usize>,
    pub start_times: Vec<usize>,
    pub cost: usize,
    pub reduced_cost: i128,
}

impl View for Route {
    type V = RouteView;

    open spec fn view(&self) -> RouteView {
        RouteView {
            nodes: self.path@,
            times: self.start_times@.map_values(|t: usize| t as int),
            cost: self.cost as int,
            rcost: self.reduced_cost as int,
        }
    }
}

impl Clone for Route {
    /// A second route with the same model.
    fn clone(&self) -> (copy: Route)
        ensures
            copy@ == self@,
    {
        Route {
            path: self.path.clone(),
            start_times: self.start_times.clone(),
            cost: self.cost,
            reduced_cost: self.reduced_cost,
        }
    }
}

/// The models of a list of routes.
pub open spec fn views(routes: Seq<Route>) -> Seq<RouteView> {
    routes.map_values(|route: Route| route@)
}

/// Whether `a` comes no later than `b` when node lists are compared from
/// place `i` on: at the first place where they differ the smaller node
/// decides, and a list that ends first comes first.
pub open spec fn lex_le_from(a: Seq<usize>, b: Seq<usize>, i: int) -> bool
    decreases a.len() - i,
{
    if i < 0 || i >= a.len() {
        true
    } else if i >= b.len() {
        false
    } else if a[i] != b[i] {
        a[i] < b[i]
    } else {
        lex_le_from(a, b, i + 1)
    }
}

/// Whether `a` comes no later than `b` in the lexicographic order of node lists.
pub open spec fn lex_le(a: Seq<usize>, b: Seq<usize>) -> bool {
    lex_le_from(a, b, 0)
}

/// The place, from `i` on, at which `route` enters a sorted list: behind
/// every route that comes no later than it.
pub open spec fn slot_from(sorted: Seq<RouteView>, route: RouteView, i: int) -> int
    decreases sorted.len() - i,
{
    if i < 0 || i >= sorted.len() {
        sorted.len() as int
    } else if lex_le(sorted[i].nodes, route.nodes) {
        slot_from(sorted, route, i + 1)
    } else {
        i
    }
}

/// The routes in the lexicographic order of their node lists, each one
/// entered, in turn, behind those that come no later.
pub open spec fn arranged(routes: Seq<RouteView>) -> Seq<RouteView>
    decreases routes.len(),
{
    if routes.len() == 0 {
        Seq::empty()
    } else {
        let sorted = arranged(routes.drop_last());
        sorted.insert(slot_from(sorted, routes.last(), 0), routes.last())
    }
}

/// Whether each route of the list comes no later than those behind it.
pub open spec fn in_order(routes: Seq<RouteView>) -> bool {
    forall|i: int, j: int|
        0 <= i < j < routes.len() ==> lex_le((#[trigger] routes[i]).nodes, (#[trigger] routes[j]).nodes)
}

/// Of two node lists one comes no later than the other.
pub proof fn lemma_lex_total(a: Seq<usize>, b: Seq<usize>, i: int)
    requires
        0 <= i,
    ensures
        lex_le_from(a, b, i) || lex_le_from(b, a, i),
    decreases a.len() - i,
{
    if i < a.len() && i < b.len() && a[i] == b[i] {
        lemma_lex_total(a, b, i + 1);
    }
}

/// What comes no later than a list that comes no later than a third comes no later than the third.
pub proof fn lemma_lex_transitive(a: Seq<usize>, b: Seq<usize>, c: Seq<usize>, i: int)
    requires
        0 <= i,
        lex_le_from(a, b, i),
        lex_le_from(b, c, i),
    ensures
        lex_le_from(a, c, i),
    decreases a.len() - i,
{
    if i < a.len() && a[i] == b[i] && b[i] == c[i] {
        lemma_lex_transitive(a, b, c, i + 1);
    }
}

/// The place at which a route enters lies behind the routes that come no
/// later than it, and before one that comes later, if there is one.
pub proof fn lemma_slot(sorted: Seq<RouteView>, route: RouteView, i: int)
    requires
        0 <= i <= sorted.len(),
    ensures
        i <= slot_from(sorted, route, i) <= sorted.len(),
        forall|k: int|
            i <= k < slot_from(sorted, route, i) ==> lex_le((#[trigger] sorted[k]).nodes, route.nodes),
        slot_from(sorted, route, i) < sorted.len() ==> !lex_le(
            sorted[slot_from(sorted, route, i)].nodes,
            route.nodes,
        ),
    decreases sorted.len() - i,
{
    if i < sorted.len() && lex_le(sorted[i].nodes, route.nodes) {
        lemma_slot(sorted, route, i + 1);
    }
}

/// Arranging routes keeps each of them, adds none, and puts them in order.
pub proof fn lemma_arranged(routes: Seq<RouteView>)
    ensures
        arranged(routes).len() == routes.len(),
        arranged(routes).to_multiset() == routes.to_multiset(),
        in_order(arranged(routes)),
    decreases routes.len(),
{
    if routes.len() == 0 {
        assert(arranged(routes) =~= routes);
    } else {
        let rest = routes.drop_last();
        let last = routes.last();
        let sorted = arranged(rest);
        let at = slot_from(sorted, last, 0);
        let all = sorted.insert(at, last);
        lemma_arranged(rest);
        lemma_slot(sorted, last, 0);
        vstd::seq_lib::to_multiset_insert(sorted, at, last);
        assert(rest.push(last) == routes);
        vstd::seq_lib::to_multiset_build(rest, last);
        assert(routes.to_multiset() == rest.to_multiset().insert(last));
        assert forall|i: int, j: int| 0 <= i < j < all.len() implies lex_le(
            (#[trigger] all[i]).nodes,
            (#[trigger] all[j]).nodes,
        ) by {
            if j < at {
                assert(all[i] == sorted[i] && all[j] == sorted[j]);
            } else if j == at {
                assert(all[i] == sorted[i]);
            } else if i == at {
                assert(all[j] == sorted[j - 1]);
                lemma_lex_total(sorted[at].nodes, last.nodes, 0);
                if j - 1 > at {
                    assert(lex_le(sorted[at].nodes, sorted[j - 1].nodes));
                    lemma_lex_transitive(last.nodes, sorted[at].nodes, sorted[j - 1].nodes, 0);
                }
            } else if i < at {
                assert(all[i] == sorted[i] && all[j] == sorted[j - 1]);
            } else {
                assert(all[i] == sorted[i - 1] && all[j] == sorted[j - 1]);
            }
        }
    }
}

/// What holds of every route that is arranged holds of every arranged route.
pub proof fn lemma_arranged_all(routes: Seq<RouteView>, holds: spec_fn(RouteView) -> bool)
    requires
        forall|k: int| 0 <= k < routes.len() ==> holds(#[trigger] routes[k]),
    ensures
        forall|i: int| 0 <= i < arranged(routes).len() ==> holds(#[trigger] arranged(routes)[i]),
    decreases routes.len(),
{
    if routes.len() > 0 {
        let rest = routes.drop_last();
        let last = routes.last();
        let sorted = arranged(rest);
        let at = slot_from(sorted, last, 0);
        assert forall|k: int| 0 <= k < rest.len() implies holds(#[trigger] rest[k]) by {
            assert(rest[k] == routes[k]);
        }
        lemma_arranged_all(rest, holds);
        lemma_slot(sorted, last, 0);
        assert forall|i: int| 0 <= i < arranged(routes).len() implies holds(
            #[trigger] arranged(routes)[i],
        ) by {
            if i < at {
                assert(arranged(routes)[i] == sorted[i]);
            } else if i > at {
                assert(arranged(routes)[i] == sorted[i - 1]);
            }
        }
    }
}

/// Whether `a` comes no later than `b` in the lexicographic order.
pub fn comes_first(a: &Vec<usize>, b: &Vec<usize>) -> (yes: bool)
    ensures
        yes == lex_le(a@, b@),
{
    let mut i: usize = 0;
    while i < a.len()
        invariant
            i <= a@.len(),
            lex_le(a@, b@) == lex_le_from(a@, b@, i as int),
        decreases a@.len() - i,
    {
        if i >= b.len() {
            return false;
        }
        if a[i] != b[i] {
            return a[i] < b[i];
        }
        i = i + 1;
    }
    true
}

/// Enters `route` into a list of routes at the place that the lexicographic
/// order of node lists gives it, behind those that come no later.
pub fn insert_sorted(routes: &mut Vec<Route>, route: Route)
    ensures
        views(final(routes)@) == views(old(routes)@).insert(
            slot_from(views(old(routes)@), route@, 0),
            route@,
        ),
{
    let ghost before = views(routes@);
    let mut i: usize = 0;
    while i < routes.len()
        invariant
            i <= routes@.len(),
            routes@ == old(routes)@,
            before == views(routes@),
            slot_from(before, route@, 0) == slot_from(before, route@, i as int),
        ensures
            i <= routes@.len(),
            routes@ == old(routes)@,
            slot_from(before, route@, 0) == i,
        decreases routes@.len() - i,
    {
        proof {
            assert(before[i as int] == routes@[i as int]@);
        }
        if !comes_first(&routes[i].path, &route.path) {
            break ;
        }
        i = i + 1;
    }
    routes.insert(i, route);
    proof {
        assert(views(routes@) =~= before.insert(i as int, route@));
    }
}

} // verus!
