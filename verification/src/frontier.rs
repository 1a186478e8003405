//! The working state of a search: the labels made so far, the frontier of
//! each node, the expansion queue and the predecessor map.

use crate::arcs::is_forbidden;
use crate::dominance::dominates;
use crate::error::PricingError;
use crate::instance::{Instance, Pricer};
use crate::label::{label_views, Label};
use crate::queue::ExpansionQueue;
use crate::reach::{
    consistent, kept, lemma_consistent_label, lemma_relaxed_consistent, lemma_relaxed_upto_stopped,
};
use crate::search::{
    admitted, beaten, dominated_at, expanded, next_up, outranks, relaxed, relaxed_upto, retired,
    start_state, SearchView, Stage,
};
use crate::visited::{bitset_contains, bitset_with_capacity};
use std::collections::{BTreeMap, BTreeSet};
use vstd::prelude::*;

verus! {

/// Moving the last entry of a list without repetitions into place `k` and
/// dropping the last place takes out the entry at `k` and nothing else.
proof fn lemma_swap_remove(before: Seq<usize>, k: int)
    requires
        before.no_duplicates(),
        0 <= k < before.len(),
    ensures
        before.update(k, before.last()).drop_last().no_duplicates(),
        forall|y: usize|
            before.update(k, before.last()).drop_last().contains(y) <==> before.contains(y) && y
                != before[k],
{
    let after = before.update(k, before.last()).drop_last();
    let last = before.len() - 1;
    assert forall|y: usize| after.contains(y) <==> before.contains(y) && y != before[k] by {
        if after.contains(y) {
            let at = choose|at: int| 0 <= at < after.len() && after[at] == y;
            if at == k {
                assert(before[last] == y);
            } else {
                assert(before[at] == y);
            }
        }
        if before.contains(y) && y != before[k] {
            let at = choose|at: int| 0 <= at < before.len() && before[at] == y;
            if at == last {
                assert(after[k] == y);
            } else {
                assert(after[at] == y);
            }
        }
    }
}

/// Takes `x` out of a list without repetitions. The order of the others may change.
fn remove_value(list: &mut Vec<usize>, x: usize)
    requires
        old(list)@.no_duplicates(),
    ensures
        final(list)@.no_duplicates(),
        forall|y: usize| final(list)@.contains(y) <==> old(list)@.contains(y) && y != x,
{
    let mut k: usize = 0;
    while k < list.len()
        invariant
            k <= list@.len(),
            list@ == old(list)@,
            list@.no_duplicates(),
            forall|i: int| 0 <= i < k ==> list@[i] != x,
        decreases list@.len() - k,
    {
        if list[k] == x {
            let ghost before = list@;
            list.swap_remove(k);
            proof {
                lemma_swap_remove(before, k as int);
            }
            return ;
        }
        k = k + 1;
    }
}

/// A predecessor as the model holds it.
pub open spec fn widen(entry: Option<usize>) -> Option<int> {
    match entry {
        Some(p) => Some(p as int),
        None => None,
    }
}

/// The working state of one search.
pub struct Search {
    labels: Vec<Label>,
    pred: Vec<Option<usize>>,
    stage: Vec<Stage>,
    bags: Vec<Vec<usize>>,
    queue: ExpansionQueue,
    paths: Ghost<Seq<Seq<usize>>>,
}

impl View for Search {
    type V = SearchView;

    closed spec fn view(&self) -> SearchView {
        SearchView {
            labels: label_views(self.labels@),
            pred: self.pred@.map_values(|entry: Option<usize>| widen(entry)),
            stage: self.stage@,
            paths: self.paths@,
        }
    }
}

impl Search {
    /// Whether the frontiers and the queue hold what the labels' stages say:
    /// the bag of a node holds, once each, the labels that end there and are
    /// not removed; the queue holds every queued label, and besides them
    /// only removed ones, which are passed over when they come to the front.
    /// Each label carries its place among the labels as its number.
    pub closed spec fn wf(&self, inst: Instance) -> bool {
        &&& self.pred@.len() == self.labels@.len()
        &&& self.stage@.len() == self.labels@.len()
        &&& self.bags@.len() == inst.n()
        &&& forall|v: usize, k: int|
            v < self.bags@.len() && 0 <= k < self.bags@[v as int]@.len() ==> self@.live_at(
                v,
                #[trigger] self.bags@[v as int]@[k] as int,
            )
        &&& forall|v: int| 0 <= v < self.bags@.len() ==> (#[trigger] self.bags@[v])@.no_duplicates()
        &&& forall|j: usize|
            j < self.labels@.len() && self.stage@[j as int] != Stage::Removed ==> {
                &&& (#[trigger] self.labels@[j as int]).last_node < self.bags@.len()
                &&& self.bags@[self.labels@[j as int].last_node as int]@.contains(j)
            }
        &&& self@.numbered()
        &&& self.queue.wf(self@.labels)
        &&& forall|j: usize|
            #[trigger] self.queue@.contains(j) ==> j < self.labels@.len() && self.stage@[j as int]
                != Stage::Expanded
        &&& forall|j: usize| #[trigger] self@.queued(j as int) ==> self.queue@.contains(j)
    }

    /// The state in which a search on the pricer's instance starts.
    pub fn start(pricer: &Pricer) -> (search: Search)
        ensures
            search@ == start_state(pricer@),
            search.wf(pricer@),
    {
        let n = pricer.node_count();
        let start = pricer.start_depot();
        let mut bags: Vec<Vec<usize>> = Vec::new();
        let mut v: usize = 0;
        while v < n
            invariant
                v <= n,
                bags@.len() == v,
                forall|w: int| 0 <= w < v ==> (#[trigger] bags@[w])@ == Seq::<usize>::empty(),
            decreases n - v,
        {
            bags.push(Vec::new());
            v = v + 1;
        }
        let first = Label::new(0, start, 0, 0, 0, pricer.window(start).0, bitset_with_capacity(n));
        let mut labels: Vec<Label> = Vec::new();
        labels.push(first);
        let mut pred: Vec<Option<usize>> = Vec::new();
        pred.push(None);
        let mut stage: Vec<Stage> = Vec::new();
        stage.push(Stage::Queued);
        bags[start].push(0);
        let mut queue = ExpansionQueue::new();
        queue.push(&labels, 0);
        let ghost paths = seq![seq![start]];
        let search = Search { labels, pred, stage, bags, queue, paths: Ghost(paths) };
        proof {
            assert(search@.labels =~= start_state(pricer@).labels);
            assert(search@.pred =~= start_state(pricer@).pred);
            assert(search@.stage =~= start_state(pricer@).stage);
            assert(search.bags@[start as int]@ =~= seq![0usize]);
            assert forall|v: usize, k: int|
                v < search.bags@.len() && 0 <= k < search.bags@[v as int]@.len() implies search@.live_at(
                v,
                #[trigger] search.bags@[v as int]@[k] as int,
            ) by {
                assert(v == start);
            }
            assert forall|v: int| 0 <= v < search.bags@.len() implies (
            #[trigger] search.bags@[v])@.no_duplicates() by {}
            assert(search.bags@[start as int]@[0] == 0usize);
            assert(search.wf(pricer@));
        }
        search
    }

    /// Takes the next label out of the expansion queue and moves it to the
    /// processed part of its frontier. `None` means that the queue is empty.
    pub fn pop(&mut self, pricer: &Pricer) -> (next: Option<usize>)
        requires
            old(self).wf(pricer@),
        ensures
            final(self).wf(pricer@),
            match next {
                Some(p) => {
                    &&& next_up(old(self)@, p as int)
                    &&& final(self)@ == expanded(old(self)@, p as int)
                },
                None => old(self)@.drained() && final(self)@ == old(self)@,
            },
    {
        loop
            invariant
                self.wf(pricer@),
                self@ == old(self)@,
            decreases self.queue.size(),
        {
            let ghost before = *self;
            let p = match self.queue.pop(&self.labels) {
                Some(p) => p,
                None => {
                    proof {
                        assert forall|j: int| !self@.queued(j) by {
                            if self@.queued(j) {
                                assert(j < self.labels.len());
                                assert(self@.queued(j as usize as int));
                                assert(self.queue@.contains(j as usize));
                            }
                        }
                    }
                    return None;
                },
            };
            if self.stage[p] == Stage::Queued {
                proof {
                    assert forall|j: int| #[trigger] before@.queued(j) && j != p implies outranks(
                        before@.labels[p as int],
                        before@.labels[j],
                    ) by {
                        assert(j < before.labels.len());
                        assert(before@.queued(j as usize as int));
                        assert(before.queue@.contains(j as usize));
                    }
                }
                self.stage[p] = Stage::Expanded;
                proof {
                    assert(self@.stage =~= expanded(before@, p as int).stage);
                    assert(self@ == expanded(before@, p as int));
                    assert forall|v: usize, j: int| self@.live_at(v, j) == before@.live_at(v, j) by {}
                    assert forall|j: int| self@.queued(j) == (before@.queued(j) && j != p) by {}
                    assert forall|j: usize| #[trigger] self@.queued(j as int) implies self.queue@.contains(
                        j,
                    ) by {
                        assert(before@.queued(j as int));
                        assert(before.queue@.contains(j));
                    }
                    assert forall|j: usize|
                        j < self.labels@.len() && self.stage@[j as int] != Stage::Removed implies {
                        &&& (#[trigger] self.labels@[j as int]).last_node < self.bags@.len()
                        &&& self.bags@[self.labels@[j as int].last_node as int]@.contains(j)
                    } by {
                        assert(before.stage@[j as int] != Stage::Removed);
                    }
                    assert forall|j: usize| #[trigger] self.queue@.contains(j) implies j
                        < self.labels@.len() && self.stage@[j as int] != Stage::Expanded by {
                        assert(before.queue@.contains(j));
                    }
                }
                return Some(p);
            }
            proof {
                assert(before.queue@.contains(p));
                assert forall|j: usize| #[trigger] self@.queued(j as int) implies self.queue@.contains(
                    j,
                ) by {
                    assert(before.queue@.contains(j));
                }
                assert forall|j: usize| #[trigger] self.queue@.contains(j) implies j
                    < self.labels@.len() && self.stage@[j as int] != Stage::Expanded by {
                    assert(before.queue@.contains(j));
                }
            }
        }
    }

    /// Takes label `j` out of its frontier and out of the predecessor map,
    /// and marks it removed, so that the queue passes it over.
    fn discard(&mut self, pricer: &Pricer, j: usize)
        requires
            old(self).wf(pricer@),
            j < old(self)@.labels.len(),
        ensures
            final(self).wf(pricer@),
            final(self)@ == (SearchView {
                pred: old(self)@.pred.update(j as int, None),
                stage: old(self)@.stage.update(j as int, Stage::Removed),
                ..old(self)@
            }),
    {
        let ghost before = *self;
        let v = self.labels[j].last_node;
        let stage = self.stage[j];
        if stage != Stage::Removed {
            remove_value(&mut self.bags[v], j);
        }
        self.stage[j] = Stage::Removed;
        self.pred[j] = None;
        proof {
            let after = SearchView {
                pred: before@.pred.update(j as int, None),
                stage: before@.stage.update(j as int, Stage::Removed),
                ..before@
            };
            assert(self@.pred =~= after.pred);
            assert(self@.stage =~= after.stage);
            assert(self@ == after);
            assert forall|w: usize, i: int| self@.live_at(w, i) == (before@.live_at(w, i) && i != j) by {}
            assert forall|i: int| self@.queued(i) == (before@.queued(i) && i != j) by {}
            assert forall|w: usize, k: int|
                w < self.bags@.len() && 0 <= k < self.bags@[w as int]@.len() implies self@.live_at(
                w,
                #[trigger] self.bags@[w as int]@[k] as int,
            ) by {
                let old_bag = before.bags@[w as int]@;
                let x = self.bags@[w as int]@[k];
                assert(self.bags@[w as int]@.contains(x));
                assert(old_bag.contains(x));
                let at = choose|at: int| 0 <= at < old_bag.len() && old_bag[at] == x;
                assert(before@.live_at(w, before.bags@[w as int]@[at] as int));
                if x == j {
                    assert(w == v);
                }
            }
            assert forall|w: int| 0 <= w < self.bags@.len() implies (
            #[trigger] self.bags@[w])@.no_duplicates() by {
                assert(before.bags@[w]@.no_duplicates());
            }
            assert forall|i: usize|
                i < self.labels@.len() && self.stage@[i as int] != Stage::Removed implies {
                &&& (#[trigger] self.labels@[i as int]).last_node < self.bags@.len()
                &&& self.bags@[self.labels@[i as int].last_node as int]@.contains(i)
            } by {
                assert(before.stage@[i as int] != Stage::Removed);
                assert(before.bags@[before.labels@[i as int].last_node as int]@.contains(i));
            }
            assert forall|i: usize| #[trigger] self@.queued(i as int) implies self.queue@.contains(
                i,
            ) by {
                assert(before@.queued(i as int));
                assert(before.queue@.contains(i));
            }
            assert forall|i: usize| #[trigger] self.queue@.contains(i) implies i < self.labels@.len()
                && self.stage@[i as int] != Stage::Expanded by {
                assert(before.queue@.contains(i));
            }
        }
    }

    /// Takes the labels that `cand` dominates out of the frontier of `cand`'s
    /// node, out of the queue and out of the predecessor map.
    pub fn retire(&mut self, pricer: &Pricer, cand: &Label)
        requires
            old(self).wf(pricer@),
            cand.last_node < pricer@.n(),
        ensures
            final(self).wf(pricer@),
            final(self)@ == retired(pricer@, old(self)@, cand@),
    {
        let ghost before = *self;
        let v = cand.last_node;
        proof {
            assert forall|k: int| 0 <= k < self.bags@[v as int]@.len() implies (
            #[trigger] self.bags@[v as int]@[k]) < self.labels@.len() by {
                assert(self@.live_at(v, self.bags@[v as int]@[k] as int));
            }
        }
        let doomed = pricer.dominated_by(cand, &self.labels, &self.bags[v]);
        proof {
            assert forall|j: usize| doomed@.contains(j) <==> beaten(
                pricer@,
                before@,
                cand@,
                j as int,
            ) by {
                if before@.live_at(v, j as int) {
                    assert(before.bags@[v as int]@.contains(j));
                }
                if before.bags@[v as int]@.contains(j) {
                    let at = choose|at: int|
                        0 <= at < before.bags@[v as int]@.len() && before.bags@[v as int]@[at] == j;
                    assert(before@.live_at(v, before.bags@[v as int]@[at] as int));
                }
            }
        }
        let mut k: usize = 0;
        while k < doomed.len()
            invariant
                k <= doomed@.len(),
                self.wf(pricer@),
                self@.labels == before@.labels,
                self@.paths == before@.paths,
                self@.pred.len() == before@.pred.len(),
                self@.stage.len() == before@.stage.len(),
                before@.pred.len() == before@.labels.len(),
                before@.stage.len() == before@.labels.len(),
                forall|j: usize| doomed@.contains(j) ==> j < before@.labels.len(),
                forall|j: usize|
                    j < before@.labels.len() ==> #[trigger] self@.stage[j as int] == (if doomed@.take(
                        k as int,
                    ).contains(j) {
                        Stage::Removed
                    } else {
                        before@.stage[j as int]
                    }),
                forall|j: usize|
                    j < before@.labels.len() ==> #[trigger] self@.pred[j as int] == (if doomed@.take(
                        k as int,
                    ).contains(j) {
                        None
                    } else {
                        before@.pred[j as int]
                    }),
            decreases doomed@.len() - k,
        {
            let ghost seen = doomed@.take(k as int);
            let ghost next = doomed@.take(k as int + 1);
            let j = doomed[k];
            proof {
                assert(doomed@.contains(j));
            }
            self.discard(pricer, j);
            proof {
                assert(next == seen.push(j));
                assert forall|i: usize| next.contains(i) <==> seen.contains(i) || i == j by {
                    if next.contains(i) {
                        let at = choose|at: int| 0 <= at < next.len() && next[at] == i;
                        if at < k {
                            assert(seen[at] == i);
                        }
                    }
                    if seen.contains(i) {
                        let at = choose|at: int| 0 <= at < seen.len() && seen[at] == i;
                        assert(next[at] == i);
                    }
                    assert(next[k as int] == j);
                }
            }
            k = k + 1;
        }
        proof {
            assert(doomed@.take(k as int) == doomed@);
            let goal = retired(pricer@, before@, cand@);
            assert(before.labels.len() == before@.labels.len());
            assert forall|j: int| 0 <= j < goal.stage.len() implies self@.stage[j] == goal.stage[j] by {
                assert(self@.stage[j as usize as int] == self@.stage[j]);
            }
            assert forall|j: int| 0 <= j < goal.pred.len() implies self@.pred[j] == goal.pred[j] by {
                assert(self@.pred[j as usize as int] == self@.pred[j]);
            }
            assert(self@.stage =~= goal.stage);
            assert(self@.pred =~= goal.pred);
        }
    }

    /// Inserts `child`, extended from label `p`: unless it ends at the end
    /// depot, the labels it dominates are retired; then it joins its frontier
    /// and the queue, with `p` as its predecessor.
    pub fn insert(&mut self, pricer: &Pricer, child: Label, p: usize)
        requires
            old(self).wf(pricer@),
            old(self)@.paths.len() == old(self)@.labels.len(),
            p < old(self)@.labels.len(),
            child.last_node < pricer@.n(),
            child.id == old(self)@.labels.len(),
        ensures
            final(self).wf(pricer@),
            final(self)@ == admitted(pricer@, old(self)@, child@, p as int),
    {
        let ghost before = *self;
        let v = child.last_node;
        if v != pricer.end_depot() {
            self.retire(pricer, &child);
        }
        let ghost mid = *self;
        let id = self.labels.len();
        let ghost path = before.paths@[p as int].push(v);
        self.labels.push(child);
        self.pred.push(Some(p));
        self.stage.push(Stage::Queued);
        self.bags[v].push(id);
        proof {
            assert(self@.numbered()) by {
                assert forall|j: int| 0 <= j < self@.labels.len() implies (
                #[trigger] self@.labels[j]).id == j by {
                    if j < id {
                        assert(self@.labels[j] == mid@.labels[j]);
                    }
                }
            }
            self.queue.lemma_grow(mid@.labels, self@.labels);
            if self.queue@.contains(id) {
                self.queue.lemma_within(mid@.labels, id);
            }
        }
        self.queue.push(&self.labels, id);
        self.paths = Ghost(self.paths@.push(path));
        proof {
            let goal = admitted(pricer@, before@, child@, p as int);
            assert(self@.labels =~= goal.labels);
            assert(self@.pred =~= goal.pred);
            assert(self@.stage =~= goal.stage);
            assert(self@.paths =~= goal.paths);
            assert forall|w: usize, i: int|
                self@.live_at(w, i) == (mid@.live_at(w, i) || (i == id && w == v)) by {}
            assert forall|i: int| self@.queued(i) == (mid@.queued(i) || i == id) by {}
            assert forall|w: usize, k: int|
                w < self.bags@.len() && 0 <= k < self.bags@[w as int]@.len() implies self@.live_at(
                w,
                #[trigger] self.bags@[w as int]@[k] as int,
            ) by {
                if w == v && k == mid.bags@[v as int]@.len() {
                } else {
                    assert(mid@.live_at(w, mid.bags@[w as int]@[k] as int));
                }
            }
            assert forall|w: int| 0 <= w < self.bags@.len() implies (
            #[trigger] self.bags@[w])@.no_duplicates() by {
                assert(mid.bags@[w]@.no_duplicates());
                if w == v {
                    assert forall|k: int| 0 <= k < mid.bags@[w]@.len() implies mid.bags@[w]@[k]
                        != id by {
                        assert(mid@.live_at(v, mid.bags@[v as int]@[k] as int));
                    }
                }
            }
            assert forall|i: usize|
                i < self.labels@.len() && self.stage@[i as int] != Stage::Removed implies {
                &&& (#[trigger] self.labels@[i as int]).last_node < self.bags@.len()
                &&& self.bags@[self.labels@[i as int].last_node as int]@.contains(i)
            } by {
                if i < id {
                    assert(mid.stage@[i as int] != Stage::Removed);
                    let w = mid.labels@[i as int].last_node as int;
                    assert(mid.bags@[w]@.contains(i));
                    let at = choose|at: int| 0 <= at < mid.bags@[w]@.len() && mid.bags@[w]@[at] == i;
                    assert(self.bags@[w]@[at] == i);
                } else {
                    assert(self.bags@[v as int]@[mid.bags@[v as int]@.len() as int] == id);
                }
            }
            assert forall|i: usize| #[trigger] self@.queued(i as int) implies self.queue@.contains(
                i,
            ) by {
                if i < id {
                    assert(mid@.queued(i as int));
                    assert(mid.queue@.contains(i));
                }
            }
            assert forall|i: usize| #[trigger] self.queue@.contains(i) implies i < self.labels@.len()
                && self.stage@[i as int] != Stage::Expanded by {
                if i != id {
                    assert(mid.queue@.contains(i));
                }
            }
        }
    }

    /// Lets label `p` try the arc to `v`, as [`relaxed`] describes.
    pub fn relax(
        &mut self,
        pricer: &Pricer,
        duals: &BTreeMap<usize, i64>,
        forbidden_arcs: &BTreeSet<(usize, usize)>,
        p: usize,
        v: usize,
    ) -> (done: Result<(), PricingError>)
        requires
            old(self).wf(pricer@),
            consistent(pricer@, duals@, forbidden_arcs@, old(self)@),
            p < old(self)@.labels.len(),
            v < pricer@.n(),
        ensures
            match done {
                Ok(_) => {
                    &&& final(self).wf(pricer@)
                    &&& relaxed(pricer@, duals@, forbidden_arcs@, old(self)@, p as int, v) == Ok::<
                        SearchView,
                        PricingError,
                    >(final(self)@)
                },
                Err(e) => relaxed(pricer@, duals@, forbidden_arcs@, old(self)@, p as int, v) == Err::<
                    SearchView,
                    PricingError,
                >(e),
            },
    {
        proof {
            use_type_invariant(pricer);
            lemma_consistent_label(pricer@, duals@, forbidden_arcs@, self@, p as int);
        }
        if bitset_contains(&self.labels[p].visited, v) {
            return Ok(());
        }
        if is_forbidden(forbidden_arcs, self.labels[p].last_node, v) {
            return Ok(());
        }
        let child = match pricer.feasible_extension(&self.labels[p], v, duals, self.labels.len()) {
            Ok(Some(child)) => child,
            Ok(None) => {
                return Ok(());
            },
            Err(e) => {
                return Err(e);
            },
        };
        proof {
            assert forall|k: int| 0 <= k < self.bags@[v as int]@.len() implies (
            #[trigger] self.bags@[v as int]@[k]) < self.labels@.len() by {
                assert(self@.live_at(v, self.bags@[v as int]@[k] as int));
            }
        }
        let beaten = pricer.is_dominated(&child, &self.labels, &self.bags[v]);
        proof {
            let bag = self.bags@[v as int]@;
            if beaten {
                let k = choose|k: int|
                    0 <= k < bag.len() && dominates(
                        pricer@.elementary,
                        self.labels@[#[trigger] bag[k] as int]@,
                        child@,
                    );
                assert(self@.live_at(v, bag[k] as int));
                assert(dominated_at(pricer@, self@, child@));
            }
            if dominated_at(pricer@, self@, child@) {
                let j = choose|j: int| #[trigger]
                    self@.live_at(child@.node, j) && dominates(
                        pricer@.elementary,
                        self@.labels[j],
                        child@,
                    );
                assert(self.labels.len() == self.labels@.len());
                assert(self.labels@[j as usize as int].last_node == v);
                assert(bag.contains(j as usize));
                let k = choose|k: int| 0 <= k < bag.len() && bag[k] == j as usize;
                assert(dominates(pricer@.elementary, self.labels@[bag[k] as int]@, child@));
            }
        }
        if beaten {
            return Ok(());
        }
        self.insert(pricer, child, p);
        Ok(())
    }

    /// Lets label `p` try every arc that leaves its node, in their order.
    pub fn expand(
        &mut self,
        pricer: &Pricer,
        duals: &BTreeMap<usize, i64>,
        forbidden_arcs: &BTreeSet<(usize, usize)>,
        p: usize,
    ) -> (done: Result<(), PricingError>)
        requires
            old(self).wf(pricer@),
            consistent(pricer@, duals@, forbidden_arcs@, old(self)@),
            p < old(self)@.labels.len(),
        ensures
            match done {
                Ok(_) => {
                    &&& final(self).wf(pricer@)
                    &&& relaxed_upto(
                        pricer@,
                        duals@,
                        forbidden_arcs@,
                        old(self)@,
                        p as int,
                        pricer@.out(old(self)@.labels[p as int].node as int).len(),
                    ) == Ok::<SearchView, PricingError>(final(self)@)
                },
                Err(e) => relaxed_upto(
                    pricer@,
                    duals@,
                    forbidden_arcs@,
                    old(self)@,
                    p as int,
                    pricer@.out(old(self)@.labels[p as int].node as int).len(),
                ) == Err::<SearchView, PricingError>(e),
            },
    {
        let ghost before = self@;
        let ghost u = before.labels[p as int].node;
        let list = match pricer.successors(self.labels[p].last_node) {
            Some(list) => list,
            None => {
                return Ok(());
            },
        };
        proof {
            use_type_invariant(pricer);
            lemma_consistent_label(pricer@, duals@, forbidden_arcs@, before, p as int);
        }
        let mut k: usize = 0;
        while k < list.len()
            invariant
                k <= list@.len(),
                list@ == pricer@.out(u as int),
                before == old(self)@,
                pricer@.wf(),
                u < pricer@.n(),
                u == before.labels[p as int].node,
                self.wf(pricer@),
                consistent(pricer@, duals@, forbidden_arcs@, before),
                consistent(pricer@, duals@, forbidden_arcs@, self@),
                p < before.labels.len(),
                kept(before, self@),
                relaxed_upto(pricer@, duals@, forbidden_arcs@, before, p as int, k as nat) == Ok::<
                    SearchView,
                    PricingError,
                >(self@),
            decreases list@.len() - k,
        {
            let v = list[k];
            let ghost mid = self@;
            proof {
                assert(pricer@.out(u as int)[k as int] < pricer@.n());
                assert(mid.labels[p as int] == before.labels[p as int]);
                assert(pricer@.out(mid.labels[p as int].node as int).contains(v));
                lemma_relaxed_consistent(pricer@, duals@, forbidden_arcs@, mid, p as int, v);
            }
            match self.relax(pricer, duals, forbidden_arcs, p, v) {
                Ok(_) => {},
                Err(e) => {
                    proof {
                        lemma_relaxed_upto_stopped(
                            pricer@,
                            duals@,
                            forbidden_arcs@,
                            before,
                            p as int,
                            (k + 1) as nat,
                            list@.len(),
                        );
                    }
                    return Err(e);
                },
            }
            k = k + 1;
        }
        Ok(())
    }

    /// The frontier of node `v`: the labels that end there and are not
    /// removed, unprocessed and processed alike, each once.
    pub fn frontier(&self, pricer: &Pricer, v: usize) -> (bag: &Vec<usize>)
        requires
            self.wf(pricer@),
            v < pricer@.n(),
        ensures
            bag@.no_duplicates(),
            forall|j: usize| bag@.contains(j) <==> self@.live_at(v, j as int),
    {
        let bag = &self.bags[v];
        proof {
            assert forall|j: usize| bag@.contains(j) <==> self@.live_at(v, j as int) by {
                if bag@.contains(j) {
                    let at = choose|at: int| 0 <= at < bag@.len() && bag@[at] == j;
                    assert(self@.live_at(v, self.bags@[v as int]@[at] as int));
                }
                if self@.live_at(v, j as int) {
                    assert(self.labels@[j as int].last_node == v);
                }
            }
        }
        bag
    }

    /// How many labels the search has made.
    pub fn len(&self) -> (count: usize)
        ensures
            count == self@.labels.len(),
    {
        self.labels.len()
    }

    /// Label `j`.
    pub fn label(&self, j: usize) -> (label: &Label)
        requires
            j < self@.labels.len(),
        ensures
            label@ == self@.labels[j as int],
    {
        &self.labels[j]
    }

    /// Where label `j` stands in its life.
    pub fn stage(&self, j: usize) -> (stage: Stage)
        requires
            j < self@.labels.len(),
            self@.stage.len() == self@.labels.len(),
        ensures
            stage == self@.stage[j as int],
    {
        self.stage[j]
    }

    /// The label that label `j` was extended from, as far as the predecessor map holds it.
    pub fn pred(&self, j: usize) -> (parent: Option<usize>)
        requires
            j < self@.labels.len(),
            self@.pred.len() == self@.labels.len(),
        ensures
            widen(parent) == self@.pred[j as int],
    {
        self.pred[j]
    }
}

} // verus!
