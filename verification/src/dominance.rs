//! Dominance between labels at one node, and the comparisons of a label with
//! a bag of labels.

use crate::instance::Pricer;
use crate::label::{Label, LabelView};
use crate::visited::bitset_is_subset;
use vstd::prelude::*;

verus! {

/// Whether `a` dominates `b`: `a` is no worse in service start, reduced cost
/// and load, better in one of them, and, in the elementary mode, has entered
/// no node that `b` has not.
pub open spec fn dominates(elementary: bool, a: LabelView, b: LabelView) -> bool {
    &&& a.etime <= b.etime
    &&& a.rcost <= b.rcost
    &&& a.demand <= b.demand
    &&& (a.etime < b.etime || a.rcost < b.rcost || a.demand < b.demand)
    &&& elementary ==> a.visited.subset_of(b.visited)
}

/// Whether every number of `bag` names a label of `labels`.
pub open spec fn bag_within(labels: Seq<Label>, bag: Seq<usize>) -> bool {
    forall|k: int| 0 <= k < bag.len() ==> (#[trigger] bag[k]) < labels.len()
}

/// Whether some label of `bag` dominates `label`.
pub open spec fn dominated_in(
    elementary: bool,
    label: LabelView,
    labels: Seq<Label>,
    bag: Seq<usize>,
) -> bool {
    exists|k: int| 0 <= k < bag.len() && dominates(elementary, labels[#[trigger] bag[k] as int]@, label)
}

impl Pricer {
    /// Whether `la` dominates `lb`.
    pub fn dominates(&self, la: &Label, lb: &Label) -> (yes: bool)
        ensures
            yes == dominates(self@.elementary, la@, lb@),
    {
        let less_than_or_eq = la.earliest_time <= lb.earliest_time && la.reduced_cost
            <= lb.reduced_cost && la.demand <= lb.demand;
        let one_is_less = la.earliest_time < lb.earliest_time || la.reduced_cost < lb.reduced_cost
            || la.demand < lb.demand;
        let dominates_non_elementary = less_than_or_eq && one_is_less;
        if self.get_elementary() {
            dominates_non_elementary && bitset_is_subset(&la.visited, &lb.visited)
        } else {
            dominates_non_elementary
        }
    }

    /// The labels of bag `a` that some label of bag `b` dominates, in the order of `a`.
    pub fn _dominance_check(&self, labels: &Vec<Label>, a: &Vec<usize>, b: &Vec<usize>) -> (result:
        Vec<usize>)
        requires
            bag_within(labels@, a@),
            bag_within(labels@, b@),
        ensures
            result@ == a@.filter(
                |i: usize| dominated_in(self@.elementary, labels@[i as int]@, labels@, b@),
            ),
    {
        let ghost pred = |i: usize| dominated_in(self@.elementary, labels@[i as int]@, labels@, b@);
        let mut result: Vec<usize> = Vec::new();
        let mut k: usize = 0;
        while k < a.len()
            invariant
                k <= a@.len(),
                bag_within(labels@, a@),
                bag_within(labels@, b@),
                pred == |i: usize| dominated_in(self@.elementary, labels@[i as int]@, labels@, b@),
                result@ == a@.take(k as int).filter(pred),
            decreases a@.len() - k,
        {
            let i = a[k];
            let hit = self.is_dominated(&labels[i], labels, b);
            proof {
                a@.take(k as int).lemma_filter_push(i, pred);
                assert(a@.take(k as int).push(i) == a@.take(k as int + 1));
            }
            if hit {
                result.push(i);
            }
            k = k + 1;
        }
        proof {
            assert(a@.take(k as int) == a@);
        }
        result
    }

    /// Whether some label of `bag` dominates `label`.
    pub fn is_dominated(&self, label: &Label, labels: &Vec<Label>, bag: &Vec<usize>) -> (yes: bool)
        requires
            bag_within(labels@, bag@),
        ensures
            yes == dominated_in(self@.elementary, label@, labels@, bag@),
    {
        let mut k: usize = 0;
        while k < bag.len()
            invariant
                k <= bag@.len(),
                bag_within(labels@, bag@),
                forall|j: int|
                    0 <= j < k ==> !dominates(
                        self@.elementary,
                        labels@[#[trigger] bag@[j] as int]@,
                        label@,
                    ),
            decreases bag@.len() - k,
        {
            if self.dominates(&labels[bag[k]], label) {
                return true;
            }
            k = k + 1;
        }
        false
    }

    /// The labels of `bag` that `label` dominates, in the order of `bag`.
    pub fn dominated_by(&self, label: &Label, labels: &Vec<Label>, bag: &Vec<usize>) -> (result:
        Vec<usize>)
        requires
            bag_within(labels@, bag@),
        ensures
            result@ == bag@.filter(
                |i: usize| dominates(self@.elementary, label@, labels@[i as int]@),
            ),
            forall|i: usize|
                result@.contains(i) <==> bag@.contains(i) && dominates(
                    self@.elementary,
                    label@,
                    labels@[i as int]@,
                ),
    {
        let ghost pred = |i: usize| dominates(self@.elementary, label@, labels@[i as int]@);
        let mut result: Vec<usize> = Vec::new();
        let mut k: usize = 0;
        while k < bag.len()
            invariant
                k <= bag@.len(),
                bag_within(labels@, bag@),
                pred == |i: usize| dominates(self@.elementary, label@, labels@[i as int]@),
                result@ == bag@.take(k as int).filter(pred),
                forall|i: usize|
                    result@.contains(i) <==> bag@.take(k as int).contains(i) && pred(i),
            decreases bag@.len() - k,
        {
            let i = bag[k];
            let hit = self.dominates(label, &labels[i]);
            let ghost before = result@;
            proof {
                bag@.take(k as int).lemma_filter_push(i, pred);
                assert(bag@.take(k as int).push(i) == bag@.take(k as int + 1));
            }
            if hit {
                result.push(i);
            }
            proof {
                let seen = bag@.take(k as int);
                let next = bag@.take(k as int + 1);
                assert forall|x: usize| result@.contains(x) <==> next.contains(x) && pred(x) by {
                    if result@.contains(x) {
                        let at = choose|at: int| 0 <= at < result@.len() && result@[at] == x;
                        if at < before.len() {
                            assert(before.contains(x));
                            let w = choose|w: int| 0 <= w < seen.len() && seen[w] == x;
                            assert(next[w] == x);
                        } else {
                            assert(next[k as int] == x);
                        }
                    }
                    if next.contains(x) && pred(x) {
                        let w = choose|w: int| 0 <= w < next.len() && next[w] == x;
                        if w < k {
                            assert(seen[w] == x);
                            assert(before.contains(x));
                            let at = choose|at: int| 0 <= at < before.len() && before[at] == x;
                            assert(result@[at] == x);
                        } else {
                            assert(result@[result@.len() - 1] == x);
                        }
                    }
                }
            }
            k = k + 1;
        }
        proof {
            assert(bag@.take(k as int) == bag@);
        }
        result
    }
}

} // verus!
