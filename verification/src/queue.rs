//! The expansion queue: the numbers of the labels that wait to be expanded,
//! kept as a binary heap so that the label that leaves next stands in front.

use crate::label::{label_views, Label, LabelView};
use crate::search::outranks;
use vstd::prelude::*;

verus! {

/// Whether label `a` is label `b` or leaves the queue before it.
pub open spec fn ahead(labels: Seq<LabelView>, a: usize, b: usize) -> bool {
    a == b || outranks(labels[a as int], labels[b as int])
}

/// Whether every label carries its place in the list as its number.
pub open spec fn numbered(labels: Seq<LabelView>) -> bool {
    forall|j: int| 0 <= j < labels.len() ==> (#[trigger] labels[j]).id == j
}

/// Exchanging two entries of a list without repetitions keeps its entries
/// and repeats none.
proof fn lemma_exchange(before: Seq<usize>, i: int, j: int)
    requires
        before.no_duplicates(),
        0 <= i < before.len(),
        0 <= j < before.len(),
    ensures
        before.update(i, before[j]).update(j, before[i]).no_duplicates(),
        forall|x: usize|
            before.update(i, before[j]).update(j, before[i]).contains(x) <==> before.contains(x),
{
    let after = before.update(i, before[j]).update(j, before[i]);
    assert forall|x: usize| after.contains(x) <==> before.contains(x) by {
        if after.contains(x) {
            let at = choose|at: int| 0 <= at < after.len() && after[at] == x;
            if at == i {
                assert(before[j] == x);
            } else if at == j {
                assert(before[i] == x);
            } else {
                assert(before[at] == x);
            }
        }
        if before.contains(x) {
            let at = choose|at: int| 0 <= at < before.len() && before[at] == x;
            if at == i {
                assert(after[j] == x);
            } else if at == j {
                assert(after[i] == x);
            } else {
                assert(after[at] == x);
            }
        }
    }
}

/// The labels that wait to be expanded.
pub struct ExpansionQueue {
    heap: Vec<usize>,
}

impl View for ExpansionQueue {
    type V = Set<usize>;

    closed spec fn view(&self) -> Set<usize> {
        self.heap@.to_set()
    }
}

impl ExpansionQueue {
    /// How many labels wait.
    pub closed spec fn size(&self) -> nat {
        self.heap@.len()
    }

    /// Whether the queue holds each of its labels once, all of them labels
    /// of the list, and no label stands behind one that leaves after it.
    pub closed spec fn wf(&self, labels: Seq<LabelView>) -> bool {
        &&& self.heap@.no_duplicates()
        &&& forall|k: int| 0 <= k < self.heap@.len() ==> (#[trigger] self.heap@[k]) < labels.len()
        &&& forall|k: int|
            1 <= k < self.heap@.len() ==> ahead(labels, self.heap@[(k - 1) / 2], #[trigger] self.heap@[k])
    }

    /// A queue that stays in order when labels are added to the list.
    pub proof fn lemma_grow(&self, labels: Seq<LabelView>, more: Seq<LabelView>)
        requires
            self.wf(labels),
            labels.len() <= more.len(),
            forall|j: int| 0 <= j < labels.len() ==> #[trigger] more[j] == labels[j],
        ensures
            self.wf(more),
    {
        assert forall|k: int| 1 <= k < self.heap@.len() implies ahead(
            more,
            self.heap@[(k - 1) / 2],
            #[trigger] self.heap@[k],
        ) by {
            assert(ahead(labels, self.heap@[(k - 1) / 2], self.heap@[k]));
            assert(self.heap@[(k - 1) / 2] < labels.len());
            assert(self.heap@[k] < labels.len());
        }
    }

    /// Every label of the queue is a label of the list.
    pub proof fn lemma_within(&self, labels: Seq<LabelView>, id: usize)
        requires
            self.wf(labels),
            self@.contains(id),
        ensures
            id < labels.len(),
    {
        let at = choose|at: int| 0 <= at < self.heap@.len() && self.heap@[at] == id;
        assert(self.heap@[at] < labels.len());
    }

    /// A queue in which no label waits.
    pub fn new() -> (queue: ExpansionQueue)
        ensures
            queue@ == Set::<usize>::empty(),
            queue.size() == 0,
            forall|labels: Seq<LabelView>| queue.wf(labels),
    {
        let queue = ExpansionQueue { heap: Vec::new() };
        proof {
            assert(queue@ =~= Set::<usize>::empty());
        }
        queue
    }

    /// Whether no label waits.
    pub fn is_empty(&self) -> (empty: bool)
        ensures
            empty == (self.size() == 0),
            empty ==> self@ == Set::<usize>::empty(),
    {
        proof {
            if self.heap@.len() == 0 {
                assert(self@ =~= Set::<usize>::empty());
            }
        }
        self.heap.len() == 0
    }

    /// The label in front is, or leaves before, every label of the queue.
    proof fn lemma_front(&self, labels: Seq<LabelView>, k: int)
        requires
            self.wf(labels),
            0 <= k < self.heap@.len(),
        ensures
            ahead(labels, self.heap@[0], self.heap@[k]),
        decreases k,
    {
        if k >= 1 {
            self.lemma_front(labels, (k - 1) / 2);
            assert(ahead(labels, self.heap@[(k - 1) / 2], self.heap@[k]));
        }
    }

    /// Lets label `id` wait in the queue.
    pub fn push(&mut self, labels: &Vec<Label>, id: usize)
        requires
            old(self).wf(label_views(labels@)),
            numbered(label_views(labels@)),
            id < labels@.len(),
            !old(self)@.contains(id),
        ensures
            final(self).wf(label_views(labels@)),
            final(self)@ == old(self)@.insert(id),
            final(self).size() == old(self).size() + 1,
    {
        let ghost all = label_views(labels@);
        let ghost target = self@.insert(id);
        let ghost start = self.heap@;
        self.heap.push(id);
        let mut i: usize = self.heap.len() - 1;
        proof {
            assert forall|x: usize| self.heap@.contains(x) <==> target.contains(x) by {
                if self.heap@.contains(x) {
                    let at = choose|at: int| 0 <= at < self.heap@.len() && self.heap@[at] == x;
                    if at < start.len() {
                        assert(start[at] == x);
                    }
                }
                if start.contains(x) {
                    let at = choose|at: int| 0 <= at < start.len() && start[at] == x;
                    assert(self.heap@[at] == x);
                }
                assert(self.heap@[i as int] == id);
            }
            assert forall|k: int| 1 <= k < self.heap@.len() && k != i implies ahead(
                all,
                self.heap@[(k - 1) / 2],
                #[trigger] self.heap@[k],
            ) by {
                assert(ahead(all, start[(k - 1) / 2], start[k]));
            }
        }
        while i > 0
            invariant
                all == label_views(labels@),
                numbered(all),
                i < self.heap@.len(),
                self.heap@.len() == start.len() + 1,
                self.heap@.no_duplicates(),
                forall|k: int| 0 <= k < self.heap@.len() ==> (#[trigger] self.heap@[k]) < all.len(),
                forall|x: usize| self.heap@.contains(x) <==> target.contains(x),
                forall|k: int|
                    1 <= k < self.heap@.len() && k != i ==> ahead(
                        all,
                        self.heap@[(k - 1) / 2],
                        #[trigger] self.heap@[k],
                    ),
                forall|k: int|
                    1 <= k < self.heap@.len() && (k - 1) / 2 == i && i >= 1 ==> ahead(
                        all,
                        self.heap@[(i - 1) / 2],
                        #[trigger] self.heap@[k],
                    ),
            ensures
                self.heap@.len() == start.len() + 1,
                self.heap@.no_duplicates(),
                forall|k: int| 0 <= k < self.heap@.len() ==> (#[trigger] self.heap@[k]) < all.len(),
                forall|x: usize| self.heap@.contains(x) <==> target.contains(x),
                forall|k: int|
                    1 <= k < self.heap@.len() ==> ahead(
                        all,
                        self.heap@[(k - 1) / 2],
                        #[trigger] self.heap@[k],
                    ),
            decreases i,
        {
            let parent = (i - 1) / 2;
            let here = self.heap[i];
            let above = self.heap[parent];
            if !labels[here].leaves_before(&labels[above]) {
                break ;
            }
            let ghost before = self.heap@;
            self.heap[i] = above;
            self.heap[parent] = here;
            proof {
                lemma_exchange(before, i as int, parent as int);
                let after = self.heap@;
                assert(after == before.update(i as int, before[parent as int]).update(
                    parent as int,
                    before[i as int],
                ));
                assert forall|k: int| 1 <= k < after.len() && k != parent implies ahead(
                    all,
                    after[(k - 1) / 2],
                    #[trigger] after[k],
                ) by {
                    let up = (k - 1) / 2;
                    if k == i {
                    } else if up == i {
                        assert(ahead(all, before[parent as int], before[k]));
                    } else if up == parent {
                        assert(ahead(all, before[parent as int], before[k]));
                    } else {
                        assert(ahead(all, before[up], before[k]));
                    }
                }
                assert forall|k: int|
                    1 <= k < after.len() && (k - 1) / 2 == parent && parent >= 1 implies ahead(
                    all,
                    after[(parent - 1) / 2],
                    #[trigger] after[k],
                ) by {
                    assert(ahead(all, before[(parent - 1) / 2], before[parent as int]));
                    if k != i {
                        assert(ahead(all, before[parent as int], before[k]));
                    }
                }
            }
            i = parent;
        }
        proof {
            assert(self@ =~= target);
        }
    }

    /// Takes the label that leaves next out of the queue: it leaves before
    /// every other label that waited. `None` means that none waited.
    pub fn pop(&mut self, labels: &Vec<Label>) -> (next: Option<usize>)
        requires
            old(self).wf(label_views(labels@)),
            numbered(label_views(labels@)),
        ensures
            final(self).wf(label_views(labels@)),
            match next {
                Some(id) => {
                    &&& old(self)@.contains(id)
                    &&& final(self)@ == old(self)@.remove(id)
                    &&& final(self).size() == old(self).size() - 1
                    &&& forall|other: usize|
                        old(self)@.contains(other) && other != id ==> outranks(
                            label_views(labels@)[id as int],
                            #[trigger] label_views(labels@)[other as int],
                        )
                },
                None => {
                    &&& old(self)@ == Set::<usize>::empty()
                    &&& final(self)@ == old(self)@
                    &&& final(self).size() == old(self).size()
                },
            },
    {
        let ghost all = label_views(labels@);
        let ghost start = self.heap@;
        if self.heap.len() == 0 {
            proof {
                assert(self@ =~= Set::<usize>::empty());
            }
            return None;
        }
        let front = self.heap[0];
        let ghost target = self@.remove(front);
        proof {
            assert forall|other: usize| self@.contains(other) && other != front implies outranks(
                all[front as int],
                #[trigger] all[other as int],
            ) by {
                let at = choose|at: int| 0 <= at < start.len() && start[at] == other;
                self.lemma_front(all, at);
            }
        }
        let last = self.heap.pop().unwrap();
        let len = self.heap.len();
        if len == 0 {
            proof {
                assert(self@ =~= target);
            }
            return Some(front);
        }
        self.heap[0] = last;
        let mut i: usize = 0;
        proof {
            let now = self.heap@;
            assert forall|x: usize| now.contains(x) <==> target.contains(x) by {
                if now.contains(x) {
                    let at = choose|at: int| 0 <= at < now.len() && now[at] == x;
                    if at == 0 {
                        assert(start[len as int] == x);
                    } else {
                        assert(start[at] == x);
                    }
                }
                if target.contains(x) {
                    let at = choose|at: int| 0 <= at < start.len() && start[at] == x;
                    if at == len {
                        assert(now[0] == x);
                    } else {
                        assert(now[at] == x);
                    }
                }
            }
            assert forall|k: int| 1 <= k < now.len() && (k - 1) / 2 != 0 implies ahead(
                all,
                now[(k - 1) / 2],
                #[trigger] now[k],
            ) by {
                assert(ahead(all, start[(k - 1) / 2], start[k]));
            }
        }
        loop
            invariant
                all == label_views(labels@),
                numbered(all),
                len == self.heap@.len(),
                len == start.len() - 1,
                i < len,
                self.heap@.no_duplicates(),
                forall|k: int| 0 <= k < self.heap@.len() ==> (#[trigger] self.heap@[k]) < all.len(),
                forall|x: usize| self.heap@.contains(x) <==> target.contains(x),
                forall|k: int|
                    1 <= k < self.heap@.len() && (k - 1) / 2 != i ==> ahead(
                        all,
                        self.heap@[(k - 1) / 2],
                        #[trigger] self.heap@[k],
                    ),
                forall|k: int|
                    1 <= k < self.heap@.len() && (k - 1) / 2 == i && i >= 1 ==> ahead(
                        all,
                        self.heap@[(i - 1) / 2],
                        #[trigger] self.heap@[k],
                    ),
            ensures
                len == self.heap@.len(),
                len == start.len() - 1,
                self.heap@.no_duplicates(),
                forall|k: int| 0 <= k < self.heap@.len() ==> (#[trigger] self.heap@[k]) < all.len(),
                forall|x: usize| self.heap@.contains(x) <==> target.contains(x),
                forall|k: int|
                    1 <= k < self.heap@.len() ==> ahead(
                        all,
                        self.heap@[(k - 1) / 2],
                        #[trigger] self.heap@[k],
                    ),
            decreases len - i,
        {
            if i >= len / 2 {
                break ;
            }
            let left = 2 * i + 1;
            let right = left + 1;
            let mut best = left;
            if right < len && labels[self.heap[right]].leaves_before(&labels[self.heap[left]]) {
                best = right;
            }
            let here = self.heap[i];
            let below = self.heap[best];
            if !labels[below].leaves_before(&labels[here]) {
                proof {
                    assert forall|k: int| 1 <= k < self.heap@.len() && (k - 1) / 2 == i implies ahead(
                        all,
                        self.heap@[i as int],
                        #[trigger] self.heap@[k],
                    ) by {
                        assert(k == left || k == right);
                    }
                }
                break ;
            }
            let ghost before = self.heap@;
            self.heap[i] = below;
            self.heap[best] = here;
            proof {
                lemma_exchange(before, i as int, best as int);
                let after = self.heap@;
                assert(after == before.update(i as int, before[best as int]).update(
                    best as int,
                    before[i as int],
                ));
                assert forall|k: int| 1 <= k < after.len() && (k - 1) / 2 != best implies ahead(
                    all,
                    after[(k - 1) / 2],
                    #[trigger] after[k],
                ) by {
                    let up = (k - 1) / 2;
                    if up == i {
                        assert(k == left || k == right);
                    } else if k == i {
                        assert(ahead(all, before[(i - 1) / 2], before[best as int]));
                    } else {
                        assert(ahead(all, before[up], before[k]));
                    }
                }
                assert forall|k: int| 1 <= k < after.len() && (k - 1) / 2 == best implies ahead(
                    all,
                    after[(best - 1) / 2],
                    #[trigger] after[k],
                ) by {
                    assert(ahead(all, before[best as int], before[k]));
                }
            }
            i = best;
        }
        proof {
            assert(self@ =~= target);
        }
        Some(front)
    }
}

} // verus!
