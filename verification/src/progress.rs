//! Why every search ends: a bound on the work that the queued labels can
//! still cause, which each step of the search lowers.

use crate::extension::{extend, feasible, lemma_extend_sound, lemma_visited_count};
use crate::instance::Instance;
use crate::label::LabelView;
use crate::path::lemma_out_is_node;
use crate::reach::{
    consistent, lemma_consistent_label, lemma_expanded_consistent, lemma_head_exists,
    lemma_relaxed_upto_consistent,
};
use crate::search::{
    admitted, dominated_at, expanded, head, relaxed, relaxed_upto, retired, step, SearchView,
    Stage,
};
use vstd::prelude::*;

verus! {

/// The length of the longest out-list among the first `k` nodes.
pub open spec fn breadth(inst: Instance, k: nat) -> nat
    decreases k,
{
    if k == 0 {
        0
    } else {
        let rest = breadth(inst, (k - 1) as nat);
        let here = inst.out(k - 1).len();
        if here > rest {
            here
        } else {
            rest
        }
    }
}

/// A bound on the labels that descend from one label, itself included, when
/// no node has more than `d` out-neighbours and the label can still enter `r` nodes.
pub open spec fn credit(d: nat, r: nat) -> nat
    decreases r,
{
    if r == 0 {
        1
    } else {
        1 + d * credit(d, (r - 1) as nat)
    }
}

/// How many nodes a label can still enter.
pub open spec fn room(inst: Instance, label: LabelView) -> nat {
    if label.visited.len() <= inst.n() {
        (inst.n() - label.visited.len()) as nat
    } else {
        0
    }
}

/// The bound for each child of a label.
pub open spec fn spare(inst: Instance, label: LabelView) -> nat {
    if room(inst, label) >= 1 {
        credit(breadth(inst, inst.n() as nat), (room(inst, label) - 1) as nat)
    } else {
        0
    }
}

/// What label `j` adds to the backlog: its credit while it is queued, nothing afterwards.
pub open spec fn due(inst: Instance, s: SearchView, j: int) -> nat {
    if s.stage[j] == Stage::Queued {
        credit(breadth(inst, inst.n() as nat), room(inst, s.labels[j]))
    } else {
        0
    }
}

/// What the first `k` labels add to the backlog.
pub open spec fn pending(inst: Instance, s: SearchView, k: nat) -> nat
    decreases k,
{
    if k == 0 {
        0
    } else {
        pending(inst, s, (k - 1) as nat) + due(inst, s, k - 1)
    }
}

/// A bound on the labels that the search can still expand.
pub open spec fn backlog(inst: Instance, s: SearchView) -> nat {
    pending(inst, s, s.labels.len())
}

/// No out-list among the first `k` nodes is longer than `breadth(inst, k)`.
pub proof fn lemma_breadth(inst: Instance, k: nat, u: int)
    requires
        0 <= u < k,
    ensures
        inst.out(u).len() <= breadth(inst, k),
    decreases k,
{
    if u < k - 1 {
        lemma_breadth(inst, (k - 1) as nat, u);
    }
}

/// Where no label among the first `k` adds more in `t` than in `s`, and label
/// `p` among them adds less, the backlog of those labels has fallen by the difference.
pub proof fn lemma_pending_drop(inst: Instance, s: SearchView, t: SearchView, k: nat, p: int)
    requires
        0 <= p < k,
        forall|j: int| 0 <= j < k ==> #[trigger] due(inst, t, j) <= due(inst, s, j),
    ensures
        pending(inst, t, k) + due(inst, s, p) <= pending(inst, s, k) + due(inst, t, p),
    decreases k,
{
    if p < k - 1 {
        lemma_pending_drop(inst, s, t, (k - 1) as nat, p);
        assert(due(inst, t, k - 1) <= due(inst, s, k - 1));
    } else {
        lemma_pending_le(inst, s, t, (k - 1) as nat);
    }
}

/// Where no label among the first `k` adds more in `t` than in `s`, the
/// backlog of those labels has not grown.
pub proof fn lemma_pending_le(inst: Instance, s: SearchView, t: SearchView, k: nat)
    requires
        forall|j: int| 0 <= j < k ==> #[trigger] due(inst, t, j) <= due(inst, s, j),
    ensures
        pending(inst, t, k) <= pending(inst, s, k),
    decreases k,
{
    if k > 0 {
        lemma_pending_le(inst, s, t, (k - 1) as nat);
        assert(due(inst, t, k - 1) <= due(inst, s, k - 1));
    }
}

/// When a queued label leaves the queue, the backlog falls by its credit.
pub proof fn lemma_expanded_backlog(inst: Instance, s: SearchView, p: int)
    requires
        s.queued(p),
        s.stage.len() == s.labels.len(),
    ensures
        backlog(inst, expanded(s, p)) + due(inst, s, p) <= backlog(inst, s),
{
    let t = expanded(s, p);
    assert forall|j: int| 0 <= j < s.labels.len() implies #[trigger] due(inst, t, j) <= due(
        inst,
        s,
        j,
    ) by {}
    lemma_pending_drop(inst, s, t, s.labels.len(), p);
}

/// Trying one arc adds to the backlog at most the bound for one child.
pub proof fn lemma_relaxed_backlog(
    inst: Instance,
    duals: Map<usize, i64>,
    forb: Set<(usize, usize)>,
    s: SearchView,
    p: int,
    v: usize,
)
    requires
        inst.wf(),
        consistent(inst, duals, forb, s),
        0 <= p < s.labels.len(),
        inst.out(s.labels[p].node as int).contains(v),
    ensures
        match relaxed(inst, duals, forb, s, p, v) {
            Ok(t) => backlog(inst, t) <= backlog(inst, s) + spare(inst, s.labels[p]),
            Err(e) => true,
        },
{
    let parent = s.labels[p];
    if !parent.visited.contains(v as int) && !forb.contains((parent.node, v)) && duals.contains_key(
        parent.node,
    ) {
        let child = extend(inst, parent, v, duals[parent.node] as int, s.labels.len() as int);
        if feasible(inst, child) && !dominated_at(inst, s, child) {
            let t = admitted(inst, s, child, p);
            let mid = if child.node == inst.end {
                s
            } else {
                retired(inst, s, child)
            };
            lemma_consistent_label(inst, duals, forb, s, p);
            lemma_out_is_node(inst, parent.node, v);
            lemma_extend_sound(inst, parent, v, duals[parent.node], s.labels.len() as int);
            lemma_visited_count(inst, child);
            assert(room(inst, child) == room(inst, parent) - 1);
            assert forall|j: int| 0 <= j < s.labels.len() implies #[trigger] due(inst, t, j) <= due(
                inst,
                s,
                j,
            ) by {
                assert(t.stage[j] == mid.stage[j]);
                assert(t.labels[j] == s.labels[j]);
            }
            lemma_pending_le(inst, s, t, s.labels.len());
            assert(due(inst, t, s.labels.len() as int) == spare(inst, parent));
        }
    }
}

/// Trying the first `k` arcs adds to the backlog at most the bound for `k` children.
pub proof fn lemma_relaxed_upto_backlog(
    inst: Instance,
    duals: Map<usize, i64>,
    forb: Set<(usize, usize)>,
    s: SearchView,
    p: int,
    k: nat,
)
    requires
        inst.wf(),
        consistent(inst, duals, forb, s),
        0 <= p < s.labels.len(),
        k <= inst.out(s.labels[p].node as int).len(),
    ensures
        match relaxed_upto(inst, duals, forb, s, p, k) {
            Ok(t) => backlog(inst, t) <= backlog(inst, s) + k * spare(inst, s.labels[p]),
            Err(e) => true,
        },
    decreases k,
{
    if k > 0 {
        lemma_relaxed_upto_backlog(inst, duals, forb, s, p, (k - 1) as nat);
        lemma_relaxed_upto_consistent(inst, duals, forb, s, p, (k - 1) as nat);
        if let Ok(t) = relaxed_upto(inst, duals, forb, s, p, (k - 1) as nat) {
            let v = inst.out(s.labels[p].node as int)[k - 1];
            assert(t.labels[p] == s.labels[p]);
            lemma_relaxed_backlog(inst, duals, forb, t, p, v);
            let c = spare(inst, s.labels[p]);
            assert(k * c == (k - 1) * c + c) by (nonlinear_arith);
        }
    } else {
        assert(0 * spare(inst, s.labels[p]) == 0);
    }
}

/// Each step of a search whose queue holds a label lowers the backlog.
pub proof fn lemma_step_backlog(
    inst: Instance,
    duals: Map<usize, i64>,
    forb: Set<(usize, usize)>,
    s: SearchView,
)
    requires
        inst.wf(),
        consistent(inst, duals, forb, s),
        !s.drained(),
    ensures
        match step(inst, duals, forb, s) {
            Ok(t) => backlog(inst, t) < backlog(inst, s),
            Err(e) => true,
        },
{
    lemma_head_exists(inst, duals, forb, s);
    let p = head(s);
    let mid = expanded(s, p);
    let list = inst.out(s.labels[p].node as int);
    lemma_expanded_consistent(inst, duals, forb, s, p);
    lemma_expanded_backlog(inst, s, p);
    lemma_relaxed_upto_backlog(inst, duals, forb, mid, p, list.len());
    lemma_consistent_label(inst, duals, forb, s, p);
    lemma_breadth(inst, inst.n() as nat, s.labels[p].node as int);
    let d = breadth(inst, inst.n() as nat);
    let c = spare(inst, s.labels[p]);
    assert(list.len() * c <= d * c) by (nonlinear_arith)
        requires
            list.len() <= d,
            c >= 0,
    ;
    assert(due(inst, s, p) >= 1 + d * c) by {
        if room(inst, s.labels[p]) == 0 {
            assert(d * c == 0) by (nonlinear_arith)
                requires
                    c == 0,
            ;
        }
    }
}

} // verus!
