//! What holds of every state that a search reaches: each label sums up a path
//! that the search may follow, the predecessor map follows those paths, and
//! the frontier of every node but the end depot is an antichain.

use crate::dominance::dominates;
use crate::error::PricingError;
use crate::extension::{extend, feasible, sound};
use crate::instance::Instance;
use crate::label::LabelView;
use crate::path::{
    label_of, lemma_label_of_id, lemma_out_is_node, lemma_valid_path_label, valid_path,
};
use crate::search::{
    admitted, beaten, dominated_at, expanded, head, next_up, outranks, relaxed, relaxed_upto,
    retired, run, start_state, step, SearchView,
};
use vstd::prelude::*;

verus! {

/// Whether label `j` sums up its path, the search may follow that path, and
/// the predecessor of `j`, where the map holds one, is an older label whose
/// path is the path of `j` without its last node.
pub open spec fn tied(
    inst: Instance,
    duals: Map<usize, i64>,
    forb: Set<(usize, usize)>,
    s: SearchView,
    j: int,
) -> bool {
    &&& valid_path(inst, duals, forb, s.paths[j])
    &&& s.labels[j] == label_of(inst, duals, s.paths[j], j)
    &&& match s.pred[j] {
        Some(p) => 0 <= p < j && s.paths[j] == s.paths[p].push(s.labels[j].node),
        None => true,
    }
}

/// Whether in the frontier of every node but the end depot no label dominates another.
pub open spec fn antichain(inst: Instance, s: SearchView) -> bool {
    forall|v: usize, i: int, j: int|
        v != inst.end && i != j && #[trigger] s.live_at(v, i) && #[trigger] s.live_at(v, j)
            ==> !dominates(inst.elementary, s.labels[i], s.labels[j])
}

/// What holds of every state that a search reaches.
pub open spec fn consistent(
    inst: Instance,
    duals: Map<usize, i64>,
    forb: Set<(usize, usize)>,
    s: SearchView,
) -> bool {
    &&& s.labels.len() >= 1
    &&& s.pred.len() == s.labels.len()
    &&& s.stage.len() == s.labels.len()
    &&& s.paths.len() == s.labels.len()
    &&& s.paths[0] == seq![inst.start]
    &&& forall|j: int| 0 <= j < s.labels.len() ==> #[trigger] tied(inst, duals, forb, s, j)
    &&& antichain(inst, s)
}

/// In a consistent state every label is sound, carries its own number and
/// ends where its path ends.
pub proof fn lemma_consistent_label(
    inst: Instance,
    duals: Map<usize, i64>,
    forb: Set<(usize, usize)>,
    s: SearchView,
    j: int,
)
    requires
        inst.wf(),
        consistent(inst, duals, forb, s),
        0 <= j < s.labels.len(),
    ensures
        sound(inst, s.labels[j]),
        s.labels[j].id == j,
        s.labels[j].node == s.paths[j].last(),
        s.labels[j].visited.len() == s.paths[j].len() - 1,
{
    assert(tied(inst, duals, forb, s, j));
    lemma_valid_path_label(inst, duals, forb, s.paths[j], j);
}

/// In a consistent state every label carries its place among the labels as its number.
pub proof fn lemma_consistent_numbered(
    inst: Instance,
    duals: Map<usize, i64>,
    forb: Set<(usize, usize)>,
    s: SearchView,
)
    requires
        inst.wf(),
        consistent(inst, duals, forb, s),
    ensures
        s.numbered(),
{
    assert forall|j: int| 0 <= j < s.labels.len() implies (#[trigger] s.labels[j]).id == j by {
        lemma_consistent_label(inst, duals, forb, s, j);
    }
}

/// The start state is consistent.
pub proof fn lemma_start_consistent(inst: Instance, duals: Map<usize, i64>, forb: Set<(usize, usize)>)
    requires
        inst.wf(),
    ensures
        consistent(inst, duals, forb, start_state(inst)),
{
    let s = start_state(inst);
    assert(tied(inst, duals, forb, s, 0));
}

/// Moving a queued label to the processed part of its frontier keeps the state consistent.
pub proof fn lemma_expanded_consistent(
    inst: Instance,
    duals: Map<usize, i64>,
    forb: Set<(usize, usize)>,
    s: SearchView,
    p: int,
)
    requires
        consistent(inst, duals, forb, s),
        s.queued(p),
    ensures
        consistent(inst, duals, forb, expanded(s, p)),
{
    let t = expanded(s, p);
    assert forall|j: int| 0 <= j < t.labels.len() implies #[trigger] tied(inst, duals, forb, t, j) by {
        assert(tied(inst, duals, forb, s, j));
    }
    assert forall|v: usize, i: int, j: int|
        v != inst.end && i != j && #[trigger] t.live_at(v, i) && #[trigger] t.live_at(
            v,
            j,
        ) implies !dominates(inst.elementary, t.labels[i], t.labels[j]) by {
        assert(s.live_at(v, i) && s.live_at(v, j));
    }
}

/// Retiring the labels that a candidate dominates keeps the state consistent.
pub proof fn lemma_retired_consistent(
    inst: Instance,
    duals: Map<usize, i64>,
    forb: Set<(usize, usize)>,
    s: SearchView,
    cand: LabelView,
)
    requires
        consistent(inst, duals, forb, s),
    ensures
        consistent(inst, duals, forb, retired(inst, s, cand)),
{
    let t = retired(inst, s, cand);
    assert forall|j: int| 0 <= j < t.labels.len() implies #[trigger] tied(inst, duals, forb, t, j) by {
        assert(tied(inst, duals, forb, s, j));
    }
    assert forall|v: usize, i: int, j: int|
        v != inst.end && i != j && #[trigger] t.live_at(v, i) && #[trigger] t.live_at(
            v,
            j,
        ) implies !dominates(inst.elementary, t.labels[i], t.labels[j]) by {
        assert(s.live_at(v, i) && s.live_at(v, j));
    }
}

/// Inserting the feasible, undominated child of label `p` along an arc that
/// the search may follow keeps the state consistent.
pub proof fn lemma_admitted_consistent(
    inst: Instance,
    duals: Map<usize, i64>,
    forb: Set<(usize, usize)>,
    s: SearchView,
    p: int,
    v: usize,
)
    requires
        inst.wf(),
        consistent(inst, duals, forb, s),
        0 <= p < s.labels.len(),
        inst.out(s.labels[p].node as int).contains(v),
        !s.labels[p].visited.contains(v as int),
        !forb.contains((s.labels[p].node, v)),
        duals.contains_key(s.labels[p].node),
        feasible(
            inst,
            extend(inst, s.labels[p], v, duals[s.labels[p].node] as int, s.labels.len() as int),
        ),
        !dominated_at(
            inst,
            s,
            extend(inst, s.labels[p], v, duals[s.labels[p].node] as int, s.labels.len() as int),
        ),
    ensures
        consistent(
            inst,
            duals,
            forb,
            admitted(
                inst,
                s,
                extend(inst, s.labels[p], v, duals[s.labels[p].node] as int, s.labels.len() as int),
                p,
            ),
        ),
{
    let n = s.labels.len() as int;
    let parent = s.labels[p];
    let child = extend(inst, parent, v, duals[parent.node] as int, n);
    let mid = if child.node == inst.end {
        s
    } else {
        retired(inst, s, child)
    };
    let t = admitted(inst, s, child, p);
    lemma_retired_consistent(inst, duals, forb, s, child);
    lemma_consistent_label(inst, duals, forb, s, p);
    lemma_out_is_node(inst, parent.node, v);
    assert forall|j: int| 0 <= j < t.labels.len() implies #[trigger] tied(inst, duals, forb, t, j) by {
        if j < n {
            assert(tied(inst, duals, forb, mid, j));
        } else {
            let path = s.paths[p].push(v);
            assert(tied(inst, duals, forb, s, p));
            assert(path.drop_last() == s.paths[p]);
            lemma_label_of_id(inst, duals, s.paths[p], p);
            assert(label_of(inst, duals, path, n) == child);
            assert(valid_path(inst, duals, forb, path));
        }
    }
    assert forall|w: usize, i: int, j: int|
        w != inst.end && i != j && #[trigger] t.live_at(w, i) && #[trigger] t.live_at(
            w,
            j,
        ) implies !dominates(inst.elementary, t.labels[i], t.labels[j]) by {
        if i < n && j < n {
            assert(mid.live_at(w, i) && mid.live_at(w, j));
        } else if i == n {
            assert(s.live_at(w, j));
            assert(!beaten(inst, s, child, j));
        } else {
            assert(s.live_at(w, i));
        }
    }
}

/// Trying one arc that leaves label `p`'s node keeps the state consistent,
/// and keeps every label that was there.
pub proof fn lemma_relaxed_consistent(
    inst: Instance,
    duals: Map<usize, i64>,
    forb: Set<(usize, usize)>,
    s: SearchView,
    p: int,
    v: usize,
)
    requires
        inst.wf(),
        consistent(inst, duals, forb, s),
        0 <= p < s.labels.len(),
        inst.out(s.labels[p].node as int).contains(v),
    ensures
        match relaxed(inst, duals, forb, s, p, v) {
            Ok(t) => consistent(inst, duals, forb, t) && kept(s, t),
            Err(e) => true,
        },
{
    let parent = s.labels[p];
    if !parent.visited.contains(v as int) && !forb.contains((parent.node, v)) && duals.contains_key(
        parent.node,
    ) {
        let child = extend(inst, parent, v, duals[parent.node] as int, s.labels.len() as int);
        if feasible(inst, child) && !dominated_at(inst, s, child) {
            lemma_admitted_consistent(inst, duals, forb, s, p, v);
        }
    }
}

/// Whether `t` still holds every label of `s`, under its number.
pub open spec fn kept(s: SearchView, t: SearchView) -> bool {
    &&& s.labels.len() <= t.labels.len()
    &&& forall|j: int| 0 <= j < s.labels.len() ==> #[trigger] t.labels[j] == s.labels[j]
}

/// Trying the first `k` arcs that leave label `p`'s node keeps the state
/// consistent, and keeps every label that was there.
pub proof fn lemma_relaxed_upto_consistent(
    inst: Instance,
    duals: Map<usize, i64>,
    forb: Set<(usize, usize)>,
    s: SearchView,
    p: int,
    k: nat,
)
    requires
        inst.wf(),
        consistent(inst, duals, forb, s),
        0 <= p < s.labels.len(),
        k <= inst.out(s.labels[p].node as int).len(),
    ensures
        match relaxed_upto(inst, duals, forb, s, p, k) {
            Ok(t) => consistent(inst, duals, forb, t) && kept(s, t),
            Err(e) => true,
        },
    decreases k,
{
    if k > 0 {
        lemma_relaxed_upto_consistent(inst, duals, forb, s, p, (k - 1) as nat);
        if let Ok(t) = relaxed_upto(inst, duals, forb, s, p, (k - 1) as nat) {
            let v = inst.out(s.labels[p].node as int)[k - 1];
            assert(t.labels[p] == s.labels[p]);
            lemma_relaxed_consistent(inst, duals, forb, t, p, v);
        }
    }
}

/// Once an arc has stopped the search with an error, trying further arcs
/// leaves that error in place.
pub proof fn lemma_relaxed_upto_stopped(
    inst: Instance,
    duals: Map<usize, i64>,
    forb: Set<(usize, usize)>,
    s: SearchView,
    p: int,
    k: nat,
    m: nat,
)
    requires
        k <= m,
        relaxed_upto(inst, duals, forb, s, p, k) is Err,
    ensures
        relaxed_upto(inst, duals, forb, s, p, m) == relaxed_upto(inst, duals, forb, s, p, k),
    decreases m,
{
    if k < m {
        lemma_relaxed_upto_stopped(inst, duals, forb, s, p, k, (m - 1) as nat);
    }
}

/// The only error that stops a label's arcs is a node without a dual price.
pub proof fn lemma_relaxed_upto_error(
    inst: Instance,
    duals: Map<usize, i64>,
    forb: Set<(usize, usize)>,
    s: SearchView,
    p: int,
    k: nat,
)
    ensures
        match relaxed_upto(inst, duals, forb, s, p, k) {
            Ok(t) => true,
            Err(e) => e matches PricingError::MissingDual(u) && !duals.contains_key(u),
        },
    decreases k,
{
    if k > 0 {
        lemma_relaxed_upto_error(inst, duals, forb, s, p, (k - 1) as nat);
    }
}

/// Among the first `k` labels, if one is queued, one queued label outranks
/// every other queued one.
proof fn lemma_best_upto(s: SearchView, k: nat) -> (b: int)
    requires
        k <= s.labels.len(),
        forall|j: int| 0 <= j < s.labels.len() ==> (#[trigger] s.labels[j]).id == j,
        exists|j: int| 0 <= j < k && s.queued(j),
    ensures
        0 <= b < k,
        s.queued(b),
        forall|j: int| 0 <= j < k && #[trigger] s.queued(j) && j != b ==> outranks(s.labels[b], s.labels[j]),
    decreases k,
{
    let last = k - 1;
    if exists|j: int| 0 <= j < last && s.queued(j) {
        let b = lemma_best_upto(s, last as nat);
        if s.queued(last) && outranks(s.labels[last], s.labels[b]) {
            last
        } else {
            b
        }
    } else {
        last
    }
}

/// At most one label is next to leave the queue.
pub proof fn lemma_next_up_unique(s: SearchView, a: int, b: int)
    requires
        next_up(s, a),
        next_up(s, b),
    ensures
        a == b,
{
}

/// While the queue of a consistent state holds a label, one label is next to leave it.
pub proof fn lemma_head_exists(
    inst: Instance,
    duals: Map<usize, i64>,
    forb: Set<(usize, usize)>,
    s: SearchView,
)
    requires
        inst.wf(),
        consistent(inst, duals, forb, s),
        !s.drained(),
    ensures
        next_up(s, head(s)),
{
    lemma_consistent_numbered(inst, duals, forb, s);
    let b = lemma_best_upto(s, s.labels.len());
    assert(next_up(s, b));
}

/// One step of the search keeps the state consistent.
pub proof fn lemma_step_consistent(
    inst: Instance,
    duals: Map<usize, i64>,
    forb: Set<(usize, usize)>,
    s: SearchView,
)
    requires
        inst.wf(),
        consistent(inst, duals, forb, s),
    ensures
        match step(inst, duals, forb, s) {
            Ok(t) => consistent(inst, duals, forb, t),
            Err(e) => true,
        },
{
    if !s.drained() {
        lemma_head_exists(inst, duals, forb, s);
        let p = head(s);
        lemma_expanded_consistent(inst, duals, forb, s, p);
        lemma_relaxed_upto_consistent(
            inst,
            duals,
            forb,
            expanded(s, p),
            p,
            inst.out(s.labels[p].node as int).len(),
        );
    }
}

/// Every state that a search reaches is consistent.
pub proof fn lemma_run_consistent(
    inst: Instance,
    duals: Map<usize, i64>,
    forb: Set<(usize, usize)>,
    n: nat,
)
    requires
        inst.wf(),
    ensures
        match run(inst, duals, forb, n) {
            Ok(s) => consistent(inst, duals, forb, s),
            Err(e) => true,
        },
    decreases n,
{
    if n == 0 {
        lemma_start_consistent(inst, duals, forb);
    } else {
        lemma_run_consistent(inst, duals, forb, (n - 1) as nat);
        if let Ok(s) = run(inst, duals, forb, (n - 1) as nat) {
            lemma_step_consistent(inst, duals, forb, s);
        }
    }
}

} // verus!
