//! The routing instance that a pricer holds, and its mathematical model.

use crate::error::PricingError;
use std::collections::BTreeMap;
use vstd::prelude::*;

verus! {

/// The largest number of nodes an instance may have. It keeps every sum that
/// the search forms inside the machine integers.
pub const MAX_NODES: usize = 0x7fff_ffff;

/// The model of an instance: nodes `0 .. n()`, with what the search reads of each.
pub struct Instance {
    /// What each node takes from the vehicle's capacity.
    pub demands: Seq<usize>,
    /// For each node the earliest and the latest start of service.
    pub windows: Seq<(usize, usize)>,
    /// How long service takes at each node.
    pub service: Seq<usize>,
    /// What the vehicle can carry.
    pub capacity: usize,
    /// The nodes that are customers.
    pub customers: Seq<usize>,
    /// Where every path starts.
    pub start: usize,
    /// Where every priced path ends.
    pub end: usize,
    /// The travel time from each node to each node.
    pub drive: Seq<Seq<usize>>,
    /// The out-neighbours of each node, in the order in which they are tried.
    /// A node without an entry has none.
    pub succ: Map<usize, Seq<usize>>,
    /// Whether dominance also compares the visited sets.
    pub elementary: bool,
}

impl Instance {
    /// The number of nodes.
    pub open spec fn n(self) -> int {
        self.demands.len() as int
    }

    /// The out-neighbours of `u`, none where `succ` has no entry for it.
    pub open spec fn out(self, u: int) -> Seq<usize> {
        if 0 <= u <= usize::MAX && self.succ.contains_key(u as usize) {
            self.succ[u as usize]
        } else {
            Seq::empty()
        }
    }

    /// The shape that every instance of a pricer has: there are at most
    /// `MAX_NODES` nodes, all per-node data cover the same `n()` nodes, `drive`
    /// is `n() x n()`, and the depots, the customers, the nodes that have
    /// out-lists and the nodes in those lists are all among the `n()` nodes.
    pub open spec fn wf(self) -> bool {
        &&& self.n() <= MAX_NODES
        &&& self.windows.len() == self.n()
        &&& self.service.len() == self.n()
        &&& self.drive.len() == self.n()
        &&& forall|u: int| 0 <= u < self.n() ==> (#[trigger] self.drive[u]).len() == self.n()
        &&& self.start < self.n()
        &&& self.end < self.n()
        &&& forall|i: int| 0 <= i < self.customers.len() ==> (#[trigger] self.customers[i]) < self.n()
        &&& forall|u: usize| #[trigger] self.succ.contains_key(u) ==> u < self.n()
        &&& forall|u: int, k: int|
            0 <= u < self.n() && 0 <= k < self.out(u).len() ==> (#[trigger] self.out(u)[k]) < self.n()
    }
}

/// The rows of a travel-time table as sequences.
pub open spec fn matrix(rows: Seq<Vec<usize>>) -> Seq<Seq<usize>> {
    rows.map_values(|row: Vec<usize>| row@)
}

/// The successor lists of an adjacency map as sequences.
pub open spec fn adjacency(lists: Map<usize, Vec<usize>>) -> Map<usize, Seq<usize>> {
    lists.map_values(|list: Vec<usize>| list@)
}

/// Whether every entry of `list` is below `n`.
fn all_below(list: &Vec<usize>, n: usize) -> (ok: bool)
    ensures
        ok == forall|i: int| 0 <= i < list@.len() ==> (#[trigger] list@[i]) < n,
{
    let mut i: usize = 0;
    while i < list.len()
        invariant
            i <= list@.len(),
            forall|j: int| 0 <= j < i ==> (#[trigger] list@[j]) < n,
        decreases list@.len() - i,
    {
        if list[i] >= n {
            return false;
        }
        i = i + 1;
    }
    true
}

/// Whether every row of `rows` has `n` entries.
fn rows_have_len(rows: &Vec<Vec<usize>>, n: usize) -> (ok: bool)
    ensures
        ok == forall|u: int| 0 <= u < rows@.len() ==> (#[trigger] matrix(rows@)[u]).len() == n,
{
    let mut u: usize = 0;
    while u < rows.len()
        invariant
            u <= rows@.len(),
            forall|w: int| 0 <= w < u ==> (#[trigger] matrix(rows@)[w]).len() == n,
        decreases rows@.len() - u,
    {
        if rows[u].len() != n {
            assert(matrix(rows@)[u as int].len() != n);
            return false;
        }
        u = u + 1;
    }
    true
}

/// Whether the adjacency map has entries for nodes below `n` only, and its
/// lists name only nodes below `n`.
fn lists_below(lists: &BTreeMap<usize, Vec<usize>>, n: usize) -> (ok: bool)
    ensures
        ok == ((forall|u: usize| adjacency(lists@).contains_key(u) ==> u < n) && (forall|
            u: usize,
            k: int,
        |
            u < n && adjacency(lists@).contains_key(u) && 0 <= k < adjacency(lists@)[u].len() ==> (
            #[trigger] adjacency(lists@)[u][k]) < n)),
{
    let ghost keys = lists@.dom();
    let mut found: usize = 0;
    let ghost mut seen: Set<usize> = Set::empty();
    let mut u: usize = 0;
    while u < n
        invariant
            u <= n,
            found <= u,
            keys == lists@.dom(),
            seen.finite(),
            seen.len() == found,
            forall|w: usize| seen.contains(w) <==> w < u && keys.contains(w),
            forall|w: usize, k: int|
                w < u && adjacency(lists@).contains_key(w) && 0 <= k < adjacency(lists@)[w].len() ==> (
                #[trigger] adjacency(lists@)[w][k]) < n,
        decreases n - u,
    {
        match lists.get(&u) {
            Some(list) => {
                assert(adjacency(lists@)[u] == list@);
                if !all_below(list, n) {
                    return false;
                }
                found = found + 1;
                proof {
                    seen = seen.insert(u);
                }
            },
            None => {
                assert(!adjacency(lists@).contains_key(u));
            },
        }
        u = u + 1;
    }
    let total = lists.len();
    proof {
        assert(seen.subset_of(keys));
        vstd::set_lib::lemma_len_subset(seen, keys);
        if found == total {
            vstd::set_lib::lemma_subset_equality(seen, keys);
            assert forall|w: usize| adjacency(lists@).contains_key(w) implies w < n by {
                assert(keys.contains(w));
                assert(seen.contains(w));
            }
        } else {
            if forall|w: usize| adjacency(lists@).contains_key(w) ==> w < n {
                assert(keys =~= seen) by {
                    assert forall|w: usize| keys.contains(w) implies seen.contains(w) by {
                        assert(adjacency(lists@).contains_key(w));
                    }
                }
            }
        }
    }
    found == total
}

/// The instance that the given parts describe, in the mode that compares no visited sets.
pub open spec fn assembled(
    demands: Seq<usize>,
    time_windows: Seq<(usize, usize)>,
    service_times: Seq<usize>,
    vehicle_capacity: usize,
    customers: Seq<usize>,
    start_depot: usize,
    end_depot: usize,
    drive_time: Seq<Vec<usize>>,
    neighbors: Map<usize, Vec<usize>>,
) -> Instance {
    Instance {
        demands,
        windows: time_windows,
        service: service_times,
        capacity: vehicle_capacity,
        customers,
        start: start_depot,
        end: end_depot,
        drive: matrix(drive_time),
        succ: adjacency(neighbors),
        elementary: false,
    }
}

/// A pricer: one routing instance, and the mode in which its searches compare labels.
pub struct Pricer {
    demands: Vec<usize>,
    time_windows: Vec<(usize, usize)>,
    service_times: Vec<usize>,
    vehicle_capacity: usize,
    customers: Vec<usize>,
    start_depot: usize,
    end_depot: usize,
    drive_time: Vec<Vec<usize>>,
    neighbors: BTreeMap<usize, Vec<usize>>,
    elementary: bool,
}

impl View for Pricer {
    type V = Instance;

    closed spec fn view(&self) -> Instance {
        Instance {
            demands: self.demands@,
            windows: self.time_windows@,
            service: self.service_times@,
            capacity: self.vehicle_capacity,
            customers: self.customers@,
            start: self.start_depot,
            end: self.end_depot,
            drive: matrix(self.drive_time@),
            succ: adjacency(self.neighbors@),
            elementary: self.elementary,
        }
    }
}

impl Pricer {
    /// What holds of every pricer: its instance has the shape that
    /// [`Instance::wf`] describes.
    #[verifier::type_invariant]
    pub open spec fn shaped(&self) -> bool {
        self@.wf()
    }

    /// Builds a pricer from the parts of an instance. It is refused with
    /// `InstanceShape` exactly when the parts do not have the shape that
    /// [`Instance::wf`] describes; a pricer that is built compares no visited sets.
    pub fn new(
        demands: Vec<usize>,
        time_windows: Vec<(usize, usize)>,
        service_times: Vec<usize>,
        vehicle_capacity: usize,
        customers: Vec<usize>,
        start_depot: usize,
        end_depot: usize,
        drive_time: Vec<Vec<usize>>,
        neighbors: BTreeMap<usize, Vec<usize>>,
    ) -> (made: Result<Pricer, PricingError>)
        ensures
            match made {
                Ok(pricer) => {
                    &&& pricer@.wf()
                    &&& pricer@ == assembled(
                        demands@,
                        time_windows@,
                        service_times@,
                        vehicle_capacity,
                        customers@,
                        start_depot,
                        end_depot,
                        drive_time@,
                        neighbors@,
                    )
                },
                Err(e) => {
                    &&& e == PricingError::InstanceShape
                    &&& !assembled(
                        demands@,
                        time_windows@,
                        service_times@,
                        vehicle_capacity,
                        customers@,
                        start_depot,
                        end_depot,
                        drive_time@,
                        neighbors@,
                    ).wf()
                },
            },
    {
        let ghost model = assembled(
            demands@,
            time_windows@,
            service_times@,
            vehicle_capacity,
            customers@,
            start_depot,
            end_depot,
            drive_time@,
            neighbors@,
        );
        let n = demands.len();
        if n > MAX_NODES || time_windows.len() != n || service_times.len() != n || drive_time.len()
            != n || start_depot >= n || end_depot >= n {
            return Err(PricingError::InstanceShape);
        }
        if !rows_have_len(&drive_time, n) {
            return Err(PricingError::InstanceShape);
        }
        if !all_below(&customers, n) {
            proof {
                let i = choose|i: int| 0 <= i < customers@.len() && !((#[trigger] customers@[i]) < n);
                assert(model.customers[i] >= n);
            }
            return Err(PricingError::InstanceShape);
        }
        if !lists_below(&neighbors, n) {
            proof {
                if forall|u: usize| adjacency(neighbors@).contains_key(u) ==> u < n {
                    let (u, k) = choose|u: usize, k: int|
                        u < n && adjacency(neighbors@).contains_key(u) && 0 <= k < adjacency(
                            neighbors@,
                        )[u].len() && !((#[trigger] adjacency(neighbors@)[u][k]) < n);
                    assert(model.out(u as int)[k] >= n);
                } else {
                    let u = choose|u: usize| adjacency(neighbors@).contains_key(u) && !(u < n);
                    assert(model.succ.contains_key(u));
                }
            }
            return Err(PricingError::InstanceShape);
        }
        proof {
            assert forall|u: int, k: int|
                0 <= u < model.n() && 0 <= k < model.out(u).len() implies (#[trigger] model.out(
                u,
            )[k]) < model.n() by {
                assert(adjacency(neighbors@)[u as usize][k] < n);
            }
        }
        Ok(
            Pricer {
                demands,
                time_windows,
                service_times,
                vehicle_capacity,
                customers,
                start_depot,
                end_depot,
                drive_time,
                neighbors,
                elementary: false,
            },
        )
    }

    /// The number of nodes. Every pricer holds an instance of the shape that
    /// [`Instance::wf`] describes.
    pub fn node_count(&self) -> (n: usize)
        ensures
            n == self@.n(),
            self@.wf(),
    {
        proof {
            use_type_invariant(self);
        }
        self.demands.len()
    }

    /// The depot at which every path starts.
    pub fn start_depot(&self) -> (node: usize)
        ensures
            node == self@.start,
    {
        self.start_depot
    }

    /// The depot at which every priced path ends.
    pub fn end_depot(&self) -> (node: usize)
        ensures
            node == self@.end,
    {
        self.end_depot
    }

    /// The nodes that are customers.
    pub fn customers(&self) -> (nodes: &Vec<usize>)
        ensures
            nodes@ == self@.customers,
    {
        &self.customers
    }

    /// What the vehicle can carry.
    pub fn capacity(&self) -> (load: usize)
        ensures
            load == self@.capacity,
    {
        self.vehicle_capacity
    }

    /// What node `v` takes from the capacity.
    pub fn demand(&self, v: usize) -> (load: usize)
        requires
            v < self@.n(),
        ensures
            load == self@.demands[v as int],
    {
        self.demands[v]
    }

    /// The earliest and the latest start of service at node `v`.
    pub fn window(&self, v: usize) -> (bounds: (usize, usize))
        requires
            v < self@.n(),
        ensures
            bounds == self@.windows[v as int],
    {
        proof {
            use_type_invariant(self);
        }
        self.time_windows[v]
    }

    /// How long service takes at node `u`.
    pub fn service(&self, u: usize) -> (duration: usize)
        requires
            u < self@.n(),
        ensures
            duration == self@.service[u as int],
    {
        proof {
            use_type_invariant(self);
        }
        self.service_times[u]
    }

    /// The travel time from `u` to `v`.
    pub fn drive(&self, u: usize, v: usize) -> (duration: usize)
        requires
            u < self@.n(),
            v < self@.n(),
        ensures
            duration == self@.drive[u as int][v as int],
    {
        proof {
            use_type_invariant(self);
            assert(self@.drive[u as int].len() == self@.n());
        }
        self.drive_time[u][v]
    }

    /// The out-neighbours of `u`: its list where the adjacency has an entry
    /// for it, and `None` where it has none.
    pub fn successors(&self, u: usize) -> (list: Option<&Vec<usize>>)
        ensures
            list is Some <==> self@.succ.contains_key(u),
            match list {
                Some(nodes) => nodes@ == self@.out(u as int),
                None => self@.out(u as int) == Seq::<usize>::empty(),
            },
    {
        let list = self.neighbors.get(&u);
        proof {
            if let Some(nodes) = list {
                assert(adjacency(self.neighbors@)[u] == nodes@);
            }
        }
        list
    }

    /// Whether dominance compares the visited sets.
    pub fn get_elementary(&self) -> (mode: bool)
        ensures
            mode == self@.elementary,
    {
        self.elementary
    }

    /// Sets whether dominance compares the visited sets. Nothing else changes.
    pub fn set_elementary(&mut self, value: bool)
        ensures
            final(self)@ == (Instance { elementary: value, ..old(self)@ }),
    {
        proof {
            use_type_invariant(&*self);
            let before = self@;
            let after = Instance { elementary: value, ..before };
            assert(before.wf());
            assert forall|u: int| 0 <= u < after.n() implies after.out(u) == before.out(u) by {}
            assert(after.wf());
        }
        self.elementary = value;
    }
}

} // verus!
