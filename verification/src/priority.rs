//! The order in which labels leave the expansion queue, and label identity.

use crate::label::Label;
use crate::search::outranks;
use std::cmp::Ordering;
use vstd::prelude::*;

verus! {

impl PartialEq for Label {
    /// Two labels are the same label when they carry the same number.
    fn eq(&self, other: &Label) -> (same: bool) {
        self.id == other.id
    }
}

impl vstd::std_specs::cmp::PartialEqSpecImpl for Label {
    open spec fn obeys_eq_spec() -> bool {
        true
    }

    open spec fn eq_spec(&self, other: &Label) -> bool {
        self.id == other.id
    }
}

impl Label {
    /// How `self` ranks against `other` in the expansion queue, where the
    /// greatest label leaves first: an earlier service start ranks higher,
    /// and of two equal starts the younger label does.
    pub open spec fn rank(&self, other: &Label) -> Ordering {
        if self.earliest_time < other.earliest_time {
            Ordering::Greater
        } else if self.earliest_time > other.earliest_time {
            Ordering::Less
        } else if self.id < other.id {
            Ordering::Less
        } else if self.id > other.id {
            Ordering::Greater
        } else {
            Ordering::Equal
        }
    }

    /// Compares two labels by their rank in the expansion queue.
    pub fn cmp(&self, other: &Label) -> (order: Ordering)
        ensures
            order == self.rank(other),
    {
        if self.earliest_time < other.earliest_time {
            Ordering::Greater
        } else if self.earliest_time > other.earliest_time {
            Ordering::Less
        } else if self.id < other.id {
            Ordering::Less
        } else if self.id > other.id {
            Ordering::Greater
        } else {
            Ordering::Equal
        }
    }
}

impl Label {
    /// Whether `self` leaves the expansion queue before `other`.
    pub fn leaves_before(&self, other: &Label) -> (yes: bool)
        ensures
            yes == outranks(self@, other@),
    {
        match self.cmp(other) {
            Ordering::Greater => true,
            _ => false,
        }
    }
}

impl PartialOrd for Label {
    fn partial_cmp(&self, other: &Label) -> (order: Option<Ordering>) {
        Some(self.cmp(other))
    }
}

impl vstd::std_specs::cmp::PartialOrdSpecImpl for Label {
    open spec fn obeys_partial_cmp_spec() -> bool {
        true
    }

    open spec fn partial_cmp_spec(&self, other: &Label) -> Option<Ordering> {
        Some(self.rank(other))
    }
}

} // verus!
