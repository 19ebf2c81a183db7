//! The order of nodes in the priority queue: by weight alone.

use crate::node::Node;
use std::cmp::Ordering;
use vstd::prelude::*;
use vstd::std_specs::cmp::{PartialEqSpecImpl, PartialOrdSpecImpl};

verus! {

impl<T> PartialEq for Node<T> {
    /// Two nodes are equal in the order of the queue when they weigh the same.
    fn eq(&self, other: &Self) -> (r: bool) {
        self.weight == other.weight
    }
}

impl<T> PartialEqSpecImpl for Node<T> {
    /// `==` on nodes is what [`eq_spec`](Self::eq_spec) says.
    open spec fn obeys_eq_spec() -> bool {
        true
    }

    /// Whether the two nodes weigh the same.
    open spec fn eq_spec(&self, other: &Self) -> bool {
        self.weight == other.weight
    }
}

impl<T> PartialOrd for Node<T> {
    /// The lighter node is the lesser one.
    fn partial_cmp(&self, other: &Self) -> (r: Option<Ordering>) {
        if self.weight < other.weight {
            Some(Ordering::Less)
        } else if self.weight > other.weight {
            Some(Ordering::Greater)
        } else {
            Some(Ordering::Equal)
        }
    }
}

impl<T> PartialOrdSpecImpl for Node<T> {
    /// The comparisons of nodes are what
    /// [`partial_cmp_spec`](Self::partial_cmp_spec) says.
    open spec fn obeys_partial_cmp_spec() -> bool {
        true
    }

    /// The order of the two weights.
    open spec fn partial_cmp_spec(&self, other: &Self) -> Option<Ordering> {
        if self.weight < other.weight {
            Some(Ordering::Less)
        } else if self.weight > other.weight {
            Some(Ordering::Greater)
        } else {
            Some(Ordering::Equal)
        }
    }
}

} // verus!
