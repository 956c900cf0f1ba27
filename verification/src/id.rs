//! Handles that identify a scope.

use std::cmp::Ordering;
use vstd::prelude::*;
use vstd::std_specs::cmp::PartialOrdSpecImpl;
use vstd::std_specs::convert::FromSpecImpl;

verus! {

/// An opaque handle for a scope. Two handles name the same scope exactly when
/// their numbers are equal; the order of handles is the order of the numbers.
#[derive(Hash, Clone, Copy, PartialEq, Eq, Ord, Debug, Structural)]
pub struct TaskScopeId {
    pub id: usize,
}

impl From<usize> for TaskScopeId {
    fn from(id: usize) -> (r: Self) {
        Self { id }
    }
}

impl FromSpecImpl<usize> for TaskScopeId {
    open spec fn obeys_from_spec() -> bool {
        true
    }

    open spec fn from_spec(id: usize) -> Self {
        TaskScopeId { id }
    }
}

impl PartialOrd for TaskScopeId {
    fn partial_cmp(&self, other: &Self) -> (r: Option<Ordering>) {
        if self.id < other.id {
            Some(Ordering::Less)
        } else if self.id == other.id {
            Some(Ordering::Equal)
        } else {
            Some(Ordering::Greater)
        }
    }
}

impl PartialOrdSpecImpl for TaskScopeId {
    open spec fn obeys_partial_cmp_spec() -> bool {
        true
    }

    open spec fn partial_cmp_spec(&self, other: &Self) -> Option<Ordering> {
        if self.id < other.id {
            Some(Ordering::Less)
        } else if self.id == other.id {
            Some(Ordering::Equal)
        } else {
            Some(Ordering::Greater)
        }
    }
}

} // verus!
