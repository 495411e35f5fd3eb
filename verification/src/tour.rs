//! Tour representations and their shared model.
//!
//! A tour is a cyclic permutation of the city ids `0 .. n`.  The module
//! `cyclic` holds the mathematical model, `dist` the tour-length model;
//! `array` is the plain reference representation and `tll` the two-level
//! list, the production representation.  `laws` states and proves the
//! representation-independent properties, and `tests` holds the executable
//! scenario drivers that the test suite runs.

use vstd::prelude::*;

pub mod array;
pub mod cyclic;
pub mod dist;
pub mod laws;
pub mod tests;
pub mod tll;

use crate::tour::cyclic::{perm_of, rank_between};

verus! {

/// A plain immutable permutation of `0 .. n`, used to seed a tour and to
/// snapshot one.
#[derive(Clone, Debug)]
pub struct TourOrder {
    pub order: Vec<usize>,
}

impl View for TourOrder {
    type V = Seq<int>;

    open spec fn view(&self) -> Seq<int> {
        self.order@.map_values(|u: usize| u as int)
    }
}

impl TourOrder {
    pub open spec fn valid(self, n: int) -> bool {
        perm_of(self@, n)
    }

    pub fn new(order: Vec<usize>) -> (r: TourOrder)
        ensures
            r.order@ == order@,
    {
        TourOrder { order }
    }

    /// Same as `new`; kept as the name some call sites use.
    pub fn with_ord(order: Vec<usize>) -> (r: TourOrder)
        ensures
            r.order@ == order@,
    {
        TourOrder { order }
    }

    pub fn order(&self) -> (r: &Vec<usize>)
        ensures
            r@ == self.order@,
    {
        &self.order
    }

    pub fn len(&self) -> (r: usize)
        ensures
            r == self.order@.len(),
    {
        self.order.len()
    }
}

/// The user-reachable ways a tour update can fail.
#[derive(Clone, Copy, PartialEq, Eq, Structural, Debug)]
pub enum UpdateTourError {
    /// An id was not a city of this tour.
    NodeNotFound,
    /// The order handed to `apply` was not a permutation of the tour's ids:
    /// its size mismatched or it repeated an id.
    BadPermutation,
}

/// Is `mid` strictly inside the forward wrap-around arc `from -> to` of
/// cyclically ordered ranks?  Meaningful when the three ranks are pairwise
/// distinct labels on one cycle.
pub fn between(from: usize, mid: usize, to: usize) -> (r: bool)
    ensures
        r == rank_between(from as int, mid as int, to as int),
{
    if from <= to {
        from < mid && mid < to
    } else {
        mid > from || mid < to
    }
}

} // verus!
