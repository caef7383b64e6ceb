//! One directed arc of a transition system.

use vstd::prelude::*;

verus! {

/// A transition between two states, named by their identifiers. Parallel
/// transitions and self-loops (`from == to`) are ordinary values.
#[derive(Debug, Clone, Copy, PartialEq, Eq, Structural)]
pub struct Transition {
    pub from: usize,
    pub to: usize,
}

impl Transition {
    pub fn new(from: usize, to: usize) -> (transition: Self)
        ensures
            transition.from == from,
            transition.to == to,
    {
        Self { from, to }
    }
}

} // verus!
