//! One vertex of a transition system.

use vstd::prelude::*;

verus! {

/// A state: the identifier that transitions refer to, and a display label.
#[derive(Debug)]
pub struct State {
    pub index: usize,
    pub info: String,
}

/// The mathematical value of a [`State`]: its identifier and the characters
/// of its label.
pub ghost struct StateView {
    pub index: usize,
    pub info: Seq<char>,
}

impl View for State {
    type V = StateView;

    open spec fn view(&self) -> StateView {
        StateView { index: self.index, info: self.info@ }
    }
}

impl State {
    pub fn new(index: usize, info: String) -> (state: Self)
        ensures
            state.index == index,
            state.info == info,
    {
        Self { index, info }
    }
}

impl Clone for State {
    fn clone(&self) -> (copy: Self)
        ensures
            copy == *self,
    {
        State { index: self.index, info: self.info.clone() }
    }
}

} // verus!
