//! The state-space model and the graphs built from it.

use vstd::prelude::*;

pub mod display;
pub mod model;
pub mod node;
pub mod physics;
pub mod stable;
pub mod state;
pub mod text;
pub mod transition;
pub mod translator;
pub mod writer;

pub use self::display::{DisplayGraph, GraphError};
pub use self::physics::{
    construct_simulation, sync_graph_with_simulation, update_simulation, ConsistencyFault,
    PhysicsGraph,
};

verus! {

/// The flat result of parsing: states and transitions in the order in which
/// they were read. Nothing here promises that the endpoints of a transition
/// occur among the states.
#[derive(Debug)]
pub struct StateSpace {
    pub states: Vec<state::State>,
    pub transitions: Vec<transition::Transition>,
}

/// The mathematical value of a [`StateSpace`].
pub ghost struct StateSpaceView {
    pub states: Seq<state::StateView>,
    pub transitions: Seq<transition::Transition>,
}

impl View for StateSpace {
    type V = StateSpaceView;

    open spec fn view(&self) -> StateSpaceView {
        StateSpaceView {
            states: self.states@.map_values(|s: state::State| s@),
            transitions: self.transitions@,
        }
    }
}

impl Clone for StateSpace {
    fn clone(&self) -> (copy: Self)
        ensures
            copy.states@ == self.states@,
            copy.transitions@ == self.transitions@,
    {
        let mut states: Vec<state::State> = Vec::new();
        let mut i: usize = 0;
        while i < self.states.len()
            invariant
                i <= self.states.len(),
                states@ == self.states@.take(i as int),
            decreases self.states.len() - i,
        {
            states.push(self.states[i].clone());
            assert(self.states@.take(i + 1) == self.states@.take(i as int).push(
                self.states@[i as int],
            ));
            i += 1;
        }
        assert(self.states@.take(self.states.len() as int) == self.states@);
        let mut transitions: Vec<transition::Transition> = Vec::new();
        let mut j: usize = 0;
        while j < self.transitions.len()
            invariant
                j <= self.transitions.len(),
                transitions@ == self.transitions@.take(j as int),
            decreases self.transitions.len() - j,
        {
            transitions.push(self.transitions[j]);
            assert(self.transitions@.take(j + 1) == self.transitions@.take(j as int).push(
                self.transitions@[j as int],
            ));
            j += 1;
        }
        assert(self.transitions@.take(self.transitions.len() as int) == self.transitions@);
        StateSpace { states, transitions }
    }
}

} // verus!
