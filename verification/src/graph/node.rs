//! What the nodes and edges of a graph carry.

use vstd::prelude::*;
use super::state::State;
use super::transition::Transition;

verus! {

/// The weight of an edge that no simulation step has touched: the bit
/// pattern of the single-precision number one.
pub const UNIT_WEIGHT: u32 = 0x3F80_0000;

/// A point of the plane. The coordinates are the bit patterns of
/// single-precision numbers: the library stores and moves them, and never
/// computes with them.
#[derive(Debug, Clone, Copy, PartialEq, Eq, Structural)]
pub struct Position {
    pub x: u32,
    pub y: u32,
}

impl Position {
    pub fn new(x: u32, y: u32) -> (position: Self)
        ensures
            position.x == x,
            position.y == y,
    {
        Self { x, y }
    }

    /// The origin: both coordinates are the bit pattern of zero.
    pub fn origin() -> (position: Self)
        ensures
            position == (Position { x: 0, y: 0 }),
    {
        Self { x: 0, y: 0 }
    }
}

/// A node: a state with where it is drawn and how the user holds it.
#[derive(Debug)]
pub struct GraphNode {
    pub state: State,
    pub position: Position,
    pub selected: bool,
    pub dragged: bool,
}

impl Clone for GraphNode {
    fn clone(&self) -> (copy: Self)
        ensures
            copy == *self,
    {
        GraphNode {
            state: self.state.clone(),
            position: self.position,
            selected: self.selected,
            dragged: self.dragged,
        }
    }
}

/// An edge: a transition with the weight of its spring in the simulation, a
/// bit pattern like a coordinate.
#[derive(Debug, Clone, Copy, PartialEq, Eq, Structural)]
pub struct GraphEdge {
    pub transition: Transition,
    pub weight: u32,
}

/// An edge as it lies in a graph: between the nodes with the handles
/// `source` and `target`.
pub ghost struct Link {
    pub source: usize,
    pub target: usize,
    pub edge: GraphEdge,
}

} // verus!
