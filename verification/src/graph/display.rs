//! The display graph: the graph whose nodes are drawn, dragged and selected.

use vstd::prelude::*;
use vstd::pervasive::unreached;
use std::collections::HashMap;
use super::model::{leaving, lemma_filled_full, lemma_leaving_bound, selected_below, GraphModel};
use super::node::{GraphEdge, GraphNode, Link, Position, UNIT_WEIGHT};
use super::stable::{
    add_edge, add_node, edge_count, edge_endpoints, edge_slots, edge_weight, full, graph_new, heads,
    neighbors_out, node_count, node_mut, node_slots, node_weight, outgoing, slot, Topology,
    MAX_SLOTS,
};
use super::state::State;
use super::transition::Transition;
use super::StateSpace;

verus! {

broadcast use vstd::std_specs::hash::group_hash_axioms;

/// Why a state space is not a graph.
#[derive(Debug, Clone, Copy, PartialEq, Eq, Structural)]
pub enum GraphError {
    /// A transition starts or ends at an identifier that no state has.
    UnknownStateId,
}

// ---------------------------------------------------------------------------
// What a state space builds
// ---------------------------------------------------------------------------

/// The node that a state becomes: at the origin, neither selected nor
/// dragged.
pub open spec fn fresh_node(state: State) -> GraphNode {
    GraphNode { state, position: Position { x: 0, y: 0 }, selected: false, dragged: false }
}

/// The position of the last of the first `n` states that has the identifier
/// `id`.
pub open spec fn last_index(states: Seq<State>, n: int, id: usize) -> Option<int>
    decreases n,
{
    if n <= 0 {
        None
    } else if states[n - 1].index == id {
        Some(n - 1)
    } else {
        last_index(states, n - 1, id)
    }
}

/// The handle of the node that stands for the identifier `id`: the position
/// of the state that has it. Where several states share it, the last one
/// counts.
pub open spec fn handle_of(states: Seq<State>, id: usize) -> Option<int> {
    last_index(states, states.len() as int, id)
}

/// Whether both ends of every transition are identifiers of states.
pub open spec fn resolvable(states: Seq<State>, transitions: Seq<Transition>) -> bool {
    forall|j: int|
        0 <= j < transitions.len() ==> handle_of(states, (#[trigger] transitions[j]).from) is Some
            && handle_of(states, transitions[j].to) is Some
}

/// The edge that a transition becomes: between the nodes of its two states,
/// with the unit weight.
pub open spec fn link_of(states: Seq<State>, transition: Transition) -> Link {
    Link {
        source: handle_of(states, transition.from)->0 as usize,
        target: handle_of(states, transition.to)->0 as usize,
        edge: GraphEdge { transition, weight: UNIT_WEIGHT },
    }
}

/// The graph of a state space: one node for each state and one edge for each
/// transition, with the handles in the order of the state space.
pub open spec fn built(states: Seq<State>, transitions: Seq<Transition>) -> GraphModel {
    GraphModel {
        nodes: states.map_values(|state: State| fresh_node(state)),
        links: transitions.map_values(|transition: Transition| link_of(states, transition)),
    }
}

/// Whether `handles` maps the identifier `id` as the first `n` states say:
/// to the position of the last of them that has it, or not at all.
pub open spec fn tracks(handles: Map<usize, usize>, states: Seq<State>, n: int, id: usize) -> bool {
    match last_index(states, n, id) {
        Some(at) => handles.contains_key(id) && handles[id] == at,
        None => !handles.contains_key(id),
    }
}

/// A handle that `last_index` finds is below `n`, and the state there has
/// the identifier.
proof fn lemma_last_index(states: Seq<State>, n: int, id: usize)
    requires
        0 <= n <= states.len(),
    ensures
        match last_index(states, n, id) {
            Some(at) => 0 <= at < n && states[at].index == id,
            None => forall|i: int| 0 <= i < n ==> (#[trigger] states[i]).index != id,
        },
    decreases n,
{
    if n > 0 {
        lemma_last_index(states, n - 1, id);
    }
}

/// Where no two states share an identifier, the handle of a state's
/// identifier is the position of that state.
pub proof fn lemma_handles_of_distinct_states(states: Seq<State>, i: int)
    requires
        0 <= i < states.len(),
        forall|j: int, k: int|
            0 <= j < k < states.len() ==> (#[trigger] states[j]).index != (
            #[trigger] states[k]).index,
    ensures
        handle_of(states, states[i].index) == Some(i),
{
    lemma_last_index(states, states.len() as int, states[i].index);
}

/// Whether one of the states has the identifier `id`.
pub open spec fn has_id(states: Seq<State>, id: usize) -> bool {
    exists|i: int| 0 <= i < states.len() && (#[trigger] states[i]).index == id
}

/// A state space whose transitions all start and end at identifiers of its
/// states can be built, self-loops and parallel transitions included.
pub proof fn lemma_known_ends_resolve(states: Seq<State>, transitions: Seq<Transition>)
    requires
        forall|j: int|
            0 <= j < transitions.len() ==> has_id(states, (#[trigger] transitions[j]).from)
                && has_id(states, transitions[j].to),
    ensures
        resolvable(states, transitions),
{
    assert forall|j: int| 0 <= j < transitions.len() implies handle_of(
        states,
        (#[trigger] transitions[j]).from,
    ) is Some && handle_of(states, transitions[j].to) is Some by {
        lemma_last_index(states, states.len() as int, transitions[j].from);
        lemma_last_index(states, states.len() as int, transitions[j].to);
        let from = choose|i: int|
            0 <= i < states.len() && (#[trigger] states[i]).index == transitions[j].from;
        let to = choose|i: int|
            0 <= i < states.len() && (#[trigger] states[i]).index == transitions[j].to;
        assert(states[from].index == transitions[j].from);
        assert(states[to].index == transitions[j].to);
    }
}

/// Building keeps the counts: as many nodes as states, as many edges as
/// transitions, self-loops and parallel transitions included.
pub proof fn lemma_built_counts(states: Seq<State>, transitions: Seq<Transition>)
    ensures
        built(states, transitions).nodes.len() == states.len(),
        built(states, transitions).links.len() == transitions.len(),
        forall|j: int|
            0 <= j < transitions.len() ==> (#[trigger] built(states, transitions).links[j]).edge.transition
                == transitions[j],
{
}

/// What is built from states and transitions that fit the handles is a
/// well-formed graph.
proof fn lemma_built_wf(states: Seq<State>, transitions: Seq<Transition>)
    requires
        resolvable(states, transitions),
        states.len() <= MAX_SLOTS,
        transitions.len() <= MAX_SLOTS,
    ensures
        built(states, transitions).wf(),
{
    let model = built(states, transitions);
    assert forall|e: int| 0 <= e < model.links.len() implies (#[trigger] model.links[e]).source
        < model.nodes.len() && model.links[e].target < model.nodes.len() by {
        lemma_last_index(states, states.len() as int, transitions[e].from);
        lemma_last_index(states, states.len() as int, transitions[e].to);
    }
}

// ---------------------------------------------------------------------------
// The graph
// ---------------------------------------------------------------------------

/// The graph that is drawn. Nodes and edges keep their handles for as long
/// as the graph lives: nothing is ever removed from it.
pub struct DisplayGraph {
    graph: Topology,
}

/// The nodes of a graph without vacant slots.
spec fn nodes_of(g: Topology) -> Seq<GraphNode> {
    node_slots(g).map_values(|node: Option<GraphNode>| node->0)
}

/// The edges of a graph without vacant slots.
spec fn links_of(g: Topology) -> Seq<Link> {
    edge_slots(g).map_values(|link: Option<Link>| link->0)
}

/// What the display graph keeps true of the graph inside it.
spec fn dense(g: Topology) -> bool {
    &&& full(node_slots(g))
    &&& full(edge_slots(g))
    &&& (GraphModel { nodes: nodes_of(g), links: links_of(g) }).wf()
    &&& forall|a: usize| #[trigger] outgoing(g, a) == leaving(links_of(g), a, links_of(g).len() as int)
}

impl View for DisplayGraph {
    type V = GraphModel;

    closed spec fn view(&self) -> GraphModel {
        GraphModel { nodes: nodes_of(self.graph), links: links_of(self.graph) }
    }
}

impl DisplayGraph {
    /// What holds of every display graph: no slot is vacant, every edge
    /// starts and ends at a node, and the graph walks the edges that leave a
    /// node from the newest to the oldest.
    pub closed spec fn wf(&self) -> bool {
        dense(self.graph)
    }

    /// The number of nodes.
    pub fn node_count(&self) -> (count: usize)
        requires
            self.wf(),
        ensures
            count == self@.nodes.len(),
            self@.wf(),
    {
        proof {
            lemma_filled_full(node_slots(self.graph), node_slots(self.graph).len() as int);
        }
        node_count(&self.graph)
    }

    /// The number of edges.
    pub fn edge_count(&self) -> (count: usize)
        requires
            self.wf(),
        ensures
            count == self@.links.len(),
            self@.wf(),
    {
        proof {
            lemma_filled_full(edge_slots(self.graph), edge_slots(self.graph).len() as int);
        }
        edge_count(&self.graph)
    }

    /// The node with the handle `a`, if there is one.
    pub fn node(&self, a: usize) -> (node: Option<&GraphNode>)
        requires
            self.wf(),
        ensures
            match node {
                Some(node) => a < self@.nodes.len() && *node == self@.nodes[a as int],
                None => a >= self@.nodes.len(),
            },
    {
        if a > MAX_SLOTS {
            return None;
        }
        node_weight(&self.graph, a)
    }

    /// The handles of the nodes at which the edge `e` starts and ends, if
    /// there is such an edge.
    pub fn edge_endpoints(&self, e: usize) -> (ends: Option<(usize, usize)>)
        requires
            self.wf(),
        ensures
            match ends {
                Some((source, target)) => e < self@.links.len() && source
                    == self@.links[e as int].source && target == self@.links[e as int].target
                    && source < self@.nodes.len() && target < self@.nodes.len(),
                None => e >= self@.links.len(),
            },
    {
        if e > MAX_SLOTS {
            return None;
        }
        edge_endpoints(&self.graph, e)
    }

    /// What the edge `e` carries, if there is such an edge.
    pub fn edge(&self, e: usize) -> (edge: Option<GraphEdge>)
        requires
            self.wf(),
        ensures
            match edge {
                Some(edge) => e < self@.links.len() && edge == self@.links[e as int].edge,
                None => e >= self@.links.len(),
            },
    {
        if e > MAX_SLOTS {
            return None;
        }
        edge_weight(&self.graph, e)
    }

    /// The nodes that the edges leaving `a` lead to, the newest edge first.
    pub fn children(&self, a: usize) -> (targets: Vec<usize>)
        requires
            self.wf(),
        ensures
            targets@ == self@.children(a),
            self@.wf(),
            forall|i: int| 0 <= i < targets.len() ==> (#[trigger] targets[i]) < self@.nodes.len(),
    {
        proof {
            lemma_leaving_bound(self@.links, a, self@.links.len() as int);
        }
        if a > MAX_SLOTS {
            let none: Vec<usize> = Vec::new();
            proof {
                assert forall|n: int| 0 <= n <= self@.links.len() implies (#[trigger] leaving(
                    self@.links,
                    a,
                    n,
                )).len() == 0 by {
                    lemma_no_edge_leaves(self@, a, n);
                }
                assert(self@.children(a) == Seq::<usize>::empty());
            }
            return none;
        }
        let targets = neighbors_out(&self.graph, a);
        proof {
            let order = outgoing(self.graph, a);
            assert(order == leaving(self@.links, a, self@.links.len() as int));
            assert(heads(edge_slots(self.graph), order) == self@.children(a)) by {
                assert forall|i: int| 0 <= i < order.len() implies slot(
                    edge_slots(self.graph),
                    #[trigger] order[i],
                )->0.target == self@.links[order[i] as int].target by {}
            }
        }
        targets
    }

    /// The handles of the selected nodes, in rising order.
    pub fn selected_nodes(&self) -> (selected: Vec<usize>)
        requires
            self.wf(),
        ensures
            selected@ == selected_below(self@.nodes, self@.nodes.len() as int),
    {
        let n = node_count_of(&self.graph);
        let mut selected: Vec<usize> = Vec::new();
        let mut a: usize = 0;
        while a < n
            invariant
                self.wf(),
                a <= n == self@.nodes.len(),
                selected@ == selected_below(self@.nodes, a as int),
            decreases n - a,
        {
            match node_weight(&self.graph, a) {
                Some(node) => {
                    if node.selected {
                        selected.push(a);
                    }
                },
                None => unreached(),
            }
            a += 1;
        }
        selected
    }

    /// Moves the node `a` to `position`. Says whether there is such a node;
    /// where there is none, nothing changes.
    pub fn set_position(&mut self, a: usize, position: Position) -> (found: bool)
        requires
            old(self).wf(),
        ensures
            final(self).wf(),
            found == (a < old(self)@.nodes.len()),
            final(self)@.links == old(self)@.links,
            found ==> final(self)@.nodes == old(self)@.nodes.update(
                a as int,
                GraphNode { position, ..old(self)@.nodes[a as int] },
            ),
            !found ==> final(self)@ == old(self)@,
    {
        if a > MAX_SLOTS || a >= node_count_of(&self.graph) {
            return false;
        }
        let node = node_mut(&mut self.graph, a);
        node.position = position;
        proof {
            assert(nodes_of(self.graph) == nodes_of(old(self).graph).update(
                a as int,
                GraphNode { position, ..nodes_of(old(self).graph)[a as int] },
            ));
            assert(links_of(self.graph) == links_of(old(self).graph));
        }
        true
    }

    /// Marks the node `a` as selected or not. Says whether there is such a
    /// node; where there is none, nothing changes.
    pub fn set_selected(&mut self, a: usize, selected: bool) -> (found: bool)
        requires
            old(self).wf(),
        ensures
            final(self).wf(),
            found == (a < old(self)@.nodes.len()),
            final(self)@.links == old(self)@.links,
            found ==> final(self)@.nodes == old(self)@.nodes.update(
                a as int,
                GraphNode { selected, ..old(self)@.nodes[a as int] },
            ),
            !found ==> final(self)@ == old(self)@,
    {
        if a > MAX_SLOTS || a >= node_count_of(&self.graph) {
            return false;
        }
        let node = node_mut(&mut self.graph, a);
        node.selected = selected;
        proof {
            assert(nodes_of(self.graph) == nodes_of(old(self).graph).update(
                a as int,
                GraphNode { selected, ..nodes_of(old(self).graph)[a as int] },
            ));
            assert(links_of(self.graph) == links_of(old(self).graph));
        }
        true
    }

    /// Marks the node `a` as dragged or not. Says whether there is such a
    /// node; where there is none, nothing changes.
    pub fn set_dragged(&mut self, a: usize, dragged: bool) -> (found: bool)
        requires
            old(self).wf(),
        ensures
            final(self).wf(),
            found == (a < old(self)@.nodes.len()),
            final(self)@.links == old(self)@.links,
            found ==> final(self)@.nodes == old(self)@.nodes.update(
                a as int,
                GraphNode { dragged, ..old(self)@.nodes[a as int] },
            ),
            !found ==> final(self)@ == old(self)@,
    {
        if a > MAX_SLOTS || a >= node_count_of(&self.graph) {
            return false;
        }
        let node = node_mut(&mut self.graph, a);
        node.dragged = dragged;
        proof {
            assert(nodes_of(self.graph) == nodes_of(old(self).graph).update(
                a as int,
                GraphNode { dragged, ..nodes_of(old(self).graph)[a as int] },
            ));
            assert(links_of(self.graph) == links_of(old(self).graph));
        }
        true
    }
}

/// The number of nodes of a graph without vacant node slots.
fn node_count_of(g: &Topology) -> (count: usize)
    requires
        full(node_slots(*g)),
        node_slots(*g).len() <= MAX_SLOTS,
    ensures
        count == node_slots(*g).len(),
{
    proof {
        lemma_filled_full(node_slots(*g), node_slots(*g).len() as int);
    }
    node_count(g)
}

/// No edge leaves a handle that is no node.
proof fn lemma_no_edge_leaves(model: GraphModel, a: usize, n: int)
    requires
        model.wf(),
        a >= model.nodes.len(),
        0 <= n <= model.links.len(),
    ensures
        leaving(model.links, a, n).len() == 0,
    decreases n,
{
    if n > 0 {
        lemma_no_edge_leaves(model, a, n - 1);
    }
}

// ---------------------------------------------------------------------------
// Building
// ---------------------------------------------------------------------------

impl StateSpace {
    /// Builds the display graph of this state space: a node for each state,
    /// then an edge for each transition, between the nodes that its
    /// identifiers stand for. Fails, and builds nothing, where a transition
    /// names an identifier that no state has.
    ///
    /// The graph has room for fewer than `MAX_SLOTS` nodes and as many edges.
    pub fn build(&self) -> (result: Result<DisplayGraph, GraphError>)
        requires
            self.states.len() < MAX_SLOTS,
            self.transitions.len() < MAX_SLOTS,
        ensures
            match result {
                Ok(graph) => resolvable(self.states@, self.transitions@) && graph@ == built(
                    self.states@,
                    self.transitions@,
                ) && graph.wf(),
                Err(error) => error == GraphError::UnknownStateId && !resolvable(
                    self.states@,
                    self.transitions@,
                ),
            },
    {
        let ghost states = self.states@;
        let ghost transitions = self.transitions@;
        let ghost wanted = built(states, transitions);
        let mut g = graph_new();
        let mut handles: HashMap<usize, usize> = HashMap::new();

        let mut i: usize = 0;
        while i < self.states.len()
            invariant
                i <= self.states.len() < MAX_SLOTS,
                states == self.states@,
                wanted == built(states, transitions),
                node_slots(g).len() == i,
                forall|k: int| 0 <= k < i ==> (#[trigger] node_slots(g)[k]) == Some(wanted.nodes[k]),
                edge_slots(g).len() == 0,
                forall|a: usize| (#[trigger] outgoing(g, a)).len() == 0,
                forall|id: usize| #[trigger] tracks(handles@, states, i as int, id),
            decreases self.states.len() - i,
        {
            let state = self.states[i].clone();
            let id = state.index;
            let ghost before = handles@;
            let a = add_node(
                &mut g,
                GraphNode { state, position: Position::origin(), selected: false, dragged: false },
            );
            handles.insert(id, a);
            proof {
                assert forall|other: usize| #[trigger]
                    tracks(handles@, states, i + 1, other) by {
                    assert(tracks(before, states, i as int, other));
                }
            }
            i += 1;
        }

        let mut j: usize = 0;
        while j < self.transitions.len()
            invariant
                j <= self.transitions.len() < MAX_SLOTS,
                self.states.len() < MAX_SLOTS,
                states == self.states@,
                transitions == self.transitions@,
                wanted == built(states, transitions),
                node_slots(g).len() == states.len(),
                forall|k: int|
                    0 <= k < states.len() ==> (#[trigger] node_slots(g)[k]) == Some(wanted.nodes[k]),
                edge_slots(g).len() == j,
                forall|k: int| 0 <= k < j ==> (#[trigger] edge_slots(g)[k]) == Some(wanted.links[k]),
                forall|k: int|
                    0 <= k < j ==> handle_of(states, (#[trigger] transitions[k]).from) is Some
                        && handle_of(states, transitions[k].to) is Some,
                forall|a: usize| #[trigger] outgoing(g, a) == leaving(wanted.links, a, j as int),
                forall|id: usize| #[trigger] tracks(handles@, states, states.len() as int, id),
            decreases self.transitions.len() - j,
        {
            let transition = self.transitions[j];
            proof {
                lemma_last_index(states, states.len() as int, transition.from);
                lemma_last_index(states, states.len() as int, transition.to);
            }
            proof {
                assert(tracks(handles@, states, states.len() as int, transition.from));
                assert(tracks(handles@, states, states.len() as int, transition.to));
            }
            let a = match handles.get(&transition.from) {
                Some(a) => *a,
                None => {
                    assert(handle_of(states, transitions[j as int].from) is None);
                    return Err(GraphError::UnknownStateId);
                },
            };
            let b = match handles.get(&transition.to) {
                Some(b) => *b,
                None => {
                    assert(handle_of(states, transitions[j as int].to) is None);
                    return Err(GraphError::UnknownStateId);
                },
            };
            let ghost before = g;
            let e = add_edge(&mut g, a, b, GraphEdge { transition, weight: UNIT_WEIGHT });
            proof {
                assert(e == j);
                assert(wanted.links[j as int] == Link {
                    source: a,
                    target: b,
                    edge: GraphEdge { transition, weight: UNIT_WEIGHT },
                });
                assert forall|x: usize| #[trigger]
                    outgoing(g, x) == leaving(wanted.links, x, j + 1) by {
                    assert(outgoing(before, x) == leaving(wanted.links, x, j as int));
                }
            }
            j += 1;
        }

        proof {
            lemma_built_wf(states, transitions);
            assert(nodes_of(g) == wanted.nodes);
            assert(links_of(g) == wanted.links);
        }
        Ok(DisplayGraph { graph: g })
    }
}

} // verus!
