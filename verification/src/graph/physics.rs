//! The physics graph: the graph that the force simulation moves.
//!
//! It has the nodes and edges of the display graph it was made from, under
//! the same handles. A simulation step must not see self-loops, so they are
//! set aside before the step and put back after it.

use vstd::prelude::*;
use vstd::multiset::Multiset;
use vstd::pervasive::unreached;
use super::display::{fresh_node, DisplayGraph};
use super::model::{lemma_filled, lemma_filled_full, selected_below};
use super::node::{GraphEdge, GraphNode, Link, Position, UNIT_WEIGHT};
use super::stable::{
    add_edge, add_node, edge_count, edge_endpoints, edge_indices, edge_mut, edge_slots, edge_weight, filled,
    full, graph_new, node_count, node_mut, node_slots, node_weight, remove_edge, slot,
    Topology, MAX_SLOTS,
};
use super::transition::Transition;

verus! {

/// A self-loop that was set aside: the node it stood at and the transition
/// it carried.
#[derive(Debug, Clone, Copy, PartialEq, Eq, Structural)]
pub struct SelfLoop {
    pub node: usize,
    pub transition: Transition,
}

/// The mathematical value of a physics graph: the nodes by handle, the edge
/// slots by handle, and the self-loops that are set aside.
pub ghost struct PhysicsModel {
    pub nodes: Seq<GraphNode>,
    pub links: Seq<Option<Link>>,
    pub pending: Seq<SelfLoop>,
}

/// Whether an edge slot holds a self-loop.
pub open spec fn is_loop(link: Option<Link>) -> bool {
    link matches Some(l) && l.source == l.target
}

/// The number of vacant slots among the first `n`.
pub open spec fn vacant<T>(slots: Seq<Option<T>>, n: int) -> nat
    decreases n,
{
    if n <= 0 {
        0
    } else if slots[n - 1] is None {
        vacant(slots, n - 1) + 1
    } else {
        vacant(slots, n - 1)
    }
}

/// The edge with the unit weight that stands for a self-loop set aside.
pub open spec fn loop_link(set_aside: SelfLoop) -> Link {
    Link {
        source: set_aside.node,
        target: set_aside.node,
        edge: GraphEdge { transition: set_aside.transition, weight: UNIT_WEIGHT },
    }
}

impl PhysicsModel {
    /// Every edge starts and ends at a node, every self-loop set aside
    /// belongs to a node and has a vacant slot to return to, and the handles
    /// fit the graph.
    pub open spec fn wf(self) -> bool {
        &&& self.nodes.len() <= MAX_SLOTS
        &&& self.links.len() <= MAX_SLOTS
        &&& forall|e: int|
            0 <= e < self.links.len() && (#[trigger] self.links[e]) is Some ==> self.links[e]->0.source
                < self.nodes.len() && self.links[e]->0.target < self.nodes.len()
        &&& forall|i: int|
            0 <= i < self.pending.len() ==> (#[trigger] self.pending[i]).node < self.nodes.len()
        &&& vacant(self.links, self.links.len() as int) >= self.pending.len()
    }
}

/// The graph that the simulation moves.
pub struct PhysicsGraph {
    graph: Topology,
    pending: Vec<SelfLoop>,
}

/// The nodes of a graph without vacant node slots.
spec fn nodes_of(g: Topology) -> Seq<GraphNode> {
    node_slots(g).map_values(|node: Option<GraphNode>| node->0)
}

impl View for PhysicsGraph {
    type V = PhysicsModel;

    closed spec fn view(&self) -> PhysicsModel {
        PhysicsModel {
            nodes: nodes_of(self.graph),
            links: edge_slots(self.graph),
            pending: self.pending@,
        }
    }
}

/// The physics graph of a display graph: its nodes, each at the origin, and
/// its edges, each with the unit weight, all under their handles.
pub open spec fn derived(nodes: Seq<GraphNode>, links: Seq<Link>) -> PhysicsModel {
    PhysicsModel {
        nodes: nodes.map_values(|node: GraphNode| fresh_node(node.state)),
        links: links.map_values(
            |link: Link|
                Some(
                    Link {
                        source: link.source,
                        target: link.target,
                        edge: GraphEdge { transition: link.edge.transition, weight: UNIT_WEIGHT },
                    },
                ),
        ),
        pending: Seq::empty(),
    }
}

/// Slots that are all occupied have no vacant slot among them.
proof fn lemma_vacant_full<T>(slots: Seq<Option<T>>, n: int)
    requires
        0 <= n <= slots.len(),
        full(slots),
    ensures
        vacant(slots, n) == 0,
    decreases n,
{
    if n > 0 {
        lemma_vacant_full(slots, n - 1);
    }
}

/// Slots of which one is vacant are not all occupied, and the other way
/// round.
proof fn lemma_vacant_some<T>(slots: Seq<Option<T>>, n: int)
    requires
        0 <= n <= slots.len(),
    ensures
        vacant(slots, n) > 0 <==> exists|e: int| 0 <= e < n && (#[trigger] slots[e]) is None,
    decreases n,
{
    if n > 0 {
        lemma_vacant_some(slots, n - 1);
        if vacant(slots, n) > 0 {
            if slots[n - 1] is None {
            } else {
                let e = choose|e: int| 0 <= e < n - 1 && (#[trigger] slots[e]) is None;
                assert(slots[e] is None);
            }
        }
    }
}

/// Filling or vacating one slot changes the number of vacant slots by one;
/// replacing what lies in a slot, or vacating a vacant one, changes nothing.
proof fn lemma_vacant_update<T>(slots: Seq<Option<T>>, e: int, value: Option<T>, n: int)
    requires
        0 <= e < slots.len(),
        0 <= n <= slots.len(),
    ensures
        vacant(slots.update(e, value), n) == vacant(slots, n) + (if e < n && value is None
            && slots[e] is Some {
            1int
        } else if e < n && value is Some && slots[e] is None {
            -1int
        } else {
            0int
        }),
    decreases n,
{
    if n > 0 {
        lemma_vacant_update(slots, e, value, n - 1);
    }
}

impl PhysicsGraph {
    /// What holds of every physics graph: no node slot is vacant, and the
    /// model is well formed.
    pub closed spec fn wf(&self) -> bool {
        &&& full(node_slots(self.graph))
        &&& self@.wf()
    }

    /// The model of a well-formed graph is well formed.
    pub proof fn lemma_wf(&self)
        requires
            self.wf(),
        ensures
            self@.wf(),
    {
    }

    /// The number of nodes.
    pub fn node_count(&self) -> (count: usize)
        requires
            self.wf(),
        ensures
            count == self@.nodes.len(),
    {
        proof {
            lemma_filled_full(node_slots(self.graph), node_slots(self.graph).len() as int);
        }
        node_count(&self.graph)
    }

    /// The node with the handle `a`, if there is one.
    pub fn node(&self, a: usize) -> (node: Option<&GraphNode>)
        requires
            self.wf(),
        ensures
            match node {
                Some(node) => a < self@.nodes.len() && *node == self@.nodes[a as int],
                None => a >= self@.nodes.len(),
            },
    {
        if a > MAX_SLOTS {
            return None;
        }
        node_weight(&self.graph, a)
    }

    /// Where the node `a` is in the space of the simulation, if there is
    /// such a node: its two coordinates in the plane, and zero for the
    /// third.
    pub fn location(&self, a: usize) -> (place: Option<(u32, u32, u32)>)
        requires
            self.wf(),
        ensures
            match place {
                Some(place) => a < self@.nodes.len() && place == (
                    self@.nodes[a as int].position.x,
                    self@.nodes[a as int].position.y,
                    0u32,
                ),
                None => a >= self@.nodes.len(),
            },
    {
        match self.node(a) {
            Some(node) => Some((node.position.x, node.position.y, 0)),
            None => None,
        }
    }

    /// Moves the node `a` to `position`. Says whether there is such a node;
    /// where there is none, nothing changes.
    pub fn set_position(&mut self, a: usize, position: Position) -> (found: bool)
        requires
            old(self).wf(),
        ensures
            final(self).wf(),
            found == (a < old(self)@.nodes.len()),
            final(self)@.links == old(self)@.links,
            final(self)@.pending == old(self)@.pending,
            found ==> final(self)@.nodes == old(self)@.nodes.update(
                a as int,
                GraphNode { position, ..old(self)@.nodes[a as int] },
            ),
            !found ==> final(self)@ == old(self)@,
    {
        proof {
            lemma_filled_full(node_slots(self.graph), node_slots(self.graph).len() as int);
        }
        if a > MAX_SLOTS || a >= node_count(&self.graph) {
            return false;
        }
        let node = node_mut(&mut self.graph, a);
        node.position = position;
        proof {
            assert(nodes_of(self.graph) == nodes_of(old(self).graph).update(
                a as int,
                GraphNode { position, ..nodes_of(old(self).graph)[a as int] },
            ));
        }
        true
    }

    /// The handles of the edges, in rising order.
    pub fn edge_handles(&self) -> (handles: Vec<usize>)
        requires
            self.wf(),
        ensures
            handles@ == filled(self@.links, self@.links.len() as int),
    {
        edge_indices(&self.graph)
    }

    /// The handles of the nodes at which the edge `e` starts and ends, if
    /// there is such an edge.
    pub fn edge_endpoints(&self, e: usize) -> (ends: Option<(usize, usize)>)
        requires
            self.wf(),
        ensures
            ends == match slot(self@.links, e) {
                Some(link) => Some((link.source, link.target)),
                None => None,
            },
    {
        if e > MAX_SLOTS {
            return None;
        }
        edge_endpoints(&self.graph, e)
    }

    /// What the edge `e` carries, if there is such an edge.
    pub fn edge(&self, e: usize) -> (edge: Option<GraphEdge>)
        requires
            self.wf(),
        ensures
            edge == match slot(self@.links, e) {
                Some(link) => Some(link.edge),
                None => None,
            },
    {
        if e > MAX_SLOTS {
            return None;
        }
        edge_weight(&self.graph, e)
    }

    /// The number of edges, without the self-loops that are set aside.
    pub fn edge_count(&self) -> (count: usize)
        requires
            self.wf(),
        ensures
            count == filled(self@.links, self@.links.len() as int).len(),
    {
        edge_count(&self.graph)
    }

    /// Gives the edge `e` the weight `weight`. Says whether there is such an
    /// edge; where there is none, nothing changes.
    pub fn set_weight(&mut self, e: usize, weight: u32) -> (found: bool)
        requires
            old(self).wf(),
        ensures
            final(self).wf(),
            found == (slot(old(self)@.links, e) is Some),
            final(self)@.nodes == old(self)@.nodes,
            final(self)@.pending == old(self)@.pending,
            found ==> final(self)@.links == old(self)@.links.update(
                e as int,
                Some(
                    Link {
                        source: old(self)@.links[e as int]->0.source,
                        target: old(self)@.links[e as int]->0.target,
                        edge: GraphEdge {
                            transition: old(self)@.links[e as int]->0.edge.transition,
                            weight,
                        },
                    },
                ),
            ),
            !found ==> final(self)@ == old(self)@,
    {
        if e > MAX_SLOTS {
            return false;
        }
        if edge_endpoints(&self.graph, e).is_none() {
            return false;
        }
        let ghost before = edge_slots(self.graph);
        let edge = edge_mut(&mut self.graph, e);
        edge.weight = weight;
        proof {
            lemma_vacant_update(
                before,
                e as int,
                edge_slots(self.graph)[e as int],
                before.len() as int,
            );
        }
        true
    }

    /// The self-loops that are set aside, in the order in which they were
    /// set aside.
    pub fn pending(&self) -> (pending: &Vec<SelfLoop>)
        ensures
            pending@ == self@.pending,
    {
        &self.pending
    }
}


// ---------------------------------------------------------------------------
// Setting self-loops aside and putting them back
// ---------------------------------------------------------------------------

/// What is set aside for the self-loop in an edge slot.
pub open spec fn set_aside(link: Option<Link>) -> SelfLoop {
    SelfLoop { node: link->0.source, transition: link->0.edge.transition }
}

/// The self-loops among the first `n` edge slots, in rising order of their
/// handles.
pub open spec fn loops_below(links: Seq<Option<Link>>, n: int) -> Seq<SelfLoop>
    decreases n,
{
    if n <= 0 {
        Seq::empty()
    } else if is_loop(links[n - 1]) {
        loops_below(links, n - 1).push(set_aside(links[n - 1]))
    } else {
        loops_below(links, n - 1)
    }
}

/// The self-loops among the edges with the first `k` of `handles`, in the
/// order of the handles.
pub open spec fn loops_along(links: Seq<Option<Link>>, handles: Seq<usize>, k: int) -> Seq<
    SelfLoop,
>
    decreases k,
{
    if k <= 0 {
        Seq::empty()
    } else if is_loop(links[handles[k - 1] as int]) {
        loops_along(links, handles, k - 1).push(set_aside(links[handles[k - 1] as int]))
    } else {
        loops_along(links, handles, k - 1)
    }
}

/// Whether `e` is one of the first `k` of `handles`.
pub open spec fn among(handles: Seq<usize>, k: int, e: int) -> bool {
    exists|j: int| 0 <= j < k && j < handles.len() && #[trigger] handles[j] == e
}

/// Along rising handles, the next handle is none of those before it, and
/// with it the handles walked are those before it and itself.
proof fn lemma_among_next(handles: Seq<usize>, k: int)
    requires
        0 <= k < handles.len(),
        forall|i: int, j: int| 0 <= i < j < handles.len() ==> handles[i] < handles[j],
    ensures
        !among(handles, k, handles[k] as int),
        forall|x: int| #[trigger] among(handles, k + 1, x) == (among(handles, k, x) || x == handles[k]),
{
    if among(handles, k, handles[k] as int) {
        let j = choose|j: int| 0 <= j < k && j < handles.len() && #[trigger] handles[j] == handles[k];
        assert(handles[j] < handles[k]);
    }
    assert forall|x: int| #[trigger] among(handles, k + 1, x) == (among(handles, k, x) || x
        == handles[k]) by {
        if among(handles, k + 1, x) {
            let j = choose|j: int| 0 <= j < k + 1 && j < handles.len() && #[trigger] handles[j] == x;
            if j < k {
                assert(among(handles, k, x));
            }
        }
        if among(handles, k, x) {
            let j = choose|j: int| 0 <= j < k && j < handles.len() && #[trigger] handles[j] == x;
            assert(among(handles, k + 1, x));
        }
        if x == handles[k] {
            assert(handles[k] == x);
            assert(among(handles, k + 1, x));
        }
    }
}

/// Every occupied slot is among the handles of the occupied slots.
proof fn lemma_among_all<T>(slots: Seq<Option<T>>, x: int)
    requires
        slots.len() <= usize::MAX,
        0 <= x < slots.len(),
        slots[x] is Some,
    ensures
        among(
            filled(slots, slots.len() as int),
            filled(slots, slots.len() as int).len() as int,
            x,
        ),
{
    let handles = filled(slots, slots.len() as int);
    lemma_filled(slots, slots.len() as int);
    assert(handles.contains(x as usize));
    let j = choose|j: int| 0 <= j < handles.len() && handles[j] == x as usize;
    assert(handles[j] == x);
}

/// The edge slots with the self-loops put back: the `k` first of `loops`,
/// each with the unit weight, in the slots with the handles `handles`.
pub open spec fn placed(
    links: Seq<Option<Link>>,
    handles: Seq<usize>,
    loops: Seq<SelfLoop>,
    k: int,
) -> Seq<Option<Link>>
    decreases k,
{
    if k <= 0 {
        links
    } else {
        placed(links, handles, loops, k - 1).update(
            handles[k - 1] as int,
            Some(loop_link(loops[k - 1])),
        )
    }
}

/// The edge slots with every weight set to the unit weight.
pub open spec fn unit_weights(links: Seq<Option<Link>>) -> Seq<Option<Link>> {
    links.map_values(|link: Option<Link>| unit_weight(link))
}

/// An edge slot with the weight of its edge, if it has one, set to the unit
/// weight.
pub open spec fn unit_weight(link: Option<Link>) -> Option<Link> {
    match link {
        Some(l) => Some(
            Link {
                source: l.source,
                target: l.target,
                edge: GraphEdge { transition: l.edge.transition, weight: UNIT_WEIGHT },
            },
        ),
        None => None,
    }
}

impl PhysicsModel {
    /// This graph with its self-loops set aside: their slots are vacant, and
    /// they stand, in rising order of their handles, behind what was set
    /// aside before.
    pub open spec fn cut(self) -> PhysicsModel {
        PhysicsModel {
            nodes: self.nodes,
            links: self.links.map_values(
                |link: Option<Link>|
                    if is_loop(link) {
                        None
                    } else {
                        link
                    },
            ),
            pending: self.pending + loops_below(self.links, self.links.len() as int),
        }
    }

    /// Whether `handles` are slots for the self-loops set aside: one vacant
    /// slot for each, and no slot twice.
    pub open spec fn vacancies(self, handles: Seq<usize>) -> bool {
        &&& handles.len() == self.pending.len()
        &&& forall|i: int|
            0 <= i < handles.len() ==> (#[trigger] handles[i]) < self.links.len()
                && self.links[handles[i] as int] is None
        &&& forall|i: int, j: int| 0 <= i < j < handles.len() ==> handles[i] != handles[j]
    }

    /// This graph with the self-loops set aside put back into the slots with
    /// the handles `handles`, each with the unit weight.
    pub open spec fn restored(self, handles: Seq<usize>) -> PhysicsModel {
        PhysicsModel {
            nodes: self.nodes,
            links: placed(self.links, handles, self.pending, self.pending.len() as int),
            pending: Seq::empty(),
        }
    }
}

/// Walking the handles of the occupied slots meets the self-loops that
/// walking the slots meets.
proof fn lemma_loops_along_filled(links: Seq<Option<Link>>, n: int)
    requires
        0 <= n <= links.len(),
        n <= usize::MAX,
    ensures
        loops_along(links, filled(links, n), filled(links, n).len() as int) == loops_below(
            links,
            n,
        ),
    decreases n,
{
    if n > 0 {
        lemma_loops_along_filled(links, n - 1);
        let before = filled(links, n - 1);
        let now = filled(links, n);
        lemma_loops_along_prefix(links, before, now, before.len() as int);
    }
}

/// `loops_along` looks at the first `k` handles only.
proof fn lemma_loops_along_prefix(
    links: Seq<Option<Link>>,
    first: Seq<usize>,
    second: Seq<usize>,
    k: int,
)
    requires
        0 <= k <= first.len(),
        k <= second.len(),
        forall|j: int| 0 <= j < k ==> first[j] == second[j],
    ensures
        loops_along(links, first, k) == loops_along(links, second, k),
    decreases k,
{
    if k > 0 {
        lemma_loops_along_prefix(links, first, second, k - 1);
    }
}

/// What `placed` changes: the slots with the first `k` handles, and no
/// other.
proof fn lemma_placed(
    links: Seq<Option<Link>>,
    handles: Seq<usize>,
    loops: Seq<SelfLoop>,
    k: int,
)
    requires
        0 <= k <= handles.len(),
        k <= loops.len(),
        forall|i: int| 0 <= i < handles.len() ==> (#[trigger] handles[i]) < links.len(),
        forall|i: int, j: int| 0 <= i < j < handles.len() ==> handles[i] != handles[j],
    ensures
        placed(links, handles, loops, k).len() == links.len(),
        forall|i: int|
            0 <= i < k ==> placed(links, handles, loops, k)[(#[trigger] handles[i]) as int] == Some(
                loop_link(loops[i]),
            ),
        forall|e: int|
            0 <= e < links.len() && !among(handles, k, e) ==> (#[trigger] placed(
                links,
                handles,
                loops,
                k,
            )[e]) == links[e],
    decreases k,
{
    if k > 0 {
        lemma_placed(links, handles, loops, k - 1);
        let before = placed(links, handles, loops, k - 1);
        let now = placed(links, handles, loops, k);
        assert forall|e: int| 0 <= e < links.len() && !among(handles, k, e) implies (#[trigger] now[e])
            == links[e] by {
            assert(handles[k - 1] != e);
            assert(!among(handles, k - 1, e)) by {
                if among(handles, k - 1, e) {
                    let j = choose|j: int|
                        0 <= j < k - 1 && j < handles.len() && #[trigger] handles[j] == e;
                    assert(handles[j] == e);
                }
            }
        }
    }
}

/// Makes the physics graph of a display graph: a node at the origin for each
/// of its nodes, and an edge with the unit weight for each of its edges, all
/// under the handles that they have in the display graph.
pub fn construct_simulation(display: &DisplayGraph) -> (physics: PhysicsGraph)
    requires
        display.wf(),
    ensures
        physics.wf(),
        physics@ == derived(display@.nodes, display@.links),
{
    let ghost wanted = derived(display@.nodes, display@.links);
    let mut g = graph_new();
    let n = display.node_count();
    let m = display.edge_count();

    let mut i: usize = 0;
    while i < n
        invariant
            display.wf(),
            display@.wf(),
            i <= n == display@.nodes.len(),
            wanted == derived(display@.nodes, display@.links),
            node_slots(g).len() == i,
            forall|k: int| 0 <= k < i ==> (#[trigger] node_slots(g)[k]) == Some(wanted.nodes[k]),
            edge_slots(g).len() == 0,
        decreases n - i,
    {
        let state = match display.node(i) {
            Some(node) => node.state.clone(),
            None => unreached(),
        };
        add_node(
            &mut g,
            GraphNode { state, position: Position::origin(), selected: false, dragged: false },
        );
        i += 1;
    }

    let mut e: usize = 0;
    while e < m
        invariant
            display.wf(),
            display@.wf(),
            n == display@.nodes.len(),
            e <= m == display@.links.len(),
            wanted == derived(display@.nodes, display@.links),
            node_slots(g).len() == n,
            forall|k: int| 0 <= k < n ==> (#[trigger] node_slots(g)[k]) == Some(wanted.nodes[k]),
            edge_slots(g).len() == e,
            forall|k: int| 0 <= k < e ==> (#[trigger] edge_slots(g)[k]) == wanted.links[k],
        decreases m - e,
    {
        let ends = display.edge_endpoints(e);
        let edge = display.edge(e);
        match (ends, edge) {
            (Some((a, b)), Some(edge)) => {
                add_edge(
                    &mut g,
                    a,
                    b,
                    GraphEdge { transition: edge.transition, weight: UNIT_WEIGHT },
                );
            },
            _ => unreached(),
        }
        e += 1;
    }

    proof {
        assert(nodes_of(g) == wanted.nodes);
        assert(edge_slots(g) == wanted.links);
        lemma_vacant_full(edge_slots(g), edge_slots(g).len() as int);
    }
    PhysicsGraph { graph: g, pending: Vec::new() }
}


impl PhysicsGraph {
    /// Opens a simulation step: sets every self-loop aside and vacates its
    /// slot, so that the step sees no edge of length zero. Every other edge
    /// and every node stays as it is.
    pub fn begin_step(&mut self)
        requires
            old(self).wf(),
        ensures
            final(self).wf(),
            final(self)@ == old(self)@.cut(),
    {
        let handles = edge_indices(&self.graph);
        let ghost links = edge_slots(self.graph);
        let ghost aside = self.pending@;
        proof {
            lemma_filled(links, links.len() as int);
        }
        let mut k: usize = 0;
        while k < handles.len()
            invariant
                k <= handles.len(),
                links.len() <= MAX_SLOTS,
                handles@ == filled(links, links.len() as int),
                forall|i: int|
                    0 <= i < handles.len() ==> (#[trigger] handles[i]) < links.len()
                        && links[handles[i] as int] is Some,
                forall|i: int, j: int| 0 <= i < j < handles.len() ==> handles[i] < handles[j],
                node_slots(self.graph) == node_slots(old(self).graph),
                edge_slots(self.graph).len() == links.len(),
                forall|e: int|
                    0 <= e < links.len() ==> (#[trigger] edge_slots(self.graph)[e]) == (if among(
                        handles@,
                        k as int,
                        e,
                    ) && is_loop(links[e]) {
                        None
                    } else {
                        links[e]
                    }),
                self.pending@ == aside + loops_along(links, handles@, k as int),
                vacant(edge_slots(self.graph), links.len() as int) == vacant(
                    links,
                    links.len() as int,
                ) + loops_along(links, handles@, k as int).len(),
            decreases handles.len() - k,
        {
            let e = handles[k];
            let ghost before = edge_slots(self.graph);
            proof {
                lemma_among_next(handles@, k as int);
                assert(before[e as int] == links[e as int]);
            }
            match edge_endpoints(&self.graph, e) {
                Some((a, b)) => {
                    if a == b {
                        match remove_edge(&mut self.graph, e) {
                            Some(edge) => {
                                self.pending.push(SelfLoop { node: a, transition: edge.transition });
                            },
                            None => unreached(),
                        }
                        proof {
                            lemma_vacant_update(before, e as int, None, links.len() as int);
                        }
                    }
                },
                None => unreached(),
            }
            proof {
                assert forall|x: int| 0 <= x < links.len() implies (#[trigger] edge_slots(
                    self.graph,
                )[x]) == (if among(handles@, k + 1, x) && is_loop(links[x]) {
                    None
                } else {
                    links[x]
                }) by {
                    assert(among(handles@, k + 1, x) == (among(handles@, k as int, x) || x == e));
                }
            }
            k += 1;
        }
        proof {
            lemma_loops_along_filled(links, links.len() as int);
            let wanted = old(self)@.cut();
            assert forall|x: int| 0 <= x < links.len() implies (#[trigger] edge_slots(
                self.graph,
            )[x]) == wanted.links[x] by {
                if links[x] is Some {
                    lemma_among_all(links, x);
                }
            }
            assert(edge_slots(self.graph) == wanted.links);
            assert(nodes_of(self.graph) == wanted.nodes);
            lemma_loops_are_at_nodes(old(self)@, links.len() as int);
        }
    }

    /// Closes a simulation step: puts every self-loop that was set aside
    /// back, with the unit weight, into a vacant slot. Returns the handles
    /// that the self-loops have now, in the order in which they were set
    /// aside. Every other edge and every node stays as it is.
    pub fn end_step(&mut self) -> (handles: Vec<usize>)
        requires
            old(self).wf(),
        ensures
            final(self).wf(),
            old(self)@.vacancies(handles@),
            final(self)@ == old(self)@.restored(handles@),
    {
        let ghost links = edge_slots(self.graph);
        let ghost aside = self.pending@;
        let mut handles: Vec<usize> = Vec::new();
        let mut i: usize = 0;
        while i < self.pending.len()
            invariant
                i <= self.pending.len(),
                self.pending@ == aside,
                handles@.len() == i,
                links.len() <= MAX_SLOTS,
                full(node_slots(self.graph)),
                node_slots(self.graph) == node_slots(old(self).graph),
                node_slots(self.graph).len() <= MAX_SLOTS,
                forall|j: int|
                    0 <= j < aside.len() ==> (#[trigger] aside[j]).node < node_slots(self.graph).len(),
                edge_slots(self.graph) == placed(links, handles@, aside, i as int),
                edge_slots(self.graph).len() == links.len(),
                forall|j: int|
                    0 <= j < i ==> (#[trigger] handles[j]) < links.len() && links[handles[j] as int]
                        is None && edge_slots(self.graph)[handles[j] as int] is Some,
                forall|j: int, l: int| 0 <= j < l < i ==> handles[j] != handles[l],
                forall|e: int|
                    0 <= e < links.len() && (#[trigger] edge_slots(self.graph)[e]) is None
                        ==> links[e] is None,
                vacant(edge_slots(self.graph), links.len() as int) + i == vacant(
                    links,
                    links.len() as int,
                ),
                vacant(links, links.len() as int) >= aside.len(),
            decreases self.pending.len() - i,
        {
            let set_aside = self.pending[i];
            let ghost before = edge_slots(self.graph);
            proof {
                lemma_vacant_some(before, links.len() as int);
                let vacancy = choose|e: int| 0 <= e < links.len() && (#[trigger] before[e]) is None;
                assert(before[vacancy] is None);
                assert(!full(before));
            }
            let e = add_edge(
                &mut self.graph,
                set_aside.node,
                set_aside.node,
                GraphEdge { transition: set_aside.transition, weight: UNIT_WEIGHT },
            );
            proof {
                lemma_vacant_update(
                    before,
                    e as int,
                    Some(loop_link(set_aside)),
                    links.len() as int,
                );
                assert(handles@.push(e)[i as int] == e);
                lemma_placed_prefix(links, handles@, handles@.push(e), aside, i as int);
            }
            handles.push(e);
            i += 1;
        }
        self.pending = Vec::new();
        proof {
            assert(nodes_of(self.graph) == old(self)@.nodes);
            lemma_placed(links, handles@, aside, aside.len() as int);
            let now = edge_slots(self.graph);
            assert forall|e: int| 0 <= e < now.len() && (#[trigger] now[e]) is Some implies now[e]->0.source
                < nodes_of(self.graph).len() && now[e]->0.target < nodes_of(self.graph).len() by {
                if among(handles@, aside.len() as int, e) {
                    let j = choose|j: int|
                        0 <= j < aside.len() && j < handles.len() && #[trigger] handles[j] == e;
                    assert(now[handles[j] as int] == Some(loop_link(aside[j])));
                } else {
                    assert(now[e] == links[e]);
                }
            }
        }
        handles
    }
}

/// `placed` looks at the first `k` handles only.
proof fn lemma_placed_prefix(
    links: Seq<Option<Link>>,
    first: Seq<usize>,
    second: Seq<usize>,
    loops: Seq<SelfLoop>,
    k: int,
)
    requires
        0 <= k <= first.len(),
        k <= second.len(),
        forall|j: int| 0 <= j < k ==> first[j] == second[j],
    ensures
        placed(links, first, loops, k) == placed(links, second, loops, k),
    decreases k,
{
    if k > 0 {
        lemma_placed_prefix(links, first, second, loops, k - 1);
    }
}

/// The self-loops of a well-formed graph stand at nodes of the graph.
proof fn lemma_loops_are_at_nodes(model: PhysicsModel, n: int)
    requires
        model.wf(),
        0 <= n <= model.links.len(),
    ensures
        forall|i: int|
            0 <= i < loops_below(model.links, n).len() ==> (#[trigger] loops_below(
                model.links,
                n,
            )[i]).node < model.nodes.len(),
    decreases n,
{
    if n > 0 {
        lemma_loops_are_at_nodes(model, n - 1);
        let rest = loops_below(model.links, n - 1);
        let all = loops_below(model.links, n);
        assert forall|i: int| 0 <= i < all.len() implies (#[trigger] all[i]).node
            < model.nodes.len() by {
            if i < rest.len() {
                assert(all[i] == rest[i]);
            } else {
                assert(model.links[n - 1] is Some);
            }
        }
    }
}


// ---------------------------------------------------------------------------
// What a simulation step keeps
// ---------------------------------------------------------------------------

/// The nodes at which the self-loops among the first `n` edge slots stand,
/// each as often as it has self-loops.
pub open spec fn loop_nodes(links: Seq<Option<Link>>, n: int) -> Multiset<usize>
    decreases n,
{
    if n <= 0 {
        Multiset::empty()
    } else if is_loop(links[n - 1]) {
        loop_nodes(links, n - 1).insert(links[n - 1]->0.source)
    } else {
        loop_nodes(links, n - 1)
    }
}

/// The nodes of the first `k` of the self-loops set aside, each as often as
/// it occurs.
pub open spec fn aside_nodes(loops: Seq<SelfLoop>, k: int) -> Multiset<usize>
    decreases k,
{
    if k <= 0 {
        Multiset::empty()
    } else {
        aside_nodes(loops, k - 1).insert(loops[k - 1].node)
    }
}

/// The edge slots without the self-loops: every other edge in its slot.
pub open spec fn proper(links: Seq<Option<Link>>) -> Seq<Option<Link>> {
    links.map_values(
        |link: Option<Link>|
            if is_loop(link) {
                None
            } else {
                link
            },
    )
}

proof fn lemma_aside_nodes_prefix(first: Seq<SelfLoop>, second: Seq<SelfLoop>, k: int)
    requires
        0 <= k <= first.len(),
        k <= second.len(),
        forall|j: int| 0 <= j < k ==> first[j] == second[j],
    ensures
        aside_nodes(first, k) == aside_nodes(second, k),
    decreases k,
{
    if k > 0 {
        lemma_aside_nodes_prefix(first, second, k - 1);
    }
}

/// The self-loops that `loops_below` lists stand at the nodes that
/// `loop_nodes` counts.
proof fn lemma_aside_nodes_of_loops(links: Seq<Option<Link>>, n: int)
    requires
        0 <= n <= links.len(),
    ensures
        aside_nodes(loops_below(links, n), loops_below(links, n).len() as int) == loop_nodes(
            links,
            n,
        ),
    decreases n,
{
    if n > 0 {
        lemma_aside_nodes_of_loops(links, n - 1);
        let rest = loops_below(links, n - 1);
        let all = loops_below(links, n);
        lemma_aside_nodes_prefix(rest, all, rest.len() as int);
    }
}

/// A graph without self-loops has no node with a self-loop.
proof fn lemma_no_loops(links: Seq<Option<Link>>, n: int)
    requires
        0 <= n <= links.len(),
        forall|e: int| 0 <= e < links.len() ==> !is_loop(#[trigger] links[e]),
    ensures
        loop_nodes(links, n) == Multiset::<usize>::empty(),
    decreases n,
{
    if n > 0 {
        lemma_no_loops(links, n - 1);
    }
}

/// A self-loop put into a vacant slot adds its node to the nodes with
/// self-loops, once.
proof fn lemma_loop_placed(links: Seq<Option<Link>>, e: int, link: Link, n: int)
    requires
        0 <= e < links.len(),
        0 <= n <= links.len(),
        links[e] is None,
        link.source == link.target,
    ensures
        loop_nodes(links.update(e, Some(link)), n) == (if e < n {
            loop_nodes(links, n).insert(link.source)
        } else {
            loop_nodes(links, n)
        }),
    decreases n,
{
    if n > 0 {
        lemma_loop_placed(links, e, link, n - 1);
        let now = links.update(e, Some(link));
        if e < n - 1 && is_loop(links[n - 1]) {
            assert(loop_nodes(links, n - 1).insert(link.source).insert(links[n - 1]->0.source)
                =~= loop_nodes(links, n - 1).insert(links[n - 1]->0.source).insert(link.source));
        }
    }
}

/// Putting self-loops back into vacant slots adds their nodes to the nodes
/// with self-loops.
proof fn lemma_loops_placed(
    links: Seq<Option<Link>>,
    handles: Seq<usize>,
    loops: Seq<SelfLoop>,
    k: int,
)
    requires
        0 <= k <= handles.len(),
        k <= loops.len(),
        forall|i: int|
            0 <= i < handles.len() ==> (#[trigger] handles[i]) < links.len()
                && links[handles[i] as int] is None,
        forall|i: int, j: int| 0 <= i < j < handles.len() ==> handles[i] != handles[j],
    ensures
        loop_nodes(placed(links, handles, loops, k), links.len() as int) == loop_nodes(
            links,
            links.len() as int,
        ).add(aside_nodes(loops, k)),
    decreases k,
{
    if k > 0 {
        lemma_loops_placed(links, handles, loops, k - 1);
        lemma_placed(links, handles, loops, k - 1);
        let before = placed(links, handles, loops, k - 1);
        let e = handles[k - 1] as int;
        assert(!among(handles, k - 1, e)) by {
            if among(handles, k - 1, e) {
                let j = choose|j: int|
                    0 <= j < k - 1 && j < handles.len() && #[trigger] handles[j] == e;
                assert(handles[j] != handles[k - 1]);
            }
        }
        assert(before[e] == links[e]);
        lemma_loop_placed(before, e, loop_link(loops[k - 1]), links.len() as int);
        assert(loop_nodes(links, links.len() as int).add(aside_nodes(loops, k - 1)).insert(
            loops[k - 1].node,
        ) =~= loop_nodes(links, links.len() as int).add(aside_nodes(loops, k)));
    } else {
        assert(loop_nodes(links, links.len() as int).add(aside_nodes(loops, 0)) =~= loop_nodes(
            links,
            links.len() as int,
        ));
    }
}

/// What a step is shown holds no self-loop: the graph with its self-loops
/// set aside has every other edge in its slot and nothing else, and a graph
/// without self-loops is shown as it is.
pub proof fn lemma_cut_shows_no_loops(before: PhysicsModel)
    ensures
        before.cut().nodes == before.nodes,
        before.cut().links == proper(before.links),
        forall|e: int|
            0 <= e < before.cut().links.len() ==> !is_loop(#[trigger] before.cut().links[e]),
        loop_nodes(before.cut().links, before.links.len() as int) == Multiset::<usize>::empty(),
        (forall|e: int| 0 <= e < before.links.len() ==> !is_loop(#[trigger] before.links[e]))
            ==> before.cut().links == before.links && before.cut().pending == before.pending,
{
    let n = before.links.len() as int;
    lemma_no_loops(before.cut().links, n);
    if forall|e: int| 0 <= e < before.links.len() ==> !is_loop(#[trigger] before.links[e]) {
        assert(before.cut().links =~= before.links);
        lemma_no_loops_below(before.links, n);
        assert(before.pending + loops_below(before.links, n) =~= before.pending);
    }
}

/// A graph without self-loops has none to set aside.
proof fn lemma_no_loops_below(links: Seq<Option<Link>>, n: int)
    requires
        0 <= n <= links.len(),
        forall|e: int| 0 <= e < links.len() ==> !is_loop(#[trigger] links[e]),
    ensures
        loops_below(links, n).len() == 0,
    decreases n,
{
    if n > 0 {
        lemma_no_loops_below(links, n - 1);
    }
}

/// The nodes of one list of self-loops after another are the nodes of both.
proof fn lemma_aside_nodes_joined(first: Seq<SelfLoop>, second: Seq<SelfLoop>, k: int)
    requires
        0 <= k <= second.len(),
    ensures
        aside_nodes(first + second, first.len() + k) == aside_nodes(first, first.len() as int).add(
            aside_nodes(second, k),
        ),
    decreases k,
{
    let both = first + second;
    if k > 0 {
        lemma_aside_nodes_joined(first, second, k - 1);
        assert(both[first.len() + k - 1] == second[k - 1]);
        assert(aside_nodes(first, first.len() as int).add(aside_nodes(second, k - 1)).insert(
            second[k - 1].node,
        ) =~= aside_nodes(first, first.len() as int).add(aside_nodes(second, k)));
    } else {
        lemma_aside_nodes_prefix(both, first, first.len() as int);
        assert(aside_nodes(first, first.len() as int).add(aside_nodes(second, 0)) =~= aside_nodes(
            first,
            first.len() as int,
        ));
    }
}

/// A simulation step keeps the self-loops and every other edge.
///
/// Let a well-formed graph open a step, let the step move nodes at will, and
/// let the graph close the step. Then every edge that is no self-loop lies
/// in its slot as before, with what it carried, and every node has the
/// self-loops that it had before the step, and those that were set aside
/// for it when the step was opened. A graph with nothing set aside has after
/// the step, node for node, as many self-loops as before it.
pub proof fn lemma_step_keeps_self_loops(
    before: PhysicsModel,
    moved: PhysicsModel,
    handles: Seq<usize>,
)
    requires
        before.wf(),
        moved.links == before.cut().links,
        moved.pending == before.cut().pending,
        moved.vacancies(handles),
    ensures
        moved.restored(handles).links.len() == before.links.len(),
        loop_nodes(moved.restored(handles).links, before.links.len() as int) == loop_nodes(
            before.links,
            before.links.len() as int,
        ).add(aside_nodes(before.pending, before.pending.len() as int)),
        before.pending.len() == 0 ==> loop_nodes(
            moved.restored(handles).links,
            before.links.len() as int,
        ) == loop_nodes(before.links, before.links.len() as int),
        proper(moved.restored(handles).links) == proper(before.links),
        moved.restored(handles).pending.len() == 0,
{
    let n = before.links.len() as int;
    let after = moved.restored(handles);
    let found = loops_below(before.links, n);
    lemma_no_loops(moved.links, n);
    lemma_loops_placed(moved.links, handles, moved.pending, moved.pending.len() as int);
    lemma_placed(moved.links, handles, moved.pending, moved.pending.len() as int);
    lemma_aside_nodes_of_loops(before.links, n);
    lemma_aside_nodes_joined(before.pending, found, found.len() as int);
    assert(moved.pending == before.pending + found);
    assert(Multiset::<usize>::empty().add(aside_nodes(moved.pending, moved.pending.len() as int))
        =~= loop_nodes(before.links, n).add(
        aside_nodes(before.pending, before.pending.len() as int),
    ));
    if before.pending.len() == 0 {
        assert(loop_nodes(before.links, n).add(aside_nodes(before.pending, 0)) =~= loop_nodes(
            before.links,
            n,
        ));
    }
    assert forall|e: int| 0 <= e < n implies (#[trigger] proper(after.links)[e]) == proper(
        before.links,
    )[e] by {
        if among(handles, moved.pending.len() as int, e) {
            let j = choose|j: int|
                0 <= j < moved.pending.len() && j < handles.len() && #[trigger] handles[j] == e;
            assert(after.links[handles[j] as int] == Some(loop_link(moved.pending[j])));
            assert(moved.links[handles[j] as int] is None);
        } else {
            assert(after.links[e] == moved.links[e]);
        }
    }
    assert(proper(after.links) =~= proper(before.links));
}

/// The nodes with the first `k` of them moved to the first `k` of `places`,
/// as far as there are places.
pub open spec fn moved_to(nodes: Seq<GraphNode>, places: Seq<Position>, k: int) -> Seq<GraphNode> {
    Seq::new(
        nodes.len(),
        |a: int|
            if a < k && a < places.len() {
                GraphNode { position: places[a], ..nodes[a] }
            } else {
                nodes[a]
            },
    )
}

/// Advances the simulation by one step.
///
/// The self-loops are set aside, `integrate` is shown the graph without them
/// and says where the nodes go, in the order of their handles, the nodes are
/// moved there, and the self-loops are put back. Returns the places that
/// `integrate` gave and the handles that the self-loops have now.
///
/// So the self-loops take no part in the integration: what `integrate`
/// answers, it answers to a graph that holds none. And whatever it answers,
/// every node has its self-loops after the step, and every other edge lies
/// in its slot as before.
pub fn update_simulation<F: FnOnce(&PhysicsGraph) -> Vec<Position>>(
    physics: &mut PhysicsGraph,
    integrate: F,
) -> (result: (Vec<Position>, Vec<usize>))
    requires
        old(physics).wf(),
        forall|cut: PhysicsGraph|
            cut.wf() && cut@ == old(physics)@.cut() ==> call_requires(integrate, (&cut,)),
    ensures
        final(physics).wf(),
        exists|shown: PhysicsGraph|
            shown.wf() && shown@ == old(physics)@.cut() && #[trigger] call_ensures(
                integrate,
                (&shown,),
                result.0,
            ),
        final(physics)@.nodes == moved_to(
            old(physics)@.nodes,
            result.0@,
            old(physics)@.nodes.len() as int,
        ),
        old(physics)@.cut().vacancies(result.1@),
        final(physics)@.links == old(physics)@.cut().restored(result.1@).links,
        final(physics)@.pending.len() == 0,
        final(physics)@.links.len() == old(physics)@.links.len(),
        loop_nodes(final(physics)@.links, final(physics)@.links.len() as int) == loop_nodes(
            old(physics)@.links,
            old(physics)@.links.len() as int,
        ).add(aside_nodes(old(physics)@.pending, old(physics)@.pending.len() as int)),
        old(physics)@.pending.len() == 0 ==> loop_nodes(
            final(physics)@.links,
            final(physics)@.links.len() as int,
        ) == loop_nodes(old(physics)@.links, old(physics)@.links.len() as int),
        proper(final(physics)@.links) == proper(old(physics)@.links),
{
    physics.begin_step();
    let ghost shown = *physics;
    let places = integrate(&*physics);
    proof {
        assert(call_ensures(integrate, (&shown,), places));
    }
    let n = physics.node_count();
    let ghost cut = physics@;
    let mut a: usize = 0;
    while a < n && a < places.len()
        invariant
            physics.wf(),
            a <= n == cut.nodes.len(),
            physics@.links == cut.links,
            physics@.pending == cut.pending,
            physics@.nodes == moved_to(cut.nodes, places@, a as int),
        decreases n - a,
    {
        physics.set_position(a, places[a]);
        a += 1;
    }
    proof {
        assert(physics@.nodes == moved_to(cut.nodes, places@, n as int));
    }
    let ghost moved = physics@;
    let handles = physics.end_step();
    proof {
        lemma_step_keeps_self_loops(old(physics)@, moved, handles@);
    }
    let result = (places, handles);
    proof {
        assert(shown.wf() && shown@ == old(physics)@.cut() && call_ensures(
            integrate,
            (&shown,),
            result.0,
        ));
    }
    result
}

// ---------------------------------------------------------------------------
// Synchronising with the display graph
// ---------------------------------------------------------------------------

/// The two graphs do not have the same nodes: they were not made from one
/// another, or one of them was replaced since.
#[derive(Debug, Clone, Copy, PartialEq, Eq, Structural)]
pub struct ConsistencyFault;

/// The nodes of the display graph after synchronising: a dragged node stays
/// where the user holds it, every other node goes where the simulation has
/// it.
pub open spec fn synced_display(display: Seq<GraphNode>, physics: Seq<GraphNode>) -> Seq<
    GraphNode,
> {
    Seq::new(
        display.len(),
        |i: int|
            if display[i].dragged {
                display[i]
            } else {
                GraphNode { position: physics[i].position, ..display[i] }
            },
    )
}

/// The nodes of the physics graph after synchronising: the node of a dragged
/// node goes where the user holds that node, every other node stays.
pub open spec fn synced_physics(display: Seq<GraphNode>, physics: Seq<GraphNode>) -> Seq<
    GraphNode,
> {
    Seq::new(
        physics.len(),
        |i: int|
            if display[i].dragged {
                GraphNode { position: display[i].position, ..physics[i] }
            } else {
                physics[i]
            },
    )
}

/// A dragged node pins its node in the simulation: after synchronising, the
/// node of the physics graph is exactly where the node of the display graph
/// is, and the display node has not moved.
pub proof fn lemma_drag_pins(display: Seq<GraphNode>, physics: Seq<GraphNode>, a: int)
    requires
        display.len() == physics.len(),
        0 <= a < display.len(),
        display[a].dragged,
    ensures
        synced_physics(display, physics)[a].position == display[a].position,
        synced_display(display, physics)[a] == display[a],
{
}

/// Brings the two graphs to agree on where the nodes are, once per frame.
///
/// The node of a dragged node is pinned to where the user holds it; every
/// other node of the display graph goes where the simulation has it. Every
/// edge of the physics graph gets the unit weight. Returns the handles of
/// the selected nodes, in rising order.
///
/// Fails where the graphs do not have the same number of nodes, and then
/// changes neither.
pub fn sync_graph_with_simulation(display: &mut DisplayGraph, physics: &mut PhysicsGraph) -> (result:
    Result<Vec<usize>, ConsistencyFault>)
    requires
        old(display).wf(),
        old(physics).wf(),
    ensures
        final(display).wf(),
        final(physics).wf(),
        match result {
            Ok(selected) => {
                &&& old(display)@.nodes.len() == old(physics)@.nodes.len()
                &&& final(display)@.nodes == synced_display(
                    old(display)@.nodes,
                    old(physics)@.nodes,
                )
                &&& final(display)@.links == old(display)@.links
                &&& final(physics)@.nodes == synced_physics(
                    old(display)@.nodes,
                    old(physics)@.nodes,
                )
                &&& final(physics)@.links == unit_weights(old(physics)@.links)
                &&& final(physics)@.pending == old(physics)@.pending
                &&& selected@ == selected_below(
                    old(display)@.nodes,
                    old(display)@.nodes.len() as int,
                )
            },
            Err(_) => {
                &&& old(display)@.nodes.len() != old(physics)@.nodes.len()
                &&& final(display)@ == old(display)@
                &&& final(physics)@ == old(physics)@
            },
        },
{
    let n = display.node_count();
    if n != physics.node_count() {
        return Err(ConsistencyFault);
    }
    let ghost shown = display@.nodes;
    let ghost moved = physics@.nodes;
    let mut selected: Vec<usize> = Vec::new();
    let mut i: usize = 0;
    while i < n
        invariant
            i <= n,
            display.wf(),
            physics.wf(),
            shown.len() == n,
            moved.len() == n,
            display@.nodes.len() == n,
            physics@.nodes.len() == n,
            display@.links == old(display)@.links,
            physics@.links == old(physics)@.links,
            physics@.pending == old(physics)@.pending,
            forall|k: int|
                0 <= k < n ==> (#[trigger] display@.nodes[k]) == (if k < i {
                    synced_display(shown, moved)[k]
                } else {
                    shown[k]
                }),
            forall|k: int|
                0 <= k < n ==> (#[trigger] physics@.nodes[k]) == (if k < i {
                    synced_physics(shown, moved)[k]
                } else {
                    moved[k]
                }),
            selected@ == selected_below(shown, i as int),
        decreases n - i,
    {
        let (dragged, chosen, position) = match display.node(i) {
            Some(node) => (node.dragged, node.selected, node.position),
            None => unreached(),
        };
        if dragged {
            physics.set_position(i, position);
        } else {
            let place = match physics.node(i) {
                Some(node) => node.position,
                None => unreached(),
            };
            display.set_position(i, place);
        }
        if chosen {
            selected.push(i);
        }
        i += 1;
    }
    proof {
        assert(display@.nodes == synced_display(shown, moved));
        assert(physics@.nodes == synced_physics(shown, moved));
    }
    physics.reset_weights();
    Ok(selected)
}

impl PhysicsGraph {
    /// Gives every edge the unit weight.
    pub fn reset_weights(&mut self)
        requires
            old(self).wf(),
        ensures
            final(self).wf(),
            final(self)@.nodes == old(self)@.nodes,
            final(self)@.links == unit_weights(old(self)@.links),
            final(self)@.pending == old(self)@.pending,
    {
        let handles = edge_indices(&self.graph);
        let ghost links = edge_slots(self.graph);
        proof {
            lemma_filled(links, links.len() as int);
        }
        let mut k: usize = 0;
        while k < handles.len()
            invariant
                k <= handles.len(),
                links.len() <= MAX_SLOTS,
                self.pending@ == old(self).pending@,
                forall|i: int|
                    0 <= i < handles.len() ==> (#[trigger] handles[i]) < links.len()
                        && links[handles[i] as int] is Some,
                forall|i: int, j: int| 0 <= i < j < handles.len() ==> handles[i] < handles[j],
                node_slots(self.graph) == node_slots(old(self).graph),
                edge_slots(self.graph).len() == links.len(),
                forall|e: int|
                    0 <= e < links.len() ==> (#[trigger] edge_slots(self.graph)[e]) == (if among(
                        handles@,
                        k as int,
                        e,
                    ) {
                        unit_weight(links[e])
                    } else {
                        links[e]
                    }),
                vacant(edge_slots(self.graph), links.len() as int) == vacant(
                    links,
                    links.len() as int,
                ),
            decreases handles.len() - k,
        {
            let e = handles[k];
            let ghost before = edge_slots(self.graph);
            proof {
                lemma_among_next(handles@, k as int);
                assert(before[e as int] == links[e as int]);
            }
            let edge = edge_mut(&mut self.graph, e);
            edge.weight = UNIT_WEIGHT;
            proof {
                lemma_vacant_update(
                    before,
                    e as int,
                    edge_slots(self.graph)[e as int],
                    links.len() as int,
                );
                assert forall|x: int| 0 <= x < links.len() implies (#[trigger] edge_slots(
                    self.graph,
                )[x]) == (if among(handles@, k + 1, x) {
                    unit_weight(links[x])
                } else {
                    links[x]
                }) by {
                    assert(among(handles@, k + 1, x) == (among(handles@, k as int, x) || x == e));
                }
            }
            k += 1;
        }
        proof {
            let wanted = unit_weights(links);
            assert forall|x: int| 0 <= x < links.len() implies (#[trigger] edge_slots(
                self.graph,
            )[x]) == wanted[x] by {
                if links[x] is Some {
                    lemma_among_all(links, x);
                }
            }
            assert(edge_slots(self.graph) == wanted);
        }
    }
}

} // verus!
